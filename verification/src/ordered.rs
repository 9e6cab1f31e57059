//! Strings in code-point order (the order of `str` and of URLs), and
//! lookup in lists kept strictly sorted by it.
use vstd::prelude::*;

verus! {

/// `a` comes strictly before `b` in lexicographic code-point order. For
/// UTF-8 strings this is the byte order that `str`'s `Ord` uses.
pub open spec fn lex_less(a: Seq<char>, b: Seq<char>) -> bool
    decreases a.len(),
{
    if b.len() == 0 {
        false
    } else if a.len() == 0 {
        true
    } else if a[0] != b[0] {
        a[0] < b[0]
    } else {
        lex_less(a.drop_first(), b.drop_first())
    }
}

/// Every element of `s` comes strictly before every later one.
pub open spec fn strictly_sorted(s: Seq<Seq<char>>) -> bool {
    forall|i: int, j: int| 0 <= i < j < s.len() ==> lex_less(#[trigger] s[i], #[trigger] s[j])
}

/// The order is irreflexive.
pub proof fn lemma_lex_irreflexive(a: Seq<char>)
    ensures
        !lex_less(a, a),
    decreases a.len(),
{
    if a.len() > 0 {
        lemma_lex_irreflexive(a.drop_first());
    }
}

/// The order is transitive.
pub proof fn lemma_lex_transitive(a: Seq<char>, b: Seq<char>, c: Seq<char>)
    requires
        lex_less(a, b),
        lex_less(b, c),
    ensures
        lex_less(a, c),
    decreases a.len(),
{
    if a.len() > 0 && a[0] == b[0] && b[0] == c[0] {
        lemma_lex_transitive(a.drop_first(), b.drop_first(), c.drop_first());
    }
}

/// After a common first part, the order is that of the rests.
proof fn lemma_lex_skip(a: Seq<char>, b: Seq<char>, i: int)
    requires
        0 <= i <= a.len(),
        i <= b.len(),
        a.take(i) == b.take(i),
    ensures
        lex_less(a, b) == lex_less(a.skip(i), b.skip(i)),
    decreases i,
{
    if i > 0 {
        assert(a[0] == a.take(i)[0]);
        assert(b[0] == b.take(i)[0]);
        assert(a.drop_first().take(i - 1) =~= a.take(i).drop_first());
        assert(b.drop_first().take(i - 1) =~= b.take(i).drop_first());
        lemma_lex_skip(a.drop_first(), b.drop_first(), i - 1);
        assert(a.drop_first().skip(i - 1) =~= a.skip(i));
        assert(b.drop_first().skip(i - 1) =~= b.skip(i));
    } else {
        assert(a.skip(0) =~= a);
        assert(b.skip(0) =~= b);
    }
}

/// The outcome of comparing two strings.
#[derive(Debug, Clone, Copy, PartialEq, Eq, Structural)]
pub enum Order {
    Before,
    Same,
    After,
}

/// Compares `a` with `b` in code-point order.
pub fn compare_chars(a: &[char], b: &[char]) -> (r: Order)
    ensures
        r == Order::Before <==> lex_less(a@, b@),
        r == Order::Same <==> a@ == b@,
        r == Order::After <==> lex_less(b@, a@),
{
    let mut i: usize = 0;
    assert(a@.take(0) =~= b@.take(0));
    while i < a.len() && i < b.len() && a[i] == b[i]
        invariant
            i <= a@.len(),
            i <= b@.len(),
            a@.take(i as int) == b@.take(i as int),
        decreases a@.len() - i,
    {
        assert(a@.take(i + 1) =~= a@.take(i as int).push(a@[i as int]));
        assert(b@.take(i + 1) =~= b@.take(i as int).push(b@[i as int]));
        i = i + 1;
    }
    proof {
        lemma_lex_skip(a@, b@, i as int);
        lemma_lex_skip(b@, a@, i as int);
        lemma_lex_irreflexive(a@);
        if i < a@.len() && i < b@.len() {
            assert(a@.skip(i as int)[0] == a@[i as int]);
            assert(b@.skip(i as int)[0] == b@[i as int]);
            assert(a@ != b@) by {
                if a@ == b@ {
                    assert(a@[i as int] == b@[i as int]);
                }
            }
            let x = a@.skip(i as int);
            let y = b@.skip(i as int);
            assert(x.len() > 0 && y.len() > 0);
            assert(x[0] != y[0]);
            assert(lex_less(x, y) == (x[0] < y[0]));
            assert(lex_less(y, x) == (y[0] < x[0]));
        } else if i == a@.len() && i == b@.len() {
            assert(a@ =~= a@.take(i as int));
            assert(b@ =~= b@.take(i as int));
        } else if i == a@.len() {
            assert(a@.len() != b@.len());
            assert(a@.skip(i as int).len() == 0);
            assert(b@.skip(i as int).len() > 0);
        } else {
            assert(a@.len() != b@.len());
            assert(b@.skip(i as int).len() == 0);
            assert(a@.skip(i as int).len() > 0);
        }
    }
    if i < a.len() && i < b.len() {
        if a[i] < b[i] {
            Order::Before
        } else {
            Order::After
        }
    } else if i == a.len() && i == b.len() {
        Order::Same
    } else if i == a.len() {
        Order::Before
    } else {
        Order::After
    }
}

/// Where `key` stands in the strictly sorted `keys`: `pos` is the number of
/// keys before it, and `found` says whether `keys[pos]` is `key` itself.
pub fn locate(keys: &Vec<Vec<char>>, key: &[char]) -> (r: (bool, usize))
    requires
        strictly_sorted(keys@.map_values(|k: Vec<char>| k@)),
    ensures
        r.1 <= keys@.len(),
        forall|j: int| 0 <= j < r.1 ==> lex_less(#[trigger] keys@[j]@, key@),
        r.0 ==> r.1 < keys@.len() && keys@[r.1 as int]@ == key@,
        !r.0 ==> forall|j: int| r.1 <= j < keys@.len() ==> lex_less(key@, #[trigger] keys@[j]@),
        r.0 <==> exists|j: int| 0 <= j < keys@.len() && #[trigger] keys@[j]@ == key@,
{
    let ghost view = keys@.map_values(|k: Vec<char>| k@);
    let mut lo: usize = 0;
    let mut hi: usize = keys.len();
    while lo < hi
        invariant
            lo <= hi <= keys@.len(),
            view == keys@.map_values(|k: Vec<char>| k@),
            strictly_sorted(view),
            forall|j: int| 0 <= j < lo ==> lex_less(#[trigger] keys@[j]@, key@),
            forall|j: int| hi <= j < keys@.len() ==> lex_less(key@, #[trigger] keys@[j]@),
        decreases hi - lo,
    {
        let mid = lo + (hi - lo) / 2;
        match compare_chars(&keys[mid], key) {
            Order::Before => {
                assert forall|j: int| 0 <= j <= mid implies lex_less(#[trigger] keys@[j]@, key@) by {
                    if lo <= j < mid {
                        assert(lex_less(view[j], view[mid as int]));
                        lemma_lex_transitive(keys@[j]@, keys@[mid as int]@, key@);
                    }
                }
                lo = mid + 1;
            },
            Order::Same => {
                proof {
                    lemma_lex_irreflexive(key@);
                    assert forall|j: int| 0 <= j < mid implies lex_less(#[trigger] keys@[j]@, key@) by {
                        assert(lex_less(view[j], view[mid as int]));
                    }
                }
                return (true, mid);
            },
            Order::After => {
                assert forall|j: int| mid <= j < keys@.len() implies lex_less(key@, #[trigger] keys@[j]@) by {
                    if mid < j < hi {
                        assert(lex_less(view[mid as int], view[j]));
                        lemma_lex_transitive(key@, keys@[mid as int]@, keys@[j]@);
                    }
                }
                hi = mid;
            },
        }
    }
    proof {
        lemma_lex_irreflexive(key@);
    }
    (false, lo)
}

} // verus!
