//! Stable sorting by a key, the way `slice::sort_by_key` orders the todo list.
use vstd::prelude::*;

verus! {

/// Lexicographic order on sequences of numbers: the order of `String`s, whose
/// UTF-8 bytes compare as their characters' code points do.
pub open spec fn lex_le(a: Seq<u32>, b: Seq<u32>) -> bool
    decreases a.len(),
{
    if a.len() == 0 {
        true
    } else if b.len() == 0 {
        false
    } else if a[0] < b[0] {
        true
    } else if a[0] > b[0] {
        false
    } else {
        lex_le(a.drop_first(), b.drop_first())
    }
}

/// Every sequence is at most itself.
pub proof fn lemma_lex_le_reflexive(a: Seq<u32>)
    ensures
        lex_le(a, a),
    decreases a.len(),
{
    if a.len() > 0 {
        lemma_lex_le_reflexive(a.drop_first());
    }
}

/// Any two sequences are ordered one way or the other.
pub proof fn lemma_lex_le_total(a: Seq<u32>, b: Seq<u32>)
    ensures
        lex_le(a, b) || lex_le(b, a),
    decreases a.len(),
{
    if a.len() > 0 && b.len() > 0 && a[0] == b[0] {
        lemma_lex_le_total(a.drop_first(), b.drop_first());
    }
}

/// The order is transitive.
pub proof fn lemma_lex_le_transitive(a: Seq<u32>, b: Seq<u32>, c: Seq<u32>)
    requires
        lex_le(a, b),
        lex_le(b, c),
    ensures
        lex_le(a, c),
    decreases a.len(),
{
    if a.len() > 0 && b.len() > 0 && c.len() > 0 && a[0] == b[0] && b[0] == c[0] {
        lemma_lex_le_transitive(a.drop_first(), b.drop_first(), c.drop_first());
    }
}

/// Lexicographic comparison of two key vectors.
pub fn lex_le_exec(a: &Vec<u32>, b: &Vec<u32>) -> (le: bool)
    ensures
        le == lex_le(a@, b@),
{
    let mut i: usize = 0;
    let n = a.len();
    let m = b.len();
    assert(a@.subrange(0, n as int) =~= a@);
    assert(b@.subrange(0, m as int) =~= b@);
    while i < n && i < m && a[i] == b[i]
        invariant
            i <= n == a@.len(),
            i <= m == b@.len(),
            lex_le(a@, b@) == lex_le(a@.subrange(i as int, n as int), b@.subrange(i as int, m as int)),
        decreases n - i,
    {
        proof {
            let sa = a@.subrange(i as int, n as int);
            let sb = b@.subrange(i as int, m as int);
            assert(sa.drop_first() =~= a@.subrange(i + 1, n as int));
            assert(sb.drop_first() =~= b@.subrange(i + 1, m as int));
        }
        i = i + 1;
    }
    if i == n {
        true
    } else if i == m {
        false
    } else {
        a[i] < b[i]
    }
}

/// How many items of `s` satisfy `pred`.
pub open spec fn count_matching<T>(s: Seq<T>, pred: spec_fn(T) -> bool) -> nat
    decreases s.len(),
{
    if s.len() == 0 {
        0
    } else {
        count_matching(s.drop_last(), pred) + if pred(s.last()) {
            1nat
        } else {
            0nat
        }
    }
}

/// `count_matching` counts what `Seq::filter` keeps.
pub proof fn lemma_count_is_filter_len<T>(s: Seq<T>, pred: spec_fn(T) -> bool)
    ensures
        count_matching(s, pred) == s.filter(pred).len(),
    decreases s.len(),
{
    reveal(Seq::filter);
    if s.len() > 0 {
        lemma_count_is_filter_len(s.drop_last(), pred);
    }
}

/// Every item either satisfies a predicate or its negation.
pub proof fn lemma_count_complement<T>(s: Seq<T>, pred: spec_fn(T) -> bool)
    ensures
        s.filter(pred).len() + s.filter(|x: T| !pred(x)).len() == s.len(),
    decreases s.len(),
{
    reveal(Seq::filter);
    if s.len() > 0 {
        lemma_count_complement(s.drop_last(), pred);
    }
}

proof fn lemma_count_insert<T>(s: Seq<T>, j: int, x: T, pred: spec_fn(T) -> bool)
    requires
        0 <= j <= s.len(),
    ensures
        count_matching(s.insert(j, x), pred) == count_matching(s, pred) + if pred(x) {
            1nat
        } else {
            0nat
        },
    decreases s.len(),
{
    if j == s.len() {
        assert(s.insert(j, x).drop_last() =~= s);
    } else {
        assert(s.insert(j, x).drop_last() =~= s.drop_last().insert(j, x));
        lemma_count_insert(s.drop_last(), j, x, pred);
    }
}

proof fn lemma_count_remove<T>(s: Seq<T>, i: int, pred: spec_fn(T) -> bool)
    requires
        0 <= i < s.len(),
    ensures
        count_matching(s, pred) == count_matching(s.remove(i), pred) + if pred(s[i]) {
            1nat
        } else {
            0nat
        },
    decreases s.len(),
{
    if i == s.len() - 1 {
        assert(s.remove(i) =~= s.drop_last());
    } else {
        assert(s.remove(i).drop_last() =~= s.drop_last().remove(i));
        lemma_count_remove(s.drop_last(), i, pred);
    }
}

/// `p` lists each of the indices `0..n` exactly once.
pub open spec fn is_permutation(p: Seq<int>, n: nat) -> bool {
    &&& p.len() == n
    &&& forall|k: int| 0 <= k < n ==> 0 <= #[trigger] p[k] < n
    &&& forall|k: int, l: int| 0 <= k < l < n ==> #[trigger] p[k] != #[trigger] p[l]
}

/// `out` is `inp` rearranged by `p`, in key order, with items of equal keys
/// in their original order.
pub open spec fn is_stable_arrangement<T>(
    out: Seq<T>,
    inp: Seq<T>,
    key: spec_fn(T) -> Seq<u32>,
    p: Seq<int>,
) -> bool {
    &&& is_permutation(p, inp.len())
    &&& out.len() == inp.len()
    &&& forall|k: int| 0 <= k < out.len() ==> #[trigger] out[k] == inp[p[k]]
    &&& forall|k: int, l: int|
        0 <= k < l < out.len() ==> lex_le(key(#[trigger] out[k]), key(#[trigger] out[l]))
    &&& forall|k: int, l: int|
        0 <= k < l < out.len() && key(#[trigger] out[k]) == key(#[trigger] out[l]) ==> p[k]
            < p[l]
}

/// `out` is `inp` stably sorted by `key`, as `slice::sort_by_key` leaves it.
pub open spec fn is_stable_sort_of<T>(out: Seq<T>, inp: Seq<T>, key: spec_fn(T) -> Seq<u32>) -> bool {
    exists|p: Seq<int>| is_stable_arrangement(out, inp, key, p)
}

/// Sorts `items` stably by the keys in `keys`, which hold `key` of each item
/// and are moved along with them.
pub fn sort_by_keys<T>(
    items: &mut Vec<T>,
    keys: &mut Vec<Vec<u32>>,
    Ghost(key): Ghost<spec_fn(T) -> Seq<u32>>,
)
    requires
        old(keys)@.len() == old(items)@.len(),
        forall|k: int| 0 <= k < old(items)@.len() ==> (#[trigger] old(keys)@[k])@ == key(old(items)@[k]),
    ensures
        final(items)@.len() == old(items)@.len(),
        is_stable_sort_of(final(items)@, old(items)@, key),
        forall|pred: spec_fn(T) -> bool| #[trigger] count_matching(final(items)@, pred) == count_matching(old(items)@, pred),
{
    let ghost inp = items@;
    let n = items.len();
    let ghost mut p: Seq<int> = Seq::new(n as nat, |k: int| k);
    let mut i: usize = 0;
    while i < n
        invariant
            n == inp.len(),
            items@.len() == n,
            keys@.len() == n,
            i <= n,
            forall|pred: spec_fn(T) -> bool| #[trigger] count_matching(items@, pred) == count_matching(inp, pred),
            forall|k: int| 0 <= k < n ==> (#[trigger] keys@[k])@ == key(items@[k]),
            p.len() == n,
            forall|k: int| 0 <= k < n ==> #[trigger] items@[k] == inp[p[k]],
            forall|k: int| i <= k < n ==> #[trigger] p[k] == k,
            forall|k: int| 0 <= k < i ==> 0 <= #[trigger] p[k] < i,
            forall|k: int, l: int| 0 <= k < l < n ==> #[trigger] p[k] != #[trigger] p[l],
            forall|k: int, l: int|
                0 <= k < l < i ==> lex_le(key(#[trigger] items@[k]), key(#[trigger] items@[l])),
            forall|k: int, l: int|
                0 <= k < l < i && key(#[trigger] items@[k]) == key(#[trigger] items@[l]) ==> p[k]
                    < p[l],
        decreases n - i,
    {
        let mut j: usize = i;
        while j > 0 && !lex_le_exec(&keys[j - 1], &keys[i])
            invariant
                j <= i < n,
                keys@.len() == n,
                items@.len() == n,
                forall|k: int| 0 <= k < n ==> (#[trigger] keys@[k])@ == key(items@[k]),
                forall|m: int| j <= m < i ==> !lex_le(key(#[trigger] items@[m]), key(items@[i as int])),
            decreases j,
        {
            j = j - 1;
        }
        let ghost old_items = items@;
        let ghost old_p = p;
        let ghost kx = key(old_items[i as int]);
        let x = items.remove(i);
        items.insert(j, x);
        let kv = keys.remove(i);
        keys.insert(j, kv);
        proof {
            assert forall|pred: spec_fn(T) -> bool| #[trigger] count_matching(items@, pred)
                == count_matching(inp, pred) by {
                lemma_count_remove(old_items, i as int, pred);
                lemma_count_insert(old_items.remove(i as int), j as int, old_items[i as int], pred);
            }
            p = p.remove(i as int).insert(j as int, i as int);
            assert forall|k: int| 0 <= k < n implies #[trigger] items@[k] == (if k < j {
                old_items[k]
            } else if k == j {
                old_items[i as int]
            } else if k <= i {
                old_items[k - 1]
            } else {
                old_items[k]
            }) && p[k] == (if k < j {
                old_p[k]
            } else if k == j {
                i as int
            } else if k <= i {
                old_p[k - 1]
            } else {
                old_p[k]
            }) by {}
            assert forall|k: int| 0 <= k < j implies lex_le(key(#[trigger] items@[k]), kx) by {
                if k < j - 1 {
                    lemma_lex_le_transitive(key(old_items[k]), key(old_items[j - 1]), kx);
                }
            }
            assert forall|m: int| j < m <= i implies lex_le(kx, key(#[trigger] items@[m])) && key(
                items@[m],
            ) != kx by {
                lemma_lex_le_total(key(old_items[m - 1]), kx);
                lemma_lex_le_reflexive(kx);
            }
            assert forall|k: int, l: int|
                0 <= k < l < i + 1 implies lex_le(
                key(#[trigger] items@[k]),
                key(#[trigger] items@[l]),
            ) by {
                if l == j {
                } else if k == j {
                } else {
                }
            }
            assert forall|k: int, l: int|
                0 <= k < l < i + 1 && key(#[trigger] items@[k]) == key(
                    #[trigger] items@[l],
                ) implies p[k] < p[l] by {
                if l == j {
                    assert(p[k] == old_p[k]);
                } else if k == j {
                } else {
                }
            }
            assert forall|k: int, l: int| 0 <= k < l < n implies #[trigger] p[k] != #[trigger] p[l] by {
                if k == j {
                    if l <= i {
                        assert(old_p[l - 1] < i);
                    }
                } else if l == j {
                    assert(old_p[k] < i);
                } else {
                }
            }
        }
        i = i + 1;
    }
    proof {
        assert(is_stable_arrangement(items@, inp, key, p));
    }
}

} // verus!
