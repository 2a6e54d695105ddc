//! Stable ordering of items by a key made of a rank and a text.
//!
//! Items are ordered by rank, then by text (lexicographically), and items with
//! equal keys keep their original relative order, as a stable sort does.

use vstd::prelude::*;
use crate::text::{chars_less, lemma_seq_lt_asymmetric, lemma_seq_lt_irreflexive, lemma_seq_lt_total, lemma_seq_lt_transitive, seq_lt};

verus! {

/// Strict order on keys: by rank, then by text.
pub open spec fn key_lt(r1: int, t1: Seq<char>, r2: int, t2: Seq<char>) -> bool {
    r1 < r2 || (r1 == r2 && seq_lt(t1, t2))
}

/// The texts of a list of character vectors.
pub open spec fn text_views(texts: Seq<Vec<char>>) -> Seq<Seq<char>> {
    texts.map_values(|v: Vec<char>| v@)
}

/// Item `i` comes before item `j` in the stable order of the keys
/// `(ranks[k], texts[k])`: its key is smaller, or the keys are equal and `i`
/// came first.
pub open spec fn stable_before(ranks: Seq<i128>, texts: Seq<Seq<char>>, i: int, j: int) -> bool {
    ||| key_lt(ranks[i] as int, texts[i], ranks[j] as int, texts[j])
    ||| (ranks[i] == ranks[j] && texts[i] == texts[j] && i < j)
}

/// `perm` lists every index of the keys exactly once, in stable order.
pub open spec fn is_stable_order(ranks: Seq<i128>, texts: Seq<Seq<char>>, perm: Seq<usize>) -> bool {
    &&& perm.len() == ranks.len()
    &&& forall|k: int| 0 <= k < perm.len() ==> #[trigger] perm[k] < ranks.len()
    &&& forall|i: int| 0 <= i < ranks.len() ==> #[trigger] perm.contains(i as usize)
    &&& forall|a: int, b: int|
        0 <= a < b < perm.len() ==> stable_before(ranks, texts, #[trigger] perm[a] as int, #[trigger] perm[b] as int)
}

/// Keys compare one way, the other way, or are equal.
pub proof fn lemma_key_trichotomy(r1: int, t1: Seq<char>, r2: int, t2: Seq<char>)
    ensures
        key_lt(r1, t1, r2, t2) || key_lt(r2, t2, r1, t1) || (r1 == r2 && t1 == t2),
        !(key_lt(r1, t1, r2, t2) && key_lt(r2, t2, r1, t1)),
        !key_lt(r1, t1, r1, t1),
{
    lemma_seq_lt_total(t1, t2);
    lemma_seq_lt_asymmetric(t1, t2);
    lemma_seq_lt_irreflexive(t1);
}

/// The order on keys is transitive.
pub proof fn lemma_key_transitive(r1: int, t1: Seq<char>, r2: int, t2: Seq<char>, r3: int, t3: Seq<char>)
    ensures
        key_lt(r1, t1, r2, t2) && key_lt(r2, t2, r3, t3) ==> key_lt(r1, t1, r3, t3),
{
    lemma_seq_lt_transitive(t1, t2, t3);
}

/// The stable order is transitive.
pub proof fn lemma_stable_before_transitive(ranks: Seq<i128>, texts: Seq<Seq<char>>, i: int, j: int, k: int)
    requires
        stable_before(ranks, texts, i, j),
        stable_before(ranks, texts, j, k),
    ensures
        stable_before(ranks, texts, i, k),
{
    lemma_key_transitive(
        ranks[i] as int,
        texts[i],
        ranks[j] as int,
        texts[j],
        ranks[k] as int,
        texts[k],
    );
}

/// The stable order is irreflexive and asymmetric.
pub proof fn lemma_stable_before_asymmetric(ranks: Seq<i128>, texts: Seq<Seq<char>>, i: int, j: int)
    ensures
        !stable_before(ranks, texts, i, i),
        stable_before(ranks, texts, i, j) ==> !stable_before(ranks, texts, j, i),
{
    lemma_key_trichotomy(ranks[i] as int, texts[i], ranks[j] as int, texts[j]);
}

/// Two distinct items are ordered one way or the other.
pub proof fn lemma_stable_before_total(ranks: Seq<i128>, texts: Seq<Seq<char>>, i: int, j: int)
    requires
        i != j,
    ensures
        stable_before(ranks, texts, i, j) || stable_before(ranks, texts, j, i),
{
    lemma_key_trichotomy(ranks[i] as int, texts[i], ranks[j] as int, texts[j]);
}

/// There is only one stable order of given keys: two index lists that both
/// arrange the items in stable order are the same list.
pub proof fn lemma_stable_order_unique(ranks: Seq<i128>, texts: Seq<Seq<char>>, p1: Seq<usize>, p2: Seq<usize>)
    requires
        texts.len() == ranks.len(),
        is_stable_order(ranks, texts, p1),
        is_stable_order(ranks, texts, p2),
    ensures
        p1 == p2,
{
    lemma_stable_order_prefix(ranks, texts, p1, p2, p1.len() as int);
    assert(p1 =~= p2);
}

proof fn lemma_stable_order_prefix(ranks: Seq<i128>, texts: Seq<Seq<char>>, p1: Seq<usize>, p2: Seq<usize>, n: int)
    requires
        texts.len() == ranks.len(),
        is_stable_order(ranks, texts, p1),
        is_stable_order(ranks, texts, p2),
        0 <= n <= p1.len(),
    ensures
        forall|k: int| 0 <= k < n ==> p1[k] == p2[k],
    decreases n,
{
    if n > 0 {
        let k = n - 1;
        lemma_stable_order_prefix(ranks, texts, p1, p2, k);
        let x = p1[k];
        let y = p2[k];
        if x != y {
            let yi = y as int;
            assert(p1.contains(yi as usize));
            let m = choose|m: int| 0 <= m < p1.len() && p1[m] == y;
            let xi = x as int;
            assert(p2.contains(xi as usize));
            let m2 = choose|m: int| 0 <= m < p2.len() && p2[m] == x;
            if m < k {
                assert(p2[m] == y);
                assert(stable_before(ranks, texts, p2[m] as int, p2[k] as int));
                lemma_stable_before_asymmetric(ranks, texts, y as int, y as int);
            } else if m2 < k {
                assert(p1[m2] == x);
                assert(stable_before(ranks, texts, p1[m2] as int, p1[k] as int));
                lemma_stable_before_asymmetric(ranks, texts, x as int, x as int);
            } else {
                assert(m != k);
                assert(m2 != k);
                assert(stable_before(ranks, texts, p1[k] as int, p1[m] as int));
                assert(stable_before(ranks, texts, p2[k] as int, p2[m2] as int));
                lemma_stable_before_asymmetric(ranks, texts, x as int, y as int);
            }
        }
    }
}

/// Strict comparison of two keys.
pub fn key_less(r1: i128, t1: &Vec<char>, r2: i128, t2: &Vec<char>) -> (r: bool)
    ensures
        r == key_lt(r1 as int, t1@, r2 as int, t2@),
{
    r1 < r2 || (r1 == r2 && chars_less(t1, t2))
}

/// The indices `0..ranks.len()` in the stable order of the keys
/// `(ranks[k], texts[k])`, as a stable sort arranges the items.
pub fn stable_order(ranks: &Vec<i128>, texts: &Vec<Vec<char>>) -> (perm: Vec<usize>)
    requires
        ranks.len() == texts.len(),
    ensures
        is_stable_order(ranks@, text_views(texts@), perm@),
{
    let ghost rs = ranks@;
    let ghost ts = text_views(texts@);
    let n = ranks.len();
    let mut perm: Vec<usize> = Vec::new();
    let mut i: usize = 0;
    while i < n
        invariant
            n == ranks.len() == texts.len(),
            rs == ranks@,
            ts == text_views(texts@),
            i <= n,
            perm.len() == i,
            forall|k: int| 0 <= k < perm.len() ==> #[trigger] perm@[k] < i,
            forall|j: int| 0 <= j < i ==> #[trigger] perm@.contains(j as usize),
            forall|a: int, b: int|
                0 <= a < b < perm.len() ==> stable_before(rs, ts, #[trigger] perm@[a] as int, #[trigger] perm@[b] as int),
        decreases n - i,
    {
        let mut p: usize = 0;
        while p < perm.len() && !key_less(ranks[i], &texts[i], ranks[perm[p]], &texts[perm[p]])
            invariant
                n == ranks.len() == texts.len(),
                i < n,
                p <= perm.len(),
                forall|k: int| 0 <= k < perm.len() ==> #[trigger] perm@[k] < i,
                forall|q: int|
                    0 <= q < p ==> !key_lt(rs[i as int] as int, ts[i as int], rs[perm@[q] as int] as int, #[trigger] ts[perm@[q] as int]),
                rs == ranks@,
                ts == text_views(texts@),
            decreases perm.len() - p,
        {
            p = p + 1;
        }
        let ghost old_perm = perm@;
        perm.insert(p, i);
        proof {
            old_perm.insert_ensures(p as int, i);
            let np = perm@;
            assert forall|a: int, b: int| 0 <= a < b < np.len() implies stable_before(
                rs,
                ts,
                #[trigger] np[a] as int,
                #[trigger] np[b] as int,
            ) by {
                let ii = i as int;
                if b < p {
                } else if b == p {
                    let x = old_perm[a] as int;
                    lemma_key_trichotomy(rs[ii] as int, ts[ii], rs[x] as int, ts[x]);
                } else if a < p {
                    assert(np[b] == old_perm[b - 1]);
                } else if a == p {
                    let y = old_perm[b - 1] as int;
                    let z = old_perm[p as int] as int;
                    if b - 1 > p {
                        assert(stable_before(rs, ts, z, y));
                    }
                    lemma_key_transitive(rs[ii] as int, ts[ii], rs[z] as int, ts[z], rs[y] as int, ts[y]);
                } else {
                    assert(np[a] == old_perm[a - 1]);
                    assert(np[b] == old_perm[b - 1]);
                }
            }
            assert forall|j: int| 0 <= j < i + 1 implies #[trigger] np.contains(j as usize) by {
                if j < i {
                    assert(old_perm.contains(j as usize));
                    let k = choose|k: int| 0 <= k < old_perm.len() && old_perm[k] == j as usize;
                    if k < p {
                        assert(np[k] == j as usize);
                    } else {
                        assert(np[k + 1] == j as usize);
                    }
                } else {
                    assert(np[p as int] == j as usize);
                }
            }
            assert forall|k: int| 0 <= k < np.len() implies #[trigger] np[k] < i + 1 by {
                if k < p {
                } else if k > p {
                    assert(np[k] == old_perm[k - 1]);
                }
            }
        }
        i = i + 1;
    }
    perm
}

} // verus!
