//! Integer parts of the parametric equaliser optimiser: the pseudo-random
//! state of its restarts and the order in which its filters are initialised.
use vstd::prelude::*;
use crate::constants::FilterType;

verus! {

/// One xorshift step (shifts 13, 7, 17), with 0 replaced by 1.
pub open spec fn xorshift(x: u64) -> u64 {
    let a = x ^ (x << 13u64);
    let b = a ^ (a >> 7u64);
    let c = b ^ (b << 17u64);
    if c == 0 {
        1
    } else {
        c
    }
}

/// Advances the pseudo-random state `seed` and returns the new state, which is
/// never 0.
pub fn xorshift_next(seed: &mut u64) -> (r: u64)
    ensures
        r == xorshift(*old(seed)),
        *final(seed) == r,
        r != 0,
{
    let mut x = *seed;
    x ^= x << 13u64;
    x ^= x >> 7u64;
    x ^= x << 17u64;
    if x == 0 {
        x = 1;
    }
    *seed = x;
    x
}

/// Rank of a filter by which of its centre frequency and Q are free: both (0),
/// the frequency only (1), Q only (2), neither (3).
pub open spec fn freedom_rank(optimize_fc: bool, optimize_q: bool) -> u64 {
    if optimize_fc && optimize_q {
        0
    } else if optimize_fc {
        1
    } else if optimize_q {
        2
    } else {
        3
    }
}

/// Rank of a filter kind: peaking (0), low shelf (1), high shelf (2).
pub open spec fn type_rank(t: FilterType) -> u64 {
    match t {
        FilterType::Peaking => 0,
        FilterType::LowShelf => 1,
        FilterType::HighShelf => 2,
    }
}

/// The key a filter is ordered by for initialisation: its freedom rank, its
/// kind's rank, then `range_key`, the width of its frequency range (in
/// thousandths of an octave).
pub fn filter_sort_key(optimize_fc: bool, optimize_q: bool, filter_type: FilterType, range_key: u64) -> (k: (u64, u64, u64))
    ensures
        k == (freedom_rank(optimize_fc, optimize_q), type_rank(filter_type), range_key),
{
    let rank: u64 = if optimize_fc && optimize_q {
        0
    } else if optimize_fc {
        1
    } else if optimize_q {
        2
    } else {
        3
    };
    let kind: u64 = match filter_type {
        FilterType::Peaking => 0,
        FilterType::LowShelf => 1,
        FilterType::HighShelf => 2,
    };
    (rank, kind, range_key)
}

/// `a` is greater than `b` in lexicographic order.
pub open spec fn key_greater(a: (u64, u64, u64), b: (u64, u64, u64)) -> bool {
    ||| a.0 > b.0
    ||| a.0 == b.0 && a.1 > b.1
    ||| a.0 == b.0 && a.1 == b.1 && a.2 > b.2
}

/// Filter `i` is initialised before filter `j`: its key is greater, or the keys
/// are equal and its index is greater.
pub open spec fn goes_before(keys: Seq<(u64, u64, u64)>, i: int, j: int) -> bool {
    key_greater(keys[i], keys[j]) || (keys[i] == keys[j] && i > j)
}

fn goes_before_exec(keys: &Vec<(u64, u64, u64)>, i: usize, j: usize) -> (b: bool)
    requires
        i < keys.len(),
        j < keys.len(),
    ensures
        b == goes_before(keys@, i as int, j as int),
{
    let a = keys[i];
    let c = keys[j];
    if a.0 != c.0 {
        a.0 > c.0
    } else if a.1 != c.1 {
        a.1 > c.1
    } else if a.2 != c.2 {
        a.2 > c.2
    } else {
        i > j
    }
}

/// `order` lists every filter index once, each before the ones it goes
/// before.
pub open spec fn is_init_order(keys: Seq<(u64, u64, u64)>, order: Seq<usize>) -> bool {
    &&& order.len() == keys.len()
    &&& forall|k: int| 0 <= k < order.len() ==> order[k] < keys.len()
    &&& forall|j: usize| j < keys.len() ==> #[trigger] order.contains(j)
    &&& forall|a: int, b: int| 0 <= a < b < order.len() ==> goes_before(keys, order[a] as int, order[b] as int)
}

/// The order in which the filters are initialised: every index once, by key
/// from greatest to smallest, equal keys by index from greatest to smallest
/// (a stable ascending sort by key, reversed).
pub fn init_order(keys: &Vec<(u64, u64, u64)>) -> (order: Vec<usize>)
    ensures
        is_init_order(keys@, order@),
{
    let n = keys.len();
    let mut order: Vec<usize> = Vec::new();
    let mut i: usize = 0;
    while i < n
        invariant
            i <= n == keys.len(),
            order.len() == i,
            forall|k: int| 0 <= k < order.len() ==> order[k] < i,
            forall|j: usize| j < i ==> #[trigger] order@.contains(j),
            forall|a: int, b: int| 0 <= a < b < order.len() ==> goes_before(keys@, order[a] as int, order[b] as int),
        decreases n - i,
    {
        let mut p: usize = 0;
        while p < order.len() && goes_before_exec(keys, order[p], i)
            invariant
                i < n == keys.len(),
                p <= order.len() == i,
                forall|k: int| 0 <= k < order.len() ==> order[k] < i,
                forall|k: int| 0 <= k < p ==> goes_before(keys@, order[k] as int, i as int),
            decreases order.len() - p,
        {
            p = p + 1;
        }
        let ghost before = order@;
        proof {
            assert forall|q: int| p <= q < before.len() implies goes_before(keys@, i as int, #[trigger] before[q] as int) by {
                if goes_before(keys@, before[q] as int, i as int) {
                    if q > p {
                        assert(goes_before(keys@, before[p as int] as int, before[q] as int));
                    }
                }
            }
        }
        order.insert(p, i);
        proof {
            assert forall|a: int, b: int| 0 <= a < b < order.len() implies goes_before(keys@, order[a] as int, order[b] as int) by {
                if a < p && b > p {
                    assert(order[a] == before[a]);
                    assert(order[b] == before[b - 1]);
                } else if a < p && b < p {
                    assert(order[a] == before[a]);
                    assert(order[b] == before[b]);
                } else if a == p {
                    assert(order[b] == before[b - 1]);
                } else if b == p {
                    assert(order[a] == before[a]);
                } else {
                    assert(order[a] == before[a - 1]);
                    assert(order[b] == before[b - 1]);
                }
            }
            assert forall|j: usize| j < i + 1 implies #[trigger] order@.contains(j) by {
                if j < i {
                    assert(before.contains(j));
                    let q = choose|q: int| 0 <= q < before.len() && before[q] == j;
                    if q < p {
                        assert(order[q] == before[q]);
                    } else {
                        assert(order[q + 1] == before[q]);
                    }
                } else {
                    assert(order[p as int] == i);
                }
            }
            assert forall|k: int| 0 <= k < order.len() implies order[k] < i + 1 by {
                if k < p {
                    assert(order[k] == before[k]);
                } else if k > p {
                    assert(order[k] == before[k - 1]);
                }
            }
        }
        i = i + 1;
    }
    order
}

/// In an initialisation order, a filter whose key is greater in the usual
/// lexicographic order (freedom rank, then kind rank, then range) comes
/// before one with a smaller key, and of two filters with equal keys the one
/// with the higher index comes first: the order of a stable ascending sort by
/// key, reversed.
pub proof fn lemma_init_order_follows_keys(keys: Seq<(u64, u64, u64)>, order: Seq<usize>, a: int, b: int)
    requires
        is_init_order(keys, order),
        0 <= a < order.len(),
        0 <= b < order.len(),
        ({
            let x = keys[order[a] as int];
            let y = keys[order[b] as int];
            ||| x.0 > y.0
            ||| x.0 == y.0 && x.1 > y.1
            ||| x.0 == y.0 && x.1 == y.1 && x.2 > y.2
            ||| x.0 == y.0 && x.1 == y.1 && x.2 == y.2 && order[a] > order[b]
        }),
    ensures
        a < b,
{
    if b < a {
        assert(goes_before(keys, order[b] as int, order[a] as int));
    }
}

/// Agreement of two initialisation orders on their first `k + 1` places.
proof fn lemma_init_orders_agree(keys: Seq<(u64, u64, u64)>, s: Seq<usize>, t: Seq<usize>, k: int)
    requires
        is_init_order(keys, s),
        is_init_order(keys, t),
        0 <= k < s.len(),
    ensures
        forall|j: int| 0 <= j <= k ==> s[j] == t[j],
    decreases k,
{
    if k > 0 {
        lemma_init_orders_agree(keys, s, t, k - 1);
    }
    let x = s[k];
    let y = t[k];
    assert(t.contains(x));
    let m = choose|m: int| 0 <= m < t.len() && t[m] == x;
    assert(s.contains(y));
    let m2 = choose|m: int| 0 <= m < s.len() && s[m] == y;
    if x != y {
        if m < k {
            assert(s[m] == x);
            assert(goes_before(keys, s[m] as int, s[k] as int));
        }
        if m2 < k {
            assert(t[m2] == y);
            assert(goes_before(keys, t[m2] as int, t[k] as int));
        }
        assert(goes_before(keys, t[k] as int, t[m] as int));
        assert(goes_before(keys, s[k] as int, s[m2] as int));
    }
}

/// The initialisation order is determined by the keys: two orders that both
/// list every index once, each before the ones it goes before, are the same.
pub proof fn lemma_init_order_unique(keys: Seq<(u64, u64, u64)>, s: Seq<usize>, t: Seq<usize>)
    requires
        is_init_order(keys, s),
        is_init_order(keys, t),
    ensures
        s == t,
{
    if s.len() > 0 {
        lemma_init_orders_agree(keys, s, t, s.len() - 1);
    }
    assert(s =~= t);
}

} // verus!
