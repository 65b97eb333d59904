use vstd::prelude::*;

use arrayvec::ArrayVec;
use crate::bits::Index;
use crate::plist::{pair_list, pairs_get, pairs_len, pairs_set};

verus! {

/// The sum of the first `m` entries of a sequence of counters.
pub open spec fn total(s: Seq<u16>, m: int) -> int
    decreases m,
{
    if m <= 0 {
        0
    } else {
        total(s, m - 1) + s[m - 1]
    }
}

proof fn lemma_total_update(s: Seq<u16>, m: int, j: int, v: u16)
    requires
        0 <= j < s.len(),
        m <= s.len(),
    ensures
        total(s.update(j, v), m) == total(s, m) + if j < m {
            v - s[j]
        } else {
            0
        },
    decreases m,
{
    if m > 0 {
        lemma_total_update(s, m - 1, j, v);
    }
}

/// Where each entry of `s` is at most the matching entry of `e`, so are the
/// sums.
proof fn lemma_total_le(s: Seq<u16>, e: Seq<u16>, m: int)
    requires
        m <= s.len(),
        m <= e.len(),
        forall|b: int| 0 <= b < m ==> s[b] <= e[b],
    ensures
        total(s, m) <= total(e, m),
    decreases m,
{
    if m > 0 {
        lemma_total_le(s, e, m - 1);
    }
}


/// 1 where the item at `q` has key `k`, else 0.
pub open spec fn has_key(s: Seq<(u16, Index, Index)>, q: int, k: int) -> int {
    if s[q].0 == k {
        1
    } else {
        0
    }
}

/// The number of positions in `lo..hi` whose item has key `k`.
pub open spec fn range_count(s: Seq<(u16, Index, Index)>, k: int, lo: int, hi: int) -> int
    decreases hi - lo,
{
    if hi <= lo {
        0
    } else {
        range_count(s, k, lo, hi - 1) + has_key(s, hi - 1, k)
    }
}

/// The items come in the order of their keys.
pub open spec fn sorted_by_key(s: Seq<(u16, Index, Index)>) -> bool {
    forall|a: int, b: int| 0 <= a < b < s.len() ==> #[trigger] s[a].0 <= #[trigger] s[b].0
}

/// The items of key `k` that the first `m` buckets still hold unplaced: those
/// at `st[b]..en[b]` for each bucket `b`.
pub open spec fn pending(s: Seq<(u16, Index, Index)>, st: Seq<u16>, en: Seq<u16>, k: int, m: int) -> int
    decreases m,
{
    if m <= 0 {
        0
    } else {
        pending(s, st, en, k, m - 1) + range_count(s, k, st[m - 1] as int, en[m - 1] as int)
    }
}

/// Buckets `bg[b]..en[b]` that follow one another from 0.
pub open spec fn tiled(bg: Seq<u16>, en: Seq<u16>, m: int) -> bool {
    &&& 1 <= m <= bg.len()
    &&& m <= en.len()
    &&& bg[0] == 0
    &&& forall|b: int| 0 <= b < m ==> #[trigger] bg[b] <= en[b]
    &&& forall|b: int| 1 <= b < m ==> #[trigger] bg[b] == en[b - 1]
}

proof fn lemma_range_split(s: Seq<(u16, Index, Index)>, k: int, lo: int, mid: int, hi: int)
    requires
        lo <= mid <= hi,
    ensures
        range_count(s, k, lo, hi) == range_count(s, k, lo, mid) + range_count(s, k, mid, hi),
    decreases hi - mid,
{
    if mid < hi {
        lemma_range_split(s, k, lo, mid, hi - 1);
    }
}

proof fn lemma_range_nonneg(s: Seq<(u16, Index, Index)>, k: int, lo: int, hi: int)
    ensures
        range_count(s, k, lo, hi) >= 0,
    decreases hi - lo,
{
    if lo < hi {
        lemma_range_nonneg(s, k, lo, hi - 1);
    }
}

/// A range that holds an item of key `k` counts at least one.
proof fn lemma_range_has(s: Seq<(u16, Index, Index)>, k: int, lo: int, q: int, hi: int)
    requires
        lo <= q < hi,
        s[q].0 == k,
    ensures
        range_count(s, k, lo, hi) >= 1,
{
    lemma_range_split(s, k, lo, q, hi);
    lemma_range_split(s, k, q, q + 1, hi);
    assert(range_count(s, k, q, q) == 0);
    assert(range_count(s, k, q, q + 1) == has_key(s, q, k));
    lemma_range_nonneg(s, k, lo, q);
    lemma_range_nonneg(s, k, q + 1, hi);
}

proof fn lemma_range_update(s: Seq<(u16, Index, Index)>, k: int, lo: int, hi: int, q: int, v: (u16, Index, Index))
    requires
        0 <= q < s.len(),
        0 <= lo,
        hi <= s.len(),
    ensures
        range_count(s.update(q, v), k, lo, hi) == range_count(s, k, lo, hi) + if lo <= q < hi {
            has_key(s.update(q, v), q, k) - has_key(s, q, k)
        } else {
            0
        },
    decreases hi - lo,
{
    if lo < hi {
        lemma_range_update(s, k, lo, hi - 1, q, v);
    }
}

proof fn lemma_pending_nonneg(s: Seq<(u16, Index, Index)>, st: Seq<u16>, en: Seq<u16>, k: int, m: int)
    ensures
        pending(s, st, en, k, m) >= 0,
    decreases m,
{
    if m > 0 {
        lemma_pending_nonneg(s, st, en, k, m - 1);
        lemma_range_nonneg(s, k, st[m - 1] as int, en[m - 1] as int);
    }
}

/// What bucket `c` still holds is part of what all the buckets hold.
proof fn lemma_pending_ge(s: Seq<(u16, Index, Index)>, st: Seq<u16>, en: Seq<u16>, k: int, m: int, c: int)
    requires
        0 <= c < m,
    ensures
        pending(s, st, en, k, m) >= range_count(s, k, st[c] as int, en[c] as int),
    decreases m,
{
    lemma_pending_nonneg(s, st, en, k, m - 1);
    lemma_range_nonneg(s, k, st[m - 1] as int, en[m - 1] as int);
    if c < m - 1 {
        lemma_pending_ge(s, st, en, k, m - 1, c);
    }
}

proof fn lemma_pending_same(s: Seq<(u16, Index, Index)>, st1: Seq<u16>, st2: Seq<u16>, en: Seq<u16>, k: int, m: int)
    requires
        m <= st1.len(),
        m <= st2.len(),
        forall|b: int| 0 <= b < m ==> st1[b] == st2[b],
    ensures
        pending(s, st1, en, k, m) == pending(s, st2, en, k, m),
    decreases m,
{
    if m > 0 {
        lemma_pending_same(s, st1, st2, en, k, m - 1);
    }
}

/// Writing one item changes the count only through the bucket `c` that holds
/// its position.
proof fn lemma_pending_update(
    s: Seq<(u16, Index, Index)>,
    st: Seq<u16>,
    en: Seq<u16>,
    k: int,
    m: int,
    q: int,
    v: (u16, Index, Index),
    c: int,
)
    requires
        0 <= q < s.len(),
        m <= st.len(),
        m <= en.len(),
        forall|b: int| 0 <= b < m ==> #[trigger] en[b] <= s.len(),
        forall|b: int| 0 <= b < m && b != c ==> !(#[trigger] st[b] <= q < en[b]),
    ensures
        pending(s.update(q, v), st, en, k, m) == pending(s, st, en, k, m) + if 0 <= c < m && st[c] <= q < en[c] {
            has_key(s.update(q, v), q, k) - has_key(s, q, k)
        } else {
            0
        },
    decreases m,
{
    if m > 0 {
        lemma_pending_update(s, st, en, k, m - 1, q, v, c);
        assert(en[m - 1] <= s.len());
        lemma_range_update(s, k, st[m - 1] as int, en[m - 1] as int, q, v);
    }
}

/// Moving bucket `c`'s start past one item takes that item out of the count.
proof fn lemma_pending_advance(s: Seq<(u16, Index, Index)>, st: Seq<u16>, en: Seq<u16>, k: int, m: int, c: int)
    requires
        0 <= c < m,
        m <= st.len(),
        m <= en.len(),
        st[c] < en[c],
    ensures
        pending(s, st.update(c, (st[c] + 1) as u16), en, k, m) == pending(s, st, en, k, m) - has_key(s, st[c] as int, k),
    decreases m,
{
    let st2 = st.update(c, (st[c] + 1) as u16);
    if c == m - 1 {
        lemma_pending_same(s, st, st2, en, k, m - 1);
        lemma_range_split(s, k, st[c] as int, st[c] + 1, en[c] as int);
        assert(range_count(s, k, st[c] as int, st[c] as int) == 0);
        assert(range_count(s, k, st[c] as int, st[c] + 1) == has_key(s, st[c] as int, k));
    } else {
        lemma_pending_advance(s, st, en, k, m - 1, c);
    }
}

/// Over buckets that follow one another from 0, the items still held are all
/// the items up to the last bucket's end.
proof fn lemma_pending_tiled(s: Seq<(u16, Index, Index)>, bg: Seq<u16>, en: Seq<u16>, k: int, m: int)
    requires
        tiled(bg, en, m),
    ensures
        pending(s, bg, en, k, m) == range_count(s, k, 0, en[m - 1] as int),
    decreases m,
{
    assert(pending(s, bg, en, k, 0) == 0);
    if m > 1 {
        lemma_pending_tiled(s, bg, en, k, m - 1);
        assert(bg[m - 1] == en[m - 2]);
        lemma_range_split(s, k, 0, en[m - 2] as int, en[m - 1] as int);
    }
}

/// Each position below the last bucket's end lies in some bucket.
proof fn lemma_bucket_of(bg: Seq<u16>, en: Seq<u16>, m: int, q: int)
    requires
        tiled(bg, en, m),
        0 <= q < en[m - 1],
    ensures
        exists|b: int| 0 <= b < m && bg[b] <= q < #[trigger] en[b],
    decreases m,
{
    if q >= bg[m - 1] {
        assert(bg[m - 1] <= q < en[m - 1]);
    } else {
        assert(m > 1);
        assert(bg[m - 1] == en[m - 2]);
        assert(tiled(bg, en, m - 1));
        lemma_bucket_of(bg, en, m - 1, q);
    }
}

/// Earlier buckets end before later ones begin.
proof fn lemma_buckets_ordered(bg: Seq<u16>, en: Seq<u16>, m: int, b1: int, b2: int)
    requires
        tiled(bg, en, m),
        0 <= b1 < b2 < m,
    ensures
        en[b1] <= bg[b2],
    decreases b2 - b1,
{
    if b2 > b1 + 1 {
        lemma_buckets_ordered(bg, en, m, b1, b2 - 1);
        assert(bg[b2 - 1] <= en[b2 - 1]);
        assert(bg[b2] == en[b2 - 1]);
    } else {
        assert(bg[b1 + 1] == en[b1]);
    }
}

/// Sorts pairs by their distance, in place, with a counting sort that moves
/// each item straight into its key's bucket. The result holds the same items,
/// in the order of their keys.
pub fn counting_sort(arr: &mut ArrayVec<(u16, Index, Index), 4096>)
    requires
        pair_list(*old(arr)).len() <= 65535,
    ensures
        pair_list(*final(arr)).to_multiset() == pair_list(*old(arr)).to_multiset(),
        sorted_by_key(pair_list(*final(arr))),
{
    broadcast use vstd::seq_lib::to_multiset_update;
    broadcast use vstd::multiset::group_multiset_properties;

    let n = pairs_len(arr);
    if n <= 1 {
        return;
    }
    // 1. Compute the maximum key
    let mut max_key: u16 = 0;
    let mut j: usize = 0;
    while j < n
        invariant
            n == pair_list(*arr).len(),
            j <= n,
            forall|q: int| 0 <= q < j ==> (#[trigger] pair_list(*arr)[q]).0 <= max_key,
        decreases n - j,
    {
        if pairs_get(arr, j).0 > max_key {
            max_key = pairs_get(arr, j).0;
        }
        j = j + 1;
    }
    let buckets = max_key as usize + 1;
    let mut counts: Vec<u16> = Vec::new();
    let mut starts: Vec<u16> = Vec::new();
    let mut ends: Vec<u16> = Vec::new();
    let mut k: usize = 0;
    while k < buckets
        invariant
            k <= buckets,
            counts@.len() == k,
            starts@.len() == k,
            ends@.len() == k,
            forall|b: int| 0 <= b < k ==> #[trigger] counts@[b] == 0,
            forall|b: int| 0 <= b < k ==> #[trigger] starts@[b] == 0 && ends@[b] == 0,
        decreases buckets - k,
    {
        counts.push(0);
        starts.push(0);
        ends.push(0);
        k = k + 1;
    }
    // 2. Count frequencies
    proof {
        lemma_total_zero(counts@, buckets as int);
    }
    let mut j: usize = 0;
    while j < n
        invariant
            n == pair_list(*arr).len(),
            n <= 65535,
            j <= n,
            buckets == max_key + 1,
            counts@.len() == buckets,
            forall|q: int| 0 <= q < n ==> (#[trigger] pair_list(*arr)[q]).0 <= max_key,
            forall|b: int| 0 <= b < buckets ==> #[trigger] counts@[b] <= j,
            forall|b: int| 0 <= b < buckets ==> #[trigger] counts@[b] == range_count(pair_list(*arr), b, 0, j as int),
            total(counts@, buckets as int) == j,
            starts@.len() == buckets,
            ends@.len() == buckets,
        decreases n - j,
    {
        let key = pairs_get(arr, j).0 as usize;
        proof {
            lemma_total_update(counts@, buckets as int, key as int, (counts@[key as int] + 1) as u16);
        }
        let ghost c0 = counts@;
        counts.set(key, counts[key] + 1);
        proof {
            assert forall|b: int| 0 <= b < buckets implies #[trigger] counts@[b] == range_count(
                pair_list(*arr),
                b,
                0,
                j + 1,
            ) by {
                assert(range_count(pair_list(*arr), b, 0, j + 1) == range_count(pair_list(*arr), b, 0, j as int) + has_key(pair_list(*arr), j as int, b));
                if b != key {
                    assert(counts@[b] == c0[b]);
                }
            }
        }
        j = j + 1;
    }
    // 3. Calculate the starting write index for each key (Prefix Sums).
    let mut current: u16 = 0;
    let mut i: usize = 0;
    while i < buckets
        invariant
            n <= 65535,
            i <= buckets,
            counts@.len() == buckets,
            starts@.len() == buckets,
            ends@.len() == buckets,
            total(counts@, buckets as int) == n,
            current == total(counts@, i as int),
            forall|b: int| 0 <= b < i ==> #[trigger] starts@[b] == total(counts@, b) && ends@[b] == total(counts@, b + 1),
        decreases buckets - i,
    {
        proof {
            lemma_total_prefix_le(counts@, i + 1, buckets as int);
        }
        let ghost s0 = starts@;
        let ghost e0 = ends@;
        starts.set(i, current);
        current = current + counts[i];
        ends.set(i, current);
        proof {
            assert forall|b: int| 0 <= b < i + 1 implies #[trigger] starts@[b] == total(counts@, b) && ends@[b] == total(
                counts@,
                b + 1,
            ) by {
                if b < i {
                    assert(starts@[b] == s0[b]);
                    assert(ends@[b] == e0[b]);
                }
            }
        }
        i = i + 1;
    }
    assert(current == n);
    let ghost bg = starts@;
    let ghost en = ends@;
    let ghost orig = pair_list(*arr);
    proof {
        assert forall|b: int| 0 <= b < buckets implies #[trigger] bg[b] <= en[b] by {
            assert(starts@[b] == total(counts@, b));
            assert(en[b] == total(counts@, b + 1));
        }
        assert forall|b: int| 1 <= b < buckets implies #[trigger] bg[b] == en[b - 1] by {
            assert(starts@[b] == total(counts@, b));
            assert(starts@[b - 1] == total(counts@, b - 1));
            assert(ends@[b - 1] == total(counts@, b));
        }
        assert(starts@[buckets - 1] == total(counts@, buckets - 1));
        assert forall|b: int| 0 <= b < buckets implies #[trigger] starts@[b] <= ends@[b] && ends@[b] <= n by {
            assert(starts@[b] == total(counts@, b));
            lemma_total_prefix_le(counts@, b + 1, buckets as int);
        }
        assert(tiled(bg, en, buckets as int));
        assert(en[buckets - 1] == n);
        assert forall|k: int| 0 <= k < buckets implies #[trigger] pending(pair_list(*arr), starts@, ends@, k, buckets as int)
            == ends@[k] - starts@[k] by {
            lemma_pending_tiled(pair_list(*arr), bg, en, k, buckets as int);
            assert(en[k] - bg[k] == counts@[k]);
        }
    }
    // 4. Swap elements into their correct buckets
    let mut i: usize = 0;
    while i < buckets
        invariant
            n == pair_list(*arr).len(),
            i <= buckets,
            buckets == max_key + 1,
            starts@.len() == buckets,
            ends@.len() == buckets,
            ends@ == en,
            bg.len() == buckets,
            tiled(bg, en, buckets as int),
            en[buckets - 1] == n,
            forall|q: int| 0 <= q < n ==> (#[trigger] pair_list(*arr)[q]).0 <= max_key,
            forall|b: int| 0 <= b < buckets ==> #[trigger] starts@[b] <= ends@[b] && ends@[b] <= n,
            forall|b: int| 0 <= b < buckets ==> bg[b] <= #[trigger] starts@[b],
            forall|b: int| 0 <= b < i ==> #[trigger] starts@[b] == ends@[b],
            forall|b: int, q: int|
                #![trigger starts@[b], pair_list(*arr)[q]]
                0 <= b < buckets && bg[b] <= q < starts@[b] ==> pair_list(*arr)[q].0 == b,
            forall|k: int| 0 <= k < buckets ==> #[trigger] pending(pair_list(*arr), starts@, ends@, k, buckets as int)
                == ends@[k] - starts@[k],
            pair_list(*arr).to_multiset() == orig.to_multiset(),
        decreases buckets - i,
    {
        while starts[i] < ends[i]
            invariant
                n == pair_list(*arr).len(),
                i < buckets,
                buckets == max_key + 1,
                starts@.len() == buckets,
                ends@.len() == buckets,
                ends@ == en,
                bg.len() == buckets,
                tiled(bg, en, buckets as int),
                en[buckets - 1] == n,
                forall|q: int| 0 <= q < n ==> (#[trigger] pair_list(*arr)[q]).0 <= max_key,
                forall|b: int| 0 <= b < buckets ==> #[trigger] starts@[b] <= ends@[b] && ends@[b] <= n,
                forall|b: int| 0 <= b < buckets ==> bg[b] <= #[trigger] starts@[b],
                forall|b: int| 0 <= b < i ==> #[trigger] starts@[b] == ends@[b],
                forall|b: int, q: int|
                    #![trigger starts@[b], pair_list(*arr)[q]]
                    0 <= b < buckets && bg[b] <= q < starts@[b] ==> pair_list(*arr)[q].0 == b,
                forall|k: int| 0 <= k < buckets ==> #[trigger] pending(pair_list(*arr), starts@, ends@, k, buckets as int)
                    == ends@[k] - starts@[k],
                pair_list(*arr).to_multiset() == orig.to_multiset(),
            decreases total(ends@, buckets as int) - total(starts@, buckets as int),
        {
            let s = starts[i];
            let current_key = pairs_get(arr, s as usize).0 as usize;
            proof {
                lemma_total_le(starts@, ends@, buckets as int);
            }
            if current_key == i {
                // This element is already in the correct bucket.
                proof {
                    lemma_total_update(starts@, buckets as int, i as int, (s + 1) as u16);
                    assert forall|k: int| 0 <= k < buckets implies #[trigger] pending(
                        pair_list(*arr),
                        starts@.update(i as int, (s + 1) as u16),
                        ends@,
                        k,
                        buckets as int,
                    ) == ends@[k] - starts@.update(i as int, (s + 1) as u16)[k] by {
                        lemma_pending_advance(pair_list(*arr), starts@, ends@, k, buckets as int, i as int);
                    }
                }
                let ghost st0 = starts@;
                starts.set(i, s + 1);
                proof {
                    assert forall|b: int| 0 <= b < buckets implies #[trigger] starts@[b] <= ends@[b] && ends@[b] <= n by {
                        if b != i {
                            assert(starts@[b] == st0[b]);
                        }
                    }
                    assert forall|b: int| 0 <= b < buckets implies bg[b] <= #[trigger] starts@[b] by {
                        if b != i {
                            assert(starts@[b] == st0[b]);
                        }
                    }
                    assert forall|b: int| 0 <= b < i implies #[trigger] starts@[b] == ends@[b] by {
                        assert(starts@[b] == st0[b]);
                    }
                    assert forall|b: int, q: int|
                        0 <= b < buckets && bg[b] <= q < #[trigger] starts@[b] implies (#[trigger] pair_list(*arr)[q]).0 == b by {
                        if b != i {
                            assert(starts@[b] == st0[b]);
                        } else if q < s {
                            assert(st0[b] == s);
                        }
                    }
                    lemma_total_le(starts@, ends@, buckets as int);
                }
            } else {
                // This element belongs to a different bucket (`current_key`).
                // Swap it to the next available slot in that target bucket.
                let ghost kk = current_key as int;
                proof {
                    lemma_pending_ge(pair_list(*arr), starts@, ends@, kk, buckets as int, i as int);
                    lemma_range_has(pair_list(*arr), kk, starts@[i as int] as int, s as int, ends@[i as int] as int);
                }
                let dest = starts[current_key];
                proof {
                    assert(dest < en[kk]);
                    assert forall|bb: int| 0 <= bb < buckets implies #[trigger] en[bb] <= n by {
                        assert(starts@[bb] <= ends@[bb]);
                    }
                }
                let a = pairs_get(arr, s as usize);
                let b = pairs_get(arr, dest as usize);
                let ghost a0 = pair_list(*arr);
                let ghost m0 = pair_list(*arr).to_multiset();
                let ghost st0 = starts@;
                proof {
                    // The two positions lie in the buckets of their keys.
                    assert forall|bb: int| 0 <= bb < buckets && bb != i implies !(#[trigger] st0[bb] <= s < en[bb]) by {
                        if bb < i {
                            lemma_buckets_ordered(bg, en, buckets as int, bb, i as int);
                        } else {
                            lemma_buckets_ordered(bg, en, buckets as int, i as int, bb);
                        }
                    }
                    assert forall|bb: int| 0 <= bb < buckets && bb != kk implies !(#[trigger] st0[bb] <= dest < en[bb]) by {
                        if bb < kk {
                            lemma_buckets_ordered(bg, en, buckets as int, bb, kk);
                        } else {
                            lemma_buckets_ordered(bg, en, buckets as int, kk, bb);
                        }
                    }
                    assert(dest != s);
                }
                pairs_set(arr, s as usize, b);
                let ghost a1 = pair_list(*arr);
                pairs_set(arr, dest as usize, a);
                proof {
                    assert(a1 == a0.update(s as int, b));
                    vstd::seq_lib::to_multiset_update(a0, s as int, b);
                    assert(a1.to_multiset() == m0.insert(b).remove(a));
                    assert(a1[dest as int] == b);
                    assert(pair_list(*arr) == a1.update(dest as int, a));
                    vstd::seq_lib::to_multiset_update(a1, dest as int, a);
                    assert(pair_list(*arr).to_multiset() == a1.to_multiset().insert(a).remove(b));
                    assert(a0.contains(a)) by {
                        assert(a0[s as int] == a);
                    }
                    vstd::seq_lib::to_multiset_contains(a0, a);
                    assert(m0.count(a) > 0);
                    assert(m0.insert(b).remove(a).insert(a) =~= m0.insert(b));
                    assert(m0.insert(b).remove(b) =~= m0);
                    assert(pair_list(*arr).to_multiset() =~= m0);
                    assert forall|q: int| 0 <= q < n implies (#[trigger] pair_list(*arr)[q]).0 <= max_key by {
                        if q == dest {
                        } else if q == s {
                            assert(a0[dest as int] == b);
                        } else {
                            assert(pair_list(*arr)[q] == a0[q]);
                        }
                    }
                    assert forall|x: int| 0 <= x < buckets implies #[trigger] pending(pair_list(*arr), st0, en, x, buckets as int)
                        == pending(a0, st0, en, x, buckets as int) by {
                        lemma_pending_update(a0, st0, en, x, buckets as int, s as int, b, i as int);
                        lemma_pending_update(a1, st0, en, x, buckets as int, dest as int, a, kk);
                    }
                    assert forall|x: int| 0 <= x < buckets implies #[trigger] pending(
                        pair_list(*arr),
                        st0.update(kk, (dest + 1) as u16),
                        en,
                        x,
                        buckets as int,
                    ) == en[x] - st0.update(kk, (dest + 1) as u16)[x] by {
                        lemma_pending_advance(pair_list(*arr), st0, en, x, buckets as int, kk);
                    }
                    lemma_total_update(starts@, buckets as int, current_key as int, (dest + 1) as u16);
                }
                // Advance the write pointer for the target bucket.
                starts.set(current_key, dest + 1);
                proof {
                    assert forall|bb: int| 0 <= bb < buckets implies #[trigger] starts@[bb] <= ends@[bb] && ends@[bb] <= n by {
                        if bb != current_key {
                            assert(starts@[bb] == st0[bb]);
                        }
                    }
                    assert forall|bb: int| 0 <= bb < buckets implies bg[bb] <= #[trigger] starts@[bb] by {
                        if bb != current_key {
                            assert(starts@[bb] == st0[bb]);
                        }
                    }
                    assert forall|bb: int| 0 <= bb < i implies #[trigger] starts@[bb] == ends@[bb] by {
                        if bb == kk {
                            // a full bucket holds nothing unplaced
                            assert(st0[bb] == en[bb]);
                        }
                        assert(starts@[bb] == st0[bb]);
                    }
                    assert forall|bb: int, q: int|
                        0 <= bb < buckets && bg[bb] <= q < #[trigger] starts@[bb] implies (#[trigger] pair_list(*arr)[q]).0 == bb by {
                        if bb == kk && q == dest {
                        } else {
                            if bb != kk {
                                assert(starts@[bb] == st0[bb]);
                            }
                            assert(q < st0[bb]);
                            if bb != kk {
                                assert(bg[kk] <= st0[kk]);
                                if bb < kk {
                                    lemma_buckets_ordered(bg, en, buckets as int, bb, kk);
                                } else {
                                    lemma_buckets_ordered(bg, en, buckets as int, kk, bb);
                                }
                            }
                            assert(q != dest);
                            if q == s {
                                if bb == i {
                                } else if bb < i {
                                    lemma_buckets_ordered(bg, en, buckets as int, bb, i as int);
                                } else {
                                    lemma_buckets_ordered(bg, en, buckets as int, i as int, bb);
                                }
                                assert(false);
                            }
                            assert(pair_list(*arr)[q] == a0[q]);
                        }
                    }
                    lemma_total_le(starts@, ends@, buckets as int);
                }
            }
        }
        i = i + 1;
    }
    proof {
        assert forall|q1: int, q2: int| 0 <= q1 < q2 < pair_list(*arr).len() implies #[trigger] pair_list(*arr)[q1].0 <= #[trigger] pair_list(*arr)[q2].0 by {
            lemma_bucket_of(bg, en, buckets as int, q1);
            lemma_bucket_of(bg, en, buckets as int, q2);
            let b1 = choose|b: int| 0 <= b < buckets && bg[b] <= q1 < #[trigger] en[b];
            let b2 = choose|b: int| 0 <= b < buckets && bg[b] <= q2 < #[trigger] en[b];
            assert(starts@[b1] == ends@[b1]);
            assert(starts@[b2] == ends@[b2]);
            assert(pair_list(*arr)[q1].0 == b1);
            assert(pair_list(*arr)[q2].0 == b2);
            if b1 > b2 {
                lemma_buckets_ordered(bg, en, buckets as int, b2, b1);
            }
        }
    }
}


proof fn lemma_total_zero(s: Seq<u16>, m: int)
    requires
        m <= s.len(),
        forall|b: int| 0 <= b < m ==> #[trigger] s[b] == 0,
    ensures
        total(s, m) == 0,
    decreases m,
{
    if m > 0 {
        lemma_total_zero(s, m - 1);
    }
}

proof fn lemma_total_prefix_le(s: Seq<u16>, a: int, m: int)
    requires
        0 <= a <= m <= s.len(),
    ensures
        total(s, a) <= total(s, m),
    decreases m,
{
    if a < m {
        lemma_total_prefix_le(s, a, m - 1);
    }
}
} // verus!
