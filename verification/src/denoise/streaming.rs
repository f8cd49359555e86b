//! The buffering of the streaming rank filters: a window of the most recent
//! samples, kept alongside the same samples in sorted order.
//!
//! Samples are handled through integer keys that order them (the total order
//! of the samples, e.g. the IEEE-754 total order of `f64`, mapped onto `i64`).
//! Equal keys are identical samples, so a removal always deletes exactly the
//! sample that was inserted.

use vstd::prelude::*;
use std::collections::VecDeque;
use super::mirror_spec;
use super::rank::mirrored_window;

verus! {

broadcast use vstd::seq_lib::group_to_multiset_ensures;

/// `s` is in non-decreasing order.
pub open spec fn is_sorted(s: Seq<i64>) -> bool {
    forall|i: int, j: int| 0 <= i < j < s.len() ==> s[i] <= s[j]
}

/// `i` is the lower bound of `x` in `s`: everything before it is below `x`,
/// everything from it on is at least `x`.
pub open spec fn is_lower_bound(s: Seq<i64>, x: i64, i: int) -> bool {
    &&& 0 <= i <= s.len()
    &&& forall|j: int| 0 <= j < i ==> s[j] < x
    &&& forall|j: int| i <= j < s.len() ==> s[j] >= x
}

/// The lower bound of `x` in `s`.
pub open spec fn lower_bound_of(s: Seq<i64>, x: i64) -> int {
    choose|i: int| is_lower_bound(s, x, i)
}

/// `s` with `x` inserted at its lower bound.
pub open spec fn insert_sorted(s: Seq<i64>, x: i64) -> Seq<i64> {
    s.insert(lower_bound_of(s, x), x)
}

/// `s` with one occurrence of `x` removed (unchanged when `x` is absent).
pub open spec fn remove_sorted(s: Seq<i64>, x: i64) -> Seq<i64> {
    let i = lower_bound_of(s, x);
    if i < s.len() && s[i] == x {
        s.remove(i)
    } else {
        s
    }
}

/// A lower bound is unique.
proof fn lemma_lower_bound_unique(s: Seq<i64>, x: i64, i: int, j: int)
    requires
        is_lower_bound(s, x, i),
        is_lower_bound(s, x, j),
    ensures
        i == j,
{
    if i < j {
        assert(s[i] < x);
    } else if j < i {
        assert(s[j] < x);
    }
}

/// Inserting at the lower bound keeps a sorted sequence sorted.
proof fn lemma_insert_sorted(s: Seq<i64>, x: i64, i: int)
    requires
        is_sorted(s),
        is_lower_bound(s, x, i),
    ensures
        is_sorted(s.insert(i, x)),
        is_lower_bound(s.insert(i, x), x, i),
        s.insert(i, x)[i] == x,
        s.insert(i, x).remove(i) == s,
{
    let t = s.insert(i, x);
    assert forall|a: int, b: int| 0 <= a < b < t.len() implies t[a] <= t[b] by {
        if a < i && b > i {
            assert(t[a] == s[a]);
            assert(t[b] == s[b - 1]);
        }
    }
    assert(t.remove(i) =~= s);
}

/// In a sorted sequence that holds `x`, the lower bound of `x` points at an
/// occurrence of `x`.
proof fn lemma_lower_bound_hits(s: Seq<i64>, x: i64, i: int)
    requires
        is_sorted(s),
        is_lower_bound(s, x, i),
        s.contains(x),
    ensures
        i < s.len(),
        s[i] == x,
{
    let j = choose|j: int| 0 <= j < s.len() && s[j] == x;
    assert(j >= i);
    assert(s[i] <= s[j]);
}

/// Removing keeps a sorted sequence sorted.
proof fn lemma_remove_sorted(s: Seq<i64>, i: int)
    requires
        is_sorted(s),
        0 <= i < s.len(),
    ensures
        is_sorted(s.remove(i)),
{
    let t = s.remove(i);
    assert forall|a: int, b: int| 0 <= a < b < t.len() implies t[a] <= t[b] by {
        if b >= i {
            assert(t[b] == s[b + 1]);
        }
        if a >= i {
            assert(t[a] == s[a + 1]);
        }
    }
}

/// Binary search: the lower bound of `x` in the sorted `sorted`.
pub fn lower_bound(sorted: &[i64], x: i64) -> (i: usize)
    requires
        is_sorted(sorted@),
    ensures
        is_lower_bound(sorted@, x, i as int),
{
    let mut lo: usize = 0;
    let mut hi: usize = sorted.len();
    while lo < hi
        invariant
            lo <= hi <= sorted.len(),
            is_sorted(sorted@),
            forall|j: int| 0 <= j < lo ==> sorted@[j] < x,
            forall|j: int| hi <= j < sorted.len() ==> sorted@[j] >= x,
        decreases hi - lo,
    {
        let mid = lo + (hi - lo) / 2;
        if sorted[mid] < x {
            lo = mid + 1;
        } else {
            hi = mid;
        }
    }
    lo
}

/// Insert `x` into the ascending `sorted` at its position.
pub fn sorted_insert(sorted: &mut Vec<i64>, x: i64)
    requires
        is_sorted(old(sorted)@),
    ensures
        final(sorted)@ == insert_sorted(old(sorted)@, x),
        is_sorted(final(sorted)@),
        final(sorted)@.to_multiset() == old(sorted)@.to_multiset().insert(x),
{
    let idx = lower_bound(sorted.as_slice(), x);
    proof {
        let s = sorted@;
        lemma_lower_bound_unique(s, x, idx as int, lower_bound_of(s, x));
        lemma_insert_sorted(s, x, idx as int);
        vstd::seq_lib::to_multiset_insert(s, idx as int, x);
    }
    sorted.insert(idx, x);
}

/// Remove one occurrence of `x` from the ascending `sorted`; nothing changes
/// when `x` is absent.
pub fn sorted_remove(sorted: &mut Vec<i64>, x: i64)
    requires
        is_sorted(old(sorted)@),
    ensures
        final(sorted)@ == remove_sorted(old(sorted)@, x),
        is_sorted(final(sorted)@),
        old(sorted)@.contains(x) ==> final(sorted)@.to_multiset() == old(sorted)@.to_multiset().remove(x),
        !old(sorted)@.contains(x) ==> final(sorted)@ == old(sorted)@,
{
    let idx = lower_bound(sorted.as_slice(), x);
    let ghost s = sorted@;
    proof {
        lemma_lower_bound_unique(s, x, idx as int, lower_bound_of(s, x));
        if s.contains(x) {
            lemma_lower_bound_hits(s, x, idx as int);
        }
    }
    if idx < sorted.len() && sorted[idx] == x {
        proof {
            lemma_remove_sorted(s, idx as int);
            vstd::seq_lib::to_multiset_remove(s, idx as int);
        }
        sorted.remove(idx);
    } else {
        proof {
            if s.contains(x) {
                lemma_lower_bound_hits(s, x, idx as int);
            }
        }
    }
}

/// Removing a sample right after inserting it gives back the sorted window it
/// started from, and the insertion keeps it sorted.
pub proof fn law_remove_undoes_insert(s: Seq<i64>, x: i64)
    requires
        is_sorted(s),
    ensures
        is_sorted(insert_sorted(s, x)),
        remove_sorted(insert_sorted(s, x), x) == s,
{
    lemma_lower_bound_exists(s, x);
    let i = lower_bound_of(s, x);
    lemma_insert_sorted(s, x, i);
    let t = insert_sorted(s, x);
    lemma_lower_bound_unique(t, x, i, lower_bound_of(t, x));
}

/// Every sorted sequence has a lower bound for every key.
pub proof fn lemma_lower_bound_exists(s: Seq<i64>, x: i64)
    requires
        is_sorted(s),
    ensures
        exists|i: int| is_lower_bound(s, x, i),
    decreases s.len(),
{
    if s.len() == 0 {
        assert(is_lower_bound(s, x, 0));
    } else if s.last() < x {
        assert(is_lower_bound(s, x, s.len() as int));
    } else {
        let t = s.drop_last();
        assert(is_sorted(t));
        lemma_lower_bound_exists(t, x);
        let i = choose|i: int| is_lower_bound(t, x, i);
        assert(s.last() >= x);
        assert(is_lower_bound(s, x, i)) by {
            assert forall|j: int| i <= j < s.len() implies s[j] >= x by {
                if j < t.len() {
                    assert(s[j] == t[j]);
                }
            }
            assert forall|j: int| 0 <= j < i implies s[j] < x by {
                assert(s[j] == t[j]);
            }
        }
    }
}

/// A window's sorted order is determined by its contents: two ascending
/// sequences holding the same keys (with multiplicity) are equal. So the
/// median and every other order statistic depend on the samples only, not on
/// the order they arrived in.
pub proof fn law_sorted_order_is_unique(a: Seq<i64>, b: Seq<i64>)
    requires
        is_sorted(a),
        is_sorted(b),
        a.to_multiset() == b.to_multiset(),
    ensures
        a == b,
    decreases a.len(),
{
    vstd::seq_lib::to_multiset_len(a);
    vstd::seq_lib::to_multiset_len(b);
    if a.len() == 0 {
        assert(a =~= b);
    } else {
        // the first items are both the minimum of the common contents
        vstd::seq_lib::to_multiset_contains(a, a[0]);
        vstd::seq_lib::to_multiset_contains(b, a[0]);
        vstd::seq_lib::to_multiset_contains(b, b[0]);
        vstd::seq_lib::to_multiset_contains(a, b[0]);
        let ja = choose|j: int| 0 <= j < b.len() && b[j] == a[0];
        let jb = choose|j: int| 0 <= j < a.len() && a[j] == b[0];
        assert(b[0] <= b[ja]);
        assert(a[0] <= a[jb]);
        assert(a[0] == b[0]);
        vstd::seq_lib::to_multiset_remove(a, 0);
        vstd::seq_lib::to_multiset_remove(b, 0);
        assert(a.remove(0) =~= a.drop_first());
        assert(b.remove(0) =~= b.drop_first());
        law_sorted_order_is_unique(a.drop_first(), b.drop_first());
        assert(a =~= b) by {
            assert forall|k: int| 0 <= k < a.len() implies a[k] == b[k] by {
                if k > 0 {
                    assert(a[k] == a.drop_first()[k - 1]);
                    assert(b[k] == b.drop_first()[k - 1]);
                }
            }
        }
    }
}

/// Merge two ascending sequences into one.
fn merge_sorted(a: &Vec<i64>, b: &Vec<i64>) -> (out: Vec<i64>)
    requires
        is_sorted(a@),
        is_sorted(b@),
    ensures
        is_sorted(out@),
        out@.to_multiset() == a@.to_multiset().add(b@.to_multiset()),
        out@.len() == a@.len() + b@.len(),
{
    let mut out: Vec<i64> = Vec::new();
    let mut i: usize = 0;
    let mut j: usize = 0;
    while i < a.len() || j < b.len()
        invariant
            is_sorted(a@),
            is_sorted(b@),
            i <= a.len(),
            j <= b.len(),
            is_sorted(out@),
            out@.len() == i + j,
            out@.to_multiset() == a@.subrange(0, i as int).to_multiset().add(
                b@.subrange(0, j as int).to_multiset(),
            ),
            out@.len() > 0 && i < a.len() ==> out@.last() <= a@[i as int],
            out@.len() > 0 && j < b.len() ==> out@.last() <= b@[j as int],
        decreases a.len() + b.len() - i - j,
    {
        let ghost o = out@;
        let take_a = j >= b.len() || (i < a.len() && a[i] <= b[j]);
        if take_a {
            let v = a[i];
            out.push(v);
            proof {
                assert(a@.subrange(0, i as int + 1) =~= a@.subrange(0, i as int).push(v));
                assert(out@ =~= o.push(v));
                assert(out@.to_multiset() =~= o.to_multiset().insert(v));
                assert forall|x: int, y: int| 0 <= x < y < out@.len() implies out@[x] <= out@[y] by {
                    if y == o.len() && x < o.len() {
                        assert(o[x] <= o.last());
                    }
                }
            }
            i = i + 1;
        } else {
            let v = b[j];
            out.push(v);
            proof {
                assert(b@.subrange(0, j as int + 1) =~= b@.subrange(0, j as int).push(v));
                assert(out@ =~= o.push(v));
                assert(out@.to_multiset() =~= o.to_multiset().insert(v));
                assert forall|x: int, y: int| 0 <= x < y < out@.len() implies out@[x] <= out@[y] by {
                    if y == o.len() && x < o.len() {
                        assert(o[x] <= o.last());
                    }
                }
            }
            j = j + 1;
        }
    }
    proof {
        assert(a@.subrange(0, a.len() as int) =~= a@);
        assert(b@.subrange(0, b.len() as int) =~= b@);
    }
    out
}

/// Merge sort of `keys[lo..hi]`.
fn sort_range(keys: &[i64], lo: usize, hi: usize) -> (out: Vec<i64>)
    requires
        lo <= hi <= keys.len(),
    ensures
        is_sorted(out@),
        out@.to_multiset() == keys@.subrange(lo as int, hi as int).to_multiset(),
        out@.len() == hi - lo,
    decreases hi - lo,
{
    if hi - lo <= 1 {
        let mut out: Vec<i64> = Vec::new();
        if hi - lo == 1 {
            out.push(keys[lo]);
        }
        proof {
            assert(out@ =~= keys@.subrange(lo as int, hi as int));
        }
        out
    } else {
        let mid = lo + (hi - lo) / 2;
        let left = sort_range(keys, lo, mid);
        let right = sort_range(keys, mid, hi);
        proof {
            let s = keys@.subrange(lo as int, hi as int);
            assert(s =~= keys@.subrange(lo as int, mid as int) + keys@.subrange(
                mid as int,
                hi as int,
            ));
            vstd::seq_lib::lemma_multiset_commutative(
                keys@.subrange(lo as int, mid as int),
                keys@.subrange(mid as int, hi as int),
            );
        }
        merge_sorted(&left, &right)
    }
}

/// The keys in ascending order (a sorted permutation of `keys`).
pub fn sort_keys(keys: &[i64]) -> (out: Vec<i64>)
    ensures
        is_sorted(out@),
        out@.to_multiset() == keys@.to_multiset(),
        out@.len() == keys@.len(),
{
    let out = sort_range(keys, 0, keys.len());
    proof {
        assert(keys@.subrange(0, keys.len() as int) =~= keys@);
    }
    out
}

/// The two middle keys of a sorted window: `(sorted[(n - 1) / 2],
/// sorted[n / 2])` (the same key twice for an odd length), or `None` when
/// the window is empty.
pub fn middle_keys(sorted: &[i64]) -> (r: Option<(i64, i64)>)
    ensures
        sorted@.len() == 0 <==> r is None,
        r matches Some((lo, hi)) ==> lo == sorted@[(sorted@.len() as int - 1) / 2] && hi
            == sorted@[sorted@.len() as int / 2],
{
    let n = sorted.len();
    if n == 0 {
        None
    } else {
        Some((sorted[(n - 1) / 2], sorted[n / 2]))
    }
}

/// The flip mask of the total-order key: the sign bit selects whether the
/// magnitude bits are inverted.
pub open spec fn key_mask(bits: u64) -> u64 {
    if bits >= 0x8000_0000_0000_0000 {
        0x7fff_ffff_ffff_ffffu64
    } else {
        0
    }
}

/// The signed key of an IEEE-754 double given by its bit pattern `bits`: the
/// magnitude bits of negative numbers are inverted, so that comparing keys as
/// signed integers is the total order of the doubles (`-NaN < -inf < ... < -0
/// < +0 < ... < +inf < +NaN`).
pub fn total_order_key(bits: u64) -> (key: i64)
    ensures
        key == (bits ^ key_mask(bits)) as i64,
{
    let mask: u64 = if bits >= 0x8000_0000_0000_0000 {
        0x7fff_ffff_ffff_ffff
    } else {
        0
    };
    (bits ^ mask) as i64
}

/// The bit pattern of the double whose total-order key is `key`.
pub fn bits_from_key(key: i64) -> (bits: u64)
    ensures
        bits == (key as u64) ^ key_mask(key as u64),
{
    let k: u64 = key as u64;
    let mask: u64 = if k >= 0x8000_0000_0000_0000 {
        0x7fff_ffff_ffff_ffff
    } else {
        0
    };
    k ^ mask
}

/// The keys order the bit patterns as the IEEE-754 total order orders the
/// doubles they encode (`f64::total_cmp`): among patterns with the sign bit
/// set, a larger pattern (a more negative value) has a smaller key; among
/// patterns without it, a larger pattern has a larger key; and every pattern
/// with the sign bit set has a smaller key than every pattern without it.
pub proof fn law_key_orders_like_total_order(a: u64, b: u64)
    ensures
        a >= 0x8000_0000_0000_0000 && b >= 0x8000_0000_0000_0000 && a < b ==> ((a ^ key_mask(
            a,
        )) as i64) > ((b ^ key_mask(b)) as i64),
        a < 0x8000_0000_0000_0000 && b < 0x8000_0000_0000_0000 && a < b ==> ((a ^ key_mask(a))
            as i64) < ((b ^ key_mask(b)) as i64),
        a >= 0x8000_0000_0000_0000 && b < 0x8000_0000_0000_0000 ==> ((a ^ key_mask(a)) as i64) < ((b
            ^ key_mask(b)) as i64),
{
    let ma = key_mask(a);
    let mb = key_mask(b);
    assert(a >= 0x8000_0000_0000_0000u64 ==> ma == 0x7fff_ffff_ffff_ffffu64);
    assert(a < 0x8000_0000_0000_0000u64 ==> ma == 0u64);
    assert(b >= 0x8000_0000_0000_0000u64 ==> mb == 0x7fff_ffff_ffff_ffffu64);
    assert(b < 0x8000_0000_0000_0000u64 ==> mb == 0u64);
    assert(a >= 0x8000_0000_0000_0000u64 && b >= 0x8000_0000_0000_0000u64 && a < b
        && ma == 0x7fff_ffff_ffff_ffffu64 && mb == 0x7fff_ffff_ffff_ffffu64 ==> ((a ^ ma) as i64)
        > ((b ^ mb) as i64)) by (bit_vector);
    assert(a < 0x8000_0000_0000_0000u64 && b < 0x8000_0000_0000_0000u64 && a < b && ma == 0u64
        && mb == 0u64 ==> ((a ^ ma) as i64) < ((b ^ mb) as i64)) by (bit_vector);
    assert(a >= 0x8000_0000_0000_0000u64 && b < 0x8000_0000_0000_0000u64
        && ma == 0x7fff_ffff_ffff_ffffu64 && mb == 0u64 ==> ((a ^ ma) as i64) < ((b ^ mb) as i64))
        by (bit_vector);
}

/// Keys and bit patterns are in one-to-one correspondence: converting a bit
/// pattern to its key and back gives the bit pattern again, and vice versa.
pub proof fn law_key_roundtrip(bits: u64, key: i64)
    ensures
        (((bits ^ key_mask(bits)) as i64) as u64) ^ key_mask(((bits ^ key_mask(bits)) as i64) as u64)
            == bits,
        ((((key as u64) ^ key_mask(key as u64)) ^ key_mask((key as u64) ^ key_mask(key as u64)))
            as i64) == key,
{
    if bits >= 0x8000_0000_0000_0000 {
        assert(bits >= 0x8000_0000_0000_0000u64 ==> ((((bits ^ 0x7fff_ffff_ffff_ffffu64) as i64)
            as u64) >= 0x8000_0000_0000_0000u64 && (((bits ^ 0x7fff_ffff_ffff_ffffu64) as i64)
            as u64) ^ 0x7fff_ffff_ffff_ffffu64 == bits)) by (bit_vector);
    } else {
        assert(bits < 0x8000_0000_0000_0000u64 ==> (((bits ^ 0u64) as i64) as u64) < 0x8000_0000_0000_0000u64
            && ((((bits ^ 0u64) as i64) as u64) ^ 0u64) == bits) by (bit_vector);
    }
    let k = key as u64;
    if k >= 0x8000_0000_0000_0000 {
        assert(k == key as u64 && k >= 0x8000_0000_0000_0000u64 ==> (k ^ 0x7fff_ffff_ffff_ffffu64)
            >= 0x8000_0000_0000_0000u64 && (((k ^ 0x7fff_ffff_ffff_ffffu64)
            ^ 0x7fff_ffff_ffff_ffffu64) as i64) == key) by (bit_vector);
    } else {
        assert(k == key as u64 && k < 0x8000_0000_0000_0000u64 ==> (k ^ 0u64)
            < 0x8000_0000_0000_0000u64 && ((k ^ 0u64) ^ 0u64) as i64 == key) by (bit_vector);
    }
}

/// The most recent `width` keys of `keys` (all of them while fewer have
/// arrived): what a window of that width holds after `keys` were pushed in
/// order into an empty one.
pub open spec fn recent_keys(keys: Seq<i64>, width: nat) -> Seq<i64> {
    if keys.len() <= width {
        keys
    } else {
        keys.subrange(keys.len() - width, keys.len() as int)
    }
}

/// One push slides the window by one key: applying `SortedWindow::push`'s
/// rule (drop the oldest key when full, then append) to the most recent keys
/// of a stream gives the most recent keys of the stream extended by the new
/// key. With `SortedWindow::new`'s empty window, this makes the window after
/// any sequence of pushes `recent_keys` of the pushed keys.
pub proof fn law_push_slides_window(keys: Seq<i64>, key: i64, h: nat)
    ensures
        (if recent_keys(keys, 2 * h + 1).len() == 2 * h + 1 {
            recent_keys(keys, 2 * h + 1).drop_first().push(key)
        } else {
            recent_keys(keys, 2 * h + 1).push(key)
        }) == recent_keys(keys.push(key), 2 * h + 1),
{
    let width = 2 * h + 1;
    let w = recent_keys(keys, width);
    let t = keys.push(key);
    if keys.len() < width {
        assert(w == keys);
        assert(recent_keys(t, width) == t);
    } else {
        assert(w.len() == width);
        assert(w.drop_first().push(key) =~= t.subrange(t.len() - width, t.len() as int));
    }
}

/// On the interior of a signal, the streaming rank filters see exactly the
/// samples the batch filters see: once the keys up to `c + h` have been
/// pushed, the window holds the `2 h + 1` keys centred at `c`, which is the
/// mirrored batch window there (no reflection happens on the interior). So
/// the streaming window's sorted keys equal the sorted batch window, and the
/// streaming median at `c + h` equals the batch median at `c`.
pub proof fn law_streaming_window_matches_batch(
    s: Seq<i64>,
    h: nat,
    c: int,
    streamed: Seq<i64>,
    batch: Seq<i64>,
)
    requires
        h <= c,
        c + h < s.len(),
        is_sorted(streamed),
        streamed.to_multiset() == recent_keys(s.take(c + h + 1), 2 * h + 1).to_multiset(),
        is_sorted(batch),
        batch.to_multiset() == mirrored_window(s, c, h as int).to_multiset(),
    ensures
        recent_keys(s.take(c + h + 1), 2 * h + 1) == mirrored_window(s, c, h as int),
        streamed == batch,
{
    let n = s.len() as int;
    let w = recent_keys(s.take(c + h + 1), 2 * h + 1);
    let m = mirrored_window(s, c, h as int);
    assert(w =~= s.subrange(c - h, c + h + 1));
    assert forall|k: int| 0 <= k < m.len() implies m[k] == w[k] by {
        let i = c + k - h;
        assert(0 <= i < n);
        if n > 1 {
            vstd::arithmetic::div_mod::lemma_small_mod(i as nat, (2 * n) as nat);
        }
        assert(mirror_spec(i, n) == i);
    }
    assert(w =~= m);
    law_sorted_order_is_unique(streamed, batch);
}

/// The most recent `2 h + 1` sample keys, in arrival order and in sorted
/// order: the shared buffering of the streaming median and Hampel filters.
#[derive(Debug, Clone)]
pub struct SortedWindow {
    half: usize,
    width: usize,
    buf: VecDeque<i64>,
    sorted: Vec<i64>,
}

impl SortedWindow {
    /// The sorted keys are exactly the buffered ones, and the buffer never
    /// holds more than `2 h + 1` keys.
    pub closed spec fn wf(self) -> bool {
        &&& self.width == 2 * self.half + 1
        &&& self.buf@.len() <= self.width
        &&& is_sorted(self.sorted@)
        &&& self.sorted@.to_multiset() == self.buf@.to_multiset()
    }

    /// The buffered keys, oldest first.
    pub closed spec fn window(self) -> Seq<i64> {
        self.buf@
    }

    /// The half-width `h`.
    pub closed spec fn half_width(self) -> nat {
        self.half as nat
    }

    /// A window of half-width `half_window` (full width `2 h + 1`), empty.
    pub fn new(half_window: usize) -> (w: Self)
        requires
            half_window < usize::MAX / 2,
        ensures
            w.wf(),
            w.window() == Seq::<i64>::empty(),
            w.half_width() == half_window,
    {
        let width = 2 * half_window + 1;
        let w = SortedWindow {
            half: half_window,
            width,
            buf: VecDeque::new(),
            sorted: Vec::new(),
        };
        proof {
            assert(w.sorted@.to_multiset() =~= w.buf@.to_multiset());
        }
        w
    }

    /// Push a key: the oldest one leaves first when the window is full.
    pub fn push(&mut self, key: i64)
        requires
            old(self).wf(),
        ensures
            final(self).wf(),
            final(self).half_width() == old(self).half_width(),
            final(self).window() == (if old(self).window().len() == 2 * old(self).half_width() + 1 {
                old(self).window().drop_first().push(key)
            } else {
                old(self).window().push(key)
            }),
    {
        let ghost b0 = self.buf@;
        if self.buf.len() == self.width {
            let front = self.buf.pop_front();
            if let Some(old_key) = front {
                proof {
                    assert(b0.to_multiset().count(old_key) > 0) by {
                        assert(b0[0] == old_key);
                        assert(b0.contains(old_key));
                    }
                    assert(self.sorted@.contains(old_key));
                    assert(self.buf@ =~= b0.remove(0));
                    vstd::seq_lib::to_multiset_remove(b0, 0);
                }
                sorted_remove(&mut self.sorted, old_key);
            }
        }
        let ghost b1 = self.buf@;
        self.buf.push_back(key);
        sorted_insert(&mut self.sorted, key);
        proof {
            assert(self.buf@.to_multiset() =~= b1.to_multiset().insert(key));
            if b0.len() == self.width {
                assert(b1 =~= b0.drop_first());
            } else {
                assert(b1 == b0);
            }
        }
    }

    /// Back to the empty window.
    pub fn reset(&mut self)
        requires
            old(self).wf(),
        ensures
            final(self).wf(),
            final(self).half_width() == old(self).half_width(),
            final(self).window() == Seq::<i64>::empty(),
    {
        self.buf.clear();
        self.sorted.clear();
        proof {
            assert(self.sorted@.to_multiset() =~= self.buf@.to_multiset());
        }
    }

    /// The buffered keys in ascending order.
    pub fn sorted_keys(&self) -> (r: &Vec<i64>)
        requires
            self.wf(),
        ensures
            is_sorted(r@),
            r@.to_multiset() == self.window().to_multiset(),
    {
        &self.sorted
    }

    /// The number of buffered keys.
    pub fn len(&self) -> (r: usize)
        requires
            self.wf(),
        ensures
            r == self.window().len(),
            r <= 2 * self.half_width() + 1,
    {
        self.buf.len()
    }

    /// The key pushed `len - 1 - pos` pushes ago (`pos == 0`: the oldest).
    pub fn key_at(&self, pos: usize) -> (r: i64)
        requires
            pos < self.window().len(),
        ensures
            r == self.window()[pos as int],
    {
        self.buf[pos]
    }

    /// Group delay of a filter centred on this window: the half-width.
    pub fn delay(&self) -> (r: usize)
        ensures
            r == self.half_width(),
    {
        self.half
    }
}

} // verus!
