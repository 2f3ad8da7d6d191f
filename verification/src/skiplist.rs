//! The cache-sensitive skip list.
//!
//! The structure is bulk-built once from a sequence of `u32` keys and is
//! read-only afterwards. The sorted keys are kept in `nodes`; a hierarchy of
//! `max_level` "fast lanes" is stored in one linearized buffer, lane `l`
//! holding every `skip`-th entry of lane `l - 1` (lane 0 holds every
//! `skip`-th key). Each lane is right-padded with `u32::MAX` sentinels to a
//! multiple of [`MIN_FAST_LANE_SIZE`]. A proxy lane keeps, for each bottom
//! lane position, the block of up to `skip` consecutive keys starting there.

use vstd::prelude::*;

verus! {

use vstd::arithmetic::div_mod::{
    lemma_fundamental_div_mod,
    lemma_div_is_ordered,
    lemma_mod_bound,
};
use vstd::arithmetic::mul::lemma_mul_inequality;
use vstd::slice::{slice_to_vec, slice_subrange, slice_index_get};
use crate::sorting::{sorted, sort_u32};
use std::ops::Range;

/// Largest admitted geometric stride between two lane levels.
pub const MAX_SKIP: usize = 5;

/// Every fast lane is padded to a multiple of this length.
pub const MIN_FAST_LANE_SIZE: usize = 16;

/// Width of the fixed-trip blocks scanned by `find_range`.
pub const RANGE_SEARCH_BLOCK_SIZE: usize = 8;

/// A block of consecutive sorted keys lying between two bottom-lane entries.
struct ProxyNode {
    keys: Vec<u32>,
}

/// The immutable cache-sensitive skip list.
pub struct SkipList {
    max_level: usize,
    skip: usize,
    proxy_lane: Vec<ProxyNode>,
    linearized_fast_lanes: Vec<u32>,
    fast_lane_start: Vec<usize>,
    fast_lane_end: Vec<usize>,
    nodes: Vec<u32>,
}

/// Number of entries a lane keeps out of a source of length `c` when it
/// samples every `s`-th element starting at index 0.
pub open spec fn sub_len(c: int, s: int) -> int {
    if c <= 0 {
        0
    } else {
        (c - 1) / s + 1
    }
}

/// Unpadded entry count of lane `l` (level 0 samples the `n` keys).
pub open spec fn lane_cnt_rec(n: int, s: int, l: int) -> int
    decreases l,
{
    if l <= 0 {
        sub_len(n, s)
    } else {
        sub_len(lane_cnt_rec(n, s, l - 1), s)
    }
}

/// Length of a lane of `c` real entries once padded to a multiple of
/// [`MIN_FAST_LANE_SIZE`].
pub open spec fn pad16(c: int) -> int {
    if c % 16 == 0 {
        c
    } else {
        c + (16 - c % 16)
    }
}

/// The skip parameter once clamped to `[2, MAX_SKIP]`.
pub open spec fn clamp_skip(s: int) -> int {
    if s > MAX_SKIP as int {
        MAX_SKIP as int
    } else if s < 2 {
        2
    } else {
        s
    }
}

impl SkipList {
    /// The sorted key sequence the structure indexes.
    pub closed spec fn keys_seq(self) -> Seq<u32> {
        self.nodes@
    }

    /// The clamped geometric stride between lane levels.
    pub closed spec fn spec_skip(self) -> int {
        self.skip as int
    }

    /// The number of fast lanes.
    pub closed spec fn spec_max_level(self) -> int {
        self.max_level as int
    }

    /// Unpadded entry count of lane `l`.
    pub open spec fn lane_cnt(self, l: int) -> int {
        lane_cnt_rec(self.keys_seq().len() as int, self.spec_skip(), l)
    }

    /// Padded length of lane `l`.
    pub open spec fn lane_len(self, l: int) -> int {
        pad16(self.lane_cnt(l))
    }

    /// The padded contents of lane `l`, as a slice of the linearized buffer.
    pub closed spec fn lane(self, l: int) -> Seq<u32> {
        self.linearized_fast_lanes@.subrange(
            self.fast_lane_start@[l] as int,
            self.fast_lane_end@[l] as int,
        )
    }

    /// Number of proxy nodes: one per started block of `skip` keys, plus the
    /// one (possibly empty) trailing proxy the builder always emits.
    pub closed spec fn proxy_count(self) -> int {
        self.keys_seq().len() as int / self.spec_skip() + 1
    }

    /// Number of keys held by proxy `p`: a full block of `skip` keys for all
    /// but the trailing proxy, which holds the remainder.
    pub closed spec fn proxy_key_count(self, p: int) -> int {
        let n = self.keys_seq().len() as int;
        if p < n / self.spec_skip() {
            self.spec_skip()
        } else {
            n % self.spec_skip()
        }
    }

    /// Well-formedness: the lane hierarchy, the padding, the linearized
    /// buffer bounds and the proxy lane all agree with the sorted keys.
    #[verifier::opaque]
    pub closed spec fn wf(self) -> bool {
        let n = self.nodes@.len() as int;
        let s = self.spec_skip();
        let m = self.spec_max_level();
        &&& 1 <= m
        &&& 2 <= s <= MAX_SKIP as int
        &&& sorted(self.nodes@)
        &&& self.fast_lane_start@.len() == m
        &&& self.fast_lane_end@.len() == m
        &&& self.fast_lane_start@[0] == 0usize
        &&& (forall|l: int|
            0 <= l < m ==> #[trigger] self.fast_lane_end@[l] as int == self.fast_lane_start@[l]
                + self.lane_len(l))
        &&& (forall|l: int|
            1 <= l < m ==> #[trigger] self.fast_lane_start@[l] == self.fast_lane_end@[l - 1])
        &&& (forall|l: int|
            0 <= l < m ==> #[trigger] self.fast_lane_end@[l] as int
                <= self.linearized_fast_lanes@.len())
        &&& self.fast_lane_end@[m - 1] == self.linearized_fast_lanes@.len()
        &&& (forall|l: int| 0 <= l < m ==> n > 0 ==> #[trigger] self.lane_cnt(l) >= 1)
        &&& (forall|l: int| 0 <= l < m ==> sorted(#[trigger] self.lane(l)))
        &&& (forall|i: int|
            0 <= i < self.lane_cnt(0) ==> #[trigger] self.lane(0)[i] == self.nodes@[i * s])
        &&& (forall|l: int, i: int|
            0 <= l < m - 1 && 0 <= i < self.lane_cnt(l + 1) ==> self.lane(l + 1)[i]
                == #[trigger] self.lane(l)[i * s])
        &&& (forall|l: int, i: int|
            0 <= l < m && self.lane_cnt(l) <= i < self.lane_len(l) ==> #[trigger] self.lane(l)[i]
                == u32::MAX)
        &&& self.proxy_lane@.len() == self.proxy_count()
        &&& (forall|p: int|
            0 <= p < self.proxy_count() ==> (#[trigger] self.proxy_lane@[p].keys@.len())
                == self.proxy_key_count(p))
        &&& (forall|p: int, i: int|
            0 <= p < self.proxy_count() && 0 <= i < self.proxy_key_count(p)
                ==> #[trigger] self.proxy_lane@[p].keys@[i] == self.nodes@[p * s + i])
    }
}

/// The sampling stride of lane `l` relative to the keys: `s^(l+1)`.
pub open spec fn stride_rec(s: int, l: int) -> int
    decreases l,
{
    if l <= 0 {
        s
    } else {
        s * stride_rec(s, l - 1)
    }
}

/// For `s >= 1` and `i >= 0`, index `i` samples inside a source of length `c`
/// exactly when `i` is below the sampled length.
proof fn lemma_sub_len_iff(c: int, s: int, i: int)
    requires
        s >= 1,
        i >= 0,
    ensures
        i < sub_len(c, s) <==> i * s < c,
{
    if c <= 0 {
        assert(i * s >= 0) by (nonlinear_arith)
            requires
                i >= 0,
                s >= 1,
        ;
    } else {
        let q = (c - 1) / s;
        lemma_fundamental_div_mod(c - 1, s);
        lemma_mod_bound(c - 1, s);
        if i <= q {
            lemma_mul_inequality(i, q, s);
            assert(i * s <= q * s);
            assert(q * s == s * q) by (nonlinear_arith);
            assert(i * s < c);
        } else {
            lemma_mul_inequality(q + 1, i, s);
            assert((q + 1) * s <= i * s);
            assert((q + 1) * s == s * q + s) by (nonlinear_arith);
            assert(i * s >= c);
        }
    }
}

/// Indices within one aligned block of `s` share their quotient by `s`.
proof fn lemma_div_same_block(j: int, x: int, s: int)
    requires
        s >= 1,
        j <= x < j + s,
        j >= 0,
        j % s == 0,
    ensures
        x / s == j / s,
{
    lemma_fundamental_div_mod(j, s);
    lemma_div_is_ordered(j, x, s);
    assert(x < s * (j / s) + s);
    lemma_fundamental_div_mod(x, s);
    lemma_mod_bound(x, s);
    let qx = x / s;
    let qj = j / s;
    if qx > qj {
        lemma_mul_inequality(qj + 1, qx, s);
        assert((qj + 1) * s <= qx * s);
        assert((qj + 1) * s == s * qj + s) by (nonlinear_arith);
        assert(qx * s == s * qx) by (nonlinear_arith);
        assert(false);
    }
}

/// Multiplying back a truncated quotient stays at or below the dividend.
proof fn lemma_div_mul_le(x: int, s: int)
    requires
        s >= 1,
        x >= 0,
    ensures
        s * (x / s) <= x,
        x / s >= 0,
{
    lemma_fundamental_div_mod(x, s);
    lemma_mod_bound(x, s);
    lemma_div_is_ordered(0, x, s);
}

/// Every `s`-th entry of `src`, starting at index 0.
fn subsample(src: &Vec<u32>, s: usize) -> (r: Vec<u32>)
    requires
        2 <= s,
    ensures
        r@.len() == sub_len(src@.len() as int, s as int),
        forall|i: int| 0 <= i < r@.len() ==> #[trigger] r@[i] == src@[i * (s as int)],
        sorted(src@) ==> sorted(r@),
{
    let n = src.len();
    let mut lane: Vec<u32> = Vec::new();
    let mut j: usize = 0;
    proof {
        assert(lane@.len() == 0);
        assert((s as int) * 0int == 0) by (nonlinear_arith);
    }
    while j < n
        invariant
            n == src@.len(),
            2 <= s,
            j >= 0,
            (j < n ==> j as int == (s as int) * (lane@.len() as int)),
            (j >= n ==> lane@.len() == sub_len(n as int, s as int)),
            forall|i: int| 0 <= i < lane@.len() ==> #[trigger] lane@[i] == src@[i * (s as int)],
        decreases n - j,
    {
        let ghost old_len = lane@.len() as int;
        lane.push(src[j]);
        proof {
            assert(j as int == (s as int) * old_len);
            assert((s as int) * (old_len + 1) == (s as int) * old_len + (s as int))
                by (nonlinear_arith);
            assert(lane@[old_len] == src@[old_len * (s as int)]) by {
                assert(old_len * (s as int) == s * old_len) by (nonlinear_arith);
            }
        }
        if n - j <= s {
            proof {
                // j is the last sampled index: (n - 1) / s == j / s == old lane len
                assert(j as int % (s as int) == 0) by {
                    assert(j == (s as int) * old_len);
                    vstd::arithmetic::div_mod::lemma_mod_multiples_basic(old_len, s as int);
                    assert((old_len * (s as int)) % (s as int) == 0);
                    assert((s as int) * old_len == old_len * (s as int)) by (nonlinear_arith);
                }
                lemma_div_same_block(j as int, n as int - 1, s as int);
                assert(j as int / (s as int) == old_len) by {
                    vstd::arithmetic::div_mod::lemma_div_by_multiple(old_len, s as int);
                    assert((old_len * (s as int)) / (s as int) == old_len);
                    assert((s as int) * old_len == old_len * (s as int)) by (nonlinear_arith);
                }
                assert(lane@.len() == sub_len(n as int, s as int));
            }
            j = n;
        } else {
            j = j + s;
        }
    }
    proof {
        if sorted(src@) {
            assert forall|a: int, b: int| 0 <= a <= b < lane@.len() implies lane@[a] <= lane@[b] by {
                lemma_mul_inequality(a, b, s as int);
                assert(a * (s as int) <= b * (s as int));
                lemma_sub_len_iff(n as int, s as int, b);
                assert(b * (s as int) < n);
                assert(a * (s as int) >= 0) by (nonlinear_arith)
                    requires
                        a >= 0,
                        s >= 2,
                ;
            }
        }
    }
    lane
}

/// A non-empty source yields a non-empty lane at every level.
proof fn lemma_lane_cnt_pos(n: int, s: int, l: int)
    requires
        n >= 1,
        s >= 2,
        l >= 0,
    ensures
        lane_cnt_rec(n, s, l) >= 1,
    decreases l,
{
    if l == 0 {
        lemma_div_mul_le(n - 1, s);
    } else {
        lemma_lane_cnt_pos(n, s, l - 1);
        lemma_div_mul_le(lane_cnt_rec(n, s, l - 1) - 1, s);
    }
}

/// Right-pad a lane with `u32::MAX` sentinels to a multiple of
/// [`MIN_FAST_LANE_SIZE`].
fn pad_lane(lane: &mut Vec<u32>)
    ensures
        final(lane)@.len() == pad16(old(lane)@.len() as int),
        forall|i: int| 0 <= i < old(lane)@.len() ==> final(lane)@[i] == old(lane)@[i],
        forall|i: int|
            old(lane)@.len() <= i < final(lane)@.len() ==> final(lane)@[i] == u32::MAX,
{
    let cnt = lane.len();
    let modulo = cnt % MIN_FAST_LANE_SIZE;
    if modulo > 0 {
        let mut padn: usize = MIN_FAST_LANE_SIZE - modulo;
        proof {
            assert(cnt as int + padn as int == pad16(old(lane)@.len() as int));
        }
        while padn > 0
            invariant
                lane@.len() + padn == pad16(old(lane)@.len() as int),
                lane@.len() >= old(lane)@.len(),
                forall|i: int| 0 <= i < old(lane)@.len() ==> lane@[i] == old(lane)@[i],
                forall|i: int| old(lane)@.len() <= i < lane@.len() ==> lane@[i] == u32::MAX,
            decreases padn,
        {
            lane.push(u32::MAX);
            padn = padn - 1;
        }
    }
}

/// Build the `max_level` fast lanes over the sorted keys: lane 0 samples
/// every `s`-th key, each further lane every `s`-th entry of the one below,
/// and every lane is sentinel-padded.
fn build_lanes(nodes: &Vec<u32>, s: usize, max_level: usize) -> (r: Vec<Vec<u32>>)
    requires
        2 <= s <= 5,
        max_level >= 1,
        sorted(nodes@),
    ensures
        r@.len() == max_level,
        forall|l: int|
            0 <= l < max_level ==> (#[trigger] r@[l]@.len()) == pad16(
                lane_cnt_rec(nodes@.len() as int, s as int, l),
            ),
        forall|i: int|
            0 <= i < lane_cnt_rec(nodes@.len() as int, s as int, 0) ==> (#[trigger] r@[0]@[i])
                == nodes@[i * (s as int)],
        forall|l: int, i: int|
            1 <= l < max_level && 0 <= i < lane_cnt_rec(nodes@.len() as int, s as int, l) ==> (
            #[trigger] r@[l]@[i]) == r@[l - 1]@[i * (s as int)],
        forall|l: int, i: int|
            0 <= l < max_level && lane_cnt_rec(nodes@.len() as int, s as int, l) <= i
                < r@[l]@.len() ==> (#[trigger] r@[l]@[i]) == u32::MAX,
        forall|l: int| 0 <= l < max_level ==> sorted(#[trigger] r@[l]@),
{
    let ghost n = nodes@.len() as int;
    let ghost si = s as int;
    let mut fast_lanes: Vec<Vec<u32>> = Vec::new();
    let mut level: usize = 0;
    while level < max_level
        invariant
            2 <= s <= 5,
            n == nodes@.len(),
            si == s,
            sorted(nodes@),
            level <= max_level,
            fast_lanes@.len() == level,
            forall|l: int|
                0 <= l < level ==> (#[trigger] fast_lanes@[l]@.len()) == lane_cnt_rec(n, si, l),
            forall|i: int|
                level > 0 && 0 <= i < lane_cnt_rec(n, si, 0) ==> (#[trigger] fast_lanes@[0]@[i])
                    == nodes@[i * si],
            forall|l: int, i: int|
                1 <= l < level && 0 <= i < lane_cnt_rec(n, si, l) ==> (
                #[trigger] fast_lanes@[l]@[i]) == fast_lanes@[l - 1]@[i * si],
            forall|l: int| 0 <= l < level ==> sorted(#[trigger] fast_lanes@[l]@),
        decreases max_level - level,
    {
        let lane = if level == 0 {
            subsample(nodes, s)
        } else {
            subsample(&fast_lanes[level - 1], s)
        };
        fast_lanes.push(lane);
        level = level + 1;
    }

    // pad every lane in place
    let ghost unpadded: Seq<Seq<u32>> = fast_lanes@.map_values(|v: Vec<u32>| v@);
    let mut level: usize = 0;
    while level < max_level
        invariant
            fast_lanes@.len() == max_level,
            level <= max_level,
            unpadded.len() == max_level,
            forall|l: int|
                level <= l < max_level ==> (#[trigger] fast_lanes@[l]@) == unpadded[l],
            forall|l: int|
                0 <= l < level ==> (#[trigger] fast_lanes@[l]@.len()) == pad16(
                    unpadded[l].len() as int,
                ),
            forall|l: int, i: int|
                0 <= l < level && 0 <= i < unpadded[l].len() ==> (#[trigger] fast_lanes@[l]@[i])
                    == unpadded[l][i],
            forall|l: int, i: int|
                0 <= l < level && unpadded[l].len() <= i < fast_lanes@[l]@.len() ==> (
                #[trigger] fast_lanes@[l]@[i]) == u32::MAX,
        decreases max_level - level,
    {
        pad_lane(&mut fast_lanes[level]);
        level = level + 1;
    }

    proof {
        // carry the unpadded facts over to the padded lanes
        assert forall|l: int| 0 <= l < max_level implies (#[trigger] fast_lanes@[l]@.len())
            == pad16(lane_cnt_rec(n, si, l)) by {
            assert(unpadded[l].len() == lane_cnt_rec(n, si, l));
        }
        assert forall|i: int| 0 <= i < lane_cnt_rec(n, si, 0) implies (
        #[trigger] fast_lanes@[0]@[i]) == nodes@[i * si] by {
            assert(fast_lanes@[0]@[i] == unpadded[0][i]);
        }
        assert forall|l: int, i: int|
            1 <= l < max_level && 0 <= i < lane_cnt_rec(n, si, l) implies (
        #[trigger] fast_lanes@[l]@[i]) == fast_lanes@[l - 1]@[i * si] by {
            lemma_sub_len_iff(lane_cnt_rec(n, si, l - 1), si, i);
            assert(i * si < lane_cnt_rec(n, si, l - 1));
            assert(i * si >= 0) by (nonlinear_arith)
                requires
                    i >= 0,
                    si >= 2,
            ;
            assert(fast_lanes@[l]@[i] == unpadded[l][i]);
            assert(fast_lanes@[l - 1]@[i * si] == unpadded[l - 1][i * si]);
        }
        assert forall|l: int| 0 <= l < max_level implies sorted(#[trigger] fast_lanes@[l]@) by {
            let lane = fast_lanes@[l]@;
            let cnt = unpadded[l].len() as int;
            assert forall|a: int, b: int| 0 <= a <= b < lane.len() implies lane[a] <= lane[b] by {
                if b < cnt {
                    assert(lane[a] == unpadded[l][a]);
                    assert(lane[b] == unpadded[l][b]);
                    assert(sorted(unpadded[l]));
                } else {
                    assert(lane[b] == u32::MAX);
                }
            }
        }
    }
    fast_lanes
}

/// Concatenate the padded lanes, bottom lane first, into one buffer and
/// record each lane's half-open `[start, end)` slice of it.
fn linearize(lanes: Vec<Vec<u32>>) -> (r: (Vec<u32>, Vec<usize>, Vec<usize>))
    requires
        lanes@.len() >= 1,
    ensures
        r.1@.len() == lanes@.len(),
        r.2@.len() == lanes@.len(),
        r.1@[0] == 0usize,
        forall|l: int|
            0 <= l < lanes@.len() ==> (#[trigger] r.2@[l] as int) == r.1@[l] as int
                + lanes@[l]@.len(),
        forall|l: int| 1 <= l < lanes@.len() ==> (#[trigger] r.1@[l]) == r.2@[l - 1],
        forall|l: int| 0 <= l < lanes@.len() ==> (#[trigger] r.2@[l] as int) <= r.0@.len(),
        r.2@[lanes@.len() - 1] as int == r.0@.len(),
        forall|l: int|
            0 <= l < lanes@.len() ==> (#[trigger] r.0@.subrange(r.1@[l] as int, r.2@[l] as int))
                == lanes@[l]@,
{
    let ghost snap: Seq<Seq<u32>> = lanes@.map_values(|v: Vec<u32>| v@);
    let m = lanes.len();
    let mut lanes = lanes;
    let mut buf: Vec<u32> = Vec::new();
    let mut starts: Vec<usize> = Vec::new();
    let mut ends: Vec<usize> = Vec::new();
    let mut level: usize = 0;
    while level < m
        invariant
            lanes@.len() == m,
            snap.len() == m,
            level <= m,
            starts@.len() == level,
            ends@.len() == level,
            (level == 0 ==> buf@.len() == 0),
            (level > 0 ==> ends@[level - 1] as int == buf@.len()),
            (level > 0 ==> starts@[0] == 0usize),
            forall|l: int|
                0 <= l < level ==> (#[trigger] ends@[l] as int) == starts@[l] as int
                    + snap[l].len(),
            forall|l: int| 1 <= l < level ==> (#[trigger] starts@[l]) == ends@[l - 1],
            forall|l: int| 0 <= l < level ==> (#[trigger] ends@[l] as int) <= buf@.len(),
            forall|l: int|
                0 <= l < level ==> (#[trigger] buf@.subrange(starts@[l] as int, ends@[l] as int))
                    == snap[l],
            forall|l: int| level <= l < m ==> (#[trigger] lanes@[l]@) == snap[l],
        decreases m - level,
    {
        let st = buf.len();
        starts.push(st);
        let ghost buf_before = buf@;
        buf.append(&mut lanes[level]);
        ends.push(buf.len());
        proof {
            assert(buf@ == buf_before + snap[level as int]);
            assert forall|l: int|
                0 <= l < level + 1 implies (#[trigger] buf@.subrange(
                starts@[l] as int,
                ends@[l] as int,
            )) == snap[l] by {
                if l < level {
                    assert(buf@.subrange(starts@[l] as int, ends@[l] as int) =~= buf_before
                        .subrange(starts@[l] as int, ends@[l] as int));
                } else {
                    assert(buf@.subrange(starts@[l] as int, ends@[l] as int) =~= snap[l]);
                }
            }
        }
        level = level + 1;
    }
    (buf, starts, ends)
}

/// Build the proxy lane: proxy `p` holds the keys at positions
/// `[p * s, min((p + 1) * s, n))`, and one trailing (possibly empty) proxy
/// is always present.
fn build_proxies(nodes: &Vec<u32>, s: usize) -> (r: Vec<ProxyNode>)
    requires
        2 <= s,
    ensures
        r@.len() == nodes@.len() as int / (s as int) + 1,
        forall|p: int|
            0 <= p < r@.len() ==> (#[trigger] r@[p].keys@.len()) == (if p < nodes@.len() as int / (
            s as int) {
                s as int
            } else {
                nodes@.len() as int % (s as int)
            }),
        forall|p: int, i: int|
            0 <= p < r@.len() && 0 <= i < r@[p].keys@.len() ==> (#[trigger] r@[p].keys@[i])
                == nodes@[p * (s as int) + i],
{
    let n = nodes.len();
    let ghost ni = n as int;
    let ghost si = s as int;
    proof {
        if ni > 0 {
            vstd::arithmetic::div_mod::lemma_div_decreases(ni, si);
        }
    }
    let pcount = n / s + 1;
    proof {
        lemma_fundamental_div_mod(ni, si);
        lemma_mod_bound(ni, si);
        lemma_div_is_ordered(0, ni, si);
    }
    let mut proxy_lane: Vec<ProxyNode> = Vec::new();
    let mut p: usize = 0;
    while p < pcount
        invariant
            n == nodes@.len(),
            ni == n,
            si == s,
            2 <= s,
            pcount == ni / si + 1,
            ni == si * (ni / si) + ni % si,
            0 <= ni % si < si,
            0 <= ni / si,
            p <= pcount,
            proxy_lane@.len() == p,
            forall|q: int|
                0 <= q < p ==> (#[trigger] proxy_lane@[q].keys@.len()) == (if q < ni / si {
                    si
                } else {
                    ni % si
                }),
            forall|q: int, i: int|
                0 <= q < p && 0 <= i < proxy_lane@[q].keys@.len() ==> (
                #[trigger] proxy_lane@[q].keys@[i]) == nodes@[q * si + i],
        decreases pcount - p,
    {
        proof {
            lemma_mul_inequality(p as int, ni / si, si);
            assert((ni / si) * si == si * (ni / si)) by (nonlinear_arith);
            assert(p as int * si == si * p as int) by (nonlinear_arith);
            assert(p as int * si <= ni);
        }
        let lo = p * s;
        let hi = if n - lo < s {
            n
        } else {
            lo + s
        };
        let mut ks: Vec<u32> = Vec::new();
        let mut i = lo;
        while i < hi
            invariant
                lo <= i <= hi,
                hi <= n,
                n == nodes@.len(),
                ks@.len() == i - lo,
                forall|k: int| 0 <= k < ks@.len() ==> #[trigger] ks@[k] == nodes@[lo + k],
            decreases hi - i,
        {
            ks.push(nodes[i]);
            i = i + 1;
        }
        proxy_lane.push(ProxyNode { keys: ks });
        proof {
            // the block length is s for all but the trailing proxy
            if (p as int) < ni / si {
                lemma_mul_inequality(p as int + 1, ni / si, si);
                assert((p as int + 1) * si == p as int * si + si) by (nonlinear_arith);
                assert((ni / si) * si == si * (ni / si)) by (nonlinear_arith);
                assert(lo as int + si <= ni);
                assert(hi - lo == si);
            } else {
                assert(p as int == ni / si);
                assert(p as int * si == si * (ni / si)) by (nonlinear_arith)
                    requires
                        p as int == ni / si,
                ;
                assert(ni - lo as int == ni % si);
                assert(hi == n);
            }
        }
        p = p + 1;
    }
    proxy_lane
}

/// Search a (padded) fast lane for `key`: the result is the position of some
/// occurrence of `key` if the lane holds one, else the largest position whose
/// entry is below `key`, else 0. In every case it is a sound starting point
/// for the linear scan in the denser lane below.
fn binary_search(key: u32, lane: &[u32]) -> (r: usize)
    requires
        lane@.len() >= 1,
        sorted(lane@),
    ensures
        r < lane@.len(),
        lane@[r as int] <= key || r == 0,
        (exists|i: int| 0 <= i < lane@.len() && lane@[i] == key) ==> lane@[r as int] == key,
        lane@[r as int] != key ==> forall|j: int| r < j < lane@.len() ==> lane@[j] > key,
{
    let mut first: usize = 0;
    let mut last: usize = lane.len() - 1;

    while first <= last
        invariant
            lane@.len() <= usize::MAX,
            last < lane@.len(),
            first <= last + 1,
            sorted(lane@),
            forall|j: int| 0 <= j < first ==> lane@[j] < key,
            forall|j: int| last < j < lane@.len() ==> lane@[j] > key,
        ensures
            last < lane@.len(),
            first <= last + 1,
            forall|j: int| 0 <= j < first ==> lane@[j] < key,
            forall|j: int| last < j < lane@.len() ==> lane@[j] > key,
            first > last || (first == 0 && last == 0 && lane@[0] > key),
        decreases last + 1 - first,
    {
        let middle = first + (last - first) / 2;
        proof {
            assert(first <= middle <= last);
        }
        let v = *slice_index_get(lane, middle);
        if v < key {
            first = middle + 1;
        } else if v == key {
            return middle;
        } else {
            if middle == 0 {
                last = middle;
                break ;
            } else {
                last = middle - 1;
            }
        }
    }

    // exact key not found: return the nearest starting point
    if first > last {
        last
    } else {
        first
    }
}

impl SkipList {
    /// Bulk-build the skip list from `keys`. The keys are copied and sorted;
    /// `skip` is clamped to `[2, MAX_SKIP]`; `max_level` fast lanes are laid
    /// out in one linearized buffer and the proxy lane is filled.
    pub fn new(max_level: usize, skip: usize, keys: &[u32]) -> (r: SkipList)
        requires
            max_level >= 1,
        ensures
            r.wf(),
            r.spec_max_level() == max_level as int,
            r.spec_skip() == clamp_skip(skip as int),
            sorted(r.keys_seq()),
            r.keys_seq().to_multiset() == keys@.to_multiset(),
    {
        let s: usize = if skip > MAX_SKIP {
            MAX_SKIP
        } else if skip < 2 {
            2
        } else {
            skip
        };
        let keys_vec = slice_to_vec(keys);
        let nodes = sort_u32(keys_vec);
        let lanes = build_lanes(&nodes, s, max_level);
        let ghost padded: Seq<Seq<u32>> = lanes@.map_values(|v: Vec<u32>| v@);
        let ghost nseq = nodes@;
        let (buf, starts, ends) = linearize(lanes);
        let proxy_lane = build_proxies(&nodes, s);
        let r = SkipList {
            max_level,
            skip: s,
            proxy_lane,
            linearized_fast_lanes: buf,
            fast_lane_start: starts,
            fast_lane_end: ends,
            nodes,
        };
        proof {
            reveal(SkipList::wf);
            let m = max_level as int;
            let si = s as int;
            let n = nseq.len() as int;
            assert forall|l: int| 0 <= l < m implies #[trigger] r.lane(l) == padded[l] by {
                assert(buf@.subrange(starts@[l] as int, ends@[l] as int) == padded[l]);
            }
            assert forall|l: int| 0 <= l < m && n > 0 implies #[trigger] r.lane_cnt(l) >= 1 by {
                lemma_lane_cnt_pos(n, si, l);
            }
            assert forall|i: int|
                0 <= i < r.lane_cnt(0) implies #[trigger] r.lane(0)[i] == nseq[i * si] by {
                assert(padded[0][i] == nseq[i * si]);
            }
            assert forall|l: int, i: int|
                0 <= l < m - 1 && 0 <= i < r.lane_cnt(l + 1) implies r.lane(l + 1)[i] == (
            #[trigger] r.lane(l)[i * si]) by {
                assert(padded[l + 1][i] == padded[l][i * si]);
            }
            assert forall|l: int, i: int|
                0 <= l < m && r.lane_cnt(l) <= i < r.lane_len(l) implies #[trigger] r.lane(l)[i]
                == u32::MAX by {
                assert(padded[l][i] == u32::MAX);
            }
            assert(r.wf());
        }
        r
    }

    /// Point lookup: returns the index of some occurrence of `key` among the
    /// sorted keys, or `None` exactly when the key is absent.
    #[verifier::rlimit(100)]
    pub fn find(&self, key: u32) -> (r: Option<usize>)
        requires
            self.wf(),
        ensures
            match r {
                Some(i) => i < self.keys_seq().len() && self.keys_seq()[i as int] == key,
                None => forall|j: int|
                    0 <= j < self.keys_seq().len() ==> self.keys_seq()[j] != key,
            },
    {
        let n = self.nodes.len();
        if n == 0 {
            return None;
        }
        if key == u32::MAX {
            // the sentinel value cannot be told apart from padding during the
            // descent, but as the largest key it can only sit at the tail
            if self.nodes[n - 1] == u32::MAX {
                return Some(n - 1);
            }
            proof {
                reveal(SkipList::wf);
                assert forall|j: int| 0 <= j < self.nodes@.len() implies self.nodes@[j] != key by {
                    assert(self.nodes@[j] <= self.nodes@[n - 1]);
                }
            }
            return None;
        }
        let ghost si = self.spec_skip();
        let ghost ni = self.nodes@.len() as int;

        // binary search for the starting position in the top lane
        proof {
            reveal(SkipList::wf);
            assert(self.max_level >= 1);
            assert(self.fast_lane_start@.len() == self.spec_max_level());
            assert(self.fast_lane_end@.len() == self.spec_max_level());
        }
        let top = self.max_level - 1;
        let st_top = self.fast_lane_start[top];
        let en_top = self.fast_lane_end[top];
        proof {
            reveal(SkipList::wf);
            assert(en_top as int == st_top as int + self.lane_len(top as int));
            assert(en_top <= self.linearized_fast_lanes@.len());
            assert(self.lane_cnt(top as int) >= 1);
            assert(self.lane_cnt(top as int) <= self.lane_len(top as int));
            assert(sorted(self.lane(top as int)));
        }
        let top_lane = slice_subrange(self.linearized_fast_lanes.as_slice(), st_top, en_top);
        proof {
            assert(top_lane@ == self.lane(top as int));
        }
        let mut pos = binary_search(key, top_lane);
        let mut level = top;
        proof {
            reveal(SkipList::wf);
            let lt = self.lane(top as int);
            if lt[pos as int] <= key {
                if pos as int >= self.lane_cnt(top as int) {
                    assert(lt[pos as int] == u32::MAX);
                    assert(false);
                }
            } else {
                assert(pos == 0);
            }
        }
        while level > 0
            invariant
                self.wf(),
                key < u32::MAX,
                ni == self.nodes@.len(),
                ni > 0,
                si == self.spec_skip(),
                (level as int) < self.spec_max_level(),
                (pos as int) < self.lane_cnt(level as int),
                self.lane(level as int)[pos as int] <= key || pos == 0,
                self.lane(level as int)[pos as int] == key || pos as int + 1 >= self.lane_len(
                    level as int,
                ) || self.lane(level as int)[pos as int + 1] > key,
            decreases level,
        {
            level = level - 1;
            proof {
                reveal(SkipList::wf);
                assert(self.fast_lane_start@.len() == self.spec_max_level());
                assert(self.fast_lane_end@.len() == self.spec_max_level());
                lemma_sub_len_iff(self.lane_cnt(level as int), si, pos as int);
                assert((pos as int) * si < self.lane_cnt(level as int));
                assert(si * (pos as int) == (pos as int) * si) by (nonlinear_arith);
                assert((pos as int) * si >= 0) by (nonlinear_arith)
                    requires
                        pos >= 0,
                        si >= 2,
                ;
                assert(self.lane_cnt(level as int) <= self.lane_len(level as int));
                assert(self.fast_lane_end@[level as int] as int <= self
                    .linearized_fast_lanes@.len());
                // the lane link carries the reached entry one level down
                assert(self.lane(level as int + 1)[pos as int] == self.lane(level as int)[(
                pos as int) * si]);
            }
            pos = pos * self.skip;
            let st = self.fast_lane_start[level];
            let en = self.fast_lane_end[level];
            proof {
                reveal(SkipList::wf);
                assert(en as int == st as int + self.lane_len(level as int));
                assert(en <= self.linearized_fast_lanes@.len());
            }
            let llen = en - st;
            while pos + 1 < llen && self.linearized_fast_lanes[st + pos + 1] <= key
                invariant
                    self.wf(),
                    key < u32::MAX,
                    ni == self.nodes@.len(),
                    ni > 0,
                    si == self.spec_skip(),
                    (level as int) < self.spec_max_level(),
                    st == self.fast_lane_start@[level as int],
                    en == self.fast_lane_end@[level as int],
                    en as int == st as int + self.lane_len(level as int),
                    llen as int == self.lane_len(level as int),
                    en <= self.linearized_fast_lanes@.len(),
                    (pos as int) < self.lane_cnt(level as int),
                    self.lane(level as int)[pos as int] <= key || pos == 0,
                decreases llen - pos,
            {
                proof {
                    reveal(SkipList::wf);
                    assert(self.lane(level as int)[pos as int + 1] == self
                        .linearized_fast_lanes@[st as int + pos as int + 1]);
                    if pos as int + 1 >= self.lane_cnt(level as int) {
                        assert(self.lane(level as int)[pos as int + 1] == u32::MAX);
                        assert(false);
                    }
                }
                pos = pos + 1;
            }
            proof {
                if pos + 1 < llen {
                    assert(self.lane(level as int)[pos as int + 1] == self
                        .linearized_fast_lanes@[st as int + pos as int + 1]);
                    assert(self.lane(level as int)[pos as int + 1] > key);
                }
            }
        }

        // bottom-lane check
        proof {
            reveal(SkipList::wf);
            assert(self.fast_lane_start@.len() >= 1);
            assert(self.fast_lane_end@.len() >= 1);
        }
        let st0 = self.fast_lane_start[0];
        proof {
            reveal(SkipList::wf);
            assert(self.lane_cnt(0) <= self.lane_len(0));
            assert(self.fast_lane_end@[0] as int == st0 as int + self.lane_len(0));
            assert(self.fast_lane_end@[0] as int <= self.linearized_fast_lanes@.len());
        }
        let bval = self.linearized_fast_lanes[st0 + pos];
        proof {
            assert(bval == self.lane(0)[pos as int]);
        }
        if bval == key {
            proof {
                reveal(SkipList::wf);
                lemma_sub_len_iff(ni, si, pos as int);
                assert((pos as int) * si < ni);
                assert(si * (pos as int) == (pos as int) * si) by (nonlinear_arith);
                assert(self.lane(0)[pos as int] == self.nodes@[(pos as int) * si]);
            }
            return Some(pos * self.skip);
        }

        // scan the proxy node at the reached bottom position
        proof {
            self.lemma_proxy_at(pos as int);
        }
        let proxy = &self.proxy_lane[pos];
        let plen = proxy.keys.len();
        let mut i: usize = 1;
        while i < plen
            invariant
                self.wf(),
                key < u32::MAX,
                ni == self.nodes@.len(),
                0 < ni <= usize::MAX,
                si == self.spec_skip(),
                (pos as int) < self.lane_cnt(0),
                (pos as int) < self.proxy_count(),
                proxy.keys@ == self.proxy_lane@[pos as int].keys@,
                plen == self.proxy_key_count(pos as int),
                plen == proxy.keys@.len(),
                1 <= i <= plen,
                forall|k: int| 1 <= k < i ==> self.proxy_lane@[pos as int].keys@[k] != key,
            decreases plen - i,
        {
            if *slice_index_get(proxy.keys.as_slice(), i) == key {
                proof {
                    reveal(SkipList::wf);
                    assert(self.proxy_lane@[pos as int].keys@[i as int] == self.nodes@[(
                    pos as int) * si + i]);
                    lemma_fundamental_div_mod(ni, si);
                    lemma_mod_bound(ni, si);
                    lemma_div_is_ordered(ni - 1, ni, si);
                    assert((pos as int) <= ni / si);
                    if (pos as int) < ni / si {
                        lemma_mul_inequality(pos as int + 1, ni / si, si);
                        assert((pos as int + 1) * si == (pos as int) * si + si)
                            by (nonlinear_arith);
                        assert((ni / si) * si == si * (ni / si)) by (nonlinear_arith);
                        assert((pos as int) * si + i < ni);
                    } else {
                        assert((pos as int) * si == si * (ni / si)) by (nonlinear_arith)
                            requires
                                pos as int == ni / si,
                        ;
                        assert((pos as int) * si + i < ni);
                    }
                }
                return Some(pos * self.skip + i);
            }
            i = i + 1;
        }

        // the key is nowhere: not on the bottom lane at or before `pos`, not
        // in the proxy block, and everything beyond exceeds it
        proof {
            reveal(SkipList::wf);
            let lane0 = self.lane(0);
            let cnt0 = self.lane_cnt(0);
            assert forall|j: int| 0 <= j < ni implies self.nodes@[j] != key by {
                if self.nodes@[j] == key {
                    let q = j / si;
                    lemma_div_mul_le(j, si);
                    lemma_div_is_ordered(j, ni - 1, si);
                    assert(q < cnt0);
                    assert(q * si == si * q) by (nonlinear_arith);
                    assert(lane0[q] == self.nodes@[q * si]);
                    assert(self.nodes@[q * si] <= self.nodes@[j]);
                    if lane0[pos as int] > key {
                        assert(pos == 0);
                        assert(lane0[0] == self.nodes@[0]);
                        assert(self.nodes@[0] <= self.nodes@[j]);
                        assert(false);
                    } else {
                        assert(lane0[pos as int] != key);
                        assert(pos as int + 1 >= self.lane_len(0) || lane0[pos as int + 1]
                            > key);
                        if q > pos as int {
                            assert(pos as int + 1 < self.lane_len(0));
                            assert(lane0[pos as int + 1] <= lane0[q]);
                            assert(false);
                        }
                        lemma_sub_len_iff(ni, si, pos as int);
                        assert((pos as int) * si < ni);
                        assert(si * (pos as int) == (pos as int) * si) by (nonlinear_arith);
                        if j < (pos as int) * si {
                            assert(self.nodes@[j] <= self.nodes@[(pos as int) * si]);
                            assert(lane0[pos as int] == self.nodes@[(pos as int) * si]);
                            assert(false);
                        }
                        lemma_fundamental_div_mod(j, si);
                        lemma_mod_bound(j, si);
                        lemma_mul_inequality(q, pos as int, si);
                        assert(j < si * (pos as int) + si);
                        let ioff = j - (pos as int) * si;
                        assert(0 <= ioff < si);
                        if ioff == 0 {
                            assert(lane0[pos as int] == self.nodes@[j]);
                            assert(false);
                        } else {
                            lemma_div_is_ordered(ni - 1, ni, si);
                            if (pos as int) == ni / si {
                                assert((pos as int) * si == si * (ni / si))
                                    by (nonlinear_arith)
                                    requires
                                        pos as int == ni / si,
                                ;
                                lemma_fundamental_div_mod(ni, si);
                                assert(ioff < plen);
                            } else {
                                assert(ioff < plen);
                            }
                            assert(self.proxy_lane@[pos as int].keys@[ioff] == self.nodes@[(
                            pos as int) * si + ioff]);
                            assert(false);
                        }
                    }
                }
            }
        }
        None
    }

    /// The keys held by proxy node `p`.
    pub closed spec fn proxy_keys(self, p: int) -> Seq<u32> {
        self.proxy_lane@[p].keys@
    }

    /// A lane's slice of the linearized buffer has exactly the padded
    /// length.
    proof fn lemma_lane_view(&self, l: int)
        requires
            self.wf(),
            0 <= l < self.spec_max_level(),
        ensures
            self.lane(l).len() == self.lane_len(l),
            self.lane_cnt(l) <= self.lane_len(l),
    {
        reveal(SkipList::wf);
    }

    /// A lane entry above the real count is a padding sentinel.
    proof fn lemma_lane_padding(&self, l: int, i: int)
        requires
            self.wf(),
            0 <= l < self.spec_max_level(),
            self.lane_cnt(l) <= i < self.lane_len(l),
        ensures
            self.lane(l)[i] == u32::MAX,
    {
        reveal(SkipList::wf);
    }

    /// A real entry of lane `l >= 1` is the `skip`-sampled entry of the lane
    /// below.
    proof fn lemma_lane_link(&self, l: int, i: int)
        requires
            self.wf(),
            1 <= l < self.spec_max_level(),
            0 <= i < self.lane_cnt(l),
        ensures
            0 <= i * self.spec_skip() < self.lane_cnt(l - 1),
            self.lane(l)[i] == self.lane(l - 1)[i * self.spec_skip()],
    {
        reveal(SkipList::wf);
        let si = self.spec_skip();
        lemma_sub_len_iff(self.lane_cnt(l - 1), si, i);
        assert(i * si >= 0) by (nonlinear_arith)
            requires
                i >= 0,
                si >= 2,
        ;
        assert(self.lane(l)[i] == self.lane(l - 1)[i * si]);
    }

    /// Structural law of the fast-lane hierarchy: the padded length of every
    /// lane is a multiple of [`MIN_FAST_LANE_SIZE`], every unpadded entry
    /// `lane(l)[i]` equals the key at the sampled position
    /// `i * skip^(l+1)`, and every padding slot holds the `u32::MAX`
    /// sentinel.
    pub proof fn lemma_lane_structure(&self, l: int, i: int)
        requires
            self.wf(),
            0 <= l < self.spec_max_level(),
        ensures
            self.lane(l).len() == self.lane_len(l),
            self.lane_len(l) % 16 == 0,
            0 <= i < self.lane_cnt(l) ==> {
                &&& 0 <= i * stride_rec(self.spec_skip(), l) < self.keys_seq().len()
                &&& self.lane(l)[i] == self.keys_seq()[i * stride_rec(self.spec_skip(), l)]
            },
            self.lane_cnt(l) <= i < self.lane_len(l) ==> self.lane(l)[i] == u32::MAX,
        decreases l,
    {
        let si = self.spec_skip();
        self.lemma_lane_view(l);
        if 0 <= i < self.lane_cnt(l) {
            if l == 0 {
                self.lemma_bottom_entry(i);
            } else {
                self.lemma_lane_link(l, i);
                self.lemma_lane_structure(l - 1, i * si);
                assert((i * si) * stride_rec(si, l - 1) == i * (si * stride_rec(si, l - 1)))
                    by (nonlinear_arith);
            }
        } else if self.lane_cnt(l) <= i < self.lane_len(l) {
            self.lemma_lane_padding(l, i);
        }
    }

    /// A proxy node's keys, read off well-formedness.
    proof fn lemma_proxy_view(&self, p: int)
        requires
            self.wf(),
            0 <= p < self.proxy_count(),
        ensures
            self.proxy_lane@.len() == self.proxy_count(),
            self.proxy_keys(p).len() == self.proxy_key_count(p),
            forall|i: int|
                0 <= i < self.proxy_key_count(p) ==> (#[trigger] self.proxy_keys(p)[i])
                    == self.nodes@[p * self.spec_skip() + i],
    {
        reveal(SkipList::wf);
    }

    /// Build determinism: two well-formed skip lists with the same
    /// parameters over the same multiset of keys are observationally
    /// identical — the sorted keys, every fast lane and every proxy node
    /// coincide.
    pub proof fn lemma_build_deterministic(a: &SkipList, b: &SkipList)
        requires
            a.wf(),
            b.wf(),
            a.spec_skip() == b.spec_skip(),
            a.spec_max_level() == b.spec_max_level(),
            a.keys_seq().to_multiset() == b.keys_seq().to_multiset(),
        ensures
            a.keys_seq() == b.keys_seq(),
            forall|l: int| 0 <= l < a.spec_max_level() ==> #[trigger] a.lane(l) == b.lane(l),
            a.proxy_count() == b.proxy_count(),
            forall|p: int|
                0 <= p < a.proxy_count() ==> #[trigger] a.proxy_keys(p) == b.proxy_keys(p),
    {
        let leq = |x: u32, y: u32| x <= y;
        a.lemma_keys_sorted();
        b.lemma_keys_sorted();
        assert forall|i: int, j: int| 0 <= i < j < a.nodes@.len() implies #[trigger] leq(
            a.nodes@[i],
            a.nodes@[j],
        ) by {
            assert(a.nodes@[i] <= a.nodes@[j]);
        }
        assert forall|i: int, j: int| 0 <= i < j < b.nodes@.len() implies #[trigger] leq(
            b.nodes@[i],
            b.nodes@[j],
        ) by {
            assert(b.nodes@[i] <= b.nodes@[j]);
        }
        assert(vstd::relations::total_ordering(leq));
        vstd::seq_lib::lemma_sorted_unique(a.nodes@, b.nodes@, leq);
        assert(a.nodes@ == b.nodes@);
        let si = a.spec_skip();
        assert forall|l: int| 0 <= l < a.spec_max_level() implies #[trigger] a.lane(l) == b.lane(
            l,
        ) by {
            a.lemma_lane_structure(l, 0);
            b.lemma_lane_structure(l, 0);
            assert forall|i: int| 0 <= i < a.lane_len(l) implies a.lane(l)[i] == b.lane(l)[i] by {
                a.lemma_lane_structure(l, i);
                b.lemma_lane_structure(l, i);
            }
            assert(a.lane(l) =~= b.lane(l));
        }
        assert forall|p: int| 0 <= p < a.proxy_count() implies #[trigger] a.proxy_keys(p)
            == b.proxy_keys(p) by {
            a.lemma_proxy_view(p);
            b.lemma_proxy_view(p);
            assert(a.proxy_keys(p) =~= b.proxy_keys(p));
        }
    }

    /// Read-only view of the sorted key array; a `find` or `find_range`
    /// result indexes into it.
    pub fn sorted_keys(&self) -> (r: &Vec<u32>)
        ensures
            r@ == self.keys_seq(),
    {
        &self.nodes
    }

    /// Every real bottom-lane position indexes a proxy node holding at least
    /// one key.
    proof fn lemma_proxy_at(&self, p: int)
        requires
            self.wf(),
            self.nodes@.len() >= 1,
            0 <= p < self.lane_cnt(0),
        ensures
            p < self.proxy_count(),
            self.proxy_lane@.len() == self.proxy_count(),
            1 <= self.proxy_key_count(p) <= self.spec_skip(),
            self.proxy_key_count(p) == self.proxy_lane@[p].keys@.len(),
    {
        reveal(SkipList::wf);
        let si = self.spec_skip();
        let ni = self.nodes@.len() as int;
        lemma_fundamental_div_mod(ni, si);
        lemma_mod_bound(ni, si);
        lemma_div_is_ordered(ni - 1, ni, si);
        if ni % si == 0 {
            if ni < si {
                vstd::arithmetic::div_mod::lemma_small_mod(ni as nat, si as nat);
                assert(false);
            }
            lemma_div_is_ordered(si, ni, si);
            vstd::arithmetic::div_mod::lemma_div_by_self(si);
            let j = si * (ni / si - 1);
            assert(si * (ni / si - 1) == (ni / si - 1) * si) by (nonlinear_arith);
            assert(si * (ni / si - 1) == si * (ni / si) - si) by (nonlinear_arith);
            vstd::arithmetic::div_mod::lemma_mod_multiples_basic(ni / si - 1, si);
            vstd::arithmetic::div_mod::lemma_div_by_multiple(ni / si - 1, si);
            lemma_div_same_block(j, ni - 1, si);
            assert((ni - 1) / si == ni / si - 1);
            assert(p < ni / si);
        }
    }

    /// The sorted keys and the clamped parameters, read off well-formedness.
    proof fn lemma_keys_sorted(&self)
        requires
            self.wf(),
        ensures
            sorted(self.nodes@),
            self.spec_skip() >= 2,
            self.spec_max_level() >= 1,
    {
        reveal(SkipList::wf);
    }

    /// A real bottom-lane entry is the key at the corresponding sampled
    /// position.
    proof fn lemma_bottom_entry(&self, t: int)
        requires
            self.wf(),
            0 <= t < self.lane_cnt(0),
        ensures
            0 <= t * self.spec_skip() < self.nodes@.len(),
            self.lane(0)[t] == self.nodes@[t * self.spec_skip()],
    {
        reveal(SkipList::wf);
        let si = self.spec_skip();
        let ni = self.nodes@.len() as int;
        lemma_sub_len_iff(ni, si, t);
        assert(t * si >= 0) by (nonlinear_arith)
            requires
                t >= 0,
                si >= 2,
        ;
    }

    /// Facts that hold when the block scan of `find_range` starts: the
    /// bottom-lane entries up to the block of `start_pos` do not exceed
    /// `end`, and the padded bottom lane splits into whole blocks.
    proof fn lemma_block_scan_entry(&self, start: u32, end: u32, start_pos: int)
        requires
            self.wf(),
            start <= end,
            0 <= start_pos < self.nodes@.len(),
            self.nodes@[start_pos] == start,
        ensures
            0 <= start_pos / self.spec_skip() < self.lane_cnt(0),
            forall|t: int|
                0 <= t <= start_pos / self.spec_skip() ==> (#[trigger] self.lane(0)[t]) <= end,
            0 < self.lane_cnt(0) <= self.lane_len(0),
            self.lane_len(0) % 8 == 0,
            (self.nodes@.len() - 1) / self.spec_skip() == self.lane_cnt(0) - 1,
    {
        let si = self.spec_skip();
        let ni = self.nodes@.len() as int;
        let bp = start_pos / si;
        self.lemma_keys_sorted();
        lemma_div_mul_le(start_pos, si);
        lemma_sub_len_iff(ni, si, bp);
        assert(si * bp == bp * si) by (nonlinear_arith);
        assert(bp * si < ni);
        assert(bp < self.lane_cnt(0));
        assert forall|t: int| 0 <= t <= bp implies (#[trigger] self.lane(0)[t]) <= end by {
            self.lemma_bottom_entry(t);
            lemma_mul_inequality(t, bp, si);
            assert(t * si <= bp * si);
            assert(self.nodes@[t * si] <= self.nodes@[start_pos]);
        }
        lemma_div_is_ordered(ni - 1, ni, si);
    }

    /// After the block scan has bracketed the right endpoint at bottom-lane
    /// position `ep` and the proxy scan has refined it to `offset`, the
    /// resulting half-open range is exactly the run of keys in
    /// `[start, end]` beginning at `start_pos`.
    proof fn lemma_refine_range(
        &self,
        start: u32,
        end: u32,
        start_pos: int,
        ep: int,
        plen: int,
        offset: int,
        i: int,
        stopped: bool,
        found: bool,
    )
        requires
            self.wf(),
            start <= end,
            0 < self.nodes@.len(),
            0 <= start_pos < self.nodes@.len(),
            self.nodes@[start_pos] == start,
            0 <= ep < self.lane_cnt(0),
            ep < self.proxy_count(),
            plen == self.proxy_key_count(ep),
            1 <= plen,
            forall|t: int| 0 <= t <= ep ==> (#[trigger] self.lane(0)[t]) <= end,
            found ==> ep + 1 < self.lane_len(0) && self.lane(0)[ep + 1] > end,
            !found ==> ep == self.lane_cnt(0) - 1,
            1 <= i <= plen,
            !stopped ==> offset == plen - 1 && i == plen,
            stopped ==> 1 <= i < plen && offset == i - 1 && self.proxy_lane@[ep].keys@[i] > end,
            forall|t: int| 1 <= t < i ==> (#[trigger] self.proxy_lane@[ep].keys@[t]) <= end,
        ensures
            ({
                let e = ep * self.spec_skip() + offset + 1;
                &&& start_pos < e <= self.nodes@.len()
                &&& (forall|j: int|
                    start_pos <= j < e ==> start <= #[trigger] self.nodes@[j] <= end)
                &&& (e < self.nodes@.len() ==> self.nodes@[e] > end)
            }),
    {
        reveal(SkipList::wf);
        let si = self.spec_skip();
        let ni = self.nodes@.len() as int;
        let base = ep * si;
        let e = base + offset + 1;
        lemma_sub_len_iff(ni, si, ep);
        assert(base < ni);
        assert(si * ep == ep * si) by (nonlinear_arith);
        lemma_fundamental_div_mod(ni, si);
        lemma_mod_bound(ni, si);
        lemma_div_is_ordered(ni - 1, ni, si);
        // the proxy block ends inside the keys
        if ep < ni / si {
            lemma_mul_inequality(ep + 1, ni / si, si);
            assert((ep + 1) * si == ep * si + si) by (nonlinear_arith);
            assert((ni / si) * si == si * (ni / si)) by (nonlinear_arith);
            assert(base + plen <= ni);
        } else {
            assert(ep * si == si * (ni / si)) by (nonlinear_arith)
                requires
                    ep == ni / si,
            ;
            assert(base + plen <= ni);
        }
        assert(e <= ni);
        // the first proxy key equals the reached bottom-lane entry
        assert(self.proxy_lane@[ep].keys@[0] == self.nodes@[ep * si + 0]);
        assert(self.lane(0)[ep] == self.nodes@[ep * si]);
        assert(self.nodes@[base] <= end);
        // everything before `e` lies at or below `end`
        assert forall|j: int| 0 <= j < e implies self.nodes@[j] <= end by {
            if j >= base {
                let t = j - base;
                assert(self.proxy_lane@[ep].keys@[t] == self.nodes@[ep * si + t]);
                if t >= 1 {
                    assert(t < i);
                }
            } else {
                assert(self.nodes@[j] <= self.nodes@[base]);
            }
        }
        // the key at `e`, if any, exceeds `end`
        if e < ni {
            if stopped {
                assert(self.proxy_lane@[ep].keys@[i] == self.nodes@[ep * si + i]);
                assert(self.nodes@[e] > end);
            } else {
                assert(offset == plen - 1);
                if ep < ni / si {
                    assert(plen == si);
                    assert(e == (ep + 1) * si) by (nonlinear_arith)
                        requires
                            e == ep * si + plen,
                            plen == si,
                    ;
                    lemma_sub_len_iff(ni, si, ep + 1);
                    assert(ep + 1 < self.lane_cnt(0));
                    assert(self.lane(0)[ep + 1] == self.nodes@[(ep + 1) * si]);
                    if found {
                        assert(self.lane(0)[ep + 1] > end);
                    } else {
                        assert(false);
                    }
                    assert(self.nodes@[e] > end);
                } else {
                    assert(ep * si == si * (ni / si)) by (nonlinear_arith)
                        requires
                            ep == ni / si,
                    ;
                    assert(e == ni);
                    assert(false);
                }
            }
        }
        // the range is non-empty
        if e <= start_pos {
            assert(self.nodes@[e] > end);
            assert(self.nodes@[e] <= self.nodes@[start_pos]);
            assert(false);
        }
        // every indexed key is at least `start`
        assert forall|j: int| start_pos <= j < e implies start <= self.nodes@[j] by {
            assert(self.nodes@[start_pos] <= self.nodes@[j]);
        }
    }

    /// Range lookup: for `start <= end`, returns a half-open index range
    /// `[b, e)` with `keys[b] == start`, every indexed key in
    /// `[start, end]`, and `e` maximal (the key at `e`, if any, exceeds
    /// `end`); `None` exactly when `start` is absent from the keys.
    #[verifier::rlimit(100)]
    pub fn find_range(&self, start: u32, end: u32) -> (r: Option<Range<usize>>)
        requires
            self.wf(),
            start <= end,
        ensures
            match r {
                Some(rg) => {
                    &&& rg.start < rg.end <= self.keys_seq().len()
                    &&& self.keys_seq()[rg.start as int] == start
                    &&& (forall|j: int|
                        rg.start <= j < rg.end ==> start <= #[trigger] self.keys_seq()[j]
                            <= end)
                    &&& (rg.end < self.keys_seq().len() ==> self.keys_seq()[rg.end as int]
                        > end)
                },
                None => forall|j: int|
                    0 <= j < self.keys_seq().len() ==> self.keys_seq()[j] != start,
            },
    {
        let start_search = self.find(start);
        match start_search {
            Some(start_pos) => {
                let ghost si = self.spec_skip();
                let ghost ni = self.nodes@.len() as int;
                let n = self.nodes.len();
                let s = self.skip;
                proof {
                    reveal(SkipList::wf);
                    assert(self.skip >= 2);
                    assert(self.fast_lane_start@.len() >= 1);
                    assert(self.fast_lane_end@.len() >= 1);
                }
                let st0 = self.fast_lane_start[0];
                let en0 = self.fast_lane_end[0];
                proof {
                    reveal(SkipList::wf);
                    assert(en0 as int == st0 as int + self.lane_len(0));
                    assert(en0 <= self.linearized_fast_lanes@.len());
                }
                let llen = en0 - st0;
                let bottom_pos = start_pos / s;
                proof {
                    self.lemma_block_scan_entry(start, end, start_pos as int);
                }
                // default: the final non-empty proxy, reached when no bottom
                // lane entry exceeds `end`
                let mut end_pos = (n - 1) / s;
                let num_blocks = llen / RANGE_SEARCH_BLOCK_SIZE;
                let start_block = (bottom_pos + 1) / RANGE_SEARCH_BLOCK_SIZE;
                let mut b = start_block;
                let mut found: bool = false;
                proof {
                    lemma_div_mul_le(bottom_pos as int + 1, 8);
                    assert(8 * (start_block as int) <= bottom_pos as int + 1);
                    assert(num_blocks as int * 8 == llen);
                }
                while b < num_blocks && !found
                    invariant
                        self.wf(),
                        si == self.spec_skip(),
                        ni == self.nodes@.len(),
                        0 < ni <= usize::MAX,
                        start <= end,
                        st0 == self.fast_lane_start@[0],
                        en0 == self.fast_lane_end@[0],
                        en0 <= self.linearized_fast_lanes@.len(),
                        en0 as int == st0 as int + self.lane_len(0),
                        llen as int == self.lane_len(0),
                        num_blocks as int * 8 == llen,
                        b <= num_blocks,
                        0 < self.lane_cnt(0) <= self.lane_len(0),
                        self.lane(0)[0] <= end,
                        !found ==> forall|t: int|
                            0 <= t < 8 * (b as int) && t < self.lane_len(0) ==> (
                            #[trigger] self.lane(0)[t]) <= end,
                        !found ==> end_pos as int == self.lane_cnt(0) - 1,
                        found ==> 0 <= (end_pos as int) < self.lane_cnt(0),
                        found ==> (forall|t: int|
                            0 <= t <= end_pos as int ==> (#[trigger] self.lane(0)[t]) <= end),
                        found ==> (end_pos as int) + 1 < self.lane_len(0) && self.lane(0)[
                            end_pos as int + 1] > end,
                    decreases num_blocks - b,
                {
                    let block_offset = b * RANGE_SEARCH_BLOCK_SIZE;
                    let mut any_over = false;
                    let mut i: usize = 0;
                    // fixed-trip scan of the whole block, so the compare-and-or
                    // can lower to vector instructions
                    while i < RANGE_SEARCH_BLOCK_SIZE
                        invariant
                            self.wf(),
                            st0 == self.fast_lane_start@[0],
                            en0 == self.fast_lane_end@[0],
                            en0 <= self.linearized_fast_lanes@.len(),
                            en0 as int == st0 as int + self.lane_len(0),
                            block_offset as int == 8 * (b as int),
                            block_offset as int + 8 <= self.lane_len(0),
                            i <= 8,
                            any_over <==> (exists|t: int|
                                block_offset as int <= t < block_offset as int + i && (
                                #[trigger] self.lane(0)[t]) > end),
                        decreases 8 - i,
                    {
                        let v = self.linearized_fast_lanes[st0 + block_offset + i];
                        proof {
                            assert(v == self.lane(0)[block_offset as int + i]);
                        }
                        any_over = any_over || v > end;
                        i = i + 1;
                    }
                    if any_over {
                        // locate the exact crossing inside the block
                        let mut k: usize = 0;
                        let mut located = false;
                        while k < RANGE_SEARCH_BLOCK_SIZE && !located
                            invariant
                                self.wf(),
                                st0 == self.fast_lane_start@[0],
                                en0 == self.fast_lane_end@[0],
                                en0 <= self.linearized_fast_lanes@.len(),
                                en0 as int == st0 as int + self.lane_len(0),
                                block_offset as int == 8 * (b as int),
                                block_offset as int + 8 <= self.lane_len(0),
                                k <= 8,
                                exists|t: int|
                                    block_offset as int <= t < block_offset as int + 8 && (
                                    #[trigger] self.lane(0)[t]) > end,
                                !located ==> forall|t: int|
                                    block_offset as int <= t < block_offset as int + k ==> (
                                    #[trigger] self.lane(0)[t]) <= end,
                                located ==> k < 8 && self.lane(0)[block_offset as int + k]
                                    > end && (forall|t: int|
                                    block_offset as int <= t < block_offset as int + k ==> (
                                    #[trigger] self.lane(0)[t]) <= end),
                            decreases 8 - k + (if located { 0int } else { 1int }),
                        {
                            let v = self.linearized_fast_lanes[st0 + block_offset + k];
                            proof {
                                assert(v == self.lane(0)[block_offset as int + k]);
                            }
                            if v > end {
                                located = true;
                            } else {
                                k = k + 1;
                            }
                        }
                        proof {
                            reveal(SkipList::wf);
                            assert(located);
                            // the crossing is never at the very first slot
                            if block_offset + k == 0 {
                                assert(false);
                            }
                            // entries at and before the crossing stay in range
                            assert(self.lane(0)[block_offset as int + k] > end);
                            assert(end < u32::MAX);
                            if block_offset as int + k - 1 >= self.lane_cnt(0) {
                                assert(self.lane(0)[block_offset as int + k - 1] == u32::MAX);
                                assert(false);
                            }
                        }
                        end_pos = block_offset + k - 1;
                        found = true;
                    }
                    b = b + 1;
                }

                // refine within the proxy node at `end_pos`
                proof {
                    self.lemma_proxy_at(end_pos as int);
                }
                let proxy = &self.proxy_lane[end_pos];
                let plen = proxy.keys.len();
                let mut offset = plen - 1;
                let mut i: usize = 1;
                let mut stopped = false;
                while i < plen && !stopped
                    invariant
                        self.wf(),
                        si == self.spec_skip(),
                        ni == self.nodes@.len(),
                        0 < ni <= usize::MAX,
                        (end_pos as int) < self.lane_cnt(0),
                        (end_pos as int) < self.proxy_count(),
                        proxy.keys@ == self.proxy_lane@[end_pos as int].keys@,
                        plen == self.proxy_key_count(end_pos as int),
                        plen == proxy.keys@.len(),
                        1 <= plen,
                        1 <= i <= plen,
                        !stopped ==> offset as int == plen - 1,
                        !stopped ==> forall|t: int|
                            1 <= t < i ==> (#[trigger] self.proxy_lane@[end_pos as int].keys@[t])
                                <= end,
                        stopped ==> 1 <= i < plen && offset as int == i - 1
                            && self.proxy_lane@[end_pos as int].keys@[i as int] > end && (
                        forall|t: int|
                            1 <= t < i ==> (#[trigger] self.proxy_lane@[end_pos as int].keys@[t])
                                <= end),
                    decreases plen - i + (if stopped { 0int } else { 1int }),
                {
                    if *slice_index_get(proxy.keys.as_slice(), i) > end {
                        offset = i - 1;
                        stopped = true;
                    } else {
                        i = i + 1;
                    }
                }
                proof {
                    lemma_sub_len_iff(ni, si, end_pos as int);
                    assert((end_pos as int) * si < ni);
                    assert(si * (end_pos as int) == (end_pos as int) * si) by (nonlinear_arith);
                    self.lemma_refine_range(
                        start,
                        end,
                        start_pos as int,
                        end_pos as int,
                        plen as int,
                        offset as int,
                        i as int,
                        stopped,
                        found,
                    );
                }
                let res_end = s * end_pos + offset + 1;
                Some(start_pos..res_end)
            },
            None => None,
        }
    }
}

} // verus!
