use vstd::arithmetic::div_mod::lemma_fundamental_div_mod_converse;
use vstd::prelude::*;
use vstd::std_specs::bits::{axiom_u64_leading_zeros, u64_leading_zeros};

verus! {

/// Number of values in one packed block.
pub const BLOCK_LEN: usize = 64;

/// The mask of the low `w` bits, for `1 <= w <= 64`.
pub open spec fn low_mask(w: u64) -> u64 {
    u64::MAX >> ((64 - w) as u64)
}

/// Whether `v` is below `2^w`.
pub open spec fn fits_in(v: u64, w: u64) -> bool {
    w >= 64 || v >> w == 0
}

/// The little-endian `u64` made of eight bytes, `b0` the least significant.
pub open spec fn le_u64(b0: u8, b1: u8, b2: u8, b3: u8, b4: u8, b5: u8, b6: u8, b7: u8) -> u64 {
    (b0 as u64) | ((b1 as u64) << 8u64) | ((b2 as u64) << 16u64) | ((b3 as u64) << 24u64) | ((
    b4 as u64) << 32u64) | ((b5 as u64) << 40u64) | ((b6 as u64) << 48u64) | ((b7 as u64)
        << 56u64)
}

/// Lane `k` of a byte stream: the little-endian `u64` at bytes `8k .. 8k + 8`.
pub open spec fn lane_at(bytes: Seq<u8>, k: int) -> u64 {
    le_u64(
        bytes[8 * k],
        bytes[8 * k + 1],
        bytes[8 * k + 2],
        bytes[8 * k + 3],
        bytes[8 * k + 4],
        bytes[8 * k + 5],
        bytes[8 * k + 6],
        bytes[8 * k + 7],
    )
}

/// The first `count` lanes of a byte stream.
pub open spec fn lanes_of(bytes: Seq<u8>, count: nat) -> Seq<u64> {
    Seq::new(count, |k: int| lane_at(bytes, k))
}

/// Value `i` of a block packed at width `w`: bits `[i*w, i*w + w)` of the stream made
/// of the lanes, low bits first. A value that straddles two lanes has its low bits in
/// the high bits of the first lane and its high bits in the low bits of the next.
pub open spec fn packed_value(lanes: Seq<u64>, w: u64, i: int) -> u64 {
    let pos = i * w;
    let n = pos / 64;
    let off = (pos % 64) as u64;
    if off + w <= 64 {
        (lanes[n] >> off) & low_mask(w)
    } else {
        ((lanes[n] >> off) | (lanes[n + 1] << ((64 - off) as u64))) & low_mask(w)
    }
}

/// The 64 values that `8 * w` bytes packed at width `w` stand for.
pub open spec fn unpacked_values(bytes: Seq<u8>, w: u64) -> Seq<u64> {
    Seq::new(BLOCK_LEN as nat, |i: int| packed_value(lanes_of(bytes, w as nat), w, i))
}

/// Whether every one of `values` is below `2^w`.
pub open spec fn all_fit(values: Seq<u64>, w: u64) -> bool {
    forall|i: int| 0 <= i < values.len() ==> fits_in(#[trigger] values[i], w)
}

proof fn lemma_le_u64_of_bytes(x: u64)
    by (bit_vector)
    ensures
        le_u64(
            x as u8,
            (x >> 8u64) as u8,
            (x >> 16u64) as u8,
            (x >> 24u64) as u8,
            (x >> 32u64) as u8,
            (x >> 40u64) as u8,
            (x >> 48u64) as u8,
            (x >> 56u64) as u8,
        ) == x,
{
}

proof fn lemma_place_in_lane(a: u64, v: u64, off: u64, w: u64)
    by (bit_vector)
    requires
        1 <= w <= 64,
        off + w <= 64,
        a >> off == 0,
        w == 64 || v >> w == 0,
    ensures
        ((a | (v << off)) >> off) & low_mask(w) == v,
        off + w < 64 ==> (a | (v << off)) >> ((off + w) as u64) == 0,
{
}

proof fn lemma_place_across_lanes(a: u64, v: u64, off: u64, w: u64)
    by (bit_vector)
    requires
        1 <= w <= 64,
        off < 64,
        off + w > 64,
        a >> off == 0,
        w == 64 || v >> w == 0,
    ensures
        (((a | (v << off)) >> off) | ((v >> ((64 - off) as u64)) << ((64 - off) as u64))) & low_mask(w)
            == v,
        (v >> ((64 - off) as u64)) >> ((off + w - 64) as u64) == 0,
{
}

proof fn lemma_frame_in_lane(a: u64, v: u64, off: u64, oj: u64, w: u64)
    by (bit_vector)
    requires
        1 <= w <= 64,
        off < 64,
        oj + w <= off,
    ensures
        ((a | (v << off)) >> oj) & low_mask(w) == (a >> oj) & low_mask(w),
{
}

proof fn lemma_frame_across_lanes(x: u64, a: u64, v: u64, off: u64, oj: u64, w: u64)
    by (bit_vector)
    requires
        1 <= w <= 64,
        off < 64,
        0 < oj < 64,
        oj + w <= 64 + off,
    ensures
        ((x >> oj) | ((a | (v << off)) << ((64 - oj) as u64))) & low_mask(w) == ((x >> oj) | (
        a << ((64 - oj) as u64))) & low_mask(w),
{
}

/// Values placed before bit position `64 * n + off` keep their packed value when
/// lane `n` gains bits at or above `off` and the lanes after it change.
proof fn lemma_pack_frame(
    lanes: Seq<u64>,
    lanes2: Seq<u64>,
    w: u64,
    n: int,
    off: u64,
    v: u64,
    j: int,
)
    requires
        1 <= w <= 64,
        off < 64,
        0 <= n < lanes.len(),
        lanes2.len() == lanes.len(),
        lanes2[n] == lanes[n] | (v << off),
        forall|k: int| 0 <= k < n ==> lanes2[k] == lanes[k],
        0 <= j,
        j * w + w <= 64 * n + off,
    ensures
        packed_value(lanes2, w, j) == packed_value(lanes, w, j),
{
    let pos = j * w;
    let nj = pos / 64;
    let oj = (pos % 64) as u64;
    assert(0 <= j * w) by (nonlinear_arith)
        requires
            0 <= j,
            1 <= w,
    ;
    assert(nj * 64 + oj == pos);
    if oj + w <= 64 {
        if nj == n {
            lemma_frame_in_lane(lanes[n], v, off, oj, w);
        }
    } else {
        assert(nj + 1 <= n);
        if nj + 1 == n {
            lemma_frame_across_lanes(lanes[nj], lanes[n], v, off, oj, w);
        }
    }
}

/// Reads lane `k` of `bytes`.
fn read_lane(bytes: &[u8], k: usize) -> (r: u64)
    requires
        8 * k + 8 <= bytes@.len(),
    ensures
        r == lane_at(bytes@, k as int),
{
    let len = bytes.len();
    let base = 8 * k;
    (bytes[base] as u64) | ((bytes[base + 1] as u64) << 8u64) | ((bytes[base + 2] as u64)
        << 16u64) | ((bytes[base + 3] as u64) << 24u64) | ((bytes[base + 4] as u64) << 32u64) | ((
    bytes[base + 5] as u64) << 40u64) | ((bytes[base + 6] as u64) << 48u64) | ((bytes[base
        + 7] as u64) << 56u64)
}

/// Writes `x` as lane `k` of `bytes`, leaving the other bytes as they were.
fn write_lane(bytes: &mut [u8], k: usize, x: u64)
    requires
        8 * k + 8 <= old(bytes)@.len(),
    ensures
        final(bytes)@.len() == old(bytes)@.len(),
        lane_at(final(bytes)@, k as int) == x,
        forall|t: int|
            0 <= t < old(bytes)@.len() && !(8 * k <= t < 8 * k + 8) ==> final(bytes)@[t] == old(
                bytes,
            )@[t],
{
    let len = bytes.len();
    let base = 8 * k;
    bytes[base] = x as u8;
    bytes[base + 1] = (x >> 8u64) as u8;
    bytes[base + 2] = (x >> 16u64) as u8;
    bytes[base + 3] = (x >> 24u64) as u8;
    bytes[base + 4] = (x >> 32u64) as u8;
    bytes[base + 5] = (x >> 40u64) as u8;
    bytes[base + 6] = (x >> 48u64) as u8;
    bytes[base + 7] = (x >> 56u64) as u8;
    proof {
        lemma_le_u64_of_bytes(x);
    }
}

/// Computes the `w` lanes that hold 64 values packed at width `w`.
fn pack_lanes(unpacked: &[u64], w: u64) -> (lanes: Vec<u64>)
    requires
        1 <= w <= 64,
        unpacked@.len() == BLOCK_LEN,
        all_fit(unpacked@, w),
    ensures
        lanes@.len() == w,
        forall|i: int| 0 <= i < BLOCK_LEN ==> packed_value(lanes@, w, i) == unpacked@[i],
{
    let mut lanes: Vec<u64> = Vec::new();
    let mut k: u64 = 0;
    while k < w
        invariant
            k <= w,
            lanes@.len() == k,
            forall|t: int| 0 <= t < k ==> lanes@[t] == 0,
        decreases w - k,
    {
        lanes.push(0);
        k = k + 1;
    }
    let mut n: usize = 0;
    let mut off: u64 = 0;
    let mut i: usize = 0;
    assert(0u64 >> 0u64 == 0u64) by (bit_vector);
    while i < BLOCK_LEN
        invariant
            1 <= w <= 64,
            unpacked@.len() == BLOCK_LEN,
            all_fit(unpacked@, w),
            i <= BLOCK_LEN,
            lanes@.len() == w,
            off < 64,
            n * 64 + off == i * w,
            n < w ==> lanes@[n as int] >> off == 0,
            forall|t: int| n < t < w ==> lanes@[t] == 0,
            forall|j: int| 0 <= j < i ==> packed_value(lanes@, w, j) == unpacked@[j],
        decreases BLOCK_LEN - i,
    {
        let v = unpacked[i];
        assert(fits_in(v, w));
        assert(n < w) by (nonlinear_arith)
            requires
                n * 64 + off == i * w,
                i < 64,
                1 <= w,
        ;
        proof {
            lemma_fundamental_div_mod_converse(i * w, 64, n as int, off as int);
        }
        let ghost before = lanes@;
        let a = lanes[n];
        lanes.set(n, a | (v << off));
        if off + w > 64 {
            assert(n + 1 < w) by (nonlinear_arith)
                requires
                    n * 64 + off == i * w,
                    i < 64,
                    off + w > 64,
            ;
            lanes.set(n + 1, v >> (64 - off));
            proof {
                lemma_place_across_lanes(a, v, off, w);
            }
        } else {
            proof {
                lemma_place_in_lane(a, v, off, w);
            }
        }
        assert forall|j: int| 0 <= j < i + 1 implies packed_value(lanes@, w, j) == unpacked@[j] by {
            if j < i {
                assert(j * w + w <= i * w) by (nonlinear_arith)
                    requires
                        j < i,
                        1 <= w,
                ;
                lemma_pack_frame(before, lanes@, w, n as int, off, v, j);
            }
        }
        assert((i + 1) * w == i * w + w) by (nonlinear_arith);
        assert(0u64 >> 0u64 == 0u64) by (bit_vector);
        off = off + w;
        if off >= 64 {
            off = off - 64;
            n = n + 1;
        }
        i = i + 1;
    }
    lanes
}

/// Packs 64 values at width `bit_width` into the first `8 * bit_width` bytes of `packed`
/// and returns that count. A width outside `1 ..= 64` packs nothing and returns 0.
pub fn pack(unpacked: &[u64], packed: &mut [u8], bit_width: u8) -> (r: usize)
    requires
        1 <= bit_width <= 64 ==> {
            &&& unpacked@.len() == BLOCK_LEN
            &&& old(packed)@.len() >= 8 * bit_width
            &&& all_fit(unpacked@, bit_width as u64)
        },
    ensures
        final(packed)@.len() == old(packed)@.len(),
        !(1 <= bit_width <= 64) ==> r == 0 && final(packed)@ == old(packed)@,
        1 <= bit_width <= 64 ==> {
            &&& r == 8 * bit_width
            &&& unpacked_values(final(packed)@, bit_width as u64) == unpacked@
            &&& final(packed)@.subrange(r as int, final(packed)@.len() as int) == old(
                packed,
            )@.subrange(r as int, old(packed)@.len() as int)
        },
{
    if bit_width == 0 || bit_width > 64 {
        return 0;
    }
    let w = bit_width as u64;
    let lanes = pack_lanes(unpacked, w);
    let count = bit_width as usize;
    let mut k: usize = 0;
    while k < count
        invariant
            count == w,
            k <= count,
            lanes@.len() == w,
            packed@.len() == old(packed)@.len(),
            packed@.len() >= 8 * count,
            forall|t: int| 0 <= t < k ==> lane_at(packed@, t) == lanes@[t],
            forall|t: int| 8 * k <= t < packed@.len() ==> packed@[t] == old(packed)@[t],
        decreases count - k,
    {
        write_lane(packed, k, lanes[k]);
        k = k + 1;
    }
    assert(lanes_of(packed@, w as nat) =~= lanes@);
    assert(unpacked_values(packed@, w) =~= unpacked@);
    assert(packed@.subrange(8 * count, packed@.len() as int) =~= old(packed)@.subrange(
        8 * count,
        old(packed)@.len() as int,
    ));
    8 * count
}

/// Unpacks the 64 values that the first `8 * bit_width` bytes of `packed` hold at width
/// `bit_width` into `unpacked`, and returns that byte count. A width outside `1 ..= 64`
/// unpacks nothing and returns 0.
pub fn unpack(packed: &[u8], unpacked: &mut [u64], bit_width: u8) -> (r: usize)
    requires
        1 <= bit_width <= 64 ==> packed@.len() >= 8 * bit_width && old(unpacked)@.len()
            == BLOCK_LEN,
    ensures
        !(1 <= bit_width <= 64) ==> r == 0 && final(unpacked)@ == old(unpacked)@,
        1 <= bit_width <= 64 ==> r == 8 * bit_width && final(unpacked)@ == unpacked_values(
            packed@,
            bit_width as u64,
        ),
{
    if bit_width == 0 || bit_width > 64 {
        return 0;
    }
    let w = bit_width as u64;
    let count = bit_width as usize;
    let mut lanes: Vec<u64> = Vec::new();
    let mut k: usize = 0;
    while k < count
        invariant
            count == w,
            k <= count,
            packed@.len() >= 8 * count,
            lanes@ =~= lanes_of(packed@, k as nat),
        decreases count - k,
    {
        let lane = read_lane(packed, k);
        lanes.push(lane);
        k = k + 1;
        assert(lanes@ =~= lanes_of(packed@, k as nat));
    }
    let mask = u64::MAX >> (64 - w);
    let mut n: usize = 0;
    let mut off: u64 = 0;
    let mut i: usize = 0;
    while i < BLOCK_LEN
        invariant
            1 <= w <= 64,
            mask == low_mask(w),
            lanes@.len() == w,
            unpacked@.len() == BLOCK_LEN,
            i <= BLOCK_LEN,
            off < 64,
            n * 64 + off == i * w,
            forall|j: int| 0 <= j < i ==> unpacked@[j] == packed_value(lanes@, w, j),
        decreases BLOCK_LEN - i,
    {
        assert(n < w) by (nonlinear_arith)
            requires
                n * 64 + off == i * w,
                i < 64,
                1 <= w,
        ;
        proof {
            lemma_fundamental_div_mod_converse(i * w, 64, n as int, off as int);
        }
        let mut x = lanes[n] >> off;
        if off + w > 64 {
            assert(n + 1 < w) by (nonlinear_arith)
                requires
                    n * 64 + off == i * w,
                    i < 64,
                    off + w > 64,
            ;
            x = x | (lanes[n + 1] << (64 - off));
        }
        unpacked[i] = x & mask;
        assert((i + 1) * w == i * w + w) by (nonlinear_arith);
        off = off + w;
        if off >= 64 {
            off = off - 64;
            n = n + 1;
        }
        i = i + 1;
    }
    assert(unpacked@ =~= unpacked_values(packed@, w));
    8 * count
}

proof fn lemma_bit_in_lane(x: u64, off: u64, j: u64, w: u64)
    by (bit_vector)
    requires
        1 <= w <= 64,
        j < w,
        off + j < 64,
    ensures
        (((x >> off) & low_mask(w)) >> j) & 1 == (x >> (off + j)) & 1,
{
}

proof fn lemma_bit_low_of_straddle(x: u64, y: u64, off: u64, j: u64, w: u64)
    by (bit_vector)
    requires
        1 <= w <= 64,
        0 < off < 64,
        j < w,
        off + j < 64,
    ensures
        ((((x >> off) | (y << ((64 - off) as u64))) & low_mask(w)) >> j) & 1 == (x >> (off + j))
            & 1,
{
}

proof fn lemma_bit_high_of_straddle(x: u64, y: u64, off: u64, j: u64, w: u64)
    by (bit_vector)
    requires
        1 <= w <= 64,
        off < 64,
        j < w,
        off + j >= 64,
    ensures
        ((((x >> off) | (y << ((64 - off) as u64))) & low_mask(w)) >> j) & 1 == (y >> ((off + j
            - 64) as u64)) & 1,
{
}

/// Bit `b` of lane `k` is bit `p % w` of value `p / w`, where `p = 64k + b`.
proof fn lemma_bit_of_lane(lanes: Seq<u64>, w: u64, k: int, b: u64)
    requires
        1 <= w <= 64,
        lanes.len() == w,
        0 <= k < w,
        b < 64,
    ensures
        ((packed_value(lanes, w, (64 * k + b) / (w as int)) >> (((64 * k + b) % (w as int)) as u64))
            & 1) == ((lanes[k] >> b) & 1),
{
    let p = 64 * k + b;
    let i = p / (w as int);
    let j = p % (w as int);
    let pos = i * w;
    let n = pos / 64;
    let off = pos % 64;
    assert(pos + j == p && 0 <= j < w) by {
        vstd::arithmetic::div_mod::lemma_fundamental_div_mod(p, w as int);
    }
    assert(0 <= i < 64) by (nonlinear_arith)
        requires
            pos + j == p,
            pos == i * w,
            0 <= j < w,
            0 <= p < 64 * w,
            w >= 1,
    ;
    assert(0 <= pos) by (nonlinear_arith)
        requires
            pos == i * w,
            0 <= i,
            w >= 1,
    ;
    assert(64 * n + off == pos && 0 <= off < 64);
    assert(n <= k <= n + 1);
    if k == n {
        if off + w <= 64 {
            lemma_bit_in_lane(lanes[n], off as u64, j as u64, w);
        } else {
            lemma_bit_low_of_straddle(lanes[n], lanes[n + 1], off as u64, j as u64, w);
        }
    } else {
        assert(n + 1 < w);
        lemma_bit_high_of_straddle(lanes[n], lanes[n + 1], off as u64, j as u64, w);
    }
}

proof fn lemma_differing_bit(x: u64, y: u64, b: u64)
    by (bit_vector)
    requires
        b < 64,
        ((x ^ y) >> b) & 1 != 0,
    ensures
        (x >> b) & 1 != (y >> b) & 1,
{
}

/// Lanes with the same packed values are the same lanes: every bit of every lane
/// belongs to exactly one value.
proof fn lemma_lanes_unique(l1: Seq<u64>, l2: Seq<u64>, w: u64)
    requires
        1 <= w <= 64,
        l1.len() == w,
        l2.len() == w,
        forall|i: int| 0 <= i < BLOCK_LEN ==> packed_value(l1, w, i) == packed_value(l2, w, i),
    ensures
        l1 == l2,
{
    assert forall|k: int| 0 <= k < w implies l1[k] == l2[k] by {
        if l1[k] != l2[k] {
            let (u, v) = (l1[k], l2[k]);
            let x = u ^ v;
            assert(x != 0) by (bit_vector)
                requires
                    x == u ^ v,
                    u != v,
            ;
            axiom_u64_leading_zeros(x);
            let b = (63 - u64_leading_zeros(x)) as u64;
            lemma_differing_bit(l1[k], l2[k], b);
            lemma_bit_of_lane(l1, w, k, b);
            lemma_bit_of_lane(l2, w, k, b);
            let p = 64 * k + b;
            assert(0 <= p / (w as int) < 64) by (nonlinear_arith)
                requires
                    0 <= p < 64 * w,
                    w >= 1,
            ;
        }
    }
    assert(l1 =~= l2);
}

proof fn lemma_bytes_of_le_u64(b0: u8, b1: u8, b2: u8, b3: u8, b4: u8, b5: u8, b6: u8, b7: u8)
    by (bit_vector)
    ensures
        ({
            let x = le_u64(b0, b1, b2, b3, b4, b5, b6, b7);
            &&& x as u8 == b0
            &&& (x >> 8u64) as u8 == b1
            &&& (x >> 16u64) as u8 == b2
            &&& (x >> 24u64) as u8 == b3
            &&& (x >> 32u64) as u8 == b4
            &&& (x >> 40u64) as u8 == b5
            &&& (x >> 48u64) as u8 == b6
            &&& (x >> 56u64) as u8 == b7
        }),
{
}

/// A block packs to one byte string only: two with the same unpacked values agree on
/// all of their `8 * w` packed bytes.
pub proof fn lemma_packed_bytes_unique(a: Seq<u8>, b: Seq<u8>, w: u64)
    requires
        1 <= w <= 64,
        a.len() >= 8 * w,
        b.len() >= 8 * w,
        unpacked_values(a, w) == unpacked_values(b, w),
    ensures
        a.subrange(0, 8 * w) == b.subrange(0, 8 * w),
{
    let la = lanes_of(a, w as nat);
    let lb = lanes_of(b, w as nat);
    assert forall|i: int| 0 <= i < BLOCK_LEN implies packed_value(la, w, i) == packed_value(
        lb,
        w,
        i,
    ) by {
        assert(unpacked_values(a, w)[i] == unpacked_values(b, w)[i]);
        assert(unpacked_values(a, w)[i] == packed_value(la, w, i));
        assert(unpacked_values(b, w)[i] == packed_value(lb, w, i));
    }
    lemma_lanes_unique(la, lb, w);
    assert forall|t: int| 0 <= t < 8 * w implies a[t] == b[t] by {
        let k = t / 8;
        assert(la[k] == lb[k]);
        lemma_bytes_of_le_u64(a[8 * k], a[8 * k + 1], a[8 * k + 2], a[8 * k + 3], a[8 * k + 4], a[8 * k + 5], a[8 * k + 6], a[8 * k + 7]);
        lemma_bytes_of_le_u64(b[8 * k], b[8 * k + 1], b[8 * k + 2], b[8 * k + 3], b[8 * k + 4], b[8 * k + 5], b[8 * k + 6], b[8 * k + 7]);
    }
    assert(a.subrange(0, 8 * w) =~= b.subrange(0, 8 * w));
}

/// The bitwise OR of the first `count` values.
pub open spec fn or_of(values: Seq<u64>, count: nat) -> u64
    decreases count,
{
    if count == 0 {
        0
    } else {
        or_of(values, (count - 1) as nat) | values[count - 1]
    }
}

proof fn lemma_or_shr_zero(a: u64, b: u64, t: u64)
    by (bit_vector)
    requires
        t < 64,
    ensures
        ((a | b) >> t == 0) == (a >> t == 0 && b >> t == 0),
{
}

/// The OR of some values has no bit at or above `t` exactly when none of them has.
proof fn lemma_or_of_shr(values: Seq<u64>, count: nat, t: u64)
    requires
        count <= values.len(),
        t < 64,
    ensures
        (or_of(values, count) >> t == 0) == (forall|j: int| 0 <= j < count ==> values[j] >> t == 0),
    decreases count,
{
    if count == 0 {
        assert(0u64 >> t == 0) by (bit_vector);
    } else {
        lemma_or_of_shr(values, (count - 1) as nat, t);
        lemma_or_shr_zero(or_of(values, (count - 1) as nat), values[count - 1], t);
        if or_of(values, count) >> t != 0 {
            if values[count - 1] >> t == 0 {
                let j = choose|j: int| 0 <= j < count - 1 && values[j] >> t != 0;
            }
        }
    }
}

/// The number of significant bits of `v`: 0 for 0, else one more than the index of
/// its highest set bit.
fn most_significant_bit(v: u64) -> (r: u8)
    ensures
        r <= 64,
        fits_in(v, r as u64),
        r > 0 ==> !fits_in(v, (r - 1) as u64),
{
    proof {
        axiom_u64_leading_zeros(v);
    }
    if v == 0 {
        assert(v >> 0u64 == 0) by (bit_vector)
            requires
                v == 0,
        ;
        0
    } else {
        let lz = v.leading_zeros();
        let r = 64u8 - (lz as u8);
        if r < 64 {
            assert(v >> (r as u64) == 0);
        }
        let s = (r - 1) as u64;
        assert((v >> s) & 1 != 0 ==> v >> s != 0) by (bit_vector);
        r
    }
}

/// The smallest width `w` such that all of the 64 values are below `2^w`: 0 exactly
/// when all of them are zero.
pub fn num_bits(decompressed: &[u64]) -> (r: u8)
    requires
        decompressed@.len() == BLOCK_LEN,
    ensures
        r <= 64,
        all_fit(decompressed@, r as u64),
        r > 0 ==> exists|i: int| 0 <= i < BLOCK_LEN && !fits_in(decompressed@[i], (r - 1) as u64),
{
    let mut accumulator = decompressed[0];
    assert(0u64 | accumulator == accumulator) by (bit_vector);
    assert(or_of(decompressed@, 0) == 0);
    assert(accumulator == or_of(decompressed@, 1));
    let mut i: usize = 1;
    while i < BLOCK_LEN
        invariant
            decompressed@.len() == BLOCK_LEN,
            1 <= i <= BLOCK_LEN,
            accumulator == or_of(decompressed@, i as nat),
        decreases BLOCK_LEN - i,
    {
        accumulator = accumulator | decompressed[i];
        i = i + 1;
    }
    let r = most_significant_bit(accumulator);
    if r < 64 {
        proof {
            lemma_or_of_shr(decompressed@, 64, r as u64);
        }
    }
    if r > 0 {
        proof {
            lemma_or_of_shr(decompressed@, 64, (r - 1) as u64);
        }
    }
    r
}

} // verus!
