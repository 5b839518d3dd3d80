use crate::bitpacker64::{all_fit, fits_in, num_bits, pack, unpack, unpacked_values, BLOCK_LEN};
use crate::var_int::{lemma_vlq_prefix_of_bytes, read_vlq, vlq_bytes, vlq_read, write_vlq};
use crate::zig_zag::{decode64, encode64, unzig_zag, zig_zag};
use std::collections::VecDeque;
use vstd::prelude::*;

pub mod delta_vec;

pub use delta_vec::{DecimalParts, DeltaVec, DeltaVecDecimal};

verus! {

/// Why a stream could not be decoded.
#[derive(Debug, Clone, Copy, PartialEq, Eq, Structural)]
pub enum CodecError {
    /// The header's block size or miniblock count is zero, or they are not 64 apart.
    InvalidHeader,
    /// The stream ends before a field or a packed miniblock does, or a number
    /// in it does not fit in 64 bits.
    TruncatedInput,
    /// A miniblock width is above 64.
    UnsupportedWidth,
    /// Every value of the stream has already been read; only the spec of a read step
    /// names it, since a read requires a value to be left.
    ExhaustedStream,
}

/// The `i64` that is congruent to `x` modulo `2^64`.
pub open spec fn wrap64(x: int) -> i64 {
    let r = x % 0x1_0000_0000_0000_0000;
    if r > i64::MAX {
        (r - 0x1_0000_0000_0000_0000) as i64
    } else {
        r as i64
    }
}

/// The residual of a delta over the smallest delta of its block.
pub open spec fn residual(delta: i64, min: i64) -> u64 {
    (delta - min) as u64
}

/// The residuals of a block of deltas.
pub open spec fn residuals(deltas: Seq<i64>, min: i64) -> Seq<u64> {
    Seq::new(deltas.len(), |i: int| residual(deltas[i], min))
}

/// Miniblock `k` of a block: its values `64k .. 64k + 64`.
pub open spec fn mini_block(values: Seq<u64>, k: int) -> Seq<u64> {
    values.subrange(64 * k, 64 * k + 64)
}

/// Whether `w` is the smallest width at which every one of `values` fits.
pub open spec fn is_min_width(values: Seq<u64>, w: u8) -> bool {
    &&& w <= 64
    &&& all_fit(values, w as u64)
    &&& w > 0 ==> exists|i: int| 0 <= i < values.len() && !fits_in(values[i], (w - 1) as u64)
}

/// Where the packed bytes of miniblock `k` start, after those of the miniblocks before it.
pub open spec fn packed_offset(widths: Seq<u8>, k: nat) -> nat
    decreases k,
{
    if k == 0 {
        0
    } else {
        (packed_offset(widths, (k - 1) as nat) + 8 * widths[k - 1]) as nat
    }
}

/// Whether `payload` holds the miniblocks of `values`, each packed at its smallest width
/// `widths[k]`, one after the other; a miniblock of width 0 takes no bytes.
pub open spec fn packs_mini_blocks(payload: Seq<u8>, values: Seq<u64>, widths: Seq<u8>) -> bool {
    &&& values.len() == 64 * widths.len()
    &&& payload.len() == packed_offset(widths, widths.len())
    &&& forall|k: int|
        0 <= k < widths.len() ==> is_min_width(mini_block(values, k), #[trigger] widths[k])
    &&& forall|k: int|
        0 <= k < widths.len() && #[trigger] widths[k] > 0 ==> unpacked_values(
            payload.subrange(
                packed_offset(widths, k as nat) as int,
                packed_offset(widths, (k + 1) as nat) as int,
            ),
            widths[k] as u64,
        ) == mini_block(values, k)
}

/// Whether `bytes` is the encoding of one block of `64 * m` deltas whose smallest
/// is `min`: the zig-zag VLQ of `min`, one width byte per miniblock, then the
/// packed miniblocks of the residuals.
pub open spec fn encodes_block(bytes: Seq<u8>, deltas: Seq<i64>, min: i64, m: nat) -> bool {
    let head = vlq_bytes(zig_zag(min as int) as nat);
    &&& deltas.len() == 64 * m
    &&& forall|i: int| 0 <= i < deltas.len() ==> min <= #[trigger] deltas[i]
    &&& bytes.len() >= head.len() + m
    &&& bytes.subrange(0, head.len() as int) == head
    &&& packs_mini_blocks(
        bytes.subrange((head.len() + m) as int, bytes.len() as int),
        residuals(deltas, min),
        bytes.subrange(head.len() as int, (head.len() + m) as int),
    )
}

proof fn lemma_wrap64(x: int, r: i64)
    requires
        r == x || r == x - 0x1_0000_0000_0000_0000 || r == x + 0x1_0000_0000_0000_0000,
    ensures
        wrap64(x) == r,
{
}

/// Adding to a wrapped value wraps like adding to the value itself.
proof fn lemma_wrap64_add(x: int, y: int)
    ensures
        wrap64(wrap64(x) + y) == wrap64(x + y),
{
    let m: int = 0x1_0000_0000_0000_0000;
    let r = x % m;
    vstd::arithmetic::div_mod::lemma_fundamental_div_mod(x, m);
    vstd::arithmetic::div_mod::lemma_mod_multiples_vanish(x / m, r + y, m);
    vstd::arithmetic::div_mod::lemma_mod_multiples_vanish(-1, r + y, m);
    assert(x + y == m * (x / m) + (r + y));
    assert(r - m + y == m * -1 + (r + y));
}

/// `i64::wrapping_sub` is subtraction modulo `2^64`.
proof fn lemma_wrapping_sub(a: i64, b: i64)
    ensures
        a.wrapping_sub(b) == wrap64(a - b),
{
    lemma_wrap64(a - b, a.wrapping_sub(b));
}

/// `i64::wrapping_add` is addition modulo `2^64`.
proof fn lemma_wrapping_add(a: i64, b: i64)
    ensures
        a.wrapping_add(b) == wrap64(a + b),
{
    lemma_wrap64(a + b, a.wrapping_add(b));
}

/// The values of one block after `pos` deltas, padded with `min`.
pub open spec fn padded(deltas: Seq<i64>, pos: int, min: i64) -> Seq<i64> {
    Seq::new(deltas.len(), |i: int| if i < pos { deltas[i] } else { min })
}

/// Appends the zig-zag VLQ of `value` to `buffer`.
fn write_zig_zag_var_int(buffer: &mut Vec<u8>, value: i64)
    ensures
        final(buffer)@ == old(buffer)@ + vlq_bytes(zig_zag(value as int) as nat),
{
    write_vlq(buffer, encode64(value));
}

/// What reading a zig-zag VLQ at `pos` of `s` gives: the `i64` and the position after it.
pub open spec fn zig_zag_read(s: Seq<u8>, pos: int) -> Option<(i64, int)> {
    match vlq_read(s, pos) {
        Some((u, p)) => Some((unzig_zag(u as int) as i64, p)),
        None => None,
    }
}

/// Reads the zig-zag VLQ at `pos` of `bytes`.
fn decode_zig_zag_var_int(bytes: &[u8], pos: usize) -> (r: Option<(i64, usize)>)
    requires
        pos <= bytes@.len(),
    ensures
        match r {
            Some((v, p)) => zig_zag_read(bytes@, pos as int) == Some((v, p as int)),
            None => zig_zag_read(bytes@, pos as int) is None,
        },
        r matches Some((v, p)) ==> pos < p <= bytes@.len(),
{
    match read_vlq(bytes, pos) {
        Some((u, p)) => Some((decode64(u), p)),
        None => None,
    }
}


proof fn lemma_packed_offset_increases(widths: Seq<u8>, a: nat, b: nat)
    requires
        a <= b <= widths.len(),
    ensures
        packed_offset(widths, a) <= packed_offset(widths, b),
    decreases b,
{
    if a < b {
        lemma_packed_offset_increases(widths, a, (b - 1) as nat);
    }
}


proof fn lemma_subrange_of_extension(before: Seq<u8>, after: Seq<u8>, a: int, b: int)
    requires
        before.len() <= after.len(),
        forall|i: int| 0 <= i < before.len() ==> after[i] == before[i],
        0 <= a <= b <= before.len(),
    ensures
        after.subrange(a, b) == before.subrange(a, b),
{
    assert(after.subrange(a, b) =~= before.subrange(a, b));
}

proof fn lemma_subrange_of_subrange(s: Seq<u8>, a: int, b: int, c: int, d: int)
    requires
        0 <= a <= b <= s.len(),
        0 <= c <= d <= b - a,
    ensures
        s.subrange(a, b).subrange(c, d) == s.subrange(a + c, a + d),
{
    assert(s.subrange(a, b).subrange(c, d) =~= s.subrange(a + c, a + d));
}

/// The residuals of the deltas over `min`, none of which is below it.
fn residuals_of(deltas: &Vec<i64>, min: i64) -> (r: Vec<u64>)
    requires
        forall|i: int| 0 <= i < deltas@.len() ==> min <= #[trigger] deltas@[i],
    ensures
        r@ == residuals(deltas@, min),
{
    let mut r: Vec<u64> = Vec::new();
    let mut i: usize = 0;
    while i < deltas.len()
        invariant
            i <= deltas@.len(),
            forall|t: int| 0 <= t < deltas@.len() ==> min <= #[trigger] deltas@[t],
            r@ =~= residuals(deltas@, min).subrange(0, i as int),
        decreases deltas@.len() - i,
    {
        let d = deltas[i];
        r.push(((d as i128) - (min as i128)) as u64);
        i = i + 1;
        assert(r@ =~= residuals(deltas@, min).subrange(0, i as int));
    }
    assert(residuals(deltas@, min).subrange(0, i as int) =~= residuals(deltas@, min));
    r
}

/// A copy of miniblock `k` of `values`.
fn mini_block_of(values: &Vec<u64>, k: usize) -> (r: Vec<u64>)
    requires
        64 * k + 64 <= values@.len(),
    ensures
        r@ == mini_block(values@, k as int),
{
    let len = values.len();
    let start = BLOCK_LEN * k;
    let mut r: Vec<u64> = Vec::new();
    let mut i: usize = 0;
    while i < BLOCK_LEN
        invariant
            start == 64 * k,
            start + 64 <= values@.len(),
            i <= 64,
            r@ =~= values@.subrange(start as int, start + i),
        decreases BLOCK_LEN - i,
    {
        r.push(values[start + i]);
        i = i + 1;
        assert(r@ =~= values@.subrange(start as int, start + i));
    }
    r
}

/// Appends the miniblocks of `residuals`, each packed at its width in `widths`.
fn append_mini_blocks(buffer: &mut Vec<u8>, residuals: &Vec<u64>, widths: &Vec<u8>)
    requires
        residuals@.len() == 64 * widths@.len(),
        forall|j: int|
            0 <= j < widths@.len() ==> is_min_width(mini_block(residuals@, j), #[trigger] widths@[j]),
    ensures
        final(buffer)@.len() >= old(buffer)@.len(),
        final(buffer)@.subrange(0, old(buffer)@.len() as int) == old(buffer)@,
        packs_mini_blocks(
            final(buffer)@.subrange(old(buffer)@.len() as int, final(buffer)@.len() as int),
            residuals@,
            widths@,
        ),
{
    let ghost start = buffer@;
    let ghost base = start.len() as int;
    let ghost ws = widths@;
    let mut k: usize = 0;
    while k < widths.len()
        invariant
            ws == widths@,
            base == start.len(),
            residuals@.len() == 64 * ws.len(),
            forall|j: int| 0 <= j < ws.len() ==> is_min_width(mini_block(residuals@, j), #[trigger] ws[j]),
            k <= ws.len(),
            buffer@.len() == base + packed_offset(ws, k as nat),
            buffer@.subrange(0, base) == start,
            forall|j: int|
                0 <= j < k && #[trigger] ws[j] > 0 ==> unpacked_values(
                    buffer@.subrange(
                        base + packed_offset(ws, j as nat),
                        base + packed_offset(ws, (j + 1) as nat),
                    ),
                    ws[j] as u64,
                ) == mini_block(residuals@, j),
        decreases ws.len() - k,
    {
        let w = widths[k];
        let ghost before = buffer@;
        if w > 0 {
            let chunk = mini_block_of(residuals, k);
            let mut packed = vec![0u8; 8 * (w as usize)];
            pack(chunk.as_slice(), packed.as_mut_slice(), w);
            let ghost packed_bytes = packed@;
            buffer.append(&mut packed);
            assert(buffer@.subrange(
                base + packed_offset(ws, k as nat),
                base + packed_offset(ws, (k + 1) as nat),
            ) =~= packed_bytes);
        }
        assert(forall|i: int| 0 <= i < before.len() ==> buffer@[i] == before[i]);
        assert(before.len() <= buffer@.len());
        assert(before.len() == base + packed_offset(ws, k as nat));
        assert forall|j: int| 0 <= j < k + 1 && #[trigger] ws[j] > 0 implies unpacked_values(
            buffer@.subrange(
                base + packed_offset(ws, j as nat),
                base + packed_offset(ws, (j + 1) as nat),
            ),
            ws[j] as u64,
        ) == mini_block(residuals@, j) by {
            if j < k {
                lemma_packed_offset_increases(ws, j as nat, (j + 1) as nat);
                lemma_packed_offset_increases(ws, (j + 1) as nat, k as nat);
                lemma_subrange_of_extension(
                    before,
                    buffer@,
                    base + packed_offset(ws, j as nat),
                    base + packed_offset(ws, (j + 1) as nat),
                );
            }
        }
        proof {
            lemma_subrange_of_extension(before, buffer@, 0, base);
        }
        k = k + 1;
    }
    let ghost payload = buffer@.subrange(base, buffer@.len() as int);
    assert forall|j: int| 0 <= j < ws.len() && #[trigger] ws[j] > 0 implies unpacked_values(
        payload.subrange(
            packed_offset(ws, j as nat) as int,
            packed_offset(ws, (j + 1) as nat) as int,
        ),
        ws[j] as u64,
    ) == mini_block(residuals@, j) by {
        lemma_packed_offset_increases(ws, j as nat, (j + 1) as nat);
        lemma_packed_offset_increases(ws, (j + 1) as nat, ws.len());
        lemma_subrange_of_subrange(
            buffer@,
            base,
            buffer@.len() as int,
            packed_offset(ws, j as nat) as int,
            packed_offset(ws, (j + 1) as nat) as int,
        );
    }
}

/// Accumulates integers as deltas and encodes them block by block.
pub struct Encoder {
    pub first_value: i64,
    pub previous_value: i64,
    pub bit_widths: Vec<u8>,
    pub total_count: usize,
    pub min_delta: i64,
    pub deltas: Vec<i64>,
    pub pos: usize,
    pub blocks_buffer: Vec<u8>,
    pub block_size: usize,
    pub mini_blocks: usize,
    pub mini_block_size: usize,
}

impl Encoder {
    /// The encoder's invariant: the block under way holds `pos` deltas, none below
    /// `min_delta`.
    pub open spec fn wf(&self) -> bool {
        &&& self.mini_block_size == BLOCK_LEN
        &&& self.mini_blocks >= 1
        &&& self.block_size == BLOCK_LEN * self.mini_blocks
        &&& self.deltas@.len() == self.block_size
        &&& self.bit_widths@.len() == self.mini_blocks
        &&& self.pos < self.block_size
        &&& self.pos == 0 ==> self.min_delta == i64::MAX
        &&& self.pos > 0 ==> self.total_count > 0
        &&& forall|i: int| 0 <= i < self.pos ==> self.min_delta <= #[trigger] self.deltas@[i]
    }

    /// An empty encoder whose blocks hold `mini_blocks` miniblocks of 64 deltas.
    pub fn new(mini_blocks: usize) -> (r: Self)
        requires
            mini_blocks >= 1,
            BLOCK_LEN * mini_blocks <= usize::MAX,
        ensures
            r.wf(),
            r.mini_blocks == mini_blocks,
            r.total_count == 0,
            r.first_value == 0,
            r.pos == 0,
            r.blocks_buffer@.len() == 0,
    {
        let mini_block_size = BLOCK_LEN;
        let block_size = mini_block_size * mini_blocks;
        let mut bit_widths: Vec<u8> = Vec::new();
        let mut k: usize = 0;
        while k < mini_blocks
            invariant
                k <= mini_blocks,
                bit_widths@.len() == k,
            decreases mini_blocks - k,
        {
            bit_widths.push(0);
            k = k + 1;
        }
        let mut deltas: Vec<i64> = Vec::new();
        let mut i: usize = 0;
        while i < block_size
            invariant
                i <= block_size,
                deltas@.len() == i,
            decreases block_size - i,
        {
            deltas.push(0);
            i = i + 1;
        }
        Encoder {
            first_value: 0,
            previous_value: 0,
            bit_widths,
            total_count: 0,
            min_delta: i64::MAX,
            deltas,
            pos: 0,
            blocks_buffer: Vec::new(),
            block_size,
            mini_blocks,
            mini_block_size,
        }
    }

    /// Appends `value`: the first value is kept as it is, each later one as its
    /// wrapping difference from the one before; a block that fills up is encoded.
    pub fn write_integer(&mut self, value: i64)
        requires
            old(self).wf(),
            old(self).total_count < usize::MAX,
        ensures
            final(self).wf(),
            final(self).total_count == old(self).total_count + 1,
            final(self).previous_value == value,
            final(self).mini_blocks == old(self).mini_blocks,
            old(self).total_count == 0 ==> {
                &&& final(self).first_value == value
                &&& final(self).pos == old(self).pos
                &&& final(self).deltas@ == old(self).deltas@
                &&& final(self).min_delta == old(self).min_delta
                &&& final(self).blocks_buffer@ == old(self).blocks_buffer@
            },
            old(self).total_count > 0 ==> {
                let d = wrap64(value - old(self).previous_value);
                let deltas = old(self).deltas@.update(old(self).pos as int, d);
                let min = if d < old(self).min_delta {
                    d
                } else {
                    old(self).min_delta
                };
                &&& final(self).first_value == old(self).first_value
                &&& old(self).pos + 1 < old(self).block_size ==> {
                    &&& final(self).pos == old(self).pos + 1
                    &&& final(self).deltas@ == deltas
                    &&& final(self).min_delta == min
                    &&& final(self).blocks_buffer@ == old(self).blocks_buffer@
                }
                &&& old(self).pos + 1 == old(self).block_size ==> {
                    &&& final(self).pos == 0
                    &&& final(self).blocks_buffer@.len() >= old(self).blocks_buffer@.len()
                    &&& final(self).blocks_buffer@.subrange(0, old(self).blocks_buffer@.len() as int)
                        == old(self).blocks_buffer@
                    &&& encodes_block(
                        final(self).blocks_buffer@.subrange(
                            old(self).blocks_buffer@.len() as int,
                            final(self).blocks_buffer@.len() as int,
                        ),
                        deltas,
                        min,
                        old(self).mini_blocks as nat,
                    )
                }
            },
    {
        self.total_count = self.total_count + 1;
        if self.total_count == 1 {
            self.first_value = value;
            self.previous_value = self.first_value;
            return;
        }
        let delta = value.wrapping_sub(self.previous_value);
        proof {
            lemma_wrapping_sub(value, self.previous_value);
        }
        self.previous_value = value;
        self.deltas.set(self.pos, delta);
        self.pos = self.pos + 1;
        if delta < self.min_delta {
            self.min_delta = delta;
        }
        if self.block_size == self.pos {
            self.flush_buffer();
        }
    }

    /// Encodes the block under way, padded to a full block with deltas equal to its
    /// smallest one; the padding is not counted among the values.
    pub fn flush(&mut self)
        requires
            old(self).wf(),
            old(self).total_count + old(self).block_size <= usize::MAX,
        ensures
            final(self).wf(),
            final(self).pos == 0,
            final(self).total_count == old(self).total_count,
            final(self).first_value == old(self).first_value,
            final(self).mini_blocks == old(self).mini_blocks,
            old(self).pos > 0 ==> final(self).previous_value == wrap64(
                old(self).previous_value + (old(self).block_size - old(self).pos)
                    * old(self).min_delta,
            ),
            old(self).pos == 0 ==> *final(self) == *old(self),
            old(self).pos > 0 ==> {
                &&& final(self).blocks_buffer@.len() >= old(self).blocks_buffer@.len()
                &&& final(self).blocks_buffer@.subrange(0, old(self).blocks_buffer@.len() as int)
                    == old(self).blocks_buffer@
                &&& encodes_block(
                    final(self).blocks_buffer@.subrange(
                        old(self).blocks_buffer@.len() as int,
                        final(self).blocks_buffer@.len() as int,
                    ),
                    padded(old(self).deltas@, old(self).pos as int, old(self).min_delta),
                    old(self).min_delta,
                    old(self).mini_blocks as nat,
                )
            },
    {
        if self.pos == 0 {
            return;
        }
        let extra_to_write = self.block_size - self.pos;
        let ghost start = *self;
        let ghost target = padded(start.deltas@, start.pos as int, start.min_delta);
        let mut t: usize = 0;
        while t < extra_to_write
            invariant
                start.wf(),
                start.pos > 0,
                start.total_count > 0,
                start.total_count + start.block_size <= usize::MAX,
                extra_to_write == start.block_size - start.pos,
                target == padded(start.deltas@, start.pos as int, start.min_delta),
                t <= extra_to_write,
                self.wf(),
                self.total_count == start.total_count + t,
                self.first_value == start.first_value,
                self.mini_blocks == start.mini_blocks,
                self.block_size == start.block_size,
                self.previous_value == wrap64(start.previous_value + t * start.min_delta),
                t < extra_to_write ==> {
                    &&& self.pos == start.pos + t
                    &&& self.min_delta == start.min_delta
                    &&& self.blocks_buffer@ == start.blocks_buffer@
                    &&& forall|i: int| 0 <= i < self.pos ==> #[trigger] self.deltas@[i] == target[i]
                },
                t == extra_to_write ==> {
                    &&& self.pos == 0
                    &&& self.blocks_buffer@.len() >= start.blocks_buffer@.len()
                    &&& self.blocks_buffer@.subrange(0, start.blocks_buffer@.len() as int)
                        == start.blocks_buffer@
                    &&& encodes_block(
                        self.blocks_buffer@.subrange(
                            start.blocks_buffer@.len() as int,
                            self.blocks_buffer@.len() as int,
                        ),
                        target,
                        start.min_delta,
                        start.mini_blocks as nat,
                    )
                },
            decreases extra_to_write - t,
        {
            let next = self.previous_value.wrapping_add(self.min_delta);
            proof {
                lemma_wrapping_add(self.previous_value, self.min_delta);
                if t < extra_to_write {
                    lemma_wrap64_add(start.previous_value + t * start.min_delta, start.min_delta as int);
                    assert((t + 1) * start.min_delta == t * start.min_delta + start.min_delta)
                        by (nonlinear_arith);
                }
                lemma_wrap64(next - self.previous_value, self.min_delta);
            }
            let ghost before = *self;
            self.write_integer(next);
            proof {
                let deltas = before.deltas@.update(before.pos as int, before.min_delta);
                if t + 1 == extra_to_write {
                    assert(deltas =~= target);
                }
            }
            t = t + 1;
        }
        self.total_count = self.total_count - extra_to_write;
    }

    /// Appends the header and the encoded blocks to `io`, and empties the block buffer.
    pub fn write(&mut self, io: &mut Vec<u8>)
        ensures
            final(io)@ == old(io)@ + vlq_bytes(old(self).block_size as nat) + vlq_bytes(
                old(self).mini_blocks as nat,
            ) + vlq_bytes(old(self).total_count as nat) + vlq_bytes(
                zig_zag(old(self).first_value as int) as nat,
            ) + old(self).blocks_buffer@,
            *final(self) == (Encoder { blocks_buffer: final(self).blocks_buffer, ..*old(self) }),
            final(self).blocks_buffer@.len() == 0,
    {
        write_vlq(io, self.block_size as u64);
        write_vlq(io, self.mini_blocks as u64);
        write_vlq(io, self.total_count as u64);
        write_zig_zag_var_int(io, self.first_value);
        let mut bytes = Vec::new();
        std::mem::swap(&mut bytes, &mut self.blocks_buffer);
        io.append(&mut bytes);
    }

    /// Encodes the full block under way onto `blocks_buffer` and starts an empty one.
    fn flush_buffer(&mut self)
        requires
            old(self).mini_block_size == BLOCK_LEN,
            old(self).mini_blocks >= 1,
            old(self).block_size == BLOCK_LEN * old(self).mini_blocks,
            old(self).deltas@.len() == old(self).block_size,
            old(self).bit_widths@.len() == old(self).mini_blocks,
            old(self).pos == old(self).block_size,
            forall|i: int| 0 <= i < old(self).pos ==> old(self).min_delta <= #[trigger] old(self).deltas@[i],
        ensures
            final(self).wf(),
            final(self).pos == 0,
            final(self).first_value == old(self).first_value,
            final(self).previous_value == old(self).previous_value,
            final(self).total_count == old(self).total_count,
            final(self).mini_blocks == old(self).mini_blocks,
            final(self).blocks_buffer@.len() >= old(self).blocks_buffer@.len(),
            final(self).blocks_buffer@.subrange(0, old(self).blocks_buffer@.len() as int) == old(self).blocks_buffer@,
            encodes_block(
                final(self).blocks_buffer@.subrange(old(self).blocks_buffer@.len() as int, final(self).blocks_buffer@.len() as int),
                old(self).deltas@,
                old(self).min_delta,
                old(self).mini_blocks as nat,
            ),
    {
        let ghost start = self.blocks_buffer@;
        let ghost head = vlq_bytes(zig_zag(self.min_delta as int) as nat);
        let min = self.min_delta;
        let residuals = residuals_of(&self.deltas, min);
        self.write_min_delta();
        let m = self.mini_block_count_to_flush(self.pos);
        self.calculate_bit_widths_for_delta_block_buffer(&residuals, m);
        let ghost widths = self.bit_widths@;
        let ghost snap = *self;
        let mut k: usize = 0;
        while k < m
            invariant
                *self == (Encoder { blocks_buffer: self.blocks_buffer, ..snap }),
                m == self.mini_blocks,
                self.bit_widths@ == widths,
                widths.len() == m,
                k <= m,
                self.blocks_buffer@ =~= start + head + widths.subrange(0, k as int),
            decreases m - k,
        {
            self.blocks_buffer.push(self.bit_widths[k]);
            k = k + 1;
        }
        let ghost prefix = self.blocks_buffer@;
        assert(widths.subrange(0, m as int) =~= widths);
        assert(prefix == start + head + widths);
        append_mini_blocks(&mut self.blocks_buffer, &residuals, &self.bit_widths);
        let ghost buf = self.blocks_buffer@;
        let ghost payload = buf.subrange(prefix.len() as int, buf.len() as int);
        proof {
            assert(buf =~= prefix + payload);
            assert(buf =~= start + (head + widths + payload));
            let suffix = head + widths + payload;
            assert(buf.subrange(start.len() as int, buf.len() as int) =~= suffix);
            assert(buf.subrange(0, start.len() as int) =~= start);
            assert(suffix.subrange(0, head.len() as int) =~= head);
            assert(suffix.subrange(head.len() as int, (head.len() + m) as int) =~= widths);
            assert(suffix.subrange((head.len() + m) as int, suffix.len() as int) =~= payload);
        }
        self.min_delta = i64::MAX;
        self.pos = 0;
    }

    /// Appends the block's smallest delta as a zig-zag VLQ.
    fn write_min_delta(&mut self)
        ensures
            final(self).blocks_buffer@ == old(self).blocks_buffer@ + vlq_bytes(
                zig_zag(old(self).min_delta as int) as nat,
            ),
            *final(self) == (Encoder { blocks_buffer: final(self).blocks_buffer, ..*old(self) }),
    {
        write_zig_zag_var_int(&mut self.blocks_buffer, self.min_delta);
    }

    /// How many miniblocks `number_count` deltas take.
    fn mini_block_count_to_flush(&self, number_count: usize) -> (r: usize)
        requires
            self.mini_block_size == BLOCK_LEN,
        ensures
            r == (number_count + 63) / 64,
    {
        number_count / self.mini_block_size + if number_count % self.mini_block_size > 0 {
            1
        } else {
            0
        }
    }

    /// Sets the width of each of the first `mini_blocks_to_flush` miniblocks of
    /// `residuals` to the smallest one its values fit in.
    fn calculate_bit_widths_for_delta_block_buffer(
        &mut self,
        residuals: &Vec<u64>,
        mini_blocks_to_flush: usize,
    )
        requires
            mini_blocks_to_flush <= old(self).bit_widths@.len(),
            residuals@.len() >= 64 * mini_blocks_to_flush,
        ensures
            final(self).bit_widths@.len() == old(self).bit_widths@.len(),
            forall|k: int|
                0 <= k < mini_blocks_to_flush ==> is_min_width(
                    mini_block(residuals@, k),
                    #[trigger] final(self).bit_widths@[k],
                ),
            forall|k: int|
                mini_blocks_to_flush <= k < old(self).bit_widths@.len()
                    ==> #[trigger] final(self).bit_widths@[k] == old(self).bit_widths@[k],
            *final(self) == (Encoder { bit_widths: final(self).bit_widths, ..*old(self) }),
    {
        let mut k: usize = 0;
        while k < mini_blocks_to_flush
            invariant
                k <= mini_blocks_to_flush,
                mini_blocks_to_flush <= self.bit_widths@.len(),
                self.bit_widths@.len() == old(self).bit_widths@.len(),
                residuals@.len() >= 64 * mini_blocks_to_flush,
                forall|j: int|
                    0 <= j < k ==> is_min_width(mini_block(residuals@, j), #[trigger] self.bit_widths@[j]),
                forall|j: int|
                    k <= j < self.bit_widths@.len() ==> #[trigger] self.bit_widths@[j]
                        == old(self).bit_widths@[j],
                *self == (Encoder { bit_widths: self.bit_widths, ..*old(self) }),
            decreases mini_blocks_to_flush - k,
        {
            let chunk = mini_block_of(residuals, k);
            let w = num_bits(chunk.as_slice());
            self.bit_widths.set(k, w);
            k = k + 1;
        }
    }
}

/// What a decoder holds, as mathematical values.
pub struct DecoderState {
    pub first_value: i64,
    pub previous_value: i64,
    pub bit_widths: Seq<u8>,
    pub total_count: nat,
    pub min_delta: i64,
    pub deltas: Seq<i64>,
    pub values_read: nat,
    pub io: Seq<u8>,
    pub cursor: int,
    pub mini_blocks: nat,
}

/// The header of a stream: block size, miniblock count, value count, first value, and
/// where the blocks start.
pub open spec fn header_of(s: Seq<u8>) -> Result<(nat, nat, nat, i64, int), CodecError> {
    match vlq_read(s, 0) {
        None => Err(CodecError::TruncatedInput),
        Some((bs, p1)) => match vlq_read(s, p1) {
            None => Err(CodecError::TruncatedInput),
            Some((mb, p2)) => match vlq_read(s, p2) {
                None => Err(CodecError::TruncatedInput),
                Some((tc, p3)) => if bs > usize::MAX || mb > usize::MAX || tc > usize::MAX {
                    Err(CodecError::TruncatedInput)
                } else if bs == 0 || mb == 0 || bs / mb != 64 {
                    Err(CodecError::InvalidHeader)
                } else {
                    match zig_zag_read(s, p3) {
                        None => Err(CodecError::TruncatedInput),
                        Some((fv, p4)) => Ok((bs as nat, mb as nat, tc as nat, fv, p4)),
                    }
                },
            },
        },
    }
}

/// The head of the block at `pos`: its smallest delta, its `m` width bytes, and where
/// its packed miniblocks start.
pub open spec fn block_head(s: Seq<u8>, pos: int, m: nat) -> Option<(i64, Seq<u8>, int)> {
    match zig_zag_read(s, pos) {
        None => None,
        Some((min, p)) => if p + m <= s.len() {
            Some((min, s.subrange(p, p + m), p + m))
        } else {
            None
        },
    }
}

/// The decoder's state once the header, and the first block's head when there are
/// two values or more, have been read.
pub open spec fn opened(s: Seq<u8>) -> Result<DecoderState, CodecError> {
    match header_of(s) {
        Err(e) => Err(e),
        Ok((bs, mb, tc, fv, p)) => {
            let st = DecoderState {
                first_value: fv,
                previous_value: fv,
                bit_widths: Seq::empty(),
                total_count: tc,
                min_delta: 0,
                deltas: Seq::empty(),
                values_read: 0,
                io: s,
                cursor: p,
                mini_blocks: mb,
            };
            if tc > 1 {
                match block_head(s, p, mb) {
                    None => Err(CodecError::TruncatedInput),
                    Some((min, ws, c)) => Ok(
                        DecoderState { min_delta: min, bit_widths: ws, cursor: c, ..st },
                    ),
                }
            } else {
                Ok(st)
            }
        },
    }
}

/// The state after the next miniblock is fetched: the head of the next block is read
/// first when no width is pending, then the miniblock's residuals plus the block's
/// smallest delta join the pending deltas.
pub open spec fn fetched(st: DecoderState) -> Result<DecoderState, CodecError> {
    let head = if st.bit_widths.len() == 0 {
        block_head(st.io, st.cursor, st.mini_blocks)
    } else {
        Some((st.min_delta, st.bit_widths, st.cursor))
    };
    match head {
        None => Err(CodecError::TruncatedInput),
        Some((min, widths, cur)) => if widths.len() == 0 {
            Err(CodecError::TruncatedInput)
        } else if widths[0] > 64 {
            Err(CodecError::UnsupportedWidth)
        } else if cur + 8 * widths[0] > st.io.len() {
            Err(CodecError::TruncatedInput)
        } else {
            let w = widths[0];
            let values = if w == 0 {
                Seq::new(64, |i: int| 0u64)
            } else {
                unpacked_values(st.io.subrange(cur, cur + 8 * w), w as u64)
            };
            Ok(
                DecoderState {
                    min_delta: min,
                    bit_widths: widths.drop_first(),
                    cursor: cur + 8 * w,
                    deltas: st.deltas + Seq::new(64, |i: int| wrap64(values[i] + min)),
                    ..st
                },
            )
        },
    }
}

/// One read: the next value and the state after it.
pub open spec fn read_step(st: DecoderState) -> Result<(i64, DecoderState), CodecError> {
    if st.values_read >= st.total_count {
        Err(CodecError::ExhaustedStream)
    } else if st.values_read == 0 {
        Ok((st.first_value, DecoderState { values_read: 1, ..st }))
    } else {
        let next = if st.deltas.len() == 0 {
            fetched(st)
        } else {
            Ok(st)
        };
        match next {
            Err(e) => Err(e),
            Ok(s2) => {
                let v = wrap64(s2.previous_value + s2.deltas[0]);
                Ok(
                    (
                        v,
                        DecoderState {
                            previous_value: v,
                            deltas: s2.deltas.drop_first(),
                            values_read: s2.values_read + 1,
                            ..s2
                        },
                    ),
                )
            },
        }
    }
}

/// `n` reads in a row, or the error of the first that fails.
pub open spec fn read_all(st: DecoderState, n: nat) -> Result<Seq<i64>, CodecError>
    decreases n,
{
    if n == 0 {
        Ok(Seq::empty())
    } else {
        match read_step(st) {
            Err(e) => Err(e),
            Ok((v, st2)) => match read_all(st2, (n - 1) as nat) {
                Err(e) => Err(e),
                Ok(vs) => Ok(seq![v] + vs),
            },
        }
    }
}

/// The values that a whole stream decodes to.
pub open spec fn decoded(s: Seq<u8>) -> Result<Seq<i64>, CodecError> {
    match opened(s) {
        Err(e) => Err(e),
        Ok(st) => read_all(st, st.total_count),
    }
}

/// Reads a header count, which must fit in `usize`.
fn read_count(bytes: &[u8], pos: usize) -> (r: Option<(usize, usize)>)
    requires
        pos <= bytes@.len(),
    ensures
        match r {
            Some((v, p)) => vlq_read(bytes@, pos as int) == Some((v as u64, p as int)),
            None => match vlq_read(bytes@, pos as int) {
                None => true,
                Some((v, p)) => v > usize::MAX,
            },
        },
        r matches Some((v, p)) ==> pos < p <= bytes@.len(),
{
    match read_vlq(bytes, pos) {
        Some((v, p)) => if v > usize::MAX as u64 {
            None
        } else {
            Some((v as usize, p))
        },
        None => None,
    }
}

/// Decodes a stream from its bytes, value by value.
pub struct Decoder {
    pub first_value: i64,
    pub previous_value: i64,
    pub bit_widths: VecDeque<u8>,
    pub total_count: usize,
    pub min_delta: i64,
    pub deltas: VecDeque<i64>,
    pub values_read: usize,
    pub io: Vec<u8>,
    pub cursor: usize,
    pub mini_blocks: usize,
    pub mini_block_size: usize,
}

impl Decoder {
    /// The decoder's state as mathematical values.
    pub open spec fn state(&self) -> DecoderState {
        DecoderState {
            first_value: self.first_value,
            previous_value: self.previous_value,
            bit_widths: self.bit_widths@,
            total_count: self.total_count as nat,
            min_delta: self.min_delta,
            deltas: self.deltas@,
            values_read: self.values_read as nat,
            io: self.io@,
            cursor: self.cursor as int,
            mini_blocks: self.mini_blocks as nat,
        }
    }

    /// The decoder's invariant.
    pub open spec fn wf(&self) -> bool {
        &&& self.mini_blocks >= 1
        &&& self.mini_block_size == BLOCK_LEN
        &&& self.cursor <= self.io@.len()
        &&& self.io@.len() <= usize::MAX
        &&& self.values_read <= self.total_count
    }

    /// Reads the header of the stream in `io`, and the head of its first block when it
    /// holds two values or more.
    pub fn new(io: Vec<u8>) -> (r: Result<Self, CodecError>)
        ensures
            match r {
                Ok(d) => d.wf() && opened(io@) == Ok::<DecoderState, CodecError>(d.state()),
                Err(e) => opened(io@) == Err::<DecoderState, CodecError>(e),
            },
    {
        let len = io.len();
        let (block_size, p1) = match read_count(io.as_slice(), 0) {
            Some(x) => x,
            None => {
                return Err(CodecError::TruncatedInput);
            },
        };
        let (mini_blocks, p2) = match read_count(io.as_slice(), p1) {
            Some(x) => x,
            None => {
                return Err(CodecError::TruncatedInput);
            },
        };
        let (total_count, p3) = match read_count(io.as_slice(), p2) {
            Some(x) => x,
            None => {
                return Err(CodecError::TruncatedInput);
            },
        };
        if block_size == 0 || mini_blocks == 0 || block_size / mini_blocks != BLOCK_LEN {
            return Err(CodecError::InvalidHeader);
        }
        let (first_value, p4) = match decode_zig_zag_var_int(io.as_slice(), p3) {
            Some(x) => x,
            None => {
                return Err(CodecError::TruncatedInput);
            },
        };
        let mut decoder = Decoder {
            first_value,
            previous_value: first_value,
            bit_widths: VecDeque::new(),
            total_count,
            min_delta: 0,
            deltas: VecDeque::new(),
            values_read: 0,
            io,
            cursor: p4,
            mini_blocks,
            mini_block_size: BLOCK_LEN,
        };
        if total_count > 1 {
            match decoder.read_block() {
                Ok(()) => {},
                Err(e) => {
                    return Err(e);
                },
            }
            assert(decoder.bit_widths@ =~= Seq::empty() + decoder.bit_widths@);
        }
        Ok(decoder)
    }

    /// Reads all `total_count` values of the stream.
    pub fn read_integers(&mut self) -> (r: Result<Vec<i64>, CodecError>)
        requires
            old(self).wf(),
            old(self).values_read == 0,
        ensures
            final(self).wf(),
            final(self).total_count == old(self).total_count,
            r is Ok ==> final(self).values_read == old(self).total_count,
            match r {
                Ok(v) => read_all(old(self).state(), old(self).total_count as nat) == Ok::<
                    Seq<i64>,
                    CodecError,
                >(v@),
                Err(e) => read_all(old(self).state(), old(self).total_count as nat) == Err::<
                    Seq<i64>,
                    CodecError,
                >(e),
            },
    {
        let n = self.total_count;
        let ghost st0 = self.state();
        let mut values: Vec<i64> = Vec::new();
        let mut i: usize = 0;
        while i < n
            invariant
                st0 == old(self).state(),
                n == old(self).total_count,
                self.wf(),
                i <= n,
                self.values_read == i,
                self.total_count == n,
                read_all(st0, n as nat) == match read_all(self.state(), (n - i) as nat) {
                    Ok(vs) => Ok(values@ + vs),
                    Err(e) => Err(e),
                },
            decreases n - i,
        {
            let ghost before = self.state();
            match self.read_integer() {
                Ok(v) => {
                    proof {
                        match read_all(self.state(), (n - i - 1) as nat) {
                            Ok(vs) => {
                                assert(values@.push(v) + vs =~= values@ + (seq![v] + vs));
                            },
                            Err(e) => {},
                        }
                    }
                    values.push(v);
                },
                Err(e) => {
                    assert(read_step(before) == Err::<(i64, DecoderState), CodecError>(e));
                    assert(read_all(before, (n - i) as nat) == Err::<Seq<i64>, CodecError>(e));
                    return Err(e);
                },
            }
            i = i + 1;
        }
        assert(values@ + Seq::<i64>::empty() =~= values@);
        Ok(values)
    }

    /// Reads the next value.
    pub fn read_integer(&mut self) -> (r: Result<i64, CodecError>)
        requires
            old(self).wf(),
            old(self).values_read < old(self).total_count,
        ensures
            final(self).wf(),
            final(self).total_count == old(self).total_count,
            r is Ok ==> final(self).values_read == old(self).values_read + 1,
            match read_step(old(self).state()) {
                Ok((v, st)) => r == Ok::<i64, CodecError>(v) && final(self).state() == st,
                Err(e) => r == Err::<i64, CodecError>(e),
            },
    {
        self.check_read();
        if self.values_read == 0 {
            self.values_read = 1;
            return Ok(self.first_value);
        }
        if self.deltas.len() == 0 {
            match self.read_deltas() {
                Ok(()) => {},
                Err(e) => {
                    return Err(e);
                },
            }
        }
        let delta = match self.deltas.pop_front() {
            Some(d) => d,
            None => {
                return Err(CodecError::TruncatedInput);
            },
        };
        let value = self.previous_value.wrapping_add(delta);
        proof {
            lemma_wrapping_add(self.previous_value, delta);
        }
        self.previous_value = value;
        self.values_read = self.values_read + 1;
        Ok(value)
    }

    /// Marks the point where a value is owed: reading past the last value is a
    /// caller's error, which the precondition excludes.
    pub fn check_read(&self)
        requires
            self.values_read < self.total_count,
    {
    }

    /// Whether every value has been read.
    pub fn all_read(&self) -> (r: bool)
        ensures
            r == (self.values_read == self.total_count),
    {
        self.values_read == self.total_count
    }

    /// Reads the head of the next block: its smallest delta and its width bytes.
    pub fn read_block(&mut self) -> (r: Result<(), CodecError>)
        requires
            old(self).wf(),
        ensures
            final(self).wf(),
            final(self).total_count == old(self).total_count,
            final(self).values_read == old(self).values_read,
            match block_head(old(self).io@, old(self).cursor as int, old(self).mini_blocks as nat) {
                None => r == Err::<(), CodecError>(CodecError::TruncatedInput),
                Some((min, ws, c)) => r == Ok::<(), CodecError>(()) && final(self).state() == (
                DecoderState {
                    min_delta: min,
                    bit_widths: old(self).bit_widths@ + ws,
                    cursor: c,
                    ..old(self).state()
                }),
            },
    {
        let (min_delta, p) = match decode_zig_zag_var_int(self.io.as_slice(), self.cursor) {
            Some(x) => x,
            None => {
                return Err(CodecError::TruncatedInput);
            },
        };
        if self.mini_blocks > self.io.len() - p {
            return Err(CodecError::TruncatedInput);
        }
        let ghost start = self.bit_widths@;
        let ghost snap = *self;
        let mut k: usize = 0;
        while k < self.mini_blocks
            invariant
                *self == (Decoder { bit_widths: self.bit_widths, ..snap }),
                self.wf(),
                p + self.mini_blocks <= self.io@.len(),
                k <= self.mini_blocks,
                self.bit_widths@ =~= start + self.io@.subrange(p as int, p + k),
            decreases self.mini_blocks - k,
        {
            self.bit_widths.push_back(self.io[p + k]);
            k = k + 1;
            assert(self.bit_widths@ =~= start + self.io@.subrange(p as int, p + k));
        }
        self.min_delta = min_delta;
        self.cursor = p + self.mini_blocks;
        Ok(())
    }

    /// Fetches the next miniblock: its residuals plus the block's smallest delta join
    /// the pending deltas.
    pub fn read_deltas(&mut self) -> (r: Result<(), CodecError>)
        requires
            old(self).wf(),
        ensures
            final(self).wf(),
            final(self).total_count == old(self).total_count,
            final(self).values_read == old(self).values_read,
            match fetched(old(self).state()) {
                Ok(st) => r == Ok::<(), CodecError>(()) && final(self).state() == st,
                Err(e) => r == Err::<(), CodecError>(e),
            },
    {
        if self.bit_widths.len() == 0 {
            match self.read_block() {
                Ok(()) => {},
                Err(e) => {
                    return Err(e);
                },
            }
        }
        let bit_width = match self.bit_widths.pop_front() {
            Some(w) => w,
            None => {
                return Err(CodecError::TruncatedInput);
            },
        };
        if bit_width > 64 {
            return Err(CodecError::UnsupportedWidth);
        }
        let count = 8 * (bit_width as usize);
        if count > self.io.len() - self.cursor {
            return Err(CodecError::TruncatedInput);
        }
        let mut result: Vec<u64> = vec![0u64; BLOCK_LEN];
        if bit_width > 0 {
            let mut packed: Vec<u8> = Vec::new();
            let mut k: usize = 0;
            while k < count
                invariant
                    self.io@.len() <= usize::MAX,
                    self.cursor + count <= self.io@.len(),
                    k <= count,
                    packed@ =~= self.io@.subrange(self.cursor as int, self.cursor + k),
                decreases count - k,
            {
                packed.push(self.io[self.cursor + k]);
                k = k + 1;
                assert(packed@ =~= self.io@.subrange(self.cursor as int, self.cursor + k));
            }
            unpack(packed.as_slice(), result.as_mut_slice(), bit_width);
        }
        let ghost start = self.deltas@;
        let ghost values = result@;
        let ghost snap = *self;
        let mut i: usize = 0;
        while i < BLOCK_LEN
            invariant
                *self == (Decoder { deltas: self.deltas, ..snap }),
                result@ == values,
                values.len() == 64,
                i <= 64,
                self.deltas@ =~= start + Seq::new(i as nat, |j: int| wrap64(values[j] + self.min_delta)),
            decreases BLOCK_LEN - i,
        {
            let t = (result[i] as i128) + (self.min_delta as i128);
            let d = if t > i64::MAX as i128 {
                (t - 0x1_0000_0000_0000_0000) as i64
            } else {
                t as i64
            };
            proof {
                lemma_wrap64(values[i as int] + self.min_delta, d);
            }
            self.deltas.push_back(d);
            i = i + 1;
            assert(self.deltas@ =~= start + Seq::new(i as nat, |j: int| wrap64(values[j] + self.min_delta)));
        }
        self.cursor = self.cursor + count;
        assert(bit_width == 0 ==> values =~= Seq::new(64, |i: int| 0u64));
        Ok(())
    }
}


/// The wrapping differences between consecutive values.
pub open spec fn deltas_of(xs: Seq<i64>) -> Seq<i64> {
    if xs.len() == 0 {
        Seq::empty()
    } else {
        Seq::new((xs.len() - 1) as nat, |i: int| wrap64(xs[i + 1] - xs[i]))
    }
}

/// What is left of `ds` after its first block of 64.
pub open spec fn after_block(ds: Seq<i64>) -> Seq<i64> {
    if ds.len() <= 64 {
        Seq::empty()
    } else {
        ds.subrange(64, ds.len() as int)
    }
}

/// Whether the bytes from `pos` on hold blocks of one miniblock each that encode `ds`,
/// 64 deltas to a block; the last block may hold padding after the deltas.
#[verifier::opaque]
pub open spec fn encodes_deltas(s: Seq<u8>, pos: int, ds: Seq<i64>) -> bool
    decreases ds.len(),
{
    if ds.len() == 0 {
        pos == s.len()
    } else {
        exists|end: int, blk: Seq<i64>, min: i64|
            #![trigger encodes_block(s.subrange(pos, end), blk, min, 1)]
            {
                &&& 0 <= pos <= end <= s.len()
                &&& encodes_block(s.subrange(pos, end), blk, min, 1)
                &&& forall|t: int| 0 <= t < 64 && t < ds.len() ==> blk[t] == ds[t]
                &&& encodes_deltas(s, end, after_block(ds))
            }
    }
}

/// A decoder state that is part way through the stream of `xs`, written with one
/// miniblock per block: the next read gives the next value of `xs`.
#[verifier::opaque]
pub open spec fn tracks(st: DecoderState, xs: Seq<i64>) -> bool {
    let n = xs.len();
    let d = deltas_of(xs);
    let r = st.values_read;
    let q = if r == 0 {
        0
    } else {
        r - 1 + st.deltas.len()
    };
    &&& st.mini_blocks == 1
    &&& st.total_count == n
    &&& r <= n
    &&& n > 0 ==> st.first_value == xs[0]
    &&& r == 0 ==> st.deltas.len() == 0 && st.previous_value == st.first_value
    &&& r >= 1 ==> st.previous_value == xs[r - 1]
    &&& forall|t: int|
        0 <= t < st.deltas.len() && r - 1 + t < d.len() ==> #[trigger] st.deltas[t] == d[r - 1 + t]
    &&& q < d.len() ==> {
        ||| st.bit_widths.len() == 0 && encodes_deltas(st.io, st.cursor, d.subrange(q, d.len() as int))
        ||| st.deltas.len() == 0 && st.bit_widths.len() == 1 && exists|start: int, end: int, blk: Seq<i64>|
            #![trigger encodes_block(st.io.subrange(start, end), blk, st.min_delta, 1)]
            {
                let hl = vlq_bytes(zig_zag(st.min_delta as int) as nat).len();
                &&& 0 <= start <= end <= st.io.len()
                &&& encodes_block(st.io.subrange(start, end), blk, st.min_delta, 1)
                &&& st.cursor == start + hl + 1
                &&& st.bit_widths[0] == st.io[start + hl]
                &&& forall|t: int| 0 <= t < 64 && q + t < d.len() ==> blk[t] == d[q + t]
                &&& encodes_deltas(st.io, end, after_block(d.subrange(q, d.len() as int)))
            }
    }
}


/// Fetching the miniblock of a block that stands at `start .. end` of the stream.
proof fn lemma_fetch_block(st: DecoderState, xs: Seq<i64>, start: int, end: int, blk: Seq<i64>, min: i64)
    requires
        tracks(st, xs),
        st.values_read >= 1,
        st.deltas.len() == 0,
        0 <= start <= end <= st.io.len(),
        encodes_block(st.io.subrange(start, end), blk, min, 1),
        st.bit_widths.len() == 0 ==> st.cursor == start,
        st.bit_widths.len() != 0 ==> {
            let hl = vlq_bytes(zig_zag(min as int) as nat).len();
            &&& st.bit_widths.len() == 1
            &&& st.min_delta == min
            &&& st.cursor == start + hl + 1
            &&& st.bit_widths[0] == st.io[start + hl]
        },
    ensures
        fetched(st) matches Ok(st2) && st2.deltas == blk.subrange(0, 64) && st2.bit_widths.len()
            == 0 && st2.cursor == end && st2 == (DecoderState {
            min_delta: min,
            bit_widths: st2.bit_widths,
            cursor: end,
            deltas: st2.deltas,
            ..st
        }),
{
    reveal(tracks);
    let hl = vlq_bytes(zig_zag(min as int) as nat).len();
    let widths = st.io.subrange(start + hl, start + hl + 1);
    lemma_block_round_trip(st.io, start, end, blk, min, 1);
    lemma_block_length(st.io.subrange(start, end), blk, min);
    assert(packed_offset(widths, 0) == 0);
    let w = widths[0];
    assert(w == st.io[start + hl]);
    assert(mini_block_deltas(st.io, start + hl + 1, w, min) == blk.subrange(0, 64));
    if st.bit_widths.len() != 0 {
        assert(st.bit_widths =~= widths);
    }
    match fetched(st) {
        Ok(st2) => {
            assert(st2.deltas =~= blk.subrange(0, 64));
            assert(st2.bit_widths =~= Seq::<u8>::empty());
        },
        Err(_) => {},
    }
}

/// From a state that tracks `xs`, the next read gives the next value of `xs` and
/// leaves a state that still tracks it.
#[verifier::rlimit(100)]
proof fn lemma_tracks_step(st: DecoderState, xs: Seq<i64>)
    requires
        tracks(st, xs),
        st.values_read < xs.len(),
    ensures
        read_step(st) matches Ok((v, st2)) && v == xs[st.values_read as int] && tracks(st2, xs),
{
    reveal(tracks);
    reveal(encodes_deltas);
    let n = xs.len();
    let d = deltas_of(xs);
    let r = st.values_read as int;
    if r == 0 {
        let st2 = DecoderState { values_read: 1, ..st };
        assert(st2.deltas.len() == 0);
        if 0 < d.len() && st.bit_widths.len() != 0 {
            let (start, end, blk) = choose|start: int, end: int, blk: Seq<i64>|
                #![trigger encodes_block(st.io.subrange(start, end), blk, st.min_delta, 1)]
                {
                    let hl = vlq_bytes(zig_zag(st.min_delta as int) as nat).len();
                    &&& 0 <= start <= end <= st.io.len()
                    &&& encodes_block(st.io.subrange(start, end), blk, st.min_delta, 1)
                    &&& st.cursor == start + hl + 1
                    &&& st.bit_widths[0] == st.io[start + hl]
                    &&& forall|t: int| 0 <= t < 64 && 0 + t < d.len() ==> blk[t] == d[0 + t]
                    &&& encodes_deltas(st.io, end, after_block(d.subrange(0, d.len() as int)))
                };
            assert(encodes_block(st2.io.subrange(start, end), blk, st2.min_delta, 1));
        }
        assert(tracks(st2, xs));
    } else if st.deltas.len() > 0 {
        assert(st.deltas[0] == d[r - 1]);
        lemma_delta_reconstructs(xs[r - 1], xs[r]);
        let v = wrap64(st.previous_value + st.deltas[0]);
        let st2 = DecoderState {
            previous_value: v,
            deltas: st.deltas.drop_first(),
            values_read: st.values_read + 1,
            ..st
        };
        assert forall|t: int|
            0 <= t < st2.deltas.len() && r + t < d.len() implies #[trigger] st2.deltas[t] == d[r + t] by {
            assert(st2.deltas[t] == st.deltas[t + 1]);
        }
        assert(tracks(st2, xs));
    } else {
        let q = r - 1;
        let dq = d.subrange(q, d.len() as int);
        let (start, end, blk, min) = if st.bit_widths.len() == 0 {
            let (end, blk, min) = choose|end: int, blk: Seq<i64>, min: i64|
                #![trigger encodes_block(st.io.subrange(st.cursor, end), blk, min, 1)]
                {
                    &&& 0 <= st.cursor <= end <= st.io.len()
                    &&& encodes_block(st.io.subrange(st.cursor, end), blk, min, 1)
                    &&& forall|t: int| 0 <= t < 64 && t < dq.len() ==> blk[t] == dq[t]
                    &&& encodes_deltas(st.io, end, after_block(dq))
                };
            (st.cursor, end, blk, min)
        } else {
            let (start, end, blk) = choose|start: int, end: int, blk: Seq<i64>|
                #![trigger encodes_block(st.io.subrange(start, end), blk, st.min_delta, 1)]
                {
                    let hl = vlq_bytes(zig_zag(st.min_delta as int) as nat).len();
                    &&& 0 <= start <= end <= st.io.len()
                    &&& encodes_block(st.io.subrange(start, end), blk, st.min_delta, 1)
                    &&& st.cursor == start + hl + 1
                    &&& st.bit_widths[0] == st.io[start + hl]
                    &&& forall|t: int| 0 <= t < 64 && q + t < d.len() ==> blk[t] == d[q + t]
                    &&& encodes_deltas(st.io, end, after_block(dq))
                };
            (start, end, blk, st.min_delta)
        };
        assert(forall|t: int| 0 <= t < 64 && q + t < d.len() ==> blk[t] == d[q + t]);
        lemma_fetch_block(st, xs, start, end, blk, min);
        let s2 = fetched(st)->Ok_0;
        assert(s2.deltas[0] == d[r - 1]);
        lemma_delta_reconstructs(xs[r - 1], xs[r]);
        let v = wrap64(s2.previous_value + s2.deltas[0]);
        let st2 = DecoderState {
            previous_value: v,
            deltas: s2.deltas.drop_first(),
            values_read: s2.values_read + 1,
            ..s2
        };
        assert forall|t: int|
            0 <= t < st2.deltas.len() && r + t < d.len() implies #[trigger] st2.deltas[t] == d[r + t] by {
            assert(st2.deltas[t] == blk[t + 1]);
        }
        if r + 63 < d.len() {
            assert(after_block(dq) =~= d.subrange(r + 63, d.len() as int));
        }
        assert(tracks(st2, xs));
    }
}

/// From a state that tracks `xs`, the remaining reads give the rest of `xs`.
proof fn lemma_tracks_read_all(st: DecoderState, xs: Seq<i64>)
    requires
        tracks(st, xs),
    ensures
        read_all(st, (xs.len() - st.values_read) as nat) == Ok::<Seq<i64>, CodecError>(
            xs.subrange(st.values_read as int, xs.len() as int),
        ),
    decreases xs.len() - st.values_read,
{
    reveal(tracks);
    let r = st.values_read as int;
    if r < xs.len() {
        lemma_tracks_step(st, xs);
        let (v, st2) = read_step(st)->Ok_0;
        lemma_tracks_read_all(st2, xs);
        assert(seq![v] + xs.subrange(r + 1, xs.len() as int) =~= xs.subrange(r, xs.len() as int));
    } else {
        assert(xs.subrange(r, xs.len() as int) =~= Seq::<i64>::empty());
    }
}

/// A stream written with one miniblock per block decodes to the values it was written
/// from: a header with the count and the first value, then blocks that encode the
/// values' wrapping differences, 64 to a block.
pub proof fn lemma_round_trip_one_mini_block(xs: Seq<i64>, rest: Seq<u8>)
    requires
        xs.len() <= usize::MAX,
        ({
            let first = if xs.len() > 0 {
                xs[0]
            } else {
                0
            };
            let h = vlq_bytes(64) + vlq_bytes(1) + vlq_bytes(xs.len()) + vlq_bytes(
                zig_zag(first as int) as nat,
            );
            encodes_deltas(h + rest, h.len() as int, deltas_of(xs))
        }),
    ensures
        ({
            let first = if xs.len() > 0 {
                xs[0]
            } else {
                0
            };
            let h = vlq_bytes(64) + vlq_bytes(1) + vlq_bytes(xs.len()) + vlq_bytes(
                zig_zag(first as int) as nat,
            );
            decoded(h + rest) == Ok::<Seq<i64>, CodecError>(xs)
        }),
{
    reveal(tracks);
    reveal(encodes_deltas);
    let n = xs.len();
    let first = if n > 0 {
        xs[0]
    } else {
        0
    };
    let h = vlq_bytes(64) + vlq_bytes(1) + vlq_bytes(n) + vlq_bytes(zig_zag(first as int) as nat);
    let s = h + rest;
    let d = deltas_of(xs);
    lemma_header_round_trip(64, 1, n, first, rest);
    let st0 = DecoderState {
        first_value: first,
        previous_value: first,
        bit_widths: Seq::empty(),
        total_count: n,
        min_delta: 0,
        deltas: Seq::empty(),
        values_read: 0,
        io: s,
        cursor: h.len() as int,
        mini_blocks: 1,
    };
    assert(d.subrange(0, d.len() as int) =~= d);
    if n > 1 {
        let (end, blk, min) = choose|end: int, blk: Seq<i64>, min: i64|
            #![trigger encodes_block(s.subrange(h.len() as int, end), blk, min, 1)]
            {
                &&& 0 <= h.len() <= end <= s.len()
                &&& encodes_block(s.subrange(h.len() as int, end), blk, min, 1)
                &&& forall|t: int| 0 <= t < 64 && t < d.len() ==> blk[t] == d[t]
                &&& encodes_deltas(s, end, after_block(d))
            };
        lemma_block_round_trip(s, h.len() as int, end, blk, min, 1);
        let hl = vlq_bytes(zig_zag(min as int) as nat).len();
        let st = DecoderState {
            min_delta: min,
            bit_widths: s.subrange((h.len() + hl) as int, (h.len() + hl + 1) as int),
            cursor: (h.len() + hl + 1) as int,
            ..st0
        };
        assert(opened(s) == Ok::<DecoderState, CodecError>(st));
        assert(encodes_block(st.io.subrange(h.len() as int, end), blk, st.min_delta, 1));
        assert(tracks(st, xs));
        lemma_tracks_read_all(st, xs);
    } else {
        assert(opened(s) == Ok::<DecoderState, CodecError>(st0));
        assert(tracks(st0, xs));
        lemma_tracks_read_all(st0, xs);
    }
    assert(xs.subrange(0, n as int) =~= xs);
}


/// Appending a block after blocks that encode `ds` encodes `ds` followed by the first
/// `k` deltas of the new block.
pub proof fn lemma_append_block(
    s: Seq<u8>,
    p: int,
    ds: Seq<i64>,
    t: Seq<u8>,
    blk: Seq<i64>,
    min: i64,
    k: nat,
)
    requires
        encodes_deltas(s, p, ds),
        ds.len() % 64 == 0,
        encodes_block(t, blk, min, 1),
        1 <= k <= 64,
    ensures
        encodes_deltas(s + t, p, ds + blk.subrange(0, k as int)),
    decreases ds.len(),
{
    reveal(encodes_deltas);
    let s2 = s + t;
    let ds2 = ds + blk.subrange(0, k as int);
    if ds.len() == 0 {
        assert(s2.subrange(p, s2.len() as int) =~= t);
        assert(ds2 =~= blk.subrange(0, k as int));
        assert(after_block(ds2) =~= Seq::<i64>::empty());
        assert(encodes_deltas(s2, s2.len() as int, after_block(ds2)));
        assert(encodes_block(s2.subrange(p, s2.len() as int), blk, min, 1));
    } else {
        let (end, b1, m1) = choose|end: int, b1: Seq<i64>, m1: i64|
            #![trigger encodes_block(s.subrange(p, end), b1, m1, 1)]
            {
                &&& 0 <= p <= end <= s.len()
                &&& encodes_block(s.subrange(p, end), b1, m1, 1)
                &&& forall|j: int| 0 <= j < 64 && j < ds.len() ==> b1[j] == ds[j]
                &&& encodes_deltas(s, end, after_block(ds))
            };
        lemma_append_block(s, end, after_block(ds), t, blk, min, k);
        assert(after_block(ds2) =~= after_block(ds) + blk.subrange(0, k as int));
        assert(s2.subrange(p, end) =~= s.subrange(p, end));
        assert(encodes_block(s2.subrange(p, end), b1, m1, 1));
    }
}

/// Blocks keep encoding the same deltas when bytes are put before them.
pub proof fn lemma_shift_blocks(pre: Seq<u8>, s: Seq<u8>, p: int, ds: Seq<i64>)
    requires
        encodes_deltas(s, p, ds),
    ensures
        encodes_deltas(pre + s, pre.len() + p, ds),
    decreases ds.len(),
{
    reveal(encodes_deltas);
    let s2 = pre + s;
    if ds.len() > 0 {
        let (end, b1, m1) = choose|end: int, b1: Seq<i64>, m1: i64|
            #![trigger encodes_block(s.subrange(p, end), b1, m1, 1)]
            {
                &&& 0 <= p <= end <= s.len()
                &&& encodes_block(s.subrange(p, end), b1, m1, 1)
                &&& forall|j: int| 0 <= j < 64 && j < ds.len() ==> b1[j] == ds[j]
                &&& encodes_deltas(s, end, after_block(ds))
            };
        lemma_shift_blocks(pre, s, end, after_block(ds));
        assert(s2.subrange(pre.len() + p, pre.len() + end) =~= s.subrange(p, end));
        assert(encodes_block(s2.subrange(pre.len() + p, pre.len() + end), b1, m1, 1));
    }
}

/// The deltas of a longer prefix extend those of the shorter one.
pub proof fn lemma_deltas_of_push(xs: Seq<i64>, i: int)
    requires
        1 <= i < xs.len(),
    ensures
        deltas_of(xs.subrange(0, i + 1)) =~= deltas_of(xs.subrange(0, i)).push(
            wrap64(xs[i] - xs[i - 1]),
        ),
{
}

/// What an encoder with one miniblock per block holds after being given `xs`: the
/// blocks flushed so far encode the first deltas of `xs`, and the block under way holds
/// the rest.
pub open spec fn encoder_holds(e: Encoder, xs: Seq<i64>) -> bool {
    let d = deltas_of(xs);
    let f = d.len() - e.pos;
    &&& e.wf()
    &&& e.mini_blocks == 1
    &&& e.total_count == xs.len()
    &&& xs.len() > 0 ==> e.first_value == xs[0] && e.previous_value == xs[xs.len() - 1]
    &&& xs.len() == 0 ==> e.first_value == 0
    &&& f >= 0
    &&& f % 64 == 0
    &&& forall|t: int| 0 <= t < e.pos ==> #[trigger] e.deltas@[t] == d[f + t]
    &&& encodes_deltas(e.blocks_buffer@, 0, d.subrange(0, f))
}


/// A single value, at any miniblock count, is written as the header alone, and that
/// header decodes to the value.
pub proof fn lemma_single_value_header_only(v: i64, m: nat)
    requires
        1 <= m,
        64 * m <= usize::MAX,
    ensures
        decoded(
            vlq_bytes(64 * m) + vlq_bytes(m) + vlq_bytes(1) + vlq_bytes(zig_zag(v as int) as nat),
        ) == Ok::<Seq<i64>, CodecError>(seq![v]),
{
    let h = vlq_bytes(64 * m) + vlq_bytes(m) + vlq_bytes(1) + vlq_bytes(zig_zag(v as int) as nat);
    lemma_header_round_trip(64 * m, m, 1, v, Seq::empty());
    assert(h + Seq::<u8>::empty() =~= h);
    let st = opened(h)->Ok_0;
    assert(read_all(read_step(st)->Ok_0.1, 0) == Ok::<Seq<i64>, CodecError>(Seq::empty()));
    assert(seq![v] + Seq::<i64>::empty() =~= seq![v]);
}

/// A fully packed single-miniblock block takes the zig-zag VLQ of its smallest delta,
/// one width byte and `8 * W` packed bytes.
pub proof fn lemma_block_length(bytes: Seq<u8>, deltas: Seq<i64>, min: i64)
    requires
        encodes_block(bytes, deltas, min, 1),
    ensures
        bytes.len() == vlq_bytes(zig_zag(min as int) as nat).len() + 1 + 8 * bytes[
            vlq_bytes(zig_zag(min as int) as nat).len() as int],
{
    let head = vlq_bytes(zig_zag(min as int) as nat);
    let widths = bytes.subrange(head.len() as int, (head.len() + 1) as int);
    assert(packed_offset(widths, 0) == 0);
    assert(packed_offset(widths, 1) == 8 * widths[0]);
}

/// A successful run of `n` reads gives exactly `n` values, so padding at the end of
/// the last block never shows.
pub proof fn lemma_read_all_len(st: DecoderState, n: nat)
    ensures
        read_all(st, n) matches Ok(vs) ==> vs.len() == n,
    decreases n,
{
    if n > 0 {
        match read_step(st) {
            Ok((v, st2)) => lemma_read_all_len(st2, (n - 1) as nat),
            Err(e) => {},
        }
    }
}

/// A VLQ written after any prefix reads back at the prefix's end.
proof fn lemma_vlq_read_after(pre: Seq<u8>, v: nat, rest: Seq<u8>)
    requires
        v <= u64::MAX,
    ensures
        vlq_read(pre + vlq_bytes(v) + rest, pre.len() as int) == Some(
            (v as u64, (pre.len() + vlq_bytes(v).len()) as int),
        ),
{
    let s = pre + vlq_bytes(v) + rest;
    assert(s.subrange(pre.len() as int, s.len() as int) =~= vlq_bytes(v) + rest);
    lemma_vlq_prefix_of_bytes(v, rest);
}

/// The header that `Encoder::write` puts first reads back as its fields.
#[verifier::rlimit(50)]
pub proof fn lemma_header_round_trip(
    block_size: nat,
    mini_blocks: nat,
    total_count: nat,
    first_value: i64,
    rest: Seq<u8>,
)
    requires
        block_size <= usize::MAX,
        mini_blocks <= usize::MAX,
        total_count <= usize::MAX,
        mini_blocks >= 1,
        block_size == 64 * mini_blocks,
    ensures
        ({
            let h = vlq_bytes(block_size) + vlq_bytes(mini_blocks) + vlq_bytes(total_count)
                + vlq_bytes(zig_zag(first_value as int) as nat);
            header_of(h + rest) == Ok::<(nat, nat, nat, i64, int), CodecError>(
                (block_size, mini_blocks, total_count, first_value, h.len() as int),
            )
        }),
{
    let a = vlq_bytes(block_size);
    let b = vlq_bytes(mini_blocks);
    let c = vlq_bytes(total_count);
    let z = zig_zag(first_value as int) as nat;
    let d = vlq_bytes(z);
    let s = a + b + c + d + rest;
    assert(s =~= Seq::<u8>::empty() + a + (b + c + d + rest));
    lemma_vlq_read_after(Seq::empty(), block_size, b + c + d + rest);
    assert(s =~= a + b + (c + d + rest));
    lemma_vlq_read_after(a, mini_blocks, c + d + rest);
    assert(s =~= (a + b) + c + (d + rest));
    lemma_vlq_read_after(a + b, total_count, d + rest);
    assert(s =~= (a + b + c) + d + rest);
    lemma_vlq_read_after(a + b + c, z, rest);
    crate::zig_zag::lemma_zig_zag_64_round_trip(first_value);
    assert(block_size / mini_blocks == 64) by (nonlinear_arith)
        requires
            block_size == 64 * mini_blocks,
            mini_blocks >= 1,
    ;
    assert(a + b + c + d + rest =~= (a + b + c + d) + rest);
}

/// Adding back a wrapping difference gives the later value again.
pub proof fn lemma_delta_reconstructs(previous: i64, value: i64)
    ensures
        wrap64(previous + wrap64(value - previous)) == value,
{
    let d = wrap64(value - previous);
    lemma_wrap64(value - previous, value.wrapping_sub(previous));
    lemma_wrap64(previous + d, value);
}

/// What miniblock `k` of a block reads as: the unpacked residuals of its bytes, or
/// zeros at width 0, each plus the block's smallest delta.
pub open spec fn mini_block_deltas(s: Seq<u8>, off: int, w: u8, min: i64) -> Seq<i64> {
    let values = if w == 0 {
        Seq::new(64, |i: int| 0u64)
    } else {
        unpacked_values(s.subrange(off, off + 8 * w), w as u64)
    };
    Seq::new(64, |i: int| wrap64(values[i] + min))
}

/// A block written by the encoder reads back as its head, then as its deltas
/// miniblock by miniblock, wherever it stands in a stream.
#[verifier::rlimit(60)]
pub proof fn lemma_block_round_trip(s: Seq<u8>, pos: int, end: int, deltas: Seq<i64>, min: i64, m: nat)
    requires
        0 <= pos <= end <= s.len(),
        encodes_block(s.subrange(pos, end), deltas, min, m),
    ensures
        ({
            let hl = vlq_bytes(zig_zag(min as int) as nat).len();
            let widths = s.subrange(pos + hl, pos + hl + m);
            &&& block_head(s, pos, m) == Some((min, widths, pos + hl + m))
            &&& forall|k: int|
                0 <= k < m ==> {
                    let off = pos + hl + m + packed_offset(widths, k as nat);
                    &&& #[trigger] widths[k] <= 64
                    &&& off + 8 * widths[k] <= end
                    &&& mini_block_deltas(s, off, widths[k], min) == deltas.subrange(64 * k, 64 * k + 64)
                }
        }),
{
    let b = s.subrange(pos, end);
    let head = vlq_bytes(zig_zag(min as int) as nat);
    let hl = head.len();
    let widths = s.subrange(pos + hl, pos + hl + m);
    let payload = b.subrange((hl + m) as int, b.len() as int);
    let res = residuals(deltas, min);
    assert(b.subrange(hl as int, (hl + m) as int) =~= widths);
    // the head
    let z = zig_zag(min as int);
    lemma_vlq_prefix_of_bytes(z as nat, s.subrange(pos + hl, s.len() as int));
    assert(s.subrange(pos, s.len() as int) =~= head + s.subrange(pos + hl, s.len() as int)) by {
        assert(b.subrange(0, hl as int) == head);
    }
    crate::zig_zag::lemma_unzig_zag_of_zig_zag(min as int);
    // each miniblock
    assert forall|k: int| 0 <= k < m implies {
        let off = pos + hl + m + packed_offset(widths, k as nat);
        &&& #[trigger] widths[k] <= 64
        &&& off + 8 * widths[k] <= end
        &&& mini_block_deltas(s, off, widths[k], min) == deltas.subrange(64 * k, 64 * k + 64)
    } by {
        let off = pos + hl + m + packed_offset(widths, k as nat);
        let w = widths[k];
        lemma_packed_offset_increases(widths, k as nat, (k + 1) as nat);
        lemma_packed_offset_increases(widths, (k + 1) as nat, m);
        assert(is_min_width(mini_block(res, k), w));
        let chunk = mini_block(res, k);
        assert forall|i: int| 0 <= i < 64 implies #[trigger] mini_block_deltas(s, off, w, min)[i]
            == deltas[64 * k + i] by {
            assert(chunk[i] == res[64 * k + i]);
            assert(min <= deltas[64 * k + i]);
            if w == 0 {
                assert(fits_in(chunk[i], 0));
                let c = chunk[i];
                assert(c >> 0u64 == 0 ==> c == 0) by (bit_vector);
            } else {
                assert(s.subrange(off, off + 8 * w) =~= payload.subrange(
                    packed_offset(widths, k as nat) as int,
                    packed_offset(widths, (k + 1) as nat) as int,
                ));
            }
            lemma_wrap64(res[64 * k + i] + min, deltas[64 * k + i]);
        }
        assert(mini_block_deltas(s, off, w, min) =~= deltas.subrange(64 * k, 64 * k + 64));
    }
}

} // verus!
