use crate::delta_encoding_64::{
    decoded, deltas_of, encoder_holds, encodes_block, encodes_deltas, lemma_append_block,
    lemma_deltas_of_push, lemma_round_trip_one_mini_block, lemma_shift_blocks, padded, wrap64,
    Decoder, Encoder,
};
use rust_decimal::prelude::ToPrimitive;
use rust_decimal::Decimal;
use vstd::prelude::*;

verus! {

/// The values that `bytes` decode to, or none when they do not decode.
pub open spec fn values_of(bytes: Seq<u8>) -> Seq<i64> {
    match decoded(bytes) {
        Ok(v) => v,
        Err(_) => Seq::empty(),
    }
}

/// A sequence of integers kept as its encoded bytes, with one miniblock per block.
pub struct DeltaVec {
    bytes: Vec<u8>,
}

impl DeltaVec {
    /// The encoded bytes.
    pub closed spec fn view(&self) -> Seq<u8> {
        self.bytes@
    }

    /// An empty sequence.
    pub fn new() -> (r: Self)
        ensures
            values_of(r@) == Seq::<i64>::empty(),
    {
        let r = DeltaVec { bytes: Vec::new() };
        assert(values_of(r@) =~= Seq::<i64>::empty());
        r
    }

    /// Appends `item`, re-encoding the whole sequence.
    pub fn push(&mut self, item: i64)
        ensures
            values_of(old(self)@).len() + 65 <= usize::MAX ==> values_of(final(self)@) == values_of(
                old(self)@,
            ).push(item),
            values_of(old(self)@).len() + 65 > usize::MAX ==> final(self)@ == old(self)@,
    {
        let items = vec![item];
        assert(items@ =~= seq![item]);
        self.extend(items);
        assert(values_of(old(self)@) + seq![item] =~= values_of(old(self)@).push(item));
    }

    /// Appends `items`, re-encoding the whole sequence. A sequence too long to count in
    /// `usize` is left as it is.
    pub fn extend(&mut self, items: Vec<i64>)
        ensures
            values_of(old(self)@).len() + items@.len() + 64 <= usize::MAX ==> values_of(
                final(self)@,
            ) == values_of(old(self)@) + items@,
            values_of(old(self)@).len() + items@.len() + 64 > usize::MAX ==> final(self)@ == old(
                self,
            )@,
    {
        let mut values = self.to_vec();
        if values.len() > usize::MAX - 64 || items.len() > usize::MAX - 64 - values.len() {
            return;
        }
        let mut items = items;
        values.append(&mut items);
        let mut encoder = Encoder::new(1);
        proof {
            reveal(encodes_deltas);
            assert(values@.subrange(0, 0) =~= Seq::<i64>::empty());
            assert(deltas_of(values@.subrange(0, 0)).subrange(0, 0) =~= Seq::<i64>::empty());
        }
        let mut i: usize = 0;
        while i < values.len()
            invariant
                i <= values@.len(),
                values@.len() + 64 <= usize::MAX,
                encoder_holds(encoder, values@.subrange(0, i as int)),
            decreases values@.len() - i,
        {
            let ghost before = encoder;
            encoder.write_integer(values[i]);
            proof {
                let xs = values@.subrange(0, i as int);
                let xs2 = values@.subrange(0, i + 1);
                let d = deltas_of(xs);
                let d2 = deltas_of(xs2);
                let f = d.len() - before.pos;
                if i == 0 {
                    assert(d2 =~= Seq::<i64>::empty());
                    assert(d2.subrange(0, 0) =~= d.subrange(0, 0));
                } else {
                    lemma_deltas_of_push(values@, i as int);
                    assert(xs[i - 1] == values@[i - 1]);
                    let dd = wrap64(values@[i as int] - before.previous_value);
                    assert(d2 =~= d.push(dd));
                    if before.pos + 1 < before.block_size {
                        assert(d2.subrange(0, f) =~= d.subrange(0, f));
                    } else {
                        let buf0 = before.blocks_buffer@;
                        let buf1 = encoder.blocks_buffer@;
                        let suffix = buf1.subrange(buf0.len() as int, buf1.len() as int);
                        let blk = before.deltas@.update(before.pos as int, dd);
                        let min = if dd < before.min_delta {
                            dd
                        } else {
                            before.min_delta
                        };
                        assert(encodes_block(suffix, blk, min, 1));
                        lemma_append_block(buf0, 0, d.subrange(0, f), suffix, blk, min, 64);
                        assert(buf1 =~= buf0 + suffix);
                        assert(d.subrange(0, f) + blk.subrange(0, 64) =~= d2.subrange(0, f + 64));
                    }
                }
            }
            i = i + 1;
        }
        assert(values@.subrange(0, values@.len() as int) =~= values@);
        self.flush(&mut encoder, Ghost(values@));
    }

    /// Replaces the sequence by `items`.
    pub fn replace(&mut self, items: Vec<i64>)
        ensures
            items@.len() + 64 <= usize::MAX ==> values_of(final(self)@) == items@,
    {
        self.bytes.clear();
        proof {
            assert(values_of(self@).len() == 0);
            assert(values_of(self@) + items@ =~= items@);
        }
        self.extend(items);
    }

    /// A sequence held by the encoded `bytes`.
    pub fn from_bytes(bytes: Vec<u8>) -> (r: Self)
        ensures
            r@ == bytes@,
    {
        DeltaVec { bytes }
    }

    /// A copy of the encoded bytes.
    pub fn to_bytes(&self) -> (r: Vec<u8>)
        ensures
            r@ == self@,
    {
        let mut copy: Vec<u8> = Vec::new();
        let mut i: usize = 0;
        while i < self.bytes.len()
            invariant
                i <= self.bytes@.len(),
                copy@ =~= self.bytes@.subrange(0, i as int),
            decreases self.bytes@.len() - i,
        {
            copy.push(self.bytes[i]);
            i = i + 1;
        }
        assert(copy@ =~= self.bytes@);
        copy
    }

    /// The values of the sequence; none when its bytes do not decode.
    pub fn to_vec(&self) -> (r: Vec<i64>)
        ensures
            r@ == values_of(self@),
    {
        if self.bytes.len() == 0 {
            return Vec::new();
        }
        let copy = self.to_bytes();
        match Decoder::new(copy) {
            Ok(mut decoder) => match decoder.read_integers() {
                Ok(values) => values,
                Err(_) => Vec::new(),
            },
            Err(_) => Vec::new(),
        }
    }

    /// Finishes `encoder`, which was given `values`, and keeps what it writes as the
    /// sequence's bytes.
    fn flush(&mut self, encoder: &mut Encoder, values: Ghost<Seq<i64>>)
        requires
            encoder_holds(*old(encoder), values@),
            values@.len() + 64 <= usize::MAX,
        ensures
            values_of(final(self)@) == values@,
    {
        let ghost before = *encoder;
        encoder.flush();
        proof {
            let d = deltas_of(values@);
            let f = d.len() - before.pos;
            if before.pos == 0 {
                assert(d.subrange(0, f) =~= d);
            } else {
                let buf0 = before.blocks_buffer@;
                let buf1 = encoder.blocks_buffer@;
                let suffix = buf1.subrange(buf0.len() as int, buf1.len() as int);
                let blk = padded(before.deltas@, before.pos as int, before.min_delta);
                lemma_append_block(buf0, 0, d.subrange(0, f), suffix, blk, before.min_delta, before.pos as nat);
                assert(buf1 =~= buf0 + suffix);
                assert(d.subrange(0, f) + blk.subrange(0, before.pos as int) =~= d);
            }
        }
        let mut buffer: Vec<u8> = Vec::new();
        let ghost blocks = encoder.blocks_buffer@;
        encoder.write(&mut buffer);
        proof {
            let n = values@.len();
            let first = if n > 0 {
                values@[0]
            } else {
                0
            };
            let h = crate::var_int::vlq_bytes(64) + crate::var_int::vlq_bytes(1)
                + crate::var_int::vlq_bytes(n) + crate::var_int::vlq_bytes(
                crate::zig_zag::zig_zag(first as int) as nat,
            );
            assert(buffer@ =~= h + blocks);
            lemma_shift_blocks(h, blocks, 0, deltas_of(values@));
            lemma_round_trip_one_mini_block(values@, blocks);
        }
        self.bytes = buffer;
    }
}

/// A decimal number `mantissa / 10^scale`, in the range of a 96-bit mantissa and a
/// scale of at most 28.
#[derive(Clone, Copy, Debug, PartialEq, Eq, Structural)]
pub struct DecimalParts {
    pub mantissa: i128,
    pub scale: u32,
}

impl DecimalParts {
    /// The bounds of a decimal.
    pub open spec fn wf(&self) -> bool {
        &&& -0xFFFF_FFFF_FFFF_FFFF_FFFF_FFFF <= self.mantissa <= 0xFFFF_FFFF_FFFF_FFFF_FFFF_FFFF
        &&& self.scale <= 28
    }
}

/// `10` to the power `n`.
pub open spec fn pow10(n: nat) -> int
    decreases n,
{
    if n == 0 {
        1
    } else {
        10 * pow10((n - 1) as nat)
    }
}

/// Whether `a` is below `b` as a number.
pub open spec fn dec_lt(a: DecimalParts, b: DecimalParts) -> bool {
    a.mantissa * pow10(b.scale as nat) < b.mantissa * pow10(a.scale as nat)
}

/// The larger of two decimals; the second when they are equal.
pub open spec fn dec_max(a: DecimalParts, b: DecimalParts) -> DecimalParts {
    if dec_lt(b, a) {
        a
    } else {
        b
    }
}

/// The largest of `init` and the first `n` of `ds`.
pub open spec fn max_of(init: DecimalParts, ds: Seq<DecimalParts>, n: nat) -> DecimalParts
    decreases n,
{
    if n == 0 {
        init
    } else {
        dec_max(max_of(init, ds, (n - 1) as nat), ds[n - 1])
    }
}

/// The scale left once trailing zero digits of the mantissa `a` (taken without its
/// sign) are dropped.
pub open spec fn normal_scale(a: nat, s: nat) -> nat
    decreases s,
{
    if s > 0 && a % 10 == 0 {
        normal_scale(a / 10, (s - 1) as nat)
    } else {
        s
    }
}

/// The absolute value of the mantissa.
pub open spec fn magnitude(d: DecimalParts) -> nat {
    if d.mantissa < 0 {
        (-d.mantissa) as nat
    } else {
        d.mantissa as nat
    }
}

/// The largest number of fractional digits among the first `n` of `ds`, trailing zeros
/// not counted.
pub open spec fn precision_of(ds: Seq<DecimalParts>, n: nat) -> nat
    decreases n,
{
    if n == 0 {
        0
    } else {
        let p = precision_of(ds, (n - 1) as nat);
        let q = normal_scale(magnitude(ds[n - 1]), ds[n - 1].scale as nat);
        if q > p {
            q
        } else {
            p
        }
    }
}

/// `floor(i64::MAX / value)` as `rust_decimal` computes it, for the decimal
/// `mantissa / 10^scale`, or nothing when it has no `i64` value.
pub uninterp spec fn max_multiplier_of(mantissa: i128, scale: u32) -> Option<i64>;

/// `round(value * m)` as `rust_decimal` computes it, or nothing when it overflows.
pub uninterp spec fn scaled_of(mantissa: i128, scale: u32, m: i64) -> Option<i64>;

/// `value / m` as `rust_decimal` computes it, as mantissa and scale.
pub uninterp spec fn quotient_of(value: i64, m: i64) -> Option<(i128, u32)>;

/// The multiplier for values whose largest precision is `p` and largest value `max`:
/// `10^p` with `p` clamped to 8, lowered to `floor(i64::MAX / max)` when `max > 1`, and
/// never below 1.
pub open spec fn chosen_multiplier(p: nat, max: DecimalParts) -> i64 {
    let q = if p > 8 {
        8
    } else {
        p
    };
    let base = pow10(q) as i64;
    if dec_lt(DecimalParts { mantissa: 1, scale: 0 }, max) {
        match max_multiplier_of(max.mantissa, max.scale) {
            Some(c) => if c < base {
                if c >= 1 {
                    c
                } else {
                    1
                }
            } else {
                base
            },
            None => base,
        }
    } else {
        base
    }
}

/// The integer that stands for `d` at multiplier `m`; 0 when it does not fit.
pub open spec fn scaled_value(d: DecimalParts, m: i64) -> i64 {
    match scaled_of(d.mantissa, d.scale, m) {
        Some(v) => v,
        None => 0,
    }
}

/// The decimal that the integer `v` stands for at multiplier `m`; 0 when the division
/// fails.
pub open spec fn unscaled_value(v: i64, m: i64) -> DecimalParts {
    match quotient_of(v, m) {
        Some((mantissa, scale)) => DecimalParts { mantissa, scale },
        None => DecimalParts { mantissa: 0, scale: 0 },
    }
}

/// Relies on `Decimal::from_i128_with_scale`, which does not panic within these
/// bounds, and on `Decimal`'s `<`, which compares numbers.
#[verifier::external_body]
fn decimal_lt(a: DecimalParts, b: DecimalParts) -> (r: bool)
    requires
        a.wf(),
        b.wf(),
    ensures
        r == dec_lt(a, b),
{
    Decimal::from_i128_with_scale(a.mantissa, a.scale) < Decimal::from_i128_with_scale(
        b.mantissa,
        b.scale,
    )
}

/// Relies on `Decimal::checked_div`, `Decimal::floor` and `to_i64`: the largest
/// multiplier that keeps `d` times it within `i64`.
#[verifier::external_body]
fn max_multiplier(d: DecimalParts) -> (r: Option<i64>)
    requires
        d.wf(),
    ensures
        r == max_multiplier_of(d.mantissa, d.scale),
{
    match Decimal::from(i64::MAX).checked_div(Decimal::from_i128_with_scale(d.mantissa, d.scale)) {
        Some(q) => q.floor().to_i64(),
        None => None,
    }
}

/// Relies on `Decimal::checked_mul`, `Decimal::round` and `to_i64`: `d` times `m`,
/// rounded to an integer.
#[verifier::external_body]
fn scaled(d: DecimalParts, m: i64) -> (r: Option<i64>)
    requires
        d.wf(),
    ensures
        r == scaled_of(d.mantissa, d.scale, m),
{
    match Decimal::from_i128_with_scale(d.mantissa, d.scale).checked_mul(Decimal::from(m)) {
        Some(p) => p.round().to_i64(),
        None => None,
    }
}

/// Relies on `Decimal::checked_div`; a `Decimal` always has a 96-bit mantissa and a
/// scale of at most 28.
#[verifier::external_body]
fn quotient(value: i64, m: i64) -> (r: Option<DecimalParts>)
    requires
        m >= 1,
    ensures
        r == match quotient_of(value, m) {
            Some((mantissa, scale)) => Some(DecimalParts { mantissa, scale }),
            None => None,
        },
        r matches Some(d) ==> d.wf(),
{
    match Decimal::from(value).checked_div(Decimal::from(m)) {
        Some(q) => Some(DecimalParts { mantissa: q.mantissa(), scale: q.scale() }),
        None => None,
    }
}

/// The scale of `d` once trailing zero digits are dropped.
fn normalized_scale(d: DecimalParts) -> (r: u32)
    requires
        d.wf(),
    ensures
        r == normal_scale(magnitude(d), d.scale as nat),
{
    let mut a: i128 = if d.mantissa < 0 {
        -d.mantissa
    } else {
        d.mantissa
    };
    let mut s: u32 = d.scale;
    while s > 0 && a % 10 == 0
        invariant
            a >= 0,
            normal_scale(a as nat, s as nat) == normal_scale(magnitude(d), d.scale as nat),
        decreases s,
    {
        a = a / 10;
        s = s - 1;
    }
    s
}

/// A sequence of decimals, kept as integers scaled by a common multiplier. At most
/// eight fractional digits are kept; each change re-encodes the whole sequence.
pub struct DeltaVecDecimal {
    pub multiplier: i64,
    pub max_value: DecimalParts,
    pub delta_vec: DeltaVec,
}

impl DeltaVecDecimal {
    /// The container's invariant.
    pub open spec fn wf(&self) -> bool {
        self.multiplier >= 1 && self.max_value.wf()
    }

    /// The decimals held: each stored integer divided by the multiplier.
    pub open spec fn decimals(&self) -> Seq<DecimalParts> {
        values_of(self.delta_vec@).map_values(|v: i64| unscaled_value(v, self.multiplier))
    }

    /// An empty sequence.
    pub fn new() -> (r: Self)
        ensures
            r.wf(),
            r.multiplier == 1,
            r.max_value == (DecimalParts { mantissa: -0xFFFF_FFFF_FFFF_FFFF_FFFF_FFFFi128, scale: 0 }),
            values_of(r.delta_vec@) == Seq::<i64>::empty(),
    {
        DeltaVecDecimal {
            multiplier: 1,
            max_value: DecimalParts { mantissa: -0xFFFF_FFFF_FFFF_FFFF_FFFF_FFFF, scale: 0 },
            delta_vec: DeltaVec::new(),
        }
    }

    /// Appends `item`.
    pub fn push(&mut self, item: DecimalParts)
        requires
            old(self).wf(),
            item.wf(),
        ensures
            final(self).wf(),
            ({
                let all = old(self).decimals().push(item);
                &&& final(self).max_value == max_of(old(self).max_value, all, all.len())
                &&& final(self).multiplier == chosen_multiplier(
                    precision_of(all, all.len()),
                    final(self).max_value,
                )
                &&& all.len() + 64 <= usize::MAX ==> values_of(final(self).delta_vec@)
                    == all.map_values(|d: DecimalParts| scaled_value(d, final(self).multiplier))
            }),
    {
        let items = vec![item];
        assert(items@ =~= seq![item]);
        self.extend(items);
        assert(old(self).decimals() + seq![item] =~= old(self).decimals().push(item));
    }

    /// Appends `items`: the multiplier is chosen anew for all the values, and every
    /// value is stored as its integer at that multiplier.
    pub fn extend(&mut self, items: Vec<DecimalParts>)
        requires
            old(self).wf(),
            forall|i: int| 0 <= i < items@.len() ==> (#[trigger] items@[i]).wf(),
        ensures
            final(self).wf(),
            ({
                let all = old(self).decimals() + items@;
                &&& final(self).max_value == max_of(old(self).max_value, all, all.len())
                &&& final(self).multiplier == chosen_multiplier(
                    precision_of(all, all.len()),
                    final(self).max_value,
                )
                &&& all.len() + 64 <= usize::MAX ==> values_of(final(self).delta_vec@)
                    == all.map_values(|d: DecimalParts| scaled_value(d, final(self).multiplier))
            }),
    {
        let mut current = self.to_vec();
        let mut items = items;
        let ghost all = current@ + items@;
        current.append(&mut items);
        let ghost init = self.max_value;
        let mut max_value = self.max_value;
        let mut precision: u32 = 0;
        let mut i: usize = 0;
        while i < current.len()
            invariant
                current@ == all,
                forall|j: int| 0 <= j < all.len() ==> (#[trigger] all[j]).wf(),
                init.wf(),
                i <= all.len(),
                max_value == max_of(init, all, i as nat),
                max_value.wf(),
                precision == precision_of(all, i as nat),
                precision <= 28,
            decreases all.len() - i,
        {
            let d = current[i];
            if !decimal_lt(d, max_value) {
                max_value = d;
            }
            let q = normalized_scale(d);
            proof {
                let mut a = magnitude(d);
                lemma_normal_scale_at_most(a, d.scale as nat);
            }
            if q > precision {
                precision = q;
            }
            i = i + 1;
        }
        let clamped: u32 = if precision > 8 {
            8
        } else {
            precision
        };
        let mut base: i64 = 1;
        let mut k: u32 = 0;
        while k < clamped
            invariant
                clamped <= 8,
                k <= clamped,
                base == pow10(k as nat),
                1 <= base <= 100_000_000,
            decreases clamped - k,
        {
            proof {
                lemma_pow10_bound(k as nat);
            }
            base = base * 10;
            k = k + 1;
            proof {
                lemma_pow10_bound(k as nat);
            }
        }
        let mut multiplier = base;
        if decimal_lt(DecimalParts { mantissa: 1, scale: 0 }, max_value) {
            match max_multiplier(max_value) {
                Some(c) => {
                    if c < base {
                        multiplier = if c >= 1 {
                            c
                        } else {
                            1
                        };
                    }
                },
                None => {},
            }
        }
        let mut ints: Vec<i64> = Vec::new();
        let mut j: usize = 0;
        while j < current.len()
            invariant
                current@ == all,
                forall|t: int| 0 <= t < all.len() ==> (#[trigger] all[t]).wf(),
                j <= all.len(),
                ints@ =~= all.subrange(0, j as int).map_values(
                    |d: DecimalParts| scaled_value(d, multiplier),
                ),
            decreases all.len() - j,
        {
            let v = match scaled(current[j], multiplier) {
                Some(v) => v,
                None => 0,
            };
            ints.push(v);
            j = j + 1;
            assert(ints@ =~= all.subrange(0, j as int).map_values(
                |d: DecimalParts| scaled_value(d, multiplier),
            ));
        }
        assert(all.subrange(0, all.len() as int) =~= all);
        self.delta_vec.replace(ints);
        self.max_value = max_value;
        self.multiplier = multiplier;
    }

    /// The decimals held.
    pub fn to_vec(&self) -> (r: Vec<DecimalParts>)
        requires
            self.wf(),
        ensures
            r@ == self.decimals(),
            forall|i: int| 0 <= i < r@.len() ==> (#[trigger] r@[i]).wf(),
    {
        let ints = self.delta_vec.to_vec();
        let mut r: Vec<DecimalParts> = Vec::new();
        let mut i: usize = 0;
        while i < ints.len()
            invariant
                self.wf(),
                ints@ == values_of(self.delta_vec@),
                i <= ints@.len(),
                r@ =~= ints@.subrange(0, i as int).map_values(
                    |v: i64| unscaled_value(v, self.multiplier),
                ),
                forall|t: int| 0 <= t < r@.len() ==> (#[trigger] r@[t]).wf(),
            decreases ints@.len() - i,
        {
            let d = match quotient(ints[i], self.multiplier) {
                Some(d) => d,
                None => DecimalParts { mantissa: 0, scale: 0 },
            };
            r.push(d);
            i = i + 1;
            assert(r@ =~= ints@.subrange(0, i as int).map_values(
                |v: i64| unscaled_value(v, self.multiplier),
            ));
        }
        assert(ints@.subrange(0, ints@.len() as int) =~= ints@);
        r
    }
}

proof fn lemma_normal_scale_at_most(a: nat, s: nat)
    ensures
        normal_scale(a, s) <= s,
    decreases s,
{
    if s > 0 && a % 10 == 0 {
        lemma_normal_scale_at_most(a / 10, (s - 1) as nat);
    }
}

proof fn lemma_pow10_bound(k: nat)
    requires
        k <= 8,
    ensures
        1 <= pow10(k) <= 100_000_000,
        pow10(k) * 10 == pow10(k + 1),
{
    assert(pow10(0) == 1);
    assert(pow10(1) == 10);
    assert(pow10(2) == 100);
    assert(pow10(3) == 1000);
    assert(pow10(4) == 10000);
    assert(pow10(5) == 100000);
    assert(pow10(6) == 1000000);
    assert(pow10(7) == 10000000);
    assert(pow10(8) == 100000000);
    assert(pow10(9) == 1000000000);
    assert(k == 0 || k == 1 || k == 2 || k == 3 || k == 4 || k == 5 || k == 6 || k == 7 || k == 8);
}

} // verus!
