use vstd::prelude::*;

verus! {

/// The VLQ bytes of `v`: seven bits per byte, low groups first, with the high bit set
/// on every byte but the last.
pub open spec fn vlq_bytes(v: nat) -> Seq<u8>
    decreases v,
{
    if v < 128 {
        seq![v as u8]
    } else {
        seq![(v % 128 + 128) as u8] + vlq_bytes(v / 128)
    }
}

/// The value and the length of the VLQ that starts `s`: it ends at the first byte
/// whose high bit is clear, and there is none when no such byte exists.
pub open spec fn vlq_prefix(s: Seq<u8>) -> Option<(nat, nat)>
    decreases s.len(),
{
    if s.len() == 0 {
        None
    } else if s[0] < 128 {
        Some((s[0] as nat, 1))
    } else {
        match vlq_prefix(s.drop_first()) {
            Some((v, n)) => Some((((s[0] - 128) + 128 * v) as nat, n + 1)),
            None => None,
        }
    }
}

/// What reading a `u64` VLQ at `pos` of `s` gives: its value and the position after it,
/// or nothing when the input ends before the VLQ does or the value exceeds `u64::MAX`.
pub open spec fn vlq_read(s: Seq<u8>, pos: int) -> Option<(u64, int)> {
    match vlq_prefix(s.subrange(pos, s.len() as int)) {
        Some((v, n)) => if v <= u64::MAX {
            Some((v as u64, pos + n))
        } else {
            None
        },
        None => None,
    }
}

/// The value of the low seven bits of the first `k` bytes of `s`, low groups first.
pub open spec fn low_groups(s: Seq<u8>, k: nat) -> int
    decreases k,
{
    if k == 0 {
        0
    } else {
        low_groups(s, (k - 1) as nat) + (s[k - 1] % 128) * pow128((k - 1) as nat)
    }
}

/// `128` to the power `k`.
pub open spec fn pow128(k: nat) -> nat
    decreases k,
{
    if k == 0 {
        1
    } else {
        128 * pow128((k - 1) as nat)
    }
}

proof fn lemma_pow128_increases(a: nat, b: nat)
    requires
        a <= b,
    ensures
        1 <= pow128(a) <= pow128(b),
    decreases b,
{
    if b > a {
        lemma_pow128_increases(a, (b - 1) as nat);
    } else if a > 0 {
        lemma_pow128_increases((a - 1) as nat, (a - 1) as nat);
    }
}

proof fn lemma_pow128_ten()
    ensures
        pow128(10) == 0x40_0000_0000_0000_0000,
{
    assert(pow128(0) == 1);
    assert(pow128(1) == 0x80);
    assert(pow128(2) == 0x4000);
    assert(pow128(3) == 0x20_0000);
    assert(pow128(4) == 0x1000_0000);
    assert(pow128(5) == 0x8_0000_0000);
    assert(pow128(6) == 0x400_0000_0000);
    assert(pow128(7) == 0x2_0000_0000_0000);
    assert(pow128(8) == 0x100_0000_0000_0000);
    assert(pow128(9) == 0x8000_0000_0000_0000);
}

/// A VLQ followed by anything reads back as the value it was written from.
pub proof fn lemma_vlq_prefix_of_bytes(v: nat, rest: Seq<u8>)
    ensures
        vlq_prefix(vlq_bytes(v) + rest) == Some((v, vlq_bytes(v).len())),
    decreases v,
{
    let s = vlq_bytes(v) + rest;
    if v < 128 {
    } else {
        lemma_vlq_prefix_of_bytes(v / 128, rest);
        assert(s.drop_first() =~= vlq_bytes(v / 128) + rest);
    }
}

/// After `k` continuation bytes, the VLQ that starts `s` is the one that starts its rest,
/// shifted by `7 * k` bits, plus the low groups read so far.
proof fn lemma_vlq_prefix_split(s: Seq<u8>, k: nat)
    requires
        k <= s.len(),
        forall|t: int| 0 <= t < k ==> s[t] >= 128,
    ensures
        vlq_prefix(s) == match vlq_prefix(s.subrange(k as int, s.len() as int)) {
            Some((v, n)) => Some(((low_groups(s, k) + pow128(k) * v) as nat, n + k)),
            None => None,
        },
    decreases k,
{
    if k == 0 {
        assert(s.subrange(0, s.len() as int) =~= s);
    } else {
        let j = (k - 1) as nat;
        lemma_vlq_prefix_split(s, j);
        let tail = s.subrange(j as int, s.len() as int);
        assert(tail.drop_first() =~= s.subrange(k as int, s.len() as int));
        lemma_pow128_increases(0, j);
        assert(s[j as int] - 128 == s[j as int] % 128);
        match vlq_prefix(s.subrange(k as int, s.len() as int)) {
            Some((v, n)) => {
                assert(low_groups(s, j) + pow128(j) * ((s[j as int] - 128) + 128 * v) == low_groups(
                    s,
                    k,
                ) + pow128(k) * v) by (nonlinear_arith)
                    requires
                        pow128(k) == 128 * pow128(j),
                        low_groups(s, k) == low_groups(s, j) + (s[j as int] - 128) * pow128(j),
                ;
            },
            None => {},
        }
    }
}

/// Appends the VLQ bytes of `value` to `out`.
pub fn write_vlq(out: &mut Vec<u8>, value: u64)
    ensures
        final(out)@ == old(out)@ + vlq_bytes(value as nat),
{
    let ghost start = out@;
    let mut n = value;
    while n >= 128
        invariant
            out@ + vlq_bytes(n as nat) == start + vlq_bytes(value as nat),
        decreases n,
    {
        let ghost before = out@;
        out.push((n % 128 + 128) as u8);
        assert(out@ + vlq_bytes((n / 128) as nat) =~= before + vlq_bytes(n as nat));
        n = n / 128;
    }
    let ghost before = out@;
    out.push(n as u8);
    assert(out@ =~= before + vlq_bytes(n as nat));
}

/// Reads the `u64` VLQ at `pos` of `bytes`: its value and the position after it, or
/// `None` when the bytes end before the VLQ does or its value exceeds `u64::MAX`.
pub fn read_vlq(bytes: &[u8], pos: usize) -> (r: Option<(u64, usize)>)
    requires
        pos <= bytes@.len(),
    ensures
        match r {
            Some((v, p)) => vlq_read(bytes@, pos as int) == Some((v, p as int)),
            None => vlq_read(bytes@, pos as int) is None,
        },
        r matches Some((v, p)) ==> pos < p <= bytes@.len(),
{
    let len = bytes.len();
    let ghost s = bytes@.subrange(pos as int, len as int);
    let mut acc: u64 = 0;
    let mut scale: u128 = 1;
    let mut k: usize = 0;
    proof {
        lemma_vlq_prefix_split(s, 0);
    }
    loop
        invariant
            len == bytes@.len(),
            s == bytes@.subrange(pos as int, len as int),
            pos + k <= len,
            forall|t: int| 0 <= t < k ==> s[t] >= 128,
            acc == low_groups(s, k as nat),
            k <= 10 ==> scale == pow128(k as nat),
            k > 10 ==> scale == pow128(10),
            vlq_prefix(s) == match vlq_prefix(s.subrange(k as int, s.len() as int)) {
                Some((v, n)) => Some(
                    ((low_groups(s, k as nat) + pow128(k as nat) * v) as nat, (n + k) as nat),
                ),
                None => None,
            },
        decreases len - pos - k,
    {
        proof {
            if k >= 10 {
                lemma_pow128_increases(10, k as nat);
            } else {
                lemma_pow128_increases(k as nat, 10);
            }
        }
        proof {
            lemma_pow128_ten();
        }
        let ghost rest = s.subrange(k as int, s.len() as int);
        if pos + k >= len {
            assert(rest.len() == 0);
            return None;
        }
        let b = bytes[pos + k];
        assert(rest[0] == b);
        let low: u128 = if b >= 128 {
            (b - 128) as u128
        } else {
            b as u128
        };
        assert(low * scale <= 127 * pow128(10)) by (nonlinear_arith)
            requires
                low <= 127,
                scale <= pow128(10),
        ;
        let t: u128 = acc as u128 + low * scale;
        assert(low_groups(s, (k + 1) as nat) == acc + low * pow128(k as nat));
        assert(low * scale <= low * pow128(k as nat)) by (nonlinear_arith)
            requires
                scale <= pow128(k as nat),
                0 <= low,
        ;
        assert(low != 0 && k > 10 ==> low * scale >= scale) by (nonlinear_arith);
        assert(low * pow128(k as nat) == pow128(k as nat) * low) by (nonlinear_arith);
        if t > u64::MAX as u128 {
            proof {
                if b >= 128 {
                    assert(rest.drop_first() =~= s.subrange(k + 1, s.len() as int));
                    match vlq_prefix(rest.drop_first()) {
                        Some((v, n)) => {
                            assert(pow128(k as nat) * ((b - 128) + 128 * v) >= pow128(k as nat)
                                * (b - 128)) by (nonlinear_arith)
                                requires
                                    pow128(k as nat) > 0,
                                    b >= 128,
                                    v >= 0,
                            ;
                        },
                        None => {},
                    }
                } else {
                    assert(vlq_prefix(rest) == Some((b as nat, 1nat)));
                }
                assert(s =~= bytes@.subrange(pos as int, bytes@.len() as int));
            }
            return None;
        }
        assert(low * scale == low * pow128(k as nat)) by {
            if k > 10 {
                assert(low == 0);
                assert(low * scale == low * pow128(k as nat)) by (nonlinear_arith)
                    requires
                        low == 0,
                ;
            } else {
                assert(scale == pow128(k as nat));
            }
        }
        acc = t as u64;
        if b < 128 {
            assert(vlq_prefix(rest) == Some((b as nat, 1nat)));
            assert(s =~= bytes@.subrange(pos as int, bytes@.len() as int));
            return Some((acc, pos + k + 1));
        }
        if k < 10 {
            scale = scale * 128;
        }
        assert(rest.drop_first() =~= s.subrange(k + 1, s.len() as int));
        proof {
            lemma_vlq_prefix_split(s, (k + 1) as nat);
        }
        k = k + 1;
    }
}

} // verus!
