//! Unsigned LEB128-style varints and ZigZag signed integers.
use crate::error::{SxError, SxErrorCode, SxResult};
use vstd::prelude::*;

verus! {

/// The varint encoding of `v`: seven bits per byte, least significant group
/// first, high bit set on every byte but the last.
pub open spec fn varint_bytes(v: nat) -> Seq<u8>
    decreases v,
{
    if v < 128 {
        seq![v as u8]
    } else {
        seq![((v % 128) + 128) as u8] + varint_bytes(v / 128)
    }
}

pub open spec fn pow128(k: nat) -> nat
    decreases k,
{
    if k == 0 {
        1
    } else {
        128 * pow128((k - 1) as nat)
    }
}

/// The number the payload bits of `s` spell, least significant group first.
pub open spec fn varint_value(s: Seq<u8>) -> nat
    decreases s.len(),
{
    if s.len() == 0 {
        0
    } else {
        varint_value(s.drop_last()) + (s.last() % 128) as nat * pow128((s.len() - 1) as nat)
    }
}

/// Outcome of reading a varint.
pub enum VarintScan {
    /// A varint of this many bytes.
    Len(nat),
    /// The bytes end before the last byte of the varint.
    Eof,
    /// More than ten bytes.
    TooLarge,
}

/// Scans the varint that starts at `pos + k`, given that the `k` bytes from
/// `pos` all had their high bit set.
pub open spec fn varint_scan_from(bytes: Seq<u8>, pos: int, k: nat) -> VarintScan
    decreases 10 - k,
{
    if pos < 0 || pos + k >= bytes.len() {
        VarintScan::Eof
    } else if bytes[pos + k] < 128 {
        VarintScan::Len(k + 1)
    } else if k + 1 >= 10 {
        VarintScan::TooLarge
    } else {
        varint_scan_from(bytes, pos, k + 1)
    }
}

/// Scans the varint at `pos`.
pub open spec fn varint_scan(bytes: Seq<u8>, pos: int) -> VarintScan {
    varint_scan_from(bytes, pos, 0)
}

/// What reading a varint at `pos` yields: the value and the position after it,
/// or the error code.
pub open spec fn spec_read_varint(bytes: Seq<u8>, pos: int) -> Result<(u64, int), SxErrorCode> {
    match varint_scan(bytes, pos) {
        VarintScan::Len(n) => Ok(
            ((varint_value(bytes.subrange(pos, pos + n)) % 0x1_0000_0000_0000_0000) as u64, pos + n),
        ),
        VarintScan::Eof => Err(SxErrorCode::UnexpectedEof),
        VarintScan::TooLarge => Err(SxErrorCode::InvalidNumber),
    }
}

/// Encodes an unsigned integer as a varint, appending to `out`.
pub fn encode_varint(value: u64, out: &mut Vec<u8>)
    ensures
        final(out)@ == old(out)@ + varint_bytes(value as nat),
{
    let ghost start = out@;
    let mut v: u64 = value;
    while v >= 128
        invariant
            start + varint_bytes(value as nat) == out@ + varint_bytes(v as nat),
        decreases v,
    {
        let ghost before = out@;
        out.push(((v % 128) as u8) + 128);
        proof {
            assert(varint_bytes(v as nat) == seq![((v % 128) + 128) as u8] + varint_bytes((v / 128) as nat));
            assert(out@ + varint_bytes((v / 128) as nat) =~= before + varint_bytes(v as nat));
        }
        v = v / 128;
    }
    out.push(v as u8);
    proof {
        assert(varint_bytes(v as nat) == seq![v as u8]);
        assert(out@ =~= start + varint_bytes(value as nat));
    }
}

proof fn lemma_scan_step(bytes: Seq<u8>, pos: int, k: nat)
    requires
        0 <= pos,
        pos + k < bytes.len(),
        bytes[pos + k] >= 128,
        k + 1 < 10,
    ensures
        varint_scan_from(bytes, pos, k) == varint_scan_from(bytes, pos, k + 1),
{
}

proof fn lemma_value_push(s: Seq<u8>, b: u8)
    ensures
        varint_value(s.push(b)) == varint_value(s) + (b % 128) as nat * pow128(s.len()),
{
    assert(s.push(b).drop_last() =~= s);
}

/// Decodes a varint at `*cursor`, advancing the cursor past it.
pub fn decode_varint(bytes: &[u8], cursor: &mut usize) -> (r: SxResult<u64>)
    ensures
        match spec_read_varint(bytes@, *old(cursor) as int) {
            Ok((v, next)) => r matches Ok(x) && x == v && *final(cursor) as int == next,
            Err(code) => r matches Err(e) && e.code == code,
        },
        r is Ok ==> *old(cursor) < *final(cursor) <= bytes@.len(),
{
    proof {
        lemma_read_varint_bounds(bytes@, *old(cursor) as int);
    }
    let start = *cursor;
    if start >= bytes.len() {
        return Err(SxError::msg(SxErrorCode::UnexpectedEof, "varint eof"));
    }
    let mut acc: u128 = 0;
    let mut mult: u128 = 1;
    let mut k: usize = 0;
    loop
        invariant
            *cursor == start + k,
            start == *old(cursor),
            k < 10,
            mult == pow128(k as nat),
            mult <= 0x8000_0000_0000_0000,
            start < bytes@.len(),
            acc as nat == varint_value(bytes@.subrange(start as int, start + k)),
            acc < mult * 128,
            start + k <= bytes@.len(),
            varint_scan(bytes@, start as int) == varint_scan_from(bytes@, start as int, k as nat),
        decreases 10 - k,
    {
        if *cursor >= bytes.len() {
            return Err(SxError::msg(SxErrorCode::UnexpectedEof, "varint eof"));
        }
        let b = bytes[*cursor];
        *cursor = *cursor + 1;
        proof {
            lemma_value_push(bytes@.subrange(start as int, start + k), b);
            assert(bytes@.subrange(start as int, start + k).push(b) =~= bytes@.subrange(start as int, start + k + 1));
            assert((b % 128) as nat * pow128(k as nat) <= 127 * pow128(k as nat)) by (nonlinear_arith);
            assert(((b % 128) as u128) * mult <= 127 * mult) by (nonlinear_arith)
                requires (b % 128) as u128 <= 127;
        }
        acc = acc + ((b % 128) as u128) * mult;
        if b < 128 {
            proof {
                assert(acc < 0x1_0000_0000_0000_0000_0000_0000_0000_0000);
            }
            return Ok((acc % 0x1_0000_0000_0000_0000) as u64);
        }
        if k + 1 >= 10 {
            return Err(SxError::msg(SxErrorCode::InvalidNumber, "varint too large"));
        }
        proof {
            lemma_scan_step(bytes@, start as int, k as nat);
            lemma_pow128_bound((k + 1) as nat);
        }
        mult = mult * 128;
        k = k + 1;
    }
}

proof fn lemma_scan_from_bounds(bytes: Seq<u8>, pos: int, k: nat)
    ensures
        varint_scan_from(bytes, pos, k) matches VarintScan::Len(n) ==> k < n && pos + n <= bytes.len(),
    decreases 10 - k,
{
    if !(pos < 0 || pos + k >= bytes.len()) && bytes[pos + k] >= 128 && k + 1 < 10 {
        lemma_scan_from_bounds(bytes, pos, k + 1);
    }
}

/// A varint that reads spans at least one byte and stays inside the input.
pub proof fn lemma_read_varint_bounds(bytes: Seq<u8>, pos: int)
    ensures
        spec_read_varint(bytes, pos) matches Ok((v, next)) ==> pos < next <= bytes.len(),
{
    lemma_scan_from_bounds(bytes, pos, 0);
}

proof fn lemma_pow128_bound(k: nat)
    requires
        k < 10,
    ensures
        pow128(k) <= 0x8000_0000_0000_0000,
{
    reveal_with_fuel(pow128, 10);
    assert(pow128(9) == 0x8000_0000_0000_0000);
    lemma_pow128_mono(k, 9);
}

proof fn lemma_pow128_mono(a: nat, b: nat)
    requires
        a <= b,
    ensures
        pow128(a) <= pow128(b),
    decreases b,
{
    if a < b {
        lemma_pow128_mono(a, (b - 1) as nat);
    }
}

/// ZigZag encoding of a signed integer as a natural number.
pub open spec fn spec_zigzag(v: i64) -> nat {
    if v >= 0 {
        (2 * v) as nat
    } else {
        (-2 * v - 1) as nat
    }
}

/// ZigZag decoding.
pub open spec fn spec_unzigzag(u: u64) -> int {
    if u % 2 == 0 {
        (u / 2) as int
    } else {
        -((u / 2) as int) - 1
    }
}

/// ZigZag encodes a signed integer: 0, -1, 1, -2, ... map to 0, 1, 2, 3, ...
pub fn zigzag_encode(v: i64) -> (r: u64)
    ensures
        r as nat == spec_zigzag(v),
{
    if v >= 0 {
        (v as u64) * 2
    } else {
        ((-(v as i128)) * 2 - 1) as u64
    }
}

/// ZigZag decodes an unsigned integer.
pub fn zigzag_decode(v: u64) -> (r: i64)
    ensures
        r as int == spec_unzigzag(v),
{
    if v % 2 == 0 {
        (v / 2) as i64
    } else {
        -((v / 2) as i64) - 1
    }
}

// ---------------------------------------------------------------------------
// Laws
// ---------------------------------------------------------------------------

pub proof fn lemma_value_prepend(b: u8, t: Seq<u8>)
    ensures
        varint_value(seq![b] + t) == (b % 128) as nat + 128 * varint_value(t),
    decreases t.len(),
{
    if t.len() == 0 {
        assert((seq![b] + t).drop_last() =~= Seq::<u8>::empty());
        assert(seq![b] + t =~= seq![b]);
        assert(pow128(0) == 1);
        assert(varint_value(seq![b]) == varint_value(Seq::<u8>::empty()) + (b % 128) as nat * pow128(0));
        assert(varint_value(Seq::<u8>::empty()) == 0);
        assert(varint_value(t) == 0);
        assert(varint_value(seq![b]) == (b % 128) as nat);
    } else if t.len() > 0 {
        let t2 = t.drop_last();
        let x = t.last();
        lemma_value_prepend(b, t2);
        assert((seq![b] + t).drop_last() =~= seq![b] + t2);
        assert((seq![b] + t).last() == x);
        assert((seq![b] + t).len() - 1 == t2.len() + 1);
        assert(varint_value(seq![b] + t) == varint_value(seq![b] + t2) + (x % 128) as nat * pow128((t2.len() + 1) as nat));
        assert(varint_value(t) == varint_value(t2) + (x % 128) as nat * pow128(t2.len()));
        let p = pow128(t2.len());
        assert(pow128((t2.len() + 1) as nat) == 128 * p);
        let c = (x % 128) as nat;
        assert(c * (128 * p) == 128 * (c * p)) by (nonlinear_arith);
        assert(varint_value(seq![b] + t) == (b % 128) as nat + 128 * varint_value(t2) + 128 * (c * p));
        assert(128 * varint_value(t) == 128 * varint_value(t2) + 128 * (c * p));
    } else {
        assert(varint_value(seq![b]) == varint_value(Seq::<u8>::empty()) + (b % 128) as nat * pow128(0));
    }
}

pub proof fn lemma_varint_bytes_shape(v: nat)
    ensures
        varint_bytes(v).len() >= 1,
        varint_value(varint_bytes(v)) == v,
        varint_bytes(v).last() < 128,
        forall|i: int| 0 <= i < varint_bytes(v).len() - 1 ==> varint_bytes(v)[i] >= 128,
    decreases v,
{
    if v < 128 {
        assert(varint_value(seq![v as u8]) == varint_value(Seq::<u8>::empty()) + ((v as u8) % 128) as nat * pow128(0)) by {
            assert(seq![v as u8].drop_last() =~= Seq::<u8>::empty());
        }
        assert(pow128(0) == 1);
        assert(varint_value(Seq::<u8>::empty()) == 0);
        assert((v as u8) as nat == v);
        assert(((v as u8) % 128) as nat == v);
        assert(((v as u8) % 128) as nat * 1 == v);
        assert(varint_value(seq![v as u8]) == v);
    } else {
        let b = ((v % 128) + 128) as u8;
        let t = varint_bytes(v / 128);
        lemma_varint_bytes_shape(v / 128);
        lemma_value_prepend(b, t);
        let s = varint_bytes(v);
        assert(s == seq![b] + t);
        assert forall|i: int| 0 <= i < s.len() - 1 implies s[i] >= 128 by {
            if i > 0 {
                assert(s[i] == t[i - 1]);
            }
        }
    }
}

/// A number below `128^k` has a varint of at most `k` bytes.
pub proof fn lemma_varint_len_bound(v: nat, k: nat)
    requires
        1 <= k,
        v < pow128(k),
    ensures
        varint_bytes(v).len() <= k,
    decreases v,
{
    if v >= 128 {
        if k == 1 {
            assert(pow128(1) == 128 * pow128(0));
        } else {
            assert(pow128(k) == 128 * pow128((k - 1) as nat));
            lemma_varint_len_bound(v / 128, (k - 1) as nat);
        }
    }
}

/// The scan of a well-formed varint finds exactly its bytes.
proof fn lemma_scan_varint(s: Seq<u8>, rest: Seq<u8>, k: nat)
    requires
        1 <= s.len() <= 10,
        k < s.len(),
        s.last() < 128,
        forall|i: int| 0 <= i < s.len() - 1 ==> s[i] >= 128,
    ensures
        varint_scan_from(s + rest, 0, k) == VarintScan::Len(s.len()),
    decreases s.len() - k,
{
    let b = s + rest;
    assert(b[k as int] == s[k as int]);
    if k + 1 < s.len() {
        lemma_scan_varint(s, rest, k + 1);
    }
}

/// Law: reading back an encoded varint yields the number and consumes
/// exactly its bytes, whatever follows.
pub proof fn law_varint_roundtrip(v: u64, rest: Seq<u8>)
    ensures
        spec_read_varint(varint_bytes(v as nat) + rest, 0) == Ok::<(u64, int), SxErrorCode>(
            (v, varint_bytes(v as nat).len() as int),
        ),
{
    let s = varint_bytes(v as nat);
    lemma_varint_bytes_shape(v as nat);
    reveal_with_fuel(pow128, 11);
    assert(pow128(10) == 0x4_0000_0000_0000_0000_0u128);
    lemma_varint_len_bound(v as nat, 10);
    lemma_scan_varint(s, rest, 0);
    assert((s + rest).subrange(0, s.len() as int) =~= s);
}

/// Law: ZigZag decoding undoes ZigZag encoding.
pub proof fn law_zigzag_roundtrip(v: i64)
    ensures
        spec_zigzag(v) < 0x1_0000_0000_0000_0000,
        spec_unzigzag(spec_zigzag(v) as u64) == v,
{
}

/// Law: ZigZag encoding undoes ZigZag decoding.
pub proof fn law_unzigzag_roundtrip(u: u64)
    ensures
        i64::MIN <= spec_unzigzag(u) <= i64::MAX,
        spec_zigzag(spec_unzigzag(u) as i64) == u,
{
}

/// The scan of a well-formed varint lying at `pos` finds exactly its bytes.
proof fn lemma_scan_window(b: Seq<u8>, pos: int, s: Seq<u8>, k: nat)
    requires
        0 <= pos,
        pos + s.len() <= b.len(),
        b.subrange(pos, pos + s.len()) == s,
        1 <= s.len() <= 10,
        k < s.len(),
        s.last() < 128,
        forall|i: int| 0 <= i < s.len() - 1 ==> s[i] >= 128,
    ensures
        varint_scan_from(b, pos, k) == VarintScan::Len(s.len()),
    decreases s.len() - k,
{
    assert(b[pos + k] == b.subrange(pos, pos + s.len())[k as int]);
    if k + 1 < s.len() {
        lemma_scan_window(b, pos, s, k + 1);
    }
}

/// Reading the varint of `v` where its bytes lie gives `v` back and the
/// position just past them.
pub proof fn lemma_varint_window(b: Seq<u8>, pos: int, v: u64)
    requires
        0 <= pos,
        pos + varint_bytes(v as nat).len() <= b.len(),
        b.subrange(pos, pos + varint_bytes(v as nat).len()) == varint_bytes(v as nat),
    ensures
        spec_read_varint(b, pos) == Ok::<(u64, int), SxErrorCode>((v, pos + varint_bytes(v as nat).len())),
{
    let s = varint_bytes(v as nat);
    lemma_varint_bytes_shape(v as nat);
    reveal_with_fuel(pow128, 11);
    assert(pow128(10) == 0x4_0000_0000_0000_0000_0u128);
    lemma_varint_len_bound(v as nat, 10);
    lemma_scan_window(b, pos, s, 0);
}

} // verus!
