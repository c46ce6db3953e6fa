//! Little-endian fixed-width integers and UTF-8 text on byte buffers.
use vstd::prelude::*;
use crate::error::SxErrorCode;
use vstd::utf8::{decode_utf8, valid_utf8};

verus! {

/// The `n` little-endian bytes of `v` (the low `8n` bits).
pub open spec fn le_bytes(v: nat, n: nat) -> Seq<u8>
    decreases n,
{
    if n == 0 {
        Seq::empty()
    } else {
        seq![(v % 256) as u8] + le_bytes(v / 256, (n - 1) as nat)
    }
}

/// The number that little-endian bytes spell.
pub open spec fn le_value(s: Seq<u8>) -> nat
    decreases s.len(),
{
    if s.len() == 0 {
        0
    } else {
        s[0] as nat + 256 * le_value(s.drop_first())
    }
}

/// The end of an `n`-byte span at `pos`, or the error reading it gives:
/// `InvalidLength` when the end overflows `usize`, `UnexpectedEof` when it
/// passes the end of the input.
pub open spec fn span(len: int, pos: int, n: int) -> Result<int, SxErrorCode> {
    if pos + n > usize::MAX {
        Err(SxErrorCode::InvalidLength)
    } else if pos + n > len {
        Err(SxErrorCode::UnexpectedEof)
    } else {
        Ok(pos + n)
    }
}

/// Reading an `n`-byte little-endian number at `pos`.
pub open spec fn fixed_at(b: Seq<u8>, pos: int, n: int) -> Result<(nat, int), SxErrorCode> {
    match span(b.len() as int, pos, n) {
        Err(e) => Err(e),
        Ok(end) => Ok((le_value(b.subrange(pos, end)), end)),
    }
}

/// A window holding the little-endian bytes of `v` reads back as `v`.
pub proof fn lemma_fixed_at(b: Seq<u8>, pos: int, v: nat, n: nat)
    requires
        0 <= pos,
        pos + n <= b.len() <= usize::MAX,
        b.subrange(pos, pos + n) == le_bytes(v, n),
        v < pow256(n),
    ensures
        fixed_at(b, pos, n as int) == Ok::<(nat, int), SxErrorCode>((v, pos + n)),
{
    lemma_le_roundtrip(v, n);
}

pub open spec fn pow256(n: nat) -> nat
    decreases n,
{
    if n == 0 {
        1
    } else {
        256 * pow256((n - 1) as nat)
    }
}

pub proof fn lemma_le_bytes_len(v: nat, n: nat)
    ensures
        le_bytes(v, n).len() == n,
    decreases n,
{
    if n > 0 {
        lemma_le_bytes_len(v / 256, (n - 1) as nat);
    }
}

/// Only the low `8n` bits of a number reach its `n` little-endian bytes.
pub proof fn lemma_le_bytes_mod(v: nat, n: nat)
    ensures
        pow256(n) > 0,
        le_bytes(v, n) == le_bytes(v % pow256(n), n),
    decreases n,
{
    if n > 0 {
        lemma_le_bytes_mod(v / 256, (n - 1) as nat);
        let m = pow256((n - 1) as nat);
        vstd::arithmetic::div_mod::lemma_breakdown(v as int, 256, m as int);
        let w = v % pow256(n);
        assert(w == 256 * ((v / 256) % m) + v % 256);
        assert(w % 256 == v % 256);
        assert(w / 256 == (v / 256) % m);
    }
}

/// Little-endian bytes read back to the number, for numbers that fit.
pub proof fn lemma_le_roundtrip(v: nat, n: nat)
    requires
        v < pow256(n),
    ensures
        le_value(le_bytes(v, n)) == v,
        le_bytes(v, n).len() == n,
    decreases n,
{
    lemma_le_bytes_len(v, n);
    if n > 0 {
        lemma_le_roundtrip(v / 256, (n - 1) as nat);
        let s = le_bytes(v, n);
        assert(s.drop_first() =~= le_bytes(v / 256, (n - 1) as nat));
    }
}

pub proof fn lemma_le_value_bound(s: Seq<u8>)
    ensures
        le_value(s) < pow256(s.len()),
    decreases s.len(),
{
    if s.len() > 0 {
        lemma_le_value_bound(s.drop_first());
    }
}

pub proof fn lemma_pow256_values()
    ensures
        pow256(2) == 0x1_0000,
        pow256(4) == 0x1_0000_0000,
        pow256(8) == 0x1_0000_0000_0000_0000,
        pow256(16) == 0x1_0000_0000_0000_0000_0000_0000_0000_0000,
{
    reveal_with_fuel(pow256, 17);
}

/// Appends the `n` little-endian bytes of `v`.
pub fn push_le(out: &mut Vec<u8>, v: u64, n: usize)
    ensures
        final(out)@ == old(out)@ + le_bytes(v as nat, n as nat),
{
    let ghost start = out@;
    let mut x: u64 = v;
    let mut i: usize = 0;
    while i < n
        invariant
            i <= n,
            start + le_bytes(v as nat, n as nat) == out@ + le_bytes(x as nat, (n - i) as nat),
        decreases n - i,
    {
        let ghost before = out@;
        out.push((x % 256) as u8);
        proof {
            assert(le_bytes(x as nat, (n - i) as nat) == seq![(x % 256) as u8] + le_bytes((x / 256) as nat, (n - i - 1) as nat));
            assert(out@ + le_bytes((x / 256) as nat, (n - i - 1) as nat) =~= before + le_bytes(x as nat, (n - i) as nat));
        }
        x = x / 256;
        i += 1;
    }
    assert(le_bytes(x as nat, 0) =~= Seq::<u8>::empty());
    assert(out@ =~= start + le_bytes(v as nat, n as nat));
}

/// Appends the 16 little-endian bytes of `v`.
pub fn push_le128(out: &mut Vec<u8>, v: u128)
    ensures
        final(out)@ == old(out)@ + le_bytes(v as nat, 16),
{
    let ghost start = out@;
    let mut x: u128 = v;
    let mut i: usize = 0;
    while i < 16
        invariant
            i <= 16,
            start + le_bytes(v as nat, 16) == out@ + le_bytes(x as nat, (16 - i) as nat),
        decreases 16 - i,
    {
        let ghost before = out@;
        out.push((x % 256) as u8);
        proof {
            assert(le_bytes(x as nat, (16 - i) as nat) == seq![(x % 256) as u8] + le_bytes((x / 256) as nat, (16 - i - 1) as nat));
            assert(out@ + le_bytes((x / 256) as nat, (16 - i - 1) as nat) =~= before + le_bytes(x as nat, (16 - i) as nat));
        }
        x = x / 256;
        i += 1;
    }
    assert(le_bytes(x as nat, 0) =~= Seq::<u8>::empty());
    assert(out@ =~= start + le_bytes(v as nat, 16));
}

/// Reads `n <= 8` little-endian bytes at `pos`.
pub fn read_le(bytes: &[u8], pos: usize, n: usize) -> (r: u64)
    requires
        n <= 8,
        pos + n <= bytes@.len(),
    ensures
        r as nat == le_value(bytes@.subrange(pos as int, pos + n)),
{
    let mut acc: u64 = 0;
    let mut i: usize = n;
    let len = bytes.len();
    proof {
        lemma_pow256_values();
    }
    while i > 0
        invariant
            i <= n,
            n <= 8,
            len == bytes@.len(),
            pos + n <= bytes@.len(),
            acc as nat == le_value(bytes@.subrange(pos + i, pos + n)),
            acc < pow256((n - i) as nat),
            pow256(8) == 0x1_0000_0000_0000_0000,
        decreases i,
    {
        let b = bytes[pos + (i - 1)];
        proof {
            let s = bytes@.subrange(pos + i - 1, pos + n);
            assert(s.drop_first() =~= bytes@.subrange(pos + i, pos + n));
            assert(s[0] == b);
            lemma_pow256_mono((n - i + 1) as nat, 8);
            assert(pow256((n - i + 1) as nat) == 256 * pow256((n - i) as nat));
        }
        acc = acc * 256 + b as u64;
        i -= 1;
    }
    acc
}

/// Reads the 16 little-endian bytes at `pos`.
pub fn read_le128(bytes: &[u8], pos: usize) -> (r: u128)
    requires
        pos + 16 <= bytes@.len(),
    ensures
        r as nat == le_value(bytes@.subrange(pos as int, pos + 16)),
{
    let mut acc: u128 = 0;
    let mut i: usize = 16;
    let len = bytes.len();
    proof {
        lemma_pow256_values();
    }
    while i > 0
        invariant
            i <= 16,
            len == bytes@.len(),
            pos + 16 <= bytes@.len(),
            acc as nat == le_value(bytes@.subrange(pos + i, pos + 16)),
            acc < pow256((16 - i) as nat),
            pow256(16) == 0x1_0000_0000_0000_0000_0000_0000_0000_0000,
        decreases i,
    {
        let b = bytes[pos + (i - 1)];
        proof {
            let s = bytes@.subrange(pos + i - 1, pos + 16);
            assert(s.drop_first() =~= bytes@.subrange(pos + i, pos + 16));
            assert(s[0] == b);
            lemma_pow256_mono((16 - i + 1) as nat, 16);
            assert(pow256((16 - i + 1) as nat) == 256 * pow256((16 - i) as nat));
        }
        acc = acc * 256 + b as u128;
        i -= 1;
    }
    acc
}

pub proof fn lemma_pow256_mono(a: nat, b: nat)
    requires
        a <= b,
    ensures
        pow256(a) <= pow256(b),
    decreases b,
{
    if a < b {
        lemma_pow256_mono(a, (b - 1) as nat);
    }
}

/// `String::from_utf8`: the string the bytes spell when they are UTF-8.
#[verifier::external_body]
pub(crate) fn string_from_utf8(v: Vec<u8>) -> (r: Option<String>)
    ensures
        r is Some <==> valid_utf8(v@),
        r matches Some(s) ==> s@ == decode_utf8(v@),
{
    String::from_utf8(v).ok()
}

/// Copies `bytes[start..end]` into a new vector.
pub fn copy_range(bytes: &[u8], start: usize, end: usize) -> (r: Vec<u8>)
    requires
        start <= end <= bytes@.len(),
    ensures
        r@ == bytes@.subrange(start as int, end as int),
{
    let mut out: Vec<u8> = Vec::new();
    let mut i: usize = start;
    while i < end
        invariant
            start <= i <= end,
            end <= bytes@.len(),
            out@ == bytes@.subrange(start as int, i as int),
        decreases end - i,
    {
        out.push(bytes[i]);
        assert(bytes@.subrange(start as int, i + 1) =~= bytes@.subrange(start as int, i as int).push(bytes@[i as int]));
        i += 1;
    }
    out
}

/// Appends all of `src` to `out`.
pub fn append_bytes(out: &mut Vec<u8>, src: &[u8])
    ensures
        final(out)@ == old(out)@ + src@,
{
    let ghost start = out@;
    let mut i: usize = 0;
    while i < src.len()
        invariant
            i <= src.len(),
            out@ == start + src@.subrange(0, i as int),
        decreases src.len() - i,
    {
        out.push(src[i]);
        assert(src@.subrange(0, i + 1) =~= src@.subrange(0, i as int).push(src@[i as int]));
        i += 1;
    }
    assert(src@.subrange(0, i as int) =~= src@);
}

} // verus!
