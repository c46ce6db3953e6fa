//! Pieces of the canonical text that logical hashing is computed over.
use crate::chars::string_push;
use vstd::prelude::*;

verus! {

/// A decimal with trailing zero digits dropped from its scale: while the
/// scale is positive and the scaled value a multiple of ten, divide by ten.
pub open spec fn spec_normalize_decimal(scaled: int, scale: nat) -> (int, nat)
    decreases scale,
{
    if scale > 0 && scaled % 10 == 0 {
        spec_normalize_decimal(scaled / 10, (scale - 1) as nat)
    } else {
        (scaled, scale)
    }
}

fn divisible_by_ten(m: i128) -> (r: bool)
    ensures
        r == ((m as int) % 10 == 0),
{
    if m >= 0 {
        m % 10 == 0
    } else {
        let a: i128 = 0 - (m + 1);
        proof {
            assert((a as int) % 10 == 9 <==> (m as int) % 10 == 0) by (nonlinear_arith)
                requires
                    a as int == -(m as int) - 1,
                    m < 0,
            {
                let t = (a as int) / 10;
                let u = (a as int) % 10;
                assert(a as int == 10 * t + u);
                assert(m as int == -10 * t - u - 1);
            }
        }
        a % 10 == 9
    }
}

fn tenth(m: i128) -> (q: i128)
    requires
        (m as int) % 10 == 0,
    ensures
        q as int == (m as int) / 10,
{
    if m >= 0 {
        m / 10
    } else {
        let a: i128 = 0 - (m + 1);
        let t: i128 = a / 10;
        proof {
            assert(0 - t - 1 == (m as int) / 10) by (nonlinear_arith)
                requires
                    a as int == -(m as int) - 1,
                    t as int == (a as int) / 10,
                    (m as int) % 10 == 0,
                    m < 0,
            ;
        }
        0 - t - 1
    }
}

/// Normalizes a scaled decimal: equal amounts give equal results.
pub fn normalize_decimal(scaled: i128, scale: u32) -> (r: (i128, u32))
    ensures
        (r.0 as int, r.1 as nat) == spec_normalize_decimal(scaled as int, scale as nat),
{
    let mut m: i128 = scaled;
    let mut k: u32 = scale;
    loop
        invariant
            spec_normalize_decimal(m as int, k as nat) == spec_normalize_decimal(scaled as int, scale as nat),
        decreases k,
    {
        if k == 0 || !divisible_by_ten(m) {
            return (m, k);
        }
        m = tenth(m);
        k = k - 1;
    }
}

/// The escaped form of text in canonical output: `\`, `:` and `,` each get a
/// backslash before them.
pub open spec fn escaped(s: Seq<char>) -> Seq<char>
    decreases s.len(),
{
    if s.len() == 0 {
        Seq::empty()
    } else {
        let c = s.last();
        escaped(s.drop_last()) + (if c == '\\' || c == ':' || c == ',' {
            seq!['\\', c]
        } else {
            seq![c]
        })
    }
}

/// Escapes text for canonical output.
pub fn escape(s: &str) -> (r: String)
    ensures
        r@ == escaped(s@),
{
    let n = s.unicode_len();
    let mut out = String::new();
    let mut i: usize = 0;
    while i < n
        invariant
            i <= n,
            n == s@.len(),
            out@ == escaped(s@.subrange(0, i as int)),
        decreases n - i,
    {
        let c = s.get_char(i);
        proof {
            assert(s@.subrange(0, i + 1).drop_last() =~= s@.subrange(0, i as int));
        }
        if c == '\\' || c == ':' || c == ',' {
            string_push(&mut out, '\\');
        }
        string_push(&mut out, c);
        proof {
            let p = escaped(s@.subrange(0, i as int));
            if c == '\\' || c == ':' || c == ',' {
                assert(out@ =~= p + seq!['\\', c]);
            } else {
                assert(out@ =~= p + seq![c]);
            }
        }
        i += 1;
    }
    assert(s@.subrange(0, n as int) =~= s@);
    out
}

} // verus!
