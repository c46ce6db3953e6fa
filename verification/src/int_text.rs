//! Decimal integer texts as the integer types' `from_str` reads them: an
//! optional sign, then digits read left to right; the first character that
//! is not a digit, or the first prefix whose value leaves the type's range,
//! decides the error.
use crate::chars::{all_digits, digit_value, digits_value, is_digit};
use crate::parser::str_chars;
use vstd::prelude::*;

verus! {

/// True when the text starts with a sign the type strips: `+`, or `-` for a
/// signed type.
pub open spec fn has_sign(s: Seq<char>, signed: bool) -> bool {
    s.len() > 0 && (s[0] == '+' || (signed && s[0] == '-'))
}

/// True when the value read is negative.
pub open spec fn is_neg(s: Seq<char>, signed: bool) -> bool {
    signed && s.len() > 0 && s[0] == '-'
}

/// The digits part of the text.
pub open spec fn digits_part(s: Seq<char>, signed: bool) -> Seq<char> {
    if has_sign(s, signed) {
        s.drop_first()
    } else {
        s
    }
}

pub open spec fn invalid_digit_text() -> Seq<char> {
    "invalid digit found in string"@
}

/// The digits from position `i` on, after the first `i` were read within
/// `bound` (the largest magnitude allowed): the value's magnitude, or the
/// error's message.
pub open spec fn scan_digits(d: Seq<char>, neg: bool, bound: int, i: int) -> Result<int, Seq<char>>
    decreases d.len() - i,
{
    if i < 0 || i >= d.len() {
        Ok(digits_value(d) as int)
    } else if !is_digit(d[i]) {
        Err(invalid_digit_text())
    } else if digits_value(d.subrange(0, i + 1)) > bound {
        Err(
            if neg {
                "number too small to fit in target type"@
            } else {
                "number too large to fit in target type"@
            },
        )
    } else {
        scan_digits(d, neg, bound, i + 1)
    }
}

/// What `from_str` of an integer type with range `lo ..= hi` gives for a
/// text: the value, or the message of its error.
pub open spec fn parse_int_text(s: Seq<char>, signed: bool, lo: int, hi: int) -> Result<int, Seq<char>> {
    if s.len() == 0 {
        Err("cannot parse integer from empty string"@)
    } else if s.len() == 1 && (s[0] == '+' || s[0] == '-') {
        Err(invalid_digit_text())
    } else {
        let neg = is_neg(s, signed);
        match scan_digits(digits_part(s, signed), neg, if neg { -lo } else { hi }, 0) {
            Ok(m) => Ok(if neg { -m } else { m }),
            Err(e) => Err(e),
        }
    }
}

proof fn lemma_digits_push(s: Seq<char>, c: char)
    ensures
        digits_value(s.push(c)) == digits_value(s) * 10 + digit_value(c),
{
    assert(s.push(c).drop_last() =~= s);
}

/// The value of a digit string is at least that of each prefix.
proof fn lemma_prefix_le(d: Seq<char>, k: int)
    requires
        0 <= k <= d.len(),
        all_digits(d),
    ensures
        digits_value(d) >= digits_value(d.subrange(0, k)),
    decreases d.len() - k,
{
    if k < d.len() {
        lemma_prefix_le(d, k + 1);
        let p = d.subrange(0, k);
        assert(d.subrange(0, k + 1) =~= p.push(d[k]));
        lemma_digits_push(p, d[k]);
    } else {
        assert(d.subrange(0, k) =~= d);
    }
}

/// Scanning succeeds exactly when every character is a digit and the whole
/// value is within the bound.
pub proof fn lemma_scan(d: Seq<char>, neg: bool, bound: int, i: int)
    requires
        0 <= i <= d.len(),
        bound >= 0,
    ensures
        scan_digits(d, neg, bound, i) is Ok ==> scan_digits(d, neg, bound, i) == Ok::<int, Seq<char>>(
            digits_value(d) as int,
        ),
        (all_digits(d) && digits_value(d) <= bound) ==> scan_digits(d, neg, bound, i) is Ok,
        ((forall|j: int| 0 <= j < i ==> is_digit(#[trigger] d[j])) && digits_value(d.subrange(0, i)) <= bound
            && scan_digits(d, neg, bound, i) is Ok) ==> (all_digits(d) && digits_value(d) <= bound),
    decreases d.len() - i,
{
    if i < d.len() {
        lemma_scan(d, neg, bound, i + 1);
        if all_digits(d) && digits_value(d) <= bound {
            lemma_prefix_le(d, i + 1);
            assert(is_digit(d[i]));
        }
        if (forall|j: int| 0 <= j < i ==> is_digit(#[trigger] d[j])) && scan_digits(d, neg, bound, i) is Ok {
            assert(is_digit(d[i]));
            assert forall|j: int| 0 <= j < i + 1 implies is_digit(#[trigger] d[j]) by {}
        }
    } else {
        assert(d.subrange(0, i) =~= d);
    }
}

/// Parses an integer text the way `from_str` of an integer type with range
/// `lo ..= hi` does.
pub fn parse_int(s: &str, signed: bool, lo: i128, hi: i128) -> (r: Result<i128, String>)
    requires
        lo <= 0 <= hi,
        signed ==> lo < 0,
        !signed ==> lo == 0,
    ensures
        match parse_int_text(s@, signed, lo as int, hi as int) {
            Ok(v) => r == Ok::<i128, String>(v as i128) && lo <= v <= hi,
            Err(m) => r matches Err(x) && x@ == m,
        },
{
    let cs = str_chars(s);
    let n = cs.len();
    if n == 0 {
        return Err("cannot parse integer from empty string".to_owned());
    }
    let c0 = cs[0];
    if n == 1 && (c0 == '+' || c0 == '-') {
        return Err("invalid digit found in string".to_owned());
    }
    let neg = signed && c0 == '-';
    let start: usize = if c0 == '+' || neg {
        1
    } else {
        0
    };
    let ghost d = digits_part(s@, signed);
    assert(d =~= cs@.subrange(start as int, n as int));
    assert(is_neg(s@, signed) == neg);
    let bound: u128 = if neg {
        ((-(lo + 1)) as u128) + 1
    } else {
        hi as u128
    };
    let ghost b: int = if neg { -(lo as int) } else { hi as int };
    assert(bound as int == b);
    let mut acc: u128 = 0;
    let mut i: usize = start;
    assert(d.subrange(0, 0) =~= Seq::<char>::empty());
    while i < n
        invariant
            start <= i <= n,
            n == cs@.len(),
            cs@ == s@,
            n >= 1,
            !(n == 1 && (s@[0] == '+' || s@[0] == '-')),
            is_neg(s@, signed) == neg,
            d == digits_part(s@, signed),
            b == (if neg { -(lo as int) } else { hi as int }),
            start <= 1,
            d =~= cs@.subrange(start as int, n as int),
            bound as int == b,
            b >= 0,
            acc as int == digits_value(d.subrange(0, i - start)),
            acc <= bound,
            forall|j: int| 0 <= j < i - start ==> is_digit(#[trigger] d[j]),
            scan_digits(d, neg, b, 0) == scan_digits(d, neg, b, i - start),
        decreases n - i,
    {
        let c = cs[i];
        let ghost k: int = i - start;
        assert(d[k] == c);
        if !('0' <= c && c <= '9') {
            assert(!is_digit(d[k]));
            assert(scan_digits(d, neg, b, k) == Err::<int, Seq<char>>(invalid_digit_text()));
            assert(parse_int_text(s@, signed, lo as int, hi as int) == Err::<int, Seq<char>>(invalid_digit_text()));
            return Err("invalid digit found in string".to_owned());
        }
        let dg: u128 = (c as u32 - '0' as u32) as u128;
        assert(dg as int == digit_value(c));
        proof {
            assert(d.subrange(0, k + 1) =~= d.subrange(0, k).push(c));
            lemma_digits_push(d.subrange(0, k), c);
        }
        if bound < dg || acc > (bound - dg) / 10 {
            proof {
                assert(acc * 10 + dg > bound) by (nonlinear_arith)
                    requires
                        bound < dg || acc > (bound - dg) / 10,
                ;
            }
            assert(digits_value(d.subrange(0, k + 1)) > b);
            assert(scan_digits(d, neg, b, k) is Err);
            if neg {
                return Err("number too small to fit in target type".to_owned());
            } else {
                return Err("number too large to fit in target type".to_owned());
            }
        }
        proof {
            assert(acc * 10 + dg <= bound) by (nonlinear_arith)
                requires
                    bound >= dg,
                    acc <= (bound - dg) / 10,
            ;
        }
        acc = acc * 10 + dg;
        i += 1;
    }
    assert(d.subrange(0, (n - start) as int) =~= d);
    if neg {
        if acc == 0 {
            Ok(0)
        } else {
            Ok(-((acc - 1) as i128) - 1)
        }
    } else {
        Ok(acc as i128)
    }
}


/// What `parse_int_text` accepts: a non-empty digits part whose signed value
/// lies in `lo ..= hi`, read as that value.
pub proof fn lemma_parse_int_text(s: Seq<char>, signed: bool, lo: int, hi: int)
    requires
        lo <= 0 <= hi,
        signed ==> lo < 0,
        !signed ==> lo == 0,
    ensures
        ({
            let d = digits_part(s, signed);
            let val: int = if is_neg(s, signed) { -(digits_value(d) as int) } else { digits_value(d) as int };
            &&& parse_int_text(s, signed, lo, hi) is Ok <==> (d.len() > 0 && all_digits(d) && lo <= val <= hi)
            &&& parse_int_text(s, signed, lo, hi) is Ok ==> parse_int_text(s, signed, lo, hi) == Ok::<int, Seq<char>>(val)
        }),
{
    let d = digits_part(s, signed);
    let neg = is_neg(s, signed);
    if s.len() == 0 {
    } else if s.len() == 1 && (s[0] == '+' || s[0] == '-') {
        if !has_sign(s, signed) {
            assert(!is_digit(d[0]));
        }
    } else {
        let bound = if neg { -lo } else { hi };
        assert(d.subrange(0, 0) =~= Seq::<char>::empty());
        lemma_scan(d, neg, bound, 0);
    }
}

} // verus!
