//! Size-filter compilation and size display: a bare byte count or a count
//! with a case-insensitive `K`/`M` suffix, multiplied out with an explicit
//! overflow check, and the inverse human-readable rendering.

use vstd::prelude::*;
use crate::error::Error;
use crate::num::{
    dec_digit, dec_seq, dec_val, num_body, parse_u64_str, parses_as_u64, u64_to_string,
};
use crate::text::push_char;

verus! {

/// A character with the Unicode white-space property, as `char::is_whitespace`
/// reports it.
pub open spec fn is_space_char(c: char) -> bool {
    ||| (0x09 <= c as u32 && c as u32 <= 0x0d)
    ||| c as u32 == 0x20
    ||| c as u32 == 0x85
    ||| c as u32 == 0xa0
    ||| c as u32 == 0x1680
    ||| (0x2000 <= c as u32 && c as u32 <= 0x200a)
    ||| c as u32 == 0x2028
    ||| c as u32 == 0x2029
    ||| c as u32 == 0x202f
    ||| c as u32 == 0x205f
    ||| c as u32 == 0x3000
}

/// Executable white-space test matching `is_space_char`.
pub fn char_is_space(c: char) -> (r: bool)
    ensures
        r == is_space_char(c),
{
    let v = c as u32;
    (0x09 <= v && v <= 0x0d) || v == 0x20 || v == 0x85 || v == 0xa0 || v == 0x1680 || (0x2000 <= v
        && v <= 0x200a) || v == 0x2028 || v == 0x2029 || v == 0x202f || v == 0x205f || v == 0x3000
}

/// `s` without its leading white space.
pub open spec fn trim_start_spec(s: Seq<char>) -> Seq<char>
    decreases s.len(),
{
    if s.len() > 0 && is_space_char(s[0]) {
        trim_start_spec(s.skip(1))
    } else {
        s
    }
}

/// `s` without its trailing white space.
pub open spec fn trim_end_spec(s: Seq<char>) -> Seq<char>
    decreases s.len(),
{
    if s.len() > 0 && is_space_char(s.last()) {
        trim_end_spec(s.drop_last())
    } else {
        s
    }
}

/// `s` without leading and trailing white space.
pub open spec fn trim_spec(s: Seq<char>) -> Seq<char> {
    trim_end_spec(trim_start_spec(s))
}

/// Strip leading and trailing white space from a string.
pub fn trim_str(s: &str) -> (r: String)
    ensures
        r@ == trim_spec(s@),
{
    let n = s.unicode_len();
    let mut a: usize = 0;
    proof {
        assert(s@.skip(0) =~= s@);
    }
    while a < n && char_is_space(s.get_char(a))
        invariant
            a <= n,
            n == s@.len(),
            trim_start_spec(s@) == trim_start_spec(s@.skip(a as int)),
        decreases n - a,
    {
        proof {
            assert(s@.skip(a as int)[0] == s@[a as int]);
            assert(s@.skip(a as int).skip(1) =~= s@.skip(a + 1));
        }
        a = a + 1;
    }
    proof {
        if a < n {
            assert(s@.skip(a as int)[0] == s@[a as int]);
        }
        assert(trim_start_spec(s@) == s@.skip(a as int));
    }
    let mut b: usize = n;
    while b > a && char_is_space(s.get_char(b - 1))
        invariant
            a <= b <= n,
            n == s@.len(),
            trim_start_spec(s@) == s@.skip(a as int),
            trim_end_spec(s@.skip(a as int)) == trim_end_spec(s@.subrange(a as int, b as int)),
        decreases b,
    {
        proof {
            let cur = s@.subrange(a as int, b as int);
            assert(cur.last() == s@[b - 1]);
            assert(cur.drop_last() =~= s@.subrange(a as int, b - 1));
        }
        b = b - 1;
    }
    proof {
        let cur = s@.subrange(a as int, b as int);
        if b > a {
            assert(cur.last() == s@[b - 1]);
        }
        assert(trim_end_spec(cur) == cur);
        assert(s@.skip(a as int) =~= s@.subrange(a as int, n as int));
    }
    s.substring_char(a, b).to_owned()
}

/// The multiplier a trimmed size token calls for: `M` or `m` means mebibytes,
/// `K` or `k` means kibibytes, anything else means bytes.
pub open spec fn size_mult(t: Seq<char>) -> int {
    if t.len() > 0 && (t.last() == 'M' || t.last() == 'm') {
        0x100000
    } else if t.len() > 0 && (t.last() == 'K' || t.last() == 'k') {
        0x400
    } else {
        1
    }
}

/// The numeric part of a trimmed size token: everything before a recognized
/// suffix, trimmed again so `10 K` is accepted.
pub open spec fn size_raw(t: Seq<char>) -> Seq<char> {
    if size_mult(t) != 1 {
        trim_spec(t.drop_last())
    } else {
        t
    }
}

/// Parse a size filter: a bare integer byte count, or an integer with a
/// case-insensitive `K` or `M` suffix scaling by 1024 or 1,048,576. Rejects
/// empty and non-numeric input, and rejects a product that would not fit in
/// 64 bits rather than silently wrapping.
pub fn parse_size(s: &str) -> (r: Result<u64, Error>)
    ensures
        r is Ok <==> (trim_spec(s@).len() > 0 && parses_as_u64(
            size_raw(trim_spec(s@)),
            u64::MAX as int,
        ) && dec_val(num_body(size_raw(trim_spec(s@)))) * size_mult(trim_spec(s@)) <= u64::MAX),
        r is Ok ==> r->Ok_0 == dec_val(num_body(size_raw(trim_spec(s@)))) * size_mult(
            trim_spec(s@),
        ),
        r is Err ==> match r->Err_0 {
            Error::BadSize(x) => x@ == trim_spec(s@) && (trim_spec(s@).len() == 0
                || !parses_as_u64(size_raw(trim_spec(s@)), u64::MAX as int)),
            Error::SizeOverflow(x) => x@ == trim_spec(s@) && parses_as_u64(
                size_raw(trim_spec(s@)),
                u64::MAX as int,
            ) && dec_val(num_body(size_raw(trim_spec(s@)))) * size_mult(trim_spec(s@))
                > u64::MAX,
            _ => false,
        },
{
    let t = trim_str(s);
    let n = t.as_str().unicode_len();
    if n == 0 {
        return Err(Error::BadSize(t));
    }
    let last = t.as_str().get_char(n - 1);
    let (mult, raw): (u64, String) = if last == 'M' || last == 'm' {
        (0x100000, trim_str(t.as_str().substring_char(0, n - 1)))
    } else if last == 'K' || last == 'k' {
        (0x400, trim_str(t.as_str().substring_char(0, n - 1)))
    } else {
        (1, t.clone())
    };
    proof {
        assert(t@.subrange(0, n - 1) =~= t@.drop_last());
        assert(mult == size_mult(t@));
        assert(raw@ == size_raw(t@));
    }
    let value = match parse_u64_str(raw.as_str()) {
        Some(v) => v,
        None => {
            return Err(Error::BadSize(t));
        },
    };
    match value.checked_mul(mult) {
        Some(total) => Ok(total),
        None => Err(Error::SizeOverflow(t)),
    }
}

/// Round `v`-in-`unit`s to the nearest integer, ties to even, where `rem` is
/// the remainder of the division already taken.
pub open spec fn round_half_even(q: int, rem: int, unit: int) -> int {
    if 2 * rem > unit || (2 * rem == unit && q % 2 == 1) {
        q + 1
    } else {
        q
    }
}

/// The rendering `format_size` produces: tenths of mebibytes above one
/// mebibyte, whole kibibytes above one kibibyte, bytes otherwise.
pub open spec fn format_size_spec(bytes: nat) -> Seq<char> {
    if bytes >= 0x100000 {
        let tenths = round_half_even(
            (10 * bytes) as int / 0x100000,
            (10 * bytes) as int % 0x100000,
            0x100000,
        );
        dec_seq((tenths / 10) as nat) + seq!['.'] + seq![dec_digit(tenths % 10)] + seq!['M']
    } else if bytes >= 0x400 {
        let k = round_half_even(bytes as int / 0x400, bytes as int % 0x400, 0x400);
        dec_seq(k as nat) + seq!['K']
    } else {
        dec_seq(bytes) + seq!['B']
    }
}

/// Render a byte count for display: `999B`, `12K`, `5.0M`, rounding to the
/// nearest unit with ties to even.
pub fn format_size(bytes: u64) -> (r: String)
    ensures
        r@ == format_size_spec(bytes as nat),
{
    if bytes >= 0x100000 {
        let v10: u128 = (bytes as u128) * 10;
        let q: u128 = v10 / 0x100000;
        let rem: u128 = v10 % 0x100000;
        let tenths: u128 = if 2 * rem > 0x100000 || (2 * rem == 0x100000 && q % 2 == 1) {
            q + 1
        } else {
            q
        };
        let mut out = u64_to_string((tenths / 10) as u64);
        push_char(&mut out, '.');
        let frac = (tenths % 10) as u8;
        let mut fc = '0';
        if frac == 1 {
            fc = '1';
        } else if frac == 2 {
            fc = '2';
        } else if frac == 3 {
            fc = '3';
        } else if frac == 4 {
            fc = '4';
        } else if frac == 5 {
            fc = '5';
        } else if frac == 6 {
            fc = '6';
        } else if frac == 7 {
            fc = '7';
        } else if frac == 8 {
            fc = '8';
        } else if frac == 9 {
            fc = '9';
        }
        push_char(&mut out, fc);
        push_char(&mut out, 'M');
        proof {
            assert(out@ =~= format_size_spec(bytes as nat));
        }
        out
    } else if bytes >= 0x400 {
        let q: u64 = bytes / 0x400;
        let rem: u64 = bytes % 0x400;
        let k: u64 = if 2 * rem > 0x400 || (2 * rem == 0x400 && q % 2 == 1) {
            q + 1
        } else {
            q
        };
        let mut out = u64_to_string(k);
        push_char(&mut out, 'K');
        proof {
            assert(out@ =~= format_size_spec(bytes as nat));
        }
        out
    } else {
        let mut out = u64_to_string(bytes);
        push_char(&mut out, 'B');
        proof {
            assert(out@ =~= format_size_spec(bytes as nat));
        }
        out
    }
}

} // verus!
