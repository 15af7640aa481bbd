//! Decimal text of unsigned and signed integers: printing for range
//! expressions and command text, parsing for sizes, dates, and server
//! responses, each pinned to one spec-level notion of a decimal numeral.

use vstd::prelude::*;
use crate::text::push_char;

verus! {

/// The digit character for a value below ten.
pub open spec fn dec_digit(d: int) -> char {
    if d == 0 {
        '0'
    } else if d == 1 {
        '1'
    } else if d == 2 {
        '2'
    } else if d == 3 {
        '3'
    } else if d == 4 {
        '4'
    } else if d == 5 {
        '5'
    } else if d == 6 {
        '6'
    } else if d == 7 {
        '7'
    } else if d == 8 {
        '8'
    } else {
        '9'
    }
}

/// The decimal numeral of a natural number, most significant digit first,
/// with no leading zero except for zero itself.
pub open spec fn dec_seq(n: nat) -> Seq<char>
    decreases n,
{
    if n < 10 {
        seq![dec_digit(n as int)]
    } else {
        dec_seq(n / 10) + seq![dec_digit((n % 10) as int)]
    }
}

/// The decimal numeral of an integer: a minus sign before the numeral of the
/// magnitude when negative.
pub open spec fn int_dec_seq(v: int) -> Seq<char> {
    if v < 0 {
        seq!['-'] + dec_seq((-v) as nat)
    } else {
        dec_seq(v as nat)
    }
}

/// A decimal digit character.
pub open spec fn is_digit_char(c: char) -> bool {
    48 <= c as u32 <= 57
}

/// Every character of `s` is a decimal digit.
pub open spec fn all_digit_chars(s: Seq<char>) -> bool {
    forall|i: int| 0 <= i < s.len() ==> is_digit_char(#[trigger] s[i])
}

/// The value of a digit string read left to right. Meaningful only when
/// every character is a digit.
pub open spec fn dec_val(s: Seq<char>) -> int
    decreases s.len(),
{
    if s.len() == 0 {
        0
    } else {
        dec_val(s.drop_last()) * 10 + (s.last() as u32 - 48)
    }
}

/// The numeral of `n` consists of digits and reads back as `n`.
pub proof fn lemma_dec_seq_val(n: nat)
    ensures
        dec_seq(n).len() >= 1,
        all_digit_chars(dec_seq(n)),
        dec_val(dec_seq(n)) == n,
    decreases n,
{
    if n < 10 {
        let s = dec_seq(n);
        assert(s.len() == 1);
        assert(s[0] == dec_digit(n as int));
        assert(is_digit_char(dec_digit(n as int)));
        assert(s.drop_last() =~= Seq::<char>::empty());
        assert(dec_val(Seq::<char>::empty()) == 0);
        assert(dec_val(s) == (dec_digit(n as int) as u32 - 48));
        assert(dec_digit(n as int) as u32 == 48 + n);
    } else {
        lemma_dec_seq_val(n / 10);
        let hi = dec_seq(n / 10);
        let d = dec_digit((n % 10) as int);
        let s = dec_seq(n);
        assert(s == hi + seq![d]);
        assert(s.drop_last() =~= hi);
        assert(s.last() == d);
        assert(is_digit_char(d));
        assert(d as u32 == 48 + n % 10);
        assert(dec_val(s) == dec_val(hi) * 10 + (n % 10));
        assert(forall|i: int| 0 <= i < s.len() - 1 ==> #[trigger] s[i] == hi[i]);
    }
}

/// Two distinct naturals have distinct numerals.
pub proof fn lemma_dec_seq_injective(a: nat, b: nat)
    requires
        dec_seq(a) == dec_seq(b),
    ensures
        a == b,
{
    lemma_dec_seq_val(a);
    lemma_dec_seq_val(b);
}

/// The digit character for `d`, executable.
fn digit_char(d: u8) -> (c: char)
    requires
        d < 10,
    ensures
        c == dec_digit(d as int),
{
    match d {
        0 => '0',
        1 => '1',
        2 => '2',
        3 => '3',
        4 => '4',
        5 => '5',
        6 => '6',
        7 => '7',
        8 => '8',
        _ => '9',
    }
}

/// Print a number as its decimal numeral.
pub fn u64_to_string(n: u64) -> (r: String)
    ensures
        r@ == dec_seq(n as nat),
    decreases n,
{
    if n < 10 {
        let mut s = String::new();
        push_char(&mut s, digit_char(n as u8));
        proof {
            assert(s@ =~= dec_seq(n as nat));
        }
        s
    } else {
        let mut s = u64_to_string(n / 10);
        push_char(&mut s, digit_char((n % 10) as u8));
        proof {
            assert(s@ =~= dec_seq(n as nat));
        }
        s
    }
}

/// Print a 32-bit number as its decimal numeral.
pub fn u32_to_string(n: u32) -> (r: String)
    ensures
        r@ == dec_seq(n as nat),
{
    u64_to_string(n as u64)
}

/// Print a signed number as its decimal numeral.
pub fn i64_to_string(n: i64) -> (r: String)
    ensures
        r@ == int_dec_seq(n as int),
{
    if n >= 0 {
        u64_to_string(n as u64)
    } else {
        let mag: u64 = ((-(n + 1)) as u64) + 1;
        let mut s = String::new();
        push_char(&mut s, '-');
        let digits = u64_to_string(mag);
        s.append(digits.as_str());
        proof {
            assert(mag == -(n as int));
            assert(s@ =~= int_dec_seq(n as int));
        }
        s
    }
}

/// The numeral body of a token: an optional leading plus sign is skipped, as
/// the standard integer parsers do.
pub open spec fn num_body(s: Seq<char>) -> Seq<char> {
    if s.len() > 0 && s[0] == '+' {
        s.skip(1)
    } else {
        s
    }
}

/// A token parses as an unsigned number of bound `max` exactly when its body
/// is a non-empty run of digits whose value fits.
pub open spec fn parses_as_u64(s: Seq<char>, max: int) -> bool {
    &&& num_body(s).len() > 0
    &&& all_digit_chars(num_body(s))
    &&& dec_val(num_body(s)) <= max
}

/// The value of a digit string never shrinks as digits are appended.
proof fn lemma_dec_val_nonneg(s: Seq<char>)
    requires
        all_digit_chars(s),
    ensures
        dec_val(s) >= 0,
    decreases s.len(),
{
    if s.len() > 0 {
        assert(forall|i: int| 0 <= i < s.len() - 1 ==> s.drop_last()[i] == s[i]);
        lemma_dec_val_nonneg(s.drop_last());
    }
}

/// Once a prefix of a digit string exceeds a bound, the whole string does.
proof fn lemma_dec_val_prefix(s: Seq<char>, k: int)
    requires
        all_digit_chars(s),
        0 <= k <= s.len(),
    ensures
        dec_val(s) >= dec_val(s.subrange(0, k)),
    decreases s.len() - k,
{
    if k < s.len() {
        let p = s.subrange(0, k);
        let q = s.subrange(0, k + 1);
        assert(q.drop_last() =~= p);
        assert(forall|i: int| 0 <= i < p.len() ==> p[i] == s[i]);
        lemma_dec_val_nonneg(p);
        assert(dec_val(q) == dec_val(p) * 10 + (q.last() as u32 - 48));
        assert(dec_val(p) * 10 >= dec_val(p));
        lemma_dec_val_prefix(s, k + 1);
    } else {
        assert(s.subrange(0, k) =~= s);
    }
}

/// Parse a decimal token as `u64`, accepting an optional leading plus sign,
/// rejecting anything else that is not a digit, and rejecting values that do
/// not fit.
pub fn parse_u64_str(s: &str) -> (r: Option<u64>)
    ensures
        r is Some <==> parses_as_u64(s@, u64::MAX as int),
        r is Some ==> r->0 == dec_val(num_body(s@)),
{
    let n = s.unicode_len();
    let start: usize = if n > 0 && s.get_char(0) == '+' {
        1
    } else {
        0
    };
    let ghost body = num_body(s@);
    proof {
        assert(body =~= s@.skip(start as int));
    }
    if start >= n {
        return None;
    }
    proof {
        assert(body.subrange(0, 0) =~= Seq::<char>::empty());
        assert(dec_val(Seq::<char>::empty()) == 0);
    }
    let mut acc: u64 = 0;
    let mut i: usize = start;
    while i < n
        invariant
            start <= i <= n,
            n == s@.len(),
            start < n,
            body == num_body(s@),
            body == s@.skip(start as int),
            all_digit_chars(body.subrange(0, i - start)),
            acc == dec_val(body.subrange(0, i - start)),
        decreases n - i,
    {
        let c = s.get_char(i);
        proof {
            assert(body[i - start] == s@[i as int]);
        }
        if !(('0' as u32 <= c as u32) && (c as u32 <= '9' as u32)) {
            proof {
                assert(!is_digit_char(body[i - start]));
            }
            return None;
        }
        let d: u64 = (c as u32 - 48) as u64;
        let ghost pre = body.subrange(0, i - start);
        let ghost cur = body.subrange(0, i - start + 1);
        proof {
            assert(cur.drop_last() =~= pre);
            assert(cur.last() == body[i - start]);
            assert(all_digit_chars(cur));
            lemma_dec_val_nonneg(pre);
        }
        let next = match acc.checked_mul(10) {
            Some(m) => m.checked_add(d),
            None => None,
        };
        match next {
            Some(v) => {
                acc = v;
                proof {
                    assert(acc == dec_val(cur));
                }
            },
            None => {
                proof {
                    assert(dec_val(cur) > u64::MAX);
                    if all_digit_chars(body) {
                        lemma_dec_val_prefix(body, i - start + 1);
                    }
                }
                return None;
            },
        }
        i = i + 1;
    }
    proof {
        assert(body.subrange(0, n - start) =~= body);
    }
    Some(acc)
}

/// A decimal digit byte.
pub open spec fn is_digit_byte(b: u8) -> bool {
    48 <= b <= 57
}

/// Every byte of `s` is a decimal digit.
pub open spec fn all_digit_bytes(s: Seq<u8>) -> bool {
    forall|i: int| 0 <= i < s.len() ==> is_digit_byte(#[trigger] s[i])
}

/// The value of a digit byte string read left to right.
pub open spec fn bdec_val(s: Seq<u8>) -> int
    decreases s.len(),
{
    if s.len() == 0 {
        0
    } else {
        bdec_val(s.drop_last()) * 10 + (s.last() - 48)
    }
}

/// The numeral body of a byte token: an optional leading plus sign is
/// skipped, as the standard integer parsers do.
pub open spec fn bnum_body(s: Seq<u8>) -> Seq<u8> {
    if s.len() > 0 && s[0] == 43 {
        s.skip(1)
    } else {
        s
    }
}

/// A byte token parses as a 32-bit number exactly when its body is a
/// non-empty run of digits whose value fits.
pub open spec fn bparses_as_u32(s: Seq<u8>) -> bool {
    &&& bnum_body(s).len() > 0
    &&& all_digit_bytes(bnum_body(s))
    &&& bdec_val(bnum_body(s)) <= u32::MAX
}

proof fn lemma_bdec_val_nonneg(s: Seq<u8>)
    requires
        all_digit_bytes(s),
    ensures
        bdec_val(s) >= 0,
    decreases s.len(),
{
    if s.len() > 0 {
        assert(forall|i: int| 0 <= i < s.len() - 1 ==> s.drop_last()[i] == s[i]);
        lemma_bdec_val_nonneg(s.drop_last());
    }
}

proof fn lemma_bdec_val_prefix(s: Seq<u8>, k: int)
    requires
        all_digit_bytes(s),
        0 <= k <= s.len(),
    ensures
        bdec_val(s) >= bdec_val(s.subrange(0, k)),
    decreases s.len() - k,
{
    if k < s.len() {
        let p = s.subrange(0, k);
        let q = s.subrange(0, k + 1);
        assert(q.drop_last() =~= p);
        assert(forall|i: int| 0 <= i < p.len() ==> p[i] == s[i]);
        lemma_bdec_val_nonneg(p);
        assert(bdec_val(q) == bdec_val(p) * 10 + (q.last() - 48));
        assert(bdec_val(p) * 10 >= bdec_val(p));
        lemma_bdec_val_prefix(s, k + 1);
    } else {
        assert(s.subrange(0, k) =~= s);
    }
}

/// Parse a decimal byte token as `u32`, accepting an optional leading plus
/// sign, rejecting anything else that is not a digit, and rejecting values
/// that do not fit.
pub fn parse_u32_bytes(s: &[u8]) -> (r: Option<u32>)
    ensures
        r is Some <==> bparses_as_u32(s@),
        r is Some ==> r->0 == bdec_val(bnum_body(s@)),
{
    let n = s.len();
    let start: usize = if n > 0 && s[0] == 43 {
        1
    } else {
        0
    };
    let ghost body = bnum_body(s@);
    proof {
        assert(body =~= s@.skip(start as int));
    }
    if start >= n {
        return None;
    }
    proof {
        assert(body.subrange(0, 0) =~= Seq::<u8>::empty());
        assert(bdec_val(Seq::<u8>::empty()) == 0);
    }
    let mut acc: u32 = 0;
    let mut i: usize = start;
    while i < n
        invariant
            start <= i <= n,
            n == s@.len(),
            start < n,
            body == bnum_body(s@),
            body == s@.skip(start as int),
            all_digit_bytes(body.subrange(0, i - start)),
            acc == bdec_val(body.subrange(0, i - start)),
        decreases n - i,
    {
        let b = s[i];
        proof {
            assert(body[i - start] == s@[i as int]);
        }
        if !(48 <= b && b <= 57) {
            proof {
                assert(!is_digit_byte(body[i - start]));
            }
            return None;
        }
        let d: u32 = (b - 48) as u32;
        let ghost pre = body.subrange(0, i - start);
        let ghost cur = body.subrange(0, i - start + 1);
        proof {
            assert(cur.drop_last() =~= pre);
            assert(cur.last() == body[i - start]);
            assert(all_digit_bytes(cur));
            lemma_bdec_val_nonneg(pre);
        }
        let next = match acc.checked_mul(10) {
            Some(m) => m.checked_add(d),
            None => None,
        };
        match next {
            Some(v) => {
                acc = v;
                proof {
                    assert(acc == bdec_val(cur));
                }
            },
            None => {
                proof {
                    assert(bdec_val(cur) > u32::MAX);
                    if all_digit_bytes(body) {
                        lemma_bdec_val_prefix(body, i - start + 1);
                    }
                }
                return None;
            },
        }
        i = i + 1;
    }
    proof {
        assert(body.subrange(0, n - start) =~= body);
    }
    Some(acc)
}

/// Read a non-empty run of digit bytes as a 64-bit value, answering zero
/// when the value does not fit, as a lenient response parser does.
pub fn digits_u64_or_zero(s: &[u8]) -> (r: u64)
    requires
        s@.len() > 0,
        all_digit_bytes(s@),
    ensures
        r as int == (if bdec_val(s@) <= u64::MAX {
            bdec_val(s@)
        } else {
            0
        }),
{
    let n = s.len();
    let mut acc: u64 = 0;
    let mut i: usize = 0;
    proof {
        assert(s@.subrange(0, 0) =~= Seq::<u8>::empty());
        assert(bdec_val(Seq::<u8>::empty()) == 0);
    }
    while i < n
        invariant
            i <= n,
            n == s@.len(),
            all_digit_bytes(s@),
            acc == bdec_val(s@.subrange(0, i as int)),
        decreases n - i,
    {
        let b = s[i];
        let d: u64 = (b - 48) as u64;
        let ghost pre = s@.subrange(0, i as int);
        let ghost cur = s@.subrange(0, i + 1);
        proof {
            assert(cur.drop_last() =~= pre);
            assert(cur.last() == s@[i as int]);
            assert(is_digit_byte(s@[i as int]));
            lemma_bdec_val_nonneg(pre);
        }
        let next = match acc.checked_mul(10) {
            Some(m) => m.checked_add(d),
            None => None,
        };
        match next {
            Some(v) => {
                acc = v;
                proof {
                    assert(acc == bdec_val(cur));
                }
            },
            None => {
                proof {
                    assert(bdec_val(cur) > u64::MAX);
                    lemma_bdec_val_prefix(s@, i + 1);
                }
                return 0u64;
            },
        }
        i = i + 1;
    }
    proof {
        assert(s@.subrange(0, n as int) =~= s@);
    }
    acc
}

/// Parse a decimal token as `u32`.
pub fn parse_u32_str(s: &str) -> (r: Option<u32>)
    ensures
        r is Some <==> parses_as_u64(s@, u32::MAX as int),
        r is Some ==> r->0 == dec_val(num_body(s@)),
{
    match parse_u64_str(s) {
        Some(v) => {
            if v <= 0xffff_ffff {
                Some(v as u32)
            } else {
                None
            }
        },
        None => {
            proof {
                if parses_as_u64(s@, u32::MAX as int) {
                    assert(parses_as_u64(s@, u64::MAX as int));
                }
            }
            None
        },
    }
}

} // verus!
