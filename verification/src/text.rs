//! Character and string groundwork for the query compiler: control-character
//! stripping, quoted-string escaping, display truncation, and plain substring
//! search.

use vstd::prelude::*;

verus! {

/// True for the Unicode control characters (C0, DEL, and C1): exactly the
/// characters the query compiler strips before quoting, so that no CR or LF
/// can reach the wire inside a quoted string.
pub open spec fn is_control_code(c: char) -> bool {
    c as u32 <= 0x1f || (0x7f <= c as u32 && c as u32 <= 0x9f)
}

/// Executable test for a control character, matching `is_control_code`.
pub fn char_is_control(c: char) -> (r: bool)
    ensures
        r == is_control_code(c),
{
    let v = c as u32;
    v <= 0x1f || (0x7f <= v && v <= 0x9f)
}

/// The characters of `s` with every control character removed.
pub open spec fn strip_controls(s: Seq<char>) -> Seq<char>
    decreases s.len(),
{
    if s.len() == 0 {
        Seq::empty()
    } else if is_control_code(s[0]) {
        strip_controls(s.skip(1))
    } else {
        seq![s[0]] + strip_controls(s.skip(1))
    }
}

proof fn lemma_strip_controls_push(s: Seq<char>, c: char)
    ensures
        strip_controls(s.push(c)) == strip_controls(s) + (if is_control_code(c) {
            Seq::<char>::empty()
        } else {
            seq![c]
        }),
    decreases s.len(),
{
    if s.len() == 0 {
        reveal_with_fuel(strip_controls, 2);
        assert(s.push(c)[0] == c);
        assert(s.push(c).skip(1) =~= Seq::<char>::empty());
        assert(strip_controls(s) =~= Seq::<char>::empty());
        if is_control_code(c) {
            assert(strip_controls(s.push(c)) =~= Seq::<char>::empty());
        } else {
            assert(strip_controls(s.push(c)) =~= seq![c]);
        }
    } else {
        assert(s.push(c).skip(1) =~= s.skip(1).push(c));
        lemma_strip_controls_push(s.skip(1), c);
        if is_control_code(s[0]) {
        } else {
            assert(seq![s[0]] + (strip_controls(s.skip(1)) + (if is_control_code(c) {
                Seq::<char>::empty()
            } else {
                seq![c]
            })) =~= (seq![s[0]] + strip_controls(s.skip(1))) + (if is_control_code(c) {
                Seq::<char>::empty()
            } else {
                seq![c]
            }));
        }
    }
}

/// No character of a stripped sequence is a control character.
pub proof fn lemma_strip_controls_clean(s: Seq<char>)
    ensures
        forall|i: int|
            0 <= i < strip_controls(s).len() ==> !is_control_code(#[trigger] strip_controls(s)[i]),
    decreases s.len(),
{
    if s.len() > 0 {
        lemma_strip_controls_clean(s.skip(1));
        if is_control_code(s[0]) {
            assert forall|i: int|
                0 <= i < strip_controls(s).len() implies !is_control_code(
                #[trigger] strip_controls(s)[i],
            ) by {
                assert(strip_controls(s)[i] == strip_controls(s.skip(1))[i]);
            }
        } else {
            let rest = strip_controls(s.skip(1));
            assert forall|i: int|
                0 <= i < strip_controls(s).len() implies !is_control_code(
                #[trigger] strip_controls(s)[i],
            ) by {
                if i == 0 {
                    assert(strip_controls(s)[0] == s[0]);
                } else {
                    assert(strip_controls(s)[i] == rest[i - 1]);
                }
            }
        }
    }
}

/// Relies on `String::push`: appends exactly one character.
#[verifier::external_body]
pub fn push_char(s: &mut String, c: char)
    ensures
        final(s)@ == old(s)@.push(c),
{
    s.push(c);
}

/// Remove every control character from `s`, keeping all other characters in
/// order. This runs before quoting, so quoted filter values can never carry a
/// CRLF into the command stream.
pub fn sanitize(s: &str) -> (r: String)
    ensures
        r@ == strip_controls(s@),
{
    let n = s.unicode_len();
    let mut out = String::new();
    let mut i: usize = 0;
    while i < n
        invariant
            i <= n,
            n == s@.len(),
            out@ == strip_controls(s@.subrange(0, i as int)),
        decreases n - i,
    {
        let c = s.get_char(i);
        proof {
            lemma_strip_controls_push(s@.subrange(0, i as int), s@[i as int]);
            assert(s@.subrange(0, i + 1) =~= s@.subrange(0, i as int).push(s@[i as int]));
        }
        if !char_is_control(c) {
            push_char(&mut out, c);
            proof {
                assert(strip_controls(s@.subrange(0, i as int)).push(c) =~= strip_controls(
                    s@.subrange(0, i as int),
                ) + seq![c]);
            }
        }
        i = i + 1;
    }
    proof {
        assert(s@.subrange(0, n as int) =~= s@);
    }
    out
}

/// The escape of one character inside a quoted string: backslash and double
/// quote gain a backslash prefix, everything else stands alone.
pub open spec fn escape_char(c: char) -> Seq<char> {
    if c == '\\' {
        seq!['\\', '\\']
    } else if c == '"' {
        seq!['\\', c]
    } else {
        seq![c]
    }
}

/// The escape of a whole sequence, character by character.
pub open spec fn escape_all(s: Seq<char>) -> Seq<char>
    decreases s.len(),
{
    if s.len() == 0 {
        Seq::empty()
    } else {
        escape_char(s[0]) + escape_all(s.skip(1))
    }
}

proof fn lemma_escape_all_push(s: Seq<char>, c: char)
    ensures
        escape_all(s.push(c)) == escape_all(s) + escape_char(c),
    decreases s.len(),
{
    if s.len() == 0 {
        assert(s.push(c)[0] == c);
        assert(s.push(c).skip(1) =~= Seq::<char>::empty());
        assert(escape_all(s.push(c)) == escape_char(c) + escape_all(Seq::<char>::empty()));
        assert(escape_char(c) + Seq::<char>::empty() =~= escape_char(c));
        assert(escape_all(s) + escape_char(c) =~= escape_char(c));
    } else {
        assert(s.push(c).skip(1) =~= s.skip(1).push(c));
        lemma_escape_all_push(s.skip(1), c);
        assert(escape_char(s[0]) + (escape_all(s.skip(1)) + escape_char(c)) =~= (escape_char(s[0])
            + escape_all(s.skip(1))) + escape_char(c));
    }
}

/// What `imap_quote` produces: the control-stripped input, escaped, wrapped in
/// double quotes.
pub open spec fn quote_spec(s: Seq<char>) -> Seq<char> {
    seq!['"'] + escape_all(strip_controls(s)) + seq!['"']
}

/// Quote a string for use inside a protocol command: strip control
/// characters, escape backslashes and double quotes, and wrap the result in
/// double quotes.
pub fn imap_quote(s: &str) -> (r: String)
    ensures
        r@ == quote_spec(s@),
{
    let clean = sanitize(s);
    let n = clean.as_str().unicode_len();
    let mut out = String::new();
    push_char(&mut out, '"');
    let mut i: usize = 0;
    while i < n
        invariant
            i <= n,
            n == clean@.len(),
            out@ == seq!['"'] + escape_all(clean@.subrange(0, i as int)),
        decreases n - i,
    {
        let c = clean.as_str().get_char(i);
        proof {
            lemma_escape_all_push(clean@.subrange(0, i as int), clean@[i as int]);
            assert(clean@.subrange(0, i + 1) =~= clean@.subrange(0, i as int).push(clean@[i as int]));
        }
        if c == '\\' {
            push_char(&mut out, '\\');
            push_char(&mut out, '\\');
        } else if c == '"' {
            push_char(&mut out, '\\');
            push_char(&mut out, '"');
        } else {
            push_char(&mut out, c);
        }
        proof {
            assert(out@ =~= seq!['"'] + escape_all(clean@.subrange(0, i + 1)));
        }
        i = i + 1;
    }
    push_char(&mut out, '"');
    proof {
        assert(clean@.subrange(0, n as int) =~= clean@);
        assert(out@ =~= quote_spec(s@));
    }
    out
}

/// Undo the quoted-string escaping: a backslash takes the following character
/// literally; everything else stands for itself.
pub open spec fn unescape_all(s: Seq<char>) -> Seq<char>
    decreases s.len(),
{
    if s.len() == 0 {
        Seq::empty()
    } else if s[0] == '\\' && s.len() >= 2 {
        seq![s[1]] + unescape_all(s.skip(2))
    } else {
        seq![s[0]] + unescape_all(s.skip(1))
    }
}

proof fn lemma_unescape_escape(s: Seq<char>)
    ensures
        unescape_all(escape_all(s)) == s,
    decreases s.len(),
{
    if s.len() == 0 {
        assert(unescape_all(escape_all(s)) =~= s);
    } else {
        let c = s[0];
        let whole = escape_all(s);
        lemma_unescape_escape(s.skip(1));
        if c == '\\' || c == '"' {
            assert(whole =~= seq!['\\', c] + escape_all(s.skip(1)));
            assert(whole.skip(2) =~= escape_all(s.skip(1)));
            assert(unescape_all(whole) =~= seq![c] + s.skip(1));
            assert(seq![c] + s.skip(1) =~= s);
        } else {
            assert(whole =~= seq![c] + escape_all(s.skip(1)));
            assert(whole.skip(1) =~= escape_all(s.skip(1)));
            assert(unescape_all(whole) =~= seq![c] + s.skip(1));
            assert(seq![c] + s.skip(1) =~= s);
        }
    }
}

proof fn lemma_escape_all_clean(s: Seq<char>)
    requires
        forall|i: int| 0 <= i < s.len() ==> !is_control_code(#[trigger] s[i]),
    ensures
        forall|i: int| 0 <= i < escape_all(s).len() ==> !is_control_code(#[trigger] escape_all(s)[i]),
    decreases s.len(),
{
    if s.len() > 0 {
        assert(forall|i: int| 0 <= i < s.skip(1).len() ==> s.skip(1)[i] == s[i + 1]);
        lemma_escape_all_clean(s.skip(1));
        assert(!is_control_code('\\'));
        assert(!is_control_code('"'));
        assert forall|i: int| 0 <= i < escape_all(s).len() implies !is_control_code(
            #[trigger] escape_all(s)[i],
        ) by {
            let head = escape_char(s[0]);
            if i < head.len() {
                assert(escape_all(s)[i] == head[i]);
            } else {
                assert(escape_all(s)[i] == escape_all(s.skip(1))[i - head.len()]);
            }
        }
    }
}

/// Quoting round trip: the quoted form of any string holds no raw control
/// character, and unescaping the text between its surrounding quotes recovers
/// exactly the control-stripped input.
pub proof fn lemma_quote_round_trip(s: Seq<char>)
    ensures
        forall|i: int|
            0 <= i < quote_spec(s).len() ==> !is_control_code(#[trigger] quote_spec(s)[i]),
        unescape_all(quote_spec(s).subrange(1, quote_spec(s).len() - 1)) == strip_controls(s),
{
    let clean = strip_controls(s);
    let body = escape_all(clean);
    lemma_strip_controls_clean(s);
    lemma_escape_all_clean(clean);
    lemma_unescape_escape(clean);
    assert(!is_control_code('"'));
    assert(quote_spec(s).subrange(1, quote_spec(s).len() - 1) =~= body);
    assert forall|i: int| 0 <= i < quote_spec(s).len() implies !is_control_code(
        #[trigger] quote_spec(s)[i],
    ) by {
        if 1 <= i < 1 + body.len() {
            assert(quote_spec(s)[i] == body[i - 1]);
        }
    }
}

/// Truncation of a display string to `max` characters: a string that fits is
/// unchanged; a longer one keeps its first `max - 3` characters and gains an
/// ellipsis.
pub open spec fn truncate_spec(s: Seq<char>, max: nat) -> Seq<char> {
    if s.len() <= max {
        s
    } else {
        s.subrange(0, (if max >= 3 {
            max - 3
        } else {
            0
        }) as int) + "..."@
    }
}

/// Truncate `s` to at most `max` display characters, appending `...` when
/// something was cut. Counts characters, not bytes, so multi-byte text is
/// never split.
pub fn truncate_str(s: &str, max: usize) -> (r: String)
    ensures
        r@ == truncate_spec(s@, max as nat),
{
    let n = s.unicode_len();
    if n <= max {
        s.to_owned()
    } else {
        let keep: usize = if max >= 3 {
            max - 3
        } else {
            0
        };
        let mut out = s.substring_char(0, keep).to_owned();
        out.append("...");
        out
    }
}

/// `needle` occurs somewhere inside `hay`.
pub open spec fn has_substring(hay: Seq<char>, needle: Seq<char>) -> bool {
    exists|i: int|
        0 <= i && i + needle.len() <= hay.len() && #[trigger] hay.subrange(i, i + needle.len())
            == needle
}

/// Substring search, character by character.
pub fn str_contains(hay: &str, needle: &str) -> (r: bool)
    ensures
        r == has_substring(hay@, needle@),
{
    let nh = hay.unicode_len();
    let nn = needle.unicode_len();
    if nn > nh {
        return false;
    }
    if nn == 0 {
        proof {
            let z: int = 0;
            assert(hay@.subrange(z, z + needle@.len()) =~= needle@);
        }
        return true;
    }
    let mut i: usize = 0;
    while i <= nh - nn
        invariant
            0 < nn <= nh,
            nh == hay@.len(),
            nn == needle@.len(),
            i <= nh - nn + 1,
            forall|k: int|
                0 <= k < i ==> #[trigger] hay@.subrange(k, k + needle@.len()) != needle@,
        decreases nh + 1 - i,
    {
        let mut j: usize = 0;
        let mut hit = true;
        while j < nn
            invariant
                nn <= nh,
                nh == hay@.len(),
                nn == needle@.len(),
                i + nn <= nh,
                j <= nn,
                hit ==> forall|t: int| 0 <= t < j ==> hay@[i + t] == needle@[t],
                !hit ==> hay@.subrange(i as int, i + needle@.len()) != needle@,
            decreases nn - j,
        {
            if hit {
                let hc = hay.get_char(i + j);
                let nc = needle.get_char(j);
                if hc != nc {
                    proof {
                        let sub = hay@.subrange(i as int, i + needle@.len());
                        assert(sub[j as int] == hay@[i + j]);
                    }
                    hit = false;
                }
            }
            j = j + 1;
        }
        if hit {
            proof {
                assert(hay@.subrange(i as int, i + needle@.len()) =~= needle@);
            }
            return true;
        }
        i = i + 1;
    }
    proof {
        assert forall|k: int| 0 <= k && k + needle@.len() <= hay@.len() implies #[trigger] hay@.subrange(
            k,
            k + needle@.len(),
        ) != needle@ by {
            assert(k < i);
        }
    }
    false
}

/// Character-for-character string equality, stated over the views.
pub fn str_eq(a: &str, b: &str) -> (r: bool)
    ensures
        r == (a@ == b@),
{
    let na = a.unicode_len();
    let nb = b.unicode_len();
    if na != nb {
        return false;
    }
    let mut i: usize = 0;
    while i < na
        invariant
            na == a@.len(),
            nb == b@.len(),
            na == nb,
            i <= na,
            forall|k: int| 0 <= k < i ==> a@[k] == b@[k],
        decreases na - i,
    {
        if a.get_char(i) != b.get_char(i) {
            return false;
        }
        i = i + 1;
    }
    proof {
        assert(a@ =~= b@);
    }
    true
}

/// The Unicode lowercase of a sequence of characters, as `str::to_lowercase`
/// computes it; it depends on the characters alone.
pub uninterp spec fn lower_of(s: Seq<char>) -> Seq<char>;

/// Relies on `str::to_lowercase` for Unicode-aware case folding, used by the
/// mailbox denylist and by header-field matching.
#[verifier::external_body]
pub fn lowercase(s: &str) -> (r: String)
    ensures
        r@ == lower_of(s@),
{
    s.to_lowercase()
}

} // verus!
