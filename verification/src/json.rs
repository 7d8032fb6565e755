//! The wire-envelope codec.
//!
//! The relay's payloads are JSON texts in two shapes: the Message Envelope
//! `{"user": <string>, "msg": <string>}` and the Error Envelope
//! `{"code": <uint16>, "error": <string>}`. This module states that grammar
//! as specification functions over character sequences and proves the
//! executable parsers and encoders against it.
//!
//! The accepted grammar: an object holding exactly the two required members,
//! in either order, with optional blanks, tabs and line breaks between
//! tokens. String values carry the eight JSON short escapes and `\uXXXX`
//! escapes, surrogate pairs included; an unescaped control character, or a
//! lone surrogate, is refused. The encoders emit the canonical form:
//! members in declaration order, no whitespace, control characters escaped
//! (`\u00XX` where no short escape exists), everything else verbatim.

use vstd::prelude::*;
use vstd::string::StrSliceExecFns;
use crate::messages::ClientMessage;
use crate::messages::ServerErrorMessage;

verus! {

/// Whitespace the grammar allows between tokens.
pub open spec fn is_ws(c: char) -> bool {
    c == ' ' || c == '\t' || c == '\n' || c == '\r'
}

/// `s` with its leading whitespace dropped.
pub open spec fn skip_ws(s: Seq<char>) -> Seq<char>
    decreases s.len(),
{
    if s.len() > 0 && is_ws(s[0]) {
        skip_ws(s.drop_first())
    } else {
        s
    }
}

/// The character a short escape `\c` stands for, if `c` is one of the
/// eight JSON short escapes.
pub open spec fn unescaped(c: char) -> Option<char> {
    if c == '"' {
        Some('"')
    } else if c == '\\' {
        Some('\\')
    } else if c == '/' {
        Some('/')
    } else if c == 'n' {
        Some('\n')
    } else if c == 't' {
        Some('\t')
    } else if c == 'r' {
        Some('\r')
    } else if c == 'b' {
        Some('\u{8}')
    } else if c == 'f' {
        Some('\u{c}')
    } else {
        None
    }
}

/// The value of one hexadecimal digit character, either case.
pub open spec fn hex_val(c: char) -> Option<nat> {
    let u = c as u32;
    if 48 <= u && u <= 57 {
        Some((u - 48) as nat)
    } else if 97 <= u && u <= 102 {
        Some((u - 87) as nat)
    } else if 65 <= u && u <= 70 {
        Some((u - 55) as nat)
    } else {
        None
    }
}

/// The value of four hexadecimal digit characters.
pub open spec fn hex4(a: char, b: char, c: char, d: char) -> Option<nat> {
    match hex_val(a) {
        Some(va) => match hex_val(b) {
            Some(vb) => match hex_val(c) {
                Some(vc) => match hex_val(d) {
                    Some(vd) => Some(((va * 16 + vb) * 16 + vc) * 16 + vd),
                    None => None,
                },
                None => None,
            },
            None => None,
        },
        None => None,
    }
}

/// The character with scalar value `v`.
pub open spec fn char_of(v: int) -> char {
    (v as u32) as char
}

/// Decodes one `\uXXXX` escape at the head of `s` (so `s[0] == '\\'` and
/// `s[1] == 'u'`): the character and how many input characters it spans —
/// six, or twelve for a surrogate pair. A lone surrogate is refused.
pub open spec fn parse_u_escape(s: Seq<char>) -> Option<(char, int)> {
    if s.len() < 6 {
        None
    } else {
        match hex4(s[2], s[3], s[4], s[5]) {
            Some(v) => if v < 0xD800 || v >= 0xE000 {
                Some((char_of(v as int), 6))
            } else if v < 0xDC00 {
                if s.len() >= 12 && s[6] == '\\' && s[7] == 'u' {
                    match hex4(s[8], s[9], s[10], s[11]) {
                        Some(w) => if 0xDC00 <= w && w < 0xE000 {
                            Some((char_of(0x10000 + (v - 0xD800) * 0x400 + (w - 0xDC00)), 12))
                        } else {
                            None
                        },
                        None => None,
                    }
                } else {
                    None
                }
            } else {
                None
            },
            None => None,
        }
    }
}

/// Decodes the body of a JSON string after its opening quote: the decoded
/// characters and what follows the closing quote.
pub open spec fn parse_string_body(s: Seq<char>) -> Option<(Seq<char>, Seq<char>)>
    decreases s.len(),
{
    if s.len() == 0 {
        None
    } else if s[0] == '"' {
        Some((Seq::empty(), s.drop_first()))
    } else if s[0] == '\\' {
        if s.len() < 2 {
            None
        } else if s[1] == 'u' {
            match parse_u_escape(s) {
                Some(e) => match parse_string_body(s.skip(e.1)) {
                    Some(p) => Some((seq![e.0] + p.0, p.1)),
                    None => None,
                },
                None => None,
            }
        } else {
            match unescaped(s[1]) {
                Some(c) => match parse_string_body(s.skip(2)) {
                    Some(p) => Some((seq![c] + p.0, p.1)),
                    None => None,
                },
                None => None,
            }
        }
    } else if (s[0] as u32) < 32 {
        None
    } else {
        match parse_string_body(s.drop_first()) {
            Some(p) => Some((seq![s[0]] + p.0, p.1)),
            None => None,
        }
    }
}

/// Parses a JSON string token after optional whitespace: the decoded value
/// and what follows it.
pub open spec fn parse_string(s: Seq<char>) -> Option<(Seq<char>, Seq<char>)> {
    let t = skip_ws(s);
    if t.len() > 0 && t[0] == '"' {
        parse_string_body(t.drop_first())
    } else {
        None
    }
}

/// Expects the punctuation character `c` after optional whitespace: what
/// follows it.
pub open spec fn parse_symbol(s: Seq<char>, c: char) -> Option<Seq<char>> {
    let t = skip_ws(s);
    if t.len() > 0 && t[0] == c {
        Some(t.drop_first())
    } else {
        None
    }
}

/// Parses one `"key": "value"` member with a string value: key, value, and
/// what follows.
pub open spec fn parse_str_member(s: Seq<char>) -> Option<((Seq<char>, Seq<char>), Seq<char>)> {
    match parse_string(s) {
        Some(k) => match parse_symbol(k.1, ':') {
            Some(r) => match parse_string(r) {
                Some(v) => Some(((k.0, v.0), v.1)),
                None => None,
            },
            None => None,
        },
        None => None,
    }
}

/// Parses a whole JSON object of exactly two string-valued members, with
/// nothing but whitespace after the closing brace.
pub open spec fn parse_two_member_object(s: Seq<char>) -> Option<
    ((Seq<char>, Seq<char>), (Seq<char>, Seq<char>)),
> {
    match parse_symbol(s, '{') {
        Some(r1) => match parse_str_member(r1) {
            Some(m1) => match parse_symbol(m1.1, ',') {
                Some(r2) => match parse_str_member(r2) {
                    Some(m2) => match parse_symbol(m2.1, '}') {
                        Some(r3) => if skip_ws(r3).len() == 0 {
                            Some((m1.0, m2.0))
                        } else {
                            None
                        },
                        None => None,
                    },
                    None => None,
                },
                None => None,
            },
            None => None,
        },
        None => None,
    }
}

/// The Message Envelope a payload denotes, if any: the decoded `user` and
/// `msg` fields of an object holding exactly these two members, in either
/// order.
pub open spec fn spec_parse_client(s: Seq<char>) -> Option<(Seq<char>, Seq<char>)> {
    match parse_two_member_object(s) {
        Some(ms) => {
            let ((k1, v1), (k2, v2)) = ms;
            if k1 == "user"@ && k2 == "msg"@ {
                Some((v1, v2))
            } else if k1 == "msg"@ && k2 == "user"@ {
                Some((v2, v1))
            } else {
                None
            }
        },
        None => None,
    }
}

/// `s.skip(j)` loses its head when one more index is skipped.
proof fn lemma_skip_succ(s: Seq<char>, j: int)
    requires
        0 <= j < s.len(),
    ensures
        s.skip(j).drop_first() == s.skip(j + 1),
        s.skip(j).len() == s.len() - j,
        s.skip(j)[0] == s[j],
{
    assert(s.skip(j).drop_first() =~= s.skip(j + 1));
}

/// Whether `c` is whitespace of the grammar.
fn is_ws_exec(c: char) -> (r: bool)
    ensures
        r == is_ws(c),
{
    c == ' ' || c == '\t' || c == '\n' || c == '\r'
}

/// Index just past the leading whitespace at `i`.
fn skip_ws_exec(s: &Vec<char>, i: usize) -> (j: usize)
    requires
        i <= s@.len(),
    ensures
        i <= j <= s@.len(),
        skip_ws(s@.skip(i as int)) == s@.skip(j as int),
        j < s@.len() ==> !is_ws(s@[j as int]),
{
    let mut j = i;
    while j < s.len() && is_ws_exec(s[j])
        invariant
            i <= j <= s@.len(),
            skip_ws(s@.skip(i as int)) == skip_ws(s@.skip(j as int)),
        decreases s@.len() - j,
    {
        proof {
            lemma_skip_succ(s@, j as int);
        }
        j = j + 1;
    }
    proof {
        if j < s@.len() {
            lemma_skip_succ(s@, j as int);
        }
        assert(skip_ws(s@.skip(j as int)) == s@.skip(j as int));
    }
    j
}

/// The character a short escape stands for, if any.
fn unescaped_exec(c: char) -> (r: Option<char>)
    ensures
        r == unescaped(c),
{
    if c == '"' {
        Some('"')
    } else if c == '\\' {
        Some('\\')
    } else if c == '/' {
        Some('/')
    } else if c == 'n' {
        Some('\n')
    } else if c == 't' {
        Some('\t')
    } else if c == 'r' {
        Some('\r')
    } else if c == 'b' {
        Some('\u{8}')
    } else if c == 'f' {
        Some('\u{c}')
    } else {
        None
    }
}

/// The value of one hexadecimal digit, either case, executably.
fn hex_val_exec(c: char) -> (r: Option<u32>)
    ensures
        r matches Some(v) ==> hex_val(c) == Some(v as nat) && v < 16,
        r is None ==> hex_val(c) is None,
{
    let u = c as u32;
    if 48 <= u && u <= 57 {
        Some(u - 48)
    } else if 97 <= u && u <= 102 {
        Some(u - 87)
    } else if 65 <= u && u <= 70 {
        Some(u - 55)
    } else {
        None
    }
}

/// The value of the four hexadecimal digits at `i`.
fn hex4_exec(s: &Vec<char>, i: usize) -> (r: Option<u32>)
    requires
        i + 4 <= s@.len(),
    ensures
        r matches Some(v) ==> hex4(s@[i as int], s@[i + 1], s@[i + 2], s@[i + 3]) == Some(
            v as nat,
        ) && v <= 0xFFFF,
        r is None ==> hex4(s@[i as int], s@[i + 1], s@[i + 2], s@[i + 3]) is None,
{
    let n = s.len();
    match hex_val_exec(s[i]) {
        Some(va) => match hex_val_exec(s[i + 1]) {
            Some(vb) => match hex_val_exec(s[i + 2]) {
                Some(vc) => match hex_val_exec(s[i + 3]) {
                    Some(vd) => Some(((va * 16 + vb) * 16 + vc) * 16 + vd),
                    None => None,
                },
                None => None,
            },
            None => None,
        },
        None => None,
    }
}

/// Decodes one `\uXXXX` escape whose `\u` stands at `j`: the character and
/// the index just past the escape (or past the full surrogate pair).
fn parse_u_escape_exec(s: &Vec<char>, j: usize) -> (r: Option<(char, usize)>)
    requires
        j + 2 <= s@.len(),
        s@[j as int] == '\\',
        s@[j + 1] == 'u',
    ensures
        r matches Some(p) ==> j + 2 <= p.1 <= s@.len() && parse_u_escape(s@.skip(j as int))
            == Some((p.0, p.1 - j)),
        r is None ==> parse_u_escape(s@.skip(j as int)) is None,
{
    let ghost w = s@.skip(j as int);
    proof {
        assert(forall|k: int| 0 <= k < w.len() ==> #[trigger] w[k] == s@[j + k]);
    }
    if s.len() - j < 6 {
        proof {
            assert(w.len() < 6);
        }
        return None;
    }
    let v = match hex4_exec(s, j + 2) {
        Some(v) => v,
        None => {
            return None;
        },
    };
    if v < 0xD800 || v >= 0xE000 {
        let c2 = match crate::ext::char_from_u32(v) {
            Some(c2) => c2,
            None => {
                proof {
                    assert(false);
                }
                vstd::pervasive::unreached()
            },
        };
        proof {
            assert(char_of(v as int) == c2) by {
                vstd::utf8::char_u32_cast(c2, v);
            }
            assert(parse_u_escape(w) == Some((c2, 6int)));
        }
        Some((c2, j + 6))
    } else if v < 0xDC00 {
        if s.len() - j < 12 {
            proof {
                assert(w.len() < 12);
            }
            return None;
        }
        if !(s[j + 6] == '\\' && s[j + 7] == 'u') {
            return None;
        }
        let v2 = match hex4_exec(s, j + 8) {
            Some(v2) => v2,
            None => {
                return None;
            },
        };
        if !(0xDC00 <= v2 && v2 < 0xE000) {
            return None;
        }
        let cp: u32 = 0x10000 + (v - 0xD800) * 0x400 + (v2 - 0xDC00);
        let c2 = match crate::ext::char_from_u32(cp) {
            Some(c2) => c2,
            None => {
                proof {
                    assert(false);
                }
                vstd::pervasive::unreached()
            },
        };
        proof {
            assert(char_of(0x10000 + (v as int - 0xD800) * 0x400 + (v2 as int - 0xDC00)) == c2)
                by {
                assert((c2 as u32) as int == cp as int);
                vstd::utf8::char_u32_cast(c2, cp);
            }
            assert(parse_u_escape(w) == Some((c2, 12int)));
        }
        Some((c2, j + 12))
    } else {
        return None;
    }
}

/// How far a partial decode has come: what the whole body parse yields is
/// what the remaining parse yields, with `acc` already decoded in front.
spec fn body_ctx(whole: Seq<char>, acc: Seq<char>, rest: Seq<char>) -> bool {
    parse_string_body(whole) == match parse_string_body(rest) {
        Some(p) => Some((acc + p.0, p.1)),
        None => None,
    }
}

/// Decodes a JSON string body starting at `i`, just after the opening
/// quote: the decoded characters and the index after the closing quote.
fn parse_string_body_exec(s: &Vec<char>, i: usize) -> (r: Option<(Vec<char>, usize)>)
    requires
        i <= s@.len(),
    ensures
        r matches Some(p) ==> i <= p.1 <= s@.len() && parse_string_body(s@.skip(i as int))
            == Some((p.0@, s@.skip(p.1 as int))),
        r is None ==> parse_string_body(s@.skip(i as int)) is None,
{
    let mut out: Vec<char> = Vec::new();
    let mut j = i;
    loop
        invariant
            i <= j <= s@.len(),
            body_ctx(s@.skip(i as int), out@, s@.skip(j as int)),
        decreases s@.len() - j,
    {
        if j >= s.len() {
            proof {
                assert(s@.skip(j as int).len() == 0);
            }
            return None;
        }
        let c = s[j];
        proof {
            lemma_skip_succ(s@, j as int);
        }
        if c == '"' {
            proof {
                assert(parse_string_body(s@.skip(j as int)) == Some(
                    (Seq::<char>::empty(), s@.skip(j + 1)),
                ));
                assert(out@ + Seq::<char>::empty() =~= out@);
            }
            return Some((out, j + 1));
        } else if c == '\\' {
            if j + 1 >= s.len() {
                proof {
                    assert(s@.skip(j as int).len() < 2);
                }
                return None;
            }
            let e = s[j + 1];
            let ghost w = s@.skip(j as int);
            proof {
                assert(w[1] == s@[j + 1]);
            }
            if e == 'u' {
                match parse_u_escape_exec(s, j) {
                    Some((c2, j2)) => {
                        let ghost out_old = out@;
                        out.push(c2);
                        proof {
                            assert(w.skip(j2 - j) =~= s@.skip(j2 as int));
                            match parse_string_body(s@.skip(j2 as int)) {
                                Some(p) => {
                                    assert(out_old + (seq![c2] + p.0) =~= out_old.push(c2) + p.0);
                                },
                                None => {},
                            }
                        }
                        j = j2;
                    },
                    None => {
                        return None;
                    },
                }
            } else {
                match unescaped_exec(e) {
                    Some(c2) => {
                        let ghost out_old = out@;
                        out.push(c2);
                        proof {
                            assert(w.skip(2) =~= s@.skip(j + 2));
                            match parse_string_body(s@.skip(j + 2)) {
                                Some(p) => {
                                    assert(out_old + (seq![c2] + p.0) =~= out_old.push(c2) + p.0);
                                },
                                None => {},
                            }
                        }
                        j = j + 2;
                    },
                    None => {
                        return None;
                    },
                }
            }
        } else if (c as u32) < 32 {
            return None;
        } else {
            let ghost out_old = out@;
            out.push(c);
            proof {
                match parse_string_body(s@.skip(j + 1)) {
                    Some(p) => {
                        assert(out_old + (seq![c] + p.0) =~= out_old.push(c) + p.0);
                    },
                    None => {},
                }
            }
            j = j + 1;
        }
    }
}

/// Parses a string token at `i`: the decoded value and the index after it.
fn parse_string_exec(s: &Vec<char>, i: usize) -> (r: Option<(Vec<char>, usize)>)
    requires
        i <= s@.len(),
    ensures
        r matches Some(p) ==> i <= p.1 <= s@.len() && parse_string(s@.skip(i as int)) == Some(
            (p.0@, s@.skip(p.1 as int)),
        ),
        r is None ==> parse_string(s@.skip(i as int)) is None,
{
    let t = skip_ws_exec(s, i);
    if t < s.len() && s[t] == '"' {
        proof {
            lemma_skip_succ(s@, t as int);
        }
        parse_string_body_exec(s, t + 1)
    } else {
        proof {
            if t < s@.len() {
                lemma_skip_succ(s@, t as int);
            }
        }
        None
    }
}

/// Expects `c` at `i` after optional whitespace: the index after it.
fn parse_symbol_exec(s: &Vec<char>, i: usize, c: char) -> (r: Option<usize>)
    requires
        i <= s@.len(),
    ensures
        r matches Some(j) ==> i <= j <= s@.len() && parse_symbol(s@.skip(i as int), c) == Some(
            s@.skip(j as int),
        ),
        r is None ==> parse_symbol(s@.skip(i as int), c) is None,
{
    let t = skip_ws_exec(s, i);
    if t < s.len() && s[t] == c {
        proof {
            lemma_skip_succ(s@, t as int);
        }
        Some(t + 1)
    } else {
        proof {
            if t < s@.len() {
                lemma_skip_succ(s@, t as int);
            }
        }
        None
    }
}

/// Parses one string-valued member at `i`: key, value, index after.
fn parse_str_member_exec(s: &Vec<char>, i: usize) -> (r: Option<(Vec<char>, Vec<char>, usize)>)
    requires
        i <= s@.len(),
    ensures
        r matches Some(p) ==> i <= p.2 <= s@.len() && parse_str_member(s@.skip(i as int)) == Some(
            ((p.0@, p.1@), s@.skip(p.2 as int)),
        ),
        r is None ==> parse_str_member(s@.skip(i as int)) is None,
{
    match parse_string_exec(s, i) {
        Some((key, r1)) => match parse_symbol_exec(s, r1, ':') {
            Some(r2) => match parse_string_exec(s, r2) {
                Some((value, r3)) => Some((key, value, r3)),
                None => None,
            },
            None => None,
        },
        None => None,
    }
}

/// The characters of `text`, in order.
pub fn str_to_chars(text: &str) -> (r: Vec<char>)
    ensures
        r@ == text@,
{
    let n = text.unicode_len();
    let mut r: Vec<char> = Vec::new();
    let mut i: usize = 0;
    while i < n
        invariant
            n == text@.len(),
            i <= n,
            r@ == text@.take(i as int),
        decreases n - i,
    {
        let c = text.get_char(i);
        r.push(c);
        proof {
            assert(r@ =~= text@.take(i + 1));
        }
        i = i + 1;
    }
    proof {
        assert(text@.take(n as int) =~= text@);
    }
    r
}

/// Whether the decoded characters `v` are exactly the literal `lit`.
fn chars_match_lit(v: &Vec<char>, lit: &str) -> (r: bool)
    ensures
        r == (v@ == lit@),
{
    let n = lit.unicode_len();
    if v.len() != n {
        proof {
            assert(v@.len() != lit@.len());
        }
        return false;
    }
    let mut i: usize = 0;
    while i < n
        invariant
            n == lit@.len(),
            v@.len() == n,
            i <= n,
            forall|k: int| 0 <= k < i ==> v@[k] == lit@[k],
        decreases n - i,
    {
        if v[i] != lit.get_char(i) {
            return false;
        }
        i = i + 1;
    }
    proof {
        assert(v@ =~= lit@);
    }
    true
}

/// Parses a payload as a Message Envelope.
///
/// Returns the envelope exactly when the payload is in the envelope
/// grammar, with both fields decoded.
pub fn parse_client_message(text: &str) -> (r: Option<ClientMessage>)
    ensures
        r matches Some(m) ==> spec_parse_client(text@) == Some((m.user@, m.msg@)),
        r is None ==> spec_parse_client(text@) is None,
{
    let s = str_to_chars(text);
    proof {
        assert(s@.skip(0) =~= text@);
    }
    match parse_symbol_exec(&s, 0, '{') {
        Some(r1) => match parse_str_member_exec(&s, r1) {
            Some((k1, v1, r2)) => match parse_symbol_exec(&s, r2, ',') {
                Some(r3) => match parse_str_member_exec(&s, r3) {
                    Some((k2, v2, r4)) => match parse_symbol_exec(&s, r4, '}') {
                        Some(r5) => {
                            let end = skip_ws_exec(&s, r5);
                            if end < s.len() {
                                proof {
                                    assert(skip_ws(s@.skip(r5 as int)).len() > 0);
                                }
                                None
                            } else {
                                proof {
                                    assert(skip_ws(s@.skip(r5 as int)).len() == 0);
                                }
                                if chars_match_lit(&k1, "user") && chars_match_lit(&k2, "msg") {
                                    Some(
                                        ClientMessage {
                                            user: crate::ext::string_from_chars(&v1),
                                            msg: crate::ext::string_from_chars(&v2),
                                        },
                                    )
                                } else if chars_match_lit(&k1, "msg") && chars_match_lit(
                                    &k2,
                                    "user",
                                ) {
                                    Some(
                                        ClientMessage {
                                            user: crate::ext::string_from_chars(&v2),
                                            msg: crate::ext::string_from_chars(&v1),
                                        },
                                    )
                                } else {
                                    None
                                }
                            }
                        },
                        None => None,
                    },
                    None => None,
                },
                None => None,
            },
            None => None,
        },
        None => None,
    }
}

/// Whether `c` is a decimal digit.
pub open spec fn is_digit(c: char) -> bool {
    48 <= (c as u32) && (c as u32) <= 57
}

/// The value of one digit character.
pub open spec fn digit_val(c: char) -> nat {
    ((c as u32) - 48) as nat
}

/// Splits a maximal run of decimal digits off the front of `s`.
pub open spec fn split_digits(s: Seq<char>) -> (Seq<char>, Seq<char>)
    decreases s.len(),
{
    if s.len() > 0 && is_digit(s[0]) {
        let p = split_digits(s.drop_first());
        (seq![s[0]] + p.0, p.1)
    } else {
        (Seq::empty(), s)
    }
}

/// The number a run of digits denotes.
pub open spec fn digits_val(s: Seq<char>) -> nat
    decreases s.len(),
{
    if s.len() == 0 {
        0
    } else {
        digits_val(s.drop_last()) * 10 + digit_val(s.last())
    }
}

/// Parses a JSON unsigned integer after optional whitespace: its value and
/// what follows. A leading zero is not JSON, except for zero itself.
pub open spec fn parse_number(s: Seq<char>) -> Option<(nat, Seq<char>)> {
    let t = skip_ws(s);
    let p = split_digits(t);
    if p.0.len() == 0 {
        None
    } else if p.0.len() > 1 && p.0[0] == '0' {
        None
    } else {
        Some((digits_val(p.0), p.1))
    }
}

/// Parses one `"key": <number>` member: key, value, and what follows.
pub open spec fn parse_num_member(s: Seq<char>) -> Option<((Seq<char>, nat), Seq<char>)> {
    match parse_string(s) {
        Some(k) => match parse_symbol(k.1, ':') {
            Some(r) => match parse_number(r) {
                Some(v) => Some(((k.0, v.0), v.1)),
                None => None,
            },
            None => None,
        },
        None => None,
    }
}

/// Finishes an Error Envelope whose first member carried `code`.
pub open spec fn parse_error_after_code(s: Seq<char>, code: nat) -> Option<(u16, Seq<char>)> {
    match parse_symbol(s, ',') {
        Some(r) => match parse_str_member(r) {
            Some(m) => if m.0.0 == "error"@ {
                match parse_symbol(m.1, '}') {
                    Some(r2) => if skip_ws(r2).len() == 0 && code <= 65535 {
                        Some((code as u16, m.0.1))
                    } else {
                        None
                    },
                    None => None,
                }
            } else {
                None
            },
            None => None,
        },
        None => None,
    }
}

/// Finishes an Error Envelope whose first member carried `error`.
pub open spec fn parse_error_after_text(s: Seq<char>, error: Seq<char>) -> Option<
    (u16, Seq<char>),
> {
    match parse_symbol(s, ',') {
        Some(r) => match parse_num_member(r) {
            Some(m) => if m.0.0 == "code"@ {
                match parse_symbol(m.1, '}') {
                    Some(r2) => if skip_ws(r2).len() == 0 && m.0.1 <= 65535 {
                        Some((m.0.1 as u16, error))
                    } else {
                        None
                    },
                    None => None,
                }
            } else {
                None
            },
            None => None,
        },
        None => None,
    }
}

/// The Error Envelope a payload denotes, if any: the `code` and `error`
/// fields of an object holding exactly these two members, in either order,
/// the code an integer below 2^16.
pub open spec fn spec_parse_error(s: Seq<char>) -> Option<(u16, Seq<char>)> {
    match parse_symbol(s, '{') {
        Some(r1) => match parse_num_member(r1) {
            Some(m) => if m.0.0 == "code"@ {
                parse_error_after_code(m.1, m.0.1)
            } else {
                None
            },
            None => match parse_str_member(r1) {
                Some(m) => if m.0.0 == "error"@ {
                    parse_error_after_text(m.1, m.0.1)
                } else {
                    None
                },
                None => None,
            },
        },
        None => None,
    }
}

/// A maximal digit run in place: `split_digits` cuts exactly at the first
/// non-digit.
proof fn lemma_split_digits_run(s: Seq<char>, j: int, k: int)
    requires
        0 <= j <= k <= s.len(),
        forall|m: int| j <= m < k ==> is_digit(#[trigger] s[m]),
        k == s.len() || !is_digit(s[k]),
    ensures
        split_digits(s.skip(j)) == (s.subrange(j, k), s.skip(k)),
    decreases k - j,
{
    if j == k {
        if j < s.len() {
            assert(s.skip(j)[0] == s[j]);
        }
        assert(s.subrange(j, j) =~= Seq::<char>::empty());
    } else {
        assert(s.skip(j)[0] == s[j]);
        assert(s.skip(j).len() > 0);
        lemma_skip_succ(s, j);
        lemma_split_digits_run(s, j + 1, k);
        assert(seq![s[j]] + s.subrange(j + 1, k) =~= s.subrange(j, k));
    }
}

/// Whether `c` is a decimal digit, executably.
fn is_digit_exec(c: char) -> (r: bool)
    ensures
        r == is_digit(c),
{
    let u = c as u32;
    48 <= u && u <= 57
}

/// Parses a number token at `i`: the index after it, and its value when it
/// fits a `u16` (`None` marks one that is too large).
fn parse_number_exec(s: &Vec<char>, i: usize) -> (r: Option<(Option<u16>, usize)>)
    requires
        i <= s@.len(),
    ensures
        r matches Some(p) ==> i <= p.1 <= s@.len() && (parse_number(s@.skip(i as int))
            matches Some(q) && q.1 == s@.skip(p.1 as int) && (p.0 matches Some(v) ==> q.0
            == v as nat) && (p.0 is None ==> q.0 > 65535)),
        r is None ==> parse_number(s@.skip(i as int)) is None,
{
    let t = skip_ws_exec(s, i);
    let mut k = t;
    while k < s.len() && is_digit_exec(s[k])
        invariant
            t <= k <= s@.len(),
            forall|m: int| t <= m < k ==> is_digit(#[trigger] s@[m]),
        decreases s@.len() - k,
    {
        k = k + 1;
    }
    proof {
        lemma_split_digits_run(s@, t as int, k as int);
    }
    if k == t {
        return None;
    }
    if k > t + 1 && s[t] == '0' {
        proof {
            assert(s@.subrange(t as int, k as int)[0] == s@[t as int]);
        }
        return None;
    }
    let ghost run = s@.subrange(t as int, k as int);
    let mut acc: u32 = 0;
    let mut j = t;
    while j < k
        invariant
            t <= j <= k <= s@.len(),
            forall|m: int| t <= m < k ==> is_digit(#[trigger] s@[m]),
            acc <= 70000,
            acc < 70000 ==> acc as nat == digits_val(s@.subrange(t as int, j as int)),
            acc == 70000 ==> digits_val(s@.subrange(t as int, j as int)) >= 70000,
        decreases k - j,
    {
        let c = s[j];
        let d: u32 = (c as u32) - 48;
        let next: u32 = acc * 10 + d;
        proof {
            assert(s@.subrange(t as int, j + 1).drop_last() =~= s@.subrange(t as int, j as int));
            assert(s@.subrange(t as int, j + 1).last() == s@[j as int]);
            assert(digits_val(s@.subrange(t as int, j + 1)) == digits_val(
                s@.subrange(t as int, j as int),
            ) * 10 + digit_val(s@[j as int]));
        }
        if next >= 70000 {
            acc = 70000;
        } else {
            acc = next;
        }
        j = j + 1;
    }
    proof {
        assert(s@.subrange(t as int, j as int) == run);
    }
    if acc > 65535 {
        Some((None, k))
    } else {
        Some((Some(acc as u16), k))
    }
}

/// Parses one number-valued member at `i`: key, value, index after.
fn parse_num_member_exec(s: &Vec<char>, i: usize) -> (r: Option<(Vec<char>, Option<u16>, usize)>)
    requires
        i <= s@.len(),
    ensures
        r matches Some(p) ==> i <= p.2 <= s@.len() && (parse_num_member(s@.skip(i as int))
            matches Some(m) && m.1 == s@.skip(p.2 as int) && m.0.0 == p.0@ && (p.1 matches Some(v)
            ==> m.0.1 == v as nat) && (p.1 is None ==> m.0.1 > 65535)),
        r is None ==> parse_num_member(s@.skip(i as int)) is None,
{
    match parse_string_exec(s, i) {
        Some((key, r1)) => match parse_symbol_exec(s, r1, ':') {
            Some(r2) => match parse_number_exec(s, r2) {
                Some((v, r3)) => Some((key, v, r3)),
                None => None,
            },
            None => None,
        },
        None => None,
    }
}

/// Parses a payload as an Error Envelope.
///
/// Returns the envelope exactly when the payload is in the Error Envelope
/// grammar, with the description decoded.
pub fn parse_error_message(text: &str) -> (r: Option<ServerErrorMessage>)
    ensures
        r matches Some(m) ==> spec_parse_error(text@) == Some((m.code, m.error@)),
        r is None ==> spec_parse_error(text@) is None,
{
    let s = str_to_chars(text);
    proof {
        assert(s@.skip(0) =~= text@);
    }
    let r1 = match parse_symbol_exec(&s, 0, '{') {
        Some(r1) => r1,
        None => {
            return None;
        },
    };
    match parse_num_member_exec(&s, r1) {
        Some((k1, v1, r2)) => {
            if !chars_match_lit(&k1, "code") {
                return None;
            }
            let code = match v1 {
                Some(c) => c,
                None => {
                    return None;
                },
            };
            let r3 = match parse_symbol_exec(&s, r2, ',') {
                Some(r3) => r3,
                None => {
                    return None;
                },
            };
            match parse_str_member_exec(&s, r3) {
                Some((k2, v2, r4)) => {
                    if !chars_match_lit(&k2, "error") {
                        return None;
                    }
                    match parse_symbol_exec(&s, r4, '}') {
                        Some(r5) => {
                            let end = skip_ws_exec(&s, r5);
                            if end < s.len() {
                                proof {
                                    assert(skip_ws(s@.skip(r5 as int)).len() > 0);
                                }
                                None
                            } else {
                                proof {
                                    assert(skip_ws(s@.skip(r5 as int)).len() == 0);
                                }
                                Some(
                                    ServerErrorMessage {
                                        code,
                                        error: crate::ext::string_from_chars(&v2),
                                    },
                                )
                            }
                        },
                        None => None,
                    }
                },
                None => None,
            }
        },
        None => {
            match parse_str_member_exec(&s, r1) {
                Some((k1, v1, r2)) => {
                    if !chars_match_lit(&k1, "error") {
                        return None;
                    }
                    let r3 = match parse_symbol_exec(&s, r2, ',') {
                        Some(r3) => r3,
                        None => {
                            return None;
                        },
                    };
                    match parse_num_member_exec(&s, r3) {
                        Some((k2, v2, r4)) => {
                            if !chars_match_lit(&k2, "code") {
                                return None;
                            }
                            let code = match v2 {
                                Some(c) => c,
                                None => {
                                    return None;
                                },
                            };
                            match parse_symbol_exec(&s, r4, '}') {
                                Some(r5) => {
                                    let end = skip_ws_exec(&s, r5);
                                    if end < s.len() {
                                        proof {
                                            assert(skip_ws(s@.skip(r5 as int)).len() > 0);
                                        }
                                        None
                                    } else {
                                        proof {
                                            assert(skip_ws(s@.skip(r5 as int)).len() == 0);
                                        }
                                        Some(
                                            ServerErrorMessage {
                                                code,
                                                error: crate::ext::string_from_chars(&v1),
                                            },
                                        )
                                    }
                                },
                                None => None,
                            }
                        },
                        None => None,
                    }
                },
                None => None,
            }
        },
    }
}

/// The lowercase hexadecimal digit character for `d`.
pub open spec fn hex_digit(d: nat) -> char {
    if d == 0 {
        '0'
    } else if d == 1 {
        '1'
    } else if d == 2 {
        '2'
    } else if d == 3 {
        '3'
    } else if d == 4 {
        '4'
    } else if d == 5 {
        '5'
    } else if d == 6 {
        '6'
    } else if d == 7 {
        '7'
    } else if d == 8 {
        '8'
    } else if d == 9 {
        '9'
    } else if d == 10 {
        'a'
    } else if d == 11 {
        'b'
    } else if d == 12 {
        'c'
    } else if d == 13 {
        'd'
    } else if d == 14 {
        'e'
    } else {
        'f'
    }
}

/// The escaped form of one character inside a string value: the named
/// short escapes, `\u00XX` for the remaining control characters, the
/// character itself otherwise.
pub open spec fn escape_char(c: char) -> Seq<char> {
    if c == '"' {
        seq!['\\', '"']
    } else if c == '\\' {
        seq!['\\', '\\']
    } else if c == '\u{8}' {
        seq!['\\', 'b']
    } else if c == '\t' {
        seq!['\\', 't']
    } else if c == '\n' {
        seq!['\\', 'n']
    } else if c == '\u{c}' {
        seq!['\\', 'f']
    } else if c == '\r' {
        seq!['\\', 'r']
    } else if (c as u32) < 32 {
        seq!['\\', 'u', '0', '0', hex_digit(((c as u32) / 16) as nat), hex_digit(
            ((c as u32) % 16) as nat,
        )]
    } else {
        seq![c]
    }
}

/// The escaped form of a whole string value.
pub open spec fn escape_seq(s: Seq<char>) -> Seq<char>
    decreases s.len(),
{
    if s.len() == 0 {
        Seq::empty()
    } else {
        escape_char(s[0]) + escape_seq(s.drop_first())
    }
}

/// Escaping distributes over concatenation.
proof fn lemma_escape_seq_append(a: Seq<char>, b: Seq<char>)
    ensures
        escape_seq(a + b) == escape_seq(a) + escape_seq(b),
    decreases a.len(),
{
    if a.len() == 0 {
        assert(a + b =~= b);
        assert(Seq::<char>::empty() + escape_seq(b) =~= escape_seq(b));
    } else {
        assert((a + b).drop_first() =~= a.drop_first() + b);
        assert((a + b)[0] == a[0]);
        lemma_escape_seq_append(a.drop_first(), b);
        assert(escape_char(a[0]) + (escape_seq(a.drop_first()) + escape_seq(b)) =~= (escape_char(
            a[0],
        ) + escape_seq(a.drop_first())) + escape_seq(b));
    }
}

/// Escaping one character is its escaped form.
proof fn lemma_escape_one(c: char)
    ensures
        escape_seq(seq![c]) == escape_char(c),
{
    assert(seq![c].len() == 1);
    assert(seq![c][0] == c);
    assert(seq![c].drop_first() =~= Seq::<char>::empty());
    assert(escape_seq(Seq::<char>::empty()) == Seq::<char>::empty());
    assert(escape_seq(seq![c]) == escape_char(c) + escape_seq(seq![c].drop_first()));
    assert(escape_char(c) + Seq::<char>::empty() =~= escape_char(c));
}

/// The lowercase hexadecimal digit character for `d`, executably.
fn hex_digit_exec(d: u32) -> (c: char)
    requires
        d < 16,
    ensures
        c == hex_digit(d as nat),
{
    if d == 0 {
        '0'
    } else if d == 1 {
        '1'
    } else if d == 2 {
        '2'
    } else if d == 3 {
        '3'
    } else if d == 4 {
        '4'
    } else if d == 5 {
        '5'
    } else if d == 6 {
        '6'
    } else if d == 7 {
        '7'
    } else if d == 8 {
        '8'
    } else if d == 9 {
        '9'
    } else if d == 10 {
        'a'
    } else if d == 11 {
        'b'
    } else if d == 12 {
        'c'
    } else if d == 13 {
        'd'
    } else if d == 14 {
        'e'
    } else {
        'f'
    }
}

/// Appends the escaped form of `v` to `out`.
fn push_escaped(out: &mut Vec<char>, v: &Vec<char>)
    ensures
        final(out)@ == old(out)@ + escape_seq(v@),
{
    let ghost base = out@;
    let mut k: usize = 0;
    while k < v.len()
        invariant
            k <= v@.len(),
            out@ == base + escape_seq(v@.take(k as int)),
        decreases v@.len() - k,
    {
        let c = v[k];
        let ghost done = v@.take(k as int);
        proof {
            assert(v@.take(k + 1) =~= done + seq![c]);
            lemma_escape_seq_append(done, seq![c]);
            lemma_escape_one(c);
        }
        if c == '"' {
            out.push('\\');
            out.push('"');
        } else if c == '\\' {
            out.push('\\');
            out.push('\\');
        } else if c == '\u{8}' {
            out.push('\\');
            out.push('b');
        } else if c == '\t' {
            out.push('\\');
            out.push('t');
        } else if c == '\n' {
            out.push('\\');
            out.push('n');
        } else if c == '\u{c}' {
            out.push('\\');
            out.push('f');
        } else if c == '\r' {
            out.push('\\');
            out.push('r');
        } else if (c as u32) < 32 {
            let u = c as u32;
            out.push('\\');
            out.push('u');
            out.push('0');
            out.push('0');
            out.push(hex_digit_exec(u / 16));
            out.push(hex_digit_exec(u % 16));
        } else {
            out.push(c);
        }
        proof {
            assert(out@ =~= base + escape_seq(v@.take(k + 1)));
        }
        k = k + 1;
    }
    proof {
        assert(v@.take(k as int) =~= v@);
    }
}

/// The decimal digit character for `d`.
pub open spec fn digit_char(d: nat) -> char {
    if d == 0 {
        '0'
    } else if d == 1 {
        '1'
    } else if d == 2 {
        '2'
    } else if d == 3 {
        '3'
    } else if d == 4 {
        '4'
    } else if d == 5 {
        '5'
    } else if d == 6 {
        '6'
    } else if d == 7 {
        '7'
    } else if d == 8 {
        '8'
    } else {
        '9'
    }
}

/// The decimal digits of `n`, most significant first, without a leading
/// zero (zero itself is a single `'0'`).
pub open spec fn dec_digits(n: nat) -> Seq<char>
    decreases n,
{
    if n < 10 {
        seq![digit_char(n)]
    } else {
        dec_digits(n / 10).push(digit_char(n % 10))
    }
}

/// The decimal digit character for `d`, executably.
fn digit_char_exec(d: u16) -> (c: char)
    requires
        d < 10,
    ensures
        c == digit_char(d as nat),
{
    if d == 0 {
        '0'
    } else if d == 1 {
        '1'
    } else if d == 2 {
        '2'
    } else if d == 3 {
        '3'
    } else if d == 4 {
        '4'
    } else if d == 5 {
        '5'
    } else if d == 6 {
        '6'
    } else if d == 7 {
        '7'
    } else if d == 8 {
        '8'
    } else {
        '9'
    }
}

/// Appends the decimal digits of `n` to `out`.
fn push_digits(out: &mut Vec<char>, n: u16)
    ensures
        final(out)@ == old(out)@ + dec_digits(n as nat),
    decreases n,
{
    if n < 10 {
        out.push(digit_char_exec(n));
        proof {
            assert(final(out)@ =~= old(out)@ + dec_digits(n as nat));
        }
    } else {
        push_digits(out, n / 10);
        out.push(digit_char_exec(n % 10));
        proof {
            assert((n / 10) as nat == (n as nat) / 10);
            assert((n % 10) as nat == (n as nat) % 10);
            assert(final(out)@ =~= old(out)@ + dec_digits(n as nat));
        }
    }
}

/// Appends every character of `lit` to `out`.
fn push_str_chars(out: &mut Vec<char>, lit: &str)
    ensures
        final(out)@ == old(out)@ + lit@,
{
    let mut cs = str_to_chars(lit);
    out.append(&mut cs);
}

/// The canonical payload of a Message Envelope: members in declaration
/// order, no whitespace, fields escaped.
pub open spec fn spec_client_json(user: Seq<char>, msg: Seq<char>) -> Seq<char> {
    "{\"user\":\""@ + escape_seq(user) + "\",\"msg\":\""@ + escape_seq(msg) + "\"}"@
}

/// The canonical payload of an Error Envelope.
pub open spec fn spec_error_json(code: u16, error: Seq<char>) -> Seq<char> {
    "{\"code\":"@ + dec_digits(code as nat) + ",\"error\":\""@ + escape_seq(error) + "\"}"@
}

/// Encodes a Message Envelope as its canonical payload.
pub fn client_message_json(m: &ClientMessage) -> (r: String)
    ensures
        r@ == spec_client_json(m.user@, m.msg@),
{
    let user_chars = str_to_chars(m.user.as_str());
    let msg_chars = str_to_chars(m.msg.as_str());
    let mut out: Vec<char> = Vec::new();
    push_str_chars(&mut out, "{\"user\":\"");
    push_escaped(&mut out, &user_chars);
    push_str_chars(&mut out, "\",\"msg\":\"");
    push_escaped(&mut out, &msg_chars);
    push_str_chars(&mut out, "\"}");
    proof {
        assert(Seq::<char>::empty() + "{\"user\":\""@ =~= "{\"user\":\""@);
    }
    crate::ext::string_from_chars(&out)
}

/// Encodes an Error Envelope as its canonical payload.
pub fn error_message_json(m: &ServerErrorMessage) -> (r: String)
    ensures
        r@ == spec_error_json(m.code, m.error@),
{
    let error_chars = str_to_chars(m.error.as_str());
    let mut out: Vec<char> = Vec::new();
    push_str_chars(&mut out, "{\"code\":");
    push_digits(&mut out, m.code);
    push_str_chars(&mut out, ",\"error\":\"");
    push_escaped(&mut out, &error_chars);
    push_str_chars(&mut out, "\"}");
    proof {
        assert(Seq::<char>::empty() + "{\"code\":"@ =~= "{\"code\":"@);
    }
    crate::ext::string_from_chars(&out)
}

/// Characters that escape to themselves escape to themselves in sequence.
proof fn lemma_escape_plain(v: Seq<char>)
    requires
        forall|i: int| 0 <= i < v.len() ==> escape_char(#[trigger] v[i]) == seq![v[i]],
    ensures
        escape_seq(v) == v,
    decreases v.len(),
{
    if v.len() == 0 {
    } else {
        lemma_escape_plain(v.drop_first());
        assert(escape_seq(v) == escape_char(v[0]) + escape_seq(v.drop_first()));
        assert(seq![v[0]] + v.drop_first() =~= v);
    }
}

/// Hexadecimal digits decode back to their value.
proof fn lemma_hex_digit_val(d: nat)
    requires
        d < 16,
    ensures
        hex_val(hex_digit(d)) == Some(d),
{
}

/// The `\u00XX` escape of a control character decodes back to it.
proof fn lemma_parse_u_control(c: char, tail: Seq<char>)
    requires
        (c as u32) < 32,
        c != '\u{8}',
        c != '\t',
        c != '\n',
        c != '\u{c}',
        c != '\r',
    ensures
        escape_char(c).len() == 6,
        escape_char(c)[0] == '\\',
        escape_char(c)[1] == 'u',
        parse_u_escape(escape_char(c) + tail) == Some((c, 6int)),
{
    let u = (c as u32) as int;
    let e = escape_char(c);
    let w = e + tail;
    assert(e == seq!['\\', 'u', '0', '0', hex_digit((u / 16) as nat), hex_digit(
        (u % 16) as nat,
    )]);
    assert(w.len() >= 6);
    assert(w[2] == '0' && w[3] == '0');
    assert(w[4] == hex_digit((u / 16) as nat) && w[5] == hex_digit((u % 16) as nat));
    assert(hex_val('0') == Some(0nat));
    lemma_hex_digit_val((u / 16) as nat);
    lemma_hex_digit_val((u % 16) as nat);
    vstd::arithmetic::div_mod::lemma_fundamental_div_mod(u, 16);
    assert(hex4(w[2], w[3], w[4], w[5]) == Some((c as u32) as nat));
    assert(char_of(u) == c) by {
        assert((c as u32) as int == u);
        vstd::utf8::char_u32_cast(c, c as u32);
    }
    assert(parse_u_escape(w) == Some((c, 6int)));
}

/// A string body made of an escaped value and its closing quote decodes
/// back to the value, whatever follows.
#[verifier::rlimit(100)]
#[verifier::spinoff_prover]
proof fn lemma_parse_escaped(v: Seq<char>, rest: Seq<char>)
    ensures
        parse_string_body(escape_seq(v) + seq!['"'] + rest) == Some((v, rest)),
    decreases v.len(),
{
    let w = escape_seq(v) + seq!['"'] + rest;
    if v.len() == 0 {
        assert(escape_seq(v) == Seq::<char>::empty());
        assert(w =~= seq!['"'] + rest);
        assert(w[0] == '"');
        assert(w.drop_first() =~= rest);
    } else {
        let c = v[0];
        let v2 = v.drop_first();
        lemma_parse_escaped(v2, rest);
        let w2 = escape_seq(v2) + seq!['"'] + rest;
        assert(escape_seq(v) == escape_char(c) + escape_seq(v2));
        assert(seq![c] + v2 =~= v);
        if c == '"' || c == '\\' || c == '\u{8}' || c == '\t' || c == '\n' || c == '\u{c}' || c
            == '\r' {
            let e = escape_char(c);
            assert(e.len() == 2 && e[0] == '\\');
            assert(w =~= seq!['\\', e[1]] + w2);
            assert(w[0] == '\\' && w[1] == e[1]);
            assert(e[1] != 'u');
            assert(unescaped(e[1]) == Some(c));
            assert(w.skip(2) =~= w2);
        } else if (c as u32) < 32 {
            lemma_parse_u_control(c, escape_seq(v2) + seq!['"'] + rest);
            let e = escape_char(c);
            assert(w =~= e + w2);
            assert(w[0] == '\\' && w[1] == 'u');
            assert(parse_u_escape(w) == Some((c, 6int)));
            assert(w.skip(6) =~= w2);
        } else {
            assert(escape_char(c) == seq![c]);
            assert(w =~= seq![c] + w2);
            assert(w[0] == c);
            assert((c as u32) >= 32);
            assert(w.drop_first() =~= w2);
        }
    }
}

/// A canonical `"key":"value"` member parses back to its key and value,
/// whatever follows.
#[verifier::rlimit(100)]
#[verifier::spinoff_prover]
proof fn lemma_parse_canonical_member(key: Seq<char>, v: Seq<char>, rest: Seq<char>)
    requires
        key.len() > 0,
        forall|i: int| 0 <= i < key.len() ==> escape_char(#[trigger] key[i]) == seq![key[i]],
    ensures
        parse_str_member(
            seq!['"'] + key + seq!['"', ':', '"'] + escape_seq(v) + seq!['"'] + rest,
        ) == Some(((key, v), rest)),
{
    let s = seq!['"'] + key + seq!['"', ':', '"'] + escape_seq(v) + seq!['"'] + rest;
    assert(s[0] == '"');
    assert(!is_ws('"'));
    assert(skip_ws(s) == s);
    let key_rest = seq![':'] + (seq!['"'] + (escape_seq(v) + (seq!['"'] + rest)));
    lemma_escape_plain(key);
    lemma_parse_escaped(key, key_rest);
    assert(s.drop_first() =~= escape_seq(key) + seq!['"'] + key_rest);
    assert(parse_string(s) == Some((key, key_rest)));
    assert(key_rest[0] == ':');
    assert(!is_ws(':'));
    assert(skip_ws(key_rest) == key_rest);
    let val_str = key_rest.drop_first();
    assert(val_str =~= seq!['"'] + (escape_seq(v) + (seq!['"'] + rest)));
    assert(val_str[0] == '"');
    assert(skip_ws(val_str) == val_str);
    lemma_parse_escaped(v, rest);
    assert(val_str.drop_first() =~= escape_seq(v) + seq!['"'] + rest);
    assert(parse_string(val_str) == Some((v, rest)));
}

/// The canonical digits of `n` are digits, start without a zero unless
/// they are zero itself, and denote `n`.
proof fn lemma_dec_digits(n: nat)
    ensures
        dec_digits(n).len() >= 1,
        forall|i: int| 0 <= i < dec_digits(n).len() ==> is_digit(#[trigger] dec_digits(n)[i]),
        digits_val(dec_digits(n)) == n,
        n > 0 ==> dec_digits(n)[0] != '0',
        n == 0 ==> dec_digits(n).len() == 1,
    decreases n,
{
    if n < 10 {
        assert(seq![digit_char(n)].drop_last() =~= Seq::<char>::empty());
        assert(digits_val(Seq::<char>::empty()) == 0);
        assert(seq![digit_char(n)].last() == digit_char(n));
        assert(digits_val(seq![digit_char(n)]) == digits_val(seq![digit_char(n)].drop_last()) * 10
            + digit_val(seq![digit_char(n)].last()));
        assert(digits_val(seq![digit_char(n)]) == digit_val(digit_char(n)));
        assert(digit_val(digit_char(n)) == n);
        assert(is_digit(digit_char(n)));
    } else {
        lemma_dec_digits(n / 10);
        let d = dec_digits(n / 10);
        let last = digit_char(n % 10);
        assert(dec_digits(n) == d.push(last));
        assert(d.push(last).drop_last() =~= d);
        assert(d.push(last).last() == last);
        assert(digit_val(last) == n % 10);
        assert(is_digit(last));
        assert(digits_val(dec_digits(n)) == (n / 10) * 10 + n % 10);
        assert((n / 10) * 10 + n % 10 == n) by {
            vstd::arithmetic::div_mod::lemma_fundamental_div_mod(n as int, 10);
        }
        assert(dec_digits(n)[0] == d[0]);
    }
}

/// A canonical number token parses back to its value, whatever non-digit
/// text follows.
proof fn lemma_parse_number_canonical(n: nat, rest: Seq<char>)
    requires
        rest.len() == 0 || !is_digit(rest[0]),
    ensures
        parse_number(dec_digits(n) + rest) == Some((n, rest)),
{
    lemma_dec_digits(n);
    let dd = dec_digits(n);
    let s = dd + rest;
    assert(s[0] == dd[0]);
    assert(is_digit(dd[0]));
    assert(!is_ws(dd[0]));
    assert(skip_ws(s) == s);
    let k = dd.len() as int;
    assert(forall|m: int| 0 <= m < k ==> is_digit(#[trigger] s[m]));
    assert(k == s.len() || !is_digit(s[k]));
    lemma_split_digits_run(s, 0, k);
    assert(s.skip(0) =~= s);
    assert(s.subrange(0, k) =~= dd);
    assert(s.skip(k) =~= rest);
    if dd.len() > 1 {
        assert(n >= 10) by {
            if n < 10 {
                assert(dd.len() == 1);
            }
        }
        assert(dd[0] != '0');
    }
}

/// The canonical `"code": <digits>` member parses back to its value,
/// whatever non-digit text follows.
#[verifier::rlimit(100)]
#[verifier::spinoff_prover]
proof fn lemma_parse_code_member(code: u16, after_num: Seq<char>)
    requires
        after_num.len() == 0 || !is_digit(after_num[0]),
    ensures
        parse_num_member(
            seq!['"'] + ("code"@ + (seq!['"'] + (seq![':'] + (dec_digits(code as nat)
                + after_num)))),
        ) == Some((("code"@, code as nat), after_num)),
{
    reveal_strlit("code");
    let kc = "code"@;
    assert(kc =~= seq!['c', 'o', 'd', 'e']);
    let dd = dec_digits(code as nat);
    let num_rest = seq![':'] + (dd + after_num);
    let member1 = seq!['"'] + (kc + (seq!['"'] + num_rest));
    assert(forall|i: int| 0 <= i < kc.len() ==> escape_char(#[trigger] kc[i]) == seq![kc[i]]);
    assert(member1[0] == '"');
    assert(!is_ws('"'));
    assert(skip_ws(member1) == member1);
    lemma_escape_plain(kc);
    lemma_parse_escaped(kc, num_rest);
    assert(member1.drop_first() =~= escape_seq(kc) + seq!['"'] + num_rest);
    assert(parse_string(member1) == Some((kc, num_rest)));
    assert(num_rest[0] == ':');
    assert(!is_ws(':'));
    assert(skip_ws(num_rest) == num_rest);
    assert(num_rest.drop_first() =~= dd + after_num);
    assert(parse_symbol(num_rest, ':') == Some(num_rest.drop_first()));
    lemma_parse_number_canonical(code as nat, after_num);
    assert(parse_number(dd + after_num) == Some((code as nat, after_num)));
    assert(parse_num_member(member1) == Some(((kc, code as nat), after_num)));
}

/// Encoding an Error Envelope and parsing the result gives back its
/// fields: the canonical payload of any code and description is in the
/// Error Envelope grammar and denotes exactly them.
#[verifier::rlimit(100)]
#[verifier::spinoff_prover]
pub proof fn lemma_error_round_trip(code: u16, error: Seq<char>)
    ensures
        spec_parse_error(spec_error_json(code, error)) == Some((code, error)),
{
    reveal_strlit("{\"code\":");
    reveal_strlit(",\"error\":\"");
    reveal_strlit("\"}");
    reveal_strlit("code");
    reveal_strlit("error");
    let kc = "code"@;
    let ke = "error"@;
    assert(kc =~= seq!['c', 'o', 'd', 'e']);
    assert(ke =~= seq!['e', 'r', 'r', 'o', 'r']);
    let json = spec_error_json(code, error);
    let dd = dec_digits(code as nat);
    let member2 = seq!['"'] + ke + seq!['"', ':', '"'] + escape_seq(error) + seq!['"'] + seq!['}'];
    let after_num = seq![','] + member2;
    let num_rest = seq![':'] + (dd + after_num);
    let member1 = seq!['"'] + (kc + (seq!['"'] + num_rest));
    assert(json =~= seq!['{'] + member1);
    assert(json[0] == '{');
    assert(!is_ws('{'));
    assert(skip_ws(json) == json);
    assert(json.drop_first() =~= member1);
    assert(parse_symbol(json, '{') == Some(member1));
    assert(after_num[0] == ',');
    assert(!is_digit(','));
    lemma_parse_code_member(code, after_num);
    assert(parse_num_member(member1) == Some(((kc, code as nat), after_num)));
    assert(after_num.drop_first() =~= member2);
    assert(!is_ws(','));
    assert(skip_ws(after_num) == after_num);
    assert(parse_symbol(after_num, ',') == Some(member2));
    assert(forall|i: int| 0 <= i < ke.len() ==> escape_char(#[trigger] ke[i]) == seq![ke[i]]);
    lemma_parse_canonical_member(ke, error, seq!['}']);
    assert(parse_str_member(member2) == Some(((ke, error), seq!['}'])));
    assert(!is_ws('}'));
    assert(skip_ws(seq!['}']) == seq!['}']);
    assert(seq!['}'].drop_first() =~= Seq::<char>::empty());
    assert(parse_symbol(seq!['}'], '}') == Some(Seq::<char>::empty()));
    assert(skip_ws(Seq::<char>::empty()).len() == 0);
    assert(parse_error_after_code(after_num, code as nat) == Some((code, error)));
}

/// Encoding a Message Envelope and parsing the result gives back its
/// fields: the canonical payload of any `user` and `msg` is in the
/// envelope grammar and denotes exactly them.
#[verifier::rlimit(100)]
#[verifier::spinoff_prover]
pub proof fn lemma_client_round_trip(user: Seq<char>, msg: Seq<char>)
    ensures
        spec_parse_client(spec_client_json(user, msg)) == Some((user, msg)),
{
    reveal_strlit("{\"user\":\"");
    reveal_strlit("\",\"msg\":\"");
    reveal_strlit("\"}");
    reveal_strlit("user");
    reveal_strlit("msg");
    let ku = "user"@;
    let km = "msg"@;
    assert(ku =~= seq!['u', 's', 'e', 'r']);
    assert(km =~= seq!['m', 's', 'g']);
    let json = spec_client_json(user, msg);
    let member2 = seq!['"'] + km + seq!['"', ':', '"'] + escape_seq(msg) + seq!['"'] + seq!['}'];
    let rest1 = seq![','] + member2;
    let member1 = seq!['"'] + ku + seq!['"', ':', '"'] + escape_seq(user) + seq!['"'] + rest1;
    assert(json =~= seq!['{'] + member1);
    assert(json[0] == '{');
    assert(!is_ws('{'));
    assert(skip_ws(json) == json);
    assert(json.drop_first() =~= member1);
    assert(parse_symbol(json, '{') == Some(member1));
    assert(forall|i: int| 0 <= i < ku.len() ==> escape_char(#[trigger] ku[i]) == seq![ku[i]]);
    assert(forall|i: int| 0 <= i < km.len() ==> escape_char(#[trigger] km[i]) == seq![km[i]]);
    lemma_parse_canonical_member(ku, user, rest1);
    assert(parse_str_member(member1) == Some(((ku, user), rest1)));
    assert(rest1[0] == ',');
    assert(!is_ws(','));
    assert(skip_ws(rest1) == rest1);
    assert(rest1.drop_first() =~= member2);
    assert(parse_symbol(rest1, ',') == Some(member2));
    lemma_parse_canonical_member(km, msg, seq!['}']);
    assert(parse_str_member(member2) == Some(((km, msg), seq!['}'])));
    assert(!is_ws('}'));
    assert(skip_ws(seq!['}']) == seq!['}']);
    assert(seq!['}'].drop_first() =~= Seq::<char>::empty());
    assert(parse_symbol(seq!['}'], '}') == Some(Seq::<char>::empty()));
    assert(skip_ws(Seq::<char>::empty()).len() == 0);
    assert(parse_two_member_object(json) == Some(((ku, user), (km, msg))));
}

} // verus!
