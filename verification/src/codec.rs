//! The wire codec: parsing of inbound client request frames and framing
//! of outbound server messages. Frames are JSON text of a fixed shape —
//! an object holding a `type` tag and a `payload` object of string
//! fields, with arbitrary whitespace, the members in either order, and
//! the usual string escapes. The grammar is stated here as specification
//! functions (a lexer over characters and a parser over tokens), and the
//! executable codec is proved to decide exactly that grammar.

use vstd::prelude::*;

use crate::protocol::{
    ClientRequest, MessagePayload, RequestModel, ServerMessage, SubscribePayload,
    UnsubscribePayload,
};
use vstd::string::StrSliceExecFns;

verus! {

/// JSON insignificant whitespace.
pub open spec fn is_ws(c: char) -> bool {
    c == ' ' || c == '\t' || c == '\n' || c == '\r'
}

/// Value of a hexadecimal digit, or -1 when `c` is none.
pub open spec fn hex_val(c: char) -> int {
    let v = c as u32;
    if 48 <= v <= 57 {
        v - 48
    } else if 97 <= v <= 102 {
        v - 87
    } else if 65 <= v <= 70 {
        v - 55
    } else {
        -1
    }
}

/// What a single-character escape stands for, if it is one.
pub open spec fn simple_unescape(c: char) -> Option<char> {
    if c == '"' {
        Some('"')
    } else if c == '\\' {
        Some('\\')
    } else if c == '/' {
        Some('/')
    } else if c == 'b' {
        Some('\u{0008}')
    } else if c == 'f' {
        Some('\u{000c}')
    } else if c == 'n' {
        Some('\n')
    } else if c == 'r' {
        Some('\r')
    } else if c == 't' {
        Some('\t')
    } else {
        None
    }
}

/// The character with Unicode scalar value `v`.
pub open spec fn char_of_scalar(v: u32) -> char {
    v as char
}

/// The scalar value written by the four hex digits at `i`.
pub open spec fn hex_quad_val(s: Seq<char>, i: int) -> int {
    hex_val(s[i]) * 4096 + hex_val(s[i + 1]) * 256 + hex_val(s[i + 2]) * 16 + hex_val(s[i + 3])
}

/// Whether four hex digits stand at positions `i .. i+4`.
pub open spec fn hex_quad_at(s: Seq<char>, i: int) -> bool {
    &&& i + 4 <= s.len()
    &&& hex_val(s[i]) >= 0
    &&& hex_val(s[i + 1]) >= 0
    &&& hex_val(s[i + 2]) >= 0
    &&& hex_val(s[i + 3]) >= 0
}

pub enum StrStep {
    Done { rest: int },
    Char { c: char, next: int },
    Bad,
}

/// One step of reading a JSON string body at position `i` (after the
/// opening quote): the closing quote, one decoded character — literal,
/// short escape, a hex escape, or a leading and trailing surrogate
/// escape pair combined as UTF-16 has it — or a malformed body (a lone
/// surrogate among the rest).
pub open spec fn str_step(s: Seq<char>, i: int) -> StrStep {
    if i >= s.len() {
        StrStep::Bad
    } else if s[i] == '"' {
        StrStep::Done { rest: i + 1 }
    } else if s[i] == '\\' {
        if i + 1 >= s.len() {
            StrStep::Bad
        } else if s[i + 1] == 'u' {
            if hex_quad_at(s, i + 2) {
                let v1 = hex_quad_val(s, i + 2);
                if v1 < 0xD800 || v1 >= 0xE000 {
                    StrStep::Char { c: char_of_scalar(v1 as u32), next: i + 6 }
                } else if v1 < 0xDC00 {
                    if i + 8 <= s.len() && s[i + 6] == '\\' && s[i + 7] == 'u' && hex_quad_at(
                        s,
                        i + 8,
                    ) {
                        let v2 = hex_quad_val(s, i + 8);
                        if 0xDC00 <= v2 < 0xE000 {
                            StrStep::Char {
                                c: char_of_scalar(
                                    (0x10000 + (v1 - 0xD800) * 0x400 + (v2 - 0xDC00)) as u32,
                                ),
                                next: i + 12,
                            }
                        } else {
                            StrStep::Bad
                        }
                    } else {
                        StrStep::Bad
                    }
                } else {
                    StrStep::Bad
                }
            } else {
                StrStep::Bad
            }
        } else {
            match simple_unescape(s[i + 1]) {
                Some(c) => StrStep::Char { c, next: i + 2 },
                None => StrStep::Bad,
            }
        }
    } else if (s[i] as u32) < 32 {
        StrStep::Bad
    } else {
        StrStep::Char { c: s[i], next: i + 1 }
    }
}

/// A JSON string body read from position `i` (after the opening quote):
/// the decoded characters and the position after the closing quote.
pub open spec fn lex_string(s: Seq<char>, i: int) -> Option<(Seq<char>, int)>
    decreases s.len() - i,
{
    match str_step(s, i) {
        StrStep::Done { rest } => Some((Seq::empty(), rest)),
        StrStep::Char { c, next } => if i < next <= s.len() {
            match lex_string(s, next) {
                Some((t, j)) => Some((seq![c] + t, j)),
                None => None,
            }
        } else {
            None
        },
        StrStep::Bad => None,
    }
}

/// A successfully read string body ends after its opening position and
/// within the input.
pub proof fn lemma_lex_string_bounds(s: Seq<char>, i: int)
    ensures
        match lex_string(s, i) {
            Some((t, j)) => i < j <= s.len(),
            None => true,
        },
    decreases s.len() - i,
{
    match str_step(s, i) {
        StrStep::Done { rest } => {},
        StrStep::Char { c, next } => {
            if i < next <= s.len() {
                lemma_lex_string_bounds(s, next);
            }
        },
        StrStep::Bad => {},
    }
}

/// A token of a request frame.
#[verifier::ext_equal]
pub enum JTok {
    LBrace,
    RBrace,
    Colon,
    Comma,
    Str { text: Seq<char> },
}

/// Prepend a token to a lexing result.
pub open spec fn cons_tok(t: JTok, r: Option<Seq<JTok>>) -> Option<Seq<JTok>> {
    match r {
        Some(ts) => Some(seq![t] + ts),
        None => None,
    }
}

/// The token stream of the frame text from position `i` on, or nothing
/// when the text is not a stream of structural characters and strings.
pub open spec fn lex(s: Seq<char>, i: int) -> Option<Seq<JTok>>
    decreases s.len() - i,
    via lex_dec
{
    if i >= s.len() {
        Some(Seq::empty())
    } else if is_ws(s[i]) {
        lex(s, i + 1)
    } else if s[i] == '{' {
        cons_tok(JTok::LBrace, lex(s, i + 1))
    } else if s[i] == '}' {
        cons_tok(JTok::RBrace, lex(s, i + 1))
    } else if s[i] == ':' {
        cons_tok(JTok::Colon, lex(s, i + 1))
    } else if s[i] == ',' {
        cons_tok(JTok::Comma, lex(s, i + 1))
    } else if s[i] == '"' {
        match lex_string(s, i + 1) {
            Some((t, j)) => cons_tok(JTok::Str { text: t }, lex(s, j)),
            None => None,
        }
    } else {
        None
    }
}

#[via_fn]
proof fn lex_dec(s: Seq<char>, i: int) {
    if i < s.len() && s[i] == '"' {
        lemma_lex_string_bounds(s, i + 1);
    }
}

/// The members of a flat object of string fields, read from token
/// position `pos` (just after its opening brace, known non-empty):
/// the key/value pairs in order and the position after the closing brace.
pub open spec fn parse_flat_members(ts: Seq<JTok>, pos: int) -> Option<
    (Seq<(Seq<char>, Seq<char>)>, int),
>
    decreases ts.len() - pos,
{
    if pos < 0 || pos + 4 > ts.len() {
        None
    } else {
        match (ts[pos], ts[pos + 1], ts[pos + 2], ts[pos + 3]) {
            (JTok::Str { text: k }, JTok::Colon, JTok::Str { text: v }, JTok::RBrace) => Some(
                (seq![(k, v)], pos + 4),
            ),
            (JTok::Str { text: k }, JTok::Colon, JTok::Str { text: v }, JTok::Comma) => {
                match parse_flat_members(ts, pos + 4) {
                    Some((rest, j)) => Some((seq![(k, v)] + rest, j)),
                    None => None,
                }
            },
            _ => None,
        }
    }
}

/// A flat object of string fields starting at `pos`: its pairs and the
/// position after its closing brace. The payload objects of the protocol
/// are never empty, and neither is this production.
pub open spec fn parse_flat_obj(ts: Seq<JTok>, pos: int) -> Option<
    (Seq<(Seq<char>, Seq<char>)>, int),
> {
    if 0 <= pos && pos < ts.len() && ts[pos] is LBrace {
        parse_flat_members(ts, pos + 1)
    } else {
        None
    }
}

/// Reading flat members moves forward through the tokens.
pub proof fn lemma_flat_members_bounds(ts: Seq<JTok>, pos: int)
    ensures
        match parse_flat_members(ts, pos) {
            Some((ps, j)) => pos + 4 <= j <= ts.len(),
            None => true,
        },
    decreases ts.len() - pos,
{
    if pos >= 0 && pos + 4 <= ts.len() {
        lemma_flat_members_bounds(ts, pos + 4);
    }
}

/// A member value of the top-level frame object: the `type` tag string,
/// or the `payload` object's string fields.
#[verifier::ext_equal]
pub enum JVal {
    Str { text: Seq<char> },
    Obj { pairs: Seq<(Seq<char>, Seq<char>)> },
}

/// The members of the top-level frame object, read from token position
/// `pos` (just after its opening brace, known non-empty): each key with
/// its string or object value, and the position after the closing brace.
pub open spec fn parse_top_members(ts: Seq<JTok>, pos: int) -> Option<(Seq<(Seq<char>, JVal)>, int)>
    decreases ts.len() - pos,
    via parse_top_members_dec
{
    if pos < 0 || pos + 3 > ts.len() {
        None
    } else {
        match (ts[pos], ts[pos + 1]) {
            (JTok::Str { text: k }, JTok::Colon) => {
                let val_rest = match ts[pos + 2] {
                    JTok::Str { text: v } => Some((JVal::Str { text: v }, pos + 3)),
                    JTok::LBrace => match parse_flat_obj(ts, pos + 2) {
                        Some((pairs, j)) => Some((JVal::Obj { pairs }, j)),
                        None => None,
                    },
                    _ => None,
                };
                match val_rest {
                    Some((val, after)) => if after < ts.len() {
                        match ts[after] {
                            JTok::RBrace => Some((seq![(k, val)], after + 1)),
                            JTok::Comma => match parse_top_members(ts, after + 1) {
                                Some((rest, j)) => Some((seq![(k, val)] + rest, j)),
                                None => None,
                            },
                            _ => None,
                        }
                    } else {
                        None
                    },
                    None => None,
                }
            },
            _ => None,
        }
    }
}

#[via_fn]
proof fn parse_top_members_dec(ts: Seq<JTok>, pos: int) {
    if 0 <= pos && pos + 3 <= ts.len() {
        lemma_flat_members_bounds(ts, pos + 3);
    }
}

/// How many members of a flat object carry `key`, from position `i` on.
pub open spec fn count_key(pairs: Seq<(Seq<char>, Seq<char>)>, key: Seq<char>, i: int) -> nat
    decreases pairs.len() - i,
{
    if i < 0 || i >= pairs.len() {
        0
    } else {
        (if pairs[i].0 == key {
            1nat
        } else {
            0nat
        }) + count_key(pairs, key, i + 1)
    }
}

/// Index of the first member of a flat object carrying `key`, from
/// position `i` on, or -1.
pub open spec fn find_key(pairs: Seq<(Seq<char>, Seq<char>)>, key: Seq<char>, i: int) -> int
    decreases pairs.len() - i,
{
    if i < 0 || i >= pairs.len() {
        -1
    } else if pairs[i].0 == key {
        i
    } else {
        find_key(pairs, key, i + 1)
    }
}

/// How many members of the top-level object carry `key`, from `i` on.
pub open spec fn count_member(ms: Seq<(Seq<char>, JVal)>, key: Seq<char>, i: int) -> nat
    decreases ms.len() - i,
{
    if i < 0 || i >= ms.len() {
        0
    } else {
        (if ms[i].0 == key {
            1nat
        } else {
            0nat
        }) + count_member(ms, key, i + 1)
    }
}

/// Index of the first member of the top-level object carrying `key`,
/// from `i` on, or -1.
pub open spec fn find_member(ms: Seq<(Seq<char>, JVal)>, key: Seq<char>, i: int) -> int
    decreases ms.len() - i,
{
    if i < 0 || i >= ms.len() {
        -1
    } else if ms[i].0 == key {
        i
    } else {
        find_member(ms, key, i + 1)
    }
}

/// The request a payload object stands for under a given tag: each field
/// the tag asks for must appear exactly once, in any position; members
/// under any other key are ignored, as the original wire format has it.
pub open spec fn interpret_payload(tag: Seq<char>, pairs: Seq<(Seq<char>, Seq<char>)>) -> Option<
    RequestModel,
> {
    if tag == "SUBSCRIBE"@ {
        if count_key(pairs, "room"@, 0) == 1 {
            Some(RequestModel::Subscribe { room: pairs[find_key(pairs, "room"@, 0)].1 })
        } else {
            None
        }
    } else if tag == "UNSUBSCRIBE"@ {
        if count_key(pairs, "room"@, 0) == 1 {
            Some(RequestModel::Unsubscribe { room: pairs[find_key(pairs, "room"@, 0)].1 })
        } else {
            None
        }
    } else if tag == "SEND_MESSAGE"@ {
        if count_key(pairs, "room"@, 0) == 1 && count_key(pairs, "message"@, 0) == 1 {
            Some(
                RequestModel::SendMessage {
                    room: pairs[find_key(pairs, "room"@, 0)].1,
                    message: pairs[find_key(pairs, "message"@, 0)].1,
                },
            )
        } else {
            None
        }
    } else {
        None
    }
}

/// The request a member list stands for: exactly one `type` member with
/// a string tag and exactly one `payload` member with an object, in any
/// positions; members under any other key are ignored.
pub open spec fn interpret_members(members: Seq<(Seq<char>, JVal)>) -> Option<RequestModel> {
    if count_member(members, "type"@, 0) == 1 && count_member(members, "payload"@, 0) == 1 {
        match (members[find_member(members, "type"@, 0)].1, members[find_member(
            members,
            "payload"@,
            0,
        )].1) {
            (JVal::Str { text: tag }, JVal::Obj { pairs }) => interpret_payload(tag, pairs),
            _ => None,
        }
    } else {
        None
    }
}

/// The request a token stream stands for: one top-level object and
/// nothing after it.
pub open spec fn parse_request_tokens(ts: Seq<JTok>) -> Option<RequestModel> {
    if ts.len() >= 1 && ts[0] is LBrace {
        match parse_top_members(ts, 1) {
            Some((members, j)) => if j == ts.len() {
                interpret_members(members)
            } else {
                None
            },
            None => None,
        }
    } else {
        None
    }
}

/// What a frame text means: the request it encodes, or nothing when it is
/// malformed. This is the inbound grammar of the relay.
pub open spec fn parse_request_model(s: Seq<char>) -> Option<RequestModel> {
    match lex(s, 0) {
        Some(ts) => parse_request_tokens(ts),
        None => None,
    }
}

/// Relies on String::push: appends exactly the one character.
#[verifier::external_body]
pub(crate) fn push_char(s: &mut String, c: char)
    ensures
        final(s)@ == old(s)@.push(c),
{
    s.push(c);
}

/// Relies on char::from_u32: every u32 outside the surrogate range and no
/// greater than the scalar maximum names the character with that value.
#[verifier::external_body]
fn char_from_scalar(v: u32) -> (c: char)
    requires
        v < 0xD800 || (0xE000 <= v && v <= 0x10FFFF),
    ensures
        c == char_of_scalar(v),
{
    match char::from_u32(v) {
        Some(c) => c,
        None => ' ',
    }
}

/// The characters of a string slice, in order.
pub(crate) fn str_chars(s: &str) -> (v: Vec<char>)
    ensures
        v@ == s@,
{
    let n = s.unicode_len();
    let mut v: Vec<char> = Vec::new();
    let mut i: usize = 0;
    while i < n
        invariant
            i <= n,
            n == s@.len(),
            v@ =~= s@.take(i as int),
        decreases n - i,
    {
        v.push(s.get_char(i));
        proof {
            assert(v@ =~= s@.take(i + 1));
        }
        i += 1;
    }
    proof {
        assert(v@ =~= s@);
    }
    v
}

/// The value of a hexadecimal digit character, if it is one.
fn hex_val_exec(c: char) -> (r: Option<u32>)
    ensures
        match r {
            Some(v) => hex_val(c) == v as int && v < 16,
            None => hex_val(c) < 0,
        },
{
    let v = c as u32;
    if 48 <= v && v <= 57 {
        Some(v - 48)
    } else if 97 <= v && v <= 102 {
        Some(v - 87)
    } else if 65 <= v && v <= 70 {
        Some(v - 55)
    } else {
        None
    }
}

/// What a single-character escape stands for, if it is one.
fn simple_unescape_exec(c: char) -> (r: Option<char>)
    ensures
        r == simple_unescape(c),
{
    if c == '"' {
        Some('"')
    } else if c == '\\' {
        Some('\\')
    } else if c == '/' {
        Some('/')
    } else if c == 'b' {
        Some('\u{0008}')
    } else if c == 'f' {
        Some('\u{000c}')
    } else if c == 'n' {
        Some('\n')
    } else if c == 'r' {
        Some('\r')
    } else if c == 't' {
        Some('\t')
    } else {
        None
    }
}

/// Prepending the read character commutes with accumulating it.
proof fn lemma_acc_push(a: Seq<char>, c: char, r: Option<(Seq<char>, int)>)
    ensures
        (match r {
            Some((t, j)) => Some((a.push(c) + t, j)),
            None => None,
        }) == (match r {
            Some((t, j)) => Some::<(Seq<char>, int)>((a + (seq![c] + t), j)),
            None => None,
        }),
{
    match r {
        Some((t, j)) => {
            assert(a.push(c) + t =~= a + (seq![c] + t));
        },
        None => {},
    }
}

/// Read a JSON string body beginning at `start` (just after the opening
/// quote): the decoded text and the position after the closing quote.
fn lex_string_exec(s: &Vec<char>, start: usize) -> (r: Option<(String, usize)>)
    requires
        start <= s@.len(),
    ensures
        match r {
            Some((t, j)) => j <= s@.len() && lex_string(s@, start as int) == Some((t@, j as int)),
            None => lex_string(s@, start as int) is None,
        },
{
    let mut acc = String::new();
    let mut i: usize = start;
    loop
        invariant
            start <= i <= s@.len(),
            lex_string(s@, start as int) == (match lex_string(s@, i as int) {
                Some((t, j)) => Some((acc@ + t, j)),
                None => None::<(Seq<char>, int)>,
            }),
        decreases s@.len() - i,
    {
        if i >= s.len() {
            return None;
        }
        let c = s[i];
        if c == '"' {
            proof {
                assert(lex_string(s@, i as int) == Some((Seq::<char>::empty(), i + 1)));
                assert(acc@ + Seq::<char>::empty() =~= acc@);
            }
            return Some((acc, i + 1));
        } else if c == '\\' {
            if i + 1 >= s.len() {
                return None;
            }
            let e = s[i + 1];
            if e == 'u' {
                if s.len() - i < 6 {
                    return None;
                }
                let h0 = hex_val_exec(s[i + 2]);
                let h1 = hex_val_exec(s[i + 3]);
                let h2 = hex_val_exec(s[i + 4]);
                let h3 = hex_val_exec(s[i + 5]);
                match (h0, h1, h2, h3) {
                    (Some(v0), Some(v1), Some(v2), Some(v3)) => {
                        let lead: u32 = v0 * 4096 + v1 * 256 + v2 * 16 + v3;
                        proof {
                            assert(lead as int == hex_quad_val(s@, i + 2));
                        }
                        if lead < 0xD800 || lead >= 0xE000 {
                            let c2 = char_from_scalar(lead);
                            let ghost acc0 = acc@;
                            push_char(&mut acc, c2);
                            proof {
                                assert(str_step(s@, i as int) == (StrStep::Char {
                                    c: c2,
                                    next: i + 6,
                                }));
                                lemma_acc_push(acc0, c2, lex_string(s@, i + 6));
                            }
                            i += 6;
                        } else if lead < 0xDC00 {
                            // a leading surrogate: a trailing one must follow
                            if s.len() - i < 12 {
                                return None;
                            }
                            if !(s[i + 6] == '\\' && s[i + 7] == 'u') {
                                return None;
                            }
                            let g0 = hex_val_exec(s[i + 8]);
                            let g1 = hex_val_exec(s[i + 9]);
                            let g2 = hex_val_exec(s[i + 10]);
                            let g3 = hex_val_exec(s[i + 11]);
                            match (g0, g1, g2, g3) {
                                (Some(w0), Some(w1), Some(w2), Some(w3)) => {
                                    let trail: u32 = w0 * 4096 + w1 * 256 + w2 * 16 + w3;
                                    proof {
                                        assert(trail as int == hex_quad_val(s@, i + 8));
                                    }
                                    if 0xDC00 <= trail && trail < 0xE000 {
                                        let code: u32 = 0x10000 + (lead - 0xD800) * 0x400 + (trail
                                            - 0xDC00);
                                        let c2 = char_from_scalar(code);
                                        let ghost acc0 = acc@;
                                        push_char(&mut acc, c2);
                                        proof {
                                            assert(str_step(s@, i as int) == (StrStep::Char {
                                                c: c2,
                                                next: i + 12,
                                            }));
                                            lemma_acc_push(acc0, c2, lex_string(s@, i + 12));
                                        }
                                        i += 12;
                                    } else {
                                        return None;
                                    }
                                },
                                _ => {
                                    return None;
                                },
                            }
                        } else {
                            return None;
                        }
                    },
                    _ => {
                        return None;
                    },
                }
            } else {
                match simple_unescape_exec(e) {
                    Some(c2) => {
                        let ghost acc0 = acc@;
                        push_char(&mut acc, c2);
                        proof {
                            assert(str_step(s@, i as int) == (StrStep::Char {
                                c: c2,
                                next: i + 2,
                            }));
                            lemma_acc_push(acc0, c2, lex_string(s@, i + 2));
                        }
                        i += 2;
                    },
                    None => {
                        return None;
                    },
                }
            }
        } else if (c as u32) < 32 {
            return None;
        } else {
            let ghost acc0 = acc@;
            push_char(&mut acc, c);
            proof {
                assert(str_step(s@, i as int) == (StrStep::Char { c, next: i + 1 }));
                lemma_acc_push(acc0, c, lex_string(s@, i + 1));
            }
            i += 1;
        }
    }
}

/// An executable token of a request frame.
enum Tok {
    LBrace,
    RBrace,
    Colon,
    Comma,
    Str { text: String },
}

impl Tok {
    spec fn model(self) -> JTok {
        match self {
            Tok::LBrace => JTok::LBrace,
            Tok::RBrace => JTok::RBrace,
            Tok::Colon => JTok::Colon,
            Tok::Comma => JTok::Comma,
            Tok::Str { text } => JTok::Str { text: text@ },
        }
    }
}

/// The models of a list of executable tokens.
spec fn tok_models(ts: Seq<Tok>) -> Seq<JTok> {
    ts.map_values(|t: Tok| t.model())
}

/// Prepending a lexed token commutes with accumulating it.
proof fn lemma_tok_acc(ms: Seq<JTok>, t: JTok, r: Option<Seq<JTok>>)
    ensures
        (match r {
            Some(rest) => Some(ms.push(t) + rest),
            None => None,
        }) == (match r {
            Some(rest) => Some::<Seq<JTok>>(ms + (seq![t] + rest)),
            None => None,
        }),
{
    match r {
        Some(rest) => {
            assert(ms.push(t) + rest =~= ms + (seq![t] + rest));
        },
        None => {},
    }
}

/// Tokenize a frame text, or report that it is not a token stream.
fn lex_exec(s: &Vec<char>) -> (r: Option<Vec<Tok>>)
    ensures
        match r {
            Some(ts) => lex(s@, 0) == Some(tok_models(ts@)),
            None => lex(s@, 0) is None,
        },
{
    let mut out: Vec<Tok> = Vec::new();
    let mut i: usize = 0;
    loop
        invariant
            i <= s@.len(),
            lex(s@, 0) == (match lex(s@, i as int) {
                Some(rest) => Some(tok_models(out@) + rest),
                None => None::<Seq<JTok>>,
            }),
        decreases s@.len() - i,
    {
        if i >= s.len() {
            proof {
                assert(tok_models(out@) + Seq::<JTok>::empty() =~= tok_models(out@));
            }
            return Some(out);
        }
        let c = s[i];
        if c == ' ' || c == '\t' || c == '\n' || c == '\r' {
            i += 1;
        } else if c == '{' || c == '}' || c == ':' || c == ',' {
            let ghost out0 = out@;
            let tok = if c == '{' {
                Tok::LBrace
            } else if c == '}' {
                Tok::RBrace
            } else if c == ':' {
                Tok::Colon
            } else {
                Tok::Comma
            };
            let ghost tm = tok.model();
            out.push(tok);
            proof {
                assert(tok_models(out@) =~= tok_models(out0).push(tm));
                lemma_tok_acc(tok_models(out0), tm, lex(s@, i + 1));
            }
            i += 1;
        } else if c == '"' {
            match lex_string_exec(s, i + 1) {
                Some((text, j)) => {
                    let ghost out0 = out@;
                    let ghost tm = JTok::Str { text: text@ };
                    out.push(Tok::Str { text });
                    proof {
                        lemma_lex_string_bounds(s@, i + 1);
                        assert(tok_models(out@) =~= tok_models(out0).push(tm));
                        lemma_tok_acc(tok_models(out0), tm, lex(s@, j as int));
                    }
                    i = j;
                },
                None => {
                    return None;
                },
            }
        } else {
            return None;
        }
    }
}

/// The models of a list of string pairs.
spec fn pair_models(ps: Seq<(String, String)>) -> Seq<(Seq<char>, Seq<char>)> {
    ps.map_values(|p: (String, String)| (p.0@, p.1@))
}

/// An executable member value of the top-level frame object.
enum ObjVal {
    Str { text: String },
    Obj { pairs: Vec<(String, String)> },
}

impl ObjVal {
    spec fn model(self) -> JVal {
        match self {
            ObjVal::Str { text } => JVal::Str { text: text@ },
            ObjVal::Obj { pairs } => JVal::Obj { pairs: pair_models(pairs@) },
        }
    }
}

/// The models of a list of top-level members.
spec fn member_models(ms: Seq<(String, ObjVal)>) -> Seq<(Seq<char>, JVal)> {
    ms.map_values(|m: (String, ObjVal)| (m.0@, m.1.model()))
}

/// Read the members of a flat object of string fields starting at token
/// `pos` (just after its opening brace).
fn parse_flat_members_exec(ts: &Vec<Tok>, pos: usize) -> (r: Option<(Vec<(String, String)>, usize)>)
    ensures
        match r {
            Some((pairs, j)) => pos + 4 <= j <= ts@.len() && parse_flat_members(
                tok_models(ts@),
                pos as int,
            ) == Some((pair_models(pairs@), j as int)),
            None => parse_flat_members(tok_models(ts@), pos as int) is None,
        },
    decreases ts@.len() - pos,
{
    if pos >= ts.len() || ts.len() - pos < 4 {
        return None;
    }
    let k: String;
    let v: String;
    match (&ts[pos], &ts[pos + 1], &ts[pos + 2]) {
        (Tok::Str { text: k0 }, Tok::Colon, Tok::Str { text: v0 }) => {
            k = k0.clone();
            v = v0.clone();
        },
        _ => {
            return None;
        },
    }
    let ghost km = k@;
    let ghost vm = v@;
    proof {
        assert(tok_models(ts@)[pos as int] == (JTok::Str { text: km }));
        assert(tok_models(ts@)[pos + 1] == JTok::Colon);
        assert(tok_models(ts@)[pos + 2] == (JTok::Str { text: vm }));
    }
    match &ts[pos + 3] {
        Tok::RBrace => {
            proof {
                assert(tok_models(ts@)[pos + 3] == JTok::RBrace);
            }
            let mut pairs: Vec<(String, String)> = Vec::new();
            pairs.push((k, v));
            proof {
                assert(pair_models(pairs@) =~= seq![(km, vm)]);
            }
            Some((pairs, pos + 4))
        },
        Tok::Comma => {
            proof {
                assert(tok_models(ts@)[pos + 3] == JTok::Comma);
            }
            match parse_flat_members_exec(ts, pos + 4) {
                Some((rest, j)) => {
                    let ghost rm = pair_models(rest@);
                    let mut pairs = rest;
                    pairs.insert(0, (k, v));
                    proof {
                        assert(pair_models(pairs@) =~= seq![(km, vm)] + rm);
                    }
                    Some((pairs, j))
                },
                None => None,
            }
        },
        _ => {
            proof {
                assert(!(tok_models(ts@)[pos + 3] is RBrace));
                assert(!(tok_models(ts@)[pos + 3] is Comma));
            }
            None
        },
    }
}

/// Read the members of the top-level frame object starting at token
/// `pos` (just after its opening brace).
fn parse_top_members_exec(ts: &Vec<Tok>, pos: usize) -> (r: Option<(Vec<(String, ObjVal)>, usize)>)
    ensures
        match r {
            Some((ms, j)) => pos + 4 <= j <= ts@.len() && parse_top_members(
                tok_models(ts@),
                pos as int,
            ) == Some((member_models(ms@), j as int)),
            None => parse_top_members(tok_models(ts@), pos as int) is None,
        },
    decreases ts@.len() - pos,
{
    if pos >= ts.len() || ts.len() - pos < 3 {
        return None;
    }
    let k: String;
    match (&ts[pos], &ts[pos + 1]) {
        (Tok::Str { text: k0 }, Tok::Colon) => {
            k = k0.clone();
        },
        _ => {
            return None;
        },
    }
    let ghost km = k@;
    proof {
        assert(tok_models(ts@)[pos as int] == (JTok::Str { text: km }));
        assert(tok_models(ts@)[pos + 1] == JTok::Colon);
    }
    let val: ObjVal;
    let after: usize;
    match &ts[pos + 2] {
        Tok::Str { text: v0 } => {
            proof {
                assert(tok_models(ts@)[pos + 2] == (JTok::Str { text: v0@ }));
            }
            val = ObjVal::Str { text: v0.clone() };
            after = pos + 3;
        },
        Tok::LBrace => {
            proof {
                assert(tok_models(ts@)[pos + 2] == JTok::LBrace);
            }
            match parse_flat_members_exec(ts, pos + 3) {
                Some((pairs, j)) => {
                    val = ObjVal::Obj { pairs };
                    after = j;
                },
                None => {
                    return None;
                },
            }
        },
        _ => {
            proof {
                assert(!(tok_models(ts@)[pos + 2] is Str));
                assert(!(tok_models(ts@)[pos + 2] is LBrace));
            }
            return None;
        },
    }
    let ghost vm = val.model();
    if after >= ts.len() {
        return None;
    }
    match &ts[after] {
        Tok::RBrace => {
            proof {
                assert(tok_models(ts@)[after as int] == JTok::RBrace);
            }
            let mut ms: Vec<(String, ObjVal)> = Vec::new();
            ms.push((k, val));
            proof {
                assert(member_models(ms@) =~= seq![(km, vm)]);
            }
            Some((ms, after + 1))
        },
        Tok::Comma => {
            proof {
                assert(tok_models(ts@)[after as int] == JTok::Comma);
            }
            match parse_top_members_exec(ts, after + 1) {
                Some((rest, j)) => {
                    let ghost rm = member_models(rest@);
                    let mut ms = rest;
                    ms.insert(0, (k, val));
                    proof {
                        assert(member_models(ms@) =~= seq![(km, vm)] + rm);
                    }
                    Some((ms, j))
                },
                None => None,
            }
        },
        _ => {
            proof {
                assert(!(tok_models(ts@)[after as int] is RBrace));
                assert(!(tok_models(ts@)[after as int] is Comma));
            }
            None
        },
    }
}

/// A key is found if and only if it is counted; what is found carries
/// the key.
proof fn lemma_count_find_key(pairs: Seq<(Seq<char>, Seq<char>)>, key: Seq<char>, i: int)
    ensures
        (find_key(pairs, key, i) == -1) <==> (count_key(pairs, key, i) == 0),
        find_key(pairs, key, i) >= 0 ==> i <= find_key(pairs, key, i) < pairs.len() && pairs[find_key(
            pairs,
            key,
            i,
        )].0 == key,
    decreases pairs.len() - i,
{
    if 0 <= i < pairs.len() {
        lemma_count_find_key(pairs, key, i + 1);
    }
}

/// A top-level key is found if and only if it is counted; what is found
/// carries the key.
proof fn lemma_count_find_member(ms: Seq<(Seq<char>, JVal)>, key: Seq<char>, i: int)
    ensures
        (find_member(ms, key, i) == -1) <==> (count_member(ms, key, i) == 0),
        find_member(ms, key, i) >= 0 ==> i <= find_member(ms, key, i) < ms.len() && ms[find_member(
            ms,
            key,
            i,
        )].0 == key,
    decreases ms.len() - i,
{
    if 0 <= i < ms.len() {
        lemma_count_find_member(ms, key, i + 1);
    }
}

/// Count the payload members carrying `key`, from position `i` on.
fn count_key_exec(pairs: &Vec<(String, String)>, key: &String, i: usize) -> (r: usize)
    requires
        i <= pairs@.len(),
    ensures
        r as nat == count_key(pair_models(pairs@), key@, i as int),
        r <= pairs@.len() - i,
    decreases pairs@.len() - i,
{
    if i >= pairs.len() {
        0
    } else {
        proof {
            assert(pair_models(pairs@)[i as int] == (pairs@[i as int].0@, pairs@[i as int].1@));
        }
        let rest = count_key_exec(pairs, key, i + 1);
        if pairs[i].0 == *key {
            rest + 1
        } else {
            rest
        }
    }
}

/// Find the first payload member carrying `key`, from position `i` on.
fn find_key_exec(pairs: &Vec<(String, String)>, key: &String, i: usize) -> (r: Option<usize>)
    requires
        i <= pairs@.len(),
    ensures
        match r {
            Some(j) => find_key(pair_models(pairs@), key@, i as int) == j as int && j
                < pairs@.len(),
            None => find_key(pair_models(pairs@), key@, i as int) == -1,
        },
    decreases pairs@.len() - i,
{
    if i >= pairs.len() {
        None
    } else {
        proof {
            assert(pair_models(pairs@)[i as int] == (pairs@[i as int].0@, pairs@[i as int].1@));
        }
        if pairs[i].0 == *key {
            Some(i)
        } else {
            find_key_exec(pairs, key, i + 1)
        }
    }
}

/// Count the top-level members carrying `key`, from position `i` on.
fn count_member_exec(ms: &Vec<(String, ObjVal)>, key: &String, i: usize) -> (r: usize)
    requires
        i <= ms@.len(),
    ensures
        r as nat == count_member(member_models(ms@), key@, i as int),
        r <= ms@.len() - i,
    decreases ms@.len() - i,
{
    if i >= ms.len() {
        0
    } else {
        proof {
            assert(member_models(ms@)[i as int] == (ms@[i as int].0@, ms@[i as int].1.model()));
        }
        let rest = count_member_exec(ms, key, i + 1);
        if ms[i].0 == *key {
            rest + 1
        } else {
            rest
        }
    }
}

/// Find the first top-level member carrying `key`, from position `i` on.
fn find_member_exec(ms: &Vec<(String, ObjVal)>, key: &String, i: usize) -> (r: Option<usize>)
    requires
        i <= ms@.len(),
    ensures
        match r {
            Some(j) => find_member(member_models(ms@), key@, i as int) == j as int && j
                < ms@.len(),
            None => find_member(member_models(ms@), key@, i as int) == -1,
        },
    decreases ms@.len() - i,
{
    if i >= ms.len() {
        None
    } else {
        proof {
            assert(member_models(ms@)[i as int] == (ms@[i as int].0@, ms@[i as int].1.model()));
        }
        if ms[i].0 == *key {
            Some(i)
        } else {
            find_member_exec(ms, key, i + 1)
        }
    }
}

/// Turn a tag and payload fields into the request they stand for.
fn interpret_payload_exec(tag: &String, pairs: &Vec<(String, String)>) -> (r: Option<ClientRequest>)
    ensures
        match r {
            Some(req) => interpret_payload(tag@, pair_models(pairs@)) == Some(req@),
            None => interpret_payload(tag@, pair_models(pairs@)) is None,
        },
{
    let sub: String = "SUBSCRIBE".to_owned();
    let unsub: String = "UNSUBSCRIBE".to_owned();
    let sendm: String = "SEND_MESSAGE".to_owned();
    let key_room: String = "room".to_owned();
    let key_msg: String = "message".to_owned();
    if *tag == sub {
        if count_key_exec(pairs, &key_room, 0) == 1 {
            match find_key_exec(pairs, &key_room, 0) {
                Some(j) => {
                    proof {
                        assert(pair_models(pairs@)[j as int] == (
                            pairs@[j as int].0@,
                            pairs@[j as int].1@,
                        ));
                    }
                    Some(
                        ClientRequest::Subscribe {
                            payload: SubscribePayload { room: pairs[j].1.clone() },
                        },
                    )
                },
                None => {
                    proof {
                        lemma_count_find_key(pair_models(pairs@), "room"@, 0);
                    }
                    None
                },
            }
        } else {
            None
        }
    } else if *tag == unsub {
        if count_key_exec(pairs, &key_room, 0) == 1 {
            match find_key_exec(pairs, &key_room, 0) {
                Some(j) => {
                    proof {
                        assert(pair_models(pairs@)[j as int] == (
                            pairs@[j as int].0@,
                            pairs@[j as int].1@,
                        ));
                    }
                    Some(
                        ClientRequest::Unsubscribe {
                            payload: UnsubscribePayload { room: pairs[j].1.clone() },
                        },
                    )
                },
                None => {
                    proof {
                        lemma_count_find_key(pair_models(pairs@), "room"@, 0);
                    }
                    None
                },
            }
        } else {
            None
        }
    } else if *tag == sendm {
        if count_key_exec(pairs, &key_room, 0) == 1 && count_key_exec(pairs, &key_msg, 0) == 1 {
            match (find_key_exec(pairs, &key_room, 0), find_key_exec(pairs, &key_msg, 0)) {
                (Some(j), Some(k)) => {
                    proof {
                        assert(pair_models(pairs@)[j as int] == (
                            pairs@[j as int].0@,
                            pairs@[j as int].1@,
                        ));
                        assert(pair_models(pairs@)[k as int] == (
                            pairs@[k as int].0@,
                            pairs@[k as int].1@,
                        ));
                    }
                    Some(
                        ClientRequest::SendMessage {
                            payload: MessagePayload {
                                room: pairs[j].1.clone(),
                                message: pairs[k].1.clone(),
                            },
                        },
                    )
                },
                _ => {
                    proof {
                        lemma_count_find_key(pair_models(pairs@), "room"@, 0);
                        lemma_count_find_key(pair_models(pairs@), "message"@, 0);
                    }
                    None
                },
            }
        } else {
            None
        }
    } else {
        None
    }
}

/// Turn the top-level members into the request they stand for.
fn interpret_exec(ms: &Vec<(String, ObjVal)>) -> (r: Option<ClientRequest>)
    ensures
        match r {
            Some(req) => interpret_members(member_models(ms@)) == Some(req@),
            None => interpret_members(member_models(ms@)) is None,
        },
{
    let key_type: String = "type".to_owned();
    let key_payload: String = "payload".to_owned();
    if count_member_exec(ms, &key_type, 0) != 1 || count_member_exec(ms, &key_payload, 0) != 1 {
        return None;
    }
    match (find_member_exec(ms, &key_type, 0), find_member_exec(ms, &key_payload, 0)) {
        (Some(j), Some(k)) => {
            proof {
                assert(member_models(ms@)[j as int] == (ms@[j as int].0@, ms@[j as int].1.model()));
                assert(member_models(ms@)[k as int] == (ms@[k as int].0@, ms@[k as int].1.model()));
            }
            match (&ms[j].1, &ms[k].1) {
                (ObjVal::Str { text: tag }, ObjVal::Obj { pairs }) => interpret_payload_exec(
                    tag,
                    pairs,
                ),
                _ => None,
            }
        },
        _ => {
            proof {
                lemma_count_find_member(member_models(ms@), "type"@, 0);
                lemma_count_find_member(member_models(ms@), "payload"@, 0);
            }
            None
        },
    }
}

/// The hexadecimal digit character for a value below 16.
pub open spec fn hex_char(v: int) -> char {
    if v == 0 {
        '0'
    } else if v == 1 {
        '1'
    } else if v == 2 {
        '2'
    } else if v == 3 {
        '3'
    } else if v == 4 {
        '4'
    } else if v == 5 {
        '5'
    } else if v == 6 {
        '6'
    } else if v == 7 {
        '7'
    } else if v == 8 {
        '8'
    } else if v == 9 {
        '9'
    } else if v == 10 {
        'a'
    } else if v == 11 {
        'b'
    } else if v == 12 {
        'c'
    } else if v == 13 {
        'd'
    } else if v == 14 {
        'e'
    } else {
        'f'
    }
}

/// How one character is written inside a JSON string: itself, a short
/// escape, or a hex escape for the remaining control characters.
pub open spec fn escape_char(c: char) -> Seq<char> {
    if c == '"' {
        seq!['\\', '"']
    } else if c == '\\' {
        seq!['\\', '\\']
    } else if c == '\u{0008}' {
        seq!['\\', 'b']
    } else if c == '\t' {
        seq!['\\', 't']
    } else if c == '\n' {
        seq!['\\', 'n']
    } else if c == '\u{000c}' {
        seq!['\\', 'f']
    } else if c == '\r' {
        seq!['\\', 'r']
    } else if (c as u32) < 32 {
        seq!['\\', 'u', '0', '0', hex_char((c as u32) as int / 16), hex_char((c as u32) as int % 16)]
    } else {
        seq![c]
    }
}

/// How a text is written inside a JSON string.
pub open spec fn escape_string(s: Seq<char>) -> Seq<char>
    decreases s.len(),
{
    if s.len() == 0 {
        Seq::empty()
    } else {
        escape_string(s.drop_last()) + escape_char(s.last())
    }
}

/// The frame delivered for a bus message: room and payload as a JSON
/// object.
pub open spec fn envelope_json(room: Seq<char>, data: Seq<char>) -> Seq<char> {
    "{\"room\":\""@ + escape_string(room) + "\",\"data\":\""@ + escape_string(data) + "\"}"@
}

/// The frame sent for a malformed request.
pub open spec fn error_json(msg: Seq<char>) -> Seq<char> {
    "{\"error\":\""@ + escape_string(msg) + "\"}"@
}

/// The hexadecimal digit character for a value below 16.
fn hex_char_exec(v: u32) -> (r: char)
    requires
        v < 16,
    ensures
        r == hex_char(v as int),
{
    if v == 0 {
        '0'
    } else if v == 1 {
        '1'
    } else if v == 2 {
        '2'
    } else if v == 3 {
        '3'
    } else if v == 4 {
        '4'
    } else if v == 5 {
        '5'
    } else if v == 6 {
        '6'
    } else if v == 7 {
        '7'
    } else if v == 8 {
        '8'
    } else if v == 9 {
        '9'
    } else if v == 10 {
        'a'
    } else if v == 11 {
        'b'
    } else if v == 12 {
        'c'
    } else if v == 13 {
        'd'
    } else if v == 14 {
        'e'
    } else {
        'f'
    }
}

/// Append `s`, escaped for a JSON string, to `out`.
fn append_escaped(out: &mut String, s: &str)
    ensures
        final(out)@ == old(out)@ + escape_string(s@),
{
    let chars = str_chars(s);
    let n = chars.len();
    let mut i: usize = 0;
    proof {
        assert(old(out)@ + escape_string(s@.take(0)) =~= old(out)@);
    }
    while i < n
        invariant
            i <= n,
            n == s@.len(),
            chars@ == s@,
            out@ == old(out)@ + escape_string(s@.take(i as int)),
        decreases n - i,
    {
        let c = chars[i];
        let ghost before = out@;
        if c == '"' {
            push_char(out, '\\');
            push_char(out, '"');
        } else if c == '\\' {
            push_char(out, '\\');
            push_char(out, '\\');
        } else if c == '\u{0008}' {
            push_char(out, '\\');
            push_char(out, 'b');
        } else if c == '\t' {
            push_char(out, '\\');
            push_char(out, 't');
        } else if c == '\n' {
            push_char(out, '\\');
            push_char(out, 'n');
        } else if c == '\u{000c}' {
            push_char(out, '\\');
            push_char(out, 'f');
        } else if c == '\r' {
            push_char(out, '\\');
            push_char(out, 'r');
        } else if (c as u32) < 32 {
            let v = c as u32;
            push_char(out, '\\');
            push_char(out, 'u');
            push_char(out, '0');
            push_char(out, '0');
            push_char(out, hex_char_exec(v / 16));
            push_char(out, hex_char_exec(v % 16));
        } else {
            push_char(out, c);
        }
        proof {
            assert(out@ =~= before + escape_char(c));
            assert(s@.take(i + 1).drop_last() =~= s@.take(i as int));
            assert(s@.take(i + 1).last() == c);
            assert(out@ =~= old(out)@ + escape_string(s@.take(i + 1)));
        }
        i += 1;
    }
    proof {
        assert(s@.take(n as int) =~= s@);
    }
}

/// Frame a server message as its JSON envelope text.
pub fn server_message_to_json(msg: &ServerMessage) -> (r: String)
    ensures
        r@ == envelope_json(msg.room@, msg.data@),
{
    let mut out: String = String::new();
    out.append("{\"room\":\"");
    append_escaped(&mut out, msg.room.as_str());
    out.append("\",\"data\":\"");
    append_escaped(&mut out, msg.data.as_str());
    out.append("\"}");
    proof {
        assert(out@ =~= envelope_json(msg.room@, msg.data@));
    }
    out
}

/// Frame the error answer for a malformed request.
pub fn error_envelope(msg: &str) -> (r: String)
    ensures
        r@ == error_json(msg@),
{
    let mut out: String = String::new();
    out.append("{\"error\":\"");
    append_escaped(&mut out, msg);
    out.append("\"}");
    proof {
        assert(out@ =~= error_json(msg@));
    }
    out
}

/// A hex digit character written by the serializer reads back as its
/// value.
proof fn lemma_hex_char_val(v: int)
    requires
        0 <= v < 16,
    ensures
        hex_val(hex_char(v)) == v,
{
}

/// `escape_string` also unrolls from the front.
proof fn lemma_escape_cons(s: Seq<char>)
    requires
        s.len() > 0,
    ensures
        escape_string(s) == escape_char(s[0]) + escape_string(s.drop_first()),
    decreases s.len(),
{
    if s.len() == 1 {
        assert(s.drop_last() =~= Seq::<char>::empty());
        assert(s.drop_first() =~= Seq::<char>::empty());
        assert(escape_string(s.drop_last()) + escape_char(s.last()) =~= escape_char(s[0])
            + escape_string(s.drop_first()));
    } else {
        lemma_escape_cons(s.drop_last());
        assert(s.drop_last()[0] == s[0]);
        assert(s.drop_last().drop_first() =~= s.drop_first().drop_last());
        assert(s.drop_first().last() == s.last());
        assert((escape_char(s[0]) + escape_string(s.drop_first().drop_last())) + escape_char(
            s.last(),
        ) =~= escape_char(s[0]) + (escape_string(s.drop_first().drop_last()) + escape_char(
            s.drop_first().last(),
        )));
    }
}

/// A string step only looks at the input from its position on.
#[verifier::rlimit(60)]
proof fn lemma_str_step_shift(pre: Seq<char>, t: Seq<char>, i: int)
    requires
        0 <= i,
    ensures
        str_step(pre + t, pre.len() + i) == match str_step(t, i) {
            StrStep::Done { rest } => StrStep::Done { rest: pre.len() + rest },
            StrStep::Char { c, next } => StrStep::Char { c, next: pre.len() + next },
            StrStep::Bad => StrStep::Bad,
        },
{
    let f = pre + t;
    let k = pre.len() + i;
    assert(f.len() == pre.len() + t.len());
    if i < t.len() {
        assert(f[k] == t[i]);
        if i + 1 < t.len() {
            assert(f[k + 1] == t[i + 1]);
        }
        if i + 2 < t.len() {
            assert(f[k + 2] == t[i + 2]);
        }
        if i + 3 < t.len() {
            assert(f[k + 3] == t[i + 3]);
        }
        if i + 4 < t.len() {
            assert(f[k + 4] == t[i + 4]);
        }
        if i + 5 < t.len() {
            assert(f[k + 5] == t[i + 5]);
        }
        if i + 6 < t.len() {
            assert(f[k + 6] == t[i + 6]);
        }
        if i + 7 < t.len() {
            assert(f[k + 7] == t[i + 7]);
        }
        if i + 8 < t.len() {
            assert(f[k + 8] == t[i + 8]);
        }
        if i + 9 < t.len() {
            assert(f[k + 9] == t[i + 9]);
        }
        if i + 10 < t.len() {
            assert(f[k + 10] == t[i + 10]);
        }
        if i + 11 < t.len() {
            assert(f[k + 11] == t[i + 11]);
        }
        if i + 6 <= t.len() {
            assert(hex_quad_val(f, k + 2) == hex_quad_val(t, i + 2));
            assert(hex_quad_at(f, k + 2) == hex_quad_at(t, i + 2));
        } else {
            assert(!hex_quad_at(t, i + 2));
            assert(!hex_quad_at(f, k + 2)) by {
                if hex_quad_at(f, k + 2) {
                    assert(k + 6 <= f.len());
                }
            }
        }
        if i + 12 <= t.len() {
            assert(hex_quad_val(f, k + 8) == hex_quad_val(t, i + 8));
            assert(hex_quad_at(f, k + 8) == hex_quad_at(t, i + 8));
        } else {
            assert(!hex_quad_at(t, i + 8));
            assert(!hex_quad_at(f, k + 8)) by {
                if hex_quad_at(f, k + 8) {
                    assert(k + 12 <= f.len());
                }
            }
        }
    }
}

/// Reading a string body only looks at the input from its position on.
proof fn lemma_lex_string_shift(pre: Seq<char>, t: Seq<char>, i: int)
    requires
        0 <= i,
    ensures
        lex_string(pre + t, pre.len() + i) == match lex_string(t, i) {
            Some((u, j)) => Some((u, pre.len() + j)),
            None => None::<(Seq<char>, int)>,
        },
    decreases t.len() - i,
{
    lemma_str_step_shift(pre, t, i);
    assert((pre + t).len() == pre.len() + t.len());
    match str_step(t, i) {
        StrStep::Done { rest } => {},
        StrStep::Char { c, next } => {
            if i < next <= t.len() {
                lemma_lex_string_shift(pre, t, next);
            }
        },
        StrStep::Bad => {},
    }
}

/// The escaped form of one character reads back as that character.
#[verifier::rlimit(50)]
proof fn lemma_escape_char_step(c: char, rest: Seq<char>)
    ensures
        str_step(escape_char(c) + rest, 0) == (StrStep::Char {
            c,
            next: escape_char(c).len() as int,
        }),
{
    let ec = escape_char(c);
    let full = ec + rest;
    assert(full.len() == ec.len() + rest.len());
    if c == '"' || c == '\\' {
        assert(full[0] == '\\');
        assert(full[1] == ec[1]);
    } else if c == '\u{0008}' || c == '\t' || c == '\n' || c == '\u{000c}' || c == '\r' {
        assert(full[0] == '\\');
        assert(full[1] == ec[1]);
    } else if (c as u32) < 32 {
        let v = c as u32;
        assert(full[0] == '\\');
        assert(full[1] == 'u');
        assert(full[2] == '0');
        assert(full[3] == '0');
        assert(full[4] == hex_char(v as int / 16));
        assert(full[5] == hex_char(v as int % 16));
        lemma_hex_char_val(v as int / 16);
        lemma_hex_char_val(v as int % 16);
        assert(hex_quad_val(full, 2) == v as int);
        assert(hex_quad_at(full, 2));
        assert(hex_quad_val(full, 2) as u32 == v);
        assert(((c as u32) as char) == c);
        assert(char_of_scalar(v) == c);
    } else {
        assert(full[0] == c);
    }
}

/// What the serializer writes inside a JSON string reads back as
/// exactly the text it was made from: the escaped form, up to its
/// closing quote, decodes to the original.
pub proof fn lemma_escape_round_trip(s: Seq<char>)
    ensures
        lex_string(escape_string(s) + seq!['"'], 0) == Some((s, escape_string(s).len() + 1int)),
    decreases s.len(),
{
    let full = escape_string(s) + seq!['"'];
    if s.len() == 0 {
        assert(full =~= seq!['"']);
        assert(full[0] == '"');
        assert(str_step(full, 0) == (StrStep::Done { rest: 1int }));
    } else {
        let c = s[0];
        let ec = escape_char(c);
        let rest_full = escape_string(s.drop_first()) + seq!['"'];
        lemma_escape_cons(s);
        assert(full =~= ec + rest_full);
        lemma_escape_round_trip(s.drop_first());
        lemma_lex_string_shift(ec, rest_full, 0);
        assert(lex_string(full, ec.len() as int) == Some(
            (s.drop_first(), ec.len() + escape_string(s.drop_first()).len() + 1int),
        ));
        lemma_escape_char_step(c, rest_full);
        assert(str_step(full, 0) == (StrStep::Char { c, next: ec.len() as int }));
        assert(seq![c] + s.drop_first() =~= s);
        assert(escape_string(s).len() == ec.len() + escape_string(s.drop_first()).len());
    }
}

/// The error a malformed frame is answered with.
pub struct ParseError;

/// Decode one inbound text frame. Returns the request exactly when the
/// text lies in the frame grammar (`parse_request_model`), and an error
/// for every other text.
pub fn parse_client_request(text: &str) -> (r: Result<ClientRequest, ParseError>)
    ensures
        match r {
            Ok(req) => parse_request_model(text@) == Some(req@),
            Err(_) => parse_request_model(text@) is None,
        },
{
    let chars = str_chars(text);
    let toks = match lex_exec(&chars) {
        Some(t) => t,
        None => {
            return Err(ParseError);
        },
    };
    if toks.len() == 0 {
        return Err(ParseError);
    }
    match &toks[0] {
        Tok::LBrace => {
            proof {
                assert(tok_models(toks@)[0] == JTok::LBrace);
            }
        },
        _ => {
            proof {
                assert(!(tok_models(toks@)[0] is LBrace));
            }
            return Err(ParseError);
        },
    }
    match parse_top_members_exec(&toks, 1) {
        Some((ms, j)) => {
            if j != toks.len() {
                return Err(ParseError);
            }
            match interpret_exec(&ms) {
                Some(req) => Ok(req),
                None => Err(ParseError),
            }
        },
        None => Err(ParseError),
    }
}

} // verus!
