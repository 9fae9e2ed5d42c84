//! The on-disk record format: one JSON object per command, records
//! concatenated with no separator, whitespace between records tolerated.
//!
//! A `Put` of key `k` and value `v` is written `{"Set":{"key":K,"value":V}}`
//! and a `Remove` is written `{"Remove":{"key":K}}`, where `K` and `V` are
//! JSON strings. The writer escapes `"`, `\` and control characters (the
//! common ones by their short escapes, the rest as `\u00XX`); the reader
//! additionally accepts `\/` and general non-surrogate `\uXXXX` escapes.
//!
//! The spec functions here define the format mathematically; the exec
//! functions are verified against them, and the round-trip lemmas show that
//! every encoded record parses back to the command it came from.

use vstd::prelude::*;
use vstd::arithmetic::div_mod::lemma_fundamental_div_mod;
use vstd::utf8::char_u32_cast;
use crate::command::Command;
use crate::command::CommandModel;
use crate::chars::chars_of;
use crate::chars::string_of;

verus! {

// ---------------------------------------------------------------------------
// Whitespace
// ---------------------------------------------------------------------------

/// The whitespace characters a JSON reader skips between records.
pub open spec fn is_ws(c: char) -> bool {
    c == ' ' || c == '\t' || c == '\n' || c == '\r'
}

/// How many whitespace characters the sequence starts with.
pub open spec fn ws_len(s: Seq<char>) -> nat
    decreases s.len(),
{
    if s.len() > 0 && is_ws(s[0]) {
        1 + ws_len(s.drop_first())
    } else {
        0
    }
}

pub proof fn lemma_ws_len_le(s: Seq<char>)
    ensures
        ws_len(s) <= s.len(),
    decreases s.len(),
{
    if s.len() > 0 && is_ws(s[0]) {
        lemma_ws_len_le(s.drop_first());
    }
}

/// Extending a sequence does not change its leading whitespace, unless the
/// whole sequence was whitespace.
pub proof fn lemma_ws_len_concat(s: Seq<char>, t: Seq<char>)
    ensures
        ws_len(s) < s.len() ==> ws_len(s + t) == ws_len(s),
        ws_len(s) == s.len() ==> ws_len(s + t) == s.len() + ws_len(t),
    decreases s.len(),
{
    lemma_ws_len_le(s);
    if s.len() == 0 {
        assert(s + t =~= t);
    } else if is_ws(s[0]) {
        lemma_ws_len_concat(s.drop_first(), t);
        assert((s + t).drop_first() =~= s.drop_first() + t);
    }
}

// ---------------------------------------------------------------------------
// Hex digits
// ---------------------------------------------------------------------------

/// The lowercase hex digit for a value below 16.
pub open spec fn hex_lo(d: int) -> char {
    if d == 0 { '0' } else if d == 1 { '1' } else if d == 2 { '2' } else if d == 3 { '3' }
    else if d == 4 { '4' } else if d == 5 { '5' } else if d == 6 { '6' } else if d == 7 { '7' }
    else if d == 8 { '8' } else if d == 9 { '9' } else if d == 10 { 'a' } else if d == 11 { 'b' }
    else if d == 12 { 'c' } else if d == 13 { 'd' } else if d == 14 { 'e' } else { 'f' }
}

/// The value of a hex digit in either case, or -1 for any other character.
pub open spec fn hex_val(c: char) -> int {
    if c == '0' { 0 } else if c == '1' { 1 } else if c == '2' { 2 } else if c == '3' { 3 }
    else if c == '4' { 4 } else if c == '5' { 5 } else if c == '6' { 6 } else if c == '7' { 7 }
    else if c == '8' { 8 } else if c == '9' { 9 }
    else if c == 'a' || c == 'A' { 10 } else if c == 'b' || c == 'B' { 11 }
    else if c == 'c' || c == 'C' { 12 } else if c == 'd' || c == 'D' { 13 }
    else if c == 'e' || c == 'E' { 14 } else if c == 'f' || c == 'F' { 15 }
    else { -1 }
}

pub proof fn lemma_hex_roundtrip(d: int)
    requires
        0 <= d < 16,
    ensures
        hex_val(hex_lo(d)) == d,
{
}

// ---------------------------------------------------------------------------
// Encoding
// ---------------------------------------------------------------------------

/// How the writer escapes one character inside a JSON string.
pub open spec fn esc(c: char) -> Seq<char> {
    if c == '"' { seq!['\\', '"'] }
    else if c == '\\' { seq!['\\', '\\'] }
    else if c == '\u{8}' { seq!['\\', 'b'] }
    else if c == '\t' { seq!['\\', 't'] }
    else if c == '\n' { seq!['\\', 'n'] }
    else if c == '\u{c}' { seq!['\\', 'f'] }
    else if c == '\r' { seq!['\\', 'r'] }
    else if (c as u32) < 0x20 {
        seq!['\\', 'u', '0', '0', hex_lo((c as u32) as int / 16), hex_lo((c as u32) as int % 16)]
    } else {
        seq![c]
    }
}

/// The escaped form of a whole string body.
pub open spec fn esc_all(s: Seq<char>) -> Seq<char>
    decreases s.len(),
{
    if s.len() == 0 {
        Seq::empty()
    } else {
        esc(s[0]) + esc_all(s.drop_first())
    }
}

pub proof fn lemma_esc_all_snoc(s: Seq<char>, c: char)
    ensures
        esc_all(s.push(c)) == esc_all(s) + esc(c),
    decreases s.len(),
{
    if s.len() == 0 {
        assert(s.push(c).drop_first() =~= Seq::<char>::empty());
        assert(s.push(c)[0] == c);
        assert(esc_all(Seq::<char>::empty()) == Seq::<char>::empty());
        assert(esc_all(s.push(c)) == esc(c) + Seq::<char>::empty());
        assert(esc(c) + Seq::<char>::empty() =~= esc(c));
        assert(esc_all(s) + esc(c) =~= esc(c));
    } else {
        assert(s.push(c).drop_first() =~= s.drop_first().push(c));
        assert(s.push(c)[0] == s[0]);
        lemma_esc_all_snoc(s.drop_first(), c);
        assert(esc_all(s.push(c)) == esc(s[0]) + (esc_all(s.drop_first()) + esc(c)));
        assert(esc(s[0]) + (esc_all(s.drop_first()) + esc(c)) =~= (esc(s[0]) + esc_all(
            s.drop_first(),
        )) + esc(c));
    }
}

/// A JSON string: a quote, the escaped body, a quote.
pub open spec fn enc_str(s: Seq<char>) -> Seq<char> {
    seq!['"'] + esc_all(s) + seq!['"']
}

pub open spec fn put_open() -> Seq<char> {
    seq!['{', '"', 'S', 'e', 't', '"', ':', '{', '"', 'k', 'e', 'y', '"', ':']
}

pub open spec fn put_mid() -> Seq<char> {
    seq![',', '"', 'v', 'a', 'l', 'u', 'e', '"', ':']
}

pub open spec fn rm_open() -> Seq<char> {
    seq!['{', '"', 'R', 'e', 'm', 'o', 'v', 'e', '"', ':', '{', '"', 'k', 'e', 'y', '"', ':']
}

pub open spec fn obj_close() -> Seq<char> {
    seq!['}', '}']
}

/// The record text of one command.
pub open spec fn encode(c: CommandModel) -> Seq<char> {
    match c {
        CommandModel::Put { key, value } => put_open() + enc_str(key) + put_mid() + enc_str(value)
            + obj_close(),
        CommandModel::Remove { key } => rm_open() + enc_str(key) + obj_close(),
    }
}

// ---------------------------------------------------------------------------
// Parsing
// ---------------------------------------------------------------------------

/// What a short escape letter stands for.
pub open spec fn unesc(e: char) -> Option<char> {
    if e == '"' { Some('"') } else if e == '\\' { Some('\\') } else if e == '/' { Some('/') }
    else if e == 'b' { Some('\u{8}') } else if e == 't' { Some('\t') } else if e == 'n' { Some('\n') }
    else if e == 'f' { Some('\u{c}') } else if e == 'r' { Some('\r') } else { None }
}

/// Parse a JSON string body up to and including its closing quote.
/// Returns the decoded content and the number of characters consumed.
pub open spec fn parse_body(s: Seq<char>) -> Option<(Seq<char>, int)>
    decreases s.len(),
{
    if s.len() == 0 {
        None
    } else if s[0] == '"' {
        Some((Seq::empty(), 1))
    } else if s[0] == '\\' {
        if s.len() < 2 {
            None
        } else if s[1] == 'u' {
            if s.len() < 6 {
                None
            } else {
                let h = hex_val(s[2]) * 4096 + hex_val(s[3]) * 256 + hex_val(s[4]) * 16 + hex_val(
                    s[5],
                );
                if hex_val(s[2]) < 0 || hex_val(s[3]) < 0 || hex_val(s[4]) < 0 || hex_val(s[5]) < 0
                    || (0xD800 <= h < 0xE000) {
                    None
                } else {
                    match parse_body(s.skip(6)) {
                        Some((t, n)) => Some((seq![(h as u32) as char] + t, 6 + n)),
                        None => None,
                    }
                }
            }
        } else {
            match unesc(s[1]) {
                Some(c) => match parse_body(s.skip(2)) {
                    Some((t, n)) => Some((seq![c] + t, 2 + n)),
                    None => None,
                },
                None => None,
            }
        }
    } else if (s[0] as u32) < 0x20 {
        None
    } else {
        match parse_body(s.drop_first()) {
            Some((t, n)) => Some((seq![s[0]] + t, 1 + n)),
            None => None,
        }
    }
}

/// Parse a JSON string, opening quote included.
pub open spec fn parse_string(s: Seq<char>) -> Option<(Seq<char>, int)> {
    if s.len() >= 1 && s[0] == '"' {
        match parse_body(s.skip(1)) {
            Some((t, n)) => Some((t, 1 + n)),
            None => None,
        }
    } else {
        None
    }
}

/// True when the sequence starts with the given literal text.
pub open spec fn match_lit(s: Seq<char>, lit: Seq<char>) -> bool {
    lit.len() <= s.len() && s.take(lit.len() as int) == lit
}

/// Parse one command record from the front of the sequence.
/// Returns the command and the number of characters consumed.
pub open spec fn parse_cmd(s: Seq<char>) -> Option<(CommandModel, int)> {
    if match_lit(s, put_open()) {
        match parse_string(s.skip(put_open().len() as int)) {
            Some((k, n1)) => {
                let p1 = put_open().len() + n1;
                if match_lit(s.skip(p1 as int), put_mid()) {
                    match parse_string(s.skip(p1 + put_mid().len())) {
                        Some((v, n2)) => {
                            let p2 = p1 + put_mid().len() + n2;
                            if match_lit(s.skip(p2 as int), obj_close()) {
                                Some((CommandModel::Put { key: k, value: v }, p2 + 2))
                            } else {
                                None
                            }
                        },
                        None => None,
                    }
                } else {
                    None
                }
            },
            None => None,
        }
    } else if match_lit(s, rm_open()) {
        match parse_string(s.skip(rm_open().len() as int)) {
            Some((k, n1)) => {
                let p1 = rm_open().len() + n1;
                if match_lit(s.skip(p1 as int), obj_close()) {
                    Some((CommandModel::Remove { key: k }, p1 + 2))
                } else {
                    None
                }
            },
            None => None,
        }
    } else {
        None
    }
}

/// Parse every record of the log from the given position on, recording for
/// each the offset of its first character (after any whitespace). `None`
/// when the log does not decode cleanly to the end.
pub open spec fn parse_all_from(s: Seq<char>, pos: int) -> Option<Seq<(CommandModel, int)>>
    decreases s.len() - pos,
{
    if pos < 0 || pos > s.len() {
        None
    } else {
        let p = pos + ws_len(s.skip(pos));
        if p >= s.len() {
            Some(Seq::empty())
        } else {
            match parse_cmd(s.skip(p)) {
                Some((c, n)) => if n >= 1 && p + n <= s.len() {
                    match parse_all_from(s, p + n) {
                        Some(r) => Some(seq![(c, p)] + r),
                        None => None,
                    }
                } else {
                    None
                },
                None => None,
            }
        }
    }
}

// ---------------------------------------------------------------------------
// Bounds
// ---------------------------------------------------------------------------

pub proof fn lemma_parse_body_bounds(s: Seq<char>)
    ensures
        parse_body(s) matches Some(r) ==> 1 <= r.1 <= s.len(),
    decreases s.len(),
{
    if s.len() == 0 || s[0] == '"' {
    } else if s[0] == '\\' {
        if s.len() >= 6 && s[1] == 'u' {
            lemma_parse_body_bounds(s.skip(6));
        } else if s.len() >= 2 {
            lemma_parse_body_bounds(s.skip(2));
        }
    } else {
        lemma_parse_body_bounds(s.drop_first());
        assert(s.drop_first() =~= s.skip(1));
    }
}

pub proof fn lemma_parse_string_bounds(s: Seq<char>)
    ensures
        parse_string(s) matches Some(r) ==> 2 <= r.1 <= s.len(),
{
    if s.len() >= 1 && s[0] == '"' {
        lemma_parse_body_bounds(s.skip(1));
    }
}

pub proof fn lemma_parse_cmd_bounds(s: Seq<char>)
    ensures
        parse_cmd(s) matches Some(r) ==> 1 <= r.1 <= s.len(),
{
    if match_lit(s, put_open()) {
        lemma_parse_string_bounds(s.skip(put_open().len() as int));
        if let Some((k, n1)) = parse_string(s.skip(put_open().len() as int)) {
            let p1 = put_open().len() + n1;
            lemma_parse_string_bounds(s.skip(p1 + put_mid().len()));
        }
    } else if match_lit(s, rm_open()) {
        lemma_parse_string_bounds(s.skip(rm_open().len() as int));
    }
}

// ---------------------------------------------------------------------------
// Extension: a successful parse is unchanged by appending more input
// ---------------------------------------------------------------------------

pub proof fn lemma_parse_body_extend(s: Seq<char>, t: Seq<char>)
    ensures
        parse_body(s) matches Some(r) ==> parse_body(s + t) == parse_body(s),
    decreases s.len(),
{
    if parse_body(s) is Some {
        let u = s + t;
        assert(u[0] == s[0]);
        if s[0] == '"' {
        } else if s[0] == '\\' {
            assert(u[1] == s[1]);
            if s[1] == 'u' {
                assert(u[2] == s[2] && u[3] == s[3] && u[4] == s[4] && u[5] == s[5]);
                assert(u.skip(6) =~= s.skip(6) + t);
                lemma_parse_body_extend(s.skip(6), t);
            } else {
                assert(u.skip(2) =~= s.skip(2) + t);
                lemma_parse_body_extend(s.skip(2), t);
            }
        } else {
            assert(u.drop_first() =~= s.drop_first() + t);
            lemma_parse_body_extend(s.drop_first(), t);
        }
    }
}

pub proof fn lemma_parse_string_extend(s: Seq<char>, t: Seq<char>)
    ensures
        parse_string(s) matches Some(r) ==> parse_string(s + t) == parse_string(s),
{
    if parse_string(s) is Some {
        assert((s + t)[0] == s[0]);
        assert((s + t).skip(1) =~= s.skip(1) + t);
        lemma_parse_body_extend(s.skip(1), t);
    }
}

pub proof fn lemma_match_lit_extend(s: Seq<char>, t: Seq<char>, lit: Seq<char>)
    requires
        lit.len() <= s.len(),
    ensures
        match_lit(s + t, lit) == match_lit(s, lit),
{
    assert((s + t).take(lit.len() as int) =~= s.take(lit.len() as int));
}

pub proof fn lemma_parse_cmd_extend(s: Seq<char>, t: Seq<char>)
    ensures
        parse_cmd(s) matches Some(r) ==> parse_cmd(s + t) == parse_cmd(s),
{
    if parse_cmd(s) is Some {
        let u = s + t;
        if match_lit(s, put_open()) {
            lemma_match_lit_extend(s, t, put_open());
            let o = put_open().len() as int;
            assert(u.skip(o) =~= s.skip(o) + t);
            lemma_parse_string_extend(s.skip(o), t);
            lemma_parse_string_bounds(s.skip(o));
            if let Some((k, n1)) = parse_string(s.skip(o)) {
                let p1 = o + n1;
                assert(u.skip(p1) =~= s.skip(p1) + t);
                lemma_match_lit_extend(s.skip(p1), t, put_mid());
                if match_lit(s.skip(p1), put_mid()) {
                    let m = p1 + put_mid().len();
                    assert(u.skip(m) =~= s.skip(m) + t);
                    lemma_parse_string_extend(s.skip(m), t);
                    lemma_parse_string_bounds(s.skip(m));
                    if let Some((v, n2)) = parse_string(s.skip(m)) {
                        let p2 = m + n2;
                        assert(u.skip(p2) =~= s.skip(p2) + t);
                        lemma_match_lit_extend(s.skip(p2), t, obj_close());
                    }
                }
            }
        } else {
            assert(match_lit(s, rm_open()));
            // The two openings differ at their third character, so extending
            // the input cannot make the `Put` opening match.
            assert(put_open()[2] == 'S' && rm_open()[2] == 'R');
            assert(s[2] == s.take(rm_open().len() as int)[2]);
            if match_lit(u, put_open()) {
                assert(u.take(put_open().len() as int)[2] == u[2]);
                assert(u[2] == s[2]);
                assert(false);
            }
            lemma_match_lit_extend(s, t, rm_open());
            let o = rm_open().len() as int;
            assert(u.skip(o) =~= s.skip(o) + t);
            lemma_parse_string_extend(s.skip(o), t);
            lemma_parse_string_bounds(s.skip(o));
            if let Some((k, n1)) = parse_string(s.skip(o)) {
                let p1 = o + n1;
                assert(u.skip(p1) =~= s.skip(p1) + t);
                lemma_match_lit_extend(s.skip(p1), t, obj_close());
            }
        }
    }
}

// ---------------------------------------------------------------------------
// Round trip: an encoded record parses back to the command it came from
// ---------------------------------------------------------------------------

#[verifier::rlimit(100)]
#[verifier::spinoff_prover]
pub proof fn lemma_parse_body_esc_all(k: Seq<char>, rest: Seq<char>)
    ensures
        parse_body(esc_all(k) + seq!['"'] + rest) == Some((k, (esc_all(k).len() + 1) as int)),
    decreases k.len(),
{
    let s = esc_all(k) + seq!['"'] + rest;
    if k.len() == 0 {
        assert(esc_all(k) == Seq::<char>::empty());
        assert(s[0] == '"');
        assert(parse_body(s) == Some((Seq::<char>::empty(), 1int)));
        assert(k =~= Seq::<char>::empty());
    } else {
        let c = k[0];
        let kd = k.drop_first();
        let e = esc(c);
        let s2 = esc_all(kd) + seq!['"'] + rest;
        assert(esc_all(k) == e + esc_all(kd));
        assert(s =~= e + s2);
        lemma_parse_body_esc_all(kd, rest);
        if c == '"' || c == '\\' || c == '\u{8}' || c == '\t' || c == '\n' || c == '\u{c}' || c
            == '\r' {
            assert(e.len() == 2 && e[0] == '\\');
            assert(s[0] == '\\' && s[1] == e[1]);
            assert(s[1] != 'u');
            assert(unesc(e[1]) == Some(c));
            assert(s.skip(2) =~= s2);
            assert(parse_body(s) == Some((seq![c] + kd, (2 + (esc_all(kd).len() + 1)) as int)));
            assert(seq![c] + kd =~= k);
        } else if (c as u32) < 0x20 {
            let cu = (c as u32) as int;
            assert(e == seq!['\\', 'u', '0', '0', hex_lo(cu / 16), hex_lo(cu % 16)]);
            assert(s[0] == '\\' && s[1] == 'u' && s[2] == '0' && s[3] == '0' && s[4] == hex_lo(
                cu / 16,
            ) && s[5] == hex_lo(cu % 16));
            lemma_fundamental_div_mod(cu, 16);
            assert(0 <= cu / 16 < 2 && 0 <= cu % 16 < 16);
            lemma_hex_roundtrip(cu / 16);
            lemma_hex_roundtrip(cu % 16);
            let h = hex_val(s[2]) * 4096 + hex_val(s[3]) * 256 + hex_val(s[4]) * 16 + hex_val(s[5]);
            assert(h == cu);
            assert(!(0xD800 <= h < 0xE000));
            assert(h as u32 == c as u32);
            char_u32_cast(c, h as u32);
            assert((h as u32) as char == c);
            assert(s.skip(6) =~= s2);
            assert(parse_body(s) == Some((seq![c] + kd, (6 + (esc_all(kd).len() + 1)) as int)));
            assert(seq![c] + kd =~= k);
        } else {
            assert(e == seq![c]);
            assert(s[0] == c);
            assert(s[0] != '"' && s[0] != '\\' && !((s[0] as u32) < 0x20));
            assert(s.drop_first() =~= s2);
            assert(parse_body(s) == Some((seq![c] + kd, (1 + (esc_all(kd).len() + 1)) as int)));
            assert(seq![c] + kd =~= k);
        }
    }
}

pub proof fn lemma_parse_string_enc(k: Seq<char>, rest: Seq<char>)
    ensures
        parse_string(enc_str(k) + rest) == Some((k, enc_str(k).len() as int)),
        enc_str(k).len() >= 2,
{
    let s = enc_str(k) + rest;
    assert(s[0] == '"');
    assert(s.skip(1) =~= esc_all(k) + seq!['"'] + rest);
    lemma_parse_body_esc_all(k, rest);
}

#[verifier::rlimit(100)]
#[verifier::spinoff_prover]
pub proof fn lemma_parse_cmd_encode(c: CommandModel, rest: Seq<char>)
    ensures
        parse_cmd(encode(c) + rest) == Some((c, encode(c).len() as int)),
    decreases rest.len(),
{
    let s = encode(c) + rest;
    match c {
        CommandModel::Put { key, value } => {
            let r1 = put_mid() + enc_str(value) + obj_close() + rest;
            let r2 = obj_close() + rest;
            let o = put_open().len() as int;
            assert(s.take(o) =~= put_open());
            assert(match_lit(s, put_open()));
            assert(s.skip(o) =~= enc_str(key) + r1);
            lemma_parse_string_enc(key, r1);
            let p1 = o + enc_str(key).len() as int;
            assert(s.skip(p1) =~= put_mid() + (enc_str(value) + r2));
            assert(s.skip(p1).take(put_mid().len() as int) =~= put_mid());
            assert(match_lit(s.skip(p1), put_mid()));
            let m = p1 + put_mid().len() as int;
            assert(s.skip(m) =~= enc_str(value) + r2);
            lemma_parse_string_enc(value, r2);
            let p2 = m + enc_str(value).len() as int;
            assert(s.skip(p2) =~= obj_close() + rest);
            assert(s.skip(p2).take(obj_close().len() as int) =~= obj_close());
            assert(match_lit(s.skip(p2), obj_close()));
            assert(p2 + 2 == encode(c).len());
            assert(parse_cmd(s) == Some((c, encode(c).len() as int)));
        },
        CommandModel::Remove { key } => {
            let r2 = obj_close() + rest;
            let o = rm_open().len() as int;
            assert(s.take(o) =~= rm_open());
            assert(match_lit(s, rm_open()));
            assert(put_open()[2] == 'S' && rm_open()[2] == 'R');
            if match_lit(s, put_open()) {
                assert(s.take(put_open().len() as int)[2] == s[2]);
                assert(s.take(o)[2] == s[2]);
                assert(false);
            }
            assert(s.skip(o) =~= enc_str(key) + r2);
            lemma_parse_string_enc(key, r2);
            let p1 = o + enc_str(key).len() as int;
            assert(s.skip(p1) =~= obj_close() + rest);
            assert(s.skip(p1).take(obj_close().len() as int) =~= obj_close());
            assert(match_lit(s.skip(p1), obj_close()));
            assert(p1 + 2 == encode(c).len());
            assert(parse_cmd(s) == Some((c, encode(c).len() as int)));
        },
    }
}

// ---------------------------------------------------------------------------
// Appending a record to a well-formed log
// ---------------------------------------------------------------------------

/// Every record is at least one character long, and the record text of a
/// command starts with a brace, never with whitespace.
pub proof fn lemma_encode_shape(c: CommandModel)
    ensures
        encode(c).len() >= 1,
        encode(c)[0] == '{',
        ws_len(encode(c)) == 0,
{
    match c {
        CommandModel::Put { key, value } => {
            assert(encode(c)[0] == put_open()[0]);
        },
        CommandModel::Remove { key } => {
            assert(encode(c)[0] == rm_open()[0]);
        },
    }
    assert(!is_ws('{'));
}

/// Appending the record text of a command to a log that parses cleanly
/// yields a log that parses to the same records plus the new one, whose
/// offset is the old log's length.
#[verifier::rlimit(100)]
#[verifier::spinoff_prover]
pub proof fn lemma_parse_all_append(s: Seq<char>, pos: int, c: CommandModel)
    requires
        0 <= pos <= s.len(),
        parse_all_from(s, pos) is Some,
    ensures
        parse_all_from(s + encode(c), pos) == Some(
            parse_all_from(s, pos).unwrap() + seq![(c, s.len() as int)],
        ),
    decreases s.len() - pos,
{
    let u = s + encode(c);
    let tail = s.skip(pos);
    lemma_ws_len_le(tail);
    lemma_encode_shape(c);
    assert(u.skip(pos) =~= tail + encode(c));
    lemma_ws_len_concat(tail, encode(c));
    let p = pos + ws_len(tail) as int;
    if p >= s.len() {
        assert(ws_len(tail) == tail.len());
        assert(p == s.len());
        assert(ws_len(u.skip(pos)) == tail.len());
        assert(u.skip(p) =~= encode(c));
        lemma_parse_cmd_encode(c, Seq::empty());
        assert(encode(c) + Seq::<char>::empty() =~= encode(c));
        assert(parse_cmd(u.skip(p)) == Some((c, encode(c).len() as int)));
        let q = p + encode(c).len();
        assert(q == u.len());
        assert(u.skip(q) =~= Seq::<char>::empty());
        assert(ws_len(u.skip(q)) == 0);
        assert(parse_all_from(u, q) == Some(Seq::<(CommandModel, int)>::empty()));
        assert(parse_all_from(u, pos) == Some(seq![(c, p)] + Seq::<(CommandModel, int)>::empty()));
        assert(seq![(c, p)] + Seq::<(CommandModel, int)>::empty() =~= seq![(c, s.len() as int)]);
        assert(parse_all_from(s, pos).unwrap() =~= Seq::<(CommandModel, int)>::empty());
        assert(parse_all_from(s, pos).unwrap() + seq![(c, s.len() as int)] =~= seq![
            (c, s.len() as int),
        ]);
    } else {
        assert(ws_len(tail) < tail.len());
        assert(ws_len(u.skip(pos)) == ws_len(tail));
        assert(u.skip(p) =~= s.skip(p) + encode(c));
        match parse_cmd(s.skip(p)) {
            Some((c0, n)) => {
                lemma_parse_cmd_extend(s.skip(p), encode(c));
                lemma_parse_cmd_bounds(s.skip(p));
                assert(parse_all_from(s, p + n) is Some);
                lemma_parse_all_append(s, p + n, c);
                let r = parse_all_from(s, p + n).unwrap();
                assert(parse_all_from(u, p + n) == Some(r + seq![(c, s.len() as int)]));
                assert(parse_all_from(u, pos) == Some(seq![(c0, p)] + (r + seq![
                    (c, s.len() as int),
                ])));
                assert(seq![(c0, p)] + (r + seq![(c, s.len() as int)]) =~= (seq![(c0, p)] + r)
                    + seq![(c, s.len() as int)]);
                assert(parse_all_from(s, pos).unwrap() == seq![(c0, p)] + r);
            },
            None => {
                assert(false);
            },
        }
    }
}

// ---------------------------------------------------------------------------
// Executable encoder
// ---------------------------------------------------------------------------

fn hex_digit_lo(d: u32) -> (c: char)
    requires
        d < 16,
    ensures
        c == hex_lo(d as int),
{
    if d == 0 { '0' } else if d == 1 { '1' } else if d == 2 { '2' } else if d == 3 { '3' }
    else if d == 4 { '4' } else if d == 5 { '5' } else if d == 6 { '6' } else if d == 7 { '7' }
    else if d == 8 { '8' } else if d == 9 { '9' } else if d == 10 { 'a' } else if d == 11 { 'b' }
    else if d == 12 { 'c' } else if d == 13 { 'd' } else if d == 14 { 'e' } else { 'f' }
}

/// Append the escaped body of `s` to `out`.
fn push_escaped(out: &mut Vec<char>, s: &Vec<char>)
    ensures
        final(out)@ == old(out)@ + esc_all(s@),
{
    let ghost base = out@;
    let mut i: usize = 0;
    while i < s.len()
        invariant
            i <= s.len(),
            out@ == base + esc_all(s@.take(i as int)),
        decreases s.len() - i,
    {
        let ghost before = out@;
        let c = s[i];
        if c == '"' {
            out.push('\\');
            out.push('"');
        } else if c == '\\' {
            out.push('\\');
            out.push('\\');
        } else if c == '\u{8}' {
            out.push('\\');
            out.push('b');
        } else if c == '\t' {
            out.push('\\');
            out.push('t');
        } else if c == '\n' {
            out.push('\\');
            out.push('n');
        } else if c == '\u{c}' {
            out.push('\\');
            out.push('f');
        } else if c == '\r' {
            out.push('\\');
            out.push('r');
        } else if (c as u32) < 0x20 {
            out.push('\\');
            out.push('u');
            out.push('0');
            out.push('0');
            out.push(hex_digit_lo((c as u32) / 16));
            out.push(hex_digit_lo((c as u32) % 16));
        } else {
            out.push(c);
        }
        proof {
            assert(out@ =~= before + esc(c));
            lemma_esc_all_snoc(s@.take(i as int), c);
            assert(s@.take(i + 1) =~= s@.take(i as int).push(c));
            assert(out@ =~= base + esc_all(s@.take(i + 1)));
        }
        i = i + 1;
    }
    proof {
        assert(s@.take(s@.len() as int) =~= s@);
    }
}

/// Append the JSON string form of `s` to `out`.
fn push_string(out: &mut Vec<char>, s: &Vec<char>)
    ensures
        final(out)@ == old(out)@ + enc_str(s@),
{
    let ghost base = out@;
    out.push('"');
    push_escaped(out, s);
    out.push('"');
    proof {
        assert(out@ =~= base + enc_str(s@));
    }
}

fn put_open_vec() -> (v: Vec<char>)
    ensures
        v@ == put_open(),
{
    let mut v: Vec<char> = Vec::new();
    v.push('{');
    v.push('"');
    v.push('S');
    v.push('e');
    v.push('t');
    v.push('"');
    v.push(':');
    v.push('{');
    v.push('"');
    v.push('k');
    v.push('e');
    v.push('y');
    v.push('"');
    v.push(':');
    proof {
        assert(v@ =~= put_open());
    }
    v
}

fn put_mid_vec() -> (v: Vec<char>)
    ensures
        v@ == put_mid(),
{
    let mut v: Vec<char> = Vec::new();
    v.push(',');
    v.push('"');
    v.push('v');
    v.push('a');
    v.push('l');
    v.push('u');
    v.push('e');
    v.push('"');
    v.push(':');
    proof {
        assert(v@ =~= put_mid());
    }
    v
}

fn rm_open_vec() -> (v: Vec<char>)
    ensures
        v@ == rm_open(),
{
    let mut v: Vec<char> = Vec::new();
    v.push('{');
    v.push('"');
    v.push('R');
    v.push('e');
    v.push('m');
    v.push('o');
    v.push('v');
    v.push('e');
    v.push('"');
    v.push(':');
    v.push('{');
    v.push('"');
    v.push('k');
    v.push('e');
    v.push('y');
    v.push('"');
    v.push(':');
    proof {
        assert(v@ =~= rm_open());
    }
    v
}

fn obj_close_vec() -> (v: Vec<char>)
    ensures
        v@ == obj_close(),
{
    let mut v: Vec<char> = Vec::new();
    v.push('}');
    v.push('}');
    proof {
        assert(v@ =~= obj_close());
    }
    v
}

/// The record text of a `Put` of the given key and value.
pub fn encode_put(key: &Vec<char>, value: &Vec<char>) -> (r: Vec<char>)
    ensures
        r@ == encode(CommandModel::Put { key: key@, value: value@ }),
{
    let mut r = put_open_vec();
    push_string(&mut r, key);
    let mut mid = put_mid_vec();
    r.append(&mut mid);
    push_string(&mut r, value);
    let mut close = obj_close_vec();
    r.append(&mut close);
    proof {
        assert(r@ =~= encode(CommandModel::Put { key: key@, value: value@ }));
    }
    r
}

/// The record text of a `Remove` of the given key.
pub fn encode_remove(key: &Vec<char>) -> (r: Vec<char>)
    ensures
        r@ == encode(CommandModel::Remove { key: key@ }),
{
    let mut r = rm_open_vec();
    push_string(&mut r, key);
    let mut close = obj_close_vec();
    r.append(&mut close);
    proof {
        assert(r@ =~= encode(CommandModel::Remove { key: key@ }));
    }
    r
}

/// The record text of a command.
pub fn encode_command(cmd: &Command) -> (r: Vec<char>)
    ensures
        r@ == encode(cmd@),
{
    match cmd {
        Command::Put { key, value } => {
            let k = chars_of(key.as_str());
            let v = chars_of(value.as_str());
            encode_put(&k, &v)
        },
        Command::Remove { key } => {
            let k = chars_of(key.as_str());
            encode_remove(&k)
        },
    }
}

// ---------------------------------------------------------------------------
// Executable decoder
// ---------------------------------------------------------------------------

/// True when the character is whitespace a reader skips between records.
pub fn is_ws_char(c: char) -> (r: bool)
    ensures
        r == is_ws(c),
{
    c == ' ' || c == '\t' || c == '\n' || c == '\r'
}

fn hex_value(c: char) -> (r: Option<u8>)
    ensures
        match r {
            Some(v) => v < 16 && hex_val(c) == v as int,
            None => hex_val(c) == -1,
        },
{
    if c == '0' { Some(0) } else if c == '1' { Some(1) } else if c == '2' { Some(2) }
    else if c == '3' { Some(3) } else if c == '4' { Some(4) } else if c == '5' { Some(5) }
    else if c == '6' { Some(6) } else if c == '7' { Some(7) } else if c == '8' { Some(8) }
    else if c == '9' { Some(9) } else if c == 'a' || c == 'A' { Some(10) }
    else if c == 'b' || c == 'B' { Some(11) } else if c == 'c' || c == 'C' { Some(12) }
    else if c == 'd' || c == 'D' { Some(13) } else if c == 'e' || c == 'E' { Some(14) }
    else if c == 'f' || c == 'F' { Some(15) } else { None }
}

fn unesc_char(e: char) -> (r: Option<char>)
    ensures
        r == unesc(e),
{
    if e == '"' { Some('"') } else if e == '\\' { Some('\\') } else if e == '/' { Some('/') }
    else if e == 'b' { Some('\u{8}') } else if e == 't' { Some('\t') } else if e == 'n' { Some('\n') }
    else if e == 'f' { Some('\u{c}') } else if e == 'r' { Some('\r') } else { None }
}

/// Relies on `char::from_u32`: for a Unicode scalar value (not a surrogate,
/// at most 0x10FFFF) it returns the character with that code point.
#[verifier::external_body]
fn char_from_scalar(u: u32) -> (c: char)
    requires
        u < 0xD800 || (0xE000 <= u && u <= 0x10FFFF),
    ensures
        c as u32 == u,
{
    match char::from_u32(u) {
        Some(c) => c,
        None => ' ',
    }
}

fn match_at(log: &Vec<char>, pos: usize, lit: &Vec<char>) -> (r: bool)
    requires
        pos <= log.len(),
    ensures
        r == match_lit(log@.skip(pos as int), lit@),
{
    if log.len() - pos < lit.len() {
        return false;
    }
    let mut i: usize = 0;
    while i < lit.len()
        invariant
            pos + lit@.len() <= log@.len(),
            log@.len() <= usize::MAX,
            i <= lit@.len(),
            forall|j: int| 0 <= j < i ==> log@[pos + j] == lit@[j],
        decreases lit.len() - i,
    {
        if log[pos + i] != lit[i] {
            proof {
                if match_lit(log@.skip(pos as int), lit@) {
                    assert(log@.skip(pos as int).take(lit@.len() as int)[i as int] == lit@[
                        i as int
                    ]);
                    assert(log@.skip(pos as int)[i as int] == log@[pos + i]);
                }
            }
            return false;
        }
        i = i + 1;
    }
    proof {
        assert(log@.skip(pos as int).take(lit@.len() as int) =~= lit@);
    }
    true
}

/// Decode one JSON string starting at `pos`, returning its content and the
/// number of characters consumed.
fn decode_string(log: &Vec<char>, pos: usize) -> (r: Option<(Vec<char>, usize)>)
    requires
        pos <= log.len(),
    ensures
        match r {
            Some(p) => parse_string(log@.skip(pos as int)) == Some((p.0@, p.1 as int)) && 2 <= p.1
                && pos + p.1 <= log.len(),
            None => parse_string(log@.skip(pos as int)) is None,
        },
{
    if pos == log.len() || log[pos] != '"' {
        proof {
            if pos < log@.len() {
                assert(log@.skip(pos as int)[0] == log@[pos as int]);
            }
        }
        return None;
    }
    proof {
        assert(log@.skip(pos as int)[0] == '"');
        assert(log@.skip(pos as int).skip(1) =~= log@.skip(pos + 1));
    }
    let start: usize = pos + 1;
    let mut cur: usize = start;
    let mut acc: Vec<char> = Vec::new();
    loop
        invariant
            pos + 1 == start,
            start <= cur <= log.len(),
            pos < log@.len(),
            log@[pos as int] == '"',
            parse_body(log@.skip(start as int)) == (match parse_body(log@.skip(cur as int)) {
                Some((t, m)) => Some((acc@ + t, (cur - start) + m)),
                None => None::<(Seq<char>, int)>,
            }),
        decreases log.len() - cur,
    {
        proof {
            assert(log@.skip(pos as int)[0] == log@[pos as int]);
            assert(log@.skip(pos as int).skip(1) =~= log@.skip(start as int));
            assert(log@.skip(pos as int).len() >= 1);
        }
        if cur == log.len() {
            proof {
                assert(log@.skip(cur as int).len() == 0);
            }
            return None;
        }
        let c = log[cur];
        proof {
            assert(log@.skip(cur as int)[0] == c);
        }
        if c == '"' {
            proof {
                assert(parse_body(log@.skip(cur as int)) == Some((Seq::<char>::empty(), 1int)));
                assert(acc@ + Seq::<char>::empty() =~= acc@);
                assert(log@.skip(pos as int)[0] == '"');
            }
            let n: usize = cur + 1 - pos;
            return Some((acc, n));
        } else if c == '\\' {
            if cur + 1 == log.len() {
                proof {
                    assert(log@.skip(cur as int).len() == 1);
                }
                return None;
            }
            let e = log[cur + 1];
            proof {
                assert(log@.skip(cur as int)[1] == e);
            }
            if e == 'u' {
                if log.len() - cur < 6 {
                    proof {
                        assert(log@.skip(cur as int).len() < 6);
                    }
                    return None;
                }
                proof {
                    assert(log@.skip(cur as int)[2] == log@[cur + 2]);
                    assert(log@.skip(cur as int)[3] == log@[cur + 3]);
                    assert(log@.skip(cur as int)[4] == log@[cur + 4]);
                    assert(log@.skip(cur as int)[5] == log@[cur + 5]);
                }
                let d1 = hex_value(log[cur + 2]);
                let d2 = hex_value(log[cur + 3]);
                let d3 = hex_value(log[cur + 4]);
                let d4 = hex_value(log[cur + 5]);
                if d1.is_none() || d2.is_none() || d3.is_none() || d4.is_none() {
                    return None;
                }
                let h: u32 = (d1.unwrap() as u32) * 4096 + (d2.unwrap() as u32) * 256 + (
                d3.unwrap() as u32) * 16 + (d4.unwrap() as u32);
                if 0xD800 <= h && h < 0xE000 {
                    return None;
                }
                let ch = char_from_scalar(h);
                let ghost s_cur = log@.skip(cur as int);
                proof {
                    let hs = hex_val(s_cur[2]) * 4096 + hex_val(s_cur[3]) * 256 + hex_val(s_cur[4])
                        * 16 + hex_val(s_cur[5]);
                    assert(hs == h as int);
                    char_u32_cast(ch, h);
                    assert((hs as u32) as char == ch);
                    assert(log@.skip(cur as int).skip(6) =~= log@.skip(cur + 6));
                }
                acc.push(ch);
                proof {
                    if let Some((t, m)) = parse_body(log@.skip(cur + 6)) {
                        assert(parse_body(log@.skip(cur as int)) == Some(
                            (seq![ch] + t, 6 + m),
                        ));
                        assert(acc@ + t =~= acc@.drop_last() + (seq![ch] + t));
                    }
                }
                cur = cur + 6;
            } else {
                let u = unesc_char(e);
                match u {
                    None => {
                        return None;
                    },
                    Some(ch) => {
                        proof {
                            assert(log@.skip(cur as int).skip(2) =~= log@.skip(cur + 2));
                        }
                        acc.push(ch);
                        proof {
                            if let Some((t, m)) = parse_body(log@.skip(cur + 2)) {
                                assert(parse_body(log@.skip(cur as int)) == Some(
                                    (seq![ch] + t, 2 + m),
                                ));
                                assert(acc@ + t =~= acc@.drop_last() + (seq![ch] + t));
                            }
                        }
                        cur = cur + 2;
                    },
                }
            }
        } else if (c as u32) < 0x20 {
            return None;
        } else {
            proof {
                assert(log@.skip(cur as int).drop_first() =~= log@.skip(cur + 1));
            }
            acc.push(c);
            proof {
                if let Some((t, m)) = parse_body(log@.skip(cur + 1)) {
                    assert(parse_body(log@.skip(cur as int)) == Some((seq![c] + t, 1 + m)));
                    assert(acc@ + t =~= acc@.drop_last() + (seq![c] + t));
                }
            }
            cur = cur + 1;
        }
    }
}

/// Decode one command record starting at `pos`, returning the command and
/// the number of characters consumed.
pub fn decode_one(log: &Vec<char>, pos: usize) -> (r: Option<(Command, usize)>)
    requires
        pos <= log.len(),
    ensures
        match r {
            Some(p) => parse_cmd(log@.skip(pos as int)) == Some((p.0@, p.1 as int)) && 1 <= p.1
                && pos + p.1 <= log.len(),
            None => parse_cmd(log@.skip(pos as int)) is None,
        },
{
    let ghost s = log@.skip(pos as int);
    let po = put_open_vec();
    if match_at(log, pos, &po) {
        proof {
            assert(put_open().len() == 14);
            assert(s.skip(14) =~= log@.skip(pos + 14));
        }
        match decode_string(log, pos + 14) {
            None => {
                return None;
            },
            Some((kc, n1)) => {
                let p1 = pos + 14 + n1;
                proof {
                    assert(s.skip(14 + n1 as int) =~= log@.skip(p1 as int));
                }
                let pm = put_mid_vec();
                if !match_at(log, p1, &pm) {
                    return None;
                }
                proof {
                    assert(put_mid().len() == 9);
                    assert(s.skip(14 + n1 as int + 9) =~= log@.skip(p1 + 9));
                }
                match decode_string(log, p1 + 9) {
                    None => {
                        return None;
                    },
                    Some((vc, n2)) => {
                        let p2 = p1 + 9 + n2;
                        proof {
                            assert(s.skip(14 + n1 as int + 9 + n2 as int) =~= log@.skip(
                                p2 as int,
                            ));
                        }
                        let oc = obj_close_vec();
                        if !match_at(log, p2, &oc) {
                            return None;
                        }
                        let cmd = Command::Put { key: string_of(&kc), value: string_of(&vc) };
                        let n = p2 + 2 - pos;
                        proof {
                            assert(cmd@ == CommandModel::Put { key: kc@, value: vc@ });
                            assert(parse_cmd(s) == Some((cmd@, n as int)));
                        }
                        return Some((cmd, n));
                    },
                }
            },
        }
    } else {
        let ro = rm_open_vec();
        if !match_at(log, pos, &ro) {
            return None;
        }
        proof {
            assert(rm_open().len() == 17);
            assert(s.skip(17) =~= log@.skip(pos + 17));
        }
        match decode_string(log, pos + 17) {
            None => {
                return None;
            },
            Some((kc, n1)) => {
                let p1 = pos + 17 + n1;
                proof {
                    assert(s.skip(17 + n1 as int) =~= log@.skip(p1 as int));
                }
                let oc = obj_close_vec();
                if !match_at(log, p1, &oc) {
                    return None;
                }
                let cmd = Command::Remove { key: string_of(&kc) };
                let n = p1 + 2 - pos;
                proof {
                    assert(cmd@ == CommandModel::Remove { key: kc@ });
                    assert(parse_cmd(s) == Some((cmd@, n as int)));
                }
                return Some((cmd, n));
            },
        }
    }
}

} // verus!
