//! The persisted record: a pretty-printed JSON object with three named
//! lanes, and its parser.
//!
//! The format is the library's own external interface, so both directions
//! are specified exactly: `emit_store` defines the text that is written, and
//! `parse_store_text` defines which texts are accepted and what store they
//! denote.  Parsing what the emitter wrote yields the original store
//! (`lemma_store_round_trip`).
//!
//! The accepted texts are: arbitrary whitespace around tokens; the three
//! members `file`, `windows` and `terminal`, each exactly once, in any
//! order; strings with the standard JSON escapes, including `\uXXXX`
//! basic-plane escapes and surrogate pairs for supplementary characters;
//! and `true`/`false` flags.  A member with any other name is malformed:
//! the record holds the three lanes and nothing else.

use vstd::prelude::*;
use vstd::string::StrSliceExecFns;

use crate::store::Commands;
use crate::store::StoreModel;
use crate::util::chars_of_str;
use crate::util::string_from_chars;

verus! {

broadcast use vstd::utf8::char_is_scalar, vstd::utf8::char_u32_cast;

/// JSON whitespace.
pub open spec fn is_ws(c: char) -> bool {
    c == ' ' || c == '\n' || c == '\r' || c == '\t'
}

/// A hexadecimal digit, either case.
pub open spec fn is_hex_digit(c: char) -> bool {
    let u = c as u32;
    (48 <= u && u <= 57) || (97 <= u && u <= 102) || (65 <= u && u <= 70)
}

/// The value of a hexadecimal digit.
pub open spec fn hex_value(c: char) -> int
    recommends
        is_hex_digit(c),
{
    let u = c as u32;
    if 48 <= u && u <= 57 {
        u - 48
    } else if 97 <= u && u <= 102 {
        u - 87
    } else {
        u - 55
    }
}

/// The lowercase hexadecimal digit for a value below sixteen.
pub open spec fn hex_char(v: int) -> char
    recommends
        0 <= v < 16,
{
    if v == 0 {
        '0'
    } else if v == 1 {
        '1'
    } else if v == 2 {
        '2'
    } else if v == 3 {
        '3'
    } else if v == 4 {
        '4'
    } else if v == 5 {
        '5'
    } else if v == 6 {
        '6'
    } else if v == 7 {
        '7'
    } else if v == 8 {
        '8'
    } else if v == 9 {
        '9'
    } else if v == 10 {
        'a'
    } else if v == 11 {
        'b'
    } else if v == 12 {
        'c'
    } else if v == 13 {
        'd'
    } else if v == 14 {
        'e'
    } else {
        'f'
    }
}

/// The character a simple (single-letter) escape denotes, if any.
pub open spec fn simple_escape(e: char) -> Option<char> {
    if e == '"' {
        Some('"')
    } else if e == '\\' {
        Some('\\')
    } else if e == '/' {
        Some('/')
    } else if e == 'b' {
        Some('\u{8}')
    } else if e == 'f' {
        Some('\u{c}')
    } else if e == 'n' {
        Some('\n')
    } else if e == 'r' {
        Some('\r')
    } else if e == 't' {
        Some('\t')
    } else {
        None
    }
}

/// How the emitter writes one character inside a string: quote, backslash
/// and the named control characters get their short escapes, other control
/// characters a `\u00XX` escape, everything else stands as itself.
pub open spec fn escape_char(c: char) -> Seq<char> {
    if c == '"' {
        seq!['\\', '"']
    } else if c == '\\' {
        seq!['\\', '\\']
    } else if c == '\u{8}' {
        seq!['\\', 'b']
    } else if c == '\u{c}' {
        seq!['\\', 'f']
    } else if c == '\n' {
        seq!['\\', 'n']
    } else if c == '\r' {
        seq!['\\', 'r']
    } else if c == '\t' {
        seq!['\\', 't']
    } else if (c as u32) < 0x20 {
        seq!['\\', 'u', '0', '0', hex_char((c as u32) as int / 16), hex_char((c as u32) as int % 16)]
    } else {
        seq![c]
    }
}

/// The escaped form of a whole string.
pub open spec fn escape_string(s: Seq<char>) -> Seq<char>
    decreases s.len(),
{
    if s.len() == 0 {
        Seq::empty()
    } else {
        escape_char(s[0]) + escape_string(s.drop_first())
    }
}

/// A string as the emitter writes it, quotes included.
pub open spec fn quoted(s: Seq<char>) -> Seq<char> {
    seq!['"'] + escape_string(s) + seq!['"']
}

/// Drops leading JSON whitespace.
pub open spec fn skip_ws(s: Seq<char>) -> Seq<char>
    decreases s.len(),
{
    if s.len() > 0 && is_ws(s[0]) {
        skip_ws(s.drop_first())
    } else {
        s
    }
}

/// The value of four hexadecimal digits.
pub open spec fn hex4(a: char, b: char, c: char, d: char) -> int {
    hex_value(a) * 4096 + hex_value(b) * 256 + hex_value(c) * 16 + hex_value(d)
}

/// Reads one `\u` escape at the start of `s` (`s[0]` is the backslash,
/// `s[1]` the `u`): the denoted character, and how many input characters
/// the escape spans — six for a basic-plane scalar, twelve for a high
/// surrogate escape followed by a low surrogate escape, which together
/// denote one supplementary character.  A lone surrogate escape denotes
/// nothing.
pub open spec fn parse_unicode_escape(s: Seq<char>) -> Option<(char, int)> {
    if s.len() >= 6 && is_hex_digit(s[2]) && is_hex_digit(s[3]) && is_hex_digit(s[4])
        && is_hex_digit(s[5]) {
        let v = hex4(s[2], s[3], s[4], s[5]);
        if v < 0xD800 || v >= 0xE000 {
            Some(((v as u32) as char, 6))
        } else if v < 0xDC00 {
            if s.len() >= 12 && s[6] == '\\' && s[7] == 'u' && is_hex_digit(s[8]) && is_hex_digit(
                s[9],
            ) && is_hex_digit(s[10]) && is_hex_digit(s[11]) {
                let w = hex4(s[8], s[9], s[10], s[11]);
                if 0xDC00 <= w && w < 0xE000 {
                    Some((((0x10000 + (v - 0xD800) * 0x400 + (w - 0xDC00)) as u32) as char, 12))
                } else {
                    None
                }
            } else {
                None
            }
        } else {
            None
        }
    } else {
        None
    }
}

/// Parses the inside of a string literal, after the opening quote: the
/// denoted characters, and the rest of the input after the closing quote.
pub open spec fn parse_string_body(s: Seq<char>) -> Option<(Seq<char>, Seq<char>)>
    decreases s.len(),
    via parse_string_body_decreases
{
    if s.len() == 0 {
        None
    } else if s[0] == '"' {
        Some((Seq::empty(), s.drop_first()))
    } else if s[0] == '\\' {
        if s.len() >= 2 && s[1] == 'u' {
            match parse_unicode_escape(s) {
                Option::None => None,
                Option::Some((c, n)) => match parse_string_body(s.skip(n)) {
                    Option::None => None,
                    Option::Some((t, rest)) => Some((seq![c] + t, rest)),
                },
            }
        } else if s.len() >= 2 {
            match simple_escape(s[1]) {
                Option::None => None,
                Option::Some(c) => match parse_string_body(s.skip(2)) {
                    Option::None => None,
                    Option::Some((t, rest)) => Some((seq![c] + t, rest)),
                },
            }
        } else {
            None
        }
    } else {
        match parse_string_body(s.drop_first()) {
            Option::None => None,
            Option::Some((t, rest)) => Some((seq![s[0]] + t, rest)),
        }
    }
}

#[via_fn]
proof fn parse_string_body_decreases(s: Seq<char>) {
    if s.len() > 0 && s[0] == '\\' && s.len() >= 2 && s[1] == 'u' {
        match parse_unicode_escape(s) {
            Option::Some((c, n)) => {
                assert(n == 6 || n == 12);
                assert(s.len() >= n);
            },
            Option::None => {},
        }
    }
}

/// Parses a string literal, opening quote included.
pub open spec fn parse_quoted(s: Seq<char>) -> Option<(Seq<char>, Seq<char>)> {
    if s.len() > 0 && s[0] == '"' {
        parse_string_body(s.drop_first())
    } else {
        None
    }
}

/// Parses a `true` or `false` literal.
pub open spec fn parse_bool(s: Seq<char>) -> Option<(bool, Seq<char>)> {
    if s.len() >= 4 && s[0] == 't' && s[1] == 'r' && s[2] == 'u' && s[3] == 'e' {
        Some((true, s.skip(4)))
    } else if s.len() >= 5 && s[0] == 'f' && s[1] == 'a' && s[2] == 'l' && s[3] == 's' && s[4]
        == 'e' {
        Some((false, s.skip(5)))
    } else {
        None
    }
}

proof fn lemma_skip_ws_len(s: Seq<char>)
    ensures
        skip_ws(s).len() <= s.len(),
    decreases s.len(),
{
    if s.len() > 0 && is_ws(s[0]) {
        lemma_skip_ws_len(s.drop_first());
    }
}

proof fn lemma_parse_string_body_len(s: Seq<char>)
    ensures
        parse_string_body(s) matches Option::Some((t, rest)) ==> rest.len() < s.len(),
    decreases s.len(),
{
    if s.len() == 0 {
    } else if s[0] == '"' {
    } else if s[0] == '\\' {
        if s.len() >= 2 && s[1] == 'u' {
            if s.len() >= 6 {
                lemma_parse_string_body_len(s.skip(6));
            }
            if s.len() >= 12 {
                lemma_parse_string_body_len(s.skip(12));
            }
        } else if s.len() >= 2 {
            lemma_parse_string_body_len(s.skip(2));
        }
    } else {
        lemma_parse_string_body_len(s.drop_first());
    }
}

proof fn lemma_parse_quoted_len(s: Seq<char>)
    ensures
        parse_quoted(s) matches Option::Some((t, rest)) ==> rest.len() < s.len(),
{
    if s.len() > 0 && s[0] == '"' {
        lemma_parse_string_body_len(s.drop_first());
    }
}

/// Parses the items of a non-empty string array, starting right after the
/// opening bracket: whitespace, a string, whitespace, then a comma and more
/// items or the closing bracket.
pub open spec fn parse_string_items(s: Seq<char>) -> Option<(Seq<Seq<char>>, Seq<char>)>
    decreases s.len(),
    via parse_string_items_decreases
{
    match parse_quoted(skip_ws(s)) {
        Option::None => None,
        Option::Some((v, rest)) => {
            let r2 = skip_ws(rest);
            if r2.len() > 0 && r2[0] == ',' {
                match parse_string_items(r2.drop_first()) {
                    Option::None => None,
                    Option::Some((vs, rest2)) => Some((seq![v] + vs, rest2)),
                }
            } else if r2.len() > 0 && r2[0] == ']' {
                Some((seq![v], r2.drop_first()))
            } else {
                None
            }
        },
    }
}

#[via_fn]
proof fn parse_string_items_decreases(s: Seq<char>) {
    lemma_skip_ws_len(s);
    lemma_parse_quoted_len(skip_ws(s));
    match parse_quoted(skip_ws(s)) {
        Option::Some((v, rest)) => {
            lemma_skip_ws_len(rest);
        },
        Option::None => {},
    }
}

/// Parses a string array, brackets included; the empty array is `[]` with
/// optional whitespace inside.
pub open spec fn parse_string_array(s: Seq<char>) -> Option<(Seq<Seq<char>>, Seq<char>)> {
    if s.len() > 0 && s[0] == '[' {
        let r = skip_ws(s.drop_first());
        if r.len() > 0 && r[0] == ']' {
            Some((Seq::empty(), r.drop_first()))
        } else {
            parse_string_items(s.drop_first())
        }
    } else {
        None
    }
}

/// Parses one terminal entry: a two-element array of a string and a flag.
pub open spec fn parse_pair(s: Seq<char>) -> Option<((Seq<char>, bool), Seq<char>)> {
    if s.len() > 0 && s[0] == '[' {
        match parse_quoted(skip_ws(s.drop_first())) {
            Option::None => None,
            Option::Some((v, rest)) => {
                let r2 = skip_ws(rest);
                if r2.len() > 0 && r2[0] == ',' {
                    match parse_bool(skip_ws(r2.drop_first())) {
                        Option::None => None,
                        Option::Some((b, rest2)) => {
                            let r3 = skip_ws(rest2);
                            if r3.len() > 0 && r3[0] == ']' {
                                Some(((v, b), r3.drop_first()))
                            } else {
                                None
                            }
                        },
                    }
                } else {
                    None
                }
            },
        }
    } else {
        None
    }
}

proof fn lemma_parse_bool_len(s: Seq<char>)
    ensures
        parse_bool(s) matches Option::Some((b, rest)) ==> rest.len() <= s.len(),
{
}

proof fn lemma_parse_pair_len(s: Seq<char>)
    ensures
        parse_pair(s) matches Option::Some((p, rest)) ==> rest.len() < s.len(),
{
    if s.len() > 0 && s[0] == '[' {
        lemma_skip_ws_len(s.drop_first());
        lemma_parse_quoted_len(skip_ws(s.drop_first()));
        match parse_quoted(skip_ws(s.drop_first())) {
            Option::Some((v, rest)) => {
                lemma_skip_ws_len(rest);
                let r2 = skip_ws(rest);
                if r2.len() > 0 && r2[0] == ',' {
                    lemma_parse_bool_len(skip_ws(r2.drop_first()));
                    lemma_skip_ws_len(r2.drop_first());
                    match parse_bool(skip_ws(r2.drop_first())) {
                        Option::Some((b, rest2)) => {
                            lemma_skip_ws_len(rest2);
                        },
                        Option::None => {},
                    }
                }
            },
            Option::None => {},
        }
    }
}

/// Parses the items of a non-empty terminal-entry array, starting right
/// after the opening bracket.
pub open spec fn parse_pair_items(s: Seq<char>) -> Option<(Seq<(Seq<char>, bool)>, Seq<char>)>
    decreases s.len(),
    via parse_pair_items_decreases
{
    match parse_pair(skip_ws(s)) {
        Option::None => None,
        Option::Some((p, rest)) => {
            let r2 = skip_ws(rest);
            if r2.len() > 0 && r2[0] == ',' {
                match parse_pair_items(r2.drop_first()) {
                    Option::None => None,
                    Option::Some((ps, rest2)) => Some((seq![p] + ps, rest2)),
                }
            } else if r2.len() > 0 && r2[0] == ']' {
                Some((seq![p], r2.drop_first()))
            } else {
                None
            }
        },
    }
}

#[via_fn]
proof fn parse_pair_items_decreases(s: Seq<char>) {
    lemma_skip_ws_len(s);
    lemma_parse_pair_len(skip_ws(s));
    match parse_pair(skip_ws(s)) {
        Option::Some((p, rest)) => {
            lemma_skip_ws_len(rest);
        },
        Option::None => {},
    }
}

/// Parses a terminal-entry array, brackets included.
pub open spec fn parse_pair_array(s: Seq<char>) -> Option<(Seq<(Seq<char>, bool)>, Seq<char>)> {
    if s.len() > 0 && s[0] == '[' {
        let r = skip_ws(s.drop_first());
        if r.len() > 0 && r[0] == ']' {
            Some((Seq::empty(), r.drop_first()))
        } else {
            parse_pair_items(s.drop_first())
        }
    } else {
        None
    }
}

/// The `file` member name.
pub open spec fn key_file() -> Seq<char> {
    seq!['f', 'i', 'l', 'e']
}

/// The `windows` member name.
pub open spec fn key_windows() -> Seq<char> {
    seq!['w', 'i', 'n', 'd', 'o', 'w', 's']
}

/// The `terminal` member name.
pub open spec fn key_terminal() -> Seq<char> {
    seq!['t', 'e', 'r', 'm', 'i', 'n', 'a', 'l']
}

/// One parsed member of the record: which lane it names, and the lane's
/// parsed value.
pub enum LaneMember {
    FileLane(Seq<Seq<char>>),
    WindowsLane(Seq<Seq<char>>),
    TerminalLane(Seq<(Seq<char>, bool)>),
}

/// Parses one member, `ws "key" ws : ws value`: the key must be one of the
/// three lane names, and the value's shape is decided by the key.
pub open spec fn parse_member(s: Seq<char>) -> Option<(LaneMember, Seq<char>)> {
    match parse_quoted(skip_ws(s)) {
        Option::None => None,
        Option::Some((k, rest)) => {
            let r = skip_ws(rest);
            if r.len() > 0 && r[0] == ':' {
                let after = skip_ws(r.drop_first());
                if k == key_file() {
                    match parse_string_array(after) {
                        Option::None => None,
                        Option::Some((vs, rest2)) => Some((LaneMember::FileLane(vs), rest2)),
                    }
                } else if k == key_windows() {
                    match parse_string_array(after) {
                        Option::None => None,
                        Option::Some((vs, rest2)) => Some((LaneMember::WindowsLane(vs), rest2)),
                    }
                } else if k == key_terminal() {
                    match parse_pair_array(after) {
                        Option::None => None,
                        Option::Some((ps, rest2)) => Some((LaneMember::TerminalLane(ps), rest2)),
                    }
                } else {
                    None
                }
            } else {
                None
            }
        },
    }
}

/// The file lane a member contributes, if it is the file member.
pub open spec fn file_lane_of(m: LaneMember) -> Option<Seq<Seq<char>>> {
    match m {
        LaneMember::FileLane(vs) => Some(vs),
        _ => None,
    }
}

/// The windows lane a member contributes, if it is the windows member.
pub open spec fn windows_lane_of(m: LaneMember) -> Option<Seq<Seq<char>>> {
    match m {
        LaneMember::WindowsLane(vs) => Some(vs),
        _ => None,
    }
}

/// The terminal lane a member contributes, if it is the terminal member.
pub open spec fn terminal_lane_of(m: LaneMember) -> Option<Seq<(Seq<char>, bool)>> {
    match m {
        LaneMember::TerminalLane(ps) => Some(ps),
        _ => None,
    }
}

/// The first value among three candidates.
pub open spec fn first_of3<T>(a: Option<T>, b: Option<T>, c: Option<T>) -> Option<T> {
    if a is Some {
        a
    } else if b is Some {
        b
    } else {
        c
    }
}

/// Builds a store from three parsed members: each lane must be named by
/// exactly one member, in any order; otherwise (a lane missing, so another
/// occurs twice) there is no store.
pub open spec fn assemble_store(m1: LaneMember, m2: LaneMember, m3: LaneMember) -> Option<
    StoreModel,
> {
    let f = first_of3(file_lane_of(m1), file_lane_of(m2), file_lane_of(m3));
    let w = first_of3(windows_lane_of(m1), windows_lane_of(m2), windows_lane_of(m3));
    let t = first_of3(terminal_lane_of(m1), terminal_lane_of(m2), terminal_lane_of(m3));
    if f is Some && w is Some && t is Some {
        Some(StoreModel { file: f->0, windows: w->0, terminal: t->0 })
    } else {
        None
    }
}

/// Parses a whole persisted record: an object holding the three lane
/// members, each exactly once, in any order, with nothing but whitespace
/// after the closing brace.  `None` means the text is malformed.
pub open spec fn parse_store_text(s: Seq<char>) -> Option<StoreModel> {
    let r0 = skip_ws(s);
    if r0.len() > 0 && r0[0] == '{' {
        match parse_member(r0.drop_first()) {
            Option::None => None,
            Option::Some((m1, rest1)) => {
                let r1 = skip_ws(rest1);
                if r1.len() > 0 && r1[0] == ',' {
                    match parse_member(r1.drop_first()) {
                        Option::None => None,
                        Option::Some((m2, rest2)) => {
                            let r2 = skip_ws(rest2);
                            if r2.len() > 0 && r2[0] == ',' {
                                match parse_member(r2.drop_first()) {
                                    Option::None => None,
                                    Option::Some((m3, rest3)) => {
                                        let r3 = skip_ws(rest3);
                                        if r3.len() > 0 && r3[0] == '}' && skip_ws(
                                            r3.drop_first(),
                                        ).len() == 0 {
                                            assemble_store(m1, m2, m3)
                                        } else {
                                            None
                                        }
                                    },
                                }
                            } else {
                                None
                            }
                        },
                    }
                } else {
                    None
                }
            },
        }
    } else {
        None
    }
}

/// A boolean as the emitter writes it.
pub open spec fn emit_bool(b: bool) -> Seq<char> {
    if b {
        seq!['t', 'r', 'u', 'e']
    } else {
        seq!['f', 'a', 'l', 's', 'e']
    }
}

/// The separator the emitter writes between two array items.
pub open spec fn item_sep() -> Seq<char> {
    seq![',', '\n', ' ', ' ', ' ', ' ']
}

/// What the emitter writes after the opening bracket of a non-empty array.
pub open spec fn items_open() -> Seq<char> {
    seq!['[', '\n', ' ', ' ', ' ', ' ']
}

/// What the emitter writes before the closing bracket of a non-empty array.
pub open spec fn items_close() -> Seq<char> {
    seq!['\n', ' ', ' ', ']']
}

/// The items of a non-empty string array, joined by the item separator.
pub open spec fn emit_string_items(vs: Seq<Seq<char>>) -> Seq<char>
    decreases vs.len(),
{
    if vs.len() <= 1 {
        quoted(vs[0])
    } else {
        quoted(vs[0]) + item_sep() + emit_string_items(vs.drop_first())
    }
}

/// A string array as the emitter writes it: `[]` when empty, otherwise one
/// indented item per line.
pub open spec fn emit_string_array(vs: Seq<Seq<char>>) -> Seq<char> {
    if vs.len() == 0 {
        seq!['[', ']']
    } else {
        items_open() + emit_string_items(vs) + items_close()
    }
}

/// A terminal entry as the emitter writes it: `["command", flag]`.
pub open spec fn emit_pair(p: (Seq<char>, bool)) -> Seq<char> {
    seq!['['] + quoted(p.0) + seq![',', ' '] + emit_bool(p.1) + seq![']']
}

/// The items of a non-empty terminal-entry array, joined by the separator.
pub open spec fn emit_pair_items(ps: Seq<(Seq<char>, bool)>) -> Seq<char>
    decreases ps.len(),
{
    if ps.len() <= 1 {
        emit_pair(ps[0])
    } else {
        emit_pair(ps[0]) + item_sep() + emit_pair_items(ps.drop_first())
    }
}

/// A terminal-entry array as the emitter writes it.
pub open spec fn emit_pair_array(ps: Seq<(Seq<char>, bool)>) -> Seq<char> {
    if ps.len() == 0 {
        seq!['[', ']']
    } else {
        items_open() + emit_pair_items(ps) + items_close()
    }
}

/// What the emitter writes between a member's value and the next member's
/// name.
pub open spec fn member_sep() -> Seq<char> {
    seq![',', '\n', ' ', ' ']
}

/// The text the emitter writes for a whole store: a pretty-printed object
/// with the three members in their fixed order.
pub open spec fn emit_store(m: StoreModel) -> Seq<char> {
    seq!['{', '\n', ' ', ' '] + quoted(key_file()) + seq![':', ' '] + emit_string_array(m.file)
        + member_sep() + quoted(key_windows()) + seq![':', ' '] + emit_string_array(m.windows)
        + member_sep() + quoted(key_terminal()) + seq![':', ' '] + emit_pair_array(m.terminal)
        + seq!['\n', '}']
}

proof fn lemma_skip_ws_nonws(t: Seq<char>)
    requires
        t.len() == 0 || !is_ws(t[0]),
    ensures
        skip_ws(t) == t,
{
}

proof fn lemma_skip_ws_concat(w: Seq<char>, t: Seq<char>)
    requires
        forall|i: int| 0 <= i < w.len() ==> is_ws(#[trigger] w[i]),
        t.len() == 0 || !is_ws(t[0]),
    ensures
        skip_ws(w + t) == t,
    decreases w.len(),
{
    if w.len() == 0 {
        assert(w + t =~= t);
        lemma_skip_ws_nonws(t);
    } else {
        assert((w + t)[0] == w[0]);
        assert((w + t).drop_first() =~= w.drop_first() + t);
        assert(forall|i: int|
            0 <= i < w.drop_first().len() ==> is_ws(#[trigger] w.drop_first()[i]));
        lemma_skip_ws_concat(w.drop_first(), t);
    }
}

proof fn lemma_hex_char(v: int)
    requires
        0 <= v < 16,
    ensures
        is_hex_digit(hex_char(v)),
        hex_value(hex_char(v)) == v,
{
}

/// Parsing the escaped form of `v`, followed by the closing quote and
/// anything after it, yields exactly `v` and the rest.
#[verifier::rlimit(100)]
proof fn lemma_body_round_trip(v: Seq<char>, rest: Seq<char>)
    ensures
        parse_string_body(escape_string(v) + seq!['"'] + rest) == Some((v, rest)),
    decreases v.len(),
{
    if v.len() == 0 {
        let s = escape_string(v) + seq!['"'] + rest;
        assert(s =~= seq!['"'] + rest);
        assert(s[0] == '"');
        assert(s.drop_first() =~= rest);
        assert(Seq::<char>::empty() =~= v);
    } else {
        let c = v[0];
        let tail = escape_string(v.drop_first()) + seq!['"'] + rest;
        let s = escape_string(v) + seq!['"'] + rest;
        assert(s =~= escape_char(c) + tail);
        lemma_body_round_trip(v.drop_first(), rest);
        assert(seq![c] + v.drop_first() =~= v);
        if c == '"' || c == '\\' || c == '\u{8}' || c == '\u{c}' || c == '\n' || c == '\r' || c
            == '\t' {
            let e = escape_char(c)[1];
            assert(s[0] == '\\');
            assert(s[1] == e);
            assert(e != 'u');
            assert(simple_escape(e) == Some(c));
            assert(s.skip(2) =~= tail);
        } else if (c as u32) < 0x20 {
            let u = (c as u32) as int;
            lemma_hex_char(u / 16);
            lemma_hex_char(u % 16);
            assert(s[0] == '\\');
            assert(s[1] == 'u');
            assert(s[2] == '0');
            assert(s[3] == '0');
            assert(s[4] == hex_char(u / 16));
            assert(s[5] == hex_char(u % 16));
            assert(is_hex_digit('0') && hex_value('0') == 0);
            let val = hex4(s[2], s[3], s[4], s[5]);
            vstd::arithmetic::div_mod::lemma_fundamental_div_mod(u, 16);
            assert(val == u);
            assert(val < 0xD800);
            assert(c as u32 == val as u32);
            vstd::utf8::char_u32_cast(c, val as u32);
            assert((val as u32) as char == c);
            assert(parse_unicode_escape(s) == Some((c, 6int)));
            assert(s.skip(6) =~= tail);
        } else {
            assert(escape_char(c) == seq![c]);
            assert(s[0] == c);
            assert(c != '"' && c != '\\');
            assert(s.drop_first() =~= tail);
        }
    }
}

/// Parsing a quoted string the emitter wrote yields the original value.
proof fn lemma_quoted_round_trip(v: Seq<char>, rest: Seq<char>)
    ensures
        parse_quoted(quoted(v) + rest) == Some((v, rest)),
{
    let s = quoted(v) + rest;
    assert(s[0] == '"');
    assert(s.drop_first() =~= escape_string(v) + seq!['"'] + rest);
    lemma_body_round_trip(v, rest);
}

proof fn lemma_bool_round_trip(b: bool, rest: Seq<char>)
    ensures
        parse_bool(emit_bool(b) + rest) == Some((b, rest)),
{
    let s = emit_bool(b) + rest;
    if b {
        assert(s.skip(4) =~= rest);
    } else {
        assert(s.skip(5) =~= rest);
    }
}

proof fn lemma_parse_string_items_ws(a: Seq<char>, b: Seq<char>)
    requires
        skip_ws(a) == skip_ws(b),
    ensures
        parse_string_items(a) == parse_string_items(b),
{
}

proof fn lemma_parse_pair_items_ws(a: Seq<char>, b: Seq<char>)
    requires
        skip_ws(a) == skip_ws(b),
    ensures
        parse_pair_items(a) == parse_pair_items(b),
{
}

#[verifier::rlimit(100)]
proof fn lemma_string_items_single(vs: Seq<Seq<char>>, rest: Seq<char>)
    requires
        vs.len() == 1,
    ensures
        parse_string_items(emit_string_items(vs) + (items_close() + rest)) == Some((vs, rest)),
{
    let s = emit_string_items(vs) + (items_close() + rest);
    assert(s =~= quoted(vs[0]) + (items_close() + rest));
    assert(s[0] == '"');
    lemma_skip_ws_nonws(s);
    lemma_quoted_round_trip(vs[0], items_close() + rest);
    let tail = items_close() + rest;
    assert(tail =~= seq!['\n', ' ', ' '] + (seq![']'] + rest));
    lemma_skip_ws_concat(seq!['\n', ' ', ' '], seq![']'] + rest);
    assert(skip_ws(tail) == seq![']'] + rest);
    assert((seq![']'] + rest)[0] == ']');
    assert((seq![']'] + rest).drop_first() =~= rest);
    assert(seq![vs[0]] =~= vs);
}

#[verifier::rlimit(100)]
proof fn lemma_string_items_round_trip(vs: Seq<Seq<char>>, rest: Seq<char>)
    requires
        vs.len() >= 1,
    ensures
        parse_string_items(emit_string_items(vs) + (items_close() + rest)) == Some((vs, rest)),
    decreases vs.len(),
{
    if vs.len() == 1 {
        lemma_string_items_single(vs, rest);
    } else {
        let e2 = emit_string_items(vs.drop_first()) + (items_close() + rest);
        let tail = item_sep() + e2;
        let s = emit_string_items(vs) + (items_close() + rest);
        assert(s =~= quoted(vs[0]) + tail);
        assert(s[0] == '"');
        lemma_skip_ws_nonws(s);
        lemma_quoted_round_trip(vs[0], tail);
        assert(tail[0] == ',');
        lemma_skip_ws_nonws(tail);
        assert(tail.drop_first() =~= seq!['\n', ' ', ' ', ' ', ' '] + e2);
        assert(e2[0] == '"');
        lemma_skip_ws_concat(seq!['\n', ' ', ' ', ' ', ' '], e2);
        lemma_skip_ws_nonws(e2);
        lemma_parse_string_items_ws(tail.drop_first(), e2);
        lemma_string_items_round_trip(vs.drop_first(), rest);
        assert(seq![vs[0]] + vs.drop_first() =~= vs);
    }
}

proof fn lemma_string_array_round_trip(vs: Seq<Seq<char>>, rest: Seq<char>)
    ensures
        parse_string_array(emit_string_array(vs) + rest) == Some((vs, rest)),
{
    let s = emit_string_array(vs) + rest;
    if vs.len() == 0 {
        assert(s =~= seq!['[', ']'] + rest);
        assert(s[0] == '[');
        assert(s.drop_first() =~= seq![']'] + rest);
        lemma_skip_ws_nonws(seq![']'] + rest);
        assert((seq![']'] + rest).drop_first() =~= rest);
        assert(Seq::<Seq<char>>::empty() =~= vs);
    } else {
        let e1 = emit_string_items(vs) + (items_close() + rest);
        assert(s =~= seq!['['] + (seq!['\n', ' ', ' ', ' ', ' '] + e1));
        assert(s[0] == '[');
        assert(s.drop_first() =~= seq!['\n', ' ', ' ', ' ', ' '] + e1);
        assert(e1[0] == '"');
        lemma_skip_ws_concat(seq!['\n', ' ', ' ', ' ', ' '], e1);
        assert(skip_ws(s.drop_first()) == e1);
        lemma_skip_ws_nonws(e1);
        lemma_parse_string_items_ws(s.drop_first(), e1);
        lemma_string_items_round_trip(vs, rest);
    }
}

#[verifier::rlimit(100)]
proof fn lemma_pair_round_trip(p: (Seq<char>, bool), rest: Seq<char>)
    ensures
        parse_pair(emit_pair(p) + rest) == Some((p, rest)),
{
    let t2 = seq![']'] + rest;
    let t1b = emit_bool(p.1) + t2;
    let t1 = seq![',', ' '] + t1b;
    let s = emit_pair(p) + rest;
    assert(s =~= seq!['['] + (quoted(p.0) + t1));
    assert(s[0] == '[');
    assert(s.drop_first() =~= quoted(p.0) + t1);
    assert((quoted(p.0) + t1)[0] == '"');
    lemma_skip_ws_nonws(quoted(p.0) + t1);
    lemma_quoted_round_trip(p.0, t1);
    assert(t1[0] == ',');
    lemma_skip_ws_nonws(t1);
    assert(t1.drop_first() =~= seq![' '] + t1b);
    assert(t1b[0] == 't' || t1b[0] == 'f');
    lemma_skip_ws_concat(seq![' '], t1b);
    lemma_bool_round_trip(p.1, t2);
    assert(t2[0] == ']');
    lemma_skip_ws_nonws(t2);
    assert(t2.drop_first() =~= rest);
    assert(p == (p.0, p.1));
}

#[verifier::rlimit(50)]
proof fn lemma_pair_items_single(ps: Seq<(Seq<char>, bool)>, rest: Seq<char>)
    requires
        ps.len() == 1,
    ensures
        parse_pair_items(emit_pair_items(ps) + (items_close() + rest)) == Some((ps, rest)),
{
    let s = emit_pair_items(ps) + (items_close() + rest);
    assert(s =~= emit_pair(ps[0]) + (items_close() + rest));
    assert(s[0] == '[');
    lemma_skip_ws_nonws(s);
    lemma_pair_round_trip(ps[0], items_close() + rest);
    let tail = items_close() + rest;
    assert(tail =~= seq!['\n', ' ', ' '] + (seq![']'] + rest));
    lemma_skip_ws_concat(seq!['\n', ' ', ' '], seq![']'] + rest);
    assert((seq![']'] + rest)[0] == ']');
    assert((seq![']'] + rest).drop_first() =~= rest);
    assert(seq![ps[0]] =~= ps);
}

#[verifier::rlimit(100)]
proof fn lemma_pair_items_round_trip(ps: Seq<(Seq<char>, bool)>, rest: Seq<char>)
    requires
        ps.len() >= 1,
    ensures
        parse_pair_items(emit_pair_items(ps) + (items_close() + rest)) == Some((ps, rest)),
    decreases ps.len(),
{
    if ps.len() == 1 {
        lemma_pair_items_single(ps, rest);
    } else {
        let e2 = emit_pair_items(ps.drop_first()) + (items_close() + rest);
        let tail = item_sep() + e2;
        let s = emit_pair_items(ps) + (items_close() + rest);
        assert(s =~= emit_pair(ps[0]) + tail);
        assert(s[0] == '[');
        lemma_skip_ws_nonws(s);
        lemma_pair_round_trip(ps[0], tail);
        assert(tail[0] == ',');
        lemma_skip_ws_nonws(tail);
        assert(tail.drop_first() =~= seq!['\n', ' ', ' ', ' ', ' '] + e2);
        assert(e2[0] == '[');
        lemma_skip_ws_concat(seq!['\n', ' ', ' ', ' ', ' '], e2);
        lemma_skip_ws_nonws(e2);
        lemma_parse_pair_items_ws(tail.drop_first(), e2);
        lemma_pair_items_round_trip(ps.drop_first(), rest);
        assert(seq![ps[0]] + ps.drop_first() =~= ps);
    }
}

#[verifier::rlimit(100)]
proof fn lemma_pair_array_round_trip(ps: Seq<(Seq<char>, bool)>, rest: Seq<char>)
    ensures
        parse_pair_array(emit_pair_array(ps) + rest) == Some((ps, rest)),
{
    let s = emit_pair_array(ps) + rest;
    if ps.len() == 0 {
        assert(s =~= seq!['[', ']'] + rest);
        assert(s[0] == '[');
        assert(s.drop_first() =~= seq![']'] + rest);
        lemma_skip_ws_nonws(seq![']'] + rest);
        assert((seq![']'] + rest).drop_first() =~= rest);
        assert(Seq::<(Seq<char>, bool)>::empty() =~= ps);
    } else {
        let e1 = emit_pair_items(ps) + (items_close() + rest);
        assert(s =~= seq!['['] + (seq!['\n', ' ', ' ', ' ', ' '] + e1));
        assert(s[0] == '[');
        assert(s.drop_first() =~= seq!['\n', ' ', ' ', ' ', ' '] + e1);
        assert(e1[0] == '[');
        lemma_skip_ws_concat(seq!['\n', ' ', ' ', ' ', ' '], e1);
        assert(skip_ws(s.drop_first()) == e1);
        lemma_skip_ws_nonws(e1);
        lemma_parse_pair_items_ws(s.drop_first(), e1);
        lemma_pair_items_round_trip(ps, rest);
    }
}

/// Parsing the emitter's file member: optional leading whitespace, the
/// quoted key, a colon and a space, then the emitted array and anything
/// after it.
#[verifier::rlimit(100)]
proof fn lemma_member_file(w: Seq<char>, vs: Seq<Seq<char>>, t: Seq<char>)
    requires
        forall|i: int| 0 <= i < w.len() ==> is_ws(#[trigger] w[i]),
    ensures
        parse_member(w + (quoted(key_file()) + (seq![':', ' '] + (emit_string_array(vs) + t))))
            == Some((LaneMember::FileLane(vs), t)),
{
    let body = quoted(key_file()) + (seq![':', ' '] + (emit_string_array(vs) + t));
    assert(body[0] == '"');
    lemma_skip_ws_concat(w, body);
    lemma_quoted_round_trip(key_file(), seq![':', ' '] + (emit_string_array(vs) + t));
    let r = seq![':', ' '] + (emit_string_array(vs) + t);
    assert(r[0] == ':');
    lemma_skip_ws_nonws(r);
    assert(r.drop_first() =~= seq![' '] + (emit_string_array(vs) + t));
    assert((emit_string_array(vs) + t)[0] == '[');
    lemma_skip_ws_concat(seq![' '], emit_string_array(vs) + t);
    lemma_string_array_round_trip(vs, t);
}

/// The same for the windows member.
#[verifier::rlimit(100)]
proof fn lemma_member_windows(w: Seq<char>, vs: Seq<Seq<char>>, t: Seq<char>)
    requires
        forall|i: int| 0 <= i < w.len() ==> is_ws(#[trigger] w[i]),
    ensures
        parse_member(
            w + (quoted(key_windows()) + (seq![':', ' '] + (emit_string_array(vs) + t))),
        ) == Some((LaneMember::WindowsLane(vs), t)),
{
    let body = quoted(key_windows()) + (seq![':', ' '] + (emit_string_array(vs) + t));
    assert(body[0] == '"');
    lemma_skip_ws_concat(w, body);
    lemma_quoted_round_trip(key_windows(), seq![':', ' '] + (emit_string_array(vs) + t));
    assert(key_windows() != key_file());
    let r = seq![':', ' '] + (emit_string_array(vs) + t);
    assert(r[0] == ':');
    lemma_skip_ws_nonws(r);
    assert(r.drop_first() =~= seq![' '] + (emit_string_array(vs) + t));
    assert((emit_string_array(vs) + t)[0] == '[');
    lemma_skip_ws_concat(seq![' '], emit_string_array(vs) + t);
    lemma_string_array_round_trip(vs, t);
}

/// The same for the terminal member.
#[verifier::rlimit(100)]
proof fn lemma_member_terminal(w: Seq<char>, ps: Seq<(Seq<char>, bool)>, t: Seq<char>)
    requires
        forall|i: int| 0 <= i < w.len() ==> is_ws(#[trigger] w[i]),
    ensures
        parse_member(
            w + (quoted(key_terminal()) + (seq![':', ' '] + (emit_pair_array(ps) + t))),
        ) == Some((LaneMember::TerminalLane(ps), t)),
{
    let body = quoted(key_terminal()) + (seq![':', ' '] + (emit_pair_array(ps) + t));
    assert(body[0] == '"');
    lemma_skip_ws_concat(w, body);
    lemma_quoted_round_trip(key_terminal(), seq![':', ' '] + (emit_pair_array(ps) + t));
    assert(key_terminal() != key_file());
    assert(key_terminal() != key_windows());
    let r = seq![':', ' '] + (emit_pair_array(ps) + t);
    assert(r[0] == ':');
    lemma_skip_ws_nonws(r);
    assert(r.drop_first() =~= seq![' '] + (emit_pair_array(ps) + t));
    assert((emit_pair_array(ps) + t)[0] == '[');
    lemma_skip_ws_concat(seq![' '], emit_pair_array(ps) + t);
    lemma_pair_array_round_trip(ps, t);
}

/// What the emitter writes after the closing bracket of the last member.
spec fn store_tail() -> Seq<char> {
    seq!['\n', '}']
}

/// The emitted terminal member with everything after it.
spec fn seg_terminal(m: StoreModel) -> Seq<char> {
    seq!['\n', ' ', ' '] + (quoted(key_terminal()) + (seq![':', ' '] + (emit_pair_array(
        m.terminal,
    ) + store_tail())))
}

/// The emitted windows member with everything after it.
spec fn seg_windows(m: StoreModel) -> Seq<char> {
    seq!['\n', ' ', ' '] + (quoted(key_windows()) + (seq![':', ' '] + (emit_string_array(
        m.windows,
    ) + (seq![','] + seg_terminal(m)))))
}

/// The emitted file member with everything after it.
spec fn seg_file(m: StoreModel) -> Seq<char> {
    seq!['\n', ' ', ' '] + (quoted(key_file()) + (seq![':', ' '] + (emit_string_array(m.file)
        + (seq![','] + seg_windows(m)))))
}

/// The emitted record is the opening brace followed by the three member
/// segments.
#[verifier::rlimit(100)]
proof fn lemma_emit_store_shape(m: StoreModel)
    ensures
        emit_store(m) == seq!['{'] + seg_file(m),
{
    assert(emit_store(m) =~= seq!['{'] + seg_file(m));
}

#[verifier::rlimit(100)]
proof fn lemma_seg_file(m: StoreModel)
    ensures
        parse_member(seg_file(m)) == Some(
            (LaneMember::FileLane(m.file), seq![','] + seg_windows(m)),
        ),
{
    lemma_member_file(seq!['\n', ' ', ' '], m.file, seq![','] + seg_windows(m));
}

#[verifier::rlimit(100)]
proof fn lemma_seg_windows(m: StoreModel)
    ensures
        parse_member(seg_windows(m)) == Some(
            (LaneMember::WindowsLane(m.windows), seq![','] + seg_terminal(m)),
        ),
{
    lemma_member_windows(seq!['\n', ' ', ' '], m.windows, seq![','] + seg_terminal(m));
}

#[verifier::rlimit(100)]
proof fn lemma_seg_terminal(m: StoreModel)
    ensures
        parse_member(seg_terminal(m)) == Some(
            (LaneMember::TerminalLane(m.terminal), store_tail()),
        ),
{
    lemma_member_terminal(seq!['\n', ' ', ' '], m.terminal, store_tail());
}

/// Round trip: parsing the text the emitter wrote for any store yields
/// exactly that store.
#[verifier::rlimit(100)]
pub proof fn lemma_store_round_trip(m: StoreModel)
    ensures
        parse_store_text(emit_store(m)) == Some(m),
{
    lemma_emit_store_shape(m);
    let s = emit_store(m);
    assert(s[0] == '{');
    lemma_skip_ws_nonws(s);
    assert(s.drop_first() =~= seg_file(m));
    lemma_seg_file(m);
    let rest1 = seq![','] + seg_windows(m);
    assert(rest1[0] == ',');
    lemma_skip_ws_nonws(rest1);
    assert(rest1.drop_first() =~= seg_windows(m));
    lemma_seg_windows(m);
    let rest2 = seq![','] + seg_terminal(m);
    assert(rest2[0] == ',');
    lemma_skip_ws_nonws(rest2);
    assert(rest2.drop_first() =~= seg_terminal(m));
    lemma_seg_terminal(m);
    let rest3 = store_tail();
    assert(rest3 =~= seq!['\n'] + (seq!['}'] + Seq::<char>::empty()));
    assert((seq!['}'] + Seq::<char>::empty())[0] == '}');
    lemma_skip_ws_concat(seq!['\n'], seq!['}'] + Seq::<char>::empty());
    let r3 = skip_ws(rest3);
    assert(r3 == seq!['}'] + Seq::<char>::empty());
    assert(r3[0] == '}');
    assert(r3.drop_first() =~= Seq::<char>::empty());
    assert(skip_ws(r3.drop_first()).len() == 0);
    assert(assemble_store(
        LaneMember::FileLane(m.file),
        LaneMember::WindowsLane(m.windows),
        LaneMember::TerminalLane(m.terminal),
    ) == Some(m)) by {
        assert((StoreModel { file: m.file, windows: m.windows, terminal: m.terminal }) == m);
    }
}

/// The lowercase hexadecimal digit for `v`.
fn hex_digit_char(v: u32) -> (c: char)
    requires
        v < 16,
    ensures
        c == hex_char(v as int),
{
    if v == 0 {
        '0'
    } else if v == 1 {
        '1'
    } else if v == 2 {
        '2'
    } else if v == 3 {
        '3'
    } else if v == 4 {
        '4'
    } else if v == 5 {
        '5'
    } else if v == 6 {
        '6'
    } else if v == 7 {
        '7'
    } else if v == 8 {
        '8'
    } else if v == 9 {
        '9'
    } else if v == 10 {
        'a'
    } else if v == 11 {
        'b'
    } else if v == 12 {
        'c'
    } else if v == 13 {
        'd'
    } else if v == 14 {
        'e'
    } else {
        'f'
    }
}

proof fn lemma_escape_push(s: Seq<char>, c: char)
    ensures
        escape_string(s.push(c)) == escape_string(s) + escape_char(c),
    decreases s.len(),
{
    if s.len() == 0 {
        assert(s.push(c)[0] == c);
        assert(s.push(c).drop_first() =~= Seq::<char>::empty());
        assert(escape_string(s.push(c)) == escape_char(c) + escape_string(Seq::<char>::empty()));
        assert(escape_string(s.push(c)) =~= escape_string(s) + escape_char(c));
    } else {
        assert(s.push(c)[0] == s[0]);
        assert(s.push(c).drop_first() =~= s.drop_first().push(c));
        lemma_escape_push(s.drop_first(), c);
        assert(escape_string(s.push(c)) == escape_char(s[0]) + (escape_string(s.drop_first())
            + escape_char(c)));
        assert(escape_string(s) == escape_char(s[0]) + escape_string(s.drop_first()));
        assert(escape_string(s.push(c)) =~= escape_string(s) + escape_char(c));
    }
}

/// Appends the quoted, escaped form of `s` to `out`.
fn emit_quoted_into(out: &mut Vec<char>, s: &str)
    ensures
        final(out)@ == old(out)@ + quoted(s@),
{
    let ghost base = out@;
    out.push('"');
    let n = s.unicode_len();
    proof {
        assert(escape_string(s@.take(0)) =~= Seq::<char>::empty());
        assert(out@ =~= base + seq!['"'] + escape_string(s@.take(0)));
    }
    let mut k: usize = 0;
    while k < n
        invariant
            k <= n,
            n == s@.len(),
            out@ == base + seq!['"'] + escape_string(s@.take(k as int)),
        decreases n - k,
    {
        let c = s.get_char(k);
        if c == '"' {
            out.push('\\');
            out.push('"');
        } else if c == '\\' {
            out.push('\\');
            out.push('\\');
        } else if c == '\u{8}' {
            out.push('\\');
            out.push('b');
        } else if c == '\u{c}' {
            out.push('\\');
            out.push('f');
        } else if c == '\n' {
            out.push('\\');
            out.push('n');
        } else if c == '\r' {
            out.push('\\');
            out.push('r');
        } else if c == '\t' {
            out.push('\\');
            out.push('t');
        } else {
            let u = c as u32;
            if u < 0x20 {
                out.push('\\');
                out.push('u');
                out.push('0');
                out.push('0');
                out.push(hex_digit_char(u / 16));
                out.push(hex_digit_char(u % 16));
            } else {
                out.push(c);
            }
        }
        proof {
            lemma_escape_push(s@.take(k as int), s@[k as int]);
            assert(s@.take(k + 1) =~= s@.take(k as int).push(s@[k as int]));
            assert(out@ =~= base + seq!['"'] + escape_string(s@.take(k + 1)));
        }
        k = k + 1;
    }
    out.push('"');
    proof {
        assert(s@.take(n as int) =~= s@);
        assert(out@ =~= base + quoted(s@));
    }
}

/// Appends `true` or `false` to `out`.
fn emit_bool_into(out: &mut Vec<char>, b: bool)
    ensures
        final(out)@ == old(out)@ + emit_bool(b),
{
    let ghost base = out@;
    if b {
        out.push('t');
        out.push('r');
        out.push('u');
        out.push('e');
    } else {
        out.push('f');
        out.push('a');
        out.push('l');
        out.push('s');
        out.push('e');
    }
    proof {
        assert(out@ =~= base + emit_bool(b));
    }
}

/// Appends the item separator (comma, newline, item indent) to `out`.
fn emit_sep_into(out: &mut Vec<char>)
    ensures
        final(out)@ == old(out)@ + item_sep(),
{
    let ghost base = out@;
    out.push(',');
    out.push('\n');
    out.push(' ');
    out.push(' ');
    out.push(' ');
    out.push(' ');
    proof {
        assert(out@ =~= base + item_sep());
    }
}

proof fn lemma_emit_string_items_snoc(vs: Seq<Seq<char>>, x: Seq<char>)
    requires
        vs.len() >= 1,
    ensures
        emit_string_items(vs.push(x)) == emit_string_items(vs) + item_sep() + quoted(x),
    decreases vs.len(),
{
    if vs.len() == 1 {
        assert(vs.push(x)[0] == vs[0]);
        assert(vs.push(x).drop_first() =~= seq![x]);
        assert(emit_string_items(seq![x]) == quoted(x));
        assert(emit_string_items(vs.push(x)) =~= emit_string_items(vs) + item_sep() + quoted(x));
    } else {
        assert(vs.push(x)[0] == vs[0]);
        assert(vs.push(x).drop_first() =~= vs.drop_first().push(x));
        lemma_emit_string_items_snoc(vs.drop_first(), x);
        assert(emit_string_items(vs.push(x)) == quoted(vs[0]) + item_sep() + (emit_string_items(
            vs.drop_first(),
        ) + item_sep() + quoted(x)));
        assert(emit_string_items(vs) == quoted(vs[0]) + item_sep() + emit_string_items(
            vs.drop_first(),
        ));
        assert(emit_string_items(vs.push(x)) =~= emit_string_items(vs) + item_sep() + quoted(x));
    }
}

/// Appends a whole string array to `out`.
fn emit_string_array_into(out: &mut Vec<char>, v: &Vec<String>)
    ensures
        final(out)@ == old(out)@ + emit_string_array(crate::sorting::strings_view(v@)),
{
    let ghost base = out@;
    let ghost sv = crate::sorting::strings_view(v@);
    let n = v.len();
    if n == 0 {
        out.push('[');
        out.push(']');
        proof {
            assert(out@ =~= base + emit_string_array(sv));
        }
        return;
    }
    out.push('[');
    out.push('\n');
    out.push(' ');
    out.push(' ');
    out.push(' ');
    out.push(' ');
    proof {
        assert(out@ =~= base + items_open());
    }
    let mut k: usize = 0;
    while k < n
        invariant
            k <= n,
            n == v@.len(),
            n >= 1,
            sv == crate::sorting::strings_view(v@),
            k == 0 ==> out@ == base + items_open(),
            k >= 1 ==> out@ == base + items_open() + emit_string_items(sv.take(k as int)),
        decreases n - k,
    {
        if k > 0 {
            emit_sep_into(out);
        }
        emit_quoted_into(out, v[k].as_str());
        proof {
            assert(sv[k as int] == v@[k as int]@);
            if k == 0 {
                assert(sv.take(1)[0] == sv[0]);
                assert(emit_string_items(sv.take(1)) == quoted(sv[0]));
                assert(out@ =~= base + items_open() + emit_string_items(sv.take(1)));
            } else {
                lemma_emit_string_items_snoc(sv.take(k as int), sv[k as int]);
                assert(sv.take(k + 1) =~= sv.take(k as int).push(sv[k as int]));
                assert(out@ =~= base + items_open() + emit_string_items(sv.take(k + 1)));
            }
        }
        k = k + 1;
    }
    out.push('\n');
    out.push(' ');
    out.push(' ');
    out.push(']');
    proof {
        assert(sv.take(n as int) =~= sv);
        assert(out@ =~= base + emit_string_array(sv));
    }
}

proof fn lemma_emit_pair_items_snoc(ps: Seq<(Seq<char>, bool)>, x: (Seq<char>, bool))
    requires
        ps.len() >= 1,
    ensures
        emit_pair_items(ps.push(x)) == emit_pair_items(ps) + item_sep() + emit_pair(x),
    decreases ps.len(),
{
    if ps.len() == 1 {
        assert(ps.push(x)[0] == ps[0]);
        assert(ps.push(x).drop_first() =~= seq![x]);
        assert(emit_pair_items(seq![x]) == emit_pair(x));
        assert(emit_pair_items(ps.push(x)) =~= emit_pair_items(ps) + item_sep() + emit_pair(x));
    } else {
        assert(ps.push(x)[0] == ps[0]);
        assert(ps.push(x).drop_first() =~= ps.drop_first().push(x));
        lemma_emit_pair_items_snoc(ps.drop_first(), x);
        assert(emit_pair_items(ps.push(x)) == emit_pair(ps[0]) + item_sep() + (emit_pair_items(
            ps.drop_first(),
        ) + item_sep() + emit_pair(x)));
        assert(emit_pair_items(ps) == emit_pair(ps[0]) + item_sep() + emit_pair_items(
            ps.drop_first(),
        ));
        assert(emit_pair_items(ps.push(x)) =~= emit_pair_items(ps) + item_sep() + emit_pair(x));
    }
}

/// Appends one terminal entry to `out`.
fn emit_pair_into(out: &mut Vec<char>, command: &String, quiet: bool)
    ensures
        final(out)@ == old(out)@ + emit_pair((command@, quiet)),
{
    let ghost base = out@;
    out.push('[');
    emit_quoted_into(out, command.as_str());
    out.push(',');
    out.push(' ');
    emit_bool_into(out, quiet);
    out.push(']');
    proof {
        assert(out@ =~= base + emit_pair((command@, quiet)));
    }
}

/// Appends a whole terminal-entry array to `out`.
fn emit_pair_array_into(out: &mut Vec<char>, v: &Vec<(String, bool)>)
    ensures
        final(out)@ == old(out)@ + emit_pair_array(crate::sorting::pairs_view(v@)),
{
    let ghost base = out@;
    let ghost pv = crate::sorting::pairs_view(v@);
    let n = v.len();
    if n == 0 {
        out.push('[');
        out.push(']');
        proof {
            assert(out@ =~= base + emit_pair_array(pv));
        }
        return;
    }
    out.push('[');
    out.push('\n');
    out.push(' ');
    out.push(' ');
    out.push(' ');
    out.push(' ');
    proof {
        assert(out@ =~= base + items_open());
    }
    let mut k: usize = 0;
    while k < n
        invariant
            k <= n,
            n == v@.len(),
            n >= 1,
            pv == crate::sorting::pairs_view(v@),
            k == 0 ==> out@ == base + items_open(),
            k >= 1 ==> out@ == base + items_open() + emit_pair_items(pv.take(k as int)),
        decreases n - k,
    {
        if k > 0 {
            emit_sep_into(out);
        }
        let (command, quiet) = &v[k];
        emit_pair_into(out, command, *quiet);
        proof {
            assert(pv[k as int] == (v@[k as int].0@, v@[k as int].1));
            if k == 0 {
                assert(pv.take(1)[0] == pv[0]);
                assert(emit_pair_items(pv.take(1)) == emit_pair(pv[0]));
                assert(out@ =~= base + items_open() + emit_pair_items(pv.take(1)));
            } else {
                lemma_emit_pair_items_snoc(pv.take(k as int), pv[k as int]);
                assert(pv.take(k + 1) =~= pv.take(k as int).push(pv[k as int]));
                assert(out@ =~= base + items_open() + emit_pair_items(pv.take(k + 1)));
            }
        }
        k = k + 1;
    }
    out.push('\n');
    out.push(' ');
    out.push(' ');
    out.push(']');
    proof {
        assert(pv.take(n as int) =~= pv);
        assert(out@ =~= base + emit_pair_array(pv));
    }
}

/// Whether two character vectors hold the same characters.
fn chars_eq(a: &Vec<char>, b: &Vec<char>) -> (r: bool)
    ensures
        r == (a@ == b@),
{
    if a.len() != b.len() {
        return false;
    }
    let mut i: usize = 0;
    while i < a.len()
        invariant
            i <= a@.len(),
            a@.len() == b@.len(),
            forall|m: int| 0 <= m < i ==> a@[m] == b@[m],
        decreases a@.len() - i,
    {
        if a[i] != b[i] {
            return false;
        }
        i = i + 1;
    }
    proof {
        assert(a@ =~= b@);
    }
    true
}

/// The first position at or after `i` that holds no whitespace.
fn p_skip_ws(s: &Vec<char>, i: usize) -> (j: usize)
    requires
        i <= s@.len(),
    ensures
        i <= j <= s@.len(),
        s@.skip(j as int) == skip_ws(s@.skip(i as int)),
{
    let mut j = i;
    while j < s.len() && (s[j] == ' ' || s[j] == '\n' || s[j] == '\r' || s[j] == '\t')
        invariant
            i <= j <= s@.len(),
            skip_ws(s@.skip(i as int)) == skip_ws(s@.skip(j as int)),
        decreases s@.len() - j,
    {
        proof {
            assert(s@.skip(j as int)[0] == s@[j as int]);
            assert(s@.skip(j as int).drop_first() =~= s@.skip(j + 1));
        }
        j = j + 1;
    }
    proof {
        if j < s@.len() {
            assert(s@.skip(j as int)[0] == s@[j as int]);
        }
        assert(skip_ws(s@.skip(j as int)) == s@.skip(j as int));
    }
    j
}

/// The character a simple escape denotes, if any.
fn simple_unescape(e: char) -> (r: Option<char>)
    ensures
        r == simple_escape(e),
{
    if e == '"' {
        Some('"')
    } else if e == '\\' {
        Some('\\')
    } else if e == '/' {
        Some('/')
    } else if e == 'b' {
        Some('\u{8}')
    } else if e == 'f' {
        Some('\u{c}')
    } else if e == 'n' {
        Some('\n')
    } else if e == 'r' {
        Some('\r')
    } else if e == 't' {
        Some('\t')
    } else {
        None
    }
}

/// The value of a hexadecimal digit, if `c` is one.
fn hex_digit_value(c: char) -> (r: Option<u32>)
    ensures
        r is Some <==> is_hex_digit(c),
        (r matches Option::Some(v) ==> v == hex_value(c) && v < 16),
{
    let u = c as u32;
    if 48 <= u && u <= 57 {
        Some(u - 48)
    } else if 97 <= u && u <= 102 {
        Some(u - 87)
    } else if 65 <= u && u <= 70 {
        Some(u - 55)
    } else {
        None
    }
}

/// Reads one `\u` escape starting at `k` (the backslash); yields the
/// denoted character and how many input characters the escape spans.
#[verifier::rlimit(100)]
fn p_unicode_escape(s: &Vec<char>, k: usize) -> (r: Option<(char, usize)>)
    requires
        k <= s@.len(),
    ensures
        (r matches Option::Some(p) ==> k + p.1 <= s@.len() && parse_unicode_escape(
            s@.skip(k as int),
        ) == Some((p.0, p.1 as int))),
        (r is None ==> parse_unicode_escape(s@.skip(k as int)) is None),
{
    let ghost suf = s@.skip(k as int);
    if s.len() - k < 6 {
        return None;
    }
    proof {
        assert(suf[2] == s@[k + 2]);
        assert(suf[3] == s@[k + 3]);
        assert(suf[4] == s@[k + 4]);
        assert(suf[5] == s@[k + 5]);
    }
    let h3 = hex_digit_value(s[k + 2]);
    let h2 = hex_digit_value(s[k + 3]);
    let h1 = hex_digit_value(s[k + 4]);
    let h0 = hex_digit_value(s[k + 5]);
    match (h3, h2, h1, h0) {
        (Option::Some(a), Option::Some(b), Option::Some(cc), Option::Some(d)) => {
            let val = a * 4096 + b * 256 + cc * 16 + d;
            proof {
                assert(hex4(suf[2], suf[3], suf[4], suf[5]) == val);
            }
            if val < 0xD800 || val >= 0xE000 {
                match crate::util::char_from_u32(val) {
                    Option::Some(c2) => {
                        proof {
                            vstd::utf8::char_u32_cast(c2, val);
                            assert(parse_unicode_escape(suf) == Some((c2, 6int)));
                        }
                        Some((c2, 6))
                    },
                    Option::None => {
                        proof {
                            assert(false);
                        }
                        None
                    },
                }
            } else if val < 0xDC00 {
                if s.len() - k < 12 {
                    return None;
                }
                proof {
                    assert(suf[6] == s@[k + 6]);
                    assert(suf[7] == s@[k + 7]);
                    assert(suf[8] == s@[k + 8]);
                    assert(suf[9] == s@[k + 9]);
                    assert(suf[10] == s@[k + 10]);
                    assert(suf[11] == s@[k + 11]);
                }
                if !(s[k + 6] == '\\' && s[k + 7] == 'u') {
                    return None;
                }
                let g3 = hex_digit_value(s[k + 8]);
                let g2 = hex_digit_value(s[k + 9]);
                let g1 = hex_digit_value(s[k + 10]);
                let g0 = hex_digit_value(s[k + 11]);
                match (g3, g2, g1, g0) {
                    (Option::Some(wa), Option::Some(wb), Option::Some(wc), Option::Some(wd)) => {
                        let low = wa * 4096 + wb * 256 + wc * 16 + wd;
                        proof {
                            assert(hex4(suf[8], suf[9], suf[10], suf[11]) == low);
                        }
                        if !(0xDC00 <= low && low < 0xE000) {
                            return None;
                        }
                        let cp = 0x10000 + (val - 0xD800) * 0x400 + (low - 0xDC00);
                        match crate::util::char_from_u32(cp) {
                            Option::Some(c2) => {
                                proof {
                                    vstd::utf8::char_u32_cast(c2, cp);
                                    assert(parse_unicode_escape(suf) == Some((c2, 12int)));
                                }
                                Some((c2, 12))
                            },
                            Option::None => {
                                proof {
                                    assert(false);
                                }
                                None
                            },
                        }
                    },
                    _ => None,
                }
            } else {
                None
            }
        },
        _ => None,
    }
}

/// What one step of reading a string body finds at position `k`: the
/// closing quote, one denoted character, or malformed input.
enum BodyStep {
    Closed(usize),
    Denoted(char, usize),
    Malformed,
}

#[verifier::rlimit(100)]
fn p_body_step(s: &Vec<char>, k: usize) -> (r: BodyStep)
    requires
        k < s@.len(),
    ensures
        (r matches BodyStep::Closed(j) ==> k < j <= s@.len() && parse_string_body(
            s@.skip(k as int),
        ) == Some((Seq::<char>::empty(), s@.skip(j as int)))),
        (r matches BodyStep::Denoted(c, j) ==> k < j <= s@.len() && parse_string_body(
            s@.skip(k as int),
        ) == (match parse_string_body(s@.skip(j as int)) {
            Option::Some((t, rest)) => Some((seq![c] + t, rest)),
            Option::None => None::<(Seq<char>, Seq<char>)>,
        })),
        (r is Malformed ==> parse_string_body(s@.skip(k as int)) is None),
{
    let n = s.len();
    let ghost suf = s@.skip(k as int);
    proof {
        assert(suf[0] == s@[k as int]);
        assert(suf.drop_first() =~= s@.skip(k + 1));
    }
    let c = s[k];
    if c == '"' {
        BodyStep::Closed(k + 1)
    } else if c == '\\' {
        if k + 1 >= n {
            return BodyStep::Malformed;
        }
        proof {
            assert(suf[1] == s@[k + 1]);
        }
        let e = s[k + 1];
        if e == 'u' {
            match p_unicode_escape(s, k) {
                Option::None => BodyStep::Malformed,
                Option::Some((c2, n)) => {
                    proof {
                        assert(suf.skip(n as int) =~= s@.skip(k + n));
                    }
                    BodyStep::Denoted(c2, k + n)
                },
            }
        } else {
            match simple_unescape(e) {
                Option::None => BodyStep::Malformed,
                Option::Some(c2) => {
                    proof {
                        assert(suf.skip(2) =~= s@.skip(k + 2));
                    }
                    BodyStep::Denoted(c2, k + 2)
                },
            }
        }
    } else {
        BodyStep::Denoted(c, k + 1)
    }
}

/// Parses the inside of a string literal, starting at `i` (right after the
/// opening quote); yields the denoted characters and the position after the
/// closing quote.
fn p_string_body(s: &Vec<char>, i: usize) -> (r: Option<(Vec<char>, usize)>)
    requires
        i <= s@.len(),
    ensures
        (r matches Option::Some(p) ==> i <= p.1 <= s@.len() && parse_string_body(
            s@.skip(i as int),
        ) == Some((p.0@, s@.skip(p.1 as int)))),
        (r is None ==> parse_string_body(s@.skip(i as int)) is None),
{
    let mut out: Vec<char> = Vec::new();
    let mut k = i;
    proof {
        assert(out@ + Seq::<char>::empty() =~= out@);
    }
    while k < s.len()
        invariant
            i <= k <= s@.len(),
            (match parse_string_body(s@.skip(k as int)) {
                Option::Some((t, rest)) => parse_string_body(s@.skip(i as int)) == Some(
                    (out@ + t, rest),
                ),
                Option::None => parse_string_body(s@.skip(i as int)) is None,
            }),
        decreases s@.len() - k,
    {
        match p_body_step(s, k) {
            BodyStep::Closed(j) => {
                proof {
                    assert(out@ + Seq::<char>::empty() =~= out@);
                }
                return Some((out, j));
            },
            BodyStep::Denoted(c2, j) => {
                let ghost prev = out@;
                out.push(c2);
                proof {
                    match parse_string_body(s@.skip(j as int)) {
                        Option::Some((t, rest)) => {
                            assert(out@ + t =~= prev + (seq![c2] + t));
                        },
                        Option::None => {},
                    }
                }
                k = j;
            },
            BodyStep::Malformed => {
                return None;
            },
        }
    }
    proof {
        assert(s@.skip(k as int).len() == 0);
    }
    None
}

/// Parses a string literal starting at `i` (at the opening quote).
fn p_quoted(s: &Vec<char>, i: usize) -> (r: Option<(Vec<char>, usize)>)
    requires
        i <= s@.len(),
    ensures
        (r matches Option::Some(p) ==> i <= p.1 <= s@.len() && parse_quoted(s@.skip(i as int))
            == Some((p.0@, s@.skip(p.1 as int)))),
        (r is None ==> parse_quoted(s@.skip(i as int)) is None),
{
    if i < s.len() && s[i] == '"' {
        proof {
            assert(s@.skip(i as int)[0] == s@[i as int]);
            assert(s@.skip(i as int).drop_first() =~= s@.skip(i + 1));
        }
        p_string_body(s, i + 1)
    } else {
        proof {
            if i < s@.len() {
                assert(s@.skip(i as int)[0] == s@[i as int]);
            }
        }
        None
    }
}

/// Parses a `true` or `false` literal starting at `i`.
fn p_bool(s: &Vec<char>, i: usize) -> (r: Option<(bool, usize)>)
    requires
        i <= s@.len(),
    ensures
        (r matches Option::Some(p) ==> i <= p.1 <= s@.len() && parse_bool(s@.skip(i as int))
            == Some((p.0, s@.skip(p.1 as int)))),
        (r is None ==> parse_bool(s@.skip(i as int)) is None),
{
    let ghost suf = s@.skip(i as int);
    proof {
        assert(suf.len() == s@.len() - i);
        assert(forall|m: int| 0 <= m < suf.len() ==> suf[m] == s@[i + m]);
    }
    let n = s.len();
    if n - i >= 4 && s[i] == 't' && s[i + 1] == 'r' && s[i + 2] == 'u' && s[i + 3] == 'e' {
        proof {
            assert(suf.skip(4) =~= s@.skip(i + 4));
        }
        return Some((true, i + 4));
    }
    if n - i >= 5 && s[i] == 'f' && s[i + 1] == 'a' && s[i + 2] == 'l' && s[i + 3] == 's' && s[i
        + 4] == 'e' {
        proof {
            assert(suf.skip(5) =~= s@.skip(i + 5));
        }
        return Some((false, i + 5));
    }
    None
}

/// Parses the items of a non-empty string array, starting right after the
/// opening bracket, into owned strings.
fn p_string_items(s: &Vec<char>, i: usize) -> (r: Option<(Vec<String>, usize)>)
    requires
        i <= s@.len(),
    ensures
        (r matches Option::Some(p) ==> i <= p.1 <= s@.len() && parse_string_items(
            s@.skip(i as int),
        ) == Some((crate::sorting::strings_view(p.0@), s@.skip(p.1 as int)))),
        (r is None ==> parse_string_items(s@.skip(i as int)) is None),
{
    let mut acc: Vec<String> = Vec::new();
    let mut k = i;
    proof {
        assert(crate::sorting::strings_view(acc@) =~= Seq::<Seq<char>>::empty());
    }
    loop
        invariant
            i <= k <= s@.len(),
            (match parse_string_items(s@.skip(k as int)) {
                Option::Some((vs, rest)) => parse_string_items(s@.skip(i as int)) == Some(
                    (crate::sorting::strings_view(acc@) + vs, rest),
                ),
                Option::None => parse_string_items(s@.skip(i as int)) is None,
            }),
        decreases s@.len() - k,
    {
        let j1 = p_skip_ws(s, k);
        match p_quoted(s, j1) {
            Option::None => {
                return None;
            },
            Option::Some((v, j2)) => {
                let j3 = p_skip_ws(s, j2);
                let ghost prev = acc@;
                let ghost vv = v@;
                if j3 < s.len() && s[j3] == ',' {
                    acc.push(string_from_chars(&v));
                    proof {
                        assert(s@.skip(j3 as int)[0] == s@[j3 as int]);
                        assert(s@.skip(j3 as int).drop_first() =~= s@.skip(j3 + 1));
                        assert(crate::sorting::strings_view(acc@) =~= crate::sorting::strings_view(
                            prev,
                        ).push(vv));
                        match parse_string_items(s@.skip(j3 + 1)) {
                            Option::Some((vs, rest)) => {
                                assert(crate::sorting::strings_view(acc@) + vs
                                    =~= crate::sorting::strings_view(prev) + (seq![vv] + vs));
                            },
                            Option::None => {},
                        }
                    }
                    k = j3 + 1;
                } else if j3 < s.len() && s[j3] == ']' {
                    acc.push(string_from_chars(&v));
                    proof {
                        assert(s@.skip(j3 as int)[0] == s@[j3 as int]);
                        assert(s@.skip(j3 as int).drop_first() =~= s@.skip(j3 + 1));
                        assert(crate::sorting::strings_view(acc@) =~= crate::sorting::strings_view(
                            prev,
                        ).push(vv));
                        assert(crate::sorting::strings_view(acc@) =~= crate::sorting::strings_view(
                            prev,
                        ) + seq![vv]);
                    }
                    return Some((acc, j3 + 1));
                } else {
                    proof {
                        if j3 < s@.len() {
                            assert(s@.skip(j3 as int)[0] == s@[j3 as int]);
                        }
                    }
                    return None;
                }
            },
        }
    }
}

/// Parses a string array starting at `i` (at the opening bracket).
fn p_string_array(s: &Vec<char>, i: usize) -> (r: Option<(Vec<String>, usize)>)
    requires
        i <= s@.len(),
    ensures
        (r matches Option::Some(p) ==> i <= p.1 <= s@.len() && parse_string_array(
            s@.skip(i as int),
        ) == Some((crate::sorting::strings_view(p.0@), s@.skip(p.1 as int)))),
        (r is None ==> parse_string_array(s@.skip(i as int)) is None),
{
    if i < s.len() && s[i] == '[' {
        proof {
            assert(s@.skip(i as int)[0] == s@[i as int]);
            assert(s@.skip(i as int).drop_first() =~= s@.skip(i + 1));
        }
        let j1 = p_skip_ws(s, i + 1);
        if j1 < s.len() && s[j1] == ']' {
            proof {
                assert(s@.skip(j1 as int)[0] == s@[j1 as int]);
                assert(s@.skip(j1 as int).drop_first() =~= s@.skip(j1 + 1));
                assert(crate::sorting::strings_view(Seq::<String>::empty())
                    =~= Seq::<Seq<char>>::empty());
            }
            let empty_vec: Vec<String> = Vec::new();
            proof {
                assert(crate::sorting::strings_view(empty_vec@) =~= Seq::<Seq<char>>::empty());
            }
            return Some((empty_vec, j1 + 1));
        }
        proof {
            if j1 < s@.len() {
                assert(s@.skip(j1 as int)[0] == s@[j1 as int]);
            }
        }
        p_string_items(s, i + 1)
    } else {
        proof {
            if i < s@.len() {
                assert(s@.skip(i as int)[0] == s@[i as int]);
            }
        }
        None
    }
}

/// Parses one terminal entry starting at `i` (at the opening bracket).
fn p_pair(s: &Vec<char>, i: usize) -> (r: Option<((String, bool), usize)>)
    requires
        i <= s@.len(),
    ensures
        (r matches Option::Some(p) ==> i <= p.1 <= s@.len() && parse_pair(s@.skip(i as int))
            == Some(((p.0.0@, p.0.1), s@.skip(p.1 as int)))),
        (r is None ==> parse_pair(s@.skip(i as int)) is None),
{
    if i < s.len() && s[i] == '[' {
        proof {
            assert(s@.skip(i as int)[0] == s@[i as int]);
            assert(s@.skip(i as int).drop_first() =~= s@.skip(i + 1));
        }
        let j1 = p_skip_ws(s, i + 1);
        match p_quoted(s, j1) {
            Option::None => None,
            Option::Some((v, j2)) => {
                let j3 = p_skip_ws(s, j2);
                if j3 < s.len() && s[j3] == ',' {
                    proof {
                        assert(s@.skip(j3 as int)[0] == s@[j3 as int]);
                        assert(s@.skip(j3 as int).drop_first() =~= s@.skip(j3 + 1));
                    }
                    let j4 = p_skip_ws(s, j3 + 1);
                    match p_bool(s, j4) {
                        Option::None => None,
                        Option::Some((bv, j5)) => {
                            let j6 = p_skip_ws(s, j5);
                            if j6 < s.len() && s[j6] == ']' {
                                proof {
                                    assert(s@.skip(j6 as int)[0] == s@[j6 as int]);
                                    assert(s@.skip(j6 as int).drop_first() =~= s@.skip(j6 + 1));
                                }
                                Some(((string_from_chars(&v), bv), j6 + 1))
                            } else {
                                proof {
                                    if j6 < s@.len() {
                                        assert(s@.skip(j6 as int)[0] == s@[j6 as int]);
                                    }
                                }
                                None
                            }
                        },
                    }
                } else {
                    proof {
                        if j3 < s@.len() {
                            assert(s@.skip(j3 as int)[0] == s@[j3 as int]);
                        }
                    }
                    None
                }
            },
        }
    } else {
        proof {
            if i < s@.len() {
                assert(s@.skip(i as int)[0] == s@[i as int]);
            }
        }
        None
    }
}

/// Parses the items of a non-empty terminal-entry array, starting right
/// after the opening bracket.
fn p_pair_items(s: &Vec<char>, i: usize) -> (r: Option<(Vec<(String, bool)>, usize)>)
    requires
        i <= s@.len(),
    ensures
        (r matches Option::Some(p) ==> i <= p.1 <= s@.len() && parse_pair_items(
            s@.skip(i as int),
        ) == Some((crate::sorting::pairs_view(p.0@), s@.skip(p.1 as int)))),
        (r is None ==> parse_pair_items(s@.skip(i as int)) is None),
{
    let mut acc: Vec<(String, bool)> = Vec::new();
    let mut k = i;
    proof {
        assert(crate::sorting::pairs_view(acc@) =~= Seq::<(Seq<char>, bool)>::empty());
    }
    loop
        invariant
            i <= k <= s@.len(),
            (match parse_pair_items(s@.skip(k as int)) {
                Option::Some((ps, rest)) => parse_pair_items(s@.skip(i as int)) == Some(
                    (crate::sorting::pairs_view(acc@) + ps, rest),
                ),
                Option::None => parse_pair_items(s@.skip(i as int)) is None,
            }),
        decreases s@.len() - k,
    {
        let j1 = p_skip_ws(s, k);
        match p_pair(s, j1) {
            Option::None => {
                return None;
            },
            Option::Some((pair, j2)) => {
                let j3 = p_skip_ws(s, j2);
                let ghost prev = acc@;
                let ghost pvv = (pair.0@, pair.1);
                if j3 < s.len() && s[j3] == ',' {
                    acc.push(pair);
                    proof {
                        assert(s@.skip(j3 as int)[0] == s@[j3 as int]);
                        assert(s@.skip(j3 as int).drop_first() =~= s@.skip(j3 + 1));
                        assert(crate::sorting::pairs_view(acc@) =~= crate::sorting::pairs_view(
                            prev,
                        ).push(pvv));
                        match parse_pair_items(s@.skip(j3 + 1)) {
                            Option::Some((ps, rest)) => {
                                assert(crate::sorting::pairs_view(acc@) + ps
                                    =~= crate::sorting::pairs_view(prev) + (seq![pvv] + ps));
                            },
                            Option::None => {},
                        }
                    }
                    k = j3 + 1;
                } else if j3 < s.len() && s[j3] == ']' {
                    acc.push(pair);
                    proof {
                        assert(s@.skip(j3 as int)[0] == s@[j3 as int]);
                        assert(s@.skip(j3 as int).drop_first() =~= s@.skip(j3 + 1));
                        assert(crate::sorting::pairs_view(acc@) =~= crate::sorting::pairs_view(
                            prev,
                        ) + seq![pvv]);
                    }
                    return Some((acc, j3 + 1));
                } else {
                    proof {
                        if j3 < s@.len() {
                            assert(s@.skip(j3 as int)[0] == s@[j3 as int]);
                        }
                    }
                    return None;
                }
            },
        }
    }
}

/// Parses a terminal-entry array starting at `i` (at the opening bracket).
fn p_pair_array(s: &Vec<char>, i: usize) -> (r: Option<(Vec<(String, bool)>, usize)>)
    requires
        i <= s@.len(),
    ensures
        (r matches Option::Some(p) ==> i <= p.1 <= s@.len() && parse_pair_array(
            s@.skip(i as int),
        ) == Some((crate::sorting::pairs_view(p.0@), s@.skip(p.1 as int)))),
        (r is None ==> parse_pair_array(s@.skip(i as int)) is None),
{
    if i < s.len() && s[i] == '[' {
        proof {
            assert(s@.skip(i as int)[0] == s@[i as int]);
            assert(s@.skip(i as int).drop_first() =~= s@.skip(i + 1));
        }
        let j1 = p_skip_ws(s, i + 1);
        if j1 < s.len() && s[j1] == ']' {
            proof {
                assert(s@.skip(j1 as int)[0] == s@[j1 as int]);
                assert(s@.skip(j1 as int).drop_first() =~= s@.skip(j1 + 1));
            }
            let empty_vec: Vec<(String, bool)> = Vec::new();
            proof {
                assert(crate::sorting::pairs_view(empty_vec@) =~= Seq::<(Seq<char>,
                    bool)>::empty());
            }
            return Some((empty_vec, j1 + 1));
        }
        proof {
            if j1 < s@.len() {
                assert(s@.skip(j1 as int)[0] == s@[j1 as int]);
            }
        }
        p_pair_items(s, i + 1)
    } else {
        proof {
            if i < s@.len() {
                assert(s@.skip(i as int)[0] == s@[i as int]);
            }
        }
        None
    }
}

/// One parsed member with its owned lane value.
enum MemberData {
    FileLane(Vec<String>),
    WindowsLane(Vec<String>),
    TerminalLane(Vec<(String, bool)>),
}

impl View for MemberData {
    type V = LaneMember;

    closed spec fn view(&self) -> LaneMember {
        match self {
            MemberData::FileLane(v) => LaneMember::FileLane(crate::sorting::strings_view(v@)),
            MemberData::WindowsLane(v) => LaneMember::WindowsLane(
                crate::sorting::strings_view(v@),
            ),
            MemberData::TerminalLane(v) => LaneMember::TerminalLane(
                crate::sorting::pairs_view(v@),
            ),
        }
    }
}

/// Parses one member (`ws "key" ws : ws value`) starting at `i`; the key
/// decides the lane and the value's shape.
fn p_member(s: &Vec<char>, i: usize) -> (r: Option<(MemberData, usize)>)
    requires
        i <= s@.len(),
    ensures
        (r matches Option::Some(p) ==> i <= p.1 <= s@.len() && parse_member(s@.skip(i as int))
            == Some((p.0@, s@.skip(p.1 as int)))),
        (r is None ==> parse_member(s@.skip(i as int)) is None),
{
    proof {
        reveal_strlit("file");
        reveal_strlit("windows");
        reveal_strlit("terminal");
        assert("file"@ =~= key_file());
        assert("windows"@ =~= key_windows());
        assert("terminal"@ =~= key_terminal());
    }
    let key_f = chars_of_str("file");
    let key_w = chars_of_str("windows");
    let key_t = chars_of_str("terminal");
    let j1 = p_skip_ws(s, i);
    match p_quoted(s, j1) {
        Option::None => None,
        Option::Some((k_chars, j2)) => {
            let j3 = p_skip_ws(s, j2);
            if j3 < s.len() && s[j3] == ':' {
                proof {
                    assert(s@.skip(j3 as int)[0] == s@[j3 as int]);
                    assert(s@.skip(j3 as int).drop_first() =~= s@.skip(j3 + 1));
                }
                let j4 = p_skip_ws(s, j3 + 1);
                if chars_eq(&k_chars, &key_f) {
                    match p_string_array(s, j4) {
                        Option::None => None,
                        Option::Some((v, j5)) => Some((MemberData::FileLane(v), j5)),
                    }
                } else if chars_eq(&k_chars, &key_w) {
                    match p_string_array(s, j4) {
                        Option::None => None,
                        Option::Some((v, j5)) => Some((MemberData::WindowsLane(v), j5)),
                    }
                } else if chars_eq(&k_chars, &key_t) {
                    match p_pair_array(s, j4) {
                        Option::None => None,
                        Option::Some((v, j5)) => Some((MemberData::TerminalLane(v), j5)),
                    }
                } else {
                    None
                }
            } else {
                proof {
                    if j3 < s@.len() {
                        assert(s@.skip(j3 as int)[0] == s@[j3 as int]);
                    }
                }
                None
            }
        },
    }
}

/// A persistence failure: the stored text is malformed.
#[derive(Clone, Copy, Debug, PartialEq, Eq)]
pub struct ParseError;

impl ParseError {
    /// The reason string the persistence layer reports for this failure.
    pub fn message(&self) -> (m: String)
        ensures
            m@ == "Failed to parse JSON."@,
    {
        String::from_str("Failed to parse JSON.")
    }
}

impl Commands {
    /// The persisted text of this store: the pretty-printed record that
    /// `emit_store` specifies.  Writing it to disk is the caller's part.
    #[verifier::rlimit(100)]
    pub fn to_json(&self) -> (r: String)
        ensures
            r@ == emit_store(self@),
    {
        let mut out: Vec<char> = Vec::new();
        out.push('{');
        out.push('\n');
        out.push(' ');
        out.push(' ');
        proof {
            reveal_strlit("file");
            reveal_strlit("windows");
            reveal_strlit("terminal");
            assert("file"@ =~= key_file());
            assert("windows"@ =~= key_windows());
            assert("terminal"@ =~= key_terminal());
        }
        emit_quoted_into(&mut out, "file");
        out.push(':');
        out.push(' ');
        emit_string_array_into(&mut out, &self.file);
        let ghost part_a = out@;
        out.push(',');
        out.push('\n');
        out.push(' ');
        out.push(' ');
        emit_quoted_into(&mut out, "windows");
        out.push(':');
        out.push(' ');
        emit_string_array_into(&mut out, &self.windows);
        let ghost part_b = out@;
        out.push(',');
        out.push('\n');
        out.push(' ');
        out.push(' ');
        emit_quoted_into(&mut out, "terminal");
        out.push(':');
        out.push(' ');
        emit_pair_array_into(&mut out, &self.terminal);
        out.push('\n');
        out.push('}');
        proof {
            assert(part_a =~= seq!['{', '\n', ' ', ' '] + quoted(key_file()) + seq![':', ' ']
                + emit_string_array(self@.file));
            assert(part_b =~= part_a + member_sep() + quoted(key_windows()) + seq![':', ' ']
                + emit_string_array(self@.windows));
            assert(out@ =~= part_b + member_sep() + quoted(key_terminal()) + seq![':', ' ']
                + emit_pair_array(self@.terminal) + seq!['\n', '}']);
            assert(out@ =~= emit_store(self@));
        }
        string_from_chars(&out)
    }

    /// Parses a persisted record and sorts each lane case-insensitively,
    /// stably, as loading always re-sorts.  Returns `Err` exactly when the
    /// text is malformed, that is, when `parse_store_text` gives it no
    /// value.
    #[verifier::rlimit(100)]
    pub fn from_json(text: &str) -> (r: Result<Commands, ParseError>)
        ensures
            (r matches Result::Ok(c) ==> parse_store_text(text@) is Some && c@
                == crate::store::sort_model(parse_store_text(text@)->0) && crate::store::model_sorted(
                c@,
            )),
            (r is Err ==> parse_store_text(text@) is None),
    {
        let s = chars_of_str(text);
        proof {
            assert(s@.skip(0) =~= s@);
        }
        let j0 = p_skip_ws(&s, 0);
        if !(j0 < s.len()) {
            return Err(ParseError);
        }
        if s[j0] != '{' {
            proof {
                assert(s@.skip(j0 as int)[0] == s@[j0 as int]);
            }
            return Err(ParseError);
        }
        proof {
            assert(s@.skip(j0 as int)[0] == s@[j0 as int]);
            assert(s@.skip(j0 as int).drop_first() =~= s@.skip(j0 + 1));
        }
        let (m1, ja) = match p_member(&s, j0 + 1) {
            Option::None => {
                return Err(ParseError);
            },
            Option::Some(p) => p,
        };
        let ja2 = p_skip_ws(&s, ja);
        if !(ja2 < s.len()) {
            return Err(ParseError);
        }
        if s[ja2] != ',' {
            proof {
                assert(s@.skip(ja2 as int)[0] == s@[ja2 as int]);
            }
            return Err(ParseError);
        }
        proof {
            assert(s@.skip(ja2 as int)[0] == s@[ja2 as int]);
            assert(s@.skip(ja2 as int).drop_first() =~= s@.skip(ja2 + 1));
        }
        let (m2, jb) = match p_member(&s, ja2 + 1) {
            Option::None => {
                return Err(ParseError);
            },
            Option::Some(p) => p,
        };
        let jb2 = p_skip_ws(&s, jb);
        if !(jb2 < s.len()) {
            return Err(ParseError);
        }
        if s[jb2] != ',' {
            proof {
                assert(s@.skip(jb2 as int)[0] == s@[jb2 as int]);
            }
            return Err(ParseError);
        }
        proof {
            assert(s@.skip(jb2 as int)[0] == s@[jb2 as int]);
            assert(s@.skip(jb2 as int).drop_first() =~= s@.skip(jb2 + 1));
        }
        let (m3, jc) = match p_member(&s, jb2 + 1) {
            Option::None => {
                return Err(ParseError);
            },
            Option::Some(p) => p,
        };
        let jc2 = p_skip_ws(&s, jc);
        if !(jc2 < s.len()) {
            return Err(ParseError);
        }
        if s[jc2] != '}' {
            proof {
                assert(s@.skip(jc2 as int)[0] == s@[jc2 as int]);
            }
            return Err(ParseError);
        }
        proof {
            assert(s@.skip(jc2 as int)[0] == s@[jc2 as int]);
            assert(s@.skip(jc2 as int).drop_first() =~= s@.skip(jc2 + 1));
        }
        let jg = p_skip_ws(&s, jc2 + 1);
        if jg < s.len() {
            proof {
                assert(skip_ws(s@.skip(jc2 + 1)).len() > 0);
            }
            return Err(ParseError);
        }
        proof {
            assert(s@.skip(jg as int).len() == 0);
            assert(parse_store_text(text@) == assemble_store(m1@, m2@, m3@));
        }
        match (m1, m2, m3) {
            (
                MemberData::FileLane(f),
                MemberData::WindowsLane(w),
                MemberData::TerminalLane(t),
            ) => Ok(sorted_store(f, w, t)),
            (
                MemberData::FileLane(f),
                MemberData::TerminalLane(t),
                MemberData::WindowsLane(w),
            ) => Ok(sorted_store(f, w, t)),
            (
                MemberData::WindowsLane(w),
                MemberData::FileLane(f),
                MemberData::TerminalLane(t),
            ) => Ok(sorted_store(f, w, t)),
            (
                MemberData::WindowsLane(w),
                MemberData::TerminalLane(t),
                MemberData::FileLane(f),
            ) => Ok(sorted_store(f, w, t)),
            (
                MemberData::TerminalLane(t),
                MemberData::FileLane(f),
                MemberData::WindowsLane(w),
            ) => Ok(sorted_store(f, w, t)),
            (
                MemberData::TerminalLane(t),
                MemberData::WindowsLane(w),
                MemberData::FileLane(f),
            ) => Ok(sorted_store(f, w, t)),
            _ => Err(ParseError),
        }
    }
}

/// Sorts three freshly parsed lanes case-insensitively and builds the
/// store, as loading always does.
fn sorted_store(file: Vec<String>, windows: Vec<String>, terminal: Vec<(String, bool)>) -> (c:
    Commands)
    ensures
        c@ == crate::store::sort_model(
            StoreModel {
                file: crate::sorting::strings_view(file@),
                windows: crate::sorting::strings_view(windows@),
                terminal: crate::sorting::pairs_view(terminal@),
            },
        ),
        crate::store::model_sorted(c@),
{
    let ghost parsed = StoreModel {
        file: crate::sorting::strings_view(file@),
        windows: crate::sorting::strings_view(windows@),
        terminal: crate::sorting::pairs_view(terminal@),
    };
    let mut file_lane = file;
    let mut windows_lane = windows;
    let mut terminal_lane = terminal;
    crate::sorting::sort_strings(&mut file_lane);
    crate::sorting::sort_strings(&mut windows_lane);
    crate::sorting::sort_pairs(&mut terminal_lane);
    let c = Commands { file: file_lane, windows: windows_lane, terminal: terminal_lane };
    proof {
        assert(c@ =~= crate::store::sort_model(parsed));
        crate::sorting::lemma_sort_by_sorted(crate::sorting::lower_key(), parsed.file);
        crate::sorting::lemma_sort_by_sorted(crate::sorting::lower_key(), parsed.windows);
        crate::sorting::lemma_sort_by_sorted(crate::sorting::pair_lower_key(), parsed.terminal);
    }
    c
}

/// Loading what saving wrote restores the store: for a store whose lanes
/// are sorted (as every store the library builds is), parsing the emitted
/// text yields exactly the original model, and the re-sort that loading
/// performs changes nothing.
pub proof fn lemma_load_save_round_trip(m: StoreModel)
    requires
        crate::store::model_sorted(m),
    ensures
        parse_store_text(emit_store(m)) == Some(m),
        crate::store::sort_model(m) == m,
{
    lemma_store_round_trip(m);
    crate::sorting::lemma_sort_by_of_sorted(crate::sorting::lower_key(), m.file);
    crate::sorting::lemma_sort_by_of_sorted(crate::sorting::lower_key(), m.windows);
    crate::sorting::lemma_sort_by_of_sorted(crate::sorting::pair_lower_key(), m.terminal);
    assert(crate::store::sort_model(m) =~= m);
}

} // verus!
