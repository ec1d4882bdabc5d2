//! The storage format: the whole task list as one JSON array of task
//! objects, each with the fields `description`, `status`, `dependencies`,
//! `linked_files` and `linked_urls`, the last three either `null` or an
//! array of strings. The writer emits a compact document (no whitespace,
//! fields in declaration order, control characters escaped). The reader
//! accepts JSON: insignificant whitespace between tokens, fields in any
//! order, a missing optional field as unset, and the standard string
//! escapes (`\"`, `\\`, `\/`, `\b`, `\f`, `\n`, `\r`, `\t` and `\uXXXX`
//! with surrogate pairs); it rejects unknown and repeated fields, raw
//! control characters inside strings, and anything after the array.
//! Reading anything unreadable fails, and the loader treats a failed read
//! as an empty list — which silently discards whatever the file held once
//! the next save runs.

use vstd::prelude::*;

use crate::chars::{chars_to_string, str_to_chars};
use crate::task::{task_views, Task, TaskV};

verus! {

// ---------------------------------------------------------------------
// What the writer produces, character for character.
// ---------------------------------------------------------------------
/// The lowercase hexadecimal digit for a value below sixteen.
pub open spec fn hex_char(n: int) -> char {
    if n == 0 {
        '0'
    } else if n == 1 {
        '1'
    } else if n == 2 {
        '2'
    } else if n == 3 {
        '3'
    } else if n == 4 {
        '4'
    } else if n == 5 {
        '5'
    } else if n == 6 {
        '6'
    } else if n == 7 {
        '7'
    } else if n == 8 {
        '8'
    } else if n == 9 {
        '9'
    } else if n == 10 {
        'a'
    } else if n == 11 {
        'b'
    } else if n == 12 {
        'c'
    } else if n == 13 {
        'd'
    } else if n == 14 {
        'e'
    } else {
        'f'
    }
}

/// How one character appears inside a JSON string: the quote and the
/// backslash are escaped, the five control characters with short forms
/// use them, every other control character becomes `\u00xx`, and every
/// remaining character stands for itself.
pub open spec fn escape_char(c: char) -> Seq<char> {
    if c == '"' {
        seq!['\\', '"']
    } else if c == '\\' {
        seq!['\\', '\\']
    } else if c == '\u{8}' {
        seq!['\\', 'b']
    } else if c == '\t' {
        seq!['\\', 't']
    } else if c == '\n' {
        seq!['\\', 'n']
    } else if c == '\u{c}' {
        seq!['\\', 'f']
    } else if c == '\r' {
        seq!['\\', 'r']
    } else if (c as u32) < 0x20 {
        seq!['\\', 'u', '0', '0', hex_char((c as u32) as int / 16), hex_char((c as u32) as int % 16)]
    } else {
        seq![c]
    }
}

/// The body of a JSON string: every character escaped, in order.
pub open spec fn escape_chars(s: Seq<char>) -> Seq<char>
    decreases s.len(),
{
    if s.len() == 0 {
        Seq::empty()
    } else {
        escape_char(s[0]) + escape_chars(s.skip(1))
    }
}

/// A JSON string: the escaped body between double quotes.
pub open spec fn json_of_string(s: Seq<char>) -> Seq<char> {
    seq!['"'] + escape_chars(s) + seq!['"']
}

/// The comma-separated strings inside a JSON array (no brackets).
pub open spec fn json_of_items(l: Seq<Seq<char>>) -> Seq<char>
    decreases l.len(),
{
    if l.len() == 0 {
        Seq::empty()
    } else if l.len() == 1 {
        json_of_string(l[0])
    } else {
        json_of_string(l[0]) + seq![','] + json_of_items(l.skip(1))
    }
}

/// A JSON array of strings.
pub open spec fn json_of_string_list(l: Seq<Seq<char>>) -> Seq<char> {
    seq!['['] + json_of_items(l) + seq![']']
}

/// An optional string list: `null` when unset, else the array.
pub open spec fn json_of_opt_list(o: Option<Seq<Seq<char>>>) -> Seq<char> {
    match o {
        None => "null"@,
        Some(l) => json_of_string_list(l),
    }
}

/// The five field names.
pub open spec fn name_description() -> Seq<char> {
    "description"@
}

pub open spec fn name_status() -> Seq<char> {
    "status"@
}

pub open spec fn name_dependencies() -> Seq<char> {
    "dependencies"@
}

pub open spec fn name_linked_files() -> Seq<char> {
    "linked_files"@
}

pub open spec fn name_linked_urls() -> Seq<char> {
    "linked_urls"@
}

/// The fields of one task object, written in declaration order.
#[verifier::opaque]
pub open spec fn json_of_field_list(t: TaskV) -> Seq<char> {
    json_of_string(name_description()) + seq![':'] + json_of_string(t.description) + seq![',']
        + json_of_string(name_status()) + seq![':'] + json_of_string(t.status) + seq![',']
        + json_of_string(name_dependencies()) + seq![':'] + json_of_opt_list(t.dependencies)
        + seq![','] + json_of_string(name_linked_files()) + seq![':'] + json_of_opt_list(
        t.linked_files,
    ) + seq![','] + json_of_string(name_linked_urls()) + seq![':'] + json_of_opt_list(
        t.linked_urls,
    )
}

/// One task as a JSON object.
pub open spec fn json_of_task(t: TaskV) -> Seq<char> {
    seq!['{'] + json_of_field_list(t) + seq!['}']
}

/// The comma-separated task objects inside the top-level array.
pub open spec fn json_of_task_items(ts: Seq<TaskV>) -> Seq<char>
    decreases ts.len(),
{
    if ts.len() == 0 {
        Seq::empty()
    } else if ts.len() == 1 {
        json_of_task(ts[0])
    } else {
        json_of_task(ts[0]) + seq![','] + json_of_task_items(ts.skip(1))
    }
}

/// The whole document: the task list as one JSON array.
pub open spec fn json_of_tasks(ts: Seq<TaskV>) -> Seq<char> {
    seq!['['] + json_of_task_items(ts) + seq![']']
}

// ---------------------------------------------------------------------
// What the reader accepts. Each parser consumes a prefix and returns the
// value it read together with the remainder, or nothing on a mismatch.
// ---------------------------------------------------------------------
/// The four characters JSON treats as insignificant whitespace.
pub open spec fn is_json_ws(c: char) -> bool {
    c == ' ' || c == '\t' || c == '\n' || c == '\r'
}

/// Drops leading whitespace.
pub open spec fn skip_ws(s: Seq<char>) -> Seq<char>
    decreases s.len(),
{
    if s.len() > 0 && is_json_ws(s[0]) {
        skip_ws(s.skip(1))
    } else {
        s
    }
}

/// Skipping whitespace never grows the remainder.
pub proof fn lemma_skip_ws_consumes(s: Seq<char>)
    ensures
        skip_ws(s).len() <= s.len(),
    decreases s.len(),
{
    if s.len() > 0 && is_json_ws(s[0]) {
        lemma_skip_ws_consumes(s.skip(1));
    }
}

/// The value of a hexadecimal digit, upper or lower case.
pub open spec fn hex_val(c: char) -> Option<u32> {
    let v = c as u32;
    if ('0' as u32) <= v <= ('9' as u32) {
        Some((v - ('0' as u32)) as u32)
    } else if ('a' as u32) <= v <= ('f' as u32) {
        Some((v - ('a' as u32) + 10) as u32)
    } else if ('A' as u32) <= v <= ('F' as u32) {
        Some((v - ('A' as u32) + 10) as u32)
    } else {
        None
    }
}

/// Reads four hexadecimal digits as one value (at most 0xFFFF).
pub open spec fn parse_hex4(s: Seq<char>) -> Option<(u32, Seq<char>)> {
    if s.len() >= 4 && hex_val(s[0]) is Some && hex_val(s[1]) is Some && hex_val(s[2]) is Some
        && hex_val(s[3]) is Some {
        Some(
            (
                ((hex_val(s[0]).unwrap() as int) * 4096 + (hex_val(s[1]).unwrap() as int) * 256 + (
                hex_val(s[2]).unwrap() as int) * 16 + (hex_val(s[3]).unwrap() as int)) as u32,
                s.skip(4),
            ),
        )
    } else {
        None
    }
}

/// The scalar value a surrogate pair stands for.
pub open spec fn combined_surrogates(hi: u32, lo: u32) -> u32 {
    (0x10000 + ((hi - 0xD800) as int) * 0x400 + ((lo - 0xDC00) as int)) as u32
}

/// Reads one string escape, starting at the backslash: the eight
/// single-character escapes, `\uXXXX` for a scalar value, and a surrogate
/// pair of two `\uXXXX` escapes for a character beyond them.
pub open spec fn parse_escape(s: Seq<char>) -> Option<(char, Seq<char>)> {
    if s.len() < 2 || s[0] != '\\' {
        None
    } else {
        let e = s[1];
        if e == '"' {
            Some(('"', s.skip(2)))
        } else if e == '\\' {
            Some(('\\', s.skip(2)))
        } else if e == '/' {
            Some(('/', s.skip(2)))
        } else if e == 'b' {
            Some(('\u{8}', s.skip(2)))
        } else if e == 'f' {
            Some(('\u{c}', s.skip(2)))
        } else if e == 'n' {
            Some(('\n', s.skip(2)))
        } else if e == 'r' {
            Some(('\r', s.skip(2)))
        } else if e == 't' {
            Some(('\t', s.skip(2)))
        } else if e == 'u' {
            match parse_hex4(s.skip(2)) {
                None => None,
                Some(p) => {
                    let code = p.0;
                    if 0xD800 <= code < 0xDC00 {
                        if p.1.len() >= 2 && p.1[0] == '\\' && p.1[1] == 'u' {
                            match parse_hex4(p.1.skip(2)) {
                                None => None,
                                Some(q) => {
                                    if 0xDC00 <= q.0 < 0xE000 {
                                        Some((combined_surrogates(code, q.0) as char, q.1))
                                    } else {
                                        None
                                    }
                                },
                            }
                        } else {
                            None
                        }
                    } else if 0xDC00 <= code < 0xE000 {
                        None
                    } else {
                        Some((code as char, p.1))
                    }
                },
            }
        } else {
            None
        }
    }
}

/// A successful escape read consumes at least the backslash and one more
/// character.
pub proof fn lemma_parse_escape_consumes(s: Seq<char>)
    ensures
        parse_escape(s) matches Some(p) ==> p.1.len() + 2 <= s.len(),
{
}

/// Reads a string body up to and including the closing quote (the opening
/// quote is already consumed). A raw control character is not accepted;
/// it must be escaped.
pub open spec fn parse_string_body(s: Seq<char>) -> Option<(Seq<char>, Seq<char>)>
    decreases s.len(),
    via parse_string_body_dec
{
    if s.len() == 0 {
        None
    } else if s[0] == '"' {
        Some((Seq::empty(), s.skip(1)))
    } else if s[0] == '\\' {
        match parse_escape(s) {
            None => None,
            Some(p) => match parse_string_body(p.1) {
                None => None,
                Some(q) => Some((seq![p.0] + q.0, q.1)),
            },
        }
    } else if (s[0] as u32) < 0x20 {
        None
    } else {
        match parse_string_body(s.skip(1)) {
            None => None,
            Some(p) => Some((seq![s[0]] + p.0, p.1)),
        }
    }
}

#[via_fn]
proof fn parse_string_body_dec(s: Seq<char>) {
    lemma_parse_escape_consumes(s);
}

/// Reads a quoted JSON string.
pub open spec fn parse_string(s: Seq<char>) -> Option<(Seq<char>, Seq<char>)> {
    if s.len() >= 1 && s[0] == '"' {
        parse_string_body(s.skip(1))
    } else {
        None
    }
}

/// A successful string body read consumes at least the closing quote.
pub proof fn lemma_parse_string_body_consumes(s: Seq<char>)
    ensures
        parse_string_body(s) matches Some(p) ==> p.1.len() < s.len(),
    decreases s.len(),
{
    if s.len() == 0 {
    } else if s[0] == '"' {
    } else if s[0] == '\\' {
        lemma_parse_escape_consumes(s);
        match parse_escape(s) {
            None => {},
            Some(p) => {
                lemma_parse_string_body_consumes(p.1);
            },
        }
    } else if (s[0] as u32) < 0x20 {
    } else {
        lemma_parse_string_body_consumes(s.skip(1));
    }
}

/// A successful string read consumes at least both quotes.
pub proof fn lemma_parse_string_consumes(s: Seq<char>)
    ensures
        parse_string(s) matches Some(p) ==> p.1.len() + 2 <= s.len(),
{
    if s.len() >= 1 && s[0] == '"' {
        lemma_parse_string_body_consumes(s.skip(1));
    }
}

/// Reads the strings of a non-empty array up to and including the closing
/// bracket (the opening bracket is already consumed).
pub open spec fn parse_items(s: Seq<char>) -> Option<(Seq<Seq<char>>, Seq<char>)>
    decreases s.len(),
    via parse_items_dec
{
    match parse_string(s) {
        None => None,
        Some(p) => {
            let r = skip_ws(p.1);
            if r.len() >= 1 && r[0] == ',' {
                match parse_items(skip_ws(r.skip(1))) {
                    None => None,
                    Some(q) => Some((seq![p.0] + q.0, q.1)),
                }
            } else if r.len() >= 1 && r[0] == ']' {
                Some((seq![p.0], r.skip(1)))
            } else {
                None
            }
        },
    }
}

#[via_fn]
proof fn parse_items_dec(s: Seq<char>) {
    lemma_parse_string_consumes(s);
    match parse_string(s) {
        None => {},
        Some(p) => {
            lemma_skip_ws_consumes(p.1);
            let r = skip_ws(p.1);
            if r.len() >= 1 && r[0] == ',' {
                lemma_skip_ws_consumes(r.skip(1));
            }
        },
    }
}

/// A successful item-list read consumes at least one character.
pub proof fn lemma_parse_items_consumes(s: Seq<char>)
    ensures
        parse_items(s) matches Some(p) ==> p.1.len() < s.len(),
    decreases s.len(),
{
    lemma_parse_string_consumes(s);
    match parse_string(s) {
        None => {},
        Some(p) => {
            lemma_skip_ws_consumes(p.1);
            let r = skip_ws(p.1);
            if r.len() >= 1 && r[0] == ',' {
                lemma_skip_ws_consumes(r.skip(1));
                lemma_parse_items_consumes(skip_ws(r.skip(1)));
            }
        },
    }
}

/// Reads an optional string list: `null`, an empty array, or a non-empty
/// array of strings.
pub open spec fn parse_opt_list(s: Seq<char>) -> Option<(Option<Seq<Seq<char>>>, Seq<char>)> {
    if s.len() >= 4 && s.subrange(0, 4) == "null"@ {
        Some((None, s.skip(4)))
    } else if s.len() >= 1 && s[0] == '[' {
        let r = skip_ws(s.skip(1));
        if r.len() >= 1 && r[0] == ']' {
            Some((Some(Seq::empty()), r.skip(1)))
        } else {
            match parse_items(r) {
                None => None,
                Some(p) => Some((Some(p.0), p.1)),
            }
        }
    } else {
        None
    }
}

/// A successful optional-list read consumes at least one character.
pub proof fn lemma_parse_opt_list_consumes(s: Seq<char>)
    ensures
        parse_opt_list(s) matches Some(p) ==> p.1.len() < s.len(),
{
    reveal_strlit("null");
    if s.len() >= 1 && s[0] == '[' {
        lemma_skip_ws_consumes(s.skip(1));
        lemma_parse_items_consumes(skip_ws(s.skip(1)));
    }
}

/// Reads an exact literal and returns what follows it.
pub open spec fn parse_lit(s: Seq<char>, lit: Seq<char>) -> Option<Seq<char>> {
    if lit.len() <= s.len() && s.subrange(0, lit.len() as int) == lit {
        Some(s.skip(lit.len() as int))
    } else {
        None
    }
}

/// One task object's fields as read so far: each slot is set once its
/// field has been read. The outer option marks a field as present; for
/// the three optional lists the inner option is the field's own value.
#[verifier::ext_equal]
pub ghost struct FieldsV {
    pub description: Option<Seq<char>>,
    pub status: Option<Seq<char>>,
    pub dependencies: Option<Option<Seq<Seq<char>>>>,
    pub linked_files: Option<Option<Seq<Seq<char>>>>,
    pub linked_urls: Option<Option<Seq<Seq<char>>>>,
}

/// No field read yet.
pub open spec fn no_fields() -> FieldsV {
    FieldsV {
        description: None,
        status: None,
        dependencies: None,
        linked_files: None,
        linked_urls: None,
    }
}

/// An optional field that was never read is an unset list.
pub open spec fn field_or_unset(o: Option<Option<Seq<Seq<char>>>>) -> Option<Seq<Seq<char>>> {
    match o {
        None => None,
        Some(v) => v,
    }
}

/// The task an object stands for once its closing brace is read:
/// `description` and `status` are required, the three lists default to
/// unset.
pub open spec fn task_of_fields(acc: FieldsV) -> Option<TaskV> {
    if acc.description is Some && acc.status is Some {
        Some(
            TaskV {
                description: acc.description.unwrap(),
                status: acc.status.unwrap(),
                dependencies: field_or_unset(acc.dependencies),
                linked_files: field_or_unset(acc.linked_files),
                linked_urls: field_or_unset(acc.linked_urls),
            },
        )
    } else {
        None
    }
}

/// Reads the value of the field named `k` and records it in `acc`. An
/// unknown field, a repeated field and a value of the wrong shape are
/// rejected.
pub open spec fn parse_field_value(k: Seq<char>, s: Seq<char>, acc: FieldsV) -> Option<
    (FieldsV, Seq<char>),
> {
    if k == name_description() {
        if acc.description is Some {
            None
        } else {
            match parse_string(s) {
                None => None,
                Some(p) => Some((FieldsV { description: Some(p.0), ..acc }, p.1)),
            }
        }
    } else if k == name_status() {
        if acc.status is Some {
            None
        } else {
            match parse_string(s) {
                None => None,
                Some(p) => Some((FieldsV { status: Some(p.0), ..acc }, p.1)),
            }
        }
    } else if k == name_dependencies() {
        if acc.dependencies is Some {
            None
        } else {
            match parse_opt_list(s) {
                None => None,
                Some(p) => Some((FieldsV { dependencies: Some(p.0), ..acc }, p.1)),
            }
        }
    } else if k == name_linked_files() {
        if acc.linked_files is Some {
            None
        } else {
            match parse_opt_list(s) {
                None => None,
                Some(p) => Some((FieldsV { linked_files: Some(p.0), ..acc }, p.1)),
            }
        }
    } else if k == name_linked_urls() {
        if acc.linked_urls is Some {
            None
        } else {
            match parse_opt_list(s) {
                None => None,
                Some(p) => Some((FieldsV { linked_urls: Some(p.0), ..acc }, p.1)),
            }
        }
    } else {
        None
    }
}

/// A successful field read never grows the remainder.
pub proof fn lemma_parse_field_value_consumes(k: Seq<char>, s: Seq<char>, acc: FieldsV)
    ensures
        parse_field_value(k, s, acc) matches Some(p) ==> p.1.len() <= s.len(),
{
    lemma_parse_string_consumes(s);
    lemma_parse_opt_list_consumes(s);
}

/// Reads an object's fields, starting at the first key (the opening
/// brace and any whitespace after it are already consumed), through the
/// closing brace.
pub open spec fn parse_fields(s: Seq<char>, acc: FieldsV) -> Option<(TaskV, Seq<char>)>
    decreases s.len(),
    via parse_fields_dec
{
    match parse_string(s) {
        None => None,
        Some(pk) => {
            let r1 = skip_ws(pk.1);
            if r1.len() >= 1 && r1[0] == ':' {
                match parse_field_value(pk.0, skip_ws(r1.skip(1)), acc) {
                    None => None,
                    Some(pv) => {
                        let r2 = skip_ws(pv.1);
                        if r2.len() >= 1 && r2[0] == ',' {
                            parse_fields(skip_ws(r2.skip(1)), pv.0)
                        } else if r2.len() >= 1 && r2[0] == '}' {
                            match task_of_fields(pv.0) {
                                None => None,
                                Some(t) => Some((t, r2.skip(1))),
                            }
                        } else {
                            None
                        }
                    },
                }
            } else {
                None
            }
        },
    }
}

#[via_fn]
proof fn parse_fields_dec(s: Seq<char>, acc: FieldsV) {
    lemma_parse_string_consumes(s);
    match parse_string(s) {
        None => {},
        Some(pk) => {
            lemma_skip_ws_consumes(pk.1);
            let r1 = skip_ws(pk.1);
            if r1.len() >= 1 && r1[0] == ':' {
                lemma_skip_ws_consumes(r1.skip(1));
                lemma_parse_field_value_consumes(pk.0, skip_ws(r1.skip(1)), acc);
                match parse_field_value(pk.0, skip_ws(r1.skip(1)), acc) {
                    None => {},
                    Some(pv) => {
                        lemma_skip_ws_consumes(pv.1);
                        let r2 = skip_ws(pv.1);
                        if r2.len() >= 1 && r2[0] == ',' {
                            lemma_skip_ws_consumes(r2.skip(1));
                        }
                    },
                }
            }
        },
    }
}

/// A successful field-list read consumes at least one character.
pub proof fn lemma_parse_fields_consumes(s: Seq<char>, acc: FieldsV)
    ensures
        parse_fields(s, acc) matches Some(p) ==> p.1.len() < s.len(),
    decreases s.len(),
{
    lemma_parse_string_consumes(s);
    match parse_string(s) {
        None => {},
        Some(pk) => {
            lemma_skip_ws_consumes(pk.1);
            let r1 = skip_ws(pk.1);
            if r1.len() >= 1 && r1[0] == ':' {
                lemma_skip_ws_consumes(r1.skip(1));
                lemma_parse_field_value_consumes(pk.0, skip_ws(r1.skip(1)), acc);
                match parse_field_value(pk.0, skip_ws(r1.skip(1)), acc) {
                    None => {},
                    Some(pv) => {
                        lemma_skip_ws_consumes(pv.1);
                        let r2 = skip_ws(pv.1);
                        if r2.len() >= 1 && r2[0] == ',' {
                            lemma_skip_ws_consumes(r2.skip(1));
                            lemma_parse_fields_consumes(skip_ws(r2.skip(1)), pv.0);
                        }
                    },
                }
            }
        },
    }
}

/// Reads one task object, starting at its opening brace.
pub open spec fn parse_task(s: Seq<char>) -> Option<(TaskV, Seq<char>)> {
    if s.len() >= 1 && s[0] == '{' {
        parse_fields(skip_ws(s.skip(1)), no_fields())
    } else {
        None
    }
}

/// A successful task read consumes at least its opening brace.
pub proof fn lemma_parse_task_consumes(s: Seq<char>)
    ensures
        parse_task(s) matches Some(p) ==> p.1.len() < s.len(),
{
    if s.len() >= 1 && s[0] == '{' {
        lemma_skip_ws_consumes(s.skip(1));
        lemma_parse_fields_consumes(skip_ws(s.skip(1)), no_fields());
    }
}

/// Reads the task objects of a non-empty array up to and including the
/// closing bracket (the opening bracket and any whitespace after it are
/// already consumed).
pub open spec fn parse_task_items(s: Seq<char>) -> Option<(Seq<TaskV>, Seq<char>)>
    decreases s.len(),
    via parse_task_items_dec
{
    match parse_task(s) {
        None => None,
        Some(p) => {
            let r = skip_ws(p.1);
            if r.len() >= 1 && r[0] == ',' {
                match parse_task_items(skip_ws(r.skip(1))) {
                    None => None,
                    Some(q) => Some((seq![p.0] + q.0, q.1)),
                }
            } else if r.len() >= 1 && r[0] == ']' {
                Some((seq![p.0], r.skip(1)))
            } else {
                None
            }
        },
    }
}

#[via_fn]
proof fn parse_task_items_dec(s: Seq<char>) {
    lemma_parse_task_consumes(s);
    match parse_task(s) {
        None => {},
        Some(p) => {
            lemma_skip_ws_consumes(p.1);
            let r = skip_ws(p.1);
            if r.len() >= 1 && r[0] == ',' {
                lemma_skip_ws_consumes(r.skip(1));
            }
        },
    }
}

/// Reads the top-level array of tasks, starting at its opening bracket.
pub open spec fn parse_tasks(s: Seq<char>) -> Option<(Seq<TaskV>, Seq<char>)> {
    if s.len() >= 1 && s[0] == '[' {
        let r = skip_ws(s.skip(1));
        if r.len() >= 1 && r[0] == ']' {
            Some((Seq::empty(), r.skip(1)))
        } else {
            parse_task_items(r)
        }
    } else {
        None
    }
}

/// Reads a whole document: the top-level array, possibly surrounded by
/// whitespace, with nothing else after it.
pub open spec fn parse_document(s: Seq<char>) -> Option<Seq<TaskV>> {
    match parse_tasks(skip_ws(s)) {
        None => None,
        Some(p) => if skip_ws(p.1).len() == 0 {
            Some(p.0)
        } else {
            None
        },
    }
}

// ---------------------------------------------------------------------
// The reader inverts the writer: parsing a written document gives back
// exactly the values it was written from.
// ---------------------------------------------------------------------
/// Text that does not start with whitespace is left as it is.
proof fn lemma_skip_ws_id(s: Seq<char>)
    requires
        s.len() == 0 || !is_json_ws(s[0]),
    ensures
        skip_ws(s) == s,
{
}

/// Reading a hexadecimal digit the writer emitted gives back its value.
proof fn lemma_hex_char_val(n: int)
    requires
        0 <= n < 16,
    ensures
        hex_val(hex_char(n)) == Some(n as u32),
{
}

/// The first character of a written optional list is never whitespace.
proof fn lemma_opt_list_first_char(o: Option<Seq<Seq<char>>>)
    ensures
        json_of_opt_list(o).len() >= 1,
        !is_json_ws(json_of_opt_list(o)[0]),
{
    reveal_strlit("null");
    match o {
        None => {},
        Some(l) => {},
    }
}

/// Reading a written escape gives back the escaped character.
proof fn lemma_parse_escape_inv(c: char, rest: Seq<char>)
    requires
        c == '"' || c == '\\' || (c as u32) < 0x20,
    ensures
        parse_escape(escape_char(c) + rest) == Some((c, rest)),
{
    let s = escape_char(c) + rest;
    if c == '"' || c == '\\' || c == '\u{8}' || c == '\t' || c == '\n' || c == '\u{c}' || c
        == '\r' {
        assert(escape_char(c).len() == 2 && escape_char(c)[0] == '\\');
        assert(s[0] == '\\' && s[1] == escape_char(c)[1]);
        assert(s.skip(2) =~= rest);
    } else {
        let n = (c as u32) as int;
        let h1 = hex_char(n / 16);
        let h2 = hex_char(n % 16);
        assert(0 <= n < 0x20);
        assert(0 <= n / 16 < 16 && 0 <= n % 16 < 16);
        assert(escape_char(c) == seq!['\\', 'u', '0', '0', h1, h2]);
        assert(s[0] == '\\' && s[1] == 'u');
        let s2 = seq!['0', '0', h1, h2] + rest;
        assert(s.skip(2) =~= s2);
        lemma_hex_char_val(n / 16);
        lemma_hex_char_val(n % 16);
        assert(s2[0] == '0' && s2[1] == '0' && s2[2] == h1 && s2[3] == h2);
        assert(hex_val('0') == Some(0u32));
        assert(s2.skip(4) =~= rest);
        assert((n / 16) * 16 + n % 16 == n) by (nonlinear_arith)
            requires 0 <= n < 0x20;
        let code = ((hex_val(s2[0]).unwrap() as int) * 4096 + (hex_val(s2[1]).unwrap() as int)
            * 256 + (hex_val(s2[2]).unwrap() as int) * 16 + (hex_val(s2[3]).unwrap() as int))
            as u32;
        assert(parse_hex4(s2) == Some((code, rest)));
        assert(code == c as u32);
        assert(!(0xD800 <= code < 0xDC00) && !(0xDC00 <= code < 0xE000));
        vstd::utf8::char_u32_cast(c, code);
    }
}

/// Unescaping inverts escaping, character by character.
proof fn lemma_parse_string_body_inv(x: Seq<char>, rest: Seq<char>)
    ensures
        parse_string_body(escape_chars(x) + seq!['"'] + rest) == Some((x, rest)),
    decreases x.len(),
{
    let s = escape_chars(x) + seq!['"'] + rest;
    if x.len() == 0 {
        assert(s =~= seq!['"'] + rest);
        assert(s[0] == '"');
        assert(s.skip(1) =~= rest);
        assert(x =~= Seq::<char>::empty());
    } else {
        let c = x[0];
        lemma_parse_string_body_inv(x.skip(1), rest);
        let suffix = escape_chars(x.skip(1)) + seq!['"'] + rest;
        assert(escape_chars(x) == escape_char(c) + escape_chars(x.skip(1)));
        assert(s =~= escape_char(c) + suffix);
        if c == '"' || c == '\\' || (c as u32) < 0x20 {
            lemma_parse_escape_inv(c, suffix);
            assert(escape_char(c)[0] == '\\');
            assert(s[0] == '\\');
            assert(seq![c] + x.skip(1) =~= x);
        } else {
            assert(s[0] == c && c != '"' && c != '\\' && !((c as u32) < 0x20));
            assert(s.skip(1) =~= suffix);
            assert(seq![c] + x.skip(1) =~= x);
        }
    }
}

/// Reading a written string gives back the original characters.
proof fn lemma_parse_string_inv(x: Seq<char>, rest: Seq<char>)
    ensures
        parse_string(json_of_string(x) + rest) == Some((x, rest)),
{
    let s = json_of_string(x) + rest;
    assert(s =~= seq!['"'] + (escape_chars(x) + seq!['"'] + rest));
    assert(s[0] == '"');
    assert(s.skip(1) =~= escape_chars(x) + seq!['"'] + rest);
    lemma_parse_string_body_inv(x, rest);
}

/// Reading written array items gives back the original list.
proof fn lemma_parse_items_inv(l: Seq<Seq<char>>, rest: Seq<char>)
    requires
        l.len() >= 1,
    ensures
        parse_items(json_of_items(l) + seq![']'] + rest) == Some((l, rest)),
    decreases l.len(),
{
    let s = json_of_items(l) + seq![']'] + rest;
    if l.len() == 1 {
        let r = seq![']'] + rest;
        assert(s =~= json_of_string(l[0]) + r);
        lemma_parse_string_inv(l[0], r);
        assert(r[0] == ']');
        lemma_skip_ws_id(r);
        assert(r.skip(1) =~= rest);
        assert(seq![l[0]] =~= l);
    } else {
        let tail_ser = json_of_items(l.skip(1)) + seq![']'] + rest;
        let r = seq![','] + tail_ser;
        assert(s =~= json_of_string(l[0]) + r);
        lemma_parse_string_inv(l[0], r);
        assert(r[0] == ',');
        lemma_skip_ws_id(r);
        assert(r.skip(1) =~= tail_ser);
        assert(json_of_string(l.skip(1)[0])[0] == '"');
        assert(json_of_items(l.skip(1))[0] == '"');
        assert(tail_ser[0] == '"');
        lemma_skip_ws_id(tail_ser);
        lemma_parse_items_inv(l.skip(1), rest);
        assert(seq![l[0]] + l.skip(1) =~= l);
    }
}

/// Reading a written optional list gives back the original option.
proof fn lemma_parse_opt_list_inv(o: Option<Seq<Seq<char>>>, rest: Seq<char>)
    ensures
        parse_opt_list(json_of_opt_list(o) + rest) == Some((o, rest)),
{
    reveal_strlit("null");
    let s = json_of_opt_list(o) + rest;
    match o {
        None => {
            assert(s.subrange(0, 4) =~= "null"@);
            assert(s.skip(4) =~= rest);
        },
        Some(l) => {
            assert(s[0] == '[');
            if s.len() >= 4 && s.subrange(0, 4) == "null"@ {
                assert(s.subrange(0, 4)[0] == s[0]);
                assert(false);
            }
            if l.len() == 0 {
                assert(json_of_items(l) =~= Seq::<char>::empty());
                assert(s =~= seq!['[', ']'] + rest);
                let tail = seq![']'] + rest;
                assert(s.skip(1) =~= tail);
                assert(tail[0] == ']');
                lemma_skip_ws_id(tail);
                assert(tail.skip(1) =~= rest);
                assert(Seq::<Seq<char>>::empty() =~= l);
            } else {
                let tail = json_of_items(l) + seq![']'] + rest;
                assert(s =~= seq!['['] + tail);
                assert(json_of_string(l[0])[0] == '"');
                assert(json_of_items(l)[0] == '"');
                assert(tail[0] == '"');
                assert(s.skip(1) =~= tail);
                lemma_skip_ws_id(tail);
                lemma_parse_items_inv(l, rest);
            }
        },
    }
}

// The written fields, one suffix per field, nested so that each reading
// step peels off exactly one key and one value.
spec fn ser_from_urls(t: TaskV, rest: Seq<char>) -> Seq<char> {
    json_of_string(name_linked_urls()) + (seq![':'] + (json_of_opt_list(t.linked_urls) + (
    seq!['}'] + rest)))
}

spec fn ser_from_files(t: TaskV, rest: Seq<char>) -> Seq<char> {
    json_of_string(name_linked_files()) + (seq![':'] + (json_of_opt_list(t.linked_files) + (
    seq![','] + ser_from_urls(t, rest))))
}

spec fn ser_from_deps(t: TaskV, rest: Seq<char>) -> Seq<char> {
    json_of_string(name_dependencies()) + (seq![':'] + (json_of_opt_list(t.dependencies) + (
    seq![','] + ser_from_files(t, rest))))
}

spec fn ser_from_status(t: TaskV, rest: Seq<char>) -> Seq<char> {
    json_of_string(name_status()) + (seq![':'] + (json_of_string(t.status) + (seq![',']
        + ser_from_deps(t, rest))))
}

spec fn ser_from_desc(t: TaskV, rest: Seq<char>) -> Seq<char> {
    json_of_string(name_description()) + (seq![':'] + (json_of_string(t.description) + (
    seq![','] + ser_from_status(t, rest))))
}

// The gathered fields after each reading step.
spec fn acc_after_desc(t: TaskV) -> FieldsV {
    FieldsV { description: Some(t.description), ..no_fields() }
}

spec fn acc_after_status(t: TaskV) -> FieldsV {
    FieldsV { status: Some(t.status), ..acc_after_desc(t) }
}

spec fn acc_after_deps(t: TaskV) -> FieldsV {
    FieldsV { dependencies: Some(t.dependencies), ..acc_after_status(t) }
}

spec fn acc_after_files(t: TaskV) -> FieldsV {
    FieldsV { linked_files: Some(t.linked_files), ..acc_after_deps(t) }
}

/// The written field list, with the closing brace and what follows it,
/// regrouped as the suffix chain.
#[verifier::rlimit(100)]
proof fn lemma_fields_align(t: TaskV, rest: Seq<char>)
    ensures
        json_of_field_list(t) + seq!['}'] + rest == ser_from_desc(t, rest),
{
    reveal(json_of_field_list);
    assert(json_of_field_list(t) + seq!['}'] + rest =~= ser_from_desc(t, rest));
}

/// Reading the description field leaves the status suffix.
proof fn lemma_fields_step_desc(t: TaskV, rest: Seq<char>)
    ensures
        parse_fields(ser_from_desc(t, rest), no_fields()) == parse_fields(
            ser_from_status(t, rest),
            acc_after_desc(t),
        ),
{
    reveal_strlit("description");
    let nxt = ser_from_status(t, rest);
    let z = seq![','] + nxt;
    let y = json_of_string(t.description) + z;
    let x = seq![':'] + y;
    lemma_parse_string_inv(name_description(), x);
    assert(x[0] == ':');
    lemma_skip_ws_id(x);
    assert(x.skip(1) =~= y);
    assert(y[0] == '"');
    lemma_skip_ws_id(y);
    lemma_parse_string_inv(t.description, z);
    assert(parse_field_value(name_description(), y, no_fields()) == Some((acc_after_desc(t), z)));
    assert(z[0] == ',');
    lemma_skip_ws_id(z);
    assert(z.skip(1) =~= nxt);
    assert(nxt[0] == '"');
    lemma_skip_ws_id(nxt);
}

/// Reading the status field leaves the dependencies suffix.
proof fn lemma_fields_step_status(t: TaskV, rest: Seq<char>)
    ensures
        parse_fields(ser_from_status(t, rest), acc_after_desc(t)) == parse_fields(
            ser_from_deps(t, rest),
            acc_after_status(t),
        ),
{
    reveal_strlit("description");
    reveal_strlit("status");
    let nxt = ser_from_deps(t, rest);
    let z = seq![','] + nxt;
    let y = json_of_string(t.status) + z;
    let x = seq![':'] + y;
    lemma_parse_string_inv(name_status(), x);
    assert(x[0] == ':');
    lemma_skip_ws_id(x);
    assert(x.skip(1) =~= y);
    assert(y[0] == '"');
    lemma_skip_ws_id(y);
    lemma_parse_string_inv(t.status, z);
    assert(name_status() != name_description());
    assert(parse_field_value(name_status(), y, acc_after_desc(t)) == Some(
        (acc_after_status(t), z),
    ));
    assert(z[0] == ',');
    lemma_skip_ws_id(z);
    assert(z.skip(1) =~= nxt);
    assert(nxt[0] == '"');
    lemma_skip_ws_id(nxt);
}

/// Reading the dependencies field leaves the linked-files suffix.
proof fn lemma_fields_step_deps(t: TaskV, rest: Seq<char>)
    ensures
        parse_fields(ser_from_deps(t, rest), acc_after_status(t)) == parse_fields(
            ser_from_files(t, rest),
            acc_after_deps(t),
        ),
{
    reveal_strlit("description");
    reveal_strlit("status");
    reveal_strlit("dependencies");
    let nxt = ser_from_files(t, rest);
    let z = seq![','] + nxt;
    let y = json_of_opt_list(t.dependencies) + z;
    let x = seq![':'] + y;
    lemma_parse_string_inv(name_dependencies(), x);
    assert(x[0] == ':');
    lemma_skip_ws_id(x);
    assert(x.skip(1) =~= y);
    lemma_opt_list_first_char(t.dependencies);
    assert(y[0] == json_of_opt_list(t.dependencies)[0]);
    lemma_skip_ws_id(y);
    lemma_parse_opt_list_inv(t.dependencies, z);
    assert(name_dependencies() != name_description() && name_dependencies() != name_status());
    assert(parse_field_value(name_dependencies(), y, acc_after_status(t)) == Some(
        (acc_after_deps(t), z),
    ));
    assert(z[0] == ',');
    lemma_skip_ws_id(z);
    assert(z.skip(1) =~= nxt);
    assert(nxt[0] == '"');
    lemma_skip_ws_id(nxt);
}

/// Reading the linked-files field leaves the linked-urls suffix.
proof fn lemma_fields_step_files(t: TaskV, rest: Seq<char>)
    ensures
        parse_fields(ser_from_files(t, rest), acc_after_deps(t)) == parse_fields(
            ser_from_urls(t, rest),
            acc_after_files(t),
        ),
{
    reveal_strlit("description");
    reveal_strlit("status");
    reveal_strlit("dependencies");
    reveal_strlit("linked_files");
    let nxt = ser_from_urls(t, rest);
    let z = seq![','] + nxt;
    let y = json_of_opt_list(t.linked_files) + z;
    let x = seq![':'] + y;
    lemma_parse_string_inv(name_linked_files(), x);
    assert(x[0] == ':');
    lemma_skip_ws_id(x);
    assert(x.skip(1) =~= y);
    lemma_opt_list_first_char(t.linked_files);
    assert(y[0] == json_of_opt_list(t.linked_files)[0]);
    lemma_skip_ws_id(y);
    lemma_parse_opt_list_inv(t.linked_files, z);
    assert(name_linked_files() != name_description() && name_linked_files() != name_status()
        && name_linked_files() != name_dependencies());
    assert(parse_field_value(name_linked_files(), y, acc_after_deps(t)) == Some(
        (acc_after_files(t), z),
    ));
    assert(z[0] == ',');
    lemma_skip_ws_id(z);
    assert(z.skip(1) =~= nxt);
    assert(nxt[0] == '"');
    lemma_skip_ws_id(nxt);
}

/// Reading the linked-urls field and the closing brace yields the task.
proof fn lemma_fields_step_urls(t: TaskV, rest: Seq<char>)
    ensures
        parse_fields(ser_from_urls(t, rest), acc_after_files(t)) == Some((t, rest)),
{
    reveal_strlit("description");
    reveal_strlit("status");
    reveal_strlit("dependencies");
    reveal_strlit("linked_files");
    reveal_strlit("linked_urls");
    let z = seq!['}'] + rest;
    let y = json_of_opt_list(t.linked_urls) + z;
    let x = seq![':'] + y;
    lemma_parse_string_inv(name_linked_urls(), x);
    assert(x[0] == ':');
    lemma_skip_ws_id(x);
    assert(x.skip(1) =~= y);
    lemma_opt_list_first_char(t.linked_urls);
    assert(y[0] == json_of_opt_list(t.linked_urls)[0]);
    lemma_skip_ws_id(y);
    lemma_parse_opt_list_inv(t.linked_urls, z);
    assert(name_linked_urls() != name_description() && name_linked_urls() != name_status()
        && name_linked_urls() != name_dependencies() && name_linked_urls()
        != name_linked_files());
    let a5 = FieldsV { linked_urls: Some(t.linked_urls), ..acc_after_files(t) };
    assert(parse_field_value(name_linked_urls(), y, acc_after_files(t)) == Some((a5, z)));
    assert(z[0] == '}');
    lemma_skip_ws_id(z);
    assert(z.skip(1) =~= rest);
    assert(task_of_fields(a5) matches Some(u) && u =~= t);
}

/// Reading the written fields of a task gives back the task.
proof fn lemma_parse_fields_inv(t: TaskV, rest: Seq<char>)
    ensures
        parse_fields(json_of_field_list(t) + seq!['}'] + rest, no_fields()) == Some((t, rest)),
{
    lemma_fields_align(t, rest);
    lemma_fields_step_desc(t, rest);
    lemma_fields_step_status(t, rest);
    lemma_fields_step_deps(t, rest);
    lemma_fields_step_files(t, rest);
    lemma_fields_step_urls(t, rest);
}

/// Reading a written task object gives back the original task model.
proof fn lemma_parse_task_inv(t: TaskV, rest: Seq<char>)
    ensures
        parse_task(json_of_task(t) + rest) == Some((t, rest)),
{
    let s = json_of_task(t) + rest;
    let fields = json_of_field_list(t) + seq!['}'] + rest;
    assert(s =~= seq!['{'] + fields);
    assert(s[0] == '{');
    assert(s.skip(1) =~= fields);
    lemma_fields_align(t, rest);
    assert(json_of_string(name_description())[0] == '"');
    assert(fields[0] == '"');
    lemma_skip_ws_id(fields);
    lemma_parse_fields_inv(t, rest);
}

/// Reading written task items gives back the original task sequence.
#[verifier::rlimit(100)]
proof fn lemma_parse_task_items_inv(ts: Seq<TaskV>, rest: Seq<char>)
    requires
        ts.len() >= 1,
    ensures
        parse_task_items(json_of_task_items(ts) + seq![']'] + rest) == Some((ts, rest)),
    decreases ts.len(),
{
    let s = json_of_task_items(ts) + seq![']'] + rest;
    if ts.len() == 1 {
        let r = seq![']'] + rest;
        assert(s =~= json_of_task(ts[0]) + r);
        lemma_parse_task_inv(ts[0], r);
        assert(r[0] == ']');
        lemma_skip_ws_id(r);
        assert(r.skip(1) =~= rest);
        assert(seq![ts[0]] =~= ts);
    } else {
        let tail_ser = json_of_task_items(ts.skip(1)) + seq![']'] + rest;
        let r = seq![','] + tail_ser;
        assert(s =~= json_of_task(ts[0]) + r);
        lemma_parse_task_inv(ts[0], r);
        assert(r[0] == ',');
        lemma_skip_ws_id(r);
        assert(r.skip(1) =~= tail_ser);
        assert(json_of_task(ts.skip(1)[0])[0] == '{');
        assert(json_of_task_items(ts.skip(1))[0] == '{');
        assert(tail_ser[0] == '{');
        lemma_skip_ws_id(tail_ser);
        lemma_parse_task_items_inv(ts.skip(1), rest);
        assert(seq![ts[0]] + ts.skip(1) =~= ts);
    }
}

/// Reading a written top-level array gives back the original sequence.
proof fn lemma_parse_tasks_inv(ts: Seq<TaskV>, rest: Seq<char>)
    ensures
        parse_tasks(json_of_tasks(ts) + rest) == Some((ts, rest)),
{
    let s = json_of_tasks(ts) + rest;
    assert(s[0] == '[');
    if ts.len() == 0 {
        assert(json_of_task_items(ts) =~= Seq::<char>::empty());
        assert(s =~= seq!['[', ']'] + rest);
        let tail = seq![']'] + rest;
        assert(s.skip(1) =~= tail);
        assert(tail[0] == ']');
        lemma_skip_ws_id(tail);
        assert(tail.skip(1) =~= rest);
        assert(Seq::<TaskV>::empty() =~= ts);
    } else {
        let tail = json_of_task_items(ts) + seq![']'] + rest;
        assert(s =~= seq!['['] + tail);
        assert(json_of_task(ts[0])[0] == '{');
        assert(json_of_task_items(ts)[0] == '{');
        assert(tail[0] == '{');
        assert(s.skip(1) =~= tail);
        lemma_skip_ws_id(tail);
        lemma_parse_task_items_inv(ts, rest);
    }
}

/// Round trip: the document written for any task list reads back as
/// exactly that list, fields and order preserved — so saving and then
/// loading yields the sequence that was saved.
pub proof fn lemma_save_load_round_trip(ts: Seq<TaskV>)
    ensures
        parse_document(json_of_tasks(ts)) == Some(ts),
        loaded_tasks(Some(json_of_tasks(ts))) == ts,
{
    lemma_parse_tasks_inv(ts, Seq::empty());
    let s = json_of_tasks(ts);
    assert(s + Seq::<char>::empty() =~= s);
    assert(s[0] == '[');
    lemma_skip_ws_id(s);
    assert(skip_ws(Seq::<char>::empty()) == Seq::<char>::empty());
}

// ---------------------------------------------------------------------
// The writer.
// ---------------------------------------------------------------------
/// Escaping one more character extends the escaped body by its escape.
proof fn lemma_escape_chars_snoc(s: Seq<char>, c: char)
    ensures
        escape_chars(s.push(c)) == escape_chars(s) + escape_char(c),
    decreases s.len(),
{
    if s.len() == 0 {
        assert(s.push(c) =~= seq![c]);
        assert(seq![c].skip(1) =~= Seq::<char>::empty());
        assert(escape_chars(seq![c].skip(1)) == Seq::<char>::empty());
        assert(escape_chars(seq![c]) == escape_char(c) + escape_chars(seq![c].skip(1)));
        assert(escape_char(c) + Seq::<char>::empty() =~= escape_char(c));
        assert(escape_chars(s) == Seq::<char>::empty());
        assert(Seq::<char>::empty() + escape_char(c) =~= escape_char(c));
    } else {
        assert(s.push(c).skip(1) =~= s.skip(1).push(c));
        lemma_escape_chars_snoc(s.skip(1), c);
        assert(escape_chars(s.push(c)) =~= escape_chars(s) + escape_char(c));
    }
}

/// One more item extends the written items by a comma (except for the
/// first item) and the item itself.
proof fn lemma_json_of_items_snoc(l: Seq<Seq<char>>, x: Seq<char>)
    ensures
        json_of_items(l.push(x)) == if l.len() == 0 {
            json_of_string(x)
        } else {
            json_of_items(l) + seq![','] + json_of_string(x)
        },
    decreases l.len(),
{
    if l.len() == 0 {
        assert(l.push(x) =~= seq![x]);
    } else {
        assert(l.push(x).skip(1) =~= l.skip(1).push(x));
        lemma_json_of_items_snoc(l.skip(1), x);
        assert(json_of_items(l.push(x)) =~= json_of_items(l) + seq![','] + json_of_string(x));
    }
}

/// One more task extends the written task items likewise.
proof fn lemma_json_of_task_items_snoc(ts: Seq<TaskV>, t: TaskV)
    ensures
        json_of_task_items(ts.push(t)) == if ts.len() == 0 {
            json_of_task(t)
        } else {
            json_of_task_items(ts) + seq![','] + json_of_task(t)
        },
    decreases ts.len(),
{
    if ts.len() == 0 {
        assert(ts.push(t) =~= seq![t]);
    } else {
        assert(ts.push(t).skip(1) =~= ts.skip(1).push(t));
        lemma_json_of_task_items_snoc(ts.skip(1), t);
        assert(json_of_task_items(ts.push(t)) =~= json_of_task_items(ts) + seq![',']
            + json_of_task(t));
    }
}

/// Appends the characters of `lit` to `out`.
fn write_lit(out: &mut Vec<char>, lit: &str)
    ensures
        final(out)@ == old(out)@ + lit@,
{
    let mut cs = str_to_chars(lit);
    out.append(&mut cs);
}

/// The lowercase hexadecimal digit for a value below sixteen.
fn hex_char_of(n: u32) -> (c: char)
    requires
        n < 16,
    ensures
        c == hex_char(n as int),
{
    if n == 0 {
        '0'
    } else if n == 1 {
        '1'
    } else if n == 2 {
        '2'
    } else if n == 3 {
        '3'
    } else if n == 4 {
        '4'
    } else if n == 5 {
        '5'
    } else if n == 6 {
        '6'
    } else if n == 7 {
        '7'
    } else if n == 8 {
        '8'
    } else if n == 9 {
        '9'
    } else if n == 10 {
        'a'
    } else if n == 11 {
        'b'
    } else if n == 12 {
        'c'
    } else if n == 13 {
        'd'
    } else if n == 14 {
        'e'
    } else {
        'f'
    }
}

/// Appends `s` as a JSON string: quoted, with the escapes applied.
fn write_string(out: &mut Vec<char>, s: &str)
    ensures
        final(out)@ == old(out)@ + json_of_string(s@),
{
    out.push('"');
    let cs = str_to_chars(s);
    let mut i: usize = 0;
    while i < cs.len()
        invariant
            i <= cs@.len(),
            cs@ == s@,
            out@ == old(out)@ + seq!['"'] + escape_chars(s@.take(i as int)),
        decreases cs@.len() - i,
    {
        let c = cs[i];
        if c == '"' {
            out.push('\\');
            out.push('"');
        } else if c == '\\' {
            out.push('\\');
            out.push('\\');
        } else if c == '\u{8}' {
            out.push('\\');
            out.push('b');
        } else if c == '\t' {
            out.push('\\');
            out.push('t');
        } else if c == '\n' {
            out.push('\\');
            out.push('n');
        } else if c == '\u{c}' {
            out.push('\\');
            out.push('f');
        } else if c == '\r' {
            out.push('\\');
            out.push('r');
        } else if (c as u32) < 0x20 {
            out.push('\\');
            out.push('u');
            out.push('0');
            out.push('0');
            out.push(hex_char_of((c as u32) / 16));
            out.push(hex_char_of((c as u32) % 16));
        } else {
            out.push(c);
        }
        proof {
            lemma_escape_chars_snoc(s@.take(i as int), s@[i as int]);
            assert(s@.take(i as int).push(s@[i as int]) =~= s@.take(i as int + 1));
            assert(out@ =~= old(out)@ + seq!['"'] + escape_chars(s@.take(i as int + 1)));
        }
        i = i + 1;
    }
    out.push('"');
    proof {
        assert(s@.take(s@.len() as int) =~= s@);
        assert(out@ =~= old(out)@ + json_of_string(s@));
    }
}

/// Appends an optional string list: `null` when unset, else the array.
fn write_opt_list(out: &mut Vec<char>, o: &Option<Vec<String>>)
    ensures
        final(out)@ == old(out)@ + json_of_opt_list(o.deep_view()),
{
    match o {
        None => {
            write_lit(out, "null");
        },
        Some(l) => {
            out.push('[');
            let ghost dv = l.deep_view();
            let mut i: usize = 0;
            while i < l.len()
                invariant
                    i <= l@.len(),
                    dv == l.deep_view(),
                    dv.len() == l@.len(),
                    forall|j: int| 0 <= j < dv.len() ==> dv[j] == l@[j]@,
                    out@ == old(out)@ + seq!['['] + json_of_items(dv.take(i as int)),
                decreases l@.len() - i,
            {
                if i > 0 {
                    out.push(',');
                }
                write_string(out, l[i].as_str());
                proof {
                    lemma_json_of_items_snoc(dv.take(i as int), dv[i as int]);
                    assert(dv.take(i as int).push(dv[i as int]) =~= dv.take(i as int + 1));
                    assert(out@ =~= old(out)@ + seq!['['] + json_of_items(dv.take(i as int + 1)));
                }
                i = i + 1;
            }
            out.push(']');
            proof {
                assert(dv.take(dv.len() as int) =~= dv);
                assert(o.deep_view() == Some(dv));
                assert(out@ =~= old(out)@ + json_of_opt_list(o.deep_view()));
            }
        },
    }
}

/// Appends one task as a JSON object, fields in declaration order.
#[verifier::rlimit(100)]
fn write_task(out: &mut Vec<char>, t: &Task)
    ensures
        final(out)@ == old(out)@ + json_of_task(t@),
{
    proof {
        reveal(json_of_field_list);
    }
    out.push('{');
    write_string(out, "description");
    out.push(':');
    write_string(out, t.description.as_str());
    out.push(',');
    write_string(out, "status");
    out.push(':');
    write_string(out, t.status.as_str());
    out.push(',');
    write_string(out, "dependencies");
    out.push(':');
    write_opt_list(out, &t.dependencies);
    out.push(',');
    write_string(out, "linked_files");
    out.push(':');
    write_opt_list(out, &t.linked_files);
    out.push(',');
    write_string(out, "linked_urls");
    out.push(':');
    write_opt_list(out, &t.linked_urls);
    out.push('}');
    assert(out@ =~= old(out)@ + json_of_task(t@));
}

/// Writes the whole task list as the storage document: one compact JSON
/// array holding every task, in order. Saving the list means writing
/// exactly these characters over the storage file.
pub fn tasks_to_json(tasks: &Vec<Task>) -> (r: String)
    ensures
        r@ == json_of_tasks(task_views(tasks@)),
{
    let ghost vs = task_views(tasks@);
    let mut out: Vec<char> = Vec::new();
    out.push('[');
    let mut i: usize = 0;
    while i < tasks.len()
        invariant
            i <= tasks@.len(),
            vs == task_views(tasks@),
            vs.len() == tasks@.len(),
            forall|j: int| 0 <= j < vs.len() ==> vs[j] == tasks@[j]@,
            out@ == seq!['['] + json_of_task_items(vs.take(i as int)),
        decreases tasks@.len() - i,
    {
        if i > 0 {
            out.push(',');
        }
        write_task(&mut out, &tasks[i]);
        proof {
            lemma_json_of_task_items_snoc(vs.take(i as int), vs[i as int]);
            assert(vs.take(i as int).push(vs[i as int]) =~= vs.take(i as int + 1));
            assert(out@ =~= seq!['['] + json_of_task_items(vs.take(i as int + 1)));
        }
        i = i + 1;
    }
    out.push(']');
    proof {
        assert(vs.take(vs.len() as int) =~= vs);
        assert(out@ =~= json_of_tasks(vs));
    }
    chars_to_string(&out)
}

// ---------------------------------------------------------------------
// The reader. Each function reads from position `i` of `s` and returns
// the value it read together with the position just past it, mirroring
// the corresponding specification parser on the remainder `s@.skip(i)`.
// ---------------------------------------------------------------------
/// Reads the exact literal `lit` at position `i`.
fn p_lit(s: &Vec<char>, i: usize, lit: &Vec<char>) -> (r: Option<usize>)
    requires
        i <= s@.len(),
    ensures
        match r {
            Some(j) => i <= j <= s@.len() && parse_lit(s@.skip(i as int), lit@) == Some(
                s@.skip(j as int),
            ),
            None => parse_lit(s@.skip(i as int), lit@) is None,
        },
{
    if s.len() - i < lit.len() {
        return None;
    }
    let mut k: usize = 0;
    while k < lit.len()
        invariant
            i + lit@.len() <= s@.len(),
            s@.len() <= usize::MAX,
            k <= lit@.len(),
            forall|j: int| 0 <= j < k ==> s@[i + j] == lit@[j],
        decreases lit@.len() - k,
    {
        if s[i + k] != lit[k] {
            proof {
                let sub = s@.skip(i as int);
                assert(sub.subrange(0, lit@.len() as int)[k as int] == s@[i + k]);
                assert(sub.subrange(0, lit@.len() as int) != lit@);
            }
            return None;
        }
        k = k + 1;
    }
    proof {
        let sub = s@.skip(i as int);
        assert(sub.subrange(0, lit@.len() as int) =~= lit@);
        assert(sub.skip(lit@.len() as int) =~= s@.skip(i as int + lit@.len() as int));
    }
    Some(i + lit.len())
}

/// Skips whitespace from position `i0`.
fn p_ws(s: &Vec<char>, i0: usize) -> (j: usize)
    requires
        i0 <= s@.len(),
    ensures
        i0 <= j <= s@.len(),
        s@.skip(j as int) == skip_ws(s@.skip(i0 as int)),
{
    let mut i: usize = i0;
    while i < s.len() && (s[i] == ' ' || s[i] == '\t' || s[i] == '\n' || s[i] == '\r')
        invariant
            i0 <= i <= s@.len(),
            skip_ws(s@.skip(i0 as int)) == skip_ws(s@.skip(i as int)),
        decreases s@.len() - i,
    {
        proof {
            assert(s@.skip(i as int)[0] == s@[i as int]);
            assert(s@.skip(i as int).skip(1) =~= s@.skip(i as int + 1));
        }
        i = i + 1;
    }
    proof {
        if i < s@.len() {
            assert(s@.skip(i as int)[0] == s@[i as int]);
        }
        assert(skip_ws(s@.skip(i as int)) == s@.skip(i as int));
    }
    i
}

/// The value of a hexadecimal digit, if the character is one.
fn hex_val_of(c: char) -> (r: Option<u32>)
    ensures
        r == hex_val(c),
{
    let v = c as u32;
    if '0' as u32 <= v && v <= '9' as u32 {
        Some(v - '0' as u32)
    } else if 'a' as u32 <= v && v <= 'f' as u32 {
        Some(v - 'a' as u32 + 10)
    } else if 'A' as u32 <= v && v <= 'F' as u32 {
        Some(v - 'A' as u32 + 10)
    } else {
        None
    }
}

/// Reads four hexadecimal digits at position `i`.
fn p_hex4(s: &Vec<char>, i: usize) -> (r: Option<(u32, usize)>)
    requires
        i <= s@.len(),
    ensures
        match r {
            Some(p) => i + 4 == p.1 && p.1 <= s@.len() && parse_hex4(s@.skip(i as int)) == Some(
                (p.0, s@.skip(p.1 as int)),
            ),
            None => parse_hex4(s@.skip(i as int)) is None,
        },
{
    if s.len() - i < 4 {
        proof {
            assert(s@.skip(i as int).len() < 4);
        }
        return None;
    }
    proof {
        assert(s@.skip(i as int)[0] == s@[i as int]);
        assert(s@.skip(i as int)[1] == s@[i as int + 1]);
        assert(s@.skip(i as int)[2] == s@[i as int + 2]);
        assert(s@.skip(i as int)[3] == s@[i as int + 3]);
        assert(s@.skip(i as int).skip(4) =~= s@.skip(i as int + 4));
    }
    let a = match hex_val_of(s[i]) {
        Some(v) => v,
        None => return None,
    };
    let b = match hex_val_of(s[i + 1]) {
        Some(v) => v,
        None => return None,
    };
    let c = match hex_val_of(s[i + 2]) {
        Some(v) => v,
        None => return None,
    };
    let d = match hex_val_of(s[i + 3]) {
        Some(v) => v,
        None => return None,
    };
    Some((a * 4096 + b * 256 + c * 16 + d, i + 4))
}

/// Relies on `char::from_u32`: it returns the character for `n` exactly
/// when `n` is a Unicode scalar value (not a surrogate, at most
/// 0x10FFFF).
#[verifier::external_body]
fn char_from_code(n: u32) -> (r: Option<char>)
    ensures
        r matches Some(c) ==> c as u32 == n,
        r is Some <==> vstd::utf8::is_scalar(n),
{
    char::from_u32(n)
}

/// Reads one string escape at position `i` (the backslash).
fn p_escape(s: &Vec<char>, i: usize) -> (r: Option<(char, usize)>)
    requires
        i <= s@.len(),
    ensures
        match r {
            Some(p) => i + 2 <= p.1 <= s@.len() && parse_escape(s@.skip(i as int)) == Some(
                (p.0, s@.skip(p.1 as int)),
            ),
            None => parse_escape(s@.skip(i as int)) is None,
        },
{
    if s.len() - i < 2 {
        proof {
            assert(s@.skip(i as int).len() < 2);
        }
        return None;
    }
    proof {
        assert(s@.skip(i as int)[0] == s@[i as int]);
        assert(s@.skip(i as int)[1] == s@[i as int + 1]);
        assert(s@.skip(i as int).skip(2) =~= s@.skip(i as int + 2));
    }
    if s[i] != '\\' {
        return None;
    }
    let e = s[i + 1];
    if e == '"' {
        Some(('"', i + 2))
    } else if e == '\\' {
        Some(('\\', i + 2))
    } else if e == '/' {
        Some(('/', i + 2))
    } else if e == 'b' {
        Some(('\u{8}', i + 2))
    } else if e == 'f' {
        Some(('\u{c}', i + 2))
    } else if e == 'n' {
        Some(('\n', i + 2))
    } else if e == 'r' {
        Some(('\r', i + 2))
    } else if e == 't' {
        Some(('\t', i + 2))
    } else if e == 'u' {
        match p_hex4(s, i + 2) {
            None => None,
            Some((code, j)) => {
                if 0xD800 <= code && code < 0xDC00 {
                    // a low surrogate escape must follow
                    if s.len() - j >= 2 && s[j] == '\\' && s[j + 1] == 'u' {
                        proof {
                            assert(s@.skip(j as int)[0] == s@[j as int]);
                            assert(s@.skip(j as int)[1] == s@[j as int + 1]);
                            assert(s@.skip(j as int).skip(2) =~= s@.skip(j as int + 2));
                        }
                        match p_hex4(s, j + 2) {
                            None => None,
                            Some((code2, j2)) => {
                                if 0xDC00 <= code2 && code2 < 0xE000 {
                                    let combined = 0x10000 + (code - 0xD800) * 0x400 + (code2
                                        - 0xDC00);
                                    proof {
                                        assert(combined == combined_surrogates(code, code2));
                                        assert(vstd::utf8::is_scalar(combined));
                                    }
                                    let ch = char_from_code(combined).unwrap();
                                    proof {
                                        vstd::utf8::char_u32_cast(ch, combined);
                                    }
                                    Some((ch, j2))
                                } else {
                                    None
                                }
                            },
                        }
                    } else {
                        proof {
                            let r1 = s@.skip(j as int);
                            assert(r1.len() == s@.len() - j);
                            if j < s@.len() {
                                assert(r1[0] == s@[j as int]);
                            }
                            if j + 1 < s@.len() {
                                assert(r1[1] == s@[j as int + 1]);
                            }
                        }
                        None
                    }
                } else if 0xDC00 <= code && code < 0xE000 {
                    None
                } else {
                    proof {
                        assert(vstd::utf8::is_scalar(code));
                    }
                    let ch = char_from_code(code).unwrap();
                    proof {
                        vstd::utf8::char_u32_cast(ch, code);
                    }
                    Some((ch, j))
                }
            },
        }
    } else {
        None
    }
}

/// Reads a string body from position `i0` (just past the opening quote)
/// up to and including the closing quote.
fn p_string_body(s: &Vec<char>, i0: usize) -> (r: Option<(Vec<char>, usize)>)
    requires
        i0 <= s@.len(),
    ensures
        match r {
            Some(p) => i0 <= p.1 <= s@.len() && parse_string_body(s@.skip(i0 as int)) == Some(
                (p.0@, s@.skip(p.1 as int)),
            ),
            None => parse_string_body(s@.skip(i0 as int)) is None,
        },
{
    let mut acc: Vec<char> = Vec::new();
    let mut i: usize = i0;
    proof {
        assert(parse_string_body(s@.skip(i0 as int)) matches Some(p) ==> acc@ + p.0 =~= p.0);
    }
    loop
        invariant
            i0 <= i <= s@.len(),
            parse_string_body(s@.skip(i0 as int)) == match parse_string_body(
                s@.skip(i as int),
            ) {
                None => None::<(Seq<char>, Seq<char>)>,
                Some(p) => Some((acc@ + p.0, p.1)),
            },
        decreases s@.len() - i,
    {
        if i >= s.len() {
            proof {
                assert(s@.skip(i as int).len() == 0);
            }
            return None;
        }
        let c = s[i];
        proof {
            assert(s@.skip(i as int)[0] == s@[i as int]);
        }
        if c == '"' {
            proof {
                assert(s@.skip(i as int).skip(1) =~= s@.skip(i as int + 1));
                assert(acc@ + Seq::<char>::empty() =~= acc@);
            }
            return Some((acc, i + 1));
        } else if c == '\\' {
            match p_escape(s, i) {
                None => {
                    return None;
                },
                Some((d, j)) => {
                    let ghost acc0 = acc@;
                    acc.push(d);
                    proof {
                        assert(parse_string_body(s@.skip(j as int)) matches Some(p) ==> acc0 + (
                        seq![d] + p.0) =~= acc0.push(d) + p.0);
                    }
                    i = j;
                },
            }
        } else if (c as u32) < 0x20 {
            return None;
        } else {
            let ghost acc0 = acc@;
            acc.push(c);
            proof {
                assert(s@.skip(i as int).skip(1) =~= s@.skip(i as int + 1));
                assert(parse_string_body(s@.skip(i as int + 1)) matches Some(p) ==> acc0 + (
                seq![c] + p.0) =~= acc0.push(c) + p.0);
            }
            i = i + 1;
        }
    }
}

/// Reads a quoted string at position `i`.
fn p_string(s: &Vec<char>, i: usize) -> (r: Option<(Vec<char>, usize)>)
    requires
        i <= s@.len(),
    ensures
        match r {
            Some(p) => i + 2 <= p.1 <= s@.len() && parse_string(s@.skip(i as int)) == Some(
                (p.0@, s@.skip(p.1 as int)),
            ),
            None => parse_string(s@.skip(i as int)) is None,
        },
{
    if i >= s.len() {
        return None;
    }
    if s[i] != '"' {
        proof {
            assert(s@.skip(i as int)[0] == s@[i as int]);
        }
        return None;
    }
    proof {
        assert(s@.skip(i as int)[0] == s@[i as int]);
        assert(s@.skip(i as int).skip(1) =~= s@.skip(i as int + 1));
    }
    match p_string_body(s, i + 1) {
        Some(p) => {
            proof {
                lemma_parse_string_body_consumes(s@.skip(i as int + 1));
            }
            Some(p)
        },
        None => None,
    }
}

/// Whether two character vectors hold the same characters.
fn eq_chars(a: &Vec<char>, b: &Vec<char>) -> (r: bool)
    ensures
        r == (a@ == b@),
{
    if a.len() != b.len() {
        return false;
    }
    let mut i: usize = 0;
    while i < a.len()
        invariant
            i <= a@.len(),
            a@.len() == b@.len(),
            forall|j: int| 0 <= j < i ==> a@[j] == b@[j],
        decreases a@.len() - i,
    {
        if a[i] != b[i] {
            return false;
        }
        i = i + 1;
    }
    proof {
        assert(a@ =~= b@);
    }
    true
}

/// Reads the strings of a non-empty array from position `i0` up to and
/// including the closing bracket.
fn p_items(s: &Vec<char>, i0: usize) -> (r: Option<(Vec<String>, usize)>)
    requires
        i0 <= s@.len(),
    ensures
        match r {
            Some(p) => i0 <= p.1 <= s@.len() && parse_items(s@.skip(i0 as int)) == Some(
                (p.0.deep_view(), s@.skip(p.1 as int)),
            ),
            None => parse_items(s@.skip(i0 as int)) is None,
        },
{
    let mut acc: Vec<String> = Vec::new();
    let mut i: usize = i0;
    proof {
        assert(acc.deep_view() =~= Seq::<Seq<char>>::empty());
        assert(parse_items(s@.skip(i0 as int)) matches Some(p) ==> acc.deep_view() + p.0
            =~= p.0);
    }
    loop
        invariant
            i0 <= i <= s@.len(),
            parse_items(s@.skip(i0 as int)) == match parse_items(s@.skip(i as int)) {
                None => None::<(Seq<Seq<char>>, Seq<char>)>,
                Some(p) => Some((acc.deep_view() + p.0, p.1)),
            },
        decreases s@.len() - i,
    {
        match p_string(s, i) {
            None => {
                return None;
            },
            Some((v, j)) => {
                let item = chars_to_string(&v);
                let ghost acc0 = acc.deep_view();
                let j1 = p_ws(s, j);
                if j1 < s.len() && s[j1] == ',' {
                    acc.push(item);
                    proof {
                        assert(s@.skip(j1 as int)[0] == s@[j1 as int]);
                        assert(s@.skip(j1 as int).skip(1) =~= s@.skip(j1 as int + 1));
                        assert(acc.deep_view() =~= acc0.push(v@));
                        assert(parse_items(skip_ws(s@.skip(j1 as int + 1))) matches Some(q)
                            ==> acc0 + (seq![v@] + q.0) =~= acc0.push(v@) + q.0);
                    }
                    let j2 = p_ws(s, j1 + 1);
                    i = j2;
                } else if j1 < s.len() && s[j1] == ']' {
                    acc.push(item);
                    proof {
                        assert(s@.skip(j1 as int)[0] == s@[j1 as int]);
                        assert(s@.skip(j1 as int).skip(1) =~= s@.skip(j1 as int + 1));
                        assert(parse_items(s@.skip(i as int)) == Some(
                            (seq![v@], s@.skip(j1 as int + 1)),
                        ));
                        assert(acc.deep_view() =~= acc0.push(v@));
                        assert(acc0 + seq![v@] =~= acc0.push(v@));
                    }
                    return Some((acc, j1 + 1));
                } else {
                    proof {
                        if j1 < s.len() {
                            assert(s@.skip(j1 as int)[0] == s@[j1 as int]);
                        } else {
                            assert(s@.skip(j1 as int).len() == 0);
                        }
                    }
                    return None;
                }
            },
        }
    }
}

/// Reads an optional string list at position `i`: `null`, the empty array
/// or a non-empty array.
fn p_opt_list(s: &Vec<char>, i: usize) -> (r: Option<(Option<Vec<String>>, usize)>)
    requires
        i <= s@.len(),
    ensures
        match r {
            Some(p) => i <= p.1 <= s@.len() && parse_opt_list(s@.skip(i as int)) == Some(
                (p.0.deep_view(), s@.skip(p.1 as int)),
            ),
            None => parse_opt_list(s@.skip(i as int)) is None,
        },
{
    proof {
        reveal_strlit("null");
    }
    let null_lit = str_to_chars("null");
    match p_lit(s, i, &null_lit) {
        Some(j) => {
            return Some((None, j));
        },
        None => {},
    }
    if i < s.len() && s[i] == '[' {
        proof {
            assert(s@.skip(i as int)[0] == s@[i as int]);
            assert(s@.skip(i as int).skip(1) =~= s@.skip(i as int + 1));
        }
        let j = p_ws(s, i + 1);
        if j < s.len() && s[j] == ']' {
            proof {
                assert(s@.skip(j as int)[0] == s@[j as int]);
                assert(s@.skip(j as int).skip(1) =~= s@.skip(j as int + 1));
            }
            let empty_list: Vec<String> = Vec::new();
            proof {
                assert(empty_list.deep_view() =~= Seq::<Seq<char>>::empty());
            }
            return Some((Some(empty_list), j + 1));
        }
        proof {
            if j < s.len() {
                assert(s@.skip(j as int)[0] == s@[j as int]);
            } else {
                assert(s@.skip(j as int).len() == 0);
            }
        }
        match p_items(s, j) {
            Some((l, j2)) => Some((Some(l), j2)),
            None => None,
        }
    } else {
        proof {
            if i < s.len() {
                assert(s@.skip(i as int)[0] == s@[i as int]);
            } else {
                assert(s@.skip(i as int).len() == 0);
            }
        }
        None
    }
}

/// One task object's fields as read so far, the executable counterpart of
/// [`FieldsV`].
struct FieldSlots {
    description: Option<String>,
    status: Option<String>,
    dependencies: Option<Option<Vec<String>>>,
    linked_files: Option<Option<Vec<String>>>,
    linked_urls: Option<Option<Vec<String>>>,
}

impl View for FieldSlots {
    type V = FieldsV;

    closed spec fn view(&self) -> FieldsV {
        FieldsV {
            description: self.description.deep_view(),
            status: self.status.deep_view(),
            dependencies: self.dependencies.deep_view(),
            linked_files: self.linked_files.deep_view(),
            linked_urls: self.linked_urls.deep_view(),
        }
    }
}

/// Reads the value of the field named `k` at position `i` and records it
/// in `slots`, as the reader's grammar prescribes.
fn p_field_value(s: &Vec<char>, i: usize, k: &Vec<char>, slots: FieldSlots) -> (r: Option<
    (FieldSlots, usize),
>)
    requires
        i <= s@.len(),
    ensures
        match r {
            Some(p) => i <= p.1 <= s@.len() && parse_field_value(k@, s@.skip(i as int), slots@)
                == Some((p.0@, s@.skip(p.1 as int))),
            None => parse_field_value(k@, s@.skip(i as int), slots@) is None,
        },
{
    let name_desc = str_to_chars("description");
    let name_stat = str_to_chars("status");
    let name_deps = str_to_chars("dependencies");
    let name_lf = str_to_chars("linked_files");
    let name_lu = str_to_chars("linked_urls");
    let ghost acc_before = slots@;
    let mut slots = slots;
    if eq_chars(k, &name_desc) {
        if slots.description.is_some() {
            return None;
        }
        let (v, jv) = match p_string(s, i) {
            Some(p) => p,
            None => {
                return None;
            },
        };
        slots.description = Some(chars_to_string(&v));
        proof {
            assert(slots@ =~= FieldsV { description: Some(v@), ..acc_before });
        }
        Some((slots, jv))
    } else if eq_chars(k, &name_stat) {
        if slots.status.is_some() {
            return None;
        }
        let (v, jv) = match p_string(s, i) {
            Some(p) => p,
            None => {
                return None;
            },
        };
        slots.status = Some(chars_to_string(&v));
        proof {
            assert(slots@ =~= FieldsV { status: Some(v@), ..acc_before });
        }
        Some((slots, jv))
    } else if eq_chars(k, &name_deps) {
        if slots.dependencies.is_some() {
            return None;
        }
        let (v, jv) = match p_opt_list(s, i) {
            Some(p) => p,
            None => {
                return None;
            },
        };
        let ghost vdv = v.deep_view();
        slots.dependencies = Some(v);
        proof {
            assert(slots@ =~= FieldsV { dependencies: Some(vdv), ..acc_before });
        }
        Some((slots, jv))
    } else if eq_chars(k, &name_lf) {
        if slots.linked_files.is_some() {
            return None;
        }
        let (v, jv) = match p_opt_list(s, i) {
            Some(p) => p,
            None => {
                return None;
            },
        };
        let ghost vdv = v.deep_view();
        slots.linked_files = Some(v);
        proof {
            assert(slots@ =~= FieldsV { linked_files: Some(vdv), ..acc_before });
        }
        Some((slots, jv))
    } else if eq_chars(k, &name_lu) {
        if slots.linked_urls.is_some() {
            return None;
        }
        let (v, jv) = match p_opt_list(s, i) {
            Some(p) => p,
            None => {
                return None;
            },
        };
        let ghost vdv = v.deep_view();
        slots.linked_urls = Some(v);
        proof {
            assert(slots@ =~= FieldsV { linked_urls: Some(vdv), ..acc_before });
        }
        Some((slots, jv))
    } else {
        None
    }
}

/// Builds the task an object's fields stand for, once its closing brace
/// was read.
fn finish_task(slots: FieldSlots) -> (r: Option<Task>)
    ensures
        match r {
            Some(t) => task_of_fields(slots@) == Some(t@),
            None => task_of_fields(slots@) is None,
        },
{
    let ghost acc = slots@;
    let desc = match slots.description {
        Some(d) => d,
        None => {
            return None;
        },
    };
    let stat = match slots.status {
        Some(st) => st,
        None => {
            return None;
        },
    };
    let deps = match slots.dependencies {
        Some(v) => v,
        None => None,
    };
    let lf = match slots.linked_files {
        Some(v) => v,
        None => None,
    };
    let lu = match slots.linked_urls {
        Some(v) => v,
        None => None,
    };
    let t = Task {
        description: desc,
        status: stat,
        dependencies: deps,
        linked_files: lf,
        linked_urls: lu,
    };
    proof {
        assert(task_of_fields(acc) matches Some(u) && u =~= t@);
    }
    Some(t)
}

/// Reads one task object at position `i`.
#[verifier::rlimit(100)]
fn p_task(s: &Vec<char>, i: usize) -> (r: Option<(Task, usize)>)
    requires
        i <= s@.len(),
    ensures
        match r {
            Some(p) => i <= p.1 <= s@.len() && parse_task(s@.skip(i as int)) == Some(
                (p.0@, s@.skip(p.1 as int)),
            ),
            None => parse_task(s@.skip(i as int)) is None,
        },
{
    if !(i < s.len() && s[i] == '{') {
        proof {
            if i < s.len() {
                assert(s@.skip(i as int)[0] == s@[i as int]);
            } else {
                assert(s@.skip(i as int).len() == 0);
            }
        }
        return None;
    }
    proof {
        assert(s@.skip(i as int)[0] == s@[i as int]);
        assert(s@.skip(i as int).skip(1) =~= s@.skip(i as int + 1));
    }
    let mut slots = FieldSlots {
        description: None,
        status: None,
        dependencies: None,
        linked_files: None,
        linked_urls: None,
    };
    let mut j: usize = p_ws(s, i + 1);
    proof {
        assert(slots@ =~= no_fields());
    }
    loop
        invariant
            i < j <= s@.len(),
            parse_task(s@.skip(i as int)) == parse_fields(s@.skip(j as int), slots@),
        decreases s@.len() - j,
    {
        let (k, j1) = match p_string(s, j) {
            Some(p) => p,
            None => {
                return None;
            },
        };
        let j2 = p_ws(s, j1);
        if !(j2 < s.len() && s[j2] == ':') {
            proof {
                if j2 < s.len() {
                    assert(s@.skip(j2 as int)[0] == s@[j2 as int]);
                } else {
                    assert(s@.skip(j2 as int).len() == 0);
                }
            }
            return None;
        }
        proof {
            assert(s@.skip(j2 as int)[0] == s@[j2 as int]);
            assert(s@.skip(j2 as int).skip(1) =~= s@.skip(j2 as int + 1));
        }
        let j3 = p_ws(s, j2 + 1);
        let (new_slots, j4) = match p_field_value(s, j3, &k, slots) {
            Some(p) => p,
            None => {
                return None;
            },
        };
        slots = new_slots;
        let j5 = p_ws(s, j4);
        if j5 < s.len() && s[j5] == ',' {
            proof {
                assert(s@.skip(j5 as int)[0] == s@[j5 as int]);
                assert(s@.skip(j5 as int).skip(1) =~= s@.skip(j5 as int + 1));
            }
            j = p_ws(s, j5 + 1);
        } else if j5 < s.len() && s[j5] == '}' {
            proof {
                assert(s@.skip(j5 as int)[0] == s@[j5 as int]);
                assert(s@.skip(j5 as int).skip(1) =~= s@.skip(j5 as int + 1));
            }
            match finish_task(slots) {
                Some(t) => {
                    return Some((t, j5 + 1));
                },
                None => {
                    return None;
                },
            }
        } else {
            proof {
                if j5 < s.len() {
                    assert(s@.skip(j5 as int)[0] == s@[j5 as int]);
                } else {
                    assert(s@.skip(j5 as int).len() == 0);
                }
            }
            return None;
        }
    }
}

/// Reads the task objects of a non-empty array from position `i0` up to
/// and including the closing bracket.
fn p_task_items(s: &Vec<char>, i0: usize) -> (r: Option<(Vec<Task>, usize)>)
    requires
        i0 <= s@.len(),
    ensures
        match r {
            Some(p) => i0 <= p.1 <= s@.len() && parse_task_items(s@.skip(i0 as int)) == Some(
                (task_views(p.0@), s@.skip(p.1 as int)),
            ),
            None => parse_task_items(s@.skip(i0 as int)) is None,
        },
{
    let mut acc: Vec<Task> = Vec::new();
    let mut i: usize = i0;
    proof {
        assert(task_views(acc@) =~= Seq::<TaskV>::empty());
        assert(parse_task_items(s@.skip(i0 as int)) matches Some(p) ==> task_views(acc@) + p.0
            =~= p.0);
    }
    loop
        invariant
            i0 <= i <= s@.len(),
            parse_task_items(s@.skip(i0 as int)) == match parse_task_items(s@.skip(i as int)) {
                None => None::<(Seq<TaskV>, Seq<char>)>,
                Some(p) => Some((task_views(acc@) + p.0, p.1)),
            },
        decreases s@.len() - i,
    {
        match p_task(s, i) {
            None => {
                return None;
            },
            Some((t, j)) => {
                proof {
                    lemma_parse_task_consumes(s@.skip(i as int));
                }
                let ghost acc0 = task_views(acc@);
                let ghost tv = t@;
                let j1 = p_ws(s, j);
                if j1 < s.len() && s[j1] == ',' {
                    acc.push(t);
                    proof {
                        assert(s@.skip(j1 as int)[0] == s@[j1 as int]);
                        assert(s@.skip(j1 as int).skip(1) =~= s@.skip(j1 as int + 1));
                        assert(task_views(acc@) =~= acc0.push(tv));
                        assert(parse_task_items(skip_ws(s@.skip(j1 as int + 1))) matches Some(q)
                            ==> acc0 + (seq![tv] + q.0) =~= acc0.push(tv) + q.0);
                    }
                    let j2 = p_ws(s, j1 + 1);
                    i = j2;
                } else if j1 < s.len() && s[j1] == ']' {
                    acc.push(t);
                    proof {
                        assert(s@.skip(j1 as int)[0] == s@[j1 as int]);
                        assert(s@.skip(j1 as int).skip(1) =~= s@.skip(j1 as int + 1));
                        assert(parse_task_items(s@.skip(i as int)) == Some(
                            (seq![tv], s@.skip(j1 as int + 1)),
                        ));
                        assert(task_views(acc@) =~= acc0.push(tv));
                        assert(acc0 + seq![tv] =~= acc0.push(tv));
                    }
                    return Some((acc, j1 + 1));
                } else {
                    proof {
                        if j1 < s.len() {
                            assert(s@.skip(j1 as int)[0] == s@[j1 as int]);
                        } else {
                            assert(s@.skip(j1 as int).len() == 0);
                        }
                    }
                    return None;
                }
            },
        }
    }
}

/// Reads a whole document: the task list as one JSON array, possibly
/// surrounded by whitespace, with nothing else after it. Returns nothing
/// when the text is not such a document.
pub fn tasks_from_json(s: &str) -> (r: Option<Vec<Task>>)
    ensures
        match r {
            Some(ts) => parse_document(s@) == Some(task_views(ts@)),
            None => parse_document(s@) is None,
        },
{
    let cs = str_to_chars(s);
    proof {
        assert(cs@.skip(0) =~= s@);
    }
    let i0 = p_ws(&cs, 0);
    if !(i0 < cs.len() && cs[i0] == '[') {
        proof {
            if i0 < cs.len() {
                assert(cs@.skip(i0 as int)[0] == cs@[i0 as int]);
            } else {
                assert(cs@.skip(i0 as int).len() == 0);
            }
        }
        return None;
    }
    proof {
        assert(cs@.skip(i0 as int)[0] == cs@[i0 as int]);
        assert(cs@.skip(i0 as int).skip(1) =~= cs@.skip(i0 as int + 1));
    }
    let i1 = p_ws(&cs, i0 + 1);
    let (ts, j) = if i1 < cs.len() && cs[i1] == ']' {
        proof {
            assert(cs@.skip(i1 as int)[0] == cs@[i1 as int]);
            assert(cs@.skip(i1 as int).skip(1) =~= cs@.skip(i1 as int + 1));
        }
        let empty_tasks: Vec<Task> = Vec::new();
        proof {
            assert(task_views(empty_tasks@) =~= Seq::<TaskV>::empty());
        }
        (empty_tasks, i1 + 1)
    } else {
        proof {
            if i1 < cs.len() {
                assert(cs@.skip(i1 as int)[0] == cs@[i1 as int]);
            } else {
                assert(cs@.skip(i1 as int).len() == 0);
            }
        }
        match p_task_items(&cs, i1) {
            Some(p) => p,
            None => {
                return None;
            },
        }
    };
    let j2 = p_ws(&cs, j);
    if j2 == cs.len() {
        proof {
            assert(cs@.skip(j2 as int).len() == 0);
        }
        Some(ts)
    } else {
        proof {
            assert(cs@.skip(j2 as int).len() > 0);
        }
        None
    }
}

/// What loading yields for a given storage-file content: a missing file
/// (`None`) is an empty list, unreadable content is an empty list, and a
/// well-formed document is the list it holds.
pub open spec fn loaded_tasks(content: Option<Seq<char>>) -> Seq<TaskV> {
    match content {
        None => Seq::empty(),
        Some(text) => match parse_document(text) {
            None => Seq::empty(),
            Some(ts) => ts,
        },
    }
}

/// Loads the task list from the storage file's content, handed in as
/// `None` when the file does not exist. A missing file and content this
/// codec cannot read both yield the empty list — the latter silently, so
/// the next save discards whatever the file held.
pub fn load_tasks(content: Option<&str>) -> (r: Vec<Task>)
    ensures
        task_views(r@) == loaded_tasks(content.deep_view()),
        content is None ==> r@ == Seq::<Task>::empty(),
        content matches Some(text) && parse_document(text@) is None ==> r@ == Seq::<
            Task,
        >::empty(),
{
    match content {
        None => {
            let r: Vec<Task> = Vec::new();
            proof {
                assert(task_views(r@) =~= Seq::<TaskV>::empty());
            }
            r
        },
        Some(text) => match tasks_from_json(text) {
            None => {
                let r: Vec<Task> = Vec::new();
                proof {
                    assert(task_views(r@) =~= Seq::<TaskV>::empty());
                }
                r
            },
            Some(ts) => ts,
        },
    }
}

} // verus!
