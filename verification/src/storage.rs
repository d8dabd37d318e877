//! The durable text format for task lists: a JSON array of task objects,
//! each with fields `id` (non-negative integer), `content` (string) and
//! `status` (one of `"Open"`, `"InProgress"`, `"Done"`, spelling exact).
//! Field order inside an object is not significant, and an object may carry
//! additional fields, which are read and ignored; array order is the task
//! order. A document holding nothing but Unicode whitespace stands for the
//! empty list.
//!
//! This module owns the format itself — [`serialize_todos`] writes it and
//! [`parse_todos`] reads it, and [`lemma_parse_serialize_roundtrip`] proves
//! that reading back what was written restores the same task sequence.
//! Moving the text to and from durable files is the caller's business; the
//! [`TodoStorageError`] taxonomy names the ways that can fail.

use vstd::prelude::*;

use crate::todo::{TaskModel, Todo, TodoStatus};

verus! {

/// Errors from loading or storing a task list. The `String` holds the
/// location the caller was working with.
#[derive(Debug, Clone, PartialEq, Eq)]
pub enum TodoStorageError {
    /// The location could not be read or written.
    FileError(String),
    /// The durable text at the location is not in the task-list format.
    ParseError(String),
    /// The in-memory tasks could not be encoded.
    SerializeError,
}

// ---------------------------------------------------------------------------
// The format, written: spec-level serialization
// ---------------------------------------------------------------------------

/// Whether `c` is a decimal digit.
pub open spec fn is_digit(c: char) -> bool {
    48 <= c as u32 <= 57
}

/// Numeric value of a decimal digit character.
pub open spec fn dig_val(c: char) -> nat {
    (c as u32 - 48) as nat
}

/// Decimal digit character for a value below ten.
pub open spec fn dig_char(d: nat) -> char
    recommends
        d < 10,
{
    ((48 + d) as u8) as char
}

/// Lowercase hexadecimal digit character for a value below sixteen.
pub open spec fn hex_char(d: nat) -> char
    recommends
        d < 16,
{
    if d < 10 {
        dig_char(d)
    } else {
        ((87 + d) as u8) as char
    }
}

/// Decimal digits of `n`, most significant first, no leading zeros
/// (`0` itself is the single digit `0`).
pub open spec fn nat_chars(n: nat) -> Seq<char>
    decreases n,
{
    if n < 10 {
        seq![dig_char(n)]
    } else {
        nat_chars(n / 10).push(dig_char(n % 10))
    }
}

/// JSON encoding of one character of string content: `"` and `\` get a
/// backslash escape, control characters get their short escape or a
/// `\u00XX` escape, and every other character stands for itself.
pub open spec fn esc_char(c: char) -> Seq<char> {
    if c == '"' {
        seq!['\\', '"']
    } else if c == '\\' {
        seq!['\\', '\\']
    } else if c == '\u{8}' {
        seq!['\\', 'b']
    } else if c == '\t' {
        seq!['\\', 't']
    } else if c == '\n' {
        seq!['\\', 'n']
    } else if c == '\u{c}' {
        seq!['\\', 'f']
    } else if c == '\r' {
        seq!['\\', 'r']
    } else if (c as u32) < 32 {
        seq!['\\', 'u', '0', '0', hex_char((c as u32 / 16) as nat), hex_char(
            (c as u32 % 16) as nat,
        )]
    } else {
        seq![c]
    }
}

/// JSON encoding of string content: each character escaped in turn.
pub open spec fn string_chars(s: Seq<char>) -> Seq<char>
    decreases s.len(),
{
    if s.len() == 0 {
        Seq::empty()
    } else {
        esc_char(s[0]) + string_chars(s.skip(1))
    }
}

/// The exact spelling of a status in the format.
pub open spec fn status_chars(st: TodoStatus) -> Seq<char> {
    match st {
        TodoStatus::Open => seq!['O', 'p', 'e', 'n'],
        TodoStatus::InProgress => seq!['I', 'n', 'P', 'r', 'o', 'g', 'r', 'e', 's', 's'],
        TodoStatus::Done => seq!['D', 'o', 'n', 'e'],
    }
}

/// One task object, fields in the order id, content, status, no spaces.
pub open spec fn task_chars(t: TaskModel) -> Seq<char> {
    seq!['{', '"', 'i', 'd', '"', ':'] + nat_chars(t.id) + seq![',', '"', 'c', 'o', 'n', 't', 'e',
        'n', 't', '"', ':', '"'] + string_chars(t.content) + seq!['"', ',', '"', 's', 't', 'a',
        't', 'u', 's', '"', ':', '"'] + status_chars(t.status) + seq!['"', '}']
}

/// The task objects joined by commas.
pub open spec fn items_chars(ts: Seq<TaskModel>) -> Seq<char>
    decreases ts.len(),
{
    if ts.len() == 0 {
        Seq::empty()
    } else if ts.len() == 1 {
        task_chars(ts[0])
    } else {
        task_chars(ts[0]) + seq![','] + items_chars(ts.skip(1))
    }
}

/// The whole document: the items in square brackets.
pub open spec fn tasks_chars(ts: Seq<TaskModel>) -> Seq<char> {
    seq!['['] + items_chars(ts) + seq![']']
}

/// Escaping distributes over concatenation of content.
pub proof fn lemma_string_chars_concat(a: Seq<char>, b: Seq<char>)
    ensures
        string_chars(a + b) == string_chars(a) + string_chars(b),
    decreases a.len(),
{
    if a.len() == 0 {
        assert(a + b =~= b);
        assert(string_chars(a) + string_chars(b) =~= string_chars(b));
    } else {
        lemma_string_chars_concat(a.skip(1), b);
        assert((a + b).skip(1) =~= a.skip(1) + b);
        assert((a + b)[0] == a[0]);
        assert(esc_char(a[0]) + (string_chars(a.skip(1)) + string_chars(b)) =~= (esc_char(a[0])
            + string_chars(a.skip(1))) + string_chars(b));
    }
}

/// Escaping a single character is that character's escape.
pub proof fn lemma_string_chars_single(c: char)
    ensures
        string_chars(seq![c]) == esc_char(c),
{
    let s = seq![c];
    assert(s.len() == 1);
    assert(s[0] == c);
    assert(s.skip(1) =~= Seq::<char>::empty());
    assert(string_chars(Seq::<char>::empty()) == Seq::<char>::empty());
    assert(esc_char(c) + Seq::<char>::empty() =~= esc_char(c));
}

/// Appending one task to a non-empty list appends a comma and its object.
pub proof fn lemma_items_chars_snoc(ts: Seq<TaskModel>, t: TaskModel)
    ensures
        ts.len() == 0 ==> items_chars(ts.push(t)) == task_chars(t),
        ts.len() > 0 ==> items_chars(ts.push(t)) == items_chars(ts) + seq![','] + task_chars(t),
    decreases ts.len(),
{
    let p = ts.push(t);
    if ts.len() == 0 {
        assert(p.len() == 1);
        assert(p[0] == t);
    } else {
        lemma_items_chars_snoc(ts.skip(1), t);
        assert(p.skip(1) =~= ts.skip(1).push(t));
        assert(p[0] == ts[0]);
        if ts.len() == 1 {
            assert(items_chars(p) == task_chars(ts[0]) + seq![','] + items_chars(ts.skip(1).push(t)));
            assert(ts.skip(1).len() == 0);
            assert(items_chars(p) =~= items_chars(ts) + seq![','] + task_chars(t));
        } else {
            assert(items_chars(p) == task_chars(p[0]) + seq![','] + items_chars(p.skip(1)));
            assert(items_chars(p) =~= items_chars(ts) + seq![','] + task_chars(t));
        }
    }
}

// ---------------------------------------------------------------------------
// The format, read: spec-level parser
//
// Each function consumes a prefix of its input and yields the parsed value
// together with the unconsumed suffix, or `None` when the input does not
// start with the expected shape.
// ---------------------------------------------------------------------------

/// Whether `c` is insignificant whitespace between tokens.
pub open spec fn is_ws(c: char) -> bool {
    c == ' ' || c == '\t' || c == '\n' || c == '\r'
}

/// Whether `c` has Unicode's White_Space property — the fixed set of 25 code
/// points that `str::trim` removes. Wider than [`is_ws`]: it decides only
/// whether a whole document counts as blank, never what may stand between
/// tokens.
pub open spec fn is_unicode_ws(c: char) -> bool {
    ||| c as u32 == 0x9
    ||| c as u32 == 0xA
    ||| c as u32 == 0xB
    ||| c as u32 == 0xC
    ||| c as u32 == 0xD
    ||| c as u32 == 0x20
    ||| c as u32 == 0x85
    ||| c as u32 == 0xA0
    ||| c as u32 == 0x1680
    ||| 0x2000 <= c as u32 <= 0x200A
    ||| c as u32 == 0x2028
    ||| c as u32 == 0x2029
    ||| c as u32 == 0x202F
    ||| c as u32 == 0x205F
    ||| c as u32 == 0x3000
}

/// Whether the whole document is blank: nothing but Unicode whitespace
/// (the empty document included).
pub open spec fn is_blank(s: Seq<char>) -> bool {
    forall|i: int| 0 <= i < s.len() ==> is_unicode_ws(#[trigger] s[i])
}

/// The input without its leading whitespace.
pub open spec fn skip_ws(s: Seq<char>) -> Seq<char>
    decreases s.len(),
{
    if s.len() > 0 && is_ws(s[0]) {
        skip_ws(s.skip(1))
    } else {
        s
    }
}

/// Whether `c` is a hexadecimal digit, either case.
pub open spec fn is_hex(c: char) -> bool {
    is_digit(c) || 97 <= c as u32 <= 102 || 65 <= c as u32 <= 70
}

/// Numeric value of a hexadecimal digit character.
pub open spec fn hex_val(c: char) -> nat {
    if is_digit(c) {
        dig_val(c)
    } else if c as u32 >= 97 {
        (c as u32 - 87) as nat
    } else {
        (c as u32 - 55) as nat
    }
}

/// Length of the leading run of decimal digits.
pub open spec fn count_digits(s: Seq<char>) -> int
    decreases s.len(),
{
    if s.len() > 0 && is_digit(s[0]) {
        1 + count_digits(s.skip(1))
    } else {
        0
    }
}

/// Value of a digit string, most significant first.
pub open spec fn digits_val(ds: Seq<char>) -> nat
    decreases ds.len(),
{
    if ds.len() == 0 {
        0
    } else {
        digits_val(ds.drop_last()) * 10 + dig_val(ds.last())
    }
}

/// Reads a non-negative integer: a maximal digit run, no leading zero,
/// bounded by the machine word so a reader can hold it.
pub open spec fn p_nat(s: Seq<char>) -> Option<(nat, Seq<char>)> {
    let k = count_digits(s);
    if k == 0 {
        None
    } else if s[0] == '0' && k > 1 {
        None
    } else {
        let v = digits_val(s.take(k));
        if v > usize::MAX as nat {
            None
        } else {
            Some((v, s.skip(k)))
        }
    }
}

/// The code point spelled by the four hexadecimal digits at `i`.
pub open spec fn hex4(s: Seq<char>, i: int) -> nat
    recommends
        0 <= i,
        i + 4 <= s.len(),
{
    hex_val(s[i]) * 4096 + hex_val(s[i + 1]) * 256 + hex_val(s[i + 2]) * 16 + hex_val(s[i + 3])
}

/// Reads the escape after a backslash: a named escape, or `\uXXXX` — for a
/// code point beyond the basic plane, a surrogate pair of two such escapes.
#[verifier::opaque]
pub open spec fn p_escape(s: Seq<char>) -> Option<(char, Seq<char>)> {
    if s.len() == 0 {
        None
    } else if s[0] == '"' {
        Some(('"', s.skip(1)))
    } else if s[0] == '\\' {
        Some(('\\', s.skip(1)))
    } else if s[0] == '/' {
        Some(('/', s.skip(1)))
    } else if s[0] == 'b' {
        Some(('\u{8}', s.skip(1)))
    } else if s[0] == 'f' {
        Some(('\u{c}', s.skip(1)))
    } else if s[0] == 'n' {
        Some(('\n', s.skip(1)))
    } else if s[0] == 'r' {
        Some(('\r', s.skip(1)))
    } else if s[0] == 't' {
        Some(('\t', s.skip(1)))
    } else if s[0] == 'u' {
        if s.len() >= 5 && is_hex(s[1]) && is_hex(s[2]) && is_hex(s[3]) && is_hex(s[4]) {
            let v = hex4(s, 1);
            if v < 0xD800 || v >= 0xE000 {
                Some(((v as u32) as char, s.skip(5)))
            } else if v < 0xDC00 {
                // A high surrogate: a low surrogate escape must follow.
                if s.len() >= 11 && s[5] == '\\' && s[6] == 'u' && is_hex(s[7]) && is_hex(s[8])
                    && is_hex(s[9]) && is_hex(s[10]) {
                    let lo = hex4(s, 7);
                    if 0xDC00 <= lo < 0xE000 {
                        let c = 0x10000 + (v - 0xD800) * 0x400 + (lo - 0xDC00);
                        Some(((c as u32) as char, s.skip(11)))
                    } else {
                        None
                    }
                } else {
                    None
                }
            } else {
                None
            }
        } else {
            None
        }
    } else {
        None
    }
}

/// Reads the rest of a string value after the opening quote, unescaping as
/// it goes; raw control characters are not part of the format.
pub open spec fn p_string_body(s: Seq<char>) -> Option<(Seq<char>, Seq<char>)>
    decreases s.len(),
{
    if s.len() == 0 {
        None
    } else if s[0] == '"' {
        Some((Seq::empty(), s.skip(1)))
    } else if s[0] == '\\' {
        match p_escape(s.skip(1)) {
            Some((c, rest)) => if rest.len() < s.len() {
                match p_string_body(rest) {
                    Some((tail, r2)) => Some((seq![c] + tail, r2)),
                    None => None,
                }
            } else {
                None
            },
            None => None,
        }
    } else if (s[0] as u32) < 32 {
        None
    } else {
        match p_string_body(s.skip(1)) {
            Some((tail, r2)) => Some((seq![s[0]] + tail, r2)),
            None => None,
        }
    }
}

/// Reads a quoted string value.
pub open spec fn p_string(s: Seq<char>) -> Option<(Seq<char>, Seq<char>)> {
    if s.len() > 0 && s[0] == '"' {
        p_string_body(s.skip(1))
    } else {
        None
    }
}

/// The status named by decoded string content, spelling exact.
pub open spec fn status_of(cs: Seq<char>) -> Option<TodoStatus> {
    if cs == status_chars(TodoStatus::Open) {
        Some(TodoStatus::Open)
    } else if cs == status_chars(TodoStatus::InProgress) {
        Some(TodoStatus::InProgress)
    } else if cs == status_chars(TodoStatus::Done) {
        Some(TodoStatus::Done)
    } else {
        None
    }
}

/// Consumes the shape of one JSON number without keeping its value: an
/// optional minus, an integer part without leading zeros, an optional
/// fraction, an optional exponent.
pub open spec fn p_skip_number(s: Seq<char>) -> Option<Seq<char>> {
    let r0 = if s.len() > 0 && s[0] == '-' {
        s.skip(1)
    } else {
        s
    };
    let k = count_digits(r0);
    if k == 0 {
        None
    } else if r0[0] == '0' && k > 1 {
        None
    } else {
        let r1 = r0.skip(k);
        let r2opt = if r1.len() > 0 && r1[0] == '.' {
            let kf = count_digits(r1.skip(1));
            if kf == 0 {
                None
            } else {
                Some(r1.skip(1 + kf))
            }
        } else {
            Some(r1)
        };
        match r2opt {
            None => None,
            Some(r2) => if r2.len() > 0 && (r2[0] == 'e' || r2[0] == 'E') {
                let r3 = if r2.len() >= 2 && (r2[1] == '+' || r2[1] == '-') {
                    r2.skip(2)
                } else {
                    r2.skip(1)
                };
                let ke = count_digits(r3);
                if ke == 0 {
                    None
                } else {
                    Some(r3.skip(ke))
                }
            } else {
                Some(r2)
            },
        }
    }
}

/// Consumes one well-formed JSON value of any kind without keeping it, for
/// fields of a task object that the format does not know.
pub open spec fn p_skip_value(s: Seq<char>) -> Option<Seq<char>>
    decreases s.len(), 0int,
{
    if s.len() == 0 {
        None
    } else if s[0] == '"' {
        match p_string(s) {
            Some((v, r)) => Some(r),
            None => None,
        }
    } else if s[0] == '{' {
        let r = skip_ws(s.skip(1));
        if r.len() > 0 && r[0] == '}' {
            Some(r.skip(1))
        } else if r.len() < s.len() {
            p_skip_members(r)
        } else {
            None
        }
    } else if s[0] == '[' {
        let r = skip_ws(s.skip(1));
        if r.len() > 0 && r[0] == ']' {
            Some(r.skip(1))
        } else if r.len() < s.len() {
            p_skip_elements(r)
        } else {
            None
        }
    } else if s[0] == 't' {
        if s.len() >= 4 && s[1] == 'r' && s[2] == 'u' && s[3] == 'e' {
            Some(s.skip(4))
        } else {
            None
        }
    } else if s[0] == 'f' {
        if s.len() >= 5 && s[1] == 'a' && s[2] == 'l' && s[3] == 's' && s[4] == 'e' {
            Some(s.skip(5))
        } else {
            None
        }
    } else if s[0] == 'n' {
        if s.len() >= 4 && s[1] == 'u' && s[2] == 'l' && s[3] == 'l' {
            Some(s.skip(4))
        } else {
            None
        }
    } else if s[0] == '-' || is_digit(s[0]) {
        p_skip_number(s)
    } else {
        None
    }
}

/// Consumes the members of a JSON object being skipped, from the first key
/// to the closing brace.
pub open spec fn p_skip_members(s: Seq<char>) -> Option<Seq<char>>
    decreases s.len(), 1int,
{
    match p_string(s) {
        None => None,
        Some((key, r1)) => {
            let r2 = skip_ws(r1);
            if r2.len() == 0 || r2[0] != ':' {
                None
            } else {
                let r3 = skip_ws(r2.skip(1));
                if r3.len() >= s.len() {
                    None
                } else {
                    match p_skip_value(r3) {
                        None => None,
                        Some(r4) => {
                            let r5 = skip_ws(r4);
                            if r5.len() > 0 && r5[0] == ',' {
                                let r6 = skip_ws(r5.skip(1));
                                if r6.len() < s.len() {
                                    p_skip_members(r6)
                                } else {
                                    None
                                }
                            } else if r5.len() > 0 && r5[0] == '}' {
                                Some(r5.skip(1))
                            } else {
                                None
                            }
                        },
                    }
                }
            }
        },
    }
}

/// Consumes the elements of a JSON array being skipped, from the first
/// element to the closing bracket.
pub open spec fn p_skip_elements(s: Seq<char>) -> Option<Seq<char>>
    decreases s.len(), 1int,
{
    match p_skip_value(s) {
        None => None,
        Some(r1) => {
            let r2 = skip_ws(r1);
            if r2.len() > 0 && r2[0] == ',' {
                let r3 = skip_ws(r2.skip(1));
                if r3.len() < s.len() {
                    p_skip_elements(r3)
                } else {
                    None
                }
            } else if r2.len() > 0 && r2[0] == ']' {
                Some(r2.skip(1))
            } else {
                None
            }
        },
    }
}

/// The fields of a task object collected so far, in any order.
pub ghost struct FieldSet {
    pub id: Option<nat>,
    pub content: Option<Seq<char>>,
    pub status: Option<TodoStatus>,
}

/// Reads one `key: value` pair into `acc`; a key may not repeat and must be
/// one of the three task fields.
pub open spec fn p_field(s: Seq<char>, acc: FieldSet) -> Option<(FieldSet, Seq<char>)> {
    match p_string(s) {
        None => None,
        Some((key, r1)) => {
            let r2 = skip_ws(r1);
            if r2.len() == 0 || r2[0] != ':' {
                None
            } else {
                let r3 = skip_ws(r2.skip(1));
                if key == seq!['i', 'd'] {
                    if acc.id is Some {
                        None
                    } else {
                        match p_nat(r3) {
                            None => None,
                            Some((v, r4)) => Some((FieldSet { id: Some(v), ..acc }, r4)),
                        }
                    }
                } else if key == seq!['c', 'o', 'n', 't', 'e', 'n', 't'] {
                    if acc.content is Some {
                        None
                    } else {
                        match p_string(r3) {
                            None => None,
                            Some((v, r4)) => Some((FieldSet { content: Some(v), ..acc }, r4)),
                        }
                    }
                } else if key == seq!['s', 't', 'a', 't', 'u', 's'] {
                    if acc.status is Some {
                        None
                    } else {
                        match p_string(r3) {
                            None => None,
                            Some((v, r4)) => match status_of(v) {
                                None => None,
                                Some(st) => Some((FieldSet { status: Some(st), ..acc }, r4)),
                            },
                        }
                    }
                } else {
                    // An unknown key: consume its value and keep what was
                    // collected, as the original reader ignored such fields.
                    match p_skip_value(r3) {
                        None => None,
                        Some(r4) => Some((acc, r4)),
                    }
                }
            }
        },
    }
}

/// Reads fields into `acc`, one after another, up to the closing brace.
pub open spec fn p_fields(s: Seq<char>, acc: FieldSet) -> Option<(FieldSet, Seq<char>)>
    decreases s.len(),
{
    match p_field(s, acc) {
        None => None,
        Some((a1, r1)) => {
            let r1b = skip_ws(r1);
            if r1b.len() > 0 && r1b[0] == ',' {
                let r2 = skip_ws(r1b.skip(1));
                if r2.len() < s.len() {
                    p_fields(r2, a1)
                } else {
                    None
                }
            } else if r1b.len() > 0 && r1b[0] == '}' {
                Some((a1, r1b.skip(1)))
            } else {
                None
            }
        },
    }
}

/// Reads one task object: the three task fields, each exactly once, in any
/// order; a field with any other key is read and ignored.
pub open spec fn p_object(s: Seq<char>) -> Option<(TaskModel, Seq<char>)> {
    if s.len() == 0 || s[0] != '{' {
        None
    } else {
        let acc0 = FieldSet { id: None, content: None, status: None };
        match p_fields(skip_ws(s.skip(1)), acc0) {
            None => None,
            Some((a, r)) => match (a.id, a.content, a.status) {
                (Some(id), Some(content), Some(status)) => Some(
                    ((TaskModel { id, content, status }), r),
                ),
                _ => None,
            },
        }
    }
}

/// Reads one or more comma-separated task objects.
pub open spec fn p_items(s: Seq<char>) -> Option<(Seq<TaskModel>, Seq<char>)>
    decreases s.len(),
{
    match p_object(s) {
        None => None,
        Some((t, r)) => {
            let r1 = skip_ws(r);
            if r1.len() > 0 && r1[0] == ',' {
                let r2 = skip_ws(r1.skip(1));
                if r2.len() < s.len() {
                    match p_items(r2) {
                        None => None,
                        Some((ts, r3)) => Some((seq![t] + ts, r3)),
                    }
                } else {
                    None
                }
            } else {
                Some((seq![t], r1))
            }
        },
    }
}

/// Reads a task array in square brackets.
pub open spec fn p_array(s: Seq<char>) -> Option<(Seq<TaskModel>, Seq<char>)> {
    if s.len() == 0 || s[0] != '[' {
        None
    } else {
        let r = skip_ws(s.skip(1));
        if r.len() > 0 && r[0] == ']' {
            Some((Seq::empty(), r.skip(1)))
        } else {
            match p_items(r) {
                None => None,
                Some((ts, r2)) => if r2.len() > 0 && r2[0] == ']' {
                    Some((ts, r2.skip(1)))
                } else {
                    None
                },
            }
        }
    }
}

/// Meaning of a whole document: a blank document — empty or holding nothing
/// but Unicode whitespace — is the empty task list; any other document is
/// exactly one task array with nothing but JSON whitespace around it.
pub open spec fn p_doc(s: Seq<char>) -> Option<Seq<TaskModel>> {
    if is_blank(s) {
        Some(Seq::empty())
    } else {
        let r = skip_ws(s);
        match p_array(r) {
            None => None,
            Some((ts, r2)) => if skip_ws(r2).len() == 0 {
                Some(ts)
            } else {
                None
            },
        }
    }
}

// ---------------------------------------------------------------------------
// The format, written: executable serializer
// ---------------------------------------------------------------------------

/// Relies on `char::from_u32`: it returns `Some` exactly for Unicode scalar
/// values — code points that are not surrogates and at most `0x10FFFF` — and
/// the returned character carries that code point.
pub assume_specification[ char::from_u32 ](v: u32) -> (r: Option<char>)
    ensures
        (r is Some) <==> (v < 0xD800 || (0xE000 <= v && v <= 0x10FFFF)),
        match r {
            Some(c) => c as u32 == v,
            None => true,
        },
;

/// Relies on `String: FromIterator<char>` (via `Iterator::collect`): the
/// collected string consists of exactly the characters of `v`, in order.
#[verifier::external_body]
pub(crate) fn chars_to_string(v: &Vec<char>) -> (r: String)
    ensures
        r@ == v@,
{
    v.iter().collect()
}

/// Decimal digit character for `d` below ten.
fn digit_char(d: usize) -> (c: char)
    requires
        d < 10,
    ensures
        c == dig_char(d as nat),
{
    (48 + d as u8) as char
}

/// Lowercase hexadecimal digit character for `d` below sixteen.
fn hexdigit_char(d: usize) -> (c: char)
    requires
        d < 16,
    ensures
        c == hex_char(d as nat),
{
    if d < 10 {
        (48 + d as u8) as char
    } else {
        (87 + d as u8) as char
    }
}

/// Appends the decimal digits of `n`.
pub(crate) fn push_nat(out: &mut Vec<char>, n: usize)
    ensures
        final(out)@ == old(out)@ + nat_chars(n as nat),
    decreases n,
{
    if n < 10 {
        out.push(digit_char(n));
        proof {
            assert(final(out)@ =~= old(out)@ + nat_chars(n as nat));
        }
    } else {
        push_nat(out, n / 10);
        out.push(digit_char(n % 10));
        proof {
            assert(final(out)@ =~= old(out)@ + nat_chars(n as nat));
        }
    }
}

/// Appends the escape of one content character.
fn push_escaped(out: &mut Vec<char>, c: char)
    ensures
        final(out)@ == old(out)@ + esc_char(c),
{
    if c == '"' {
        out.push('\\');
        out.push('"');
    } else if c == '\\' {
        out.push('\\');
        out.push('\\');
    } else if c == '\u{8}' {
        out.push('\\');
        out.push('b');
    } else if c == '\t' {
        out.push('\\');
        out.push('t');
    } else if c == '\n' {
        out.push('\\');
        out.push('n');
    } else if c == '\u{c}' {
        out.push('\\');
        out.push('f');
    } else if c == '\r' {
        out.push('\\');
        out.push('r');
    } else if (c as u32) < 32 {
        let v = c as u32;
        out.push('\\');
        out.push('u');
        out.push('0');
        out.push('0');
        out.push(hexdigit_char((v / 16) as usize));
        out.push(hexdigit_char((v % 16) as usize));
    } else {
        out.push(c);
    }
    proof {
        assert(final(out)@ =~= old(out)@ + esc_char(c));
    }
}

/// Appends the escaped form of the whole content string.
fn push_content(out: &mut Vec<char>, s: &str)
    ensures
        final(out)@ == old(out)@ + string_chars(s@),
{
    let n = s.unicode_len();
    let mut i: usize = 0;
    while i < n
        invariant
            0 <= i <= n,
            n == s@.len(),
            out@ == old(out)@ + string_chars(s@.take(i as int)),
        decreases n - i,
    {
        let c = s.get_char(i);
        push_escaped(out, c);
        proof {
            lemma_string_chars_concat(s@.take(i as int), seq![c]);
            lemma_string_chars_single(c);
            assert(s@.take(i + 1) =~= s@.take(i as int) + seq![c]);
            assert(out@ =~= old(out)@ + string_chars(s@.take(i + 1)));
        }
        i += 1;
    }
    proof {
        assert(s@.take(n as int) =~= s@);
    }
}

/// Appends the exact spelling of a status.
pub(crate) fn push_status(out: &mut Vec<char>, st: TodoStatus)
    ensures
        final(out)@ == old(out)@ + status_chars(st),
{
    match st {
        TodoStatus::Open => {
            out.push('O');
            out.push('p');
            out.push('e');
            out.push('n');
        },
        TodoStatus::InProgress => {
            out.push('I');
            out.push('n');
            out.push('P');
            out.push('r');
            out.push('o');
            out.push('g');
            out.push('r');
            out.push('e');
            out.push('s');
            out.push('s');
        },
        TodoStatus::Done => {
            out.push('D');
            out.push('o');
            out.push('n');
            out.push('e');
        },
    }
    proof {
        assert(final(out)@ =~= old(out)@ + status_chars(st));
    }
}

/// Appends the opening of a task object up to the id value: `{"id":`.
fn push_id_key(out: &mut Vec<char>)
    ensures
        final(out)@ == old(out)@ + seq!['{', '"', 'i', 'd', '"', ':'],
{
    out.push('{');
    out.push('"');
    out.push('i');
    out.push('d');
    out.push('"');
    out.push(':');
    proof {
        assert(final(out)@ =~= old(out)@ + seq!['{', '"', 'i', 'd', '"', ':']);
    }
}

/// Appends the content key between the id value and the content value:
/// `,"content":"`.
fn push_content_key(out: &mut Vec<char>)
    ensures
        final(out)@ == old(out)@ + seq![',', '"', 'c', 'o', 'n', 't', 'e', 'n', 't', '"', ':', '"'],
{
    out.push(',');
    out.push('"');
    out.push('c');
    out.push('o');
    out.push('n');
    out.push('t');
    out.push('e');
    out.push('n');
    out.push('t');
    out.push('"');
    out.push(':');
    out.push('"');
    proof {
        assert(final(out)@ =~= old(out)@ + seq![',', '"', 'c', 'o', 'n', 't', 'e', 'n', 't', '"',
            ':', '"']);
    }
}

/// Appends the status key between the content value and the status value:
/// `","status":"`.
fn push_status_key(out: &mut Vec<char>)
    ensures
        final(out)@ == old(out)@ + seq!['"', ',', '"', 's', 't', 'a', 't', 'u', 's', '"', ':', '"'],
{
    out.push('"');
    out.push(',');
    out.push('"');
    out.push('s');
    out.push('t');
    out.push('a');
    out.push('t');
    out.push('u');
    out.push('s');
    out.push('"');
    out.push(':');
    out.push('"');
    proof {
        assert(final(out)@ =~= old(out)@ + seq!['"', ',', '"', 's', 't', 'a', 't', 'u', 's', '"',
            ':', '"']);
    }
}

/// Appends one task object.
fn push_task(out: &mut Vec<char>, t: &Todo)
    ensures
        final(out)@ == old(out)@ + task_chars(t@),
{
    push_id_key(out);
    push_nat(out, t.id());
    push_content_key(out);
    push_content(out, t.content().as_str());
    push_status_key(out);
    push_status(out, t.status());
    out.push('"');
    out.push('}');
    proof {
        assert(final(out)@ =~= old(out)@ + task_chars(t@));
    }
}

// ---------------------------------------------------------------------------
// Round trip: reading back what was written restores the same tasks
// ---------------------------------------------------------------------------

/// Digit characters carry their digit's value and only `0` spells zero.
proof fn lemma_dig_char(d: nat)
    requires
        d < 10,
    ensures
        is_digit(dig_char(d)),
        dig_val(dig_char(d)) == d,
        d != 0 ==> dig_char(d) != '0',
        d == 0 ==> dig_char(d) == '0',
{
    assert(dig_char(d) as u32 == 48 + d);
    if d == 0 {
        assert('0' as u32 == 48);
        assert(dig_char(d) == '0');
    }
}

/// The decimal spelling of `n` is all digits, is never empty, and has no
/// leading zero.
proof fn lemma_nat_chars_digits(n: nat)
    ensures
        nat_chars(n).len() >= 1,
        forall|i: int| 0 <= i < nat_chars(n).len() ==> is_digit(#[trigger] nat_chars(n)[i]),
        n >= 1 ==> nat_chars(n)[0] != '0',
        n == 0 ==> nat_chars(n) == seq!['0'],
    decreases n,
{
    if n < 10 {
        lemma_dig_char(n);
        if n == 0 {
            assert(nat_chars(n) =~= seq!['0']);
        }
    } else {
        lemma_nat_chars_digits(n / 10);
        lemma_dig_char(n % 10);
        let pre = nat_chars(n / 10);
        assert(nat_chars(n) == pre.push(dig_char(n % 10)));
        assert(forall|i: int|
            0 <= i < pre.len() ==> nat_chars(n)[i] == pre[i]);
        assert(nat_chars(n)[pre.len() as int] == dig_char(n % 10));
    }
}

/// Reading the decimal spelling of `n` back as digits gives `n`.
proof fn lemma_digits_val_nat_chars(n: nat)
    ensures
        digits_val(nat_chars(n)) == n,
    decreases n,
{
    if n < 10 {
        lemma_dig_char(n);
        let s = nat_chars(n);
        assert(s.len() == 1);
        assert(s.drop_last() =~= Seq::<char>::empty());
        assert(s.last() == dig_char(n));
        assert(digits_val(s) == digits_val(s.drop_last()) * 10 + dig_val(s.last()));
        assert(digits_val(Seq::<char>::empty()) == 0);
        assert(digits_val(s) == dig_val(dig_char(n)));
    } else {
        lemma_digits_val_nat_chars(n / 10);
        lemma_dig_char(n % 10);
        let s = nat_chars(n);
        assert(s.drop_last() =~= nat_chars(n / 10));
        assert(s.last() == dig_char(n % 10));
        assert(digits_val(s) == (n / 10) * 10 + (n % 10));
        assert((n / 10) * 10 + (n % 10) == n) by {
            vstd::arithmetic::div_mod::lemma_fundamental_div_mod(n as int, 10);
        }
    }
}

/// A digit run followed by a non-digit is counted exactly.
proof fn lemma_count_digits_concat(ds: Seq<char>, rest: Seq<char>)
    requires
        forall|i: int| 0 <= i < ds.len() ==> is_digit(#[trigger] ds[i]),
        rest.len() == 0 || !is_digit(rest[0]),
    ensures
        count_digits(ds + rest) == ds.len(),
    decreases ds.len(),
{
    if ds.len() == 0 {
        assert(ds + rest =~= rest);
    } else {
        lemma_count_digits_concat(ds.skip(1), rest);
        assert((ds + rest).skip(1) =~= ds.skip(1) + rest);
        assert((ds + rest)[0] == ds[0]);
    }
}

/// Reading back a written integer yields that integer and consumes exactly
/// its digits.
proof fn lemma_p_nat_roundtrip(n: nat, rest: Seq<char>)
    requires
        n <= usize::MAX as nat,
        rest.len() == 0 || !is_digit(rest[0]),
    ensures
        p_nat(nat_chars(n) + rest) == Some((n, rest)),
{
    let ds = nat_chars(n);
    let s = ds + rest;
    lemma_nat_chars_digits(n);
    lemma_count_digits_concat(ds, rest);
    lemma_digits_val_nat_chars(n);
    let k = count_digits(s);
    assert(k == ds.len());
    assert(s[0] == ds[0]);
    if s[0] == '0' {
        assert(n == 0);
        assert(ds == seq!['0']);
        assert(k == 1);
    }
    assert(s.take(k) =~= ds);
    assert(s.skip(k) =~= rest);
}

/// Hexadecimal digit characters carry their value.
proof fn lemma_hex_char(d: nat)
    requires
        d < 16,
    ensures
        is_hex(hex_char(d)),
        hex_val(hex_char(d)) == d,
{
    if d < 10 {
        lemma_dig_char(d);
    } else {
        assert(hex_char(d) as u32 == 87 + d);
    }
}

/// Skipping whitespace moves nothing when none leads.
proof fn lemma_skip_ws_noop(s: Seq<char>)
    requires
        s.len() == 0 || !is_ws(s[0]),
    ensures
        skip_ws(s) == s,
{
}

/// A character that the encoding leaves as itself.
spec fn is_plain(c: char) -> bool {
    c != '"' && c != '\\' && c as u32 >= 32
}

/// Content of plain characters is written verbatim.
proof fn lemma_string_chars_plain(s: Seq<char>)
    requires
        forall|i: int| 0 <= i < s.len() ==> is_plain(#[trigger] s[i]),
    ensures
        string_chars(s) == s,
    decreases s.len(),
{
    if s.len() > 0 {
        lemma_string_chars_plain(s.skip(1));
        assert(is_plain(s[0]));
        assert(esc_char(s[0]) == seq![s[0]]);
        assert(string_chars(s) =~= s);
    }
}

/// Common step for a two-character escape: when the escape decodes back to
/// the leading character, the whole string body round-trips.
proof fn lemma_escape_case(c0: char, e: char, tail: Seq<char>, rest: Seq<char>)
    requires
        esc_char(c0) == seq!['\\', e],
        p_escape(seq![e] + (string_chars(tail) + seq!['"'] + rest)) == Some(
            (c0, string_chars(tail) + seq!['"'] + rest),
        ),
        p_string_body(string_chars(tail) + seq!['"'] + rest) == Some((tail, rest)),
    ensures
        p_string_body(string_chars(seq![c0] + tail) + seq!['"'] + rest) == Some(
            (seq![c0] + tail, rest),
        ),
{
    let inner = string_chars(tail) + seq!['"'] + rest;
    let cont = seq![c0] + tail;
    assert(cont[0] == c0);
    assert(cont.skip(1) =~= tail);
    assert(string_chars(cont) == esc_char(c0) + string_chars(tail));
    let x = string_chars(cont) + seq!['"'] + rest;
    assert(x =~= seq!['\\'] + (seq![e] + inner));
    assert(x[0] == '\\');
    assert(x.skip(1) =~= seq![e] + inner);
    assert(inner.len() < x.len());
    assert(p_string_body(x) == Some((seq![c0] + tail, rest)));
}

/// Reading back a written string body yields the original content and stops
/// at the closing quote.
proof fn lemma_p_string_body_roundtrip(content: Seq<char>, rest: Seq<char>)
    ensures
        p_string_body(string_chars(content) + seq!['"'] + rest) == Some((content, rest)),
    decreases content.len(),
{
    reveal(p_escape);
    let x = string_chars(content) + seq!['"'] + rest;
    if content.len() == 0 {
        assert(string_chars(content) == Seq::<char>::empty());
        assert(x =~= seq!['"'] + rest);
        assert(x[0] == '"');
        assert(x.skip(1) =~= rest);
        assert(content =~= Seq::<char>::empty());
    } else {
        let c0 = content[0];
        let tail = content.skip(1);
        lemma_p_string_body_roundtrip(tail, rest);
        let inner = string_chars(tail) + seq!['"'] + rest;
        assert(content =~= seq![c0] + tail);
        if c0 == '"' {
            assert((seq!['"'] + inner)[0] == '"');
            assert((seq!['"'] + inner).skip(1) =~= inner);
            lemma_escape_case(c0, '"', tail, rest);
        } else if c0 == '\\' {
            assert((seq!['\\'] + inner)[0] == '\\');
            assert((seq!['\\'] + inner).skip(1) =~= inner);
            lemma_escape_case(c0, '\\', tail, rest);
        } else if c0 == '\u{8}' {
            assert((seq!['b'] + inner)[0] == 'b');
            assert((seq!['b'] + inner).skip(1) =~= inner);
            lemma_escape_case(c0, 'b', tail, rest);
        } else if c0 == '\t' {
            assert((seq!['t'] + inner)[0] == 't');
            assert((seq!['t'] + inner).skip(1) =~= inner);
            lemma_escape_case(c0, 't', tail, rest);
        } else if c0 == '\n' {
            assert((seq!['n'] + inner)[0] == 'n');
            assert((seq!['n'] + inner).skip(1) =~= inner);
            lemma_escape_case(c0, 'n', tail, rest);
        } else if c0 == '\u{c}' {
            assert((seq!['f'] + inner)[0] == 'f');
            assert((seq!['f'] + inner).skip(1) =~= inner);
            lemma_escape_case(c0, 'f', tail, rest);
        } else if c0 == '\r' {
            assert((seq!['r'] + inner)[0] == 'r');
            assert((seq!['r'] + inner).skip(1) =~= inner);
            lemma_escape_case(c0, 'r', tail, rest);
        } else if (c0 as u32) < 32 {
            let v = c0 as u32;
            let h = hex_char((v / 16) as nat);
            let l = hex_char((v % 16) as nat);
            lemma_hex_char((v / 16) as nat);
            lemma_hex_char((v % 16) as nat);
            assert(esc_char(c0) == seq!['\\', 'u', '0', '0', h, l]);
            assert(string_chars(content) == esc_char(c0) + string_chars(tail));
            assert(x =~= seq!['\\'] + (seq!['u', '0', '0', h, l] + inner));
            assert(x[0] == '\\');
            assert(x.skip(1) =~= seq!['u', '0', '0', h, l] + inner);
            let s1 = seq!['u', '0', '0', h, l] + inner;
            assert(s1[0] == 'u');
            assert(s1[1] == '0');
            assert(s1[2] == '0');
            assert(s1[3] == h);
            assert(s1[4] == l);
            assert(s1.len() >= 5);
            assert('0' as u32 == 48);
            assert(is_hex('0'));
            assert(hex_val('0') == 0);
            assert(hex4(s1, 1) == (v / 16) * 16 + (v % 16));
            assert((v / 16) * 16 + (v % 16) == v) by {
                vstd::arithmetic::div_mod::lemma_fundamental_div_mod(v as int, 16);
            }
            assert(hex4(s1, 1) < 0xD800);
            assert((v as char) == c0) by {
                vstd::utf8::char_u32_cast(c0, v);
            }
            assert(s1.skip(5) =~= inner);
            assert(p_escape(s1) == Some((c0, inner)));
            assert(inner.len() < x.len());
            assert(p_string_body(x) == Some((seq![c0] + tail, rest)));
        } else {
            assert(is_plain(c0));
            assert(esc_char(c0) == seq![c0]);
            assert(string_chars(content) == seq![c0] + string_chars(tail));
            assert(x =~= seq![c0] + inner);
            assert(x[0] == c0);
            assert(x.skip(1) =~= inner);
            assert(p_string_body(x) == Some((seq![c0] + tail, rest)));
        }
    }
}

/// Reading back a written string yields the original content.
proof fn lemma_p_string_roundtrip(content: Seq<char>, rest: Seq<char>)
    ensures
        p_string(seq!['"'] + string_chars(content) + seq!['"'] + rest) == Some((content, rest)),
{
    let x = seq!['"'] + string_chars(content) + seq!['"'] + rest;
    assert(x[0] == '"');
    assert(x.skip(1) =~= string_chars(content) + seq!['"'] + rest);
    lemma_p_string_body_roundtrip(content, rest);
}

/// The field keys and status spellings are written verbatim.
proof fn lemma_tokens_plain()
    ensures
        string_chars(seq!['i', 'd']) == seq!['i', 'd'],
        string_chars(seq!['c', 'o', 'n', 't', 'e', 'n', 't']) == seq!['c', 'o', 'n', 't', 'e',
            'n', 't'],
        string_chars(seq!['s', 't', 'a', 't', 'u', 's']) == seq!['s', 't', 'a', 't', 'u', 's'],
        string_chars(status_chars(TodoStatus::Open)) == status_chars(TodoStatus::Open),
        string_chars(status_chars(TodoStatus::InProgress)) == status_chars(
            TodoStatus::InProgress,
        ),
        string_chars(status_chars(TodoStatus::Done)) == status_chars(TodoStatus::Done),
{
    let sid = seq!['i', 'd'];
    let sco = seq!['c', 'o', 'n', 't', 'e', 'n', 't'];
    let sst = seq!['s', 't', 'a', 't', 'u', 's'];
    assert(forall|i: int| 0 <= i < sid.len() ==> is_plain(#[trigger] sid[i]));
    assert(forall|i: int| 0 <= i < sco.len() ==> is_plain(#[trigger] sco[i]));
    assert(forall|i: int| 0 <= i < sst.len() ==> is_plain(#[trigger] sst[i]));
    lemma_string_chars_plain(sid);
    lemma_string_chars_plain(sco);
    lemma_string_chars_plain(sst);
    let so = status_chars(TodoStatus::Open);
    let sp = status_chars(TodoStatus::InProgress);
    let sd = status_chars(TodoStatus::Done);
    assert(forall|i: int| 0 <= i < so.len() ==> is_plain(#[trigger] so[i]));
    assert(forall|i: int| 0 <= i < sp.len() ==> is_plain(#[trigger] sp[i]));
    assert(forall|i: int| 0 <= i < sd.len() ==> is_plain(#[trigger] sd[i]));
    lemma_string_chars_plain(so);
    lemma_string_chars_plain(sp);
    lemma_string_chars_plain(sd);
}

/// The three status spellings name their statuses and nothing else.
proof fn lemma_status_of_chars(st: TodoStatus)
    ensures
        status_of(status_chars(st)) == Some(st),
{
    let so = status_chars(TodoStatus::Open);
    let sp = status_chars(TodoStatus::InProgress);
    let sd = status_chars(TodoStatus::Done);
    assert(so.len() == 4 && sp.len() == 10 && sd.len() == 4);
    assert(so[0] == 'O' && sd[0] == 'D');
    match st {
        TodoStatus::Open => {},
        TodoStatus::InProgress => {
            assert(sp != so);
        },
        TodoStatus::Done => {
            assert(sd != so) by {
                if sd == so {
                    assert(sd[0] == so[0]);
                }
            }
            assert(sd != sp);
        },
    }
}

/// Reading back a written task object yields that task and consumes exactly
/// its text.
#[verifier::rlimit(100)]
proof fn lemma_p_object_roundtrip(t: TaskModel, rest: Seq<char>)
    requires
        t.id <= usize::MAX as nat,
    ensures
        p_object(task_chars(t) + rest) == Some((t, rest)),
{
    let sid = seq!['i', 'd'];
    let sco = seq!['c', 'o', 'n', 't', 'e', 'n', 't'];
    let sst = seq!['s', 't', 'a', 't', 'u', 's'];
    let stv = status_chars(t.status);
    lemma_tokens_plain();
    lemma_nat_chars_digits(t.id);

    // The object text, split at every token the reader stops at.
    let a10 = seq!['}'] + rest;
    let a9v = seq!['"'] + string_chars(stv) + seq!['"'] + a10;
    let a9 = seq![':'] + a9v;
    let a8 = seq!['"'] + string_chars(sst) + seq!['"'] + a9;
    let a7 = seq![','] + a8;
    let a6 = seq!['"'] + string_chars(t.content) + seq!['"'] + a7;
    let a5 = seq![':'] + a6;
    let a4 = seq!['"'] + string_chars(sco) + seq!['"'] + a5;
    let a3 = seq![','] + a4;
    let a2 = nat_chars(t.id) + a3;
    let a1 = seq![':'] + a2;
    let a0 = seq!['"'] + string_chars(sid) + seq!['"'] + a1;
    let s = task_chars(t) + rest;
    assert(s =~= seq!['{'] + a0);

    // Opening brace.
    assert(s[0] == '{');
    assert(s.skip(1) =~= a0);
    assert(skip_ws(a0) == a0) by {
        assert(a0[0] == '"');
        lemma_skip_ws_noop(a0);
    }

    // First field: the id.
    let acc0 = FieldSet { id: None, content: None, status: None };
    lemma_p_string_roundtrip(sid, a1);
    assert(skip_ws(a1) == a1) by {
        assert(a1[0] == ':');
        lemma_skip_ws_noop(a1);
    }
    assert(a1.skip(1) =~= a2);
    assert(skip_ws(a2) == a2) by {
        assert(a2[0] == nat_chars(t.id)[0]);
        assert(is_digit(a2[0]));
        assert(!is_ws(a2[0]));
        lemma_skip_ws_noop(a2);
    }
    lemma_p_nat_roundtrip(t.id, a3);
    let acc1 = FieldSet { id: Some(t.id), content: None, status: None };
    assert(p_field(a0, acc0) == Some((acc1, a3))) by {
        assert(p_nat(a2) == Some((t.id, a3)));
        assert((FieldSet { id: Some(t.id), ..acc0 }) == acc1);
    }

    // Comma, then the content field.
    assert(skip_ws(a3) == a3) by {
        assert(a3[0] == ',');
        lemma_skip_ws_noop(a3);
    }
    assert(a3.skip(1) =~= a4);
    assert(skip_ws(a4) == a4) by {
        assert(a4[0] == '"');
        lemma_skip_ws_noop(a4);
    }
    lemma_p_string_roundtrip(sco, a5);
    assert(skip_ws(a5) == a5) by {
        assert(a5[0] == ':');
        lemma_skip_ws_noop(a5);
    }
    assert(a5.skip(1) =~= a6);
    assert(skip_ws(a6) == a6) by {
        assert(a6[0] == '"');
        lemma_skip_ws_noop(a6);
    }
    lemma_p_string_roundtrip(t.content, a7);
    let acc2 = FieldSet { id: Some(t.id), content: Some(t.content), status: None };
    assert(p_field(a4, acc1) == Some((acc2, a7))) by {
        assert(sco != sid) by {
            assert(sco.len() != sid.len());
        }
        assert(p_string(a6) == Some((t.content, a7)));
        assert((FieldSet { content: Some(t.content), ..acc1 }) == acc2);
    }

    // Comma, then the status field.
    assert(skip_ws(a7) == a7) by {
        assert(a7[0] == ',');
        lemma_skip_ws_noop(a7);
    }
    assert(a7.skip(1) =~= a8);
    assert(skip_ws(a8) == a8) by {
        assert(a8[0] == '"');
        lemma_skip_ws_noop(a8);
    }
    lemma_p_string_roundtrip(sst, a9);
    assert(skip_ws(a9) == a9) by {
        assert(a9[0] == ':');
        lemma_skip_ws_noop(a9);
    }
    assert(a9.skip(1) =~= a9v);
    assert(skip_ws(a9v) == a9v) by {
        assert(a9v[0] == '"');
        lemma_skip_ws_noop(a9v);
    }
    lemma_p_string_roundtrip(stv, a10);
    lemma_status_of_chars(t.status);
    let acc3 = FieldSet { id: Some(t.id), content: Some(t.content), status: Some(t.status) };
    assert(p_field(a8, acc2) == Some((acc3, a10))) by {
        assert(sst != sid) by {
            assert(sst.len() != sid.len());
        }
        assert(sst != sco) by {
            assert(sst.len() != sco.len());
        }
        assert(p_string(a9v) == Some((stv, a10)));
        assert((FieldSet { status: Some(t.status), ..acc2 }) == acc3);
    }

    // Closing brace, then the three field steps composed.
    assert(skip_ws(a10) == a10) by {
        assert(a10[0] == '}');
        lemma_skip_ws_noop(a10);
    }
    assert(a10[0] == '}');
    assert(a10.skip(1) =~= rest);
    assert(p_fields(a8, acc2) == Some((acc3, rest)));
    assert(p_fields(a4, acc1) == Some((acc3, rest))) by {
        assert(a4.len() > a8.len());
    }
    assert(p_fields(a0, acc0) == Some((acc3, rest))) by {
        assert(a0.len() > a4.len());
    }
    assert((TaskModel { id: t.id, content: t.content, status: t.status }) =~= t);
    assert(p_object(s) == Some((t, rest)));
}

/// A task object's text starts with its opening brace.
proof fn lemma_task_chars_head(t: TaskModel)
    ensures
        task_chars(t).len() > 0,
        task_chars(t)[0] == '{',
{
    let p1 = seq!['{', '"', 'i', 'd', '"', ':'];
    let c1 = p1 + nat_chars(t.id);
    assert(c1[0] == '{');
    let c2 = c1 + seq![',', '"', 'c', 'o', 'n', 't', 'e', 'n', 't', '"', ':', '"'];
    assert(c2[0] == '{');
    let c3 = c2 + string_chars(t.content);
    assert(c3[0] == '{');
    let c4 = c3 + seq!['"', ',', '"', 's', 't', 'a', 't', 'u', 's', '"', ':', '"'];
    assert(c4[0] == '{');
    let c5 = c4 + status_chars(t.status);
    assert(c5[0] == '{');
    let c6 = c5 + seq!['"', '}'];
    assert(c6[0] == '{');
    assert(task_chars(t) == c6);
}

/// Reading back written items yields those tasks, stopping before `rest`.
#[verifier::rlimit(100)]
proof fn lemma_p_items_roundtrip(ts: Seq<TaskModel>, rest: Seq<char>)
    requires
        ts.len() >= 1,
        forall|i: int| 0 <= i < ts.len() ==> (#[trigger] ts[i].id) <= usize::MAX as nat,
        rest.len() == 0 || (!is_ws(rest[0]) && rest[0] != ','),
    ensures
        p_items(items_chars(ts) + rest) == Some((ts, rest)),
    decreases ts.len(),
{
    let s = items_chars(ts) + rest;
    if ts.len() == 1 {
        assert(items_chars(ts) == task_chars(ts[0]));
        assert(ts[0].id <= usize::MAX as nat);
        lemma_p_object_roundtrip(ts[0], rest);
        assert(p_object(s) == Some((ts[0], rest)));
        lemma_skip_ws_noop(rest);
        assert(seq![ts[0]] =~= ts);
    } else {
        let tail = ts.skip(1);
        let rest2 = seq![','] + (items_chars(tail) + rest);
        assert(ts[0].id <= usize::MAX as nat);
        lemma_p_object_roundtrip(ts[0], rest2);
        assert(s =~= task_chars(ts[0]) + rest2);
        assert(p_object(s) == Some((ts[0], rest2)));
        assert(rest2[0] == ',');
        lemma_skip_ws_noop(rest2);
        assert(rest2.skip(1) =~= items_chars(tail) + rest);
        assert(tail.len() >= 1);
        lemma_task_chars_head(tail[0]);
        assert(items_chars(tail)[0] == task_chars(tail[0])[0]) by {
            if tail.len() == 1 {
                assert(items_chars(tail) == task_chars(tail[0]));
            } else {
                assert(items_chars(tail) == task_chars(tail[0]) + seq![','] + items_chars(
                    tail.skip(1),
                ));
            }
        }
        assert((items_chars(tail) + rest)[0] == '{');
        lemma_skip_ws_noop(items_chars(tail) + rest);
        assert((items_chars(tail) + rest).len() < s.len());
        assert(forall|i: int| 0 <= i < tail.len() ==> (#[trigger] tail[i].id) <= usize::MAX as nat)
            by {
            assert(forall|i: int| 0 <= i < tail.len() ==> tail[i] == ts[i + 1]);
        }
        lemma_p_items_roundtrip(tail, rest);
        assert(seq![ts[0]] + tail =~= ts);
    }
}

/// Reading back a written task array yields those tasks.
proof fn lemma_p_array_roundtrip(ts: Seq<TaskModel>, rest: Seq<char>)
    requires
        forall|i: int| 0 <= i < ts.len() ==> (#[trigger] ts[i].id) <= usize::MAX as nat,
    ensures
        p_array(tasks_chars(ts) + rest) == Some((ts, rest)),
{
    let s = tasks_chars(ts) + rest;
    let close = seq![']'] + rest;
    assert(s =~= seq!['['] + (items_chars(ts) + close));
    assert(s[0] == '[');
    assert(s.skip(1) =~= items_chars(ts) + close);
    if ts.len() == 0 {
        assert(items_chars(ts) + close =~= close);
        assert(close[0] == ']');
        lemma_skip_ws_noop(close);
        assert(close.skip(1) =~= rest);
        assert(Seq::<TaskModel>::empty() =~= ts);
    } else {
        let inner = items_chars(ts) + close;
        lemma_task_chars_head(ts[0]);
        assert(items_chars(ts)[0] == task_chars(ts[0])[0]) by {
            if ts.len() == 1 {
                assert(items_chars(ts) == task_chars(ts[0]));
            } else {
                assert(items_chars(ts) == task_chars(ts[0]) + seq![','] + items_chars(ts.skip(1)));
            }
        }
        assert(inner[0] == '{');
        lemma_skip_ws_noop(inner);
        lemma_p_items_roundtrip(ts, close);
        assert(p_items(inner) == Some((ts, close)));
        assert(close[0] == ']');
        assert(close.skip(1) =~= rest);
    }
}

/// Law: a document of nothing but Unicode whitespace — the empty document
/// included — means the empty task list, not an error.
pub proof fn lemma_blank_text_is_empty_list(s: Seq<char>)
    requires
        forall|i: int| 0 <= i < s.len() ==> is_unicode_ws(#[trigger] s[i]),
    ensures
        p_doc(s) == Some(Seq::<TaskModel>::empty()),
{
    assert(is_blank(s));
}

/// Law: saving a task sequence and loading it back from the same text
/// restores a sequence equal to the original — same ids, contents, statuses,
/// and order. The ids must fit the machine word, as every id held by a
/// [`Todo`] does.
pub proof fn lemma_parse_serialize_roundtrip(ts: Seq<TaskModel>)
    requires
        forall|i: int| 0 <= i < ts.len() ==> (#[trigger] ts[i].id) <= usize::MAX as nat,
    ensures
        p_doc(tasks_chars(ts)) == Some(ts),
{
    let s = tasks_chars(ts);
    lemma_p_array_roundtrip(ts, Seq::empty());
    assert(s + Seq::<char>::empty() =~= s);
    assert(p_array(s) == Some((ts, Seq::<char>::empty())));
    assert(s[0] == '[') by {
        assert(s =~= seq!['['] + (items_chars(ts) + seq![']']));
    }
    assert(!is_blank(s)) by {
        assert(!is_unicode_ws('['));
        assert(s[0] == '[');
    }
    lemma_skip_ws_noop(s);
    assert(skip_ws(Seq::<char>::empty()).len() == 0);
}

// ---------------------------------------------------------------------------
// The format, read: executable parser
// ---------------------------------------------------------------------------

/// Skipping past one position composes.
proof fn lemma_skip_skip(s: Seq<char>, a: int, b: int)
    requires
        0 <= a,
        0 <= b,
        a + b <= s.len(),
    ensures
        s.skip(a).skip(b) == s.skip(a + b),
{
    assert(s.skip(a).skip(b) =~= s.skip(a + b));
}

/// `o` with `pre` prepended to the parsed content on success.
spec fn prepend_parsed(pre: Seq<char>, o: Option<(Seq<char>, Seq<char>)>) -> Option<
    (Seq<char>, Seq<char>),
> {
    match o {
        Some((tail, r)) => Some((pre + tail, r)),
        None => None,
    }
}

/// Prepending twice is prepending the concatenation.
proof fn lemma_prepend_compose(a: Seq<char>, b: Seq<char>, o: Option<(Seq<char>, Seq<char>)>)
    ensures
        prepend_parsed(a, prepend_parsed(b, o)) == prepend_parsed(a + b, o),
{
    match o {
        Some((t, r)) => {
            assert(a + (b + t) =~= (a + b) + t);
        },
        None => {},
    }
}

/// Whether `c` is insignificant whitespace.
fn ws_char(c: char) -> (r: bool)
    ensures
        r == is_ws(c),
{
    c == ' ' || c == '\t' || c == '\n' || c == '\r'
}

/// Whether `c` is a decimal digit.
fn digit_char_test(c: char) -> (r: bool)
    ensures
        r == is_digit(c),
{
    let v = c as u32;
    48 <= v && v <= 57
}

/// Position after the leading whitespace from `i`.
fn e_skip_ws(v: &Vec<char>, i: usize) -> (j: usize)
    requires
        i <= v@.len(),
    ensures
        i <= j <= v@.len(),
        v@.skip(j as int) == skip_ws(v@.skip(i as int)),
{
    let mut j = i;
    while j < v.len() && ws_char(v[j])
        invariant
            i <= j <= v@.len(),
            skip_ws(v@.skip(i as int)) == skip_ws(v@.skip(j as int)),
        decreases v@.len() - j,
    {
        proof {
            assert(v@.skip(j as int)[0] == v@[j as int]);
            lemma_skip_skip(v@, j as int, 1);
        }
        j += 1;
    }
    proof {
        if j < v@.len() {
            assert(v@.skip(j as int)[0] == v@[j as int]);
        }
        assert(skip_ws(v@.skip(j as int)) == v@.skip(j as int));
    }
    j
}

/// Value of a hexadecimal digit character, if it is one.
fn hex_value(c: char) -> (r: Option<u8>)
    ensures
        match r {
            Some(h) => is_hex(c) && h as nat == hex_val(c),
            None => !is_hex(c),
        },
{
    let v = c as u32;
    if 48 <= v && v <= 57 {
        Some((v - 48) as u8)
    } else if 97 <= v && v <= 102 {
        Some((v - 87) as u8)
    } else if 65 <= v && v <= 70 {
        Some((v - 55) as u8)
    } else {
        None
    }
}

/// Reads the escape after a backslash, as [`p_escape`] describes it.
fn e_escape(v: &Vec<char>, i: usize) -> (r: Option<(char, usize)>)
    requires
        i <= v@.len(),
    ensures
        match r {
            Some((c, j)) => i < j <= v@.len() && p_escape(v@.skip(i as int)) == Some(
                (c, v@.skip(j as int)),
            ),
            None => p_escape(v@.skip(i as int)) is None,
        },
{
    proof {
        reveal(p_escape);
    }
    if i >= v.len() {
        return None;
    }
    let c = v[i];
    proof {
        assert(v@.skip(i as int)[0] == c);
        lemma_skip_skip(v@, i as int, 1);
    }
    if c == '"' {
        Some(('"', i + 1))
    } else if c == '\\' {
        Some(('\\', i + 1))
    } else if c == '/' {
        Some(('/', i + 1))
    } else if c == 'b' {
        Some(('\u{8}', i + 1))
    } else if c == 'f' {
        Some(('\u{c}', i + 1))
    } else if c == 'n' {
        Some(('\n', i + 1))
    } else if c == 'r' {
        Some(('\r', i + 1))
    } else if c == 't' {
        Some(('\t', i + 1))
    } else if c == 'u' {
        if v.len() - i >= 5 {
            proof {
                assert(forall|k: int|
                    0 <= k < v@.len() - i ==> v@.skip(i as int)[k] == v@[i + k]);
            }
            let h1 = hex_value(v[i + 1]);
            let h2 = hex_value(v[i + 2]);
            let h3 = hex_value(v[i + 3]);
            let h4 = hex_value(v[i + 4]);
            match (h1, h2, h3, h4) {
                (Some(a), Some(b), Some(cc), Some(d)) => {
                    let val: u32 = (a as u32) * 4096 + (b as u32) * 256 + (cc as u32) * 16
                        + (d as u32);
                    proof {
                        assert(val as nat == hex4(v@.skip(i as int), 1));
                    }
                    if val < 0xD800 || val >= 0xE000 {
                        proof {
                            lemma_skip_skip(v@, i as int, 5);
                        }
                        match char::from_u32(val) {
                            Some(c2) => {
                                proof {
                                    vstd::utf8::char_u32_cast(c2, val);
                                }
                                Some((c2, i + 5))
                            },
                            None => None,  // unreachable: val is a valid scalar
                        }
                    } else if val < 0xDC00 {
                        if v.len() - i >= 11 && v[i + 5] == '\\' && v[i + 6] == 'u' {
                            let l1 = hex_value(v[i + 7]);
                            let l2 = hex_value(v[i + 8]);
                            let l3 = hex_value(v[i + 9]);
                            let l4 = hex_value(v[i + 10]);
                            match (l1, l2, l3, l4) {
                                (Some(e), Some(f), Some(g), Some(h)) => {
                                    let lo: u32 = (e as u32) * 4096 + (f as u32) * 256 + (g as u32)
                                        * 16 + (h as u32);
                                    proof {
                                        assert(lo as nat == hex4(v@.skip(i as int), 7));
                                    }
                                    if 0xDC00 <= lo && lo < 0xE000 {
                                        let combined: u32 = 0x10000 + (val - 0xD800) * 0x400 + (lo
                                            - 0xDC00);
                                        proof {
                                            lemma_skip_skip(v@, i as int, 11);
                                        }
                                        match char::from_u32(combined) {
                                            Some(c2) => {
                                                proof {
                                                    vstd::utf8::char_u32_cast(c2, combined);
                                                }
                                                Some((c2, i + 11))
                                            },
                                            None => None,  // unreachable: a valid scalar
                                        }
                                    } else {
                                        None
                                    }
                                },
                                _ => None,
                            }
                        } else {
                            None
                        }
                    } else {
                        None
                    }
                },
                _ => None,
            }
        } else {
            None
        }
    } else {
        None
    }
}

/// Reads a quoted string value, as [`p_string`] describes it, returning the
/// decoded content.
fn e_string(v: &Vec<char>, i: usize) -> (r: Option<(Vec<char>, usize)>)
    requires
        i <= v@.len(),
    ensures
        match r {
            Some((out, j)) => i < j <= v@.len() && p_string(v@.skip(i as int)) == Some(
                (out@, v@.skip(j as int)),
            ),
            None => p_string(v@.skip(i as int)) is None,
        },
{
    if i >= v.len() || v[i] != '"' {
        proof {
            if i < v@.len() {
                assert(v@.skip(i as int)[0] == v@[i as int]);
            }
        }
        return None;
    }
    proof {
        assert(v@.skip(i as int)[0] == '"');
        lemma_skip_skip(v@, i as int, 1);
    }
    let mut j = i + 1;
    let mut out: Vec<char> = Vec::new();
    while j < v.len()
        invariant
            i + 1 <= j <= v@.len(),
            i < v@.len(),
            v@[i as int] == '"',
            p_string_body(v@.skip(i + 1)) == prepend_parsed(out@, p_string_body(v@.skip(j as int))),
        decreases v@.len() - j,
    {
        let c = v[j];
        proof {
            assert(v@.skip(j as int)[0] == c);
            lemma_skip_skip(v@, j as int, 1);
        }
        if c == '"' {
            proof {
                assert(p_string_body(v@.skip(j as int)) == Some(
                    (Seq::<char>::empty(), v@.skip(j + 1)),
                ));
                assert(out@ + Seq::<char>::empty() =~= out@);
                assert(v@.skip(i as int)[0] == '"');
                lemma_skip_skip(v@, i as int, 1);
            }
            return Some((out, j + 1));
        } else if c == '\\' {
            match e_escape(v, j + 1) {
                None => {
                    proof {
                        assert(p_string_body(v@.skip(j as int)) is None);
                        assert(v@.skip(i as int)[0] == '"');
                        lemma_skip_skip(v@, i as int, 1);
                    }
                    return None;
                },
                Some((c2, j2)) => {
                    proof {
                        let s = v@.skip(j as int);
                        assert(s.skip(1) == v@.skip(j + 1));
                        assert(v@.skip(j2 as int).len() < s.len());
                        assert(p_string_body(s) == prepend_parsed(
                            seq![c2],
                            p_string_body(v@.skip(j2 as int)),
                        ));
                        lemma_prepend_compose(out@, seq![c2], p_string_body(v@.skip(j2 as int)));
                        assert(out@ + seq![c2] =~= out@.push(c2));
                    }
                    out.push(c2);
                    j = j2;
                },
            }
        } else if (c as u32) < 32 {
            proof {
                assert(p_string_body(v@.skip(j as int)) is None);
                assert(v@.skip(i as int)[0] == '"');
                lemma_skip_skip(v@, i as int, 1);
            }
            return None;
        } else {
            proof {
                let s = v@.skip(j as int);
                assert(p_string_body(s) == prepend_parsed(seq![c], p_string_body(v@.skip(j + 1))));
                lemma_prepend_compose(out@, seq![c], p_string_body(v@.skip(j + 1)));
                assert(out@ + seq![c] =~= out@.push(c));
            }
            out.push(c);
            j += 1;
        }
    }
    proof {
        assert(v@.skip(j as int).len() == 0);
        assert(p_string_body(v@.skip(j as int)) is None);
        assert(v@.skip(i as int)[0] == '"');
        lemma_skip_skip(v@, i as int, 1);
    }
    None
}

/// Position after the digit run starting at `i`.
fn e_digit_run(v: &Vec<char>, i: usize) -> (j: usize)
    requires
        i <= v@.len(),
    ensures
        i <= j <= v@.len(),
        count_digits(v@.skip(i as int)) == j - i,
        forall|m: int| i as int <= m < j as int ==> is_digit(v@[m]),
{
    let mut j = i;
    while j < v.len() && digit_char_test(v[j])
        invariant
            i <= j <= v@.len(),
            forall|m: int| i as int <= m < j as int ==> is_digit(v@[m]),
            count_digits(v@.skip(i as int)) == (j - i) + count_digits(v@.skip(j as int)),
        decreases v@.len() - j,
    {
        proof {
            assert(v@.skip(j as int)[0] == v@[j as int]);
            lemma_skip_skip(v@, j as int, 1);
        }
        j += 1;
    }
    proof {
        if j < v@.len() {
            assert(v@.skip(j as int)[0] == v@[j as int]);
        }
        assert(count_digits(v@.skip(j as int)) == 0);
    }
    j
}

/// Reads a non-negative integer, as [`p_nat`] describes it.
fn e_nat(v: &Vec<char>, i: usize) -> (r: Option<(usize, usize)>)
    requires
        i <= v@.len(),
    ensures
        match r {
            Some((n, j)) => i < j <= v@.len() && p_nat(v@.skip(i as int)) == Some(
                (n as nat, v@.skip(j as int)),
            ),
            None => p_nat(v@.skip(i as int)) is None,
        },
{
    let ghost s = v@.skip(i as int);
    let k = e_digit_run(v, i);
    if k == i {
        return None;
    }
    proof {
        assert(s[0] == v@[i as int]);
    }
    if v[i] == '0' && k > i + 1 {
        return None;
    }
    let ghost ds = v@.subrange(i as int, k as int);
    proof {
        assert(s.take((k - i) as int) =~= ds);
    }
    let mut acc: usize = 0;
    let mut m = i;
    while m < k
        invariant
            i <= m <= k <= v@.len(),
            s == v@.skip(i as int),
            ds == v@.subrange(i as int, k as int),
            s.take((k - i) as int) == ds,
            count_digits(s) == (k - i) as int,
            !(s[0] == '0' && (k - i) as int > 1),
            forall|q: int| i as int <= q < k as int ==> is_digit(v@[q]),
            acc as nat == digits_val(v@.subrange(i as int, m as int)),
        decreases k - m,
    {
        let c = v[m];
        proof {
            assert(is_digit(v@[m as int]));
        }
        let d = ((c as u32) - 48) as usize;
        if acc > (usize::MAX - d) / 10 {
            proof {
                let part = v@.subrange(i as int, (m + 1) as int);
                assert(part.drop_last() =~= v@.subrange(i as int, m as int));
                assert(part.last() == v@[m as int]);
                assert(digits_val(part) == acc as nat * 10 + d as nat);
                assert(usize::MAX - d < (((usize::MAX - d) / 10) + 1) * 10) by {
                    assert((usize::MAX - d) / 10 * 10 + (usize::MAX - d) % 10 == usize::MAX - d);
                };
                assert(acc as nat * 10 + d as nat > usize::MAX as nat) by {
                    assert(acc >= (usize::MAX - d) / 10 + 1);
                };
                lemma_digits_val_mono(ds, (m + 1 - i) as int);
                assert(ds.take((m + 1 - i) as int) =~= part);
                assert(digits_val(ds) > usize::MAX as nat);
            }
            return None;
        }
        acc = acc * 10 + d;
        proof {
            let part = v@.subrange(i as int, (m + 1) as int);
            assert(part.drop_last() =~= v@.subrange(i as int, m as int));
            assert(part.last() == v@[m as int]);
        }
        m += 1;
    }
    proof {
        assert(v@.subrange(i as int, k as int) == ds);
        assert(digits_val(s.take((k - i) as int)) == acc as nat);
        lemma_skip_skip(v@, i as int, (k - i) as int);
        assert(s.skip((k - i) as int) == v@.skip(k as int));
    }
    Some((acc, k))
}

/// A prefix of a digit string never exceeds the whole string's value.
proof fn lemma_digits_val_mono(ds: Seq<char>, m: int)
    requires
        0 <= m <= ds.len(),
    ensures
        digits_val(ds.take(m)) <= digits_val(ds),
    decreases ds.len(),
{
    if m < ds.len() {
        lemma_digits_val_mono(ds.drop_last(), m);
        assert(ds.drop_last().take(m) =~= ds.take(m));
        assert(digits_val(ds) == digits_val(ds.drop_last()) * 10 + dig_val(ds.last()));
        assert(digits_val(ds.drop_last()) * 10 >= digits_val(ds.drop_last()));
    } else {
        assert(ds.take(m) =~= ds);
    }
}

/// Consumes one JSON number, as [`p_skip_number`] describes it.
#[verifier::rlimit(100)]
fn e_skip_number(v: &Vec<char>, i: usize) -> (r: Option<usize>)
    requires
        i <= v@.len(),
    ensures
        match r {
            Some(j) => i < j <= v@.len() && p_skip_number(v@.skip(i as int)) == Some(
                v@.skip(j as int),
            ),
            None => p_skip_number(v@.skip(i as int)) is None,
        },
{
    let ghost s = v@.skip(i as int);
    let minus = i < v.len() && v[i] == '-';
    proof {
        if i < v@.len() {
            assert(s[0] == v@[i as int]);
        }
        if minus {
            lemma_skip_skip(v@, i as int, 1);
        }
    }
    let i0 = if minus {
        i + 1
    } else {
        i
    };
    let ghost r0 = if s.len() > 0 && s[0] == '-' {
        s.skip(1)
    } else {
        s
    };
    proof {
        assert(r0 == v@.skip(i0 as int));
    }
    let k = e_digit_run(v, i0);
    if k == i0 {
        return None;
    }
    proof {
        assert(r0[0] == v@[i0 as int]);
    }
    if v[i0] == '0' && k > i0 + 1 {
        return None;
    }
    proof {
        lemma_skip_skip(v@, i0 as int, (k - i0) as int);
        assert(r0.skip((k - i0) as int) == v@.skip(k as int));
    }
    let ghost r1 = v@.skip(k as int);
    let mut j = k;
    if j < v.len() && v[j] == '.' {
        proof {
            assert(r1[0] == v@[j as int]);
            lemma_skip_skip(v@, j as int, 1);
        }
        let kf = e_digit_run(v, j + 1);
        if kf == j + 1 {
            return None;
        }
        proof {
            lemma_skip_skip(v@, j as int, (1 + kf - (j + 1)) as int);
            assert(r1.skip(1 + (kf - (j + 1)) as int) == v@.skip(kf as int));
        }
        j = kf;
    } else {
        proof {
            if j < v@.len() {
                assert(r1[0] == v@[j as int]);
            }
        }
    }
    let ghost r2 = v@.skip(j as int);
    if j < v.len() && (v[j] == 'e' || v[j] == 'E') {
        proof {
            assert(r2[0] == v@[j as int]);
            assert(forall|q: int| 0 <= q < v@.len() - j ==> r2[q] == v@[j + q]);
        }
        let sign = j + 1 < v.len() && (v[j + 1] == '+' || v[j + 1] == '-');
        proof {
            if sign {
                lemma_skip_skip(v@, j as int, 2);
            } else {
                lemma_skip_skip(v@, j as int, 1);
            }
        }
        let j2 = if sign {
            j + 2
        } else {
            j + 1
        };
        let ke = e_digit_run(v, j2);
        if ke == j2 {
            return None;
        }
        proof {
            lemma_skip_skip(v@, j2 as int, (ke - j2) as int);
        }
        Some(ke)
    } else {
        proof {
            if j < v@.len() {
                assert(r2[0] == v@[j as int]);
            }
        }
        Some(j)
    }
}

/// Consumes one well-formed JSON value, as [`p_skip_value`] describes it.
fn e_skip_value(v: &Vec<char>, i: usize) -> (r: Option<usize>)
    requires
        i <= v@.len(),
    ensures
        match r {
            Some(j) => i < j <= v@.len() && p_skip_value(v@.skip(i as int)) == Some(
                v@.skip(j as int),
            ),
            None => p_skip_value(v@.skip(i as int)) is None,
        },
    decreases v@.len() - i, 0int,
{
    if i >= v.len() {
        return None;
    }
    let c = v[i];
    proof {
        assert(v@.skip(i as int)[0] == c);
        assert(forall|q: int| 0 <= q < v@.len() - i ==> v@.skip(i as int)[q] == v@[i + q]);
        lemma_skip_skip(v@, i as int, 1);
    }
    if c == '"' {
        match e_string(v, i) {
            None => None,
            Some((cv, j)) => Some(j),
        }
    } else if c == '{' {
        let j0 = e_skip_ws(v, i + 1);
        if j0 < v.len() && v[j0] == '}' {
            proof {
                assert(v@.skip(j0 as int)[0] == '}');
                lemma_skip_skip(v@, j0 as int, 1);
            }
            Some(j0 + 1)
        } else {
            proof {
                if j0 < v@.len() {
                    assert(v@.skip(j0 as int)[0] == v@[j0 as int]);
                }
                assert(v@.skip(j0 as int).len() < v@.skip(i as int).len());
            }
            e_skip_members(v, j0)
        }
    } else if c == '[' {
        let j0 = e_skip_ws(v, i + 1);
        if j0 < v.len() && v[j0] == ']' {
            proof {
                assert(v@.skip(j0 as int)[0] == ']');
                lemma_skip_skip(v@, j0 as int, 1);
            }
            Some(j0 + 1)
        } else {
            proof {
                if j0 < v@.len() {
                    assert(v@.skip(j0 as int)[0] == v@[j0 as int]);
                }
                assert(v@.skip(j0 as int).len() < v@.skip(i as int).len());
            }
            e_skip_elements(v, j0)
        }
    } else if c == 't' {
        if v.len() - i >= 4 && v[i + 1] == 'r' && v[i + 2] == 'u' && v[i + 3] == 'e' {
            proof {
                lemma_skip_skip(v@, i as int, 4);
            }
            Some(i + 4)
        } else {
            None
        }
    } else if c == 'f' {
        if v.len() - i >= 5 && v[i + 1] == 'a' && v[i + 2] == 'l' && v[i + 3] == 's' && v[i + 4]
            == 'e' {
            proof {
                lemma_skip_skip(v@, i as int, 5);
            }
            Some(i + 5)
        } else {
            None
        }
    } else if c == 'n' {
        if v.len() - i >= 4 && v[i + 1] == 'u' && v[i + 2] == 'l' && v[i + 3] == 'l' {
            proof {
                lemma_skip_skip(v@, i as int, 4);
            }
            Some(i + 4)
        } else {
            None
        }
    } else if c == '-' || digit_char_test(c) {
        e_skip_number(v, i)
    } else {
        None
    }
}

/// Consumes the members of a skipped object, as [`p_skip_members`] describes
/// them.
fn e_skip_members(v: &Vec<char>, i: usize) -> (r: Option<usize>)
    requires
        i <= v@.len(),
    ensures
        match r {
            Some(j) => i < j <= v@.len() && p_skip_members(v@.skip(i as int)) == Some(
                v@.skip(j as int),
            ),
            None => p_skip_members(v@.skip(i as int)) is None,
        },
    decreases v@.len() - i, 1int,
{
    match e_string(v, i) {
        None => None,
        Some((key, j1)) => {
            let j2 = e_skip_ws(v, j1);
            if j2 >= v.len() || v[j2] != ':' {
                proof {
                    if j2 < v@.len() {
                        assert(v@.skip(j2 as int)[0] == v@[j2 as int]);
                    }
                }
                return None;
            }
            proof {
                assert(v@.skip(j2 as int)[0] == ':');
                lemma_skip_skip(v@, j2 as int, 1);
            }
            let j3 = e_skip_ws(v, j2 + 1);
            proof {
                assert(v@.skip(j3 as int).len() < v@.skip(i as int).len());
            }
            match e_skip_value(v, j3) {
                None => None,
                Some(j4) => {
                    let j5 = e_skip_ws(v, j4);
                    if j5 < v.len() && v[j5] == ',' {
                        proof {
                            assert(v@.skip(j5 as int)[0] == ',');
                            lemma_skip_skip(v@, j5 as int, 1);
                        }
                        let j6 = e_skip_ws(v, j5 + 1);
                        proof {
                            assert(v@.skip(j6 as int).len() < v@.skip(i as int).len());
                        }
                        e_skip_members(v, j6)
                    } else if j5 < v.len() && v[j5] == '}' {
                        proof {
                            assert(v@.skip(j5 as int)[0] == '}');
                            lemma_skip_skip(v@, j5 as int, 1);
                        }
                        Some(j5 + 1)
                    } else {
                        proof {
                            if j5 < v@.len() {
                                assert(v@.skip(j5 as int)[0] == v@[j5 as int]);
                            }
                        }
                        None
                    }
                },
            }
        },
    }
}

/// Consumes the elements of a skipped array, as [`p_skip_elements`]
/// describes them.
fn e_skip_elements(v: &Vec<char>, i: usize) -> (r: Option<usize>)
    requires
        i <= v@.len(),
    ensures
        match r {
            Some(j) => i < j <= v@.len() && p_skip_elements(v@.skip(i as int)) == Some(
                v@.skip(j as int),
            ),
            None => p_skip_elements(v@.skip(i as int)) is None,
        },
    decreases v@.len() - i, 1int,
{
    match e_skip_value(v, i) {
        None => None,
        Some(j1) => {
            let j2 = e_skip_ws(v, j1);
            if j2 < v.len() && v[j2] == ',' {
                proof {
                    assert(v@.skip(j2 as int)[0] == ',');
                    lemma_skip_skip(v@, j2 as int, 1);
                }
                let j3 = e_skip_ws(v, j2 + 1);
                proof {
                    assert(v@.skip(j3 as int).len() < v@.skip(i as int).len());
                }
                e_skip_elements(v, j3)
            } else if j2 < v.len() && v[j2] == ']' {
                proof {
                    assert(v@.skip(j2 as int)[0] == ']');
                    lemma_skip_skip(v@, j2 as int, 1);
                }
                Some(j2 + 1)
            } else {
                proof {
                    if j2 < v@.len() {
                        assert(v@.skip(j2 as int)[0] == v@[j2 as int]);
                    }
                }
                None
            }
        },
    }
}

/// Whether the decoded key is `id`.
fn is_id_key(key: &Vec<char>) -> (r: bool)
    ensures
        r == (key@ == seq!['i', 'd']),
{
    let r = key.len() == 2 && key[0] == 'i' && key[1] == 'd';
    proof {
        if r {
            assert(key@ =~= seq!['i', 'd']);
        } else if key@ == seq!['i', 'd'] {
            assert(key@.len() == 2);
            assert(key@[0] == 'i');
            assert(key@[1] == 'd');
        }
    }
    r
}

/// Whether the decoded key is `content`.
fn is_content_key(key: &Vec<char>) -> (r: bool)
    ensures
        r == (key@ == seq!['c', 'o', 'n', 't', 'e', 'n', 't']),
{
    let r = key.len() == 7 && key[0] == 'c' && key[1] == 'o' && key[2] == 'n' && key[3] == 't'
        && key[4] == 'e' && key[5] == 'n' && key[6] == 't';
    proof {
        let w = seq!['c', 'o', 'n', 't', 'e', 'n', 't'];
        if r {
            assert(key@ =~= w);
        } else if key@ == w {
            assert(key@.len() == 7);
            assert(key@[0] == 'c');
            assert(key@[1] == 'o');
            assert(key@[2] == 'n');
            assert(key@[3] == 't');
            assert(key@[4] == 'e');
            assert(key@[5] == 'n');
            assert(key@[6] == 't');
        }
    }
    r
}

/// Whether the decoded key is `status`.
fn is_status_key(key: &Vec<char>) -> (r: bool)
    ensures
        r == (key@ == seq!['s', 't', 'a', 't', 'u', 's']),
{
    let r = key.len() == 6 && key[0] == 's' && key[1] == 't' && key[2] == 'a' && key[3] == 't'
        && key[4] == 'u' && key[5] == 's';
    proof {
        let w = seq!['s', 't', 'a', 't', 'u', 's'];
        if r {
            assert(key@ =~= w);
        } else if key@ == w {
            assert(key@.len() == 6);
            assert(key@[0] == 's');
            assert(key@[1] == 't');
            assert(key@[2] == 'a');
            assert(key@[3] == 't');
            assert(key@[4] == 'u');
            assert(key@[5] == 's');
        }
    }
    r
}

/// The status spelled by decoded string content, if any.
fn status_from_chars(cs: &Vec<char>) -> (r: Option<TodoStatus>)
    ensures
        r == status_of(cs@),
{
    if cs.len() == 4 && cs[0] == 'O' && cs[1] == 'p' && cs[2] == 'e' && cs[3] == 'n' {
        proof {
            assert(cs@ =~= status_chars(TodoStatus::Open));
        }
        Some(TodoStatus::Open)
    } else if cs.len() == 10 && cs[0] == 'I' && cs[1] == 'n' && cs[2] == 'P' && cs[3] == 'r'
        && cs[4] == 'o' && cs[5] == 'g' && cs[6] == 'r' && cs[7] == 'e' && cs[8] == 's' && cs[9]
        == 's' {
        proof {
            assert(cs@ =~= status_chars(TodoStatus::InProgress));
        }
        Some(TodoStatus::InProgress)
    } else if cs.len() == 4 && cs[0] == 'D' && cs[1] == 'o' && cs[2] == 'n' && cs[3] == 'e' {
        proof {
            assert(cs@ =~= status_chars(TodoStatus::Done));
        }
        Some(TodoStatus::Done)
    } else {
        proof {
            if cs@ == status_chars(TodoStatus::Open) {
                assert(cs@.len() == 4);
                assert(cs@[0] == 'O' && cs@[1] == 'p' && cs@[2] == 'e' && cs@[3] == 'n');
            }
            if cs@ == status_chars(TodoStatus::InProgress) {
                assert(cs@.len() == 10);
                assert(cs@[0] == 'I' && cs@[1] == 'n' && cs@[2] == 'P' && cs@[3] == 'r' && cs@[4]
                    == 'o' && cs@[5] == 'g' && cs@[6] == 'r' && cs@[7] == 'e' && cs@[8] == 's'
                    && cs@[9] == 's');
            }
            if cs@ == status_chars(TodoStatus::Done) {
                assert(cs@.len() == 4);
                assert(cs@[0] == 'D' && cs@[1] == 'o' && cs@[2] == 'n' && cs@[3] == 'e');
            }
        }
        None
    }
}

/// The fields of one task object collected so far while reading.
struct TaskAcc {
    id: Option<usize>,
    content: Option<Vec<char>>,
    status: Option<TodoStatus>,
}

/// The [`FieldSet`] a [`TaskAcc`] stands for.
spec fn acc_model(a: TaskAcc) -> FieldSet {
    FieldSet {
        id: match a.id {
            Some(n) => Some(n as nat),
            None => None,
        },
        content: match a.content {
            Some(v) => Some(v@),
            None => None,
        },
        status: a.status,
    }
}

/// Reads one `key: value` pair into `acc`, as [`p_field`] describes it.
fn e_field(v: &Vec<char>, i: usize, acc: TaskAcc) -> (r: Option<(TaskAcc, usize)>)
    requires
        i <= v@.len(),
    ensures
        match r {
            Some((a2, j)) => i < j <= v@.len() && p_field(v@.skip(i as int), acc_model(acc))
                == Some((acc_model(a2), v@.skip(j as int))),
            None => p_field(v@.skip(i as int), acc_model(acc)) is None,
        },
{
    let ghost s = v@.skip(i as int);
    let ghost am = acc_model(acc);
    match e_string(v, i) {
        None => None,
        Some((key, j1)) => {
            let j2 = e_skip_ws(v, j1);
            if j2 >= v.len() || v[j2] != ':' {
                proof {
                    if j2 < v@.len() {
                        assert(v@.skip(j2 as int)[0] == v@[j2 as int]);
                    }
                }
                return None;
            }
            proof {
                assert(v@.skip(j2 as int)[0] == ':');
                lemma_skip_skip(v@, j2 as int, 1);
            }
            let j3 = e_skip_ws(v, j2 + 1);
            if is_id_key(&key) {
                if acc.id.is_some() {
                    return None;
                }
                match e_nat(v, j3) {
                    None => None,
                    Some((n, j4)) => {
                        let a2 = TaskAcc { id: Some(n), ..acc };
                        proof {
                            assert(acc_model(a2) =~= (FieldSet { id: Some(n as nat), ..am }));
                        }
                        Some((a2, j4))
                    },
                }
            } else if is_content_key(&key) {
                if acc.content.is_some() {
                    return None;
                }
                match e_string(v, j3) {
                    None => None,
                    Some((cv, j4)) => {
                        let ghost cvs = cv@;
                        let a2 = TaskAcc { content: Some(cv), ..acc };
                        proof {
                            assert(acc_model(a2) =~= (FieldSet { content: Some(cvs), ..am }));
                        }
                        Some((a2, j4))
                    },
                }
            } else if is_status_key(&key) {
                if acc.status.is_some() {
                    return None;
                }
                match e_string(v, j3) {
                    None => None,
                    Some((sv, j4)) => match status_from_chars(&sv) {
                        None => None,
                        Some(st) => {
                            let a2 = TaskAcc { status: Some(st), ..acc };
                            proof {
                                assert(acc_model(a2) =~= (FieldSet { status: Some(st), ..am }));
                            }
                            Some((a2, j4))
                        },
                    },
                }
            } else {
                match e_skip_value(v, j3) {
                    None => None,
                    Some(j4) => Some((acc, j4)),
                }
            }
        },
    }
}

/// Reads fields into `acc` up to the closing brace, as [`p_fields`]
/// describes them.
fn e_fields(v: &Vec<char>, i: usize, acc: TaskAcc) -> (r: Option<(TaskAcc, usize)>)
    requires
        i <= v@.len(),
    ensures
        match r {
            Some((a2, j)) => i < j <= v@.len() && p_fields(v@.skip(i as int), acc_model(acc))
                == Some((acc_model(a2), v@.skip(j as int))),
            None => p_fields(v@.skip(i as int), acc_model(acc)) is None,
        },
    decreases v@.len() - i,
{
    match e_field(v, i, acc) {
        None => None,
        Some((a1, j1)) => {
            let j1b = e_skip_ws(v, j1);
            if j1b < v.len() && v[j1b] == ',' {
                proof {
                    assert(v@.skip(j1b as int)[0] == ',');
                    lemma_skip_skip(v@, j1b as int, 1);
                }
                let j2 = e_skip_ws(v, j1b + 1);
                proof {
                    assert(v@.skip(j2 as int).len() < v@.skip(i as int).len());
                }
                e_fields(v, j2, a1)
            } else if j1b < v.len() && v[j1b] == '}' {
                proof {
                    assert(v@.skip(j1b as int)[0] == '}');
                    lemma_skip_skip(v@, j1b as int, 1);
                }
                Some((a1, j1b + 1))
            } else {
                proof {
                    if j1b < v@.len() {
                        assert(v@.skip(j1b as int)[0] == v@[j1b as int]);
                    }
                }
                None
            }
        },
    }
}

/// Reads one task object, as [`p_object`] describes it.
fn e_object(v: &Vec<char>, i: usize) -> (r: Option<(Todo, usize)>)
    requires
        i <= v@.len(),
    ensures
        match r {
            Some((t, j)) => i < j <= v@.len() && p_object(v@.skip(i as int)) == Some(
                (t@, v@.skip(j as int)),
            ),
            None => p_object(v@.skip(i as int)) is None,
        },
{
    if i >= v.len() || v[i] != '{' {
        proof {
            if i < v@.len() {
                assert(v@.skip(i as int)[0] == v@[i as int]);
            }
        }
        return None;
    }
    proof {
        assert(v@.skip(i as int)[0] == '{');
        lemma_skip_skip(v@, i as int, 1);
    }
    let j0 = e_skip_ws(v, i + 1);
    let acc0 = TaskAcc { id: None, content: None, status: None };
    proof {
        assert(acc_model(acc0) =~= (FieldSet { id: None, content: None, status: None }));
    }
    match e_fields(v, j0, acc0) {
        None => None,
        Some((a, j)) => match (a.id, a.content, a.status) {
            (Some(id), Some(content), Some(st)) => {
                let cs = chars_to_string(&content);
                let mut todo = Todo::new(id, cs.as_str());
                todo.set_status(st);
                proof {
                    assert(todo@ =~= (TaskModel { id: id as nat, content: content@, status: st }));
                }
                Some((todo, j))
            },
            _ => None,
        },
    }
}

/// Reads one or more comma-separated task objects, as [`p_items`] describes
/// them.
fn e_items(v: &Vec<char>, i: usize) -> (r: Option<(Vec<Todo>, usize)>)
    requires
        i <= v@.len(),
    ensures
        match r {
            Some((ts, j)) => i <= j <= v@.len() && p_items(v@.skip(i as int)) == Some(
                (ts@.map_values(|t: Todo| t@), v@.skip(j as int)),
            ),
            None => p_items(v@.skip(i as int)) is None,
        },
    decreases v@.len() - i,
{
    match e_object(v, i) {
        None => None,
        Some((t, j)) => {
            let ghost tm = t@;
            let j1 = e_skip_ws(v, j);
            if j1 < v.len() && v[j1] == ',' {
                proof {
                    assert(v@.skip(j1 as int)[0] == ',');
                    lemma_skip_skip(v@, j1 as int, 1);
                }
                let j2 = e_skip_ws(v, j1 + 1);
                proof {
                    assert(v@.skip(j2 as int).len() < v@.skip(i as int).len());
                }
                match e_items(v, j2) {
                    None => None,
                    Some((ts, j3)) => {
                        let mut ts = ts;
                        let ghost old_ts = ts@;
                        ts.insert(0, t);
                        proof {
                            assert(ts@.map_values(|t: Todo| t@) =~= seq![tm] + old_ts.map_values(
                                |t: Todo| t@,
                            ));
                        }
                        Some((ts, j3))
                    },
                }
            } else {
                proof {
                    if j1 < v@.len() {
                        assert(v@.skip(j1 as int)[0] == v@[j1 as int]);
                    }
                }
                let mut ts: Vec<Todo> = Vec::new();
                ts.push(t);
                proof {
                    assert(ts@.map_values(|t: Todo| t@) =~= seq![tm]);
                }
                Some((ts, j1))
            }
        },
    }
}

/// Reads a task array in square brackets, as [`p_array`] describes it.
fn e_array(v: &Vec<char>, i: usize) -> (r: Option<(Vec<Todo>, usize)>)
    requires
        i <= v@.len(),
    ensures
        match r {
            Some((ts, j)) => i <= j <= v@.len() && p_array(v@.skip(i as int)) == Some(
                (ts@.map_values(|t: Todo| t@), v@.skip(j as int)),
            ),
            None => p_array(v@.skip(i as int)) is None,
        },
{
    if i >= v.len() || v[i] != '[' {
        proof {
            if i < v@.len() {
                assert(v@.skip(i as int)[0] == v@[i as int]);
            }
        }
        return None;
    }
    proof {
        assert(v@.skip(i as int)[0] == '[');
        lemma_skip_skip(v@, i as int, 1);
    }
    let j0 = e_skip_ws(v, i + 1);
    if j0 < v.len() && v[j0] == ']' {
        proof {
            assert(v@.skip(j0 as int)[0] == ']');
            lemma_skip_skip(v@, j0 as int, 1);
            assert(Seq::<Todo>::empty().map_values(|t: Todo| t@) =~= Seq::<TaskModel>::empty());
        }
        let ts: Vec<Todo> = Vec::new();
        return Some((ts, j0 + 1));
    }
    proof {
        if j0 < v@.len() {
            assert(v@.skip(j0 as int)[0] == v@[j0 as int]);
        }
    }
    match e_items(v, j0) {
        None => None,
        Some((ts, j1)) => {
            if j1 >= v.len() || v[j1] != ']' {
                proof {
                    if j1 < v@.len() {
                        assert(v@.skip(j1 as int)[0] == v@[j1 as int]);
                    }
                }
                return None;
            }
            proof {
                assert(v@.skip(j1 as int)[0] == ']');
                lemma_skip_skip(v@, j1 as int, 1);
            }
            Some((ts, j1 + 1))
        },
    }
}

/// The characters of `s`, in order.
fn str_to_chars(s: &str) -> (r: Vec<char>)
    ensures
        r@ == s@,
{
    let n = s.unicode_len();
    let mut out: Vec<char> = Vec::new();
    let mut i: usize = 0;
    while i < n
        invariant
            0 <= i <= n,
            n == s@.len(),
            out@ == s@.take(i as int),
        decreases n - i,
    {
        let c = s.get_char(i);
        out.push(c);
        proof {
            assert(out@ =~= s@.take(i + 1));
        }
        i += 1;
    }
    proof {
        assert(s@.take(n as int) =~= s@);
    }
    out
}

// ---------------------------------------------------------------------------
// Public entry points
// ---------------------------------------------------------------------------

/// Whether `c` has Unicode's White_Space property.
fn blank_char(c: char) -> (r: bool)
    ensures
        r == is_unicode_ws(c),
{
    let u = c as u32;
    u == 0x9 || u == 0xA || u == 0xB || u == 0xC || u == 0xD || u == 0x20 || u == 0x85
        || u == 0xA0 || u == 0x1680 || (0x2000 <= u && u <= 0x200A) || u == 0x2028 || u == 0x2029
        || u == 0x202F || u == 0x205F || u == 0x3000
}

/// Position of the first character that is not Unicode whitespace, if any.
fn first_non_blank(v: &Vec<char>) -> (r: Option<usize>)
    ensures
        match r {
            Some(i) => i < v@.len() && !is_unicode_ws(v@[i as int]),
            None => is_blank(v@),
        },
{
    let mut i: usize = 0;
    while i < v.len()
        invariant
            0 <= i <= v@.len(),
            forall|j: int| 0 <= j < i as int ==> is_unicode_ws(#[trigger] v@[j]),
        decreases v@.len() - i,
    {
        if !blank_char(v[i]) {
            return Some(i);
        }
        i += 1;
    }
    None
}

/// Parses durable text into a task list, exactly as [`p_doc`] gives the
/// text's meaning: `Some` of the task sequence the text denotes — the empty
/// sequence for a blank document — and `None` exactly when the text is not
/// in the format.
pub fn parse_todos(text: &str) -> (r: Option<Vec<Todo>>)
    ensures
        match r {
            Some(ts) => p_doc(text@) == Some(ts@.map_values(|t: Todo| t@)),
            None => p_doc(text@) is None,
        },
{
    let v = str_to_chars(text);
    match first_non_blank(&v) {
        None => {
            proof {
                assert(Seq::<Todo>::empty().map_values(|t: Todo| t@)
                    =~= Seq::<TaskModel>::empty());
            }
            let ts: Vec<Todo> = Vec::new();
            Some(ts)
        },
        Some(nb) => {
            proof {
                assert(!is_blank(v@)) by {
                    assert(!is_unicode_ws(v@[nb as int]));
                }
            }
            let j0 = e_skip_ws(&v, 0);
            proof {
                assert(v@.skip(0) =~= v@);
            }
            if j0 >= v.len() {
                proof {
                    assert(skip_ws(v@).len() == 0);
                }
                return None;
            }
            match e_array(&v, j0) {
                None => None,
                Some((ts, j1)) => {
                    let j2 = e_skip_ws(&v, j1);
                    if j2 < v.len() {
                        return None;
                    }
                    proof {
                        assert(skip_ws(v@.skip(j1 as int)).len() == 0);
                    }
                    Some(ts)
                },
            }
        },
    }
}

/// Serializes the given tasks into the durable text format. Encoding a
/// task list never fails.
pub fn serialize_todos(todos: &Vec<&Todo>) -> (r: String)
    ensures
        r@ == tasks_chars(todos@.map_values(|t: &Todo| t@)),
{
    let ghost models = todos@.map_values(|t: &Todo| t@);
    let mut out: Vec<char> = Vec::new();
    out.push('[');
    let mut i: usize = 0;
    while i < todos.len()
        invariant
            0 <= i <= todos.len(),
            models == todos@.map_values(|t: &Todo| t@),
            out@ == seq!['['] + items_chars(models.take(i as int)),
        decreases todos.len() - i,
    {
        if i > 0 {
            out.push(',');
        }
        push_task(&mut out, todos[i]);
        proof {
            lemma_items_chars_snoc(models.take(i as int), models[i as int]);
            assert(models.take(i + 1) =~= models.take(i as int).push(models[i as int]));
            assert(out@ =~= seq!['['] + items_chars(models.take(i + 1)));
        }
        i += 1;
    }
    out.push(']');
    proof {
        assert(models.take(models.len() as int) =~= models);
        assert(out@ =~= tasks_chars(models));
    }
    chars_to_string(&out)
}

} // verus!
