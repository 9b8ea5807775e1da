//! The line protocol: one JSON object per line describing a task, read
//! into the task model and written back out.
//!
//! Reading is lenient where the protocol allows it: fields may come in
//! any order, unknown fields are skipped whole, optional fields accept
//! `null`, and strings accept the JSON escapes (`\uXXXX` only for
//! ASCII code points). Writing is canonical: every field in a fixed
//! order, `null` for the absent ones, and the `eta` as the canonical
//! RFC-3339 text.

use vstd::prelude::*;

use crate::dates::spec_parse_rfc3339;
use crate::dates::spec_format_ms;
use crate::task::MAX_ETA_MS;
use crate::task::SettingsView;
use crate::task::TaskView;
use crate::text::all_digits;
use crate::text::digit_of;
use crate::text::digits_val;
use crate::text::is_digit;

verus! {

/// JSON whitespace.
pub open spec fn is_ws(c: char) -> bool {
    c == ' ' || c == '\t' || c == '\r' || c == '\n'
}

/// The first index at or after `i` holding no whitespace.
pub open spec fn skip_ws(s: Seq<char>, i: int) -> int
    decreases s.len() - i,
{
    if 0 <= i < s.len() && is_ws(s[i]) {
        skip_ws(s, i + 1)
    } else {
        i
    }
}

/// A hexadecimal digit.
pub open spec fn is_hex(c: char) -> bool {
    is_digit(c) || (97 <= c as int <= 102) || (65 <= c as int <= 70)
}

/// The value of a hexadecimal digit.
pub open spec fn hex_val(c: char) -> int {
    if is_digit(c) {
        c as int - 48
    } else if 97 <= c as int <= 102 {
        c as int - 87
    } else {
        c as int - 55
    }
}

/// The string content starting at `i` (just after the opening quote):
/// the decoded characters and the index after the closing quote.
/// Unescaped control characters are refused, as are `\uXXXX` escapes
/// beyond ASCII.
pub open spec fn parse_string_chars(s: Seq<char>, i: int) -> Option<(Seq<char>, int)>
    decreases s.len() - i,
{
    if i < 0 || i >= s.len() {
        None
    } else if s[i] == '"' {
        Some((Seq::empty(), i + 1))
    } else if s[i] == '\\' {
        if i + 1 >= s.len() {
            None
        } else {
            let e = s[i + 1];
            if e == 'u' {
                if i + 6 <= s.len() && is_hex(s[i + 2]) && is_hex(s[i + 3]) && is_hex(s[i + 4])
                    && is_hex(s[i + 5]) {
                    let code = hex_val(s[i + 2]) * 4096 + hex_val(s[i + 3]) * 256 + hex_val(
                        s[i + 4],
                    ) * 16 + hex_val(s[i + 5]);
                    if code < 128 {
                        match parse_string_chars(s, i + 6) {
                            Some((v, j)) => Some((seq![code as char] + v, j)),
                            None => None,
                        }
                    } else {
                        None
                    }
                } else {
                    None
                }
            } else {
                let c = if e == '"' {
                    Some('"')
                } else if e == '\\' {
                    Some('\\')
                } else if e == '/' {
                    Some('/')
                } else if e == 'n' {
                    Some('\n')
                } else if e == 't' {
                    Some('\t')
                } else if e == 'r' {
                    Some('\r')
                } else if e == 'b' {
                    Some(8u8 as char)
                } else if e == 'f' {
                    Some(12u8 as char)
                } else {
                    None
                };
                match c {
                    None => None,
                    Some(c) => match parse_string_chars(s, i + 2) {
                        Some((v, j)) => Some((seq![c] + v, j)),
                        None => None,
                    },
                }
            }
        }
    } else if (s[i] as int) < 32 {
        None
    } else {
        match parse_string_chars(s, i + 1) {
            Some((v, j)) => Some((seq![s[i]] + v, j)),
            None => None,
        }
    }
}

/// A quoted string at `i`: the decoded characters and the index after
/// the closing quote.
pub open spec fn parse_string_at(s: Seq<char>, i: int) -> Option<(Seq<char>, int)> {
    if 0 <= i < s.len() && s[i] == '"' {
        parse_string_chars(s, i + 1)
    } else {
        None
    }
}

/// The first index at or after `i` past the digits there.
pub open spec fn digits_end(s: Seq<char>, i: int) -> int
    decreases s.len() - i,
{
    if 0 <= i < s.len() && is_digit(s[i]) {
        digits_end(s, i + 1)
    } else {
        i
    }
}

/// An unsigned decimal number at `i`: its value and the index after
/// its digits.
pub open spec fn parse_uint_at(s: Seq<char>, i: int) -> Option<(int, int)> {
    let end = digits_end(s, i);
    if end > i {
        Some((digits_val(s.subrange(i, end)), end))
    } else {
        None
    }
}

/// A decimal number at `i`, with an optional leading minus sign.
pub open spec fn parse_int_at(s: Seq<char>, i: int) -> Option<(int, int)> {
    if 0 <= i < s.len() && s[i] == '-' {
        match parse_uint_at(s, i + 1) {
            Some((v, j)) => Some((-v, j)),
            None => None,
        }
    } else {
        parse_uint_at(s, i)
    }
}

/// A character an unquoted JSON atom (number, `true`, `false`,
/// `null`) may contain.
pub open spec fn is_atom_char(c: char) -> bool {
    is_digit(c) || (97 <= c as int <= 122) || (65 <= c as int <= 90) || c == '+' || c == '-' || c
        == '.'
}

/// The first index at or after `i` past the atom characters there.
pub open spec fn atom_end(s: Seq<char>, i: int) -> int
    decreases s.len() - i,
{
    if 0 <= i < s.len() && is_atom_char(s[i]) {
        atom_end(s, i + 1)
    } else {
        i
    }
}

/// The index just after the string whose opening quote precedes `i`,
/// honoring backslash escapes but not decoding them: enough to step
/// over a string that is being ignored.
pub open spec fn raw_string_end(s: Seq<char>, i: int, esc: bool) -> Option<int>
    decreases s.len() - i,
{
    if i < 0 || i >= s.len() {
        None
    } else if esc {
        raw_string_end(s, i + 1, false)
    } else if s[i] == '\\' {
        raw_string_end(s, i + 1, true)
    } else if s[i] == '"' {
        Some(i + 1)
    } else {
        raw_string_end(s, i + 1, false)
    }
}

/// The index just after the bracketed group that opened before `i`
/// with `depth` brackets pending: enough to step over an object or
/// array that is being ignored. Strings inside are honored; bracket
/// kinds are not told apart.
pub open spec fn skip_group(s: Seq<char>, i: int, depth: int, in_str: bool, esc: bool) -> Option<
    int,
>
    decreases s.len() - i,
{
    if i < 0 || i >= s.len() {
        None
    } else if in_str {
        if esc {
            skip_group(s, i + 1, depth, true, false)
        } else if s[i] == '\\' {
            skip_group(s, i + 1, depth, true, true)
        } else if s[i] == '"' {
            skip_group(s, i + 1, depth, false, false)
        } else {
            skip_group(s, i + 1, depth, true, false)
        }
    } else if s[i] == '"' {
        skip_group(s, i + 1, depth, true, false)
    } else if s[i] == '{' || s[i] == '[' {
        skip_group(s, i + 1, depth + 1, false, false)
    } else if s[i] == '}' || s[i] == ']' {
        if depth == 1 {
            Some(i + 1)
        } else {
            skip_group(s, i + 1, depth - 1, false, false)
        }
    } else {
        skip_group(s, i + 1, depth, false, false)
    }
}

/// The index just after the JSON value at `i`, whatever it is: the
/// step over a field this library does not interpret.
pub open spec fn skip_value(s: Seq<char>, i: int) -> Option<int> {
    if i < 0 || i >= s.len() {
        None
    } else if s[i] == '"' {
        raw_string_end(s, i + 1, false)
    } else if s[i] == '{' || s[i] == '[' {
        skip_group(s, i + 1, 1, false, false)
    } else if is_atom_char(s[i]) {
        Some(atom_end(s, i))
    } else {
        None
    }
}

/// The fields of a task object while it is being read; `None` is a
/// field not seen yet.
pub ghost struct PartialTask {
    pub queue: Option<int>,
    pub id: Option<Seq<char>>,
    pub eta: Option<int>,
    pub task_type: Option<int>,
    pub payload: Option<Seq<char>>,
    pub settings: Option<SettingsView>,
}

pub open spec fn empty_partial_task() -> PartialTask {
    PartialTask { queue: None, id: None, eta: None, task_type: None, payload: None, settings: None }
}

pub open spec fn empty_settings_view() -> SettingsView {
    SettingsView {
        repeat_interval: None,
        retries: None,
        url: None,
        headers: None,
        method: None,
        function_name: None,
    }
}

/// Steps over `null` at `i`.
pub open spec fn parse_null_at(s: Seq<char>, i: int) -> Option<int> {
    if i + 4 <= s.len() && s[i] == 'n' && s[i + 1] == 'u' && s[i + 2] == 'l' && s[i + 3] == 'l' {
        Some(i + 4)
    } else {
        None
    }
}

/// One field value of the policy object, stored under its key;
/// `None` when malformed, out of range, or a duplicate.
pub open spec fn settings_field(s: Seq<char>, i: int, key: Seq<char>, acc: SettingsView) -> Option<
    (SettingsView, int),
> {
    if key == "repeat_interval"@ {
        if acc.repeat_interval is Some {
            None
        } else {
            match parse_null_at(s, i) {
                Some(j) => Some((acc, j)),
                None => match parse_uint_at(s, i) {
                    Some((v, j)) => if v <= u32::MAX as int {
                        Some((SettingsView { repeat_interval: Some(v), ..acc }, j))
                    } else {
                        None
                    },
                    None => None,
                },
            }
        }
    } else if key == "retries"@ {
        if acc.retries is Some {
            None
        } else {
            match parse_null_at(s, i) {
                Some(j) => Some((acc, j)),
                None => match parse_int_at(s, i) {
                    Some((v, j)) => if i32::MIN as int <= v <= i32::MAX as int {
                        Some((SettingsView { retries: Some(v), ..acc }, j))
                    } else {
                        None
                    },
                    None => None,
                },
            }
        }
    } else if key == "url"@ {
        if acc.url is Some {
            None
        } else {
            match parse_null_at(s, i) {
                Some(j) => Some((acc, j)),
                None => match parse_string_at(s, i) {
                    Some((v, j)) => Some((SettingsView { url: Some(v), ..acc }, j)),
                    None => None,
                },
            }
        }
    } else if key == "headers"@ {
        if acc.headers is Some {
            None
        } else {
            match parse_null_at(s, i) {
                Some(j) => Some((acc, j)),
                None => match parse_string_at(s, i) {
                    Some((v, j)) => Some((SettingsView { headers: Some(v), ..acc }, j)),
                    None => None,
                },
            }
        }
    } else if key == "method"@ {
        if acc.method is Some {
            None
        } else {
            match parse_null_at(s, i) {
                Some(j) => Some((acc, j)),
                None => match parse_string_at(s, i) {
                    Some((v, j)) => Some((SettingsView { method: Some(v), ..acc }, j)),
                    None => None,
                },
            }
        }
    } else if key == "function_name"@ {
        if acc.function_name is Some {
            None
        } else {
            match parse_null_at(s, i) {
                Some(j) => Some((acc, j)),
                None => match parse_string_at(s, i) {
                    Some((v, j)) => Some((SettingsView { function_name: Some(v), ..acc }, j)),
                    None => None,
                },
            }
        }
    } else {
        match skip_value(s, i) {
            Some(j) => Some((acc, j)),
            None => None,
        }
    }
}

/// The members of the policy object from `i` (after `{` or a comma):
/// the accumulated policy and the index after the closing `}`.
pub open spec fn parse_settings_members(
    s: Seq<char>,
    i: int,
    acc: SettingsView,
    fuel: nat,
) -> Option<(SettingsView, int)>
    decreases fuel,
{
    if fuel == 0 {
        None
    } else {
        let k = skip_ws(s, i);
        match parse_string_at(s, k) {
            None => None,
            Some((key, j1)) => {
                let j2 = skip_ws(s, j1);
                if !(j2 < s.len() && s[j2] == ':') {
                    None
                } else {
                    let j3 = skip_ws(s, j2 + 1);
                    match settings_field(s, j3, key, acc) {
                        None => None,
                        Some((acc2, j4)) => {
                            let j5 = skip_ws(s, j4);
                            if j5 < s.len() && s[j5] == ',' {
                                parse_settings_members(s, j5 + 1, acc2, (fuel - 1) as nat)
                            } else if j5 < s.len() && s[j5] == '}' {
                                Some((acc2, j5 + 1))
                            } else {
                                None
                            }
                        },
                    }
                }
            },
        }
    }
}

/// The policy object at `i`: `{`, members or nothing, `}`.
pub open spec fn parse_settings_at(s: Seq<char>, i: int, fuel: nat) -> Option<(SettingsView, int)> {
    if 0 <= i < s.len() && s[i] == '{' {
        let k = skip_ws(s, i + 1);
        if k < s.len() && s[k] == '}' {
            Some((empty_settings_view(), k + 1))
        } else {
            parse_settings_members(s, i + 1, empty_settings_view(), fuel)
        }
    } else {
        None
    }
}

/// One field value of the task object, stored under its key; `None`
/// when malformed, out of range, or a duplicate. An `eta` must be a
/// string holding a readable RFC-3339 timestamp.
pub open spec fn task_field(
    s: Seq<char>,
    i: int,
    key: Seq<char>,
    acc: PartialTask,
    fuel: nat,
) -> Option<(PartialTask, int)> {
    if key == "queue"@ {
        if acc.queue is Some {
            None
        } else {
            match parse_uint_at(s, i) {
                Some((v, j)) => if v <= usize::MAX as int {
                    Some((PartialTask { queue: Some(v), ..acc }, j))
                } else {
                    None
                },
                None => None,
            }
        }
    } else if key == "id"@ {
        if acc.id is Some {
            None
        } else {
            match parse_string_at(s, i) {
                Some((v, j)) => Some((PartialTask { id: Some(v), ..acc }, j)),
                None => None,
            }
        }
    } else if key == "eta"@ {
        if acc.eta is Some {
            None
        } else {
            match parse_null_at(s, i) {
                Some(j) => Some((acc, j)),
                None => match parse_string_at(s, i) {
                    Some((v, j)) => match spec_parse_rfc3339(v) {
                        Some(t) => Some((PartialTask { eta: Some(t), ..acc }, j)),
                        None => None,
                    },
                    None => None,
                },
            }
        }
    } else if key == "task_type"@ {
        if acc.task_type is Some {
            None
        } else {
            match parse_int_at(s, i) {
                Some((v, j)) => if i32::MIN as int <= v <= i32::MAX as int {
                    Some((PartialTask { task_type: Some(v), ..acc }, j))
                } else {
                    None
                },
                None => None,
            }
        }
    } else if key == "payload"@ {
        if acc.payload is Some {
            None
        } else {
            match parse_null_at(s, i) {
                Some(j) => Some((acc, j)),
                None => match parse_string_at(s, i) {
                    Some((v, j)) => Some((PartialTask { payload: Some(v), ..acc }, j)),
                    None => None,
                },
            }
        }
    } else if key == "settings"@ {
        if acc.settings is Some {
            None
        } else {
            match parse_null_at(s, i) {
                Some(j) => Some((acc, j)),
                None => match parse_settings_at(s, i, fuel) {
                    Some((v, j)) => Some((PartialTask { settings: Some(v), ..acc }, j)),
                    None => None,
                },
            }
        }
    } else {
        match skip_value(s, i) {
            Some(j) => Some((acc, j)),
            None => None,
        }
    }
}

/// The members of the task object from `i` (after `{` or a comma).
pub open spec fn parse_task_members(s: Seq<char>, i: int, acc: PartialTask, fuel: nat) -> Option<
    (PartialTask, int),
>
    decreases fuel,
{
    if fuel == 0 {
        None
    } else {
        let k = skip_ws(s, i);
        match parse_string_at(s, k) {
            None => None,
            Some((key, j1)) => {
                let j2 = skip_ws(s, j1);
                if !(j2 < s.len() && s[j2] == ':') {
                    None
                } else {
                    let j3 = skip_ws(s, j2 + 1);
                    match task_field(s, j3, key, acc, (fuel - 1) as nat) {
                        None => None,
                        Some((acc2, j4)) => {
                            let j5 = skip_ws(s, j4);
                            if j5 < s.len() && s[j5] == ',' {
                                parse_task_members(s, j5 + 1, acc2, (fuel - 1) as nat)
                            } else if j5 < s.len() && s[j5] == '}' {
                                Some((acc2, j5 + 1))
                            } else {
                                None
                            }
                        },
                    }
                }
            },
        }
    }
}

/// The task a line of text denotes, or `None` when the line is not a
/// JSON object, a required field is missing or malformed, the `eta`
/// is unreadable, or trailing text follows the object. `queue`, `id`
/// and `task_type` are required; the rest may be absent or `null`.
pub open spec fn spec_parse_task(s: Seq<char>) -> Option<TaskView> {
    let i = skip_ws(s, 0);
    if !(i < s.len() && s[i] == '{') {
        None
    } else {
        let body = {
            let k = skip_ws(s, i + 1);
            if k < s.len() && s[k] == '}' {
                Some((empty_partial_task(), k + 1))
            } else {
                parse_task_members(s, i + 1, empty_partial_task(), s.len())
            }
        };
        match body {
            None => None,
            Some((pt, j)) => {
                let e = skip_ws(s, j);
                if e != s.len() {
                    None
                } else if pt.queue is Some && pt.id is Some && pt.task_type is Some {
                    Some(
                        TaskView {
                            queue: pt.queue->0,
                            id: pt.id->0,
                            eta: pt.eta,
                            task_type: pt.task_type->0,
                            payload: pt.payload,
                            settings: pt.settings,
                        },
                    )
                } else {
                    None
                }
            },
        }
    }
}


/// A character that is written as itself inside a quoted string.
pub open spec fn plain_char(c: char) -> bool {
    c != '"' && c != '\\' && (c as int) >= 32
}

/// Every character of `v` is written as itself.
pub open spec fn all_plain(v: Seq<char>) -> bool {
    forall|k: int| 0 <= k < v.len() ==> plain_char(#[trigger] v[k])
}

/// The hexadecimal digit character for a value in `0..16`, lower case.
pub open spec fn hex_digit_char(d: int) -> char {
    if d < 10 {
        (d + 48) as char
    } else {
        (d + 87) as char
    }
}

/// How one character is written inside a quoted string.
pub open spec fn enc_char(c: char) -> Seq<char> {
    if c == '"' {
        seq!['\\', '"']
    } else if c == '\\' {
        seq!['\\', '\\']
    } else if c == '\n' {
        seq!['\\', 'n']
    } else if c == '\t' {
        seq!['\\', 't']
    } else if c == '\r' {
        seq!['\\', 'r']
    } else if c as int == 8 {
        seq!['\\', 'b']
    } else if c as int == 12 {
        seq!['\\', 'f']
    } else if (c as int) < 32 {
        seq!['\\', 'u', '0', '0', hex_digit_char(c as int / 16), hex_digit_char(c as int % 16)]
    } else {
        seq![c]
    }
}

/// How a string's characters are written, escapes included.
pub open spec fn enc_chars(v: Seq<char>) -> Seq<char>
    decreases v.len(),
{
    if v.len() == 0 {
        Seq::empty()
    } else {
        enc_char(v[0]) + enc_chars(v.drop_first())
    }
}

/// A quoted, escaped string.
pub open spec fn enc_string(v: Seq<char>) -> Seq<char> {
    seq!['"'] + enc_chars(v) + seq!['"']
}

/// A quoted key followed by its colon; keys never need escapes.
pub open spec fn qkey(k: Seq<char>) -> Seq<char> {
    seq!['"'] + k + seq!['"', ':']
}

pub open spec fn null_text() -> Seq<char> {
    seq!['n', 'u', 'l', 'l']
}

/// A signed decimal numeral.
pub open spec fn enc_int(v: int) -> Seq<char> {
    if v < 0 {
        seq!['-'] + crate::text::dec_digits(-v)
    } else {
        crate::text::dec_digits(v)
    }
}

pub open spec fn enc_opt_uint(v: Option<int>) -> Seq<char> {
    match v {
        Some(n) => crate::text::dec_digits(n),
        None => null_text(),
    }
}

pub open spec fn enc_opt_int(v: Option<int>) -> Seq<char> {
    match v {
        Some(n) => enc_int(n),
        None => null_text(),
    }
}

pub open spec fn enc_opt_string(v: Option<Seq<char>>) -> Seq<char> {
    match v {
        Some(x) => enc_string(x),
        None => null_text(),
    }
}

/// The canonical text of a policy: every field, in a fixed order,
/// `null` for the absent ones.
pub open spec fn spec_encode_settings(sv: SettingsView) -> Seq<char> {
    seq!['{'] + qkey("repeat_interval"@) + enc_opt_uint(sv.repeat_interval) + seq![','] + qkey(
        "retries"@,
    ) + enc_opt_int(sv.retries) + seq![','] + qkey("url"@) + enc_opt_string(sv.url) + seq![',']
        + qkey("headers"@) + enc_opt_string(sv.headers) + seq![','] + qkey("method"@)
        + enc_opt_string(sv.method) + seq![','] + qkey("function_name"@) + enc_opt_string(
        sv.function_name,
    ) + seq!['}']
}

/// The canonical text of an `eta`: its RFC-3339 form, quoted.
pub open spec fn enc_opt_eta(v: Option<int>) -> Seq<char> {
    match v {
        Some(e) => seq!['"'] + spec_format_ms(e) + seq!['"'],
        None => null_text(),
    }
}

/// The canonical text of a task: one JSON object, every field in a
/// fixed order, `null` for the absent ones.
pub open spec fn spec_encode_task(v: TaskView) -> Seq<char> {
    seq!['{'] + qkey("queue"@) + crate::text::dec_digits(v.queue) + seq![','] + qkey("id"@)
        + enc_string(v.id) + seq![','] + qkey("eta"@) + enc_opt_eta(v.eta) + seq![','] + qkey(
        "task_type"@,
    ) + enc_int(v.task_type) + seq![','] + qkey("payload"@) + enc_opt_string(v.payload) + seq![
        ','
    ] + qkey("settings"@) + (match v.settings {
        Some(sv) => spec_encode_settings(sv),
        None => null_text(),
    }) + seq!['}']
}

/// Appends the characters of `lit`.
fn push_literal(out: &mut Vec<char>, lit: &str)
    ensures
        final(out)@ == old(out)@ + lit@,
{
    let chars = crate::text::str_to_chars(lit);
    let n = chars.len();
    for i in 0..n
        invariant
            n == chars@.len(),
            chars@ == lit@,
            out@ == old(out)@ + chars@.subrange(0, i as int),
    {
        out.push(chars[i]);
        proof {
            assert(out@ =~= old(out)@ + chars@.subrange(0, i + 1));
        }
    }
    proof {
        assert(out@ =~= old(out)@ + lit@);
    }
}

/// The hexadecimal digit character for `d`.
fn hex_digit_exec(d: u32) -> (r: char)
    requires
        d < 16,
    ensures
        r == hex_digit_char(d as int),
{
    if d < 10 {
        let c = (48 + (d as u8)) as char;
        proof {
            assert((48 + d) as u8 as char as int == 48 + d);
        }
        c
    } else {
        let c = (87 + (d as u8)) as char;
        proof {
            assert((87 + d) as u8 as char as int == 87 + d);
        }
        c
    }
}

/// Appends one string character, escaped as the wire format asks.
fn push_enc_char(out: &mut Vec<char>, c: char)
    ensures
        final(out)@ == old(out)@ + enc_char(c),
{
    if c == '"' {
        out.push('\\');
        out.push('"');
        proof {
            assert(out@ =~= old(out)@ + enc_char(c));
        }
    } else if c == '\\' {
        out.push('\\');
        out.push('\\');
        proof {
            assert(out@ =~= old(out)@ + enc_char(c));
        }
    } else if c == '\n' {
        out.push('\\');
        out.push('n');
        proof {
            assert(out@ =~= old(out)@ + enc_char(c));
        }
    } else if c == '\t' {
        out.push('\\');
        out.push('t');
        proof {
            assert(out@ =~= old(out)@ + enc_char(c));
        }
    } else if c == '\r' {
        out.push('\\');
        out.push('r');
        proof {
            assert(out@ =~= old(out)@ + enc_char(c));
        }
    } else if (c as u32) == 8 {
        out.push('\\');
        out.push('b');
        proof {
            assert(out@ =~= old(out)@ + enc_char(c));
        }
    } else if (c as u32) == 12 {
        out.push('\\');
        out.push('f');
        proof {
            assert(out@ =~= old(out)@ + enc_char(c));
        }
    } else if (c as u32) < 32 {
        out.push('\\');
        out.push('u');
        out.push('0');
        out.push('0');
        let code = c as u32;
        out.push(hex_digit_exec(code / 16));
        out.push(hex_digit_exec(code % 16));
        proof {
            assert(out@ =~= old(out)@ + enc_char(c));
        }
    } else {
        out.push(c);
        proof {
            assert(out@ =~= old(out)@ + enc_char(c));
        }
    }
}

/// A prefix split of the escape of a string: what is written for the
/// first `i` characters, then the escape of the rest.
proof fn lemma_enc_chars_split(v: Seq<char>, i: int)
    requires
        0 <= i < v.len(),
    ensures
        enc_chars(v.subrange(0, i + 1)) == enc_chars(v.subrange(0, i)) + enc_char(v[i]),
    decreases i,
{
    if i == 0 {
        assert(v.subrange(0, 1) =~= seq![v[0]]);
        assert(v.subrange(0, 0) =~= Seq::<char>::empty());
        assert(seq![v[0]].drop_first() =~= Seq::<char>::empty());
        assert(seq![v[0]].len() == 1 && seq![v[0]][0] == v[0]);
        assert(enc_chars(seq![v[0]]) == enc_char(v[0]) + enc_chars(seq![v[0]].drop_first()));
        assert(enc_chars(Seq::<char>::empty()) =~= Seq::<char>::empty());
        assert(enc_char(v[0]) + Seq::<char>::empty() =~= enc_char(v[0]));
        assert(enc_chars(v.subrange(0, 1)) =~= enc_chars(v.subrange(0, 0)) + enc_char(v[0]));
    } else {
        let w = v.drop_first();
        lemma_enc_chars_split(w, i - 1);
        assert(v.subrange(0, i + 1).drop_first() =~= w.subrange(0, i));
        assert(v.subrange(0, i).drop_first() =~= w.subrange(0, i - 1));
        assert(v.subrange(0, i + 1)[0] == v[0]);
        assert(v.subrange(0, i)[0] == v[0]);
        assert(enc_chars(v.subrange(0, i + 1)) == enc_char(v[0]) + enc_chars(w.subrange(0, i)));
        assert(enc_chars(v.subrange(0, i)) == enc_char(v[0]) + enc_chars(w.subrange(0, i - 1)));
        assert(w[i - 1] == v[i]);
        assert(enc_char(v[0]) + (enc_chars(w.subrange(0, i - 1)) + enc_char(v[i])) =~= (enc_char(
            v[0],
        ) + enc_chars(w.subrange(0, i - 1))) + enc_char(v[i]));
    }
}

/// Appends a quoted, escaped string.
fn push_enc_string(out: &mut Vec<char>, v: &String)
    ensures
        final(out)@ == old(out)@ + enc_string(v@),
{
    out.push('"');
    let chars = crate::text::str_to_chars(v.as_str());
    let n = chars.len();
    let ghost mid = out@;
    for i in 0..n
        invariant
            n == chars@.len(),
            chars@ == v@,
            out@ == mid + enc_chars(chars@.subrange(0, i as int)),
    {
        push_enc_char(out, chars[i]);
        proof {
            lemma_enc_chars_split(chars@, i as int);
            assert(out@ =~= mid + enc_chars(chars@.subrange(0, i + 1)));
        }
    }
    out.push('"');
    proof {
        assert(chars@.subrange(0, n as int) =~= v@);
        assert(out@ =~= old(out)@ + enc_string(v@));
    }
}

/// Appends the signed decimal numeral of `v`.
fn push_enc_i64(out: &mut Vec<char>, v: i64)
    ensures
        final(out)@ == old(out)@ + enc_int(v as int),
{
    if v < 0 {
        out.push('-');
        let m = if v == i64::MIN {
            9223372036854775808u64
        } else {
            (-v) as u64
        };
        crate::text::push_u64_chars(out, m);
        proof {
            assert(out@ =~= old(out)@ + enc_int(v as int));
        }
    } else {
        crate::text::push_u64_chars(out, v as u64);
    }
}


/// Appends `null` or the quoted, escaped string.
fn push_opt_string(out: &mut Vec<char>, v: &Option<String>)
    ensures
        final(out)@ == old(out)@ + enc_opt_string(crate::task::view_opt_string(*v)),
{
    match v {
        Some(x) => push_enc_string(out, x),
        None => push_literal(out, "null"),
    }
    proof {
        if v is None {
            reveal_strlit("null");
            assert(out@ =~= old(out)@ + null_text());
        }
    }
}

/// Appends a quoted key and its colon.
fn push_qkey(out: &mut Vec<char>, k: &str)
    ensures
        final(out)@ == old(out)@ + qkey(k@),
{
    out.push('"');
    push_literal(out, k);
    out.push('"');
    out.push(':');
    proof {
        assert(out@ =~= old(out)@ + qkey(k@));
    }
}

/// Appends `null` or the canonical quoted RFC-3339 text of an `eta`.
#[verifier::rlimit(100)]
fn push_opt_eta(out: &mut Vec<char>, eta: &Option<i64>)
    requires
        (*eta matches Some(e) ==> 0 <= e <= MAX_ETA_MS),
    ensures
        final(out)@ == old(out)@ + enc_opt_eta(
            match *eta {
                Some(e) => Some(e as int),
                None => None,
            },
        ),
{
    match eta {
        Some(e) => {
            out.push('"');
            let f = crate::dates::format_rfc3339(*e);
            let n = f.len();
            let ghost mid = out@;
            for i in 0..n
                invariant
                    n == f@.len(),
                    out@ == mid + f@.subrange(0, i as int),
            {
                out.push(f[i]);
                proof {
                    assert(out@ =~= mid + f@.subrange(0, i + 1));
                }
            }
            out.push('"');
            proof {
                assert(f@.subrange(0, n as int) =~= f@);
                assert(out@ =~= old(out)@ + enc_opt_eta(Some(*e as int)));
            }
        },
        None => {
            push_literal(out, "null");
            proof {
                reveal_strlit("null");
                assert(out@ =~= old(out)@ + null_text());
            }
        },
    }
}

/// Appends a quoted key, a colon, and `null` or an unsigned numeral.
fn push_field_u(out: &mut Vec<char>, key: &str, v: &Option<u32>)
    ensures
        final(out)@ == old(out)@ + qkey(key@) + enc_opt_uint(
            match *v {
                Some(k) => Some(k as int),
                None => None,
            },
        ),
{
    push_qkey(out, key);
    match v {
        Some(k) => crate::text::push_u64_chars(out, *k as u64),
        None => {
            push_literal(out, "null");
            proof {
                reveal_strlit("null");
            }
        },
    }
    proof {
        assert(out@ =~= old(out)@ + qkey(key@) + enc_opt_uint(
            match *v {
                Some(k) => Some(k as int),
                None => None,
            },
        ));
    }
}

/// Appends a quoted key, a colon, and `null` or a signed numeral.
fn push_field_i(out: &mut Vec<char>, key: &str, v: &Option<i32>)
    ensures
        final(out)@ == old(out)@ + qkey(key@) + enc_opt_int(
            match *v {
                Some(k) => Some(k as int),
                None => None,
            },
        ),
{
    push_qkey(out, key);
    match v {
        Some(k) => push_enc_i64(out, *k as i64),
        None => {
            push_literal(out, "null");
            proof {
                reveal_strlit("null");
            }
        },
    }
    proof {
        assert(out@ =~= old(out)@ + qkey(key@) + enc_opt_int(
            match *v {
                Some(k) => Some(k as int),
                None => None,
            },
        ));
    }
}

/// Appends a quoted key, a colon, and `null` or a quoted string.
fn push_field_s(out: &mut Vec<char>, key: &str, v: &Option<String>)
    ensures
        final(out)@ == old(out)@ + qkey(key@) + enc_opt_string(crate::task::view_opt_string(*v)),
{
    push_qkey(out, key);
    push_opt_string(out, v);
    proof {
        assert(out@ =~= old(out)@ + qkey(key@) + enc_opt_string(crate::task::view_opt_string(*v)));
    }
}

/// Appends one character; stated as concatenation.
fn push_one(out: &mut Vec<char>, c: char)
    ensures
        final(out)@ == old(out)@ + seq![c],
{
    out.push(c);
    proof {
        assert(out@ =~= old(out)@ + seq![c]);
    }
}

/// Appends the canonical text of a policy object.
#[verifier::rlimit(100)]
fn push_settings(out: &mut Vec<char>, sv: &crate::task::TaskSettings)
    ensures
        final(out)@ == old(out)@ + spec_encode_settings(sv@),
{
    let mut buf: Vec<char> = Vec::new();
    push_one(&mut buf, '{');
    proof {
        assert(Seq::<char>::empty() + seq!['{'] =~= seq!['{']);
    }
    push_field_u(&mut buf, "repeat_interval", &sv.repeat_interval);
    push_one(&mut buf, ',');
    push_field_i(&mut buf, "retries", &sv.retries);
    push_one(&mut buf, ',');
    push_field_s(&mut buf, "url", &sv.url);
    push_one(&mut buf, ',');
    push_field_s(&mut buf, "headers", &sv.headers);
    push_one(&mut buf, ',');
    push_field_s(&mut buf, "method", &sv.method);
    push_one(&mut buf, ',');
    push_field_s(&mut buf, "function_name", &sv.function_name);
    push_one(&mut buf, '}');
    assert(buf@ == spec_encode_settings(sv@));
    let n = buf.len();
    let ghost mid = out@;
    for i in 0..n
        invariant
            n == buf@.len(),
            buf@ == spec_encode_settings(sv@),
            out@ == mid + buf@.subrange(0, i as int),
    {
        out.push(buf[i]);
        proof {
            assert(out@ =~= mid + buf@.subrange(0, i + 1));
        }
    }
    proof {
        assert(buf@.subrange(0, n as int) =~= buf@);
    }
}

impl crate::task::Task {
    /// Writes the record as its canonical line-protocol text.
    #[verifier::rlimit(100)]
    pub fn to_json(&self) -> (r: String)
        requires
            crate::task::task_wf(self@),
        ensures
            r@ == spec_encode_task(self@),
    {
        let mut out: Vec<char> = Vec::new();
        out.push('{');
        push_qkey(&mut out, "queue");
        crate::text::push_u64_chars(&mut out, self.queue as u64);
        out.push(',');
        push_qkey(&mut out, "id");
        push_enc_string(&mut out, &self.id);
        let ghost mid1 = out@;
        proof {
            assert(mid1 =~= seq!['{'] + qkey("queue"@) + crate::text::dec_digits(self@.queue)
                + seq![','] + qkey("id"@) + enc_string(self@.id));
        }
        out.push(',');
        push_qkey(&mut out, "eta");
        push_opt_eta(&mut out, &self.eta);
        out.push(',');
        push_qkey(&mut out, "task_type");
        push_enc_i64(&mut out, self.task_type as i64);
        let ghost mid2 = out@;
        proof {
            assert(mid2 =~= mid1 + seq![','] + qkey("eta"@) + enc_opt_eta(self@.eta) + seq![',']
                + qkey("task_type"@) + enc_int(self@.task_type));
        }
        out.push(',');
        push_qkey(&mut out, "payload");
        push_opt_string(&mut out, &self.payload);
        out.push(',');
        push_qkey(&mut out, "settings");
        match &self.settings {
            Some(sv) => push_settings(&mut out, sv),
            None => {
                push_literal(&mut out, "null");
                proof {
                    reveal_strlit("null");
                }
            },
        }
        out.push('}');
        proof {
            assert(out@ =~= mid2 + seq![','] + qkey("payload"@) + enc_opt_string(self@.payload)
                + seq![','] + qkey("settings"@) + (match self@.settings {
                Some(sv) => spec_encode_settings(sv),
                None => null_text(),
            }) + seq!['}']);
            assert(out@ =~= spec_encode_task(self@));
        }
        crate::text::chars_to_string(&out)
    }
}


/// Whether `c` is a control character the wire format refuses raw.
fn is_control_char(c: char) -> (r: bool)
    ensures
        r == ((c as int) < 32),
{
    c < ' '
}

/// The first non-whitespace position at or after `i`.
fn skip_ws_exec(s: &Vec<char>, i: usize) -> (r: usize)
    requires
        i <= s@.len(),
    ensures
        r as int == skip_ws(s@, i as int),
        i <= r <= s@.len(),
{
    let n = s.len();
    let mut cur = i;
    while cur < n && (s[cur] == ' ' || s[cur] == '\t' || s[cur] == '\r' || s[cur] == '\n')
        invariant
            i <= cur <= n,
            n == s@.len(),
            skip_ws(s@, i as int) == skip_ws(s@, cur as int),
        decreases n - cur,
    {
        cur = cur + 1;
    }
    cur
}

/// The value of one hexadecimal digit character, or `None`.
fn hex_of(c: char) -> (r: Option<u32>)
    ensures
        (match r {
            Some(d) => is_hex(c) && d == hex_val(c) && d < 16,
            None => !is_hex(c),
        }),
{
    match c {
        '0' => Some(0),
        '1' => Some(1),
        '2' => Some(2),
        '3' => Some(3),
        '4' => Some(4),
        '5' => Some(5),
        '6' => Some(6),
        '7' => Some(7),
        '8' => Some(8),
        '9' => Some(9),
        'a' => Some(10),
        'b' => Some(11),
        'c' => Some(12),
        'd' => Some(13),
        'e' => Some(14),
        'f' => Some(15),
        'A' => Some(10),
        'B' => Some(11),
        'C' => Some(12),
        'D' => Some(13),
        'E' => Some(14),
        'F' => Some(15),
        _ => None,
    }
}

/// Decodes the string content starting just after an opening quote.
#[verifier::rlimit(100)]
fn parse_string_chars_exec(s: &Vec<char>, i: usize) -> (r: Option<(Vec<char>, usize)>)
    requires
        i <= s@.len(),
    ensures
        (match r {
            Some((v, j)) => parse_string_chars(s@, i as int) == Some((v@, j as int)) && i < j
                <= s@.len(),
            None => parse_string_chars(s@, i as int) is None,
        }),
    decreases s@.len() - i,
{
    let n = s.len();
    if i >= n {
        return None;
    }
    let c = s[i];
    if c == '"' {
        return Some((Vec::new(), i + 1));
    }
    if c == '\\' {
        if i + 1 >= n {
            return None;
        }
        let e = s[i + 1];
        if e == 'u' {
            if n - i >= 6 {
                let h1 = hex_of(s[i + 2]);
                let h2 = hex_of(s[i + 3]);
                let h3 = hex_of(s[i + 4]);
                let h4 = hex_of(s[i + 5]);
                match (h1, h2, h3, h4) {
                    (Some(a), Some(b), Some(cc), Some(d)) => {
                        let code = a * 4096 + b * 256 + cc * 16 + d;
                        if code < 128 {
                            let ch = (code as u8) as char;
                            proof {
                                assert(ch as int == code as int);
                            }
                            match parse_string_chars_exec(s, i + 6) {
                                Some((mut v, j)) => {
                                    let ghost vp = v@;
                                    v.insert(0, ch);
                                    proof {
                                        assert(v@ =~= seq![(code as int) as char] + vp);
                                    }
                                    Some((v, j))
                                },
                                None => None,
                            }
                        } else {
                            None
                        }
                    },
                    _ => None,
                }
            } else {
                None
            }
        } else {
            let dec: Option<char> = if e == '"' {
                Some('"')
            } else if e == '\\' {
                Some('\\')
            } else if e == '/' {
                Some('/')
            } else if e == 'n' {
                Some('\n')
            } else if e == 't' {
                Some('\t')
            } else if e == 'r' {
                Some('\r')
            } else if e == 'b' {
                Some(8u8 as char)
            } else if e == 'f' {
                Some(12u8 as char)
            } else {
                None
            };
            match dec {
                None => None,
                Some(ch) => match parse_string_chars_exec(s, i + 2) {
                    Some((mut v, j)) => {
                        let ghost vp = v@;
                        v.insert(0, ch);
                        proof {
                            assert(v@ =~= seq![ch] + vp);
                        }
                        Some((v, j))
                    },
                    None => None,
                },
            }
        }
    } else if is_control_char(c) {
        None
    } else {
        match parse_string_chars_exec(s, i + 1) {
            Some((mut v, j)) => {
                let ghost vp = v@;
                v.insert(0, c);
                proof {
                    assert(v@ =~= seq![c] + vp);
                }
                Some((v, j))
            },
            None => None,
        }
    }
}

/// Decodes a quoted string at `i`.
fn parse_string_exec(s: &Vec<char>, i: usize) -> (r: Option<(Vec<char>, usize)>)
    requires
        i <= s@.len(),
    ensures
        (match r {
            Some((v, j)) => parse_string_at(s@, i as int) == Some((v@, j as int)) && i < j
                <= s@.len(),
            None => parse_string_at(s@, i as int) is None,
        }),
{
    if i < s.len() && s[i] == '"' {
        parse_string_chars_exec(s, i + 1)
    } else {
        None
    }
}

/// Reads the unsigned number at `i`: the index after its digits, and
/// its value when that value fits 64 bits.
fn parse_uint_exec(s: &Vec<char>, i: usize) -> (r: Option<(Option<u64>, usize)>)
    requires
        i <= s@.len(),
    ensures
        (match parse_uint_at(s@, i as int) {
            Some((v, end)) => r matches Some((ov, e2)) && e2 == end && i < e2 <= s@.len() && (if v
                <= u64::MAX as int {
                ov == Some(v as u64)
            } else {
                ov is None
            }),
            None => r is None,
        }),
        (r matches Some((ov, e2)) ==> (ov matches Some(u) ==> parse_uint_at(s@, i as int) == Some(
            (u as int, e2 as int),
        ))),
{
    let n = s.len();
    let mut cur = i;
    let mut value: u64 = 0;
    let mut over = false;
    while cur < n && digit_of(s[cur]).is_some()
        invariant
            i <= cur <= n,
            n == s@.len(),
            all_digits(s@.subrange(i as int, cur as int)),
            digits_end(s@, i as int) == digits_end(s@, cur as int),
            !over ==> value == digits_val(s@.subrange(i as int, cur as int)),
            over ==> digits_val(s@.subrange(i as int, cur as int)) > u64::MAX as int,
        decreases n - cur,
    {
        let d = match digit_of(s[cur]) {
            Some(d) => d,
            None => unreached(),
        };
        proof {
            let p = s@.subrange(i as int, cur as int);
            let q = s@.subrange(i as int, cur + 1);
            assert(q.drop_last() =~= p);
            assert(q.last() == s@[cur as int]);
            assert forall|k: int| 0 <= k < q.len() implies is_digit(#[trigger] q[k]) by {
                if k < p.len() {
                    assert(q[k] == p[k]);
                }
            }
            assert(digits_val(q) == digits_val(p) * 10 + d);
        }
        if over {
            proof {
                let p = s@.subrange(i as int, cur as int);
                assert(digits_val(p) * 10 + d > u64::MAX as int) by (nonlinear_arith)
                    requires
                        digits_val(p) > u64::MAX as int,
                        d >= 0,
                ;
            }
        } else if value > (u64::MAX - d) / 10 {
            over = true;
            proof {
                let p = s@.subrange(i as int, cur as int);
                assert(digits_val(p) * 10 + d > u64::MAX as int) by (nonlinear_arith)
                    requires
                        digits_val(p) == value as int,
                        value > (u64::MAX - d) / 10,
                        0 <= d <= 9,
                        value <= u64::MAX,
                ;
            }
        } else {
            value = value * 10 + d;
        }
        cur = cur + 1;
    }
    proof {
        assert(digits_end(s@, cur as int) == cur as int);
    }
    if cur == i {
        return None;
    }
    if over {
        Some((None, cur))
    } else {
        Some((Some(value), cur))
    }
}

/// Reads the number at `i`, with an optional minus sign: the index
/// after it, and its value when that value fits 64 bits.
fn parse_int_exec(s: &Vec<char>, i: usize) -> (r: Option<(Option<i64>, usize)>)
    requires
        i <= s@.len(),
    ensures
        (match parse_int_at(s@, i as int) {
            Some((v, end)) => r matches Some((ov, e2)) && e2 == end && i < e2 <= s@.len() && (if
                i64::MIN as int <= v <= i64::MAX as int {
                ov == Some(v as i64)
            } else {
                ov is None
            }),
            None => r is None,
        }),
{
    if i < s.len() && s[i] == '-' {
        match parse_uint_exec(s, i + 1) {
            Some((ov, end)) => {
                let w: Option<i64> = match ov {
                    Some(v) => {
                        if v < 9223372036854775808u64 {
                            Some(-(v as i64))
                        } else if v == 9223372036854775808u64 {
                            Some(i64::MIN)
                        } else {
                            None
                        }
                    },
                    None => None,
                };
                proof {
                    let sr = parse_int_at(s@, i as int);
                    assert(sr is Some);
                    let (v, e) = sr->0;
                    assert(e == end as int);
                    if i64::MIN as int <= v <= i64::MAX as int {
                        assert(w == Some(v as i64));
                    } else {
                        assert(w is None);
                    }
                }
                Some((w, end))
            },
            None => None,
        }
    } else {
        match parse_uint_exec(s, i) {
            Some((ov, end)) => {
                let w: Option<i64> = match ov {
                    Some(v) => if v <= i64::MAX as u64 {
                        Some(v as i64)
                    } else {
                        None
                    },
                    None => None,
                };
                Some((w, end))
            },
            None => None,
        }
    }
}

/// Steps over `null` at `i`.
fn parse_null_exec(s: &Vec<char>, i: usize) -> (r: Option<usize>)
    requires
        i <= s@.len(),
    ensures
        (match r {
            Some(j) => parse_null_at(s@, i as int) == Some(j as int) && i < j <= s@.len(),
            None => parse_null_at(s@, i as int) is None,
        }),
{
    let n = s.len();
    if i < n && n - i >= 4 && s[i] == 'n' && s[i + 1] == 'u' && s[i + 2] == 'l' && s[i + 3]
        == 'l' {
        Some(i + 4)
    } else {
        None
    }
}

/// Steps over the JSON value at `i`, whatever it is.
fn skip_value_exec(s: &Vec<char>, i: usize) -> (r: Option<usize>)
    requires
        i <= s@.len(),
    ensures
        (match r {
            Some(j) => skip_value(s@, i as int) == Some(j as int) && i < j <= s@.len(),
            None => skip_value(s@, i as int) is None,
        }),
{
    let n = s.len();
    if i >= n {
        return None;
    }
    let c = s[i];
    if c == '"' {
        let mut cur = i + 1;
        let mut esc = false;
        loop
            invariant
                i + 1 <= cur <= n,
                n == s@.len(),
                i < n,
                s@[i as int] == '"',
                raw_string_end(s@, i + 1, false) == raw_string_end(s@, cur as int, esc),
            decreases n - cur,
        {
            if cur >= n {
                return None;
            }
            if esc {
                esc = false;
                cur = cur + 1;
            } else if s[cur] == '\\' {
                esc = true;
                cur = cur + 1;
            } else if s[cur] == '"' {
                return Some(cur + 1);
            } else {
                cur = cur + 1;
            }
        }
    } else if c == '{' || c == '[' {
        let mut cur = i + 1;
        let mut depth: u128 = 1;
        let mut in_str = false;
        let mut esc = false;
        loop
            invariant
                i + 1 <= cur <= n,
                n == s@.len(),
                i < n,
                (s@[i as int] == '{' || s@[i as int] == '['),
                1 <= depth,
                !in_str ==> esc == false,
                skip_group(s@, i + 1, 1, false, false) == skip_group(
                    s@,
                    cur as int,
                    depth as int,
                    in_str,
                    esc,
                ),
                depth as int <= cur - i,
            decreases n - cur,
        {
            if cur >= n {
                return None;
            }
            let c2 = s[cur];
            if in_str {
                if esc {
                    esc = false;
                } else if c2 == '\\' {
                    esc = true;
                } else if c2 == '"' {
                    in_str = false;
                }
                cur = cur + 1;
            } else if c2 == '"' {
                in_str = true;
                cur = cur + 1;
            } else if c2 == '{' || c2 == '[' {
                depth = depth + 1;
                cur = cur + 1;
            } else if c2 == '}' || c2 == ']' {
                if depth == 1 {
                    return Some(cur + 1);
                }
                depth = depth - 1;
                cur = cur + 1;
            } else {
                cur = cur + 1;
            }
        }
    } else {
        let is_atom = digit_of(c).is_some() || (c >= 'a' && c <= 'z') || (c >= 'A' && c <= 'Z')
            || c == '+' || c == '-' || c == '.';
        if !is_atom {
            proof {
                assert(!is_atom_char(s@[i as int]));
            }
            return None;
        }
        let mut cur = i;
        while cur < n && (digit_of(s[cur]).is_some() || (s[cur] >= 'a' && s[cur] <= 'z') || (
        s[cur] >= 'A' && s[cur] <= 'Z') || s[cur] == '+' || s[cur] == '-' || s[cur] == '.')
            invariant
                i <= cur <= n,
                n == s@.len(),
                i < n,
                is_atom_char(s@[i as int]),
                (s@[i as int] != '"' && s@[i as int] != '{' && s@[i as int] != '['),
                atom_end(s@, i as int) == atom_end(s@, cur as int),
            decreases n - cur,
        {
            proof {
                assert(is_atom_char(s@[cur as int]));
            }
            cur = cur + 1;
        }
        proof {
            assert(atom_end(s@, cur as int) == cur as int);
            assert(atom_end(s@, i as int) > i as int) by {
                assert(is_atom_char(s@[i as int]));
            }
        }
        Some(cur)
    }
}


/// Whether the characters equal the text of `lit`.
pub(crate) fn chars_eq_lit(key: &Vec<char>, lit: &str) -> (r: bool)
    ensures
        r == (key@ == lit@),
{
    let other = crate::text::str_to_chars(lit);
    if key.len() != other.len() {
        proof {
            assert(key@ != lit@);
        }
        return false;
    }
    let n = key.len();
    for i in 0..n
        invariant
            n == key@.len() == other@.len(),
            other@ == lit@,
            forall|k: int| 0 <= k < i ==> key@[k] == #[trigger] other@[k],
    {
        if key[i] != other[i] {
            return false;
        }
    }
    proof {
        assert(key@ =~= lit@);
    }
    true
}

/// One field value of the policy object, stored under its key.
#[verifier::rlimit(100)]
fn settings_field_exec(
    s: &Vec<char>,
    i: usize,
    key: &Vec<char>,
    acc: crate::task::TaskSettings,
) -> (r: Option<(crate::task::TaskSettings, usize)>)
    requires
        i <= s@.len(),
    ensures
        (match r {
            Some((acc2, j)) => settings_field(s@, i as int, key@, acc@) == Some((acc2@, j as int))
                && i < j <= s@.len(),
            None => settings_field(s@, i as int, key@, acc@) is None,
        }),
{
    if chars_eq_lit(key, "repeat_interval") {
        if acc.repeat_interval.is_some() {
            return None;
        }
        match parse_null_exec(s, i) {
            Some(j) => Some((acc, j)),
            None => match parse_uint_exec(s, i) {
                Some((ov, j)) => {
                    match ov {
                        Some(v) => if v <= u32::MAX as u64 {
                            Some(
                                (
                                    crate::task::TaskSettings {
                                        repeat_interval: Some(v as u32),
                                        ..acc
                                    },
                                    j,
                                ),
                            )
                        } else {
                            None
                        },
                        None => None,
                    }
                },
                None => None,
            },
        }
    } else if chars_eq_lit(key, "retries") {
        if acc.retries.is_some() {
            return None;
        }
        match parse_null_exec(s, i) {
            Some(j) => Some((acc, j)),
            None => match parse_int_exec(s, i) {
                Some((ov, j)) => {
                    match ov {
                        Some(v) => if i32::MIN as i64 <= v && v <= i32::MAX as i64 {
                            Some((crate::task::TaskSettings { retries: Some(v as i32), ..acc }, j))
                        } else {
                            None
                        },
                        None => None,
                    }
                },
                None => None,
            },
        }
    } else if chars_eq_lit(key, "url") {
        if acc.url.is_some() {
            return None;
        }
        match parse_null_exec(s, i) {
            Some(j) => Some((acc, j)),
            None => match parse_string_exec(s, i) {
                Some((v, j)) => Some(
                    (
                        crate::task::TaskSettings {
                            url: Some(crate::text::chars_to_string(&v)),
                            ..acc
                        },
                        j,
                    ),
                ),
                None => None,
            },
        }
    } else if chars_eq_lit(key, "headers") {
        if acc.headers.is_some() {
            return None;
        }
        match parse_null_exec(s, i) {
            Some(j) => Some((acc, j)),
            None => match parse_string_exec(s, i) {
                Some((v, j)) => Some(
                    (
                        crate::task::TaskSettings {
                            headers: Some(crate::text::chars_to_string(&v)),
                            ..acc
                        },
                        j,
                    ),
                ),
                None => None,
            },
        }
    } else if chars_eq_lit(key, "method") {
        if acc.method.is_some() {
            return None;
        }
        match parse_null_exec(s, i) {
            Some(j) => Some((acc, j)),
            None => match parse_string_exec(s, i) {
                Some((v, j)) => Some(
                    (
                        crate::task::TaskSettings {
                            method: Some(crate::text::chars_to_string(&v)),
                            ..acc
                        },
                        j,
                    ),
                ),
                None => None,
            },
        }
    } else if chars_eq_lit(key, "function_name") {
        if acc.function_name.is_some() {
            return None;
        }
        match parse_null_exec(s, i) {
            Some(j) => Some((acc, j)),
            None => match parse_string_exec(s, i) {
                Some((v, j)) => Some(
                    (
                        crate::task::TaskSettings {
                            function_name: Some(crate::text::chars_to_string(&v)),
                            ..acc
                        },
                        j,
                    ),
                ),
                None => None,
            },
        }
    } else {
        match skip_value_exec(s, i) {
            Some(j) => Some((acc, j)),
            None => None,
        }
    }
}

/// The members of the policy object from `i`.
fn parse_settings_members_exec(
    s: &Vec<char>,
    i: usize,
    acc: crate::task::TaskSettings,
    fuel: usize,
) -> (r: Option<(crate::task::TaskSettings, usize)>)
    requires
        i <= s@.len(),
    ensures
        (match r {
            Some((acc2, j)) => parse_settings_members(s@, i as int, acc@, fuel as nat) == Some(
                (acc2@, j as int),
            ) && j <= s@.len(),
            None => parse_settings_members(s@, i as int, acc@, fuel as nat) is None,
        }),
    decreases fuel,
{
    if fuel == 0 {
        return None;
    }
    let k = skip_ws_exec(s, i);
    let (key, j1) = match parse_string_exec(s, k) {
        Some(p) => p,
        None => {
            return None;
        },
    };
    let j2 = skip_ws_exec(s, j1);
    if !(j2 < s.len() && s[j2] == ':') {
        return None;
    }
    let j3 = skip_ws_exec(s, j2 + 1);
    let (acc2, j4) = match settings_field_exec(s, j3, &key, acc) {
        Some(p) => p,
        None => {
            return None;
        },
    };
    let j5 = skip_ws_exec(s, j4);
    if j5 < s.len() && s[j5] == ',' {
        parse_settings_members_exec(s, j5 + 1, acc2, fuel - 1)
    } else if j5 < s.len() && s[j5] == '}' {
        Some((acc2, j5 + 1))
    } else {
        None
    }
}

/// The policy object at `i`.
fn parse_settings_exec(s: &Vec<char>, i: usize, fuel: usize) -> (r: Option<
    (crate::task::TaskSettings, usize),
>)
    requires
        i <= s@.len(),
    ensures
        (match r {
            Some((v, j)) => parse_settings_at(s@, i as int, fuel as nat) == Some((v@, j as int))
                && j <= s@.len(),
            None => parse_settings_at(s@, i as int, fuel as nat) is None,
        }),
{
    if i < s.len() && s[i] == '{' {
        let k = skip_ws_exec(s, i + 1);
        let empty = crate::task::TaskSettings {
            repeat_interval: None,
            retries: None,
            url: None,
            headers: None,
            method: None,
            function_name: None,
        };
        if k < s.len() && s[k] == '}' {
            proof {
                assert(empty@ == empty_settings_view());
            }
            Some((empty, k + 1))
        } else {
            parse_settings_members_exec(s, i + 1, empty, fuel)
        }
    } else {
        None
    }
}

/// The fields of a task object while it is being read.
struct TaskDraft {
    queue: Option<usize>,
    id: Option<String>,
    eta: Option<i64>,
    task_type: Option<i32>,
    payload: Option<String>,
    settings: Option<crate::task::TaskSettings>,
}

impl View for TaskDraft {
    type V = PartialTask;

    closed spec fn view(&self) -> PartialTask {
        PartialTask {
            queue: match self.queue {
                Some(q) => Some(q as int),
                None => None,
            },
            id: match self.id {
                Some(ref v) => Some(v@),
                None => None,
            },
            eta: match self.eta {
                Some(e) => Some(e as int),
                None => None,
            },
            task_type: match self.task_type {
                Some(t) => Some(t as int),
                None => None,
            },
            payload: match self.payload {
                Some(ref v) => Some(v@),
                None => None,
            },
            settings: match self.settings {
                Some(ref v) => Some(v@),
                None => None,
            },
        }
    }
}

/// One field value of the task object, stored under its key.
#[verifier::rlimit(100)]
fn task_field_exec(s: &Vec<char>, i: usize, key: &Vec<char>, acc: TaskDraft, fuel: usize) -> (r:
    Option<(TaskDraft, usize)>)
    requires
        i <= s@.len(),
    ensures
        (match r {
            Some((acc2, j)) => task_field(s@, i as int, key@, acc@, fuel as nat) == Some(
                (acc2@, j as int),
            ) && j <= s@.len() && (acc2@.eta matches Some(e) ==> 0 <= e <= MAX_ETA_MS as int || (
            acc@.eta matches Some(e0) && e0 == e)),
            None => task_field(s@, i as int, key@, acc@, fuel as nat) is None,
        }),
{
    if chars_eq_lit(key, "queue") {
        if acc.queue.is_some() {
            return None;
        }
        match parse_uint_exec(s, i) {
            Some((ov, j)) => {
                match ov {
                    Some(v) => {
                        if v <= usize::MAX as u64 {
                            Some((TaskDraft { queue: Some(v as usize), ..acc }, j))
                        } else {
                            None
                        }
                    },
                    None => {
                        proof {
                            assert(parse_uint_at(s@, i as int) matches Some((v, _j)) && v
                                > u64::MAX as int);
                        }
                        None
                    },
                }
            },
            None => None,
        }
    } else if chars_eq_lit(key, "id") {
        if acc.id.is_some() {
            return None;
        }
        match parse_string_exec(s, i) {
            Some((v, j)) => Some(
                (TaskDraft { id: Some(crate::text::chars_to_string(&v)), ..acc }, j),
            ),
            None => None,
        }
    } else if chars_eq_lit(key, "eta") {
        if acc.eta.is_some() {
            return None;
        }
        match parse_null_exec(s, i) {
            Some(j) => Some((acc, j)),
            None => match parse_string_exec(s, i) {
                Some((v, j)) => match crate::dates::parse_rfc3339(&v) {
                    Some(t) => Some((TaskDraft { eta: Some(t), ..acc }, j)),
                    None => None,
                },
                None => None,
            },
        }
    } else if chars_eq_lit(key, "task_type") {
        if acc.task_type.is_some() {
            return None;
        }
        match parse_int_exec(s, i) {
            Some((ov, j)) => {
                match ov {
                    Some(v) => if i32::MIN as i64 <= v && v <= i32::MAX as i64 {
                        Some((TaskDraft { task_type: Some(v as i32), ..acc }, j))
                    } else {
                        None
                    },
                    None => None,
                }
            },
            None => None,
        }
    } else if chars_eq_lit(key, "payload") {
        if acc.payload.is_some() {
            return None;
        }
        match parse_null_exec(s, i) {
            Some(j) => Some((acc, j)),
            None => match parse_string_exec(s, i) {
                Some((v, j)) => Some(
                    (TaskDraft { payload: Some(crate::text::chars_to_string(&v)), ..acc }, j),
                ),
                None => None,
            },
        }
    } else if chars_eq_lit(key, "settings") {
        if acc.settings.is_some() {
            return None;
        }
        match parse_null_exec(s, i) {
            Some(j) => Some((acc, j)),
            None => match parse_settings_exec(s, i, fuel) {
                Some((v, j)) => Some((TaskDraft { settings: Some(v), ..acc }, j)),
                None => None,
            },
        }
    } else {
        match skip_value_exec(s, i) {
            Some(j) => Some((acc, j)),
            None => None,
        }
    }
}

/// The members of the task object from `i`.
fn parse_task_members_exec(s: &Vec<char>, i: usize, acc: TaskDraft, fuel: usize) -> (r: Option<
    (TaskDraft, usize),
>)
    requires
        i <= s@.len(),
        (acc@.eta matches Some(e) ==> 0 <= e <= MAX_ETA_MS as int),
    ensures
        (match r {
            Some((acc2, j)) => parse_task_members(s@, i as int, acc@, fuel as nat) == Some(
                (acc2@, j as int),
            ) && j <= s@.len() && (acc2@.eta matches Some(e) ==> 0 <= e <= MAX_ETA_MS as int),
            None => parse_task_members(s@, i as int, acc@, fuel as nat) is None,
        }),
    decreases fuel,
{
    if fuel == 0 {
        return None;
    }
    let k = skip_ws_exec(s, i);
    let (key, j1) = match parse_string_exec(s, k) {
        Some(p) => p,
        None => {
            return None;
        },
    };
    let j2 = skip_ws_exec(s, j1);
    if !(j2 < s.len() && s[j2] == ':') {
        return None;
    }
    let j3 = skip_ws_exec(s, j2 + 1);
    let (acc2, j4) = match task_field_exec(s, j3, &key, acc, fuel - 1) {
        Some(p) => p,
        None => {
            return None;
        },
    };
    let j5 = skip_ws_exec(s, j4);
    if j5 < s.len() && s[j5] == ',' {
        parse_task_members_exec(s, j5 + 1, acc2, fuel - 1)
    } else if j5 < s.len() && s[j5] == '}' {
        Some((acc2, j5 + 1))
    } else {
        None
    }
}

impl crate::task::Task {
    /// Reads one line of the protocol into a task. `None` is a line the
    /// session logs and skips: not a single JSON object, a missing or
    /// malformed required field, an unreadable `eta`, or a value out of
    /// range.
    #[verifier::rlimit(100)]
    pub fn from_str(line: &str) -> (r: Option<crate::task::Task>)
        ensures
            (match r {
                Some(t) => spec_parse_task(line@) == Some(t@) && crate::task::task_wf(t@),
                None => spec_parse_task(line@) is None,
            }),
    {
        let s = crate::text::str_to_chars(line);
        let i = skip_ws_exec(&s, 0);
        if !(i < s.len() && s[i] == '{') {
            return None;
        }
        let empty = TaskDraft {
            queue: None,
            id: None,
            eta: None,
            task_type: None,
            payload: None,
            settings: None,
        };
        proof {
            assert(empty@ == empty_partial_task());
        }
        let k = skip_ws_exec(&s, i + 1);
        let body: Option<(TaskDraft, usize)> = if k < s.len() && s[k] == '}' {
            Some((empty, k + 1))
        } else {
            parse_task_members_exec(&s, i + 1, empty, s.len())
        };
        let (draft, j) = match body {
            Some(p) => p,
            None => {
                return None;
            },
        };
        let e = skip_ws_exec(&s, j);
        if e != s.len() {
            return None;
        }
        match (draft.queue, draft.id, draft.task_type) {
            (Some(queue), Some(id), Some(task_type)) => {
                let t = crate::task::Task {
                    queue,
                    id,
                    eta: draft.eta,
                    task_type,
                    payload: draft.payload,
                    settings: draft.settings,
                };
                Some(t)
            },
            _ => None,
        }
    }
}


/// `w` stands letter for letter at position `i` of `s`.
pub open spec fn sub_at(s: Seq<char>, i: int, w: Seq<char>) -> bool {
    0 <= i && i + w.len() <= s.len() && s.subrange(i, i + w.len()) == w
}

/// Each letter of a substring is at its offset.
proof fn lemma_sub_at_index(s: Seq<char>, i: int, w: Seq<char>)
    requires
        sub_at(s, i, w),
    ensures
        forall|k: int| 0 <= k < w.len() ==> s[i + k] == #[trigger] w[k],
{
    assert forall|k: int| 0 <= k < w.len() implies s[i + k] == #[trigger] w[k] by {
        assert(s.subrange(i, i + w.len())[k] == s[i + k]);
    }
}

/// A substring of two parts is each part at its own offset.
proof fn lemma_sub_at_split(s: Seq<char>, i: int, a: Seq<char>, b: Seq<char>)
    requires
        sub_at(s, i, a + b),
    ensures
        sub_at(s, i, a),
        sub_at(s, i + a.len(), b),
{
    assert(s.subrange(i, i + a.len()) =~= a) by {
        assert forall|k: int| 0 <= k < a.len() implies s.subrange(i, i + a.len())[k] == a[k] by {
            assert(s.subrange(i, i + (a + b).len())[k] == (a + b)[k]);
        }
    }
    assert(s.subrange(i + a.len(), i + a.len() + b.len()) =~= b) by {
        assert forall|k: int|
            0 <= k < b.len() implies s.subrange(i + a.len(), i + a.len() + b.len())[k] == b[k] by {
            assert(s.subrange(i, i + (a + b).len())[a.len() + k] == (a + b)[a.len() + k]);
        }
    }
}

/// Every character's code point is a Unicode scalar value.
proof fn lemma_char_int_bounds(c: char)
    ensures
        0 <= c as int <= 0x10FFFF,
{
    vstd::utf8::char_is_scalar(c);
    vstd::utf8::char_u32_cast(c, c as u32);
    let u = c as u32;
    assert(u < 0xD800 || (0xE000 <= u && u <= 0x10FFFF));
    assert((u as char) == c);
    assert(u <= 0x10FFFF);
    assert((u as char) as int == u as int);
    assert(c as int == u as int);
}

/// A hexadecimal digit character is one, and reads back to its value.
proof fn lemma_hex_digit_char(d: int)
    requires
        0 <= d < 16,
    ensures
        is_hex(hex_digit_char(d)),
        hex_val(hex_digit_char(d)) == d,
{
    if d < 10 {
        assert((d + 48) as char as int == d + 48);
    } else {
        assert((d + 87) as char as int == d + 87);
    }
}

/// Reading a written string: the decoded content is what was written.
proof fn lemma_parse_enc_chars(s: Seq<char>, i: int, v: Seq<char>)
    requires
        sub_at(s, i, enc_chars(v) + seq!['"']),
    ensures
        parse_string_chars(s, i) == Some((v, i + enc_chars(v).len() + 1)),
    decreases v.len(),
{
    lemma_sub_at_index(s, i, enc_chars(v) + seq!['"']);
    if v.len() == 0 {
        assert(enc_chars(v) =~= Seq::<char>::empty());
        assert((enc_chars(v) + seq!['"'])[0] == '"');
        assert(s[i + 0] == (enc_chars(v) + seq!['"'])[0]);
        assert(s[i] == '"');
    } else {
        let c = v[0];
        let rest = v.drop_first();
        assert(enc_chars(v) == enc_char(c) + enc_chars(rest));
        assert((enc_char(c) + enc_chars(rest)) + seq!['"'] =~= enc_char(c) + (enc_chars(rest)
            + seq!['"']));
        lemma_sub_at_split(s, i, enc_char(c), enc_chars(rest) + seq!['"']);
        let i2 = i + enc_char(c).len();
        lemma_parse_enc_chars(s, i2, rest);
        lemma_sub_at_index(s, i, enc_char(c));
        assert(seq![c] + rest =~= v);
        if c == '"' || c == '\\' || c == '\n' || c == '\t' || c == '\r' || c as int == 8
            || c as int == 12 {
            assert(s[i] == '\\');
            assert(parse_string_chars(s, i) == Some((v, i + enc_chars(v).len() + 1)));
        } else if (c as int) < 32 {
            lemma_char_int_bounds(c);
            assert(0 <= (c as int) && (c as int) < 32);
            assert(0 <= (c as int) / 16 && (c as int) / 16 < 16);
            assert(0 <= (c as int) % 16 && (c as int) % 16 < 16);
            assert(s[i] == '\\' && s[i + 1] == 'u' && s[i + 2] == '0' && s[i + 3] == '0');
            assert(s[i + 4] == hex_digit_char(c as int / 16) && s[i + 5] == hex_digit_char(
                c as int % 16,
            ));
            lemma_hex_digit_char(c as int / 16);
            lemma_hex_digit_char(c as int % 16);
            assert(hex_val(s[i + 2]) == 0 && hex_val(s[i + 3]) == 0);
            assert(c as int / 16 * 16 + c as int % 16 == c as int);
            assert(hex_val(s[i + 2]) * 4096 + hex_val(s[i + 3]) * 256 + hex_val(s[i + 4]) * 16
                + hex_val(s[i + 5]) == c as int);
            assert((c as int) as char == c);
            assert(parse_string_chars(s, i) == Some((v, i + enc_chars(v).len() + 1)));
        } else {
            assert(s[i] == c);
            assert(parse_string_chars(s, i) == Some((v, i + enc_chars(v).len() + 1)));
        }
    }
}

/// Reading a written string, quotes included.
proof fn lemma_parse_enc_string(s: Seq<char>, i: int, v: Seq<char>)
    requires
        sub_at(s, i, enc_string(v)),
    ensures
        parse_string_at(s, i) == Some((v, i + enc_string(v).len())),
{
    assert(enc_string(v) =~= seq!['"'] + (enc_chars(v) + seq!['"']));
    lemma_sub_at_split(s, i, seq!['"'], enc_chars(v) + seq!['"']);
    lemma_sub_at_index(s, i, seq!['"']);
    assert(seq!['"'][0] == '"');
    assert(s[i + 0] == seq!['"'][0]);
    assert(s[i] == '"');
    lemma_parse_enc_chars(s, i + 1, v);
}

/// Text written as itself decodes as itself.
proof fn lemma_enc_chars_plain(v: Seq<char>)
    requires
        all_plain(v),
    ensures
        enc_chars(v) == v,
    decreases v.len(),
{
    if v.len() == 0 {
        assert(enc_chars(v) =~= v);
    } else {
        assert(plain_char(v[0]));
        assert(all_plain(v.drop_first())) by {
            assert(forall|k: int|
                0 <= k < v.drop_first().len() ==> #[trigger] v.drop_first()[k] == v[k + 1]);
        }
        lemma_enc_chars_plain(v.drop_first());
        assert(enc_char(v[0]) =~= seq![v[0]]);
        assert(enc_chars(v) =~= v);
    }
}

/// Reading a written numeral: the digits' end.
proof fn lemma_digits_end_of(s: Seq<char>, i: int, w: Seq<char>)
    requires
        sub_at(s, i, w),
        all_digits(w),
        w.len() > 0,
        i + w.len() < s.len(),
        !is_digit(s[i + w.len()]),
    ensures
        digits_end(s, i) == i + w.len(),
        s.subrange(i, i + w.len()) == w,
    decreases w.len(),
{
    lemma_sub_at_index(s, i, w);
    assert(is_digit(s[i])) by {
        assert(w[0] == s[i + 0]);
    }
    if w.len() == 1 {
        assert(digits_end(s, i + 1) == i + 1);
    } else {
        let rest = w.drop_first();
        assert(w =~= seq![w[0]] + rest);
        lemma_sub_at_split(s, i, seq![w[0]], rest);
        assert(all_digits(rest)) by {
            assert(forall|k: int| 0 <= k < rest.len() ==> #[trigger] rest[k] == w[k + 1]);
        }
        lemma_digits_end_of(s, i + 1, rest);
    }
}

/// Reading a written unsigned numeral gives back the number.
proof fn lemma_parse_uint_of(s: Seq<char>, i: int, n: int)
    requires
        n >= 0,
        sub_at(s, i, crate::text::dec_digits(n)),
        i + crate::text::dec_digits(n).len() < s.len(),
        !is_digit(s[i + crate::text::dec_digits(n).len()]),
    ensures
        parse_uint_at(s, i) == Some((n, i + crate::text::dec_digits(n).len())),
{
    let w = crate::text::dec_digits(n);
    crate::text::lemma_dec_digits_val(n);
    lemma_digits_end_of(s, i, w);
}

/// Reading a written signed numeral gives back the number.
proof fn lemma_parse_int_of(s: Seq<char>, i: int, n: int)
    requires
        sub_at(s, i, enc_int(n)),
        i + enc_int(n).len() < s.len(),
        !is_digit(s[i + enc_int(n).len()]),
    ensures
        parse_int_at(s, i) == Some((n, i + enc_int(n).len())),
{
    if n < 0 {
        let w = crate::text::dec_digits(-n);
        assert(enc_int(n) =~= seq!['-'] + w);
        lemma_sub_at_split(s, i, seq!['-'], w);
        lemma_sub_at_index(s, i, seq!['-']);
        assert(seq!['-'][0] == '-');
        assert(s[i + 0] == seq!['-'][0]);
        assert(s[i] == '-');
        lemma_parse_uint_of(s, i + 1, -n);
    } else {
        lemma_parse_uint_of(s, i, n);
        crate::text::lemma_dec_digits_val(n);
        lemma_sub_at_index(s, i, enc_int(n));
        assert(is_digit(s[i + 0]));
        assert(s[i] != '-');
    }
}

/// Reading a written `null`.
proof fn lemma_parse_null_of(s: Seq<char>, i: int)
    requires
        sub_at(s, i, null_text()),
    ensures
        parse_null_at(s, i) == Some(i + 4),
{
    lemma_sub_at_index(s, i, null_text());
    assert(s[i + 0] == 'n' && s[i + 1] == 'u' && s[i + 2] == 'l' && s[i + 3] == 'l');
}

/// Skipping no whitespace where none stands.
proof fn lemma_skip_ws_here(s: Seq<char>, i: int)
    requires
        0 <= i,
        i < s.len() ==> !is_ws(s[i]),
    ensures
        skip_ws(s, i) == i,
{
}


/// A written optional number or string starts with a digit, sign,
/// quote or `n`: never whitespace.
proof fn lemma_enc_opt_uint_first(v: Option<int>)
    requires
        (v matches Some(k) ==> k >= 0),
    ensures
        enc_opt_uint(v).len() > 0,
        !is_ws(enc_opt_uint(v)[0]),
        enc_opt_uint(v)[0] != '"',
{
    match v {
        Some(k) => {
            crate::text::lemma_dec_digits_val(k);
            assert(is_digit(enc_opt_uint(v)[0]));
        },
        None => {
            assert(enc_opt_uint(v)[0] == 'n');
        },
    }
}

/// See `lemma_enc_opt_uint_first`.
proof fn lemma_enc_opt_int_first(v: Option<int>)
    ensures
        enc_opt_int(v).len() > 0,
        !is_ws(enc_opt_int(v)[0]),
        enc_opt_int(v)[0] != '"',
{
    match v {
        Some(k) => {
            if k < 0 {
                assert(enc_int(k) =~= seq!['-'] + crate::text::dec_digits(-k));
                assert(enc_opt_int(v)[0] == '-');
            } else {
                crate::text::lemma_dec_digits_val(k);
                assert(is_digit(enc_opt_int(v)[0]));
            }
        },
        None => {
            assert(enc_opt_int(v)[0] == 'n');
        },
    }
}

/// See `lemma_enc_opt_uint_first`.
proof fn lemma_enc_opt_string_first(v: Option<Seq<char>>)
    ensures
        enc_opt_string(v).len() > 0,
        !is_ws(enc_opt_string(v)[0]),
{
    match v {
        Some(x) => {
            assert(enc_string(x)[0] == '"');
        },
        None => {
            assert(enc_opt_string(v)[0] == 'n');
        },
    }
}

/// Stepping through one written member: the key reads back and the
/// cursor stands on the value.
proof fn lemma_member_header(s: Seq<char>, p: int, key: Seq<char>, tail: Seq<char>)
    requires
        sub_at(s, p, qkey(key) + tail),
        all_plain(key),
        tail.len() > 0,
        !is_ws(tail[0]),
    ensures
        skip_ws(s, p) == p,
        parse_string_at(s, p) == Some((key, p + key.len() + 2)),
        skip_ws(s, p + key.len() + 2) == p + key.len() + 2,
        p + key.len() + 2 < s.len() && s[p + key.len() + 2] == ':',
        skip_ws(s, p + key.len() + 3) == p + key.len() + 3,
        sub_at(s, p + key.len() + 3, tail),
{
    assert(qkey(key) + tail =~= enc_string(key) + (seq![':'] + tail)) by {
        lemma_enc_chars_plain(key);
    }
    lemma_sub_at_split(s, p, enc_string(key), seq![':'] + tail);
    lemma_parse_enc_string(s, p, key);
    lemma_enc_chars_plain(key);
    assert(enc_string(key).len() == key.len() + 2);
    let q = p + key.len() + 2;
    lemma_sub_at_split(s, q, seq![':'], tail);
    lemma_sub_at_index(s, q, seq![':']);
    assert(seq![':'][0] == ':');
    assert(s[q + 0] == ':');
    lemma_sub_at_index(s, p, qkey(key) + tail);
    assert((qkey(key) + tail)[0] == '"') by {
        assert(qkey(key)[0] == '"');
    }
    assert(s[p + 0] == (qkey(key) + tail)[0]);
    assert(!is_ws(s[p]));
    lemma_sub_at_index(s, q + 1, tail);
    assert(s[q + 1 + 0] == tail[0]);
    assert(!is_ws(s[q + 1]));
}

/// The six policy keys are pairwise distinct.
proof fn lemma_settings_keys_distinct()
    ensures
        "repeat_interval"@ != "retries"@ && "repeat_interval"@ != "url"@ && "repeat_interval"@
            != "headers"@ && "repeat_interval"@ != "method"@ && "repeat_interval"@
            != "function_name"@,
        "retries"@ != "url"@ && "retries"@ != "headers"@ && "retries"@ != "method"@ && "retries"@
            != "function_name"@,
        "url"@ != "headers"@ && "url"@ != "method"@ && "url"@ != "function_name"@,
        "headers"@ != "method"@ && "headers"@ != "function_name"@,
        "method"@ != "function_name"@,
{
    reveal_strlit("repeat_interval");
    reveal_strlit("retries");
    reveal_strlit("url");
    reveal_strlit("headers");
    reveal_strlit("method");
    reveal_strlit("function_name");
    assert("repeat_interval"@.len() == 15 && "retries"@.len() == 7 && "url"@.len() == 3
        && "headers"@.len() == 7 && "method"@.len() == 6 && "function_name"@.len() == 13);
    assert("retries"@[0] == 'r' && "headers"@[0] == 'h');
}

/// The last three members of the written policy, right-associated.
pub open spec fn sett_tail_text(sv: SettingsView) -> Seq<char> {
    qkey("headers"@) + (enc_opt_string(sv.headers) + (seq![','] + (qkey("method"@) + (
    enc_opt_string(sv.method) + (seq![','] + (qkey("function_name"@) + (enc_opt_string(
        sv.function_name,
    ) + seq!['}'])))))))
}

/// The members of the written policy, right-associated.
pub open spec fn sett_body_text(sv: SettingsView) -> Seq<char> {
    qkey("repeat_interval"@) + (enc_opt_uint(sv.repeat_interval) + (seq![','] + (qkey("retries"@)
        + (enc_opt_int(sv.retries) + (seq![','] + (qkey("url"@) + (enc_opt_string(sv.url) + (seq![
        ','
    ] + sett_tail_text(sv)))))))))
}

/// One written member advances the member walk by one step: given the
/// field's own reading, the walk continues after the comma.
proof fn lemma_settings_member_step(
    s: Seq<char>,
    p: int,
    key: Seq<char>,
    vtext: Seq<char>,
    rest: Seq<char>,
    acc: SettingsView,
    acc2: SettingsView,
    fuel: nat,
)
    requires
        sub_at(s, p, qkey(key) + (vtext + (seq![','] + rest))),
        all_plain(key),
        vtext.len() > 0,
        !is_ws(vtext[0]),
        rest.len() > 0,
        !is_ws(rest[0]),
        fuel >= 1,
        settings_field(s, p + key.len() + 3, key, acc) == Some(
            (acc2, p + key.len() + 3 + vtext.len()),
        ),
    ensures
        parse_settings_members(s, p, acc, fuel) == parse_settings_members(
            s,
            p + key.len() + 3 + vtext.len() + 1,
            acc2,
            (fuel - 1) as nat,
        ),
        sub_at(s, p + key.len() + 3 + vtext.len() + 1, rest),
{
    assert((vtext + (seq![','] + rest))[0] == vtext[0]);
    lemma_member_header(s, p, key, vtext + (seq![','] + rest));
    let w = p + key.len() + 3;
    lemma_sub_at_split(s, w, vtext, seq![','] + rest);
    let d = w + vtext.len();
    lemma_sub_at_split(s, d, seq![','], rest);
    lemma_sub_at_index(s, d, seq![',']);
    assert(seq![','][0] == ',');
    assert(s[d + 0] == ',');
    assert(skip_ws(s, d) == d);
}

/// The written tail of a policy (its last three members) reads back.
#[verifier::rlimit(100)]
proof fn lemma_settings_tail(
    s: Seq<char>,
    p: int,
    acc: SettingsView,
    h: Option<Seq<char>>,
    m: Option<Seq<char>>,
    f: Option<Seq<char>>,
    fuel: nat,
)
    requires
        sub_at(
            s,
            p,
            qkey("headers"@) + (enc_opt_string(h) + (seq![','] + (qkey("method"@) + (enc_opt_string(
                m,
            ) + (seq![','] + (qkey("function_name"@) + (enc_opt_string(f) + seq!['}']))))))),
        ),
        acc.headers is None,
        acc.method is None,
        acc.function_name is None,
        fuel >= 3,
    ensures
        parse_settings_members(s, p, acc, fuel) == Some(
            (
                SettingsView { headers: h, method: m, function_name: f, ..acc },
                p + qkey("headers"@).len() + enc_opt_string(h).len() + 1 + qkey("method"@).len()
                    + enc_opt_string(m).len() + 1 + qkey("function_name"@).len() + enc_opt_string(
                    f,
                ).len() + 1,
            ),
        ),
{
    reveal_strlit("repeat_interval");
    reveal_strlit("retries");
    reveal_strlit("url");
    reveal_strlit("headers");
    reveal_strlit("method");
    reveal_strlit("function_name");
    let v5 = enc_opt_string(h);
    let v6 = enc_opt_string(m);
    let v7 = enc_opt_string(f);
    let t7 = qkey("function_name"@) + (v7 + seq!['}']);
    let t6 = qkey("method"@) + (v6 + (seq![','] + t7));
    assert(all_plain("headers"@) && all_plain("method"@) && all_plain("function_name"@));
    lemma_enc_opt_string_first(h);
    lemma_enc_opt_string_first(m);
    lemma_enc_opt_string_first(f);
    assert((v5 + (seq![','] + t6))[0] == v5[0]);
    lemma_member_header(s, p, "headers"@, v5 + (seq![','] + t6));
    let w5 = p + "headers"@.len() + 3;
    lemma_sub_at_split(s, w5, v5, seq![','] + t6);
    let acc4 = SettingsView { headers: h, ..acc };
    assert(settings_field(s, w5, "headers"@, acc) == Some((acc4, w5 + v5.len()))) by {
        lemma_settings_keys_distinct();
        lemma_opt_string_value(s, w5, h);
        if h is None {
            assert(acc4 == acc);
        }
    }
    let d5 = w5 + v5.len();
    lemma_sub_at_split(s, d5, seq![','], t6);
    lemma_sub_at_index(s, d5, seq![',']);
    assert(seq![','][0] == ',');
    assert(s[d5 + 0] == ',');
    assert(skip_ws(s, d5) == d5);
    let p6 = d5 + 1;
    assert((v6 + (seq![','] + t7))[0] == v6[0]);
    lemma_member_header(s, p6, "method"@, v6 + (seq![','] + t7));
    let w6 = p6 + "method"@.len() + 3;
    lemma_sub_at_split(s, w6, v6, seq![','] + t7);
    let acc5 = SettingsView { method: m, ..acc4 };
    assert(settings_field(s, w6, "method"@, acc4) == Some((acc5, w6 + v6.len()))) by {
        lemma_settings_keys_distinct();
        lemma_opt_string_value(s, w6, m);
        if m is None {
            assert(acc5 == acc4);
        }
    }
    let d6 = w6 + v6.len();
    lemma_sub_at_split(s, d6, seq![','], t7);
    lemma_sub_at_index(s, d6, seq![',']);
    assert(s[d6 + 0] == ',');
    assert(skip_ws(s, d6) == d6);
    let p7 = d6 + 1;
    assert((v7 + seq!['}'])[0] == v7[0]);
    lemma_member_header(s, p7, "function_name"@, v7 + seq!['}']);
    let w7 = p7 + "function_name"@.len() + 3;
    lemma_sub_at_split(s, w7, v7, seq!['}']);
    let acc6 = SettingsView { function_name: f, ..acc5 };
    assert(settings_field(s, w7, "function_name"@, acc5) == Some((acc6, w7 + v7.len()))) by {
        lemma_settings_keys_distinct();
        lemma_opt_string_value(s, w7, f);
        if f is None {
            assert(acc6 == acc5);
        }
    }
    let d7 = w7 + v7.len();
    lemma_sub_at_index(s, d7, seq!['}']);
    assert(seq!['}'][0] == '}');
    assert(s[d7 + 0] == '}');
    assert(skip_ws(s, d7) == d7);
    assert(acc6 == SettingsView { headers: h, method: m, function_name: f, ..acc });
    assert(parse_settings_members(s, p7, acc5, (fuel - 2) as nat) == Some((acc6, d7 + 1)));
    assert(parse_settings_members(s, p6, acc4, (fuel - 1) as nat) == Some((acc6, d7 + 1)));
    assert(parse_settings_members(s, p, acc, fuel) == Some((acc6, d7 + 1)));
}

/// The first three written members of a policy read back, reducing the
/// member walk to the rest of the text.
#[verifier::rlimit(100)]
proof fn lemma_settings_head(
    s: Seq<char>,
    p: int,
    acc: SettingsView,
    ri: Option<int>,
    rt: Option<int>,
    u: Option<Seq<char>>,
    rest: Seq<char>,
    fuel: nat,
)
    requires
        sub_at(
            s,
            p,
            qkey("repeat_interval"@) + (enc_opt_uint(ri) + (seq![','] + (qkey("retries"@) + (
            enc_opt_int(rt) + (seq![','] + (qkey("url"@) + (enc_opt_string(u) + (seq![',']
                + rest)))))))),
        ),
        acc.repeat_interval is None,
        acc.retries is None,
        acc.url is None,
        rest.len() > 0,
        !is_ws(rest[0]),
        (ri matches Some(k) ==> 0 <= k <= u32::MAX as int),
        (rt matches Some(r) ==> i32::MIN as int <= r <= i32::MAX as int),
        fuel >= 4,
    ensures
        parse_settings_members(s, p, acc, fuel) == parse_settings_members(
            s,
            p + qkey("repeat_interval"@).len() + enc_opt_uint(ri).len() + 1 + qkey(
                "retries"@,
            ).len() + enc_opt_int(rt).len() + 1 + qkey("url"@).len() + enc_opt_string(u).len() + 1,
            SettingsView { repeat_interval: ri, retries: rt, url: u, ..acc },
            (fuel - 3) as nat,
        ),
        sub_at(
            s,
            p + qkey("repeat_interval"@).len() + enc_opt_uint(ri).len() + 1 + qkey(
                "retries"@,
            ).len() + enc_opt_int(rt).len() + 1 + qkey("url"@).len() + enc_opt_string(u).len() + 1,
            rest,
        ),
{
    reveal_strlit("repeat_interval");
    reveal_strlit("retries");
    reveal_strlit("url");
    let v2 = enc_opt_uint(ri);
    let v3 = enc_opt_int(rt);
    let v4 = enc_opt_string(u);
    let t4 = qkey("url"@) + (v4 + (seq![','] + rest));
    let t3 = qkey("retries"@) + (v3 + (seq![','] + t4));
    assert(all_plain("repeat_interval"@) && all_plain("retries"@) && all_plain("url"@));
    lemma_enc_opt_uint_first(ri);
    lemma_enc_opt_int_first(rt);
    lemma_enc_opt_string_first(u);
    assert(t3[0] == '"' && t4[0] == '"') by {
        assert(qkey("retries"@)[0] == '"');
        assert(qkey("url"@)[0] == '"');
    }
    // repeat_interval
    let w2 = p + "repeat_interval"@.len() + 3;
    let acc1 = settings_upd_interval(acc, ri);
    let d2 = w2 + v2.len();
    assert(settings_field(s, w2, "repeat_interval"@, acc) == Some((acc1, d2))) by {
        lemma_member_header(s, p, "repeat_interval"@, v2 + (seq![','] + t3));
        lemma_sub_at_split(s, w2, v2, seq![','] + t3);
        lemma_sub_at_split(s, d2, seq![','], t3);
        lemma_sub_at_index(s, d2, seq![',']);
        assert(seq![','][0] == ',');
        assert(s[d2 + 0] == ',');
        assert(d2 < s.len());
        assert(!is_digit(s[d2]));
        lemma_opt_uint_value(s, w2, ri);
    }
    lemma_settings_member_step(s, p, "repeat_interval"@, v2, t3, acc, acc1, fuel);
    // retries
    let p3 = d2 + 1;
    let w3 = p3 + "retries"@.len() + 3;
    let acc2 = settings_upd_retries(acc1, rt);
    let d3 = w3 + v3.len();
    assert(settings_field(s, w3, "retries"@, acc1) == Some((acc2, d3))) by {
        lemma_settings_keys_distinct();
        lemma_member_header(s, p3, "retries"@, v3 + (seq![','] + t4));
        lemma_sub_at_split(s, w3, v3, seq![','] + t4);
        lemma_sub_at_split(s, d3, seq![','], t4);
        lemma_sub_at_index(s, d3, seq![',']);
        assert(seq![','][0] == ',');
        assert(s[d3 + 0] == ',');
        assert(d3 < s.len());
        assert(!is_digit(s[d3]));
        lemma_opt_int_value(s, w3, rt);
    }
    lemma_settings_member_step(s, p3, "retries"@, v3, t4, acc1, acc2, (fuel - 1) as nat);
    // url
    let p4 = d3 + 1;
    let w4 = p4 + "url"@.len() + 3;
    let acc3 = SettingsView { url: u, ..acc2 };
    let d4 = w4 + v4.len();
    assert(settings_field(s, w4, "url"@, acc2) == Some((acc3, d4))) by {
        lemma_settings_keys_distinct();
        lemma_member_header(s, p4, "url"@, v4 + (seq![','] + rest));
        lemma_sub_at_split(s, w4, v4, seq![','] + rest);
        lemma_opt_string_value(s, w4, u);
        if u is None {
            assert(acc3 == acc2);
        }
    }
    lemma_settings_member_step(s, p4, "url"@, v4, rest, acc2, acc3, (fuel - 2) as nat);
    assert(acc3 == SettingsView { repeat_interval: ri, retries: rt, url: u, ..acc });
}

/// The written policy, reassociated member by member.
/// The left-associated front half of the written policy.
pub open spec fn sett_m1_text(sv: SettingsView) -> Seq<char> {
    seq!['{'] + qkey("repeat_interval"@) + enc_opt_uint(sv.repeat_interval) + seq![','] + qkey(
        "retries"@,
    ) + enc_opt_int(sv.retries) + seq![','] + qkey("url"@) + enc_opt_string(sv.url) + seq![',']
}

/// The written policy splits at its fourth member.
#[verifier::rlimit(100)]
proof fn lemma_settings_shape_a(sv: SettingsView)
    ensures
        spec_encode_settings(sv) == sett_m1_text(sv) + (qkey("headers"@) + enc_opt_string(
            sv.headers,
        ) + seq![','] + qkey("method"@) + enc_opt_string(sv.method) + seq![','] + qkey(
            "function_name"@,
        ) + enc_opt_string(sv.function_name) + seq!['}']),
{
    assert(spec_encode_settings(sv) =~= sett_m1_text(sv) + (qkey("headers"@) + enc_opt_string(
        sv.headers,
    ) + seq![','] + qkey("method"@) + enc_opt_string(sv.method) + seq![','] + qkey(
        "function_name"@,
    ) + enc_opt_string(sv.function_name) + seq!['}']));
}

/// The tail half of the written policy, right-associated.
#[verifier::rlimit(100)]
proof fn lemma_settings_shape_b(sv: SettingsView)
    ensures
        (qkey("headers"@) + enc_opt_string(sv.headers) + seq![','] + qkey("method"@)
            + enc_opt_string(sv.method) + seq![','] + qkey("function_name"@) + enc_opt_string(
            sv.function_name,
        ) + seq!['}']) == sett_tail_text(sv),
{
    assert((qkey("headers"@) + enc_opt_string(sv.headers) + seq![','] + qkey("method"@)
        + enc_opt_string(sv.method) + seq![','] + qkey("function_name"@) + enc_opt_string(
        sv.function_name,
    ) + seq!['}']) =~= sett_tail_text(sv));
}

/// The written policy, reassociated member by member.
#[verifier::rlimit(100)]
proof fn lemma_settings_shape(sv: SettingsView)
    ensures
        spec_encode_settings(sv) == seq!['{'] + sett_body_text(sv),
{
    lemma_settings_shape_a(sv);
    lemma_settings_shape_b(sv);
    assert(sett_m1_text(sv) + sett_tail_text(sv) =~= seq!['{'] + sett_body_text(sv));
}

/// The written policy reads back to the policy.
#[verifier::rlimit(100)]
proof fn lemma_settings_round_trip(s: Seq<char>, i: int, sv: SettingsView, fuel: nat)
    requires
        sub_at(s, i, spec_encode_settings(sv)),
        fuel >= 7,
        (sv.repeat_interval matches Some(k) ==> 0 <= k <= u32::MAX as int),
        (sv.retries matches Some(r) ==> i32::MIN as int <= r <= i32::MAX as int),
    ensures
        parse_settings_at(s, i, fuel) == Some((sv, i + spec_encode_settings(sv).len())),
{
    reveal_strlit("repeat_interval");
    reveal_strlit("retries");
    reveal_strlit("url");
    reveal_strlit("headers");
    reveal_strlit("method");
    reveal_strlit("function_name");
    let e = spec_encode_settings(sv);
    let v2 = enc_opt_uint(sv.repeat_interval);
    let v3 = enc_opt_int(sv.retries);
    let v4 = enc_opt_string(sv.url);
    let v5 = enc_opt_string(sv.headers);
    let v6 = enc_opt_string(sv.method);
    let v7 = enc_opt_string(sv.function_name);
    let rest = sett_tail_text(sv);
    let t2 = sett_body_text(sv);
    lemma_settings_shape(sv);
    assert(e == seq!['{'] + t2);
    lemma_sub_at_split(s, i, seq!['{'], t2);
    lemma_sub_at_index(s, i, seq!['{']);
    assert(seq!['{'][0] == '{');
    assert(s[i + 0] == '{');
    let acc0 = empty_settings_view();
    assert(rest[0] == '"') by {
        assert(qkey("headers"@)[0] == '"');
    }
    lemma_settings_head(
        s,
        i + 1,
        acc0,
        sv.repeat_interval,
        sv.retries,
        sv.url,
        rest,
        fuel,
    );
    let acc3 = SettingsView {
        repeat_interval: sv.repeat_interval,
        retries: sv.retries,
        url: sv.url,
        ..acc0
    };
    let p5 = i + 1 + qkey("repeat_interval"@).len() + v2.len() + 1 + qkey("retries"@).len()
        + v3.len() + 1 + qkey("url"@).len() + v4.len() + 1;
    lemma_settings_tail(
        s,
        p5,
        acc3,
        sv.headers,
        sv.method,
        sv.function_name,
        (fuel - 3) as nat,
    );
    assert(SettingsView {
        headers: sv.headers,
        method: sv.method,
        function_name: sv.function_name,
        ..acc3
    } == sv);
    assert(s[i + 1 + 0] == t2[0]) by {
        lemma_sub_at_index(s, i + 1, t2);
    }
    assert(t2[0] == '"') by {
        assert(qkey("repeat_interval"@)[0] == '"');
    }
    assert(s[i + 1] == '"');
    assert(skip_ws(s, i + 1) == i + 1);
    assert(parse_settings_members(s, i + 1, acc0, fuel) == Some((sv, i + e.len())));
}

/// The policy with its interval replaced.
pub open spec fn settings_upd_interval(acc: SettingsView, v: Option<int>) -> SettingsView {
    match v {
        Some(k) => SettingsView { repeat_interval: Some(k), ..acc },
        None => acc,
    }
}

/// The policy with its retries replaced.
pub open spec fn settings_upd_retries(acc: SettingsView, v: Option<int>) -> SettingsView {
    match v {
        Some(r) => SettingsView { retries: Some(r), ..acc },
        None => acc,
    }
}

/// Reading a written optional unsigned number.
proof fn lemma_opt_uint_value(s: Seq<char>, p: int, v: Option<int>)
    requires
        (v matches Some(k) ==> k >= 0),
        sub_at(s, p, enc_opt_uint(v)),
        (v is Some ==> p + enc_opt_uint(v).len() < s.len() && !is_digit(
            s[p + enc_opt_uint(v).len()],
        )),
    ensures
        (v matches Some(k) ==> parse_null_at(s, p) is None && parse_uint_at(s, p) == Some(
            (k, p + enc_opt_uint(v).len()),
        )),
        v is None ==> parse_null_at(s, p) == Some(p + 4),
{
    match v {
        Some(k) => {
            let w = crate::text::dec_digits(k);
            crate::text::lemma_dec_digits_val(k);
            lemma_parse_uint_of(s, p, k);
            lemma_sub_at_index(s, p, w);
            assert(s[p + 0] == w[0]);
            assert(is_digit(s[p]));
            assert(s[p] != 'n');
        },
        None => {
            assert(enc_opt_uint(v) =~= null_text());
            lemma_parse_null_of(s, p);
        },
    }
}

/// Reading a written optional signed number.
proof fn lemma_opt_int_value(s: Seq<char>, p: int, v: Option<int>)
    requires
        sub_at(s, p, enc_opt_int(v)),
        (v is Some ==> p + enc_opt_int(v).len() < s.len() && !is_digit(
            s[p + enc_opt_int(v).len()],
        )),
    ensures
        (v matches Some(k) ==> parse_null_at(s, p) is None && parse_int_at(s, p) == Some(
            (k, p + enc_opt_int(v).len()),
        )),
        v is None ==> parse_null_at(s, p) == Some(p + 4),
{
    match v {
        Some(k) => {
            let w = enc_int(k);
            lemma_parse_int_of(s, p, k);
            lemma_sub_at_index(s, p, w);
            assert(s[p + 0] == w[0]);
            if k < 0 {
                assert(w[0] == '-') by {
                    assert(w =~= seq!['-'] + crate::text::dec_digits(-k));
                }
                assert(s[p] != 'n');
            } else {
                crate::text::lemma_dec_digits_val(k);
                assert(is_digit(s[p]));
                assert(s[p] != 'n');
            }
        },
        None => {
            assert(enc_opt_int(v) =~= null_text());
            lemma_parse_null_of(s, p);
        },
    }
}

/// Reading a written optional string.
proof fn lemma_opt_string_value(s: Seq<char>, p: int, v: Option<Seq<char>>)
    requires
        sub_at(s, p, enc_opt_string(v)),
    ensures
        (v matches Some(x) ==> parse_null_at(s, p) is None && parse_string_at(s, p) == Some(
            (x, p + enc_opt_string(v).len()),
        )),
        v is None ==> parse_null_at(s, p) == Some(p + 4),
{
    match v {
        Some(x) => {
            lemma_parse_enc_string(s, p, x);
            lemma_sub_at_index(s, p, enc_string(x));
            assert(enc_string(x)[0] == '"');
            assert(s[p + 0] == '"');
            assert(s[p] != 'n');
        },
        None => {
            assert(enc_opt_string(v) =~= null_text());
            lemma_parse_null_of(s, p);
        },
    }
}


/// The six task keys are pairwise distinct.
proof fn lemma_task_keys_distinct()
    ensures
        "queue"@ != "id"@ && "queue"@ != "eta"@ && "queue"@ != "task_type"@ && "queue"@
            != "payload"@ && "queue"@ != "settings"@,
        "id"@ != "eta"@ && "id"@ != "task_type"@ && "id"@ != "payload"@ && "id"@ != "settings"@,
        "eta"@ != "task_type"@ && "eta"@ != "payload"@ && "eta"@ != "settings"@,
        "task_type"@ != "payload"@ && "task_type"@ != "settings"@,
        "payload"@ != "settings"@,
{
    reveal_strlit("queue");
    reveal_strlit("id");
    reveal_strlit("eta");
    reveal_strlit("task_type");
    reveal_strlit("payload");
    reveal_strlit("settings");
    assert("queue"@.len() == 5 && "id"@.len() == 2 && "eta"@.len() == 3 && "task_type"@.len() == 9
        && "payload"@.len() == 7 && "settings"@.len() == 8);
}

/// Reading a written `eta`: the quoted canonical timestamp reads back
/// to the instant.
proof fn lemma_opt_eta_value(s: Seq<char>, p: int, v: Option<int>)
    requires
        sub_at(s, p, enc_opt_eta(v)),
        (v matches Some(e) ==> 0 <= e <= MAX_ETA_MS as int),
    ensures
        (v matches Some(e) ==> parse_null_at(s, p) is None && parse_string_at(s, p) == Some(
            (spec_format_ms(e), p + enc_opt_eta(v).len()),
        ) && spec_parse_rfc3339(spec_format_ms(e)) == Some(e)),
        v is None ==> parse_null_at(s, p) == Some(p + 4),
{
    match v {
        Some(e) => {
            let f = spec_format_ms(e);
            crate::dates::lemma_format_chars(e);
            assert(all_plain(f));
            lemma_enc_chars_plain(f);
            assert(enc_opt_eta(v) =~= enc_string(f));
            lemma_parse_enc_string(s, p, f);
            lemma_sub_at_index(s, p, enc_string(f));
            assert(enc_string(f)[0] == '"');
            assert(s[p + 0] == '"');
            assert(s[p] != 'n');
            crate::dates::lemma_rfc3339_round_trip(e);
        },
        None => {
            assert(enc_opt_eta(v) =~= null_text());
            lemma_parse_null_of(s, p);
        },
    }
}

/// A written `eta` or policy starts with a quote, brace or `n`.
proof fn lemma_enc_opt_eta_first(v: Option<int>)
    ensures
        enc_opt_eta(v).len() > 0,
        !is_ws(enc_opt_eta(v)[0]),
{
    match v {
        Some(e) => {
            assert(enc_opt_eta(v)[0] == '"');
        },
        None => {
            assert(enc_opt_eta(v)[0] == 'n');
        },
    }
}

/// The text written for the policy field: the policy object, or
/// `null`.
pub open spec fn enc_opt_settings(v: Option<SettingsView>) -> Seq<char> {
    match v {
        Some(sv) => spec_encode_settings(sv),
        None => null_text(),
    }
}

/// See `lemma_enc_opt_eta_first`.
proof fn lemma_enc_opt_settings_first(v: Option<SettingsView>)
    ensures
        enc_opt_settings(v).len() > 0,
        !is_ws(enc_opt_settings(v)[0]),
{
    match v {
        Some(sv) => {
            lemma_settings_shape(sv);
            assert(enc_opt_settings(v)[0] == '{');
        },
        None => {
            assert(enc_opt_settings(v)[0] == 'n');
        },
    }
}

/// One written task member advances the member walk by one step.
proof fn lemma_task_member_step(
    s: Seq<char>,
    p: int,
    key: Seq<char>,
    vtext: Seq<char>,
    rest: Seq<char>,
    acc: PartialTask,
    acc2: PartialTask,
    fuel: nat,
)
    requires
        sub_at(s, p, qkey(key) + (vtext + (seq![','] + rest))),
        all_plain(key),
        vtext.len() > 0,
        !is_ws(vtext[0]),
        rest.len() > 0,
        !is_ws(rest[0]),
        fuel >= 1,
        task_field(s, p + key.len() + 3, key, acc, (fuel - 1) as nat) == Some(
            (acc2, p + key.len() + 3 + vtext.len()),
        ),
    ensures
        parse_task_members(s, p, acc, fuel) == parse_task_members(
            s,
            p + key.len() + 3 + vtext.len() + 1,
            acc2,
            (fuel - 1) as nat,
        ),
        sub_at(s, p + key.len() + 3 + vtext.len() + 1, rest),
{
    assert((vtext + (seq![','] + rest))[0] == vtext[0]);
    lemma_member_header(s, p, key, vtext + (seq![','] + rest));
    let w = p + key.len() + 3;
    lemma_sub_at_split(s, w, vtext, seq![','] + rest);
    let d = w + vtext.len();
    lemma_sub_at_split(s, d, seq![','], rest);
    lemma_sub_at_index(s, d, seq![',']);
    assert(seq![','][0] == ',');
    assert(s[d + 0] == ',');
    assert(skip_ws(s, d) == d);
}

/// The last three members of the written task, right-associated.
pub open spec fn task_tail_text(v: TaskView) -> Seq<char> {
    qkey("task_type"@) + (enc_int(v.task_type) + (seq![','] + (qkey("payload"@) + (enc_opt_string(
        v.payload,
    ) + (seq![','] + (qkey("settings"@) + (enc_opt_settings(v.settings) + seq!['}'])))))))
}

/// The members of the written task, right-associated.
pub open spec fn task_body_text(v: TaskView) -> Seq<char> {
    qkey("queue"@) + (crate::text::dec_digits(v.queue) + (seq![','] + (qkey("id"@) + (enc_string(
        v.id,
    ) + (seq![','] + (qkey("eta"@) + (enc_opt_eta(v.eta) + (seq![','] + task_tail_text(v)))))))))
}

/// The left-associated front half of the written task.
pub open spec fn task_m1_text(v: TaskView) -> Seq<char> {
    seq!['{'] + qkey("queue"@) + crate::text::dec_digits(v.queue) + seq![','] + qkey("id"@)
        + enc_string(v.id) + seq![','] + qkey("eta"@) + enc_opt_eta(v.eta) + seq![',']
}

/// The written task splits at its fourth member.
#[verifier::rlimit(100)]
proof fn lemma_task_shape_a(v: TaskView)
    ensures
        spec_encode_task(v) == task_m1_text(v) + (qkey("task_type"@) + enc_int(v.task_type)
            + seq![','] + qkey("payload"@) + enc_opt_string(v.payload) + seq![','] + qkey(
            "settings"@,
        ) + enc_opt_settings(v.settings) + seq!['}']),
{
    assert(spec_encode_task(v) =~= task_m1_text(v) + (qkey("task_type"@) + enc_int(v.task_type)
        + seq![','] + qkey("payload"@) + enc_opt_string(v.payload) + seq![','] + qkey("settings"@)
        + enc_opt_settings(v.settings) + seq!['}']));
}

/// The tail half of the written task, right-associated.
#[verifier::rlimit(100)]
proof fn lemma_task_shape_b(v: TaskView)
    ensures
        (qkey("task_type"@) + enc_int(v.task_type) + seq![','] + qkey("payload"@) + enc_opt_string(
            v.payload,
        ) + seq![','] + qkey("settings"@) + enc_opt_settings(v.settings) + seq!['}'])
            == task_tail_text(v),
{
    assert((qkey("task_type"@) + enc_int(v.task_type) + seq![','] + qkey("payload"@)
        + enc_opt_string(v.payload) + seq![','] + qkey("settings"@) + enc_opt_settings(v.settings)
        + seq!['}']) =~= task_tail_text(v));
}

/// The written task, reassociated member by member.
#[verifier::rlimit(100)]
proof fn lemma_task_shape(v: TaskView)
    ensures
        spec_encode_task(v) == seq!['{'] + task_body_text(v),
{
    lemma_task_shape_a(v);
    lemma_task_shape_b(v);
    assert(task_m1_text(v) + task_tail_text(v) =~= seq!['{'] + task_body_text(v));
}

/// Every field of the view fits its place on the wire.
pub open spec fn view_in_ranges(v: TaskView) -> bool {
    &&& 0 <= v.queue <= usize::MAX as int
    &&& i32::MIN as int <= v.task_type <= i32::MAX as int
    &&& (v.eta matches Some(e) ==> 0 <= e <= MAX_ETA_MS as int)
    &&& (v.settings matches Some(sv) ==> (sv.repeat_interval matches Some(k) ==> 0 <= k
        <= u32::MAX as int) && (sv.retries matches Some(r) ==> i32::MIN as int <= r
        <= i32::MAX as int))
}

/// The first three written members of a task read back, reducing the
/// member walk to the rest of the text.
#[verifier::rlimit(100)]
proof fn lemma_task_head(s: Seq<char>, p: int, acc: PartialTask, v: TaskView, fuel: nat)
    requires
        sub_at(
            s,
            p,
            qkey("queue"@) + (crate::text::dec_digits(v.queue) + (seq![','] + (qkey("id"@) + (
            enc_string(v.id) + (seq![','] + (qkey("eta"@) + (enc_opt_eta(v.eta) + (seq![',']
                + task_tail_text(v))))))))),
        ),
        acc.queue is None,
        acc.id is None,
        acc.eta is None,
        view_in_ranges(v),
        fuel >= 4,
    ensures
        parse_task_members(s, p, acc, fuel) == parse_task_members(
            s,
            p + qkey("queue"@).len() + crate::text::dec_digits(v.queue).len() + 1 + qkey(
                "id"@,
            ).len() + enc_string(v.id).len() + 1 + qkey("eta"@).len() + enc_opt_eta(v.eta).len()
                + 1,
            PartialTask { queue: Some(v.queue), id: Some(v.id), eta: v.eta, ..acc },
            (fuel - 3) as nat,
        ),
        sub_at(
            s,
            p + qkey("queue"@).len() + crate::text::dec_digits(v.queue).len() + 1 + qkey(
                "id"@,
            ).len() + enc_string(v.id).len() + 1 + qkey("eta"@).len() + enc_opt_eta(v.eta).len()
                + 1,
            task_tail_text(v),
        ),
{
    reveal_strlit("queue");
    reveal_strlit("id");
    reveal_strlit("eta");
    let v2 = crate::text::dec_digits(v.queue);
    let v3 = enc_string(v.id);
    let v4 = enc_opt_eta(v.eta);
    let rest = task_tail_text(v);
    let t4 = qkey("eta"@) + (v4 + (seq![','] + rest));
    let t3 = qkey("id"@) + (v3 + (seq![','] + t4));
    assert(all_plain("queue"@) && all_plain("id"@) && all_plain("eta"@));
    crate::text::lemma_dec_digits_val(v.queue);
    lemma_enc_opt_eta_first(v.eta);
    assert(t3[0] == '"' && t4[0] == '"') by {
        assert(qkey("id"@)[0] == '"');
        assert(qkey("eta"@)[0] == '"');
    }
    assert(rest[0] == '"') by {
        assert(qkey("task_type"@)[0] == '"');
    }
    assert(v2.len() > 0 && !is_ws(v2[0])) by {
        assert(is_digit(v2[0]));
    }
    assert(v3.len() > 0 && !is_ws(v3[0])) by {
        assert(v3[0] == '"');
    }
    // queue
    let w2 = p + "queue"@.len() + 3;
    let acc1 = PartialTask { queue: Some(v.queue), ..acc };
    let d2 = w2 + v2.len();
    assert(task_field(s, w2, "queue"@, acc, (fuel - 1) as nat) == Some((acc1, d2))) by {
        lemma_member_header(s, p, "queue"@, v2 + (seq![','] + t3));
        lemma_sub_at_split(s, w2, v2, seq![','] + t3);
        lemma_sub_at_split(s, d2, seq![','], t3);
        lemma_sub_at_index(s, d2, seq![',']);
        assert(seq![','][0] == ',');
        assert(s[d2 + 0] == ',');
        assert(d2 < s.len());
        assert(!is_digit(s[d2]));
        lemma_parse_uint_of(s, w2, v.queue);
    }
    lemma_task_member_step(s, p, "queue"@, v2, t3, acc, acc1, fuel);
    // id
    let p3 = d2 + 1;
    let w3 = p3 + "id"@.len() + 3;
    let acc2 = PartialTask { id: Some(v.id), ..acc1 };
    let d3 = w3 + v3.len();
    assert(task_field(s, w3, "id"@, acc1, (fuel - 2) as nat) == Some((acc2, d3))) by {
        lemma_task_keys_distinct();
        lemma_member_header(s, p3, "id"@, v3 + (seq![','] + t4));
        lemma_sub_at_split(s, w3, v3, seq![','] + t4);
        lemma_parse_enc_string(s, w3, v.id);
    }
    lemma_task_member_step(s, p3, "id"@, v3, t4, acc1, acc2, (fuel - 1) as nat);
    // eta
    let p4 = d3 + 1;
    let w4 = p4 + "eta"@.len() + 3;
    let acc3 = PartialTask { eta: v.eta, ..acc2 };
    let d4 = w4 + v4.len();
    assert(task_field(s, w4, "eta"@, acc2, (fuel - 3) as nat) == Some((acc3, d4))) by {
        lemma_task_keys_distinct();
        lemma_member_header(s, p4, "eta"@, v4 + (seq![','] + rest));
        lemma_sub_at_split(s, w4, v4, seq![','] + rest);
        lemma_opt_eta_value(s, w4, v.eta);
        if v.eta is None {
            assert(acc3 == acc2);
        }
    }
    lemma_task_member_step(s, p4, "eta"@, v4, rest, acc2, acc3, (fuel - 2) as nat);
    assert(acc3 == PartialTask { queue: Some(v.queue), id: Some(v.id), eta: v.eta, ..acc });
}

/// The last three written members of a task read back.
#[verifier::rlimit(100)]
proof fn lemma_task_tail(s: Seq<char>, p: int, acc: PartialTask, v: TaskView, fuel: nat)
    requires
        sub_at(s, p, task_tail_text(v)),
        acc.task_type is None,
        acc.payload is None,
        acc.settings is None,
        view_in_ranges(v),
        fuel >= 10,
    ensures
        parse_task_members(s, p, acc, fuel) == Some(
            (
                PartialTask {
                    task_type: Some(v.task_type),
                    payload: v.payload,
                    settings: v.settings,
                    ..acc
                },
                p + task_tail_text(v).len(),
            ),
        ),
{
    reveal_strlit("task_type");
    reveal_strlit("payload");
    reveal_strlit("settings");
    let v5 = enc_int(v.task_type);
    let v6 = enc_opt_string(v.payload);
    let v7 = enc_opt_settings(v.settings);
    let t7 = qkey("settings"@) + (v7 + seq!['}']);
    let t6 = qkey("payload"@) + (v6 + (seq![','] + t7));
    assert(all_plain("task_type"@) && all_plain("payload"@) && all_plain("settings"@));
    lemma_enc_opt_int_first(Some(v.task_type));
    lemma_enc_opt_string_first(v.payload);
    lemma_enc_opt_settings_first(v.settings);
    assert(enc_opt_int(Some(v.task_type)) =~= v5);
    assert(t6[0] == '"' && t7[0] == '"') by {
        assert(qkey("payload"@)[0] == '"');
        assert(qkey("settings"@)[0] == '"');
    }
    // task_type
    let w5 = p + "task_type"@.len() + 3;
    let acc4 = PartialTask { task_type: Some(v.task_type), ..acc };
    let d5 = w5 + v5.len();
    assert(task_field(s, w5, "task_type"@, acc, (fuel - 1) as nat) == Some((acc4, d5))) by {
        lemma_task_keys_distinct();
        lemma_member_header(s, p, "task_type"@, v5 + (seq![','] + t6));
        lemma_sub_at_split(s, w5, v5, seq![','] + t6);
        lemma_sub_at_split(s, d5, seq![','], t6);
        lemma_sub_at_index(s, d5, seq![',']);
        assert(seq![','][0] == ',');
        assert(s[d5 + 0] == ',');
        assert(d5 < s.len());
        assert(!is_digit(s[d5]));
        lemma_parse_int_of(s, w5, v.task_type);
    }
    lemma_task_member_step(s, p, "task_type"@, v5, t6, acc, acc4, fuel);
    // payload
    let p6 = d5 + 1;
    let w6 = p6 + "payload"@.len() + 3;
    let acc5 = PartialTask { payload: v.payload, ..acc4 };
    let d6 = w6 + v6.len();
    assert(task_field(s, w6, "payload"@, acc4, (fuel - 2) as nat) == Some((acc5, d6))) by {
        lemma_task_keys_distinct();
        lemma_member_header(s, p6, "payload"@, v6 + (seq![','] + t7));
        lemma_sub_at_split(s, w6, v6, seq![','] + t7);
        lemma_opt_string_value(s, w6, v.payload);
        if v.payload is None {
            assert(acc5 == acc4);
        }
    }
    lemma_task_member_step(s, p6, "payload"@, v6, t7, acc4, acc5, (fuel - 1) as nat);
    // settings
    let p7 = d6 + 1;
    lemma_task_last(s, p7, acc5, v, (fuel - 2) as nat);
    let acc6 = PartialTask { settings: v.settings, ..acc5 };
    assert(acc6 == PartialTask {
        task_type: Some(v.task_type),
        payload: v.payload,
        settings: v.settings,
        ..acc
    });
}

/// The last written member of a task (its policy) reads back and
/// closes the object.
#[verifier::rlimit(100)]
proof fn lemma_task_last(s: Seq<char>, p: int, acc: PartialTask, v: TaskView, fuel: nat)
    requires
        sub_at(s, p, qkey("settings"@) + (enc_opt_settings(v.settings) + seq!['}'])),
        acc.settings is None,
        view_in_ranges(v),
        fuel >= 8,
    ensures
        parse_task_members(s, p, acc, fuel) == Some(
            (
                PartialTask { settings: v.settings, ..acc },
                p + qkey("settings"@).len() + enc_opt_settings(v.settings).len() + 1,
            ),
        ),
{
    reveal_strlit("settings");
    let v7 = enc_opt_settings(v.settings);
    assert(all_plain("settings"@));
    lemma_enc_opt_settings_first(v.settings);
    assert((v7 + seq!['}'])[0] == v7[0]);
    lemma_member_header(s, p, "settings"@, v7 + seq!['}']);
    let w7 = p + "settings"@.len() + 3;
    lemma_sub_at_split(s, w7, v7, seq!['}']);
    let acc6 = PartialTask { settings: v.settings, ..acc };
    let d7 = w7 + v7.len();
    assert(task_field(s, w7, "settings"@, acc, (fuel - 1) as nat) == Some((acc6, d7))) by {
        lemma_task_keys_distinct();
        match v.settings {
            Some(sv) => {
                lemma_settings_round_trip(s, w7, sv, (fuel - 1) as nat);
                lemma_settings_shape(sv);
                assert(s[w7 + 0] == v7[0]) by {
                    lemma_sub_at_index(s, w7, v7);
                }
                assert(v7[0] == '{');
                assert(s[w7] != 'n');
                assert(parse_null_at(s, w7) is None);
            },
            None => {
                assert(v7 =~= null_text());
                lemma_parse_null_of(s, w7);
                assert(acc6 == acc);
            },
        }
    }
    lemma_sub_at_index(s, d7, seq!['}']);
    assert(seq!['}'][0] == '}');
    assert(s[d7 + 0] == '}');
    assert(skip_ws(s, d7) == d7);
    assert(parse_task_members(s, p, acc, fuel) == Some((acc6, d7 + 1)));
}

/// The written members of a task read back in full.
#[verifier::rlimit(100)]
proof fn lemma_task_body(s: Seq<char>, v: TaskView, fuel: nat)
    requires
        sub_at(s, 1, task_body_text(v)),
        1 + task_body_text(v).len() == s.len(),
        view_in_ranges(v),
        fuel >= 14,
    ensures
        parse_task_members(s, 1, empty_partial_task(), fuel) == Some(
            (
                PartialTask {
                    queue: Some(v.queue),
                    id: Some(v.id),
                    eta: v.eta,
                    task_type: Some(v.task_type),
                    payload: v.payload,
                    settings: v.settings,
                },
                s.len() as int,
            ),
        ),
{
    let acc0 = empty_partial_task();
    lemma_task_head(s, 1, acc0, v, fuel);
    let acc3 = PartialTask { queue: Some(v.queue), id: Some(v.id), eta: v.eta, ..acc0 };
    let p5: int = (1 + qkey("queue"@).len() + crate::text::dec_digits(v.queue).len() + 1 + qkey(
        "id"@,
    ).len() + enc_string(v.id).len() + 1 + qkey("eta"@).len() + enc_opt_eta(v.eta).len()
        + 1) as int;
    lemma_task_tail(s, p5, acc3, v, (fuel - 3) as nat);
    let accf = PartialTask {
        task_type: Some(v.task_type),
        payload: v.payload,
        settings: v.settings,
        ..acc3
    };
    assert(p5 + task_tail_text(v).len() == s.len());
    assert(accf == PartialTask {
        queue: Some(v.queue),
        id: Some(v.id),
        eta: v.eta,
        task_type: Some(v.task_type),
        payload: v.payload,
        settings: v.settings,
    });
}

/// Law: a task written to the wire and read back is the same task.
/// The canonical text of any task whose fields fit the wire decodes
/// to a task with the same queue, id, kind, `eta`, payload and policy.
pub proof fn lemma_task_round_trip(v: TaskView)
    requires
        view_in_ranges(v),
    ensures
        spec_parse_task(spec_encode_task(v)) == Some(v),
{
    reveal_strlit("queue");
    let s = spec_encode_task(v);
    lemma_task_shape(v);
    let body = task_body_text(v);
    assert(sub_at(s, 0, seq!['{'] + body)) by {
        assert(s.subrange(0, s.len() as int) =~= s);
    }
    lemma_sub_at_split(s, 0, seq!['{'], body);
    lemma_sub_at_index(s, 0, seq!['{']);
    assert(seq!['{'][0] == '{');
    assert(s[0] == '{');
    assert(skip_ws(s, 0) == 0);
    assert(body[0] == '"') by {
        assert(qkey("queue"@)[0] == '"');
    }
    assert(s[1int + 0] == body[0]) by {
        lemma_sub_at_index(s, 1, body);
    }
    assert(s[1] == '"');
    assert(skip_ws(s, 1) == 1);
    assert(s.len() >= 14) by {
        assert(task_body_text(v).len() >= qkey("queue"@).len() + task_tail_text(v).len());
        assert(task_tail_text(v).len() >= qkey("task_type"@).len());
        assert(qkey("task_type"@).len() == 12) by {
            reveal_strlit("task_type");
        }
    }
    lemma_task_body(s, v, s.len() as nat);
    let accf = PartialTask {
        queue: Some(v.queue),
        id: Some(v.id),
        eta: v.eta,
        task_type: Some(v.task_type),
        payload: v.payload,
        settings: v.settings,
    };
    assert(skip_ws(s, s.len() as int) == s.len() as int);
    assert(parse_task_members(s, 1, empty_partial_task(), s.len() as nat) == Some(
        (accf, s.len() as int),
    ));
    assert(TaskView {
        queue: accf.queue->0,
        id: accf.id->0,
        eta: accf.eta,
        task_type: accf.task_type->0,
        payload: accf.payload,
        settings: accf.settings,
    } == v);
}


/// The members of a string-to-string object from `i` (after `{` or a
/// comma): the pairs in reading order and the index after `}`. Every
/// value must be a string.
pub open spec fn parse_map_members(
    s: Seq<char>,
    i: int,
    acc: Seq<(Seq<char>, Seq<char>)>,
    fuel: nat,
) -> Option<(Seq<(Seq<char>, Seq<char>)>, int)>
    decreases fuel,
{
    if fuel == 0 {
        None
    } else {
        let k = skip_ws(s, i);
        match parse_string_at(s, k) {
            None => None,
            Some((key, j1)) => {
                let j2 = skip_ws(s, j1);
                if !(j2 < s.len() && s[j2] == ':') {
                    None
                } else {
                    let j3 = skip_ws(s, j2 + 1);
                    match parse_string_at(s, j3) {
                        None => None,
                        Some((val, j4)) => {
                            let acc2 = acc.push((key, val));
                            let j5 = skip_ws(s, j4);
                            if j5 < s.len() && s[j5] == ',' {
                                parse_map_members(s, j5 + 1, acc2, (fuel - 1) as nat)
                            } else if j5 < s.len() && s[j5] == '}' {
                                Some((acc2, j5 + 1))
                            } else {
                                None
                            }
                        },
                    }
                }
            },
        }
    }
}

/// The pairs a JSON object of string to string denotes, or `None` when
/// the text is not exactly one.
pub open spec fn spec_parse_string_map(s: Seq<char>) -> Option<Seq<(Seq<char>, Seq<char>)>> {
    let i = skip_ws(s, 0);
    if !(i < s.len() && s[i] == '{') {
        None
    } else {
        let body = {
            let k = skip_ws(s, i + 1);
            if k < s.len() && s[k] == '}' {
                Some((Seq::<(Seq<char>, Seq<char>)>::empty(), k + 1))
            } else {
                parse_map_members(s, i + 1, Seq::empty(), s.len())
            }
        };
        match body {
            None => None,
            Some((pairs, j)) => {
                if skip_ws(s, j) == s.len() {
                    Some(pairs)
                } else {
                    None
                }
            },
        }
    }
}

/// The members of a string-to-string object, executably.
fn parse_map_members_exec(
    s: &Vec<char>,
    i: usize,
    acc: Vec<(String, String)>,
    fuel: usize,
) -> (r: Option<(Vec<(String, String)>, usize)>)
    requires
        i <= s@.len(),
    ensures
        (match r {
            Some((v, j)) => parse_map_members(
                s@,
                i as int,
                crate::utils::view_pairs(acc@),
                fuel as nat,
            ) == Some((crate::utils::view_pairs(v@), j as int)) && j <= s@.len(),
            None => parse_map_members(s@, i as int, crate::utils::view_pairs(acc@), fuel as nat)
                is None,
        }),
    decreases fuel,
{
    if fuel == 0 {
        return None;
    }
    let k = skip_ws_exec(s, i);
    let (key, j1) = match parse_string_exec(s, k) {
        Some(p) => p,
        None => {
            return None;
        },
    };
    let j2 = skip_ws_exec(s, j1);
    if !(j2 < s.len() && s[j2] == ':') {
        return None;
    }
    let j3 = skip_ws_exec(s, j2 + 1);
    let (val, j4) = match parse_string_exec(s, j3) {
        Some(p) => p,
        None => {
            return None;
        },
    };
    let mut acc2 = acc;
    let ghost accv = acc2@;
    acc2.push((crate::text::chars_to_string(&key), crate::text::chars_to_string(&val)));
    proof {
        assert(crate::utils::view_pairs(acc2@) =~= crate::utils::view_pairs(accv).push(
            (key@, val@),
        ));
    }
    let j5 = skip_ws_exec(s, j4);
    if j5 < s.len() && s[j5] == ',' {
        parse_map_members_exec(s, j5 + 1, acc2, fuel - 1)
    } else if j5 < s.len() && s[j5] == '}' {
        Some((acc2, j5 + 1))
    } else {
        None
    }
}

/// Reads a JSON object of string to string into its pairs, in reading
/// order; `None` when the text is not exactly one such object.
pub fn parse_string_map(text: &str) -> (r: Option<Vec<(String, String)>>)
    ensures
        (match r {
            Some(pairs) => spec_parse_string_map(text@) == Some(crate::utils::view_pairs(pairs@)),
            None => spec_parse_string_map(text@) is None,
        }),
{
    let s = crate::text::str_to_chars(text);
    let i = skip_ws_exec(&s, 0);
    if !(i < s.len() && s[i] == '{') {
        return None;
    }
    let k = skip_ws_exec(&s, i + 1);
    let body: Option<(Vec<(String, String)>, usize)> = if k < s.len() && s[k] == '}' {
        let empty: Vec<(String, String)> = Vec::new();
        proof {
            assert(crate::utils::view_pairs(empty@) =~= Seq::<(Seq<char>, Seq<char>)>::empty());
        }
        Some((empty, k + 1))
    } else {
        let empty: Vec<(String, String)> = Vec::new();
        proof {
            assert(crate::utils::view_pairs(empty@) =~= Seq::<(Seq<char>, Seq<char>)>::empty());
        }
        parse_map_members_exec(&s, i + 1, empty, s.len())
    };
    match body {
        Some((pairs, j)) => {
            if skip_ws_exec(&s, j) == s.len() {
                Some(pairs)
            } else {
                None
            }
        },
        None => None,
    }
}

} // verus!
