//! From JSON text to documents.

use vstd::prelude::*;
use crate::cjsonref::CJsonRef;
use crate::cjsonref::Text;
use crate::text::lexer::blanks_end;
use crate::text::lexer::number_bits;
use crate::text::lexer::number_end;
use crate::text::lexer::read_string;
use crate::text::lexer::scan_number;
use crate::text::lexer::skip_blanks;
use crate::text::lexer::string_end;
use crate::text::lexer::token_bits;
use crate::text::table::NumberTable;
use crate::value::JsonValue;

verus! {

/// How many arrays and objects may stand inside one another in a text.
pub const NESTING_LIMIT: usize = 1000;

/// Whether the word `null` stands at `pos`.
pub open spec fn null_at(s: Seq<u8>, pos: int) -> bool {
    0 <= pos && pos + 4 <= s.len() && s[pos] == 110 && s[pos + 1] == 117 && s[pos + 2] == 108
        && s[pos + 3] == 108
}

/// Whether the word `true` stands at `pos`.
pub open spec fn true_at(s: Seq<u8>, pos: int) -> bool {
    0 <= pos && pos + 4 <= s.len() && s[pos] == 116 && s[pos + 1] == 114 && s[pos + 2] == 117
        && s[pos + 3] == 101
}

/// Whether the word `false` stands at `pos`.
pub open spec fn false_at(s: Seq<u8>, pos: int) -> bool {
    0 <= pos && pos + 5 <= s.len() && s[pos] == 102 && s[pos + 1] == 97 && s[pos + 2] == 108
        && s[pos + 3] == 115 && s[pos + 4] == 101
}

/// The value that stands at `pos`, and the place behind it.
///
/// A value is one of the words `null`, `true` and `false`, a string in
/// double quotes, a number, an array in square brackets or an object in
/// curly brackets. `depth` is the number of arrays and objects that may
/// still be entered. The bits of a number come from `number_bits`.
pub open spec fn value_at(s: Seq<u8>, pos: int, table: Seq<(Seq<u8>, u64)>, depth: nat) -> Option<
    (JsonValue, int),
>
    decreases s.len() - pos, 1nat,
{
    if !(0 <= pos < s.len()) {
        None
    } else if s[pos] == 110 {
        if null_at(s, pos) {
            Some((JsonValue::Null, pos + 4))
        } else {
            None
        }
    } else if s[pos] == 116 {
        if true_at(s, pos) {
            Some((JsonValue::Bool(true), pos + 4))
        } else {
            None
        }
    } else if s[pos] == 102 {
        if false_at(s, pos) {
            Some((JsonValue::Bool(false), pos + 5))
        } else {
            None
        }
    } else if s[pos] == 34 {
        match string_end(s, pos + 1, Seq::empty()) {
            Some((bytes, end)) => Some((JsonValue::String(bytes), end)),
            None => None,
        }
    } else if s[pos] == 91 {
        let first = blanks_end(s, pos + 1);
        if depth == 0 || !(pos < first <= s.len()) {
            None
        } else if first < s.len() && s[first] == 93 {
            Some((JsonValue::Array(Seq::empty()), first + 1))
        } else {
            elements_at(s, first, table, (depth - 1) as nat, Seq::empty())
        }
    } else if s[pos] == 123 {
        let first = blanks_end(s, pos + 1);
        if depth == 0 || !(pos < first <= s.len()) {
            None
        } else if first < s.len() && s[first] == 125 {
            Some((JsonValue::Object(Seq::empty()), first + 1))
        } else {
            members_at(s, first, table, (depth - 1) as nat, Seq::empty())
        }
    } else {
        match number_end(s, pos) {
            None => None,
            Some(end) => match number_bits(s.subrange(pos, end), table) {
                Some(bits) => Some((JsonValue::Number(bits), end)),
                None => None,
            },
        }
    }
}

/// The array whose next element stands at `pos`, behind the elements `done`
/// that were read already, and the place behind its closing bracket.
/// Elements are separated by commas; blanks may stand around them.
pub open spec fn elements_at(
    s: Seq<u8>,
    pos: int,
    table: Seq<(Seq<u8>, u64)>,
    depth: nat,
    done: Seq<JsonValue>,
) -> Option<(JsonValue, int)>
    decreases s.len() - pos, 2nat,
{
    match value_at(s, pos, table, depth) {
        None => None,
        Some((value, end)) => {
            let next = blanks_end(s, end);
            if !(pos < next < s.len()) {
                None
            } else if s[next] == 44 {
                let after = blanks_end(s, next + 1);
                if !(pos < after <= s.len()) {
                    None
                } else {
                    elements_at(s, after, table, depth, done.push(value))
                }
            } else if s[next] == 93 {
                Some((JsonValue::Array(done.push(value)), next + 1))
            } else {
                None
            }
        },
    }
}

/// The object whose next member stands at `pos`, behind the members `done`
/// that were read already, and the place behind its closing bracket. A
/// member is a string, a colon and a value; members are separated by commas;
/// blanks may stand around each of these. Members keep the order of the
/// text, whether or not a name occurs twice.
pub open spec fn members_at(
    s: Seq<u8>,
    pos: int,
    table: Seq<(Seq<u8>, u64)>,
    depth: nat,
    done: Seq<(Seq<u8>, JsonValue)>,
) -> Option<(JsonValue, int)>
    decreases s.len() - pos, 2nat,
{
    if !(0 <= pos < s.len() && s[pos] == 34) {
        None
    } else {
        match string_end(s, pos + 1, Seq::empty()) {
            None => None,
            Some((name, name_end)) => {
                let colon = blanks_end(s, name_end);
                if !(pos < colon < s.len() && s[colon] == 58) {
                    None
                } else {
                    let start = blanks_end(s, colon + 1);
                    if !(pos < start <= s.len()) {
                        None
                    } else {
                        match value_at(s, start, table, depth) {
                            None => None,
                            Some((value, end)) => {
                                let next = blanks_end(s, end);
                                if !(pos < next < s.len()) {
                                    None
                                } else if s[next] == 44 {
                                    let after = blanks_end(s, next + 1);
                                    if !(pos < after <= s.len()) {
                                        None
                                    } else {
                                        members_at(
                                            s,
                                            after,
                                            table,
                                            depth,
                                            done.push((name, value)),
                                        )
                                    }
                                } else if s[next] == 125 {
                                    Some((JsonValue::Object(done.push((name, value))), next + 1))
                                } else {
                                    None
                                }
                            },
                        }
                    }
                }
            },
        }
    }
}

/// The document that the text `s` holds: one value, with nothing but blanks
/// before and behind it.
pub open spec fn document_at(s: Seq<u8>, table: Seq<(Seq<u8>, u64)>) -> Option<JsonValue> {
    match value_at(s, blanks_end(s, 0), table, NESTING_LIMIT as nat) {
        None => None,
        Some((value, end)) => if blanks_end(s, end) == s.len() {
            Some(value)
        } else {
            None
        },
    }
}

/// Reads the value that stands at `pos`.
pub fn parse_value<'json>(s: &[u8], pos: usize, table: &NumberTable, depth: usize) -> (r: Option<
    (CJsonRef<'json>, usize),
>)
    requires
        pos <= s.len(),
    ensures
        match r {
            Some((node, end)) => value_at(s@, pos as int, table@, depth as nat) == Some(
                (node@, end as int),
            ) && pos < end <= s.len(),
            None => value_at(s@, pos as int, table@, depth as nat) is None,
        },
    decreases s.len() - pos, 1nat,
{
    if pos >= s.len() {
        return None;
    }
    let b = s[pos];
    if b == 110 {
        if s.len() - pos >= 4 && s[pos + 1] == 117 && s[pos + 2] == 108 && s[pos + 3] == 108 {
            Some((CJsonRef::new_null(), pos + 4))
        } else {
            None
        }
    } else if b == 116 {
        if s.len() - pos >= 4 && s[pos + 1] == 114 && s[pos + 2] == 117 && s[pos + 3] == 101 {
            Some((CJsonRef::new_bool(true), pos + 4))
        } else {
            None
        }
    } else if b == 102 {
        if s.len() - pos >= 5 && s[pos + 1] == 97 && s[pos + 2] == 108 && s[pos + 3] == 115 && s[pos
            + 4] == 101 {
            Some((CJsonRef::new_bool(false), pos + 5))
        } else {
            None
        }
    } else if b == 34 {
        match read_string(s, pos + 1) {
            Some((bytes, end)) => Some((CJsonRef::new_string(bytes.as_slice()), end)),
            None => None,
        }
    } else if b == 91 {
        let first = skip_blanks(s, pos + 1);
        if depth == 0 {
            None
        } else if first < s.len() && s[first] == 93 {
            Some((CJsonRef::new_array(), first + 1))
        } else {
            parse_elements(s, first, table, depth - 1)
        }
    } else if b == 123 {
        let first = skip_blanks(s, pos + 1);
        if depth == 0 {
            None
        } else if first < s.len() && s[first] == 125 {
            Some((CJsonRef::new_object(), first + 1))
        } else {
            parse_members(s, first, table, depth - 1)
        }
    } else {
        match scan_number(s, pos) {
            None => None,
            Some(end) => {
                let token = vstd::slice::slice_subrange(s, pos, end);
                match token_bits(token, table) {
                    Some(bits) => Some((CJsonRef::new_number(bits), end)),
                    None => None,
                }
            },
        }
    }
}

/// Reads the elements of an array from `pos` to its closing bracket.
fn parse_elements<'json>(s: &[u8], pos: usize, table: &NumberTable, depth: usize) -> (r: Option<
    (CJsonRef<'json>, usize),
>)
    requires
        pos <= s.len(),
    ensures
        match r {
            Some((node, end)) => elements_at(
                s@,
                pos as int,
                table@,
                depth as nat,
                Seq::empty(),
            ) == Some((node@, end as int)) && pos < end <= s.len(),
            None => elements_at(s@, pos as int, table@, depth as nat, Seq::empty()) is None,
        },
    decreases s.len() - pos, 2nat,
{
    let mut array = CJsonRef::new_array();
    let mut at: usize = pos;
    loop
        invariant
            pos <= at <= s.len(),
            array@ is Array,
            elements_at(s@, pos as int, table@, depth as nat, Seq::empty()) == elements_at(
                s@,
                at as int,
                table@,
                depth as nat,
                array@.children(),
            ),
        decreases s.len() - at,
    {
        match parse_value(s, at, table, depth) {
            None => {
                return None;
            },
            Some((value, end)) => {
                array.append(value);
                let next = skip_blanks(s, end);
                if next >= s.len() {
                    return None;
                }
                if s[next] == 44 {
                    at = skip_blanks(s, next + 1);
                } else if s[next] == 93 {
                    return Some((array, next + 1));
                } else {
                    return None;
                }
            },
        }
    }
}

/// Reads the members of an object from `pos` to its closing bracket.
fn parse_members<'json>(s: &[u8], pos: usize, table: &NumberTable, depth: usize) -> (r: Option<
    (CJsonRef<'json>, usize),
>)
    requires
        pos <= s.len(),
    ensures
        match r {
            Some((node, end)) => members_at(
                s@,
                pos as int,
                table@,
                depth as nat,
                Seq::empty(),
            ) == Some((node@, end as int)) && pos < end <= s.len(),
            None => members_at(s@, pos as int, table@, depth as nat, Seq::empty()) is None,
        },
    decreases s.len() - pos, 2nat,
{
    let mut object = CJsonRef::new_object();
    let mut at: usize = pos;
    loop
        invariant
            pos <= at <= s.len(),
            object@ is Object,
            members_at(s@, pos as int, table@, depth as nat, Seq::empty()) == members_at(
                s@,
                at as int,
                table@,
                depth as nat,
                object@.members(),
            ),
        decreases s.len() - at,
    {
        if !(at < s.len() && s[at] == 34) {
            return None;
        }
        let (name, name_end) = match read_string(s, at + 1) {
            Some(read) => read,
            None => {
                return None;
            },
        };
        let colon = skip_blanks(s, name_end);
        if !(colon < s.len() && s[colon] == 58) {
            return None;
        }
        let start = skip_blanks(s, colon + 1);
        match parse_value(s, start, table, depth) {
            None => {
                return None;
            },
            Some((value, end)) => {
                object.append_member(Text::Owned(name), value);
                let next = skip_blanks(s, end);
                if next >= s.len() {
                    return None;
                }
                if s[next] == 44 {
                    at = skip_blanks(s, next + 1);
                } else if s[next] == 125 {
                    return Some((object, next + 1));
                } else {
                    return None;
                }
            },
        }
    }
}

/// Reads the document that the text `s` holds.
pub fn parse_document<'json>(s: &[u8], table: &NumberTable) -> (r: Option<CJsonRef<'json>>)
    ensures
        match r {
            Some(node) => document_at(s@, table@) == Some(node@),
            None => document_at(s@, table@) is None,
        },
{
    let start = skip_blanks(s, 0);
    match parse_value(s, start, table, NESTING_LIMIT) {
        None => None,
        Some((node, end)) => {
            if skip_blanks(s, end) == s.len() {
                Some(node)
            } else {
                None
            }
        },
    }
}

} // verus!
