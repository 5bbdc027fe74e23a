//! From documents to JSON text.

use vstd::prelude::*;
use vstd::arithmetic::power2::pow2;
use vstd::arithmetic::power2::lemma_pow2_unfold;
use vstd::arithmetic::power2::lemma_pow2_strictly_increases;
use vstd::arithmetic::power2::lemma_pow2_pos;
use vstd::arithmetic::power2::lemma2_to64;
use vstd::arithmetic::power2::lemma2_to64_rest;
use crate::cjsonref::CJsonRef;
use crate::number::int_value;
use crate::number::is_finite_spec;
use crate::number::sign_bit;
use crate::number::significand;
use crate::decimal::decimal_digits;
use crate::decimal::decimal_unsigned;
use crate::text::lexer::number_end;
use crate::text::lexer::scan_number;
use crate::text::table::NumberTable;
use crate::text::table::table_text;
use crate::value::JsonValue;

verus! {

/// The word `null`.
pub open spec fn null_word() -> Seq<u8> {
    seq![110u8, 117u8, 108u8, 108u8]
}

/// The word `true`.
pub open spec fn true_word() -> Seq<u8> {
    seq![116u8, 114u8, 117u8, 101u8]
}

/// The word `false`.
pub open spec fn false_word() -> Seq<u8> {
    seq![102u8, 97u8, 108u8, 115u8, 101u8]
}

/// The lower-case hexadecimal digit for `d`.
pub open spec fn hex_char(d: int) -> u8 {
    if d < 10 {
        (48 + d) as u8
    } else {
        (87 + d) as u8
    }
}

/// One byte of a string as it stands in a text: the quote, the backslash
/// and the bytes below the space are escaped, every other byte stands for
/// itself.
pub open spec fn escaped_byte(b: u8) -> Seq<u8> {
    if b == 34 {
        seq![92u8, 34u8]
    } else if b == 92 {
        seq![92u8, 92u8]
    } else if b == 8 {
        seq![92u8, 98u8]
    } else if b == 12 {
        seq![92u8, 102u8]
    } else if b == 10 {
        seq![92u8, 110u8]
    } else if b == 13 {
        seq![92u8, 114u8]
    } else if b == 9 {
        seq![92u8, 116u8]
    } else if b < 32 {
        seq![92u8, 117u8, 48u8, 48u8, hex_char(b as int / 16), hex_char(b as int % 16)]
    } else {
        seq![b]
    }
}

/// The bytes of a string as they stand in a text, between the quotes.
pub open spec fn escaped(bytes: Seq<u8>) -> Seq<u8>
    decreases bytes.len(),
{
    if bytes.len() == 0 {
        Seq::empty()
    } else {
        escaped_byte(bytes.first()) + escaped(bytes.drop_first())
    }
}

/// A string as it stands in a text: in quotes, with its bytes escaped.
pub open spec fn string_text(bytes: Seq<u8>) -> Seq<u8> {
    seq![34u8] + escaped(bytes) + seq![34u8]
}

/// The magnitude of the number with the bits `bits`, where its value is an
/// integer of up to thirty-two bits.
pub open spec fn small_integer(bits: u64) -> Option<nat> {
    match int_value(bits) {
        Some(v) => if -0x8000_0000 <= v <= 0x7fff_ffff {
            Some(
                (if v < 0 {
                    -v
                } else {
                    v
                }) as nat,
            )
        } else {
            None
        },
        None => None,
    }
}

/// A number as it stands in a text.
///
/// An infinity and a NaN have no text of their own and stand as `null`. A
/// number whose value is an integer of up to thirty-two bits stands as that
/// integer, with a minus sign where its sign bit is set. For any other
/// number `table` must hold a text, and that text must have the form of a
/// number.
pub open spec fn number_text(bits: u64, table: Seq<(Seq<u8>, u64)>) -> Option<Seq<u8>> {
    if !is_finite_spec(bits) {
        Some(null_word())
    } else {
        match small_integer(bits) {
            Some(magnitude) => Some(
                if sign_bit(bits) {
                    seq![45u8] + decimal_digits(magnitude)
                } else {
                    decimal_digits(magnitude)
                },
            ),
            None => match table_text(table, bits) {
                Some(text) => if number_end(text, 0) == Some(text.len() as int) {
                    Some(text)
                } else {
                    None
                },
                None => None,
            },
        }
    }
}

/// `depth` tabs.
pub open spec fn tabs(depth: nat) -> Seq<u8> {
    Seq::new(depth, |i: int| 9u8)
}

/// What `part` is where the text is laid out over several lines, and
/// nothing where it is compact.
pub open spec fn layout(pretty: bool, part: Seq<u8>) -> Seq<u8> {
    if pretty {
        part
    } else {
        Seq::empty()
    }
}

/// A document as text.
///
/// Compact text has no blanks. Laid out text has a space behind each comma
/// of an array, and shows each member of an object on a line of its own,
/// indented by one tab for each object and array around it, with a tab
/// behind the colon. `depth` is the number of objects and arrays around the
/// value. There is no text where a number has none.
pub open spec fn value_text(
    value: JsonValue,
    table: Seq<(Seq<u8>, u64)>,
    pretty: bool,
    depth: nat,
) -> Option<Seq<u8>>
    decreases value,
{
    match value {
        JsonValue::Null => Some(null_word()),
        JsonValue::Bool(b) => Some(
            if b {
                true_word()
            } else {
                false_word()
            },
        ),
        JsonValue::Number(bits) => number_text(bits, table),
        JsonValue::String(bytes) => Some(string_text(bytes)),
        JsonValue::Array(items) => match elements_text(items, table, pretty, depth + 1) {
            Some(inner) => Some(seq![91u8] + inner + seq![93u8]),
            None => None,
        },
        JsonValue::Object(members) => match members_text(members, table, pretty, depth + 1) {
            Some(inner) => Some(
                seq![123u8] + layout(pretty, seq![10u8]) + inner + layout(pretty, tabs(depth))
                    + seq![125u8],
            ),
            None => None,
        },
    }
}

/// What stands behind an element of an array: a comma where `more`
/// elements follow, and nothing behind the last.
pub open spec fn element_tail(more: bool, pretty: bool) -> Seq<u8> {
    if more {
        seq![44u8] + layout(pretty, seq![32u8])
    } else {
        Seq::empty()
    }
}

/// What stands before the value of a member of an object: the indentation,
/// the name and the colon.
pub open spec fn member_head(name: Seq<u8>, pretty: bool, depth: nat) -> Seq<u8> {
    layout(pretty, tabs(depth)) + string_text(name) + seq![58u8] + layout(pretty, seq![9u8])
}

/// What stands behind the value of a member of an object: a comma where
/// `more` members follow, and the end of the line.
pub open spec fn member_tail(more: bool, pretty: bool) -> Seq<u8> {
    (if more {
        seq![44u8]
    } else {
        Seq::empty()
    }) + layout(pretty, seq![10u8])
}

/// The elements of an array as text, with a comma between each two.
pub open spec fn elements_text(
    items: Seq<JsonValue>,
    table: Seq<(Seq<u8>, u64)>,
    pretty: bool,
    depth: nat,
) -> Option<Seq<u8>>
    decreases items,
{
    if items.len() == 0 {
        Some(Seq::empty())
    } else {
        match value_text(items.first(), table, pretty, depth) {
            None => None,
            Some(first) => match elements_text(items.drop_first(), table, pretty, depth) {
                None => None,
                Some(rest) => Some(first + element_tail(items.len() > 1, pretty) + rest),
            },
        }
    }
}

/// The members of an object as text: each a name, a colon and a value, with
/// a comma between each two.
pub open spec fn members_text(
    members: Seq<(Seq<u8>, JsonValue)>,
    table: Seq<(Seq<u8>, u64)>,
    pretty: bool,
    depth: nat,
) -> Option<Seq<u8>>
    decreases members,
{
    if members.len() == 0 {
        Some(Seq::empty())
    } else {
        match value_text(members.first().1, table, pretty, depth) {
            None => None,
            Some(value) => match members_text(members.drop_first(), table, pretty, depth) {
                None => None,
                Some(rest) => Some(
                    member_head(members.first().0, pretty, depth) + value + member_tail(
                        members.len() > 1,
                        pretty,
                    ) + rest,
                ),
            },
        }
    }
}

/// Appends the bytes of `part` to `out`.
fn push_all(out: &mut Vec<u8>, part: &[u8])
    ensures
        final(out)@ == old(out)@ + part@,
{
    let mut i: usize = 0;
    while i < part.len()
        invariant
            0 <= i <= part.len(),
            out@ == old(out)@ + part@.take(i as int),
        decreases part.len() - i,
    {
        out.push(part[i]);
        proof {
            assert(part@.take(i + 1) =~= part@.take(i as int).push(part@[i as int]));
            assert(out@ =~= old(out)@ + part@.take(i + 1));
        }
        i += 1;
    }
    proof {
        assert(part@.take(part.len() as int) =~= part@);
    }
}

/// The lower-case hexadecimal digit for `d`.
fn hex_digit_char(d: u8) -> (r: u8)
    requires
        d < 16,
    ensures
        r == hex_char(d as int),
{
    if d < 10 {
        48 + d
    } else {
        87 + d
    }
}

/// Appends a string as it stands in a text to `out`.
pub fn write_string(bytes: &[u8], out: &mut Vec<u8>)
    ensures
        final(out)@ == old(out)@ + string_text(bytes@),
{
    out.push(34);
    let mut i: usize = 0;
    proof {
        assert(bytes@.skip(0) =~= bytes@);
    }
    while i < bytes.len()
        invariant
            0 <= i <= bytes.len(),
            old(out)@ + seq![34u8] + escaped(bytes@) == out@ + escaped(bytes@.skip(i as int)),
        decreases bytes.len() - i,
    {
        let b = bytes[i];
        let ghost before = out@;
        proof {
            assert(bytes@.skip(i as int).drop_first() =~= bytes@.skip(i + 1));
            assert(bytes@.skip(i as int).first() == b);
        }
        if b == 34 {
            out.push(92);
            out.push(34);
        } else if b == 92 {
            out.push(92);
            out.push(92);
        } else if b == 8 {
            out.push(92);
            out.push(98);
        } else if b == 12 {
            out.push(92);
            out.push(102);
        } else if b == 10 {
            out.push(92);
            out.push(110);
        } else if b == 13 {
            out.push(92);
            out.push(114);
        } else if b == 9 {
            out.push(92);
            out.push(116);
        } else if b < 32 {
            out.push(92);
            out.push(117);
            out.push(48);
            out.push(48);
            out.push(hex_digit_char(b / 16));
            out.push(hex_digit_char(b % 16));
        } else {
            out.push(b);
        }
        proof {
            assert(out@ =~= before + escaped_byte(b));
            assert(out@ + escaped(bytes@.skip(i + 1)) =~= before + (escaped_byte(b) + escaped(
                bytes@.skip(i + 1),
            )));
        }
        i += 1;
    }
    out.push(34);
    proof {
        assert(escaped(bytes@.skip(bytes.len() as int)) =~= Seq::<u8>::empty());
        assert(out@ =~= old(out)@ + string_text(bytes@));
    }
}

/// The magnitude of the number with the bits `bits`, where its value is an
/// integer of up to thirty-two bits.
pub fn small_integer_of(bits: u64) -> (r: Option<u32>)
    ensures
        match r {
            Some(magnitude) => small_integer(bits) == Some(magnitude as nat),
            None => small_integer(bits) is None,
        },
{
    let e: u64 = (bits / 0x10_0000_0000_0000) % 0x800;
    let f: u64 = bits % 0x10_0000_0000_0000;
    let negative = bits >= 0x8000_0000_0000_0000;
    proof {
        lemma2_to64();
        lemma2_to64_rest();
    }
    if e == 0 {
        if f == 0 {
            Some(0)
        } else {
            None
        }
    } else if e == 0x7ff {
        None
    } else if e >= 1075 {
        proof {
            let m = significand(bits);
            let scale = pow2((e - 1075) as nat) as int;
            lemma_pow2_pos((e - 1075) as nat);
            assert(m * scale >= m) by (nonlinear_arith)
                requires
                    scale >= 1,
                    m >= 0,
            ;
            let sign: int = if sign_bit(bits) {
                -1
            } else {
                1
            };
            assert(sign * (m * scale) == m * scale || sign * (m * scale) == -(m * scale))
                by (nonlinear_arith)
                requires
                    sign == 1 || sign == -1,
            ;
        }
        None
    } else if e < 1023 {
        proof {
            let m = significand(bits);
            let divisor = pow2((1075 - e) as nat) as int;
            if 1075 - e > 53 {
                lemma_pow2_strictly_increases(53, (1075 - e) as nat);
            }
            assert(pow2(53) == 0x20_0000_0000_0000);
            assert(m % divisor == m) by (nonlinear_arith)
                requires
                    0 <= m < divisor,
            ;
        }
        None
    } else {
        let m: u64 = 0x10_0000_0000_0000 + f;
        let shift: u64 = 1075 - e;
        let mut divisor: u64 = 1;
        let mut k: u64 = 0;
        while k < shift
            invariant
                0 <= k <= shift <= 52,
                divisor == pow2(k as nat),
                divisor <= 0x10_0000_0000_0000,
                pow2(52) == 0x10_0000_0000_0000,
            decreases shift - k,
        {
            proof {
                lemma_pow2_unfold((k + 1) as nat);
                if k + 1 < 52 {
                    lemma_pow2_strictly_increases((k + 1) as nat, 52);
                }
            }
            divisor = divisor * 2;
            k = k + 1;
        }
        if m % divisor != 0 {
            return None;
        }
        let v: u64 = m / divisor;
        proof {
            let sign: int = if sign_bit(bits) {
                -1
            } else {
                1
            };
            assert(sign * (v as int) == v || sign * (v as int) == -(v as int)) by (nonlinear_arith)
                requires
                    sign == 1 || sign == -1,
            ;
        }
        if v <= 0x7fff_ffff || (negative && v == 0x8000_0000) {
            Some(v as u32)
        } else {
            None
        }
    }
}

/// Appends a number as it stands in a text to `out`. Fails where the number
/// has no text.
pub fn write_number(bits: u64, table: &NumberTable, out: &mut Vec<u8>) -> (r: bool)
    ensures
        match number_text(bits, table@) {
            Some(text) => r && final(out)@ == old(out)@ + text,
            None => !r,
        },
{
    if (bits / 0x10_0000_0000_0000) % 0x800 == 0x7ff {
        out.push(110);
        out.push(117);
        out.push(108);
        out.push(108);
        proof {
            assert(out@ =~= old(out)@ + null_word());
        }
        return true;
    }
    match small_integer_of(bits) {
        Some(magnitude) => {
            if bits >= 0x8000_0000_0000_0000 {
                out.push(45);
            }
            let digits = decimal_unsigned(magnitude as u128);
            push_all(out, digits.as_slice());
            proof {
                if sign_bit(bits) {
                    assert(out@ =~= old(out)@ + (seq![45u8] + decimal_digits(magnitude as nat)));
                }
            }
            true
        },
        None => match table.text_of(bits) {
            Some(text) => {
                match scan_number(text, 0) {
                    Some(end) => {
                        if end == text.len() {
                            push_all(out, text);
                            true
                        } else {
                            false
                        }
                    },
                    None => false,
                }
            },
            None => false,
        },
    }
}

/// The text of the rest of an array, behind the text `done` of the
/// elements that were written already.
spec fn elements_behind(
    done: Seq<u8>,
    items: Seq<JsonValue>,
    table: Seq<(Seq<u8>, u64)>,
    pretty: bool,
    depth: nat,
) -> Option<Seq<u8>> {
    match elements_text(items, table, pretty, depth) {
        Some(rest) => Some(done + rest),
        None => None,
    }
}

/// The text of the rest of an object, behind the text `done` of the members
/// that were written already.
spec fn members_behind(
    done: Seq<u8>,
    members: Seq<(Seq<u8>, JsonValue)>,
    table: Seq<(Seq<u8>, u64)>,
    pretty: bool,
    depth: nat,
) -> Option<Seq<u8>> {
    match members_text(members, table, pretty, depth) {
        Some(rest) => Some(done + rest),
        None => None,
    }
}

/// Appends what stands behind an element of an array.
fn write_element_tail(more: bool, pretty: bool, out: &mut Vec<u8>)
    ensures
        final(out)@ == old(out)@ + element_tail(more, pretty),
{
    if more {
        out.push(44);
        if pretty {
            out.push(32);
        }
    }
    proof {
        assert(out@ =~= old(out)@ + element_tail(more, pretty));
    }
}

/// Appends what stands before the value of a member of an object.
fn write_member_head(name: &[u8], pretty: bool, indent: &Vec<u8>, out: &mut Vec<u8>)
    requires
        indent@ == tabs(indent@.len()),
    ensures
        final(out)@ == old(out)@ + member_head(name@, pretty, indent@.len()),
{
    if pretty {
        push_all(out, indent.as_slice());
    }
    let ghost indented = out@;
    write_string(name, out);
    out.push(58);
    if pretty {
        out.push(9);
    }
    proof {
        assert(indented =~= old(out)@ + layout(pretty, tabs(indent@.len())));
        assert(out@ =~= old(out)@ + member_head(name@, pretty, indent@.len()));
    }
}

/// Appends what stands behind the value of a member of an object.
fn write_member_tail(more: bool, pretty: bool, out: &mut Vec<u8>)
    ensures
        final(out)@ == old(out)@ + member_tail(more, pretty),
{
    if more {
        out.push(44);
    }
    if pretty {
        out.push(10);
    }
    proof {
        assert(out@ =~= old(out)@ + member_tail(more, pretty));
    }
}

/// Appends the text of `node` to `out`. `indent` holds one tab for each
/// object and array around `node`. Fails where a number has no text; `out`
/// then holds a part of the text.
pub fn write_value(
    node: &CJsonRef<'_>,
    table: &NumberTable,
    pretty: bool,
    indent: &mut Vec<u8>,
    out: &mut Vec<u8>,
) -> (r: bool)
    requires
        old(indent)@ == tabs(old(indent)@.len()),
    ensures
        match value_text(node@, table@, pretty, old(indent)@.len()) {
            Some(text) => r && final(out)@ == old(out)@ + text && final(indent)@ == old(indent)@,
            None => !r,
        },
    decreases node@, 1nat,
{
    if node.is_null() {
        push_all(out, &[110u8, 117u8, 108u8, 108u8]);
        proof {
            assert(out@ =~= old(out)@ + null_word());
        }
        return true;
    }
    if let Some(b) = node.as_bool() {
        if b {
            push_all(out, &[116u8, 114u8, 117u8, 101u8]);
            proof {
                assert(out@ =~= old(out)@ + true_word());
            }
        } else {
            push_all(out, &[102u8, 97u8, 108u8, 115u8, 101u8]);
            proof {
                assert(out@ =~= old(out)@ + false_word());
            }
        }
        return true;
    }
    if let Some(bits) = node.as_number() {
        return write_number(bits, table, out);
    }
    if let Some(bytes) = node.as_c_string() {
        write_string(bytes, out);
        return true;
    }
    if node.is_array() {
        write_array(node, table, pretty, indent, out)
    } else if node.is_object() {
        write_object(node, table, pretty, indent, out)
    } else {
        false
    }
}

/// Appends the text of the array `node` to `out`.
fn write_array(
    node: &CJsonRef<'_>,
    table: &NumberTable,
    pretty: bool,
    indent: &mut Vec<u8>,
    out: &mut Vec<u8>,
) -> (r: bool)
    requires
        old(indent)@ == tabs(old(indent)@.len()),
        node@ is Array,
    ensures
        match value_text(node@, table@, pretty, old(indent)@.len()) {
            Some(text) => r && final(out)@ == old(out)@ + text && final(indent)@ == old(indent)@,
            None => !r,
        },
    decreases node@, 0nat,
{
    let ghost depth = indent@.len();
    let ghost items = node@->Array_0;
    let count = node.len();
    out.push(91);
    indent.push(9);
    proof {
        assert(indent@ =~= tabs(depth + 1));
        assert(items.skip(0) =~= items);
    }
    let ghost opened = out@;
    let ghost done: Seq<u8> = Seq::empty();
    let mut i: usize = 0;
    proof {
        assert(opened + done =~= opened);
    }
    while i < count
        invariant
            node@ == JsonValue::Array(items),
            count == items.len(),
            0 <= i <= count,
            depth == old(indent)@.len(),
            indent@ == tabs(depth + 1),
            indent@.len() == depth + 1,
            out@ == opened + done,
            elements_text(items, table@, pretty, depth + 1) == elements_behind(
                done,
                items.skip(i as int),
                table@,
                pretty,
                depth + 1,
            ),
        decreases count - i,
    {
        let ghost rest = items.skip(i as int);
        proof {
            assert(rest.drop_first() =~= items.skip(i + 1));
            assert(rest.first() == items[i as int]);
        }
        let child = match node.child(i) {
            Some(child) => child,
            None => {
                return false;
            },
        };
        if !write_value(child, table, pretty, indent, out) {
            return false;
        }
        write_element_tail(i + 1 < count, pretty, out);
        proof {
            let first = value_text(items[i as int], table@, pretty, depth + 1)->0;
            let piece = first + element_tail(rest.len() > 1, pretty);
            assert(out@ =~= opened + (done + piece));
            match elements_text(items.skip(i + 1), table@, pretty, depth + 1) {
                Some(tail) => {
                    assert(done + (piece + tail) =~= (done + piece) + tail);
                },
                None => {},
            }
            done = done + piece;
        }
        i += 1;
    }
    let _ = indent.pop();
    out.push(93);
    proof {
        assert(indent@ =~= old(indent)@);
        assert(done + Seq::<u8>::empty() =~= done);
        assert(out@ =~= old(out)@ + (seq![91u8] + done + seq![93u8]));
    }
    true
}

/// Appends the text of the object `node` to `out`.
fn write_object(
    node: &CJsonRef<'_>,
    table: &NumberTable,
    pretty: bool,
    indent: &mut Vec<u8>,
    out: &mut Vec<u8>,
) -> (r: bool)
    requires
        old(indent)@ == tabs(old(indent)@.len()),
        node@ is Object,
    ensures
        match value_text(node@, table@, pretty, old(indent)@.len()) {
            Some(text) => r && final(out)@ == old(out)@ + text && final(indent)@ == old(indent)@,
            None => !r,
        },
    decreases node@, 0nat,
{
    let ghost depth = indent@.len();
    let ghost members = node@->Object_0;
    let count = node.len();
    out.push(123);
    if pretty {
        out.push(10);
    }
    indent.push(9);
    proof {
        assert(indent@ =~= tabs(depth + 1));
        assert(members.skip(0) =~= members);
    }
    let ghost opened = out@;
    let ghost done: Seq<u8> = Seq::empty();
    let mut i: usize = 0;
    proof {
        assert(opened =~= old(out)@ + (seq![123u8] + layout(pretty, seq![10u8])));
        assert(opened + done =~= opened);
    }
    while i < count
        invariant
            node@ == JsonValue::Object(members),
            count == members.len(),
            0 <= i <= count,
            depth == old(indent)@.len(),
            indent@ == tabs(depth + 1),
            indent@.len() == depth + 1,
            out@ == opened + done,
            members_text(members, table@, pretty, depth + 1) == members_behind(
                done,
                members.skip(i as int),
                table@,
                pretty,
                depth + 1,
            ),
        decreases count - i,
    {
        let ghost rest = members.skip(i as int);
        proof {
            assert(rest.drop_first() =~= members.skip(i + 1));
            assert(rest.first() == members[i as int]);
            assert(node@.children()[i as int] == members[i as int].1);
            assert(node@.names()[i as int] == members[i as int].0);
        }
        let name = match node.name(i) {
            Some(name) => name,
            None => {
                return false;
            },
        };
        let child = match node.child(i) {
            Some(child) => child,
            None => {
                return false;
            },
        };
        write_member_head(name, pretty, indent, out);
        if !write_value(child, table, pretty, indent, out) {
            return false;
        }
        write_member_tail(i + 1 < count, pretty, out);
        proof {
            let value = value_text(members[i as int].1, table@, pretty, depth + 1)->0;
            let piece = member_head(members[i as int].0, pretty, depth + 1) + value + member_tail(
                rest.len() > 1,
                pretty,
            );
            assert(out@ =~= opened + (done + piece));
            match members_text(members.skip(i + 1), table@, pretty, depth + 1) {
                Some(tail) => {
                    assert(done + (piece + tail) =~= (done + piece) + tail);
                },
                None => {},
            }
            done = done + piece;
        }
        i += 1;
    }
    let _ = indent.pop();
    let ghost closed = out@;
    if pretty {
        push_all(out, indent.as_slice());
    }
    out.push(125);
    proof {
        assert(indent@ =~= old(indent)@);
        assert(done + Seq::<u8>::empty() =~= done);
        assert(out@ =~= closed + (layout(pretty, tabs(depth)) + seq![125u8]));
        assert(out@ =~= old(out)@ + (seq![123u8] + layout(pretty, seq![10u8]) + done + layout(
            pretty,
            tabs(depth),
        ) + seq![125u8]));
    }
    true
}

/// The text of `node`: compact, or laid out over several lines. Nothing
/// where a number has no text.
pub fn print_document(node: &CJsonRef<'_>, table: &NumberTable, pretty: bool) -> (r: Option<
    Vec<u8>,
>)
    ensures
        match value_text(node@, table@, pretty, 0) {
            Some(text) => r matches Some(bytes) && bytes@ == text,
            None => r is None,
        },
{
    let mut out: Vec<u8> = Vec::new();
    let mut indent: Vec<u8> = Vec::new();
    proof {
        assert(indent@ =~= tabs(0));
    }
    if write_value(node, table, pretty, &mut indent, &mut out) {
        proof {
            let text = value_text(node@, table@, pretty, 0)->0;
            assert(Seq::<u8>::empty() + text =~= text);
        }
        Some(out)
    } else {
        None
    }
}

/// Whether the number with the bits `bits` needs a text from a table
/// before it can be printed: it is finite, and its value is no integer of up
/// to thirty-two bits.
pub open spec fn needs_text(bits: u64) -> bool {
    is_finite_spec(bits) && small_integer(bits) is None
}

/// The numbers of `value` that need a text from a table, behind the numbers
/// `done` that were found already, in the order in which they are printed.
pub open spec fn unprinted(value: JsonValue, done: Seq<u64>) -> Seq<u64>
    decreases value,
{
    match value {
        JsonValue::Number(bits) => if needs_text(bits) {
            done.push(bits)
        } else {
            done
        },
        JsonValue::Array(items) => unprinted_elements(items, done),
        JsonValue::Object(members) => unprinted_members(members, done),
        _ => done,
    }
}

/// The numbers of the elements of an array that need a text from a table.
pub open spec fn unprinted_elements(items: Seq<JsonValue>, done: Seq<u64>) -> Seq<u64>
    decreases items,
{
    if items.len() == 0 {
        done
    } else {
        unprinted_elements(items.drop_first(), unprinted(items.first(), done))
    }
}

/// The numbers of the members of an object that need a text from a table.
pub open spec fn unprinted_members(members: Seq<(Seq<u8>, JsonValue)>, done: Seq<u64>) -> Seq<u64>
    decreases members,
{
    if members.len() == 0 {
        done
    } else {
        unprinted_members(members.drop_first(), unprinted(members.first().1, done))
    }
}

/// Appends to `out` the numbers of `node` that need a text from a table.
pub fn collect_numbers(node: &CJsonRef<'_>, out: &mut Vec<u64>)
    ensures
        final(out)@ == unprinted(node@, old(out)@),
    decreases node@,
{
    if let Some(bits) = node.as_number() {
        if (bits / 0x10_0000_0000_0000) % 0x800 != 0x7ff && small_integer_of(bits).is_none() {
            out.push(bits);
        }
        return ;
    }
    if !node.is_array() && !node.is_object() {
        return ;
    }
    let count = node.len();
    let ghost children = node@.children();
    let mut i: usize = 0;
    proof {
        assert(children.skip(0) =~= children);
        if node@ is Object {
            lemma_unprinted_members(node@->Object_0, out@);
        }
    }
    while i < count
        invariant
            node@ is Array || node@ is Object,
            children == node@.children(),
            count == children.len(),
            0 <= i <= count,
            unprinted(node@, old(out)@) == unprinted_elements(children.skip(i as int), out@),
        decreases count - i,
    {
        proof {
            assert(children.skip(i as int).drop_first() =~= children.skip(i + 1));
            assert(children.skip(i as int).first() == children[i as int]);
        }
        match node.child(i) {
            Some(child) => {
                collect_numbers(child, out);
            },
            None => {},
        }
        i += 1;
    }
}

/// The numbers of the members of an object are the numbers of their
/// values.
proof fn lemma_unprinted_members(members: Seq<(Seq<u8>, JsonValue)>, done: Seq<u64>)
    ensures
        unprinted_members(members, done) == unprinted_elements(
            JsonValue::Object(members).children(),
            done,
        ),
    decreases members.len(),
{
    let values = JsonValue::Object(members).children();
    if members.len() > 0 {
        let rest = members.drop_first();
        lemma_unprinted_members(rest, unprinted(members.first().1, done));
        assert(JsonValue::Object(rest).children() =~= values.drop_first());
        assert(values.first() == members.first().1);
    }
}

} // verus!
