//! What holds between printing and parsing.

use vstd::prelude::*;
use crate::number::bits_of_nat;
use crate::number::is_finite_spec;
use crate::number::lemma_bits_of_int_value;
use crate::number::sign_bit;
use crate::decimal::decimal_digits;
use crate::text::lexer::all_digits;
use crate::text::lexer::digits_value;
use crate::text::lexer::integer_bits;
use crate::text::parse::NESTING_LIMIT;
use crate::text::parse::document_at;
use crate::text::parse::elements_at;
use crate::text::parse::members_at;
use crate::text::parse::value_at;
use crate::text::print::element_tail;
use crate::text::print::elements_text;
use crate::text::print::layout;
use crate::text::print::member_head;
use crate::text::print::member_tail;
use crate::text::print::members_text;
use crate::text::print::small_integer;
use crate::text::print::tabs;
use crate::text::print::value_text;
use crate::text::print::null_word;
use crate::text::print::true_word;
use crate::text::print::false_word;
use crate::value::JsonValue;
use crate::text::lexer::blanks_end;
use crate::text::lexer::digits_end;
use crate::text::lexer::escape_at;
use crate::text::lexer::exponent_end;
use crate::text::lexer::hex4;
use crate::text::lexer::hex_value;
use crate::text::lexer::is_blank;
use crate::text::lexer::is_digit;
use crate::text::lexer::number_bits;
use crate::text::lexer::number_end;
use crate::text::lexer::string_end;
use crate::text::lexer::unicode_escape;
use crate::text::lexer::utf8_bytes;
use crate::text::print::escaped;
use crate::text::print::escaped_byte;
use crate::text::print::hex_char;
use crate::text::print::number_text;
use crate::text::print::string_text;

verus! {

/// Whether the bytes of `part` stand in `s` from `pos` on.
#[verifier::opaque]
pub open spec fn occurs(s: Seq<u8>, pos: int, part: Seq<u8>) -> bool {
    &&& 0 <= pos
    &&& pos + part.len() <= s.len()
    &&& forall|i: int| 0 <= i < part.len() ==> s[pos + i] == #[trigger] part[i]
}

/// Two parts stand one behind the other exactly where their concatenation
/// stands.
pub proof fn lemma_occurs_split(s: Seq<u8>, pos: int, a: Seq<u8>, b: Seq<u8>)
    ensures
        occurs(s, pos, a + b) <==> occurs(s, pos, a) && occurs(s, pos + a.len(), b),
{
    reveal(occurs);
    if occurs(s, pos, a + b) {
        assert forall|i: int| 0 <= i < a.len() implies s[pos + i] == #[trigger] a[i] by {
            assert((a + b)[i] == a[i]);
        }
        assert forall|i: int| 0 <= i < b.len() implies s[pos + a.len() + i] == #[trigger] b[i] by {
            assert((a + b)[a.len() + i] == b[i]);
        }
    }
    if occurs(s, pos, a) && occurs(s, pos + a.len(), b) {
        assert forall|i: int| 0 <= i < (a + b).len() implies s[pos + i] == #[trigger] (a + b)[i] by {
            if i < a.len() {
                assert((a + b)[i] == a[i]);
            } else {
                assert((a + b)[i] == b[i - a.len()]);
                assert(s[pos + a.len() + (i - a.len())] == b[i - a.len()]);
            }
        }
    }
}

/// A run of blanks is skipped to the first byte behind it that is none.
pub proof fn lemma_blanks_run(s: Seq<u8>, from: int, to: int)
    requires
        0 <= from <= to <= s.len(),
        forall|i: int| from <= i < to ==> is_blank(#[trigger] s[i]),
        to == s.len() || !is_blank(s[to]),
    ensures
        blanks_end(s, from) == to,
    decreases to - from,
{
    if from < to {
        lemma_blanks_run(s, from + 1, to);
    }
}

/// A run of digits is scanned to the first byte behind it that is none.
pub proof fn lemma_digits_run(s: Seq<u8>, from: int, to: int)
    requires
        0 <= from <= to <= s.len(),
        forall|i: int| from <= i < to ==> is_digit(#[trigger] s[i]),
        to == s.len() || !is_digit(s[to]),
    ensures
        digits_end(s, from) == to,
    decreases to - from,
{
    if from < to {
        lemma_digits_run(s, from + 1, to);
    }
}

/// What the scan of digits skips are digits, and it stops at a byte that is
/// none or at the end.
pub proof fn lemma_digits_end(s: Seq<u8>, from: int)
    requires
        0 <= from <= s.len(),
    ensures
        from <= digits_end(s, from) <= s.len(),
        forall|i: int| from <= i < digits_end(s, from) ==> is_digit(#[trigger] s[i]),
        digits_end(s, from) == s.len() || !is_digit(s[digits_end(s, from)]),
    decreases s.len() - from,
{
    if from < s.len() && is_digit(s[from]) {
        lemma_digits_end(s, from + 1);
    }
}

/// Whether `b` can stand behind a number without being read as a part of
/// it: any byte that is no digit, no point and no `e` of either case.
pub open spec fn ends_number(b: u8) -> bool {
    !is_digit(b) && b != 46 && b != 101 && b != 69
}

/// A text that is one whole number is read as that number wherever it
/// stands, provided that the byte behind it, if there is one, ends a
/// number.
pub proof fn lemma_number_in_context(s: Seq<u8>, pos: int, token: Seq<u8>)
    requires
        occurs(s, pos, token),
        number_end(token, 0) == Some(token.len() as int),
        pos + token.len() == s.len() || ends_number(s[pos + token.len()]),
    ensures
        number_end(s, pos) == Some(pos + token.len()),
        s.subrange(pos, pos + token.len()) == token,
{
    reveal(occurs);
    let len = token.len() as int;
    assert(s.subrange(pos, pos + len) =~= token) by {
        assert forall|i: int| 0 <= i < len implies s.subrange(pos, pos + len)[i] == token[i] by {
            assert(s[pos + i] == token[i]);
        }
    }
    assert(forall|i: int| 0 <= i < len ==> s[pos + i] == token[i]) by {
        assert forall|i: int| 0 <= i < len implies s[pos + i] == token[i] by {
            assert(s[pos + i] == token[i]);
        }
    }
    let whole_t = if token[0] == 45 {
        1int
    } else {
        0int
    };
    assert(0 <= whole_t < len && is_digit(token[whole_t]));
    let point_t = if token[whole_t] == 48 {
        whole_t + 1
    } else {
        digits_end(token, whole_t)
    };
    lemma_digits_end(token, whole_t);
    // The whole part.
    let point_s = if s[pos + whole_t] == 48 {
        pos + whole_t + 1
    } else {
        digits_end(s, pos + whole_t)
    };
    assert(point_s == pos + point_t) by {
        if token[whole_t] != 48 {
            lemma_transfer_digits(s, pos, token, whole_t);
        }
    }
    if point_t < len && token[point_t] == 46 {
        assert(point_t + 1 < len && is_digit(token[point_t + 1]));
        let frac_t = digits_end(token, point_t + 1);
        lemma_digits_end(token, point_t + 1);
        lemma_transfer_digits(s, pos, token, point_t + 1);
        lemma_exponent_in_context(s, pos, token, frac_t);
    } else {
        lemma_exponent_in_context(s, pos, token, point_t);
    }
}

/// The scan of digits from a place inside a text that stands in `s` ends
/// at the same place in `s`, provided that it ends inside the text or that
/// the byte behind the text is no digit.
proof fn lemma_transfer_digits(s: Seq<u8>, pos: int, token: Seq<u8>, from: int)
    requires
        occurs(s, pos, token),
        0 <= from <= token.len(),
        digits_end(token, from) < token.len() || pos + token.len() == s.len() || !is_digit(
            s[pos + token.len()],
        ),
    ensures
        digits_end(s, pos + from) == pos + digits_end(token, from),
{
    reveal(occurs);
    lemma_digits_end(token, from);
    let to = digits_end(token, from);
    assert forall|i: int| pos + from <= i < pos + to implies is_digit(#[trigger] s[i]) by {
        assert(s[pos + (i - pos)] == token[i - pos]);
    }
    if to < token.len() {
        assert(s[pos + to] == token[to]);
    }
    lemma_digits_run(s, pos + from, pos + to);
}

/// The exponent of a number, or its absence, is read in `s` as it is read
/// in the text of the number that stands in `s`.
proof fn lemma_exponent_in_context(s: Seq<u8>, pos: int, token: Seq<u8>, from: int)
    requires
        occurs(s, pos, token),
        0 <= from <= token.len(),
        exponent_end(token, from) == Some(token.len() as int),
        pos + token.len() == s.len() || ends_number(s[pos + token.len()]),
    ensures
        exponent_end(s, pos + from) == Some(pos + token.len()),
{
    reveal(occurs);
    let len = token.len() as int;
    if from < len {
        assert(s[pos + from] == token[from]);
        assert(token[from] == 101 || token[from] == 69);
        if from + 1 < len {
            assert(s[pos + from + 1] == token[from + 1]);
        }
        let digits_t = if from + 1 < len && (token[from + 1] == 43 || token[from + 1] == 45) {
            from + 2
        } else {
            from + 1
        };
        assert(digits_t < len && is_digit(token[digits_t]));
        assert(s[pos + digits_t] == token[digits_t]);
        lemma_transfer_digits(s, pos, token, digits_t);
    } else {
    }
}

/// A hexadecimal digit stands for its number.
pub proof fn lemma_hex_char(d: int)
    requires
        0 <= d < 16,
    ensures
        hex_value(hex_char(d)) == Some(d),
{
}

/// A string that stands in `s` as it is printed is read as that string:
/// its bytes come out behind `done`, and the reading ends behind the
/// closing quote.
pub proof fn lemma_string_round_trip(s: Seq<u8>, pos: int, bytes: Seq<u8>, done: Seq<u8>)
    requires
        occurs(s, pos, escaped(bytes) + seq![34u8]),
    ensures
        string_end(s, pos, done) == Some((done + bytes, pos + escaped(bytes).len() + 1)),
    decreases bytes.len(),
{
    reveal(occurs);
    lemma_occurs_split(s, pos, escaped(bytes), seq![34u8]);
    if bytes.len() == 0 {
        assert(s[pos + 0] == seq![34u8][0]);
        assert(done + bytes =~= done);
    } else {
        let b = bytes.first();
        let rest = bytes.drop_first();
        let head = escaped_byte(b);
        assert(escaped(bytes) + seq![34u8] =~= head + (escaped(rest) + seq![34u8]));
        lemma_occurs_split(s, pos, head, escaped(rest) + seq![34u8]);
        assert(forall|i: int| 0 <= i < head.len() ==> s[pos + i] == head[i]) by {
            assert forall|i: int| 0 <= i < head.len() implies s[pos + i] == head[i] by {
                assert(s[pos + i] == head[i]);
            }
        }
        let next = pos + head.len();
        assert(done + bytes =~= (done + seq![b]) + rest);
        assert(done.push(b) =~= done + seq![b]);
        lemma_string_round_trip(s, next, rest, done + seq![b]);
        if b == 34 || b == 92 || b == 8 || b == 12 || b == 10 || b == 13 || b == 9 {
            assert(s[pos] == 92);
            assert(s[pos + 1] == head[1]);
            assert(escape_at(s, pos + 1) == Some((seq![b], pos + 2)));
        } else if b < 32 {
            assert(s[pos] == 92);
            assert(s[pos + 1] == 117);
            assert(s[pos + 2] == 48);
            assert(s[pos + 3] == 48);
            assert(s[pos + 4] == hex_char(b as int / 16));
            assert(s[pos + 5] == hex_char(b as int % 16));
            lemma_hex_char(b as int / 16);
            lemma_hex_char(b as int % 16);
            assert(hex4(s, pos + 2) == Some(b as int));
            assert(utf8_bytes(b as int) =~= seq![b]);
            assert(unicode_escape(s, pos + 2) == Some((seq![b], pos + 6)));
            assert(escape_at(s, pos + 1) == Some((seq![b], pos + 6)));
        } else {
            assert(head =~= seq![b]);
            assert(s[pos + 0] == head[0]);
        }
    }
}

/// A string as it is printed, standing in `s` at `pos`, is read as that
/// string.
pub proof fn lemma_string_text_round_trip(s: Seq<u8>, pos: int, bytes: Seq<u8>)
    requires
        occurs(s, pos, string_text(bytes)),
    ensures
        s[pos] == 34,
        string_end(s, pos + 1, Seq::empty()) == Some((bytes, pos + string_text(bytes).len())),
{
    reveal(occurs);
    assert(string_text(bytes) =~= seq![34u8] + (escaped(bytes) + seq![34u8]));
    lemma_occurs_split(s, pos, seq![34u8], escaped(bytes) + seq![34u8]);
    assert(s[pos + 0] == seq![34u8][0]);
    lemma_string_round_trip(s, pos + 1, bytes, Seq::empty());
    assert(Seq::<u8>::empty() + bytes =~= bytes);
}

/// The decimal digits of a number are digits, at least one, without a
/// zero in front of others, and they stand for the number.
pub proof fn lemma_decimal_digits(n: nat)
    ensures
        decimal_digits(n).len() >= 1,
        all_digits(decimal_digits(n)),
        digits_value(decimal_digits(n)) == n,
        n >= 10 ==> decimal_digits(n)[0] != 48,
        n < 10 ==> decimal_digits(n).len() == 1,
    decreases n,
{
    if n >= 10 {
        lemma_decimal_digits(n / 10);
        let front = decimal_digits(n / 10);
        let d = (48 + n % 10) as u8;
        assert(decimal_digits(n) == front.push(d));
        assert(front.push(d).drop_last() =~= front);
        assert(front.push(d)[0] == front[0]);
        assert(front[0] != 48) by {
            if n / 10 < 10 {
                assert(front =~= seq![(48 + n / 10) as u8]);
            }
        }
        assert forall|i: int| 0 <= i < front.push(d).len() implies is_digit(
            #[trigger] front.push(d)[i],
        ) by {
            if i < front.len() {
                assert(front.push(d)[i] == front[i]);
            }
        }
    } else {
        let only = seq![(48 + n) as u8];
        assert(only.drop_last() =~= Seq::<u8>::empty());
        assert(digits_value(only.drop_last()) == 0);
    }
}

/// An integer as it is printed: a minus sign where it is negative, and the
/// digits of its magnitude.
pub open spec fn integer_text(negative: bool, magnitude: nat) -> Seq<u8> {
    if negative {
        seq![45u8] + decimal_digits(magnitude)
    } else {
        decimal_digits(magnitude)
    }
}

/// An integer as it is printed is one whole number, and where its magnitude
/// fits in sixty-four bits it is read as the value nearest to it, under its
/// sign.
pub proof fn lemma_integer_text(negative: bool, magnitude: nat)
    ensures
        ({
            let text = integer_text(negative, magnitude);
            let sign: nat = if negative {
                0x8000_0000_0000_0000
            } else {
                0
            };
            &&& text.len() >= 1
            &&& text[0] == 45 || is_digit(text[0])
            &&& number_end(text, 0) == Some(text.len() as int)
            &&& magnitude <= u64::MAX ==> integer_bits(text) == Some(
                (sign + bits_of_nat(magnitude)) as u64,
            )
        }),
{
    let digits = decimal_digits(magnitude);
    let text = integer_text(negative, magnitude);
    lemma_decimal_digits(magnitude);
    let whole: int = if negative {
        1
    } else {
        0
    };
    assert(forall|i: int| 0 <= i < digits.len() ==> text[whole + i] == digits[i]);
    assert(text.len() == whole + digits.len());
    assert(is_digit(digits[0]));
    assert(text[whole] == digits[0]);
    assert forall|i: int| whole <= i < text.len() implies is_digit(#[trigger] text[i]) by {
        assert(text[whole + (i - whole)] == digits[i - whole]);
    }
    lemma_digits_run(text, whole, text.len() as int);
    if text[whole] == 48 {
        assert(magnitude < 10);
    }
    if negative {
        assert(text.drop_first() =~= digits);
    }
}

/// A finite number whose value is an integer of up to thirty-two bits is
/// printed as one whole number and read again as itself, whatever the
/// tables hold.
pub proof fn law_small_integers_return(
    bits: u64,
    printing: Seq<(Seq<u8>, u64)>,
    parsing: Seq<(Seq<u8>, u64)>,
)
    requires
        is_finite_spec(bits),
        small_integer(bits) is Some,
    ensures
        number_text(bits, printing) == Some(
            integer_text(sign_bit(bits), small_integer(bits)->0),
        ),
        number_bits(number_text(bits, printing)->0, parsing) == Some(bits),
{
    lemma_bits_of_int_value(bits);
    lemma_integer_text(sign_bit(bits), small_integer(bits)->0);
}

/// Whether every number of `value` is finite, has a text under the table
/// `printing`, and is what that text stands for under the table `parsing`.
/// A finite number whose value is an integer of up to thirty-two bits is
/// such a number under any two tables.
pub open spec fn numbers_return(
    value: JsonValue,
    printing: Seq<(Seq<u8>, u64)>,
    parsing: Seq<(Seq<u8>, u64)>,
) -> bool
    decreases value,
{
    match value {
        JsonValue::Number(bits) => {
            &&& is_finite_spec(bits)
            &&& number_text(bits, printing) is Some
            &&& number_bits(number_text(bits, printing)->0, parsing) == Some(bits)
        },
        JsonValue::Array(items) => forall|i: int|
            0 <= i < items.len() ==> numbers_return(#[trigger] items[i], printing, parsing),
        JsonValue::Object(members) => forall|i: int|
            0 <= i < members.len() ==> numbers_return((#[trigger] members[i]).1, printing, parsing),
        _ => true,
    }
}

/// Whether the arrays and objects of `value` stand no more than `depth`
/// deep.
pub open spec fn nests_within(value: JsonValue, depth: nat) -> bool
    decreases value,
{
    match value {
        JsonValue::Array(items) => depth > 0 && forall|i: int|
            0 <= i < items.len() ==> nests_within(#[trigger] items[i], (depth - 1) as nat),
        JsonValue::Object(members) => depth > 0 && forall|i: int|
            0 <= i < members.len() ==> nests_within((#[trigger] members[i]).1, (depth - 1) as nat),
        _ => true,
    }
}

/// The text of a number is one whole number, and it begins with a minus
/// sign or a digit.
proof fn lemma_number_text(bits: u64, printing: Seq<(Seq<u8>, u64)>)
    requires
        is_finite_spec(bits),
        number_text(bits, printing) is Some,
    ensures
        ({
            let text = number_text(bits, printing)->0;
            &&& text.len() >= 1
            &&& text[0] == 45 || is_digit(text[0])
            &&& number_end(text, 0) == Some(text.len() as int)
        }),
{
    if small_integer(bits) is Some {
        lemma_integer_text(sign_bit(bits), small_integer(bits)->0);
    } else {
        let text = number_text(bits, printing)->0;
        assert(number_end(text, 0) == Some(text.len() as int));
    }
}

/// Whether `b` can be the first byte of the text of a value.
pub open spec fn begins_value(b: u8) -> bool {
    b == 110 || b == 116 || b == 102 || b == 34 || b == 91 || b == 123 || b == 45 || is_digit(b)
}

/// The text of a value is not empty, and its first byte is one with which
/// a value can begin.
proof fn lemma_text_begins(
    value: JsonValue,
    printing: Seq<(Seq<u8>, u64)>,
    pretty: bool,
    depth: nat,
)
    requires
        value_text(value, printing, pretty, depth) is Some,
        value matches JsonValue::Number(bits) ==> is_finite_spec(bits),
    ensures
        value_text(value, printing, pretty, depth)->0.len() >= 1,
        begins_value(value_text(value, printing, pretty, depth)->0[0]),
{
    match value {
        JsonValue::Number(bits) => {
            lemma_number_text(bits, printing);
        },
        JsonValue::Array(items) => {
            let inner = elements_text(items, printing, pretty, depth + 1)->0;
            assert((seq![91u8] + inner + seq![93u8])[0] == 91);
        },
        JsonValue::Object(members) => {
            let inner = members_text(members, printing, pretty, depth + 1)->0;
            let text = seq![123u8] + layout(pretty, seq![10u8]) + inner + layout(
                pretty,
                tabs(depth),
            ) + seq![125u8];
            assert(text[0] == 123);
        },
        JsonValue::String(bytes) => {
            assert(string_text(bytes)[0] == 34);
        },
        JsonValue::Bool(b) => {
            assert(true_word()[0] == 116);
            assert(false_word()[0] == 102);
        },
        JsonValue::Null => {
            assert(null_word()[0] == 110);
        },
    }
}

/// The byte of `s` at the `i`-th place of a part that stands in `s`.
proof fn lemma_occurs_at(s: Seq<u8>, pos: int, part: Seq<u8>, i: int)
    requires
        occurs(s, pos, part),
        0 <= i < part.len(),
    ensures
        s[pos + i] == part[i],
        0 <= pos + i < s.len(),
{
    reveal(occurs);
}

/// A part that stands in `s` stands inside `s`.
proof fn lemma_occurs_bounds(s: Seq<u8>, pos: int, part: Seq<u8>)
    requires
        occurs(s, pos, part),
    ensures
        0 <= pos,
        pos + part.len() <= s.len(),
{
    reveal(occurs);
}

/// The elements of an array that is not empty have a text that begins
/// with the text of the first of them.
proof fn lemma_elements_begin(
    items: Seq<JsonValue>,
    printing: Seq<(Seq<u8>, u64)>,
    parsing: Seq<(Seq<u8>, u64)>,
    pretty: bool,
    depth: nat,
)
    requires
        items.len() > 0,
        elements_text(items, printing, pretty, depth) is Some,
        numbers_return(items[0], printing, parsing),
    ensures
        elements_text(items, printing, pretty, depth)->0.len() >= 1,
        begins_value(elements_text(items, printing, pretty, depth)->0[0]),
{
    lemma_text_begins(items[0], printing, pretty, depth);
    let first = value_text(items.first(), printing, pretty, depth)->0;
    let rest = elements_text(items.drop_first(), printing, pretty, depth)->0;
    let text = first + element_tail(items.len() > 1, pretty) + rest;
    assert(text[0] == first[0]);
}

/// A value that stands in `s` as it is printed is read as itself, and the
/// reading ends behind its text. Its numbers must return, its arrays and
/// objects must stand no deeper than the reading allows, and where the
/// value is a number, the byte behind it must end a number.
pub proof fn lemma_value_round_trip(
    value: JsonValue,
    printing: Seq<(Seq<u8>, u64)>,
    parsing: Seq<(Seq<u8>, u64)>,
    pretty: bool,
    depth: nat,
    s: Seq<u8>,
    pos: int,
    budget: nat,
)
    requires
        value_text(value, printing, pretty, depth) is Some,
        occurs(s, pos, value_text(value, printing, pretty, depth)->0),
        numbers_return(value, printing, parsing),
        nests_within(value, budget),
        value is Number ==> pos + value_text(value, printing, pretty, depth)->0.len() == s.len()
            || ends_number(s[pos + value_text(value, printing, pretty, depth)->0.len()]),
    ensures
        value_at(s, pos, parsing, budget) == Some(
            (value, pos + value_text(value, printing, pretty, depth)->0.len()),
        ),
    decreases value, 1nat,
{
    let text = value_text(value, printing, pretty, depth)->0;
    lemma_text_begins(value, printing, pretty, depth);
    lemma_occurs_at(s, pos, text, 0);
    match value {
        JsonValue::Null => {
            lemma_occurs_at(s, pos, text, 1);
            lemma_occurs_at(s, pos, text, 2);
            lemma_occurs_at(s, pos, text, 3);
        },
        JsonValue::Bool(b) => {
            lemma_occurs_at(s, pos, text, 1);
            lemma_occurs_at(s, pos, text, 2);
            lemma_occurs_at(s, pos, text, 3);
            if !b {
                lemma_occurs_at(s, pos, text, 4);
            }
        },
        JsonValue::Number(bits) => {
            lemma_number_text(bits, printing);
            lemma_number_in_context(s, pos, text);
        },
        JsonValue::String(bytes) => {
            lemma_string_text_round_trip(s, pos, bytes);
        },
        JsonValue::Array(items) => {
            lemma_array_round_trip(items, printing, parsing, pretty, depth, s, pos, budget);
        },
        JsonValue::Object(members) => {
            lemma_object_round_trip(members, printing, parsing, pretty, depth, s, pos, budget);
        },
    }
}

/// An array that stands in `s` as it is printed is read as itself.
proof fn lemma_array_round_trip(
    items: Seq<JsonValue>,
    printing: Seq<(Seq<u8>, u64)>,
    parsing: Seq<(Seq<u8>, u64)>,
    pretty: bool,
    depth: nat,
    s: Seq<u8>,
    pos: int,
    budget: nat,
)
    requires
        value_text(JsonValue::Array(items), printing, pretty, depth) is Some,
        occurs(s, pos, value_text(JsonValue::Array(items), printing, pretty, depth)->0),
        numbers_return(JsonValue::Array(items), printing, parsing),
        nests_within(JsonValue::Array(items), budget),
    ensures
        value_at(s, pos, parsing, budget) == Some(
            (
                JsonValue::Array(items),
                pos + value_text(JsonValue::Array(items), printing, pretty, depth)->0.len(),
            ),
        ),
    decreases JsonValue::Array(items), 0nat,
{
    let text = value_text(JsonValue::Array(items), printing, pretty, depth)->0;
    let inner = elements_text(items, printing, pretty, depth + 1)->0;
    assert(text == seq![91u8] + inner + seq![93u8]);
    assert(text =~= seq![91u8] + (inner + seq![93u8]));
    lemma_occurs_split(s, pos, seq![91u8], inner + seq![93u8]);
    lemma_occurs_at(s, pos, seq![91u8], 0);
    lemma_occurs_split(s, pos + 1, inner, seq![93u8]);
    if items.len() == 0 {
        lemma_occurs_at(s, pos + 1, seq![93u8], 0);
        assert(items =~= Seq::<JsonValue>::empty());
        assert(blanks_end(s, pos + 1) == pos + 1);
    } else {
        lemma_elements_begin(items, printing, parsing, pretty, depth + 1);
        lemma_occurs_at(s, pos + 1, inner, 0);
        assert(blanks_end(s, pos + 1) == pos + 1);
        lemma_elements_round_trip(
            items,
            printing,
            parsing,
            pretty,
            depth + 1,
            s,
            pos + 1,
            (budget - 1) as nat,
            Seq::empty(),
        );
        assert(Seq::<JsonValue>::empty() + items =~= items);
    }
}

/// An object that stands in `s` as it is printed is read as itself.
proof fn lemma_object_round_trip(
    members: Seq<(Seq<u8>, JsonValue)>,
    printing: Seq<(Seq<u8>, u64)>,
    parsing: Seq<(Seq<u8>, u64)>,
    pretty: bool,
    depth: nat,
    s: Seq<u8>,
    pos: int,
    budget: nat,
)
    requires
        value_text(JsonValue::Object(members), printing, pretty, depth) is Some,
        occurs(s, pos, value_text(JsonValue::Object(members), printing, pretty, depth)->0),
        numbers_return(JsonValue::Object(members), printing, parsing),
        nests_within(JsonValue::Object(members), budget),
    ensures
        value_at(s, pos, parsing, budget) == Some(
            (
                JsonValue::Object(members),
                pos + value_text(JsonValue::Object(members), printing, pretty, depth)->0.len(),
            ),
        ),
    decreases JsonValue::Object(members), 0nat,
{
    let text = value_text(JsonValue::Object(members), printing, pretty, depth)->0;
    let inner = members_text(members, printing, pretty, depth + 1)->0;
    let line = layout(pretty, seq![10u8]);
    let closing = layout(pretty, tabs(depth));
    assert(text == seq![123u8] + line + inner + closing + seq![125u8]);
    assert(text =~= seq![123u8] + (line + (inner + closing + seq![125u8])));
    lemma_occurs_split(s, pos, seq![123u8], line + (inner + closing + seq![125u8]));
    lemma_occurs_at(s, pos, seq![123u8], 0);
    lemma_occurs_split(s, pos + 1, line, inner + closing + seq![125u8]);
    let body = pos + 1 + line.len();
    if members.len() == 0 {
        assert(inner =~= Seq::<u8>::empty());
        assert(inner + closing + seq![125u8] =~= closing + seq![125u8]);
        lemma_occurs_split(s, body, closing, seq![125u8]);
        lemma_occurs_at(s, body + closing.len(), seq![125u8], 0);
        assert forall|i: int| pos + 1 <= i < body + closing.len() implies is_blank(
            #[trigger] s[i],
        ) by {
            if i >= body {
                lemma_occurs_at(s, body, closing, i - body);
            } else {
                lemma_occurs_at(s, pos + 1, line, i - (pos + 1));
            }
        }
        lemma_blanks_run(s, pos + 1, body + closing.len());
        assert(members =~= Seq::<(Seq<u8>, JsonValue)>::empty());
    } else {
        let lead = layout(pretty, tabs(depth + 1));
        lemma_members_round_trip(
            members,
            printing,
            parsing,
            pretty,
            depth + 1,
            s,
            body,
            (budget - 1) as nat,
            Seq::empty(),
            closing,
        );
        lemma_members_begin(members, printing, pretty, depth + 1);
        assert(inner + closing + seq![125u8] =~= inner + (closing + seq![125u8]));
        lemma_occurs_split(s, body, inner, closing + seq![125u8]);
        lemma_occurs_at(s, body, inner, lead.len() as int);
        assert forall|i: int| pos + 1 <= i < body + lead.len() implies is_blank(
            #[trigger] s[i],
        ) by {
            if i >= body {
                lemma_occurs_at(s, body, inner, i - body);
            } else {
                lemma_occurs_at(s, pos + 1, line, i - (pos + 1));
            }
        }
        lemma_blanks_run(s, pos + 1, body + lead.len());
        assert(Seq::<(Seq<u8>, JsonValue)>::empty() + members =~= members);
    }
}

/// The members of an object that is not empty have a text that begins
/// with the indentation and the opening quote of the first name.
proof fn lemma_members_begin(
    members: Seq<(Seq<u8>, JsonValue)>,
    printing: Seq<(Seq<u8>, u64)>,
    pretty: bool,
    depth: nat,
)
    requires
        members.len() > 0,
        members_text(members, printing, pretty, depth) is Some,
    ensures
        ({
            let inner = members_text(members, printing, pretty, depth)->0;
            let lead = layout(pretty, tabs(depth));
            &&& inner.len() > lead.len()
            &&& inner[lead.len() as int] == 34
            &&& forall|i: int| 0 <= i < lead.len() ==> is_blank(#[trigger] inner[i])
        }),
{
    let inner = members_text(members, printing, pretty, depth)->0;
    let lead = layout(pretty, tabs(depth));
    let quoted = string_text(members.first().0);
    let value = value_text(members.first().1, printing, pretty, depth)->0;
    let rest = members_text(members.drop_first(), printing, pretty, depth)->0;
    let behind = seq![58u8] + layout(pretty, seq![9u8]) + value + member_tail(
        members.len() > 1,
        pretty,
    ) + rest;
    assert(inner =~= lead + (quoted + behind));
    assert(quoted[0] == 34);
    assert((lead + (quoted + behind))[lead.len() as int] == quoted[0]);
    assert forall|i: int| 0 <= i < lead.len() implies is_blank(#[trigger] inner[i]) by {
        assert(inner[i] == lead[i]);
    }
}

/// The elements of an array, standing in `s` as they are printed and
/// followed by the closing bracket, are read as themselves behind the
/// elements `done`, and the reading ends behind the bracket.
pub proof fn lemma_elements_round_trip(
    items: Seq<JsonValue>,
    printing: Seq<(Seq<u8>, u64)>,
    parsing: Seq<(Seq<u8>, u64)>,
    pretty: bool,
    depth: nat,
    s: Seq<u8>,
    pos: int,
    budget: nat,
    done: Seq<JsonValue>,
)
    requires
        items.len() > 0,
        elements_text(items, printing, pretty, depth) is Some,
        occurs(s, pos, elements_text(items, printing, pretty, depth)->0 + seq![93u8]),
        forall|i: int| 0 <= i < items.len() ==> numbers_return(#[trigger] items[i], printing, parsing),
        forall|i: int| 0 <= i < items.len() ==> nests_within(#[trigger] items[i], budget),
    ensures
        elements_at(s, pos, parsing, budget, done) == Some(
            (
                JsonValue::Array(done + items),
                pos + elements_text(items, printing, pretty, depth)->0.len() + 1,
            ),
        ),
    decreases items, 0nat,
{
    let inner = elements_text(items, printing, pretty, depth)->0;
    let first = value_text(items.first(), printing, pretty, depth)->0;
    let more = items.len() > 1;
    let tail = element_tail(more, pretty);
    let others = items.drop_first();
    let rest = elements_text(others, printing, pretty, depth)->0;
    assert(inner == first + tail + rest);
    lemma_occurs_split(s, pos, inner, seq![93u8]);
    lemma_occurs_split(s, pos, first + tail, rest);
    lemma_occurs_split(s, pos, first, tail);
    let end = pos + first.len();
    let after = end + tail.len();
    lemma_occurs_split(s, after, rest, seq![93u8]);
    lemma_text_begins(items[0], printing, pretty, depth);
    if more {
        lemma_occurs_at(s, end, tail, 0);
        assert(tail[0] == 44);
    } else {
        assert(rest =~= Seq::<u8>::empty()) by {
            assert(others.len() == 0);
        }
        lemma_occurs_at(s, after, seq![93u8], 0);
    }
    lemma_value_round_trip(items[0], printing, parsing, pretty, depth, s, pos, budget);
    assert(blanks_end(s, end) == end);
    if more {
        assert forall|i: int| 0 <= i < others.len() implies numbers_return(
            #[trigger] others[i],
            printing,
            parsing,
        ) by {
            assert(others[i] == items[i + 1]);
        }
        assert forall|i: int| 0 <= i < others.len() implies nests_within(
            #[trigger] others[i],
            budget,
        ) by {
            assert(others[i] == items[i + 1]);
        }
        lemma_elements_begin(others, printing, parsing, pretty, depth);
        lemma_occurs_at(s, after, rest, 0);
        if pretty {
            lemma_occurs_at(s, end, tail, 1);
            assert(tail[1] == 32);
        }
        lemma_blanks_run(s, end + 1, after);
        lemma_elements_round_trip(
            others,
            printing,
            parsing,
            pretty,
            depth,
            s,
            after,
            budget,
            done.push(items[0]),
        );
        assert(done.push(items[0]) + others =~= done + items);
    } else {
        assert(done.push(items[0]) =~= done + items);
    }
}

/// Where a name, a colon and a value stand in `s` as they are printed, and
/// the value is read as itself and ends at `end`, the reading of the members
/// depends on what stands at `next`, the first place behind the value that
/// holds no blank: behind a comma it goes on at `after`, the first place
/// behind the comma that holds no blank, with the member done; at a closing
/// bracket it ends.
proof fn lemma_member_front(
    s: Seq<u8>,
    pos: int,
    member: (Seq<u8>, JsonValue),
    pretty: bool,
    end: int,
    next: int,
    after: int,
    table: Seq<(Seq<u8>, u64)>,
    depth: nat,
    done: Seq<(Seq<u8>, JsonValue)>,
)
    requires
        occurs(s, pos, string_text(member.0)),
        occurs(s, pos + string_text(member.0).len(), seq![58u8] + layout(pretty, seq![9u8])),
        ({
            let start = pos + string_text(member.0).len() + 1 + layout(pretty, seq![9u8]).len();
            &&& start < s.len()
            &&& !is_blank(s[start])
            &&& value_at(s, start, table, depth) == Some((member.1, end))
        }),
        blanks_end(s, end) == next,
        pos < next < s.len(),
        s[next] == 44 ==> blanks_end(s, next + 1) == after && pos < after <= s.len(),
    ensures
        s[next] == 44 ==> members_at(s, pos, table, depth, done) == members_at(
            s,
            after,
            table,
            depth,
            done.push(member),
        ),
        s[next] == 125 ==> members_at(s, pos, table, depth, done) == Some(
            (JsonValue::Object(done.push(member)), next + 1),
        ),
{
    let quoted = string_text(member.0);
    let colon = seq![58u8] + layout(pretty, seq![9u8]);
    let at_colon = pos + quoted.len();
    let start = at_colon + colon.len();
    lemma_string_text_round_trip(s, pos, member.0);
    lemma_occurs_at(s, at_colon, colon, 0);
    assert(colon[0] == 58);
    assert(blanks_end(s, at_colon) == at_colon);
    if pretty {
        lemma_occurs_at(s, at_colon, colon, 1);
        assert(colon[1] == 9);
    }
    assert forall|i: int| at_colon + 1 <= i < start implies is_blank(#[trigger] s[i]) by {
        assert(i == at_colon + 1);
    }
    lemma_blanks_run(s, at_colon + 1, start);
    assert(quoted.len() >= 2);
    lemma_occurs_bounds(s, pos, quoted);
    assert(0 <= pos < s.len() && s[pos] == 34);
    assert(string_end(s, pos + 1, Seq::empty()) == Some((member.0, at_colon)));
    assert(pos < at_colon < s.len() && s[at_colon] == 58);
    assert(blanks_end(s, at_colon + 1) == start);
    assert(pos < start <= s.len());
    assert(member == (member.0, member.1));
}

/// The pieces of the text of the members of an object, where the text
/// stands in `s` at `pos` before the blanks `closing` and the closing
/// bracket: each piece stands behind the one before it.
proof fn lemma_member_layout(
    members: Seq<(Seq<u8>, JsonValue)>,
    printing: Seq<(Seq<u8>, u64)>,
    pretty: bool,
    depth: nat,
    s: Seq<u8>,
    pos: int,
    closing: Seq<u8>,
)
    requires
        members.len() > 0,
        members_text(members, printing, pretty, depth) is Some,
        occurs(
            s,
            pos,
            members_text(members, printing, pretty, depth)->0 + closing + seq![125u8],
        ),
    ensures
        ({
            let lead = layout(pretty, tabs(depth));
            let quoted = string_text(members.first().0);
            let colon = seq![58u8] + layout(pretty, seq![9u8]);
            let printed = value_text(members.first().1, printing, pretty, depth)->0;
            let tail = member_tail(members.len() > 1, pretty);
            let rest = members_text(members.drop_first(), printing, pretty, depth)->0;
            let at_name = pos + lead.len();
            let at_colon = at_name + quoted.len();
            let at_value = at_colon + colon.len();
            let at_tail = at_value + printed.len();
            let at_rest = at_tail + tail.len();
            &&& members_text(members, printing, pretty, depth)->0.len() == lead.len()
                + quoted.len() + colon.len() + printed.len() + tail.len() + rest.len()
            &&& occurs(s, pos, lead)
            &&& occurs(s, at_name, quoted)
            &&& occurs(s, at_colon, colon)
            &&& occurs(s, at_value, printed)
            &&& occurs(s, at_tail, tail)
            &&& occurs(s, at_rest, rest + closing + seq![125u8])
            &&& occurs(s, at_rest, rest)
            &&& occurs(s, at_rest + rest.len(), closing)
            &&& occurs(s, at_rest + rest.len() + closing.len(), seq![125u8])
        }),
{
    let inner = members_text(members, printing, pretty, depth)->0;
    let lead = layout(pretty, tabs(depth));
    let quoted = string_text(members.first().0);
    let mark = seq![58u8];
    let blank = layout(pretty, seq![9u8]);
    let printed = value_text(members.first().1, printing, pretty, depth)->0;
    let tail = member_tail(members.len() > 1, pretty);
    let rest = members_text(members.drop_first(), printing, pretty, depth)->0;
    let head = member_head(members.first().0, pretty, depth);
    assert(head == lead + quoted + mark + blank);
    assert(inner == head + printed + tail + rest);
    // The text as it is put together, taken apart from behind.
    lemma_occurs_split(s, pos, inner + closing, seq![125u8]);
    lemma_occurs_split(s, pos, inner, closing);
    lemma_occurs_split(s, pos, head + printed + tail, rest);
    lemma_occurs_split(s, pos, head + printed, tail);
    lemma_occurs_split(s, pos, head, printed);
    lemma_occurs_split(s, pos, lead + quoted + mark, blank);
    lemma_occurs_split(s, pos, lead + quoted, mark);
    lemma_occurs_split(s, pos, lead, quoted);
    let at_name = pos + lead.len();
    let at_colon = at_name + quoted.len();
    // The colon and the blank behind it, as one.
    lemma_occurs_split(s, at_colon, mark, blank);
    // What stands behind the member, as one.
    let at_rest = pos + head.len() + printed.len() + tail.len();
    lemma_occurs_split(s, at_rest, rest, closing);
    lemma_occurs_split(s, at_rest, rest + closing, seq![125u8]);
}

/// Behind a member that is not the last, the comma stands directly, and
/// the blanks behind the comma reach to the next name.
proof fn lemma_member_tail_more(
    s: Seq<u8>,
    at_tail: int,
    pretty: bool,
    rest: Seq<u8>,
    lead: Seq<u8>,
)
    requires
        occurs(s, at_tail, member_tail(true, pretty)),
        occurs(s, at_tail + member_tail(true, pretty).len(), rest),
        rest.len() > lead.len(),
        rest[lead.len() as int] == 34,
        forall|i: int| 0 <= i < lead.len() ==> is_blank(#[trigger] rest[i]),
    ensures
        s[at_tail] == 44,
        blanks_end(s, at_tail) == at_tail,
        at_tail + 1 < s.len(),
        blanks_end(s, at_tail + 1) == at_tail + member_tail(true, pretty).len() + lead.len(),
        at_tail + member_tail(true, pretty).len() + lead.len() < s.len(),
{
    let tail = member_tail(true, pretty);
    let at_rest = at_tail + tail.len();
    lemma_occurs_at(s, at_tail, tail, 0);
    assert(tail[0] == 44);
    if pretty {
        lemma_occurs_at(s, at_tail, tail, 1);
        assert(tail[1] == 10);
    }
    lemma_occurs_at(s, at_rest, rest, lead.len() as int);
    assert forall|i: int| at_tail + 1 <= i < at_rest + lead.len() implies is_blank(
        #[trigger] s[i],
    ) by {
        if i >= at_rest {
            lemma_occurs_at(s, at_rest, rest, i - at_rest);
        }
    }
    lemma_blanks_run(s, at_tail + 1, at_rest + lead.len());
}

/// Behind the last member, nothing but blanks stands before the closing
/// bracket.
proof fn lemma_member_tail_last(s: Seq<u8>, at_tail: int, pretty: bool, closing: Seq<u8>)
    requires
        occurs(s, at_tail, member_tail(false, pretty)),
        occurs(s, at_tail + member_tail(false, pretty).len(), closing),
        occurs(s, at_tail + member_tail(false, pretty).len() + closing.len(), seq![125u8]),
        forall|i: int| 0 <= i < closing.len() ==> is_blank(#[trigger] closing[i]),
    ensures
        blanks_end(s, at_tail) == at_tail + member_tail(false, pretty).len() + closing.len(),
        at_tail + member_tail(false, pretty).len() + closing.len() < s.len(),
        s[at_tail + member_tail(false, pretty).len() + closing.len()] == 125,
        at_tail == s.len() || ends_number(s[at_tail]),
{
    let tail = member_tail(false, pretty);
    let at_closing = at_tail + tail.len();
    let at_close = at_closing + closing.len();
    lemma_occurs_at(s, at_close, seq![125u8], 0);
    lemma_occurs_bounds(s, at_tail, tail);
    if pretty {
        lemma_occurs_at(s, at_tail, tail, 0);
        assert(tail[0] == 10);
    } else {
        assert(tail =~= Seq::<u8>::empty());
    }
    assert forall|i: int| at_tail <= i < at_close implies is_blank(#[trigger] s[i]) by {
        if i >= at_closing {
            lemma_occurs_at(s, at_closing, closing, i - at_closing);
        }
    }
    lemma_blanks_run(s, at_tail, at_close);
}

/// Reading the first of the members that stand in `s` as they are
/// printed: where more members follow, the reading goes on at the next
/// name with the first member done, and where none follows, it ends behind
/// the closing bracket.
#[verifier::rlimit(80)]
#[verifier::spinoff_prover]
proof fn lemma_member_step(
    members: Seq<(Seq<u8>, JsonValue)>,
    printing: Seq<(Seq<u8>, u64)>,
    parsing: Seq<(Seq<u8>, u64)>,
    pretty: bool,
    depth: nat,
    s: Seq<u8>,
    pos: int,
    budget: nat,
    done: Seq<(Seq<u8>, JsonValue)>,
    closing: Seq<u8>,
)
    requires
        members.len() > 0,
        members_text(members, printing, pretty, depth) is Some,
        occurs(
            s,
            pos,
            members_text(members, printing, pretty, depth)->0 + closing + seq![125u8],
        ),
        forall|i: int| 0 <= i < closing.len() ==> is_blank(#[trigger] closing[i]),
        numbers_return(members.first().1, printing, parsing),
        nests_within(members.first().1, budget),
    ensures
        ({
            let lead = layout(pretty, tabs(depth)).len();
            let inner = members_text(members, printing, pretty, depth)->0;
            let rest = members_text(members.drop_first(), printing, pretty, depth)->0;
            let read = members_at(s, pos + lead, parsing, budget, done);
            if members.len() > 1 {
                &&& occurs(s, pos + inner.len() - rest.len(), rest + closing + seq![125u8])
                &&& read == members_at(
                    s,
                    pos + inner.len() - rest.len() + lead,
                    parsing,
                    budget,
                    done.push(members.first()),
                )
            } else {
                read == Some(
                    (
                        JsonValue::Object(done.push(members.first())),
                        pos + inner.len() + closing.len() + 1,
                    ),
                )
            }
        }),
    decreases members, 0nat,
{
    let lead = layout(pretty, tabs(depth));
    let member = members.first();
    let quoted = string_text(member.0);
    let colon = seq![58u8] + layout(pretty, seq![9u8]);
    let printed = value_text(member.1, printing, pretty, depth)->0;
    let more = members.len() > 1;
    let tail = member_tail(more, pretty);
    let others = members.drop_first();
    let rest = members_text(others, printing, pretty, depth)->0;
    let at_name = pos + lead.len();
    let at_colon = at_name + quoted.len();
    let at_value = at_colon + colon.len();
    let at_tail = at_value + printed.len();
    lemma_member_layout(members, printing, pretty, depth, s, pos, closing);
    lemma_text_begins(member.1, printing, pretty, depth);
    lemma_occurs_at(s, at_value, printed, 0);
    if more {
        lemma_members_begin(others, printing, pretty, depth);
        lemma_member_tail_more(s, at_tail, pretty, rest, lead);
    } else {
        assert(others.len() == 0);
        assert(rest =~= Seq::<u8>::empty());
        lemma_member_tail_last(s, at_tail, pretty, closing);
    }
    lemma_value_round_trip(member.1, printing, parsing, pretty, depth, s, at_value, budget);
    let at_rest = at_tail + tail.len();
    let next = if more {
        at_tail
    } else {
        at_rest + closing.len()
    };
    lemma_member_front(
        s,
        at_name,
        member,
        pretty,
        at_tail,
        next,
        at_rest + lead.len(),
        parsing,
        budget,
        done,
    );
}

/// The members of an object, standing in `s` as they are printed and
/// followed by the blanks `closing` and the closing bracket, are read as
/// themselves behind the members `done`, from the first name on, and the
/// reading ends behind the bracket.
pub proof fn lemma_members_round_trip(
    members: Seq<(Seq<u8>, JsonValue)>,
    printing: Seq<(Seq<u8>, u64)>,
    parsing: Seq<(Seq<u8>, u64)>,
    pretty: bool,
    depth: nat,
    s: Seq<u8>,
    pos: int,
    budget: nat,
    done: Seq<(Seq<u8>, JsonValue)>,
    closing: Seq<u8>,
)
    requires
        members.len() > 0,
        members_text(members, printing, pretty, depth) is Some,
        occurs(
            s,
            pos,
            members_text(members, printing, pretty, depth)->0 + closing + seq![125u8],
        ),
        forall|i: int| 0 <= i < closing.len() ==> is_blank(#[trigger] closing[i]),
        forall|i: int|
            0 <= i < members.len() ==> numbers_return((#[trigger] members[i]).1, printing, parsing),
        forall|i: int| 0 <= i < members.len() ==> nests_within((#[trigger] members[i]).1, budget),
    ensures
        members_at(s, pos + layout(pretty, tabs(depth)).len(), parsing, budget, done) == Some(
            (
                JsonValue::Object(done + members),
                pos + members_text(members, printing, pretty, depth)->0.len() + closing.len() + 1,
            ),
        ),
    decreases members, 1nat,
{
    let member = members.first();
    let others = members.drop_first();
    let inner = members_text(members, printing, pretty, depth)->0;
    let rest = members_text(others, printing, pretty, depth)->0;
    assert(members[0] == member);
    lemma_member_step(members, printing, parsing, pretty, depth, s, pos, budget, done, closing);
    if members.len() > 1 {
        assert forall|i: int| 0 <= i < others.len() implies numbers_return(
            (#[trigger] others[i]).1,
            printing,
            parsing,
        ) by {
            assert(others[i] == members[i + 1]);
        }
        assert forall|i: int| 0 <= i < others.len() implies nests_within(
            (#[trigger] others[i]).1,
            budget,
        ) by {
            assert(others[i] == members[i + 1]);
        }
        lemma_members_round_trip(
            others,
            printing,
            parsing,
            pretty,
            depth,
            s,
            pos + inner.len() - rest.len(),
            budget,
            done.push(member),
            closing,
        );
        assert(done.push(member) + others =~= done + members);
    } else {
        assert(done.push(member) =~= done + members);
    }
}

/// Whether no byte of `s` is zero.
pub open spec fn no_nul(s: Seq<u8>) -> bool {
    forall|i: int| 0 <= i < s.len() ==> #[trigger] s[i] != 0
}

/// Texts without a zero byte, put one behind the other, have none.
proof fn lemma_no_nul_concat(a: Seq<u8>, b: Seq<u8>)
    requires
        no_nul(a),
        no_nul(b),
    ensures
        no_nul(a + b),
{
    assert forall|i: int| 0 <= i < (a + b).len() implies #[trigger] (a + b)[i] != 0 by {
        if i < a.len() {
            assert((a + b)[i] == a[i]);
        } else {
            assert((a + b)[i] == b[i - a.len()]);
        }
    }
}

/// The bytes of a string as they stand in a text hold no zero byte.
proof fn lemma_escaped_no_nul(bytes: Seq<u8>)
    ensures
        no_nul(escaped(bytes)),
        no_nul(string_text(bytes)),
    decreases bytes.len(),
{
    if bytes.len() > 0 {
        lemma_escaped_no_nul(bytes.drop_first());
        let head = escaped_byte(bytes.first());
        assert(no_nul(head));
        lemma_no_nul_concat(head, escaped(bytes.drop_first()));
    }
    lemma_no_nul_concat(seq![34u8], escaped(bytes));
    lemma_no_nul_concat(seq![34u8] + escaped(bytes), seq![34u8]);
}

/// The exponent of a number holds no zero byte.
proof fn lemma_exponent_no_nul(token: Seq<u8>, from: int)
    requires
        0 <= from <= token.len(),
        exponent_end(token, from) == Some(token.len() as int),
    ensures
        forall|i: int| from <= i < token.len() ==> #[trigger] token[i] != 0,
{
    if from < token.len() {
        let digits = if from + 1 < token.len() && (token[from + 1] == 43 || token[from + 1] == 45) {
            from + 2
        } else {
            from + 1
        };
        lemma_digits_end(token, digits);
    }
}

/// A text that is one whole number holds no zero byte.
pub proof fn lemma_number_no_nul(token: Seq<u8>)
    requires
        number_end(token, 0) == Some(token.len() as int),
    ensures
        no_nul(token),
{
    let whole: int = if token[0] == 45 {
        1
    } else {
        0
    };
    let point = if token[whole] == 48 {
        whole + 1
    } else {
        digits_end(token, whole)
    };
    lemma_digits_end(token, whole);
    if point < token.len() && token[point] == 46 {
        let frac = digits_end(token, point + 1);
        lemma_digits_end(token, point + 1);
        lemma_exponent_no_nul(token, frac);
    } else {
        lemma_exponent_no_nul(token, point);
    }
}

/// The text of a document holds no zero byte.
pub proof fn lemma_text_no_nul(
    value: JsonValue,
    table: Seq<(Seq<u8>, u64)>,
    pretty: bool,
    depth: nat,
)
    requires
        value_text(value, table, pretty, depth) is Some,
    ensures
        no_nul(value_text(value, table, pretty, depth)->0),
    decreases value, 1nat,
{
    match value {
        JsonValue::Number(bits) => {
            if is_finite_spec(bits) {
                if small_integer(bits) is Some {
                    lemma_integer_text(sign_bit(bits), small_integer(bits)->0);
                }
                lemma_number_no_nul(number_text(bits, table)->0);
            }
        },
        JsonValue::String(bytes) => {
            lemma_escaped_no_nul(bytes);
        },
        JsonValue::Array(items) => {
            lemma_elements_no_nul(items, table, pretty, depth + 1);
            let inner = elements_text(items, table, pretty, depth + 1)->0;
            lemma_no_nul_concat(seq![91u8], inner);
            lemma_no_nul_concat(seq![91u8] + inner, seq![93u8]);
        },
        JsonValue::Object(members) => {
            lemma_members_no_nul(members, table, pretty, depth + 1);
            let inner = members_text(members, table, pretty, depth + 1)->0;
            let line = layout(pretty, seq![10u8]);
            let closing = layout(pretty, tabs(depth));
            lemma_no_nul_concat(seq![123u8], line);
            lemma_no_nul_concat(seq![123u8] + line, inner);
            lemma_no_nul_concat(seq![123u8] + line + inner, closing);
            lemma_no_nul_concat(seq![123u8] + line + inner + closing, seq![125u8]);
        },
        _ => {},
    }
}

/// The text of the elements of an array holds no zero byte.
proof fn lemma_elements_no_nul(
    items: Seq<JsonValue>,
    table: Seq<(Seq<u8>, u64)>,
    pretty: bool,
    depth: nat,
)
    requires
        elements_text(items, table, pretty, depth) is Some,
    ensures
        no_nul(elements_text(items, table, pretty, depth)->0),
    decreases items, 0nat,
{
    if items.len() > 0 {
        lemma_text_no_nul(items.first(), table, pretty, depth);
        lemma_elements_no_nul(items.drop_first(), table, pretty, depth);
        let first = value_text(items.first(), table, pretty, depth)->0;
        let tail = element_tail(items.len() > 1, pretty);
        let rest = elements_text(items.drop_first(), table, pretty, depth)->0;
        lemma_no_nul_concat(first, tail);
        lemma_no_nul_concat(first + tail, rest);
    }
}

/// The text of the members of an object holds no zero byte.
proof fn lemma_members_no_nul(
    members: Seq<(Seq<u8>, JsonValue)>,
    table: Seq<(Seq<u8>, u64)>,
    pretty: bool,
    depth: nat,
)
    requires
        members_text(members, table, pretty, depth) is Some,
    ensures
        no_nul(members_text(members, table, pretty, depth)->0),
    decreases members, 0nat,
{
    if members.len() > 0 {
        lemma_text_no_nul(members.first().1, table, pretty, depth);
        lemma_members_no_nul(members.drop_first(), table, pretty, depth);
        lemma_escaped_no_nul(members.first().0);
        let lead = layout(pretty, tabs(depth));
        let quoted = string_text(members.first().0);
        let colon = seq![58u8];
        let blank = layout(pretty, seq![9u8]);
        let value = value_text(members.first().1, table, pretty, depth)->0;
        let tail = member_tail(members.len() > 1, pretty);
        let rest = members_text(members.drop_first(), table, pretty, depth)->0;
        lemma_no_nul_concat(lead, quoted);
        lemma_no_nul_concat(lead + quoted, colon);
        lemma_no_nul_concat(lead + quoted + colon, blank);
        let head = member_head(members.first().0, pretty, depth);
        assert(head == lead + quoted + colon + blank);
        lemma_no_nul_concat(head, value);
        lemma_no_nul_concat(head + value, tail);
        lemma_no_nul_concat(head + value + tail, rest);
    }
}

/// A document whose numbers return has a text.
pub proof fn lemma_text_exists(
    value: JsonValue,
    printing: Seq<(Seq<u8>, u64)>,
    parsing: Seq<(Seq<u8>, u64)>,
    pretty: bool,
    depth: nat,
)
    requires
        numbers_return(value, printing, parsing),
    ensures
        value_text(value, printing, pretty, depth) is Some,
    decreases value, 1nat,
{
    match value {
        JsonValue::Array(items) => {
            lemma_elements_text_exists(items, printing, parsing, pretty, depth + 1);
        },
        JsonValue::Object(members) => {
            lemma_members_text_exists(members, printing, parsing, pretty, depth + 1);
        },
        _ => {},
    }
}

/// Elements whose numbers return have a text.
proof fn lemma_elements_text_exists(
    items: Seq<JsonValue>,
    printing: Seq<(Seq<u8>, u64)>,
    parsing: Seq<(Seq<u8>, u64)>,
    pretty: bool,
    depth: nat,
)
    requires
        forall|i: int| 0 <= i < items.len() ==> numbers_return(#[trigger] items[i], printing, parsing),
    ensures
        elements_text(items, printing, pretty, depth) is Some,
    decreases items, 0nat,
{
    if items.len() > 0 {
        let others = items.drop_first();
        assert(numbers_return(items[0], printing, parsing));
        lemma_text_exists(items.first(), printing, parsing, pretty, depth);
        assert forall|i: int| 0 <= i < others.len() implies numbers_return(
            #[trigger] others[i],
            printing,
            parsing,
        ) by {
            assert(others[i] == items[i + 1]);
        }
        lemma_elements_text_exists(others, printing, parsing, pretty, depth);
    }
}

/// Members whose numbers return have a text.
proof fn lemma_members_text_exists(
    members: Seq<(Seq<u8>, JsonValue)>,
    printing: Seq<(Seq<u8>, u64)>,
    parsing: Seq<(Seq<u8>, u64)>,
    pretty: bool,
    depth: nat,
)
    requires
        forall|i: int|
            0 <= i < members.len() ==> numbers_return((#[trigger] members[i]).1, printing, parsing),
    ensures
        members_text(members, printing, pretty, depth) is Some,
    decreases members, 0nat,
{
    if members.len() > 0 {
        let others = members.drop_first();
        assert(numbers_return(members[0].1, printing, parsing));
        lemma_text_exists(members.first().1, printing, parsing, pretty, depth);
        assert forall|i: int| 0 <= i < others.len() implies numbers_return(
            (#[trigger] others[i]).1,
            printing,
            parsing,
        ) by {
            assert(others[i] == members[i + 1]);
        }
        lemma_members_text_exists(others, printing, parsing, pretty, depth);
    }
}

/// The value of a reading that succeeded.
pub open spec fn read_value(reading: Option<(JsonValue, int)>) -> JsonValue {
    match reading {
        Some((value, end)) => value,
        None => JsonValue::Null,
    }
}

/// What is read from a text nests no deeper than the reading allows.
pub proof fn lemma_read_nests(s: Seq<u8>, pos: int, table: Seq<(Seq<u8>, u64)>, depth: nat)
    requires
        value_at(s, pos, table, depth) is Some,
    ensures
        nests_within(read_value(value_at(s, pos, table, depth)), depth),
    decreases s.len() - pos, 1nat,
{
    if s[pos] == 91 {
        let first = blanks_end(s, pos + 1);
        if !(first < s.len() && s[first] == 93) {
            lemma_elements_nest(s, first, table, (depth - 1) as nat, Seq::empty());
        }
    } else if s[pos] == 123 {
        let first = blanks_end(s, pos + 1);
        if !(first < s.len() && s[first] == 125) {
            lemma_members_nest(s, first, table, (depth - 1) as nat, Seq::empty());
        }
    }
}

/// The array that is read behind elements which nest within `depth` holds
/// only elements which nest within `depth`.
proof fn lemma_elements_nest(
    s: Seq<u8>,
    pos: int,
    table: Seq<(Seq<u8>, u64)>,
    depth: nat,
    done: Seq<JsonValue>,
)
    requires
        elements_at(s, pos, table, depth, done) is Some,
        forall|i: int| 0 <= i < done.len() ==> nests_within(#[trigger] done[i], depth),
    ensures
        read_value(elements_at(s, pos, table, depth, done)) is Array,
        forall|i: int|
            0 <= i < read_value(elements_at(s, pos, table, depth, done))->Array_0.len()
                ==> nests_within(
                #[trigger] read_value(elements_at(s, pos, table, depth, done))->Array_0[i],
                depth,
            ),
    decreases s.len() - pos, 2nat,
{
    lemma_read_nests(s, pos, table, depth);
    let (value, end) = value_at(s, pos, table, depth)->0;
    let next = blanks_end(s, end);
    let grown = done.push(value);
    assert forall|i: int| 0 <= i < grown.len() implies nests_within(#[trigger] grown[i], depth) by {
        if i < done.len() {
            assert(grown[i] == done[i]);
        }
    }
    if s[next] == 44 {
        lemma_elements_nest(s, blanks_end(s, next + 1), table, depth, grown);
    }
}

/// The object that is read behind members which nest within `depth` holds
/// only members which nest within `depth`.
proof fn lemma_members_nest(
    s: Seq<u8>,
    pos: int,
    table: Seq<(Seq<u8>, u64)>,
    depth: nat,
    done: Seq<(Seq<u8>, JsonValue)>,
)
    requires
        members_at(s, pos, table, depth, done) is Some,
        forall|i: int| 0 <= i < done.len() ==> nests_within((#[trigger] done[i]).1, depth),
    ensures
        read_value(members_at(s, pos, table, depth, done)) is Object,
        forall|i: int|
            0 <= i < read_value(members_at(s, pos, table, depth, done))->Object_0.len()
                ==> nests_within(
                (#[trigger] read_value(members_at(s, pos, table, depth, done))->Object_0[i]).1,
                depth,
            ),
    decreases s.len() - pos, 2nat,
{
    let (name, name_end) = string_end(s, pos + 1, Seq::empty())->0;
    let colon = blanks_end(s, name_end);
    let start = blanks_end(s, colon + 1);
    lemma_read_nests(s, start, table, depth);
    let (value, end) = value_at(s, start, table, depth)->0;
    let next = blanks_end(s, end);
    let grown = done.push((name, value));
    assert forall|i: int| 0 <= i < grown.len() implies nests_within(
        (#[trigger] grown[i]).1,
        depth,
    ) by {
        if i < done.len() {
            assert(grown[i] == done[i]);
        }
    }
    if s[next] == 44 {
        lemma_members_nest(s, blanks_end(s, next + 1), table, depth, grown);
    }
}

/// Printing a document and parsing the text gives the document back, in
/// the compact layout and in the one over several lines.
///
/// The numbers of the document must return: each is finite, has a text
/// under the table used for printing, and is what that text stands for
/// under the table used for parsing. And its arrays and objects must stand
/// no deeper than a text may nest them. The document that comes back is the
/// same in every node, and so it equals the first one deeply wherever that
/// one equals itself.
pub proof fn law_print_then_parse(
    value: JsonValue,
    printing: Seq<(Seq<u8>, u64)>,
    parsing: Seq<(Seq<u8>, u64)>,
    pretty: bool,
)
    requires
        numbers_return(value, printing, parsing),
        nests_within(value, NESTING_LIMIT as nat),
    ensures
        value_text(value, printing, pretty, 0) is Some,
        document_at(value_text(value, printing, pretty, 0)->0, parsing) == Some(value),
{
    lemma_text_exists(value, printing, parsing, pretty, 0);
    let text = value_text(value, printing, pretty, 0)->0;
    assert(occurs(text, 0, text)) by {
        reveal(occurs);
    }
    lemma_text_begins(value, printing, pretty, 0);
    assert(blanks_end(text, 0) == 0);
    lemma_value_round_trip(value, printing, parsing, pretty, 0, text, 0, NESTING_LIMIT as nat);
    assert(blanks_end(text, text.len() as int) == text.len());
}

/// Parsing a text, printing the document and parsing what was printed
/// gives the document of the first parsing back, provided that its numbers
/// return. This holds of the compact layout and of the one over several
/// lines, and whatever blanks the first text held. The second document
/// equals the first deeply wherever the first equals itself deeply, which
/// it does unless it holds a NaN or a name that stands twice in one object
/// with two values.
pub proof fn law_round_trip(
    text: Seq<u8>,
    printing: Seq<(Seq<u8>, u64)>,
    parsing: Seq<(Seq<u8>, u64)>,
    pretty: bool,
)
    requires
        document_at(text, parsing) is Some,
        numbers_return(document_at(text, parsing)->0, printing, parsing),
    ensures
        value_text(document_at(text, parsing)->0, printing, pretty, 0) is Some,
        document_at(
            value_text(document_at(text, parsing)->0, printing, pretty, 0)->0,
            parsing,
        ) == document_at(text, parsing),
        ({
            let first = document_at(text, parsing)->0;
            let second = document_at(value_text(first, printing, pretty, 0)->0, parsing)->0;
            first.deep_eq(first) ==> second.deep_eq(first)
        }),
{
    lemma_read_nests(text, blanks_end(text, 0), parsing, NESTING_LIMIT as nat);
    law_print_then_parse(document_at(text, parsing)->0, printing, parsing, pretty);
}

} // verus!
