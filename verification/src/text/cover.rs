//! Tables that hold every number which a text or a document needs.

use vstd::prelude::*;
use crate::text::lexer::blanks_end;
use crate::text::lexer::integer_bits;
use crate::text::lexer::is_blank;
use crate::text::lexer::is_digit;
use crate::text::lexer::number_end;
use crate::text::lexer::pending_from;
use crate::text::lexer::string_end;
use crate::text::parse::NESTING_LIMIT;
use crate::text::parse::document_at;
use crate::text::parse::elements_at;
use crate::text::parse::false_at;
use crate::text::parse::members_at;
use crate::text::parse::null_at;
use crate::text::parse::true_at;
use crate::text::parse::value_at;
use crate::text::print::elements_text;
use crate::text::print::members_text;
use crate::text::print::needs_text;
use crate::text::print::unprinted;
use crate::text::print::unprinted_elements;
use crate::text::print::unprinted_members;
use crate::text::print::value_text;
use crate::text::table::table_bits;
use crate::text::table::table_text;
use crate::value::JsonValue;

verus! {

/// Whether `table` holds, for the number with the bits `bits`, a text that
/// has the form of a number.
pub open spec fn has_text(table: Seq<(Seq<u8>, u64)>, bits: u64) -> bool {
    table_text(table, bits) matches Some(text) && number_end(text, 0) == Some(text.len() as int)
}

/// The search for the numbers that need a text keeps what was found
/// before, in its place.
proof fn lemma_unprinted_keeps(value: JsonValue, done: Seq<u64>)
    ensures
        unprinted(value, done).len() >= done.len(),
        forall|i: int| 0 <= i < done.len() ==> unprinted(value, done)[i] == done[i],
    decreases value, 1nat,
{
    match value {
        JsonValue::Array(items) => {
            lemma_unprinted_elements_keep(items, done);
        },
        JsonValue::Object(members) => {
            lemma_unprinted_members_keep(members, done);
        },
        _ => {},
    }
}

proof fn lemma_unprinted_elements_keep(items: Seq<JsonValue>, done: Seq<u64>)
    ensures
        unprinted_elements(items, done).len() >= done.len(),
        forall|i: int| 0 <= i < done.len() ==> unprinted_elements(items, done)[i] == done[i],
    decreases items, 0nat,
{
    if items.len() > 0 {
        lemma_unprinted_keeps(items.first(), done);
        lemma_unprinted_elements_keep(items.drop_first(), unprinted(items.first(), done));
    }
}

proof fn lemma_unprinted_members_keep(members: Seq<(Seq<u8>, JsonValue)>, done: Seq<u64>)
    ensures
        unprinted_members(members, done).len() >= done.len(),
        forall|i: int| 0 <= i < done.len() ==> unprinted_members(members, done)[i] == done[i],
    decreases members, 0nat,
{
    if members.len() > 0 {
        lemma_unprinted_keeps(members.first().1, done);
        lemma_unprinted_members_keep(members.drop_first(), unprinted(members.first().1, done));
    }
}

/// A document can be printed with a table that holds a text for each of
/// the numbers that need one.
pub proof fn law_pending_numbers_suffice_to_print(
    value: JsonValue,
    table: Seq<(Seq<u8>, u64)>,
    pretty: bool,
    depth: nat,
)
    requires
        forall|i: int|
            0 <= i < unprinted(value, Seq::empty()).len() ==> has_text(
                table,
                #[trigger] unprinted(value, Seq::empty())[i],
            ),
    ensures
        value_text(value, table, pretty, depth) is Some,
{
    lemma_printable(value, table, pretty, depth, Seq::empty());
}

/// A value can be printed where the table holds a text for each of its
/// numbers that need one.
proof fn lemma_printable(
    value: JsonValue,
    table: Seq<(Seq<u8>, u64)>,
    pretty: bool,
    depth: nat,
    done: Seq<u64>,
)
    requires
        forall|i: int|
            done.len() <= i < unprinted(value, done).len() ==> has_text(
                table,
                #[trigger] unprinted(value, done)[i],
            ),
    ensures
        value_text(value, table, pretty, depth) is Some,
    decreases value, 1nat,
{
    match value {
        JsonValue::Number(bits) => {
            if needs_text(bits) {
                assert(unprinted(value, done)[done.len() as int] == bits);
            }
        },
        JsonValue::Array(items) => {
            assert(unprinted(value, done) == unprinted_elements(items, done));
            lemma_elements_printable(items, table, pretty, depth + 1, done);
        },
        JsonValue::Object(members) => {
            assert(unprinted(value, done) == unprinted_members(members, done));
            lemma_members_printable(members, table, pretty, depth + 1, done);
        },
        _ => {},
    }
}

proof fn lemma_elements_printable(
    items: Seq<JsonValue>,
    table: Seq<(Seq<u8>, u64)>,
    pretty: bool,
    depth: nat,
    done: Seq<u64>,
)
    requires
        forall|i: int|
            done.len() <= i < unprinted_elements(items, done).len() ==> has_text(
                table,
                #[trigger] unprinted_elements(items, done)[i],
            ),
    ensures
        elements_text(items, table, pretty, depth) is Some,
    decreases items, 0nat,
{
    if items.len() > 0 {
        let found = unprinted(items.first(), done);
        lemma_unprinted_keeps(items.first(), done);
        lemma_unprinted_elements_keep(items.drop_first(), found);
        assert forall|i: int| done.len() <= i < found.len() implies has_text(
            table,
            #[trigger] found[i],
        ) by {
            assert(unprinted_elements(items, done)[i] == found[i]);
        }
        lemma_printable(items.first(), table, pretty, depth, done);
        assert(unprinted_elements(items, done) == unprinted_elements(items.drop_first(), found));
        lemma_elements_printable(items.drop_first(), table, pretty, depth, found);
    }
}

proof fn lemma_members_printable(
    members: Seq<(Seq<u8>, JsonValue)>,
    table: Seq<(Seq<u8>, u64)>,
    pretty: bool,
    depth: nat,
    done: Seq<u64>,
)
    requires
        forall|i: int|
            done.len() <= i < unprinted_members(members, done).len() ==> has_text(
                table,
                #[trigger] unprinted_members(members, done)[i],
            ),
    ensures
        members_text(members, table, pretty, depth) is Some,
    decreases members, 0nat,
{
    if members.len() > 0 {
        let found = unprinted(members.first().1, done);
        lemma_unprinted_keeps(members.first().1, done);
        lemma_unprinted_members_keep(members.drop_first(), found);
        assert forall|i: int| done.len() <= i < found.len() implies has_text(
            table,
            #[trigger] found[i],
        ) by {
            assert(unprinted_members(members, done)[i] == found[i]);
        }
        lemma_printable(members.first().1, table, pretty, depth, done);
        assert(unprinted_members(members, done) == unprinted_members(
            members.drop_first(),
            found,
        ));
        lemma_members_printable(members.drop_first(), table, pretty, depth, found);
    }
}

/// Where the scan for pending numbers goes on from `pos`: behind the
/// string or the number that begins there, or to the next byte. Nowhere
/// where a string begins that is not closed.
pub open spec fn scan_step(s: Seq<u8>, pos: int) -> Option<int> {
    if s[pos] == 34 {
        match string_end(s, pos + 1, Seq::empty()) {
            Some((bytes, end)) => if pos < end <= s.len() {
                Some(end)
            } else {
                None
            },
            None => None,
        }
    } else {
        match number_end(s, pos) {
            Some(end) => if pos < end <= s.len() {
                Some(end)
            } else {
                None
            },
            None => Some(pos + 1),
        }
    }
}

/// Whether the scan for pending numbers, begun at `from`, comes to `pos`.
pub open spec fn visits(s: Seq<u8>, from: int, pos: int) -> bool
    decreases s.len() - from,
{
    if from == pos {
        true
    } else if !(0 <= from < s.len()) || from > pos {
        false
    } else {
        match scan_step(s, from) {
            Some(next) => from < next && visits(s, next, pos),
            None => false,
        }
    }
}

/// The scan keeps what it found before.
proof fn lemma_pending_keeps(s: Seq<u8>, pos: int, done: Seq<Seq<u8>>, token: Seq<u8>)
    requires
        done.contains(token),
    ensures
        pending_from(s, pos, done).contains(token),
    decreases s.len() - pos,
{
    if 0 <= pos < s.len() {
        if s[pos] == 34 {
            match string_end(s, pos + 1, Seq::empty()) {
                Some((bytes, end)) => {
                    if pos < end <= s.len() {
                        lemma_pending_keeps(s, end, done, token);
                    }
                },
                None => {},
            }
        } else {
            match number_end(s, pos) {
                Some(end) => {
                    if pos < end <= s.len() {
                        let here = s.subrange(pos, end);
                        let grown = if integer_bits(here) is None {
                            done.push(here)
                        } else {
                            done
                        };
                        let i = choose|i: int| 0 <= i < done.len() && done[i] == token;
                        assert(grown[i] == token);
                        lemma_pending_keeps(s, end, grown, token);
                    }
                },
                None => {
                    lemma_pending_keeps(s, pos + 1, done, token);
                },
            }
        }
    }
}

/// A number to which the scan comes, and which the library does not
/// convert itself, is among the pending numbers.
proof fn lemma_visited_number_is_pending(s: Seq<u8>, from: int, pos: int, done: Seq<Seq<u8>>)
    requires
        visits(s, from, pos),
        0 <= pos < s.len(),
        s[pos] != 34,
        number_end(s, pos) matches Some(end) && pos < end <= s.len() && integer_bits(
            s.subrange(pos, end),
        ) is None,
    ensures
        pending_from(s, from, done).contains(s.subrange(pos, number_end(s, pos)->0)),
    decreases s.len() - from,
{
    let token = s.subrange(pos, number_end(s, pos)->0);
    if from == pos {
        let grown = done.push(token);
        assert(grown[done.len() as int] == token);
        lemma_pending_keeps(s, number_end(s, pos)->0, grown, token);
    } else {
        let next = scan_step(s, from)->0;
        if s[from] == 34 {
            lemma_visited_number_is_pending(s, next, pos, done);
        } else {
            match number_end(s, from) {
                Some(end) => {
                    let here = s.subrange(from, end);
                    let grown = if integer_bits(here) is None {
                        done.push(here)
                    } else {
                        done
                    };
                    lemma_visited_number_is_pending(s, next, pos, grown);
                },
                None => {
                    lemma_visited_number_is_pending(s, next, pos, done);
                },
            }
        }
    }
}

/// Where the scan comes to `pos` and goes on from there to `next`, it comes
/// to `next`.
proof fn lemma_visits_step(s: Seq<u8>, from: int, pos: int, next: int)
    requires
        visits(s, from, pos),
        0 <= pos < s.len(),
        scan_step(s, pos) == Some(next),
        pos < next,
    ensures
        visits(s, from, next),
    decreases s.len() - from,
{
    if from != pos {
        lemma_visits_step(s, scan_step(s, from)->0, pos, next);
    } else {
        assert(visits(s, next, next));
    }
}

/// Whether `b` neither opens a string nor begins a number, so that the
/// scan passes it by.
pub open spec fn passed_by(b: u8) -> bool {
    b != 34 && b != 45 && !is_digit(b)
}

/// The scan passes a run of bytes that open no string and begin no number.
proof fn lemma_visits_run(s: Seq<u8>, from: int, pos: int, to: int)
    requires
        visits(s, from, pos),
        0 <= pos <= to <= s.len(),
        forall|i: int| pos <= i < to ==> passed_by(#[trigger] s[i]),
    ensures
        visits(s, from, to),
    decreases to - pos,
{
    if pos < to {
        assert(passed_by(s[pos]));
        assert(number_end(s, pos) is None);
        lemma_visits_step(s, from, pos, pos + 1);
        lemma_visits_run(s, from, pos + 1, to);
    }
}

/// The scan passes the blanks that the reading of a text skips.
proof fn lemma_visits_blanks(s: Seq<u8>, from: int, pos: int)
    requires
        visits(s, from, pos),
        0 <= pos <= s.len(),
    ensures
        visits(s, from, blanks_end(s, pos)),
        pos <= blanks_end(s, pos) <= s.len(),
    decreases s.len() - pos,
{
    if pos < s.len() && is_blank(s[pos]) {
        assert(number_end(s, pos) is None);
        lemma_visits_step(s, from, pos, pos + 1);
        lemma_visits_blanks(s, from, pos + 1);
    }
}

/// Whether `table` holds each of the numbers of `s` that the library does
/// not convert itself.
pub open spec fn covers(table: Seq<(Seq<u8>, u64)>, s: Seq<u8>) -> bool {
    forall|i: int|
        0 <= i < pending_from(s, 0, Seq::empty()).len() ==> table_bits(
            table,
            #[trigger] pending_from(s, 0, Seq::empty())[i],
        ) is Some
}

/// The place behind the closing quote of a string that was read.
pub open spec fn string_close(reading: Option<(Seq<u8>, int)>) -> int {
    match reading {
        Some((bytes, end)) => end,
        None => 0,
    }
}

/// The place at which a reading that succeeded ended.
pub open spec fn read_end(reading: Option<(JsonValue, int)>) -> int {
    match reading {
        Some((value, end)) => end,
        None => 0,
    }
}

/// A value that is read under one table is read under every table that
/// covers the text, up to the same place, provided that the scan comes to
/// the place at which the value begins. The scan then comes to the place at
/// which the value ends.
proof fn lemma_value_under_cover(
    s: Seq<u8>,
    pos: int,
    other: Seq<(Seq<u8>, u64)>,
    table: Seq<(Seq<u8>, u64)>,
    depth: nat,
)
    requires
        value_at(s, pos, other, depth) is Some,
        visits(s, 0, pos),
        covers(table, s),
    ensures
        value_at(s, pos, table, depth) is Some,
        read_end(value_at(s, pos, table, depth)) == read_end(value_at(s, pos, other, depth)),
        visits(s, 0, read_end(value_at(s, pos, other, depth))),
        pos < read_end(value_at(s, pos, other, depth)) <= s.len(),
    decreases s.len() - pos, 1nat,
{
    if s[pos] == 110 {
        assert(null_at(s, pos));
        assert forall|i: int| pos <= i < pos + 4 implies passed_by(#[trigger] s[i]) by {
            assert(i == pos || i == pos + 1 || i == pos + 2 || i == pos + 3);
        }
        lemma_visits_run(s, 0, pos, pos + 4);
    } else if s[pos] == 116 {
        assert(true_at(s, pos));
        assert forall|i: int| pos <= i < pos + 4 implies passed_by(#[trigger] s[i]) by {
            assert(i == pos || i == pos + 1 || i == pos + 2 || i == pos + 3);
        }
        lemma_visits_run(s, 0, pos, pos + 4);
    } else if s[pos] == 102 {
        assert(false_at(s, pos));
        assert forall|i: int| pos <= i < pos + 5 implies passed_by(#[trigger] s[i]) by {
            assert(i == pos || i == pos + 1 || i == pos + 2 || i == pos + 3 || i == pos + 4);
        }
        lemma_visits_run(s, 0, pos, pos + 5);
    } else if s[pos] == 34 {
        let end = string_close(string_end(s, pos + 1, Seq::empty()));
        lemma_string_end_bounds(s, pos + 1, Seq::empty());
        lemma_visits_step(s, 0, pos, end);
    } else if s[pos] == 91 {
        assert(number_end(s, pos) is None);
        lemma_visits_step(s, 0, pos, pos + 1);
        lemma_visits_blanks(s, 0, pos + 1);
        let first = blanks_end(s, pos + 1);
        if first < s.len() && s[first] == 93 {
            assert(number_end(s, first) is None);
            lemma_visits_step(s, 0, first, first + 1);
        } else {
            lemma_elements_under_cover(
                s,
                first,
                other,
                table,
                (depth - 1) as nat,
                Seq::empty(),
                Seq::empty(),
            );
        }
    } else if s[pos] == 123 {
        assert(number_end(s, pos) is None);
        lemma_visits_step(s, 0, pos, pos + 1);
        lemma_visits_blanks(s, 0, pos + 1);
        let first = blanks_end(s, pos + 1);
        if first < s.len() && s[first] == 125 {
            assert(number_end(s, first) is None);
            lemma_visits_step(s, 0, first, first + 1);
        } else {
            lemma_members_under_cover(
                s,
                first,
                other,
                table,
                (depth - 1) as nat,
                Seq::empty(),
                Seq::empty(),
            );
        }
    } else {
        let end = number_end(s, pos)->0;
        lemma_number_end_bounds(s, pos);
        lemma_visits_step(s, 0, pos, end);
        let token = s.subrange(pos, end);
        if integer_bits(token) is None {
            lemma_visited_number_is_pending(s, 0, pos, Seq::empty());
            let pending = pending_from(s, 0, Seq::empty());
            let i = choose|i: int| 0 <= i < pending.len() && pending[i] == token;
            assert(table_bits(table, pending[i]) is Some);
        }
    }
}

/// A string that is closed ends behind the place at which it began, inside
/// the text.
proof fn lemma_string_end_bounds(s: Seq<u8>, pos: int, done: Seq<u8>)
    requires
        string_end(s, pos, done) is Some,
    ensures
        pos < string_close(string_end(s, pos, done)) <= s.len(),
    decreases s.len() - pos,
{
    if s[pos] == 34 {
    } else if s[pos] == 92 {
        let (bytes, next) = crate::text::lexer::escape_at(s, pos + 1)->0;
        lemma_string_end_bounds(s, next, done + bytes);
    } else {
        lemma_string_end_bounds(s, pos + 1, done.push(s[pos]));
    }
}

/// A number ends behind the place at which it began, inside the text.
proof fn lemma_number_end_bounds(s: Seq<u8>, pos: int)
    requires
        number_end(s, pos) is Some,
    ensures
        pos < number_end(s, pos)->0 <= s.len(),
{
    let whole = if 0 <= pos < s.len() && s[pos] == 45 {
        pos + 1
    } else {
        pos
    };
    crate::text::laws::lemma_digits_end(s, whole);
    let point = if s[whole] == 48 {
        whole + 1
    } else {
        crate::text::lexer::digits_end(s, whole)
    };
    if point < s.len() && s[point] == 46 {
        crate::text::laws::lemma_digits_end(s, point + 1);
        lemma_exponent_end_bounds(s, crate::text::lexer::digits_end(s, point + 1));
    } else {
        lemma_exponent_end_bounds(s, point);
    }
}

/// An exponent ends at or behind the place at which it began, inside the
/// text.
proof fn lemma_exponent_end_bounds(s: Seq<u8>, pos: int)
    requires
        0 <= pos <= s.len(),
        crate::text::lexer::exponent_end(s, pos) is Some,
    ensures
        pos <= crate::text::lexer::exponent_end(s, pos)->0 <= s.len(),
{
    if pos < s.len() && (s[pos] == 101 || s[pos] == 69) {
        let digits = if pos + 1 < s.len() && (s[pos + 1] == 43 || s[pos + 1] == 45) {
            pos + 2
        } else {
            pos + 1
        };
        crate::text::laws::lemma_digits_end(s, digits);
    }
}

/// The elements of an array that are read under one table are read under
/// every table that covers the text, up to the same place.
proof fn lemma_elements_under_cover(
    s: Seq<u8>,
    pos: int,
    other: Seq<(Seq<u8>, u64)>,
    table: Seq<(Seq<u8>, u64)>,
    depth: nat,
    done_other: Seq<JsonValue>,
    done: Seq<JsonValue>,
)
    requires
        elements_at(s, pos, other, depth, done_other) is Some,
        visits(s, 0, pos),
        covers(table, s),
    ensures
        elements_at(s, pos, table, depth, done) is Some,
        read_end(elements_at(s, pos, table, depth, done)) == read_end(
            elements_at(s, pos, other, depth, done_other),
        ),
        visits(s, 0, read_end(elements_at(s, pos, other, depth, done_other))),
        pos < read_end(elements_at(s, pos, other, depth, done_other)) <= s.len(),
    decreases s.len() - pos, 2nat,
{
    lemma_value_under_cover(s, pos, other, table, depth);
    let (value_other, end) = value_at(s, pos, other, depth)->0;
    let (value, same_end) = value_at(s, pos, table, depth)->0;
    assert(same_end == end);
    lemma_visits_blanks(s, 0, end);
    let next = blanks_end(s, end);
    assert(number_end(s, next) is None);
    lemma_visits_step(s, 0, next, next + 1);
    if s[next] == 44 {
        lemma_visits_blanks(s, 0, next + 1);
        lemma_elements_under_cover(
            s,
            blanks_end(s, next + 1),
            other,
            table,
            depth,
            done_other.push(value_other),
            done.push(value),
        );
    }
}

/// The members of an object that are read under one table are read under
/// every table that covers the text, up to the same place.
proof fn lemma_members_under_cover(
    s: Seq<u8>,
    pos: int,
    other: Seq<(Seq<u8>, u64)>,
    table: Seq<(Seq<u8>, u64)>,
    depth: nat,
    done_other: Seq<(Seq<u8>, JsonValue)>,
    done: Seq<(Seq<u8>, JsonValue)>,
)
    requires
        members_at(s, pos, other, depth, done_other) is Some,
        visits(s, 0, pos),
        covers(table, s),
    ensures
        members_at(s, pos, table, depth, done) is Some,
        read_end(members_at(s, pos, table, depth, done)) == read_end(
            members_at(s, pos, other, depth, done_other),
        ),
        visits(s, 0, read_end(members_at(s, pos, other, depth, done_other))),
        pos < read_end(members_at(s, pos, other, depth, done_other)) <= s.len(),
    decreases s.len() - pos, 2nat,
{
    let (name, name_end) = string_end(s, pos + 1, Seq::empty())->0;
    lemma_string_end_bounds(s, pos + 1, Seq::empty());
    lemma_visits_step(s, 0, pos, name_end);
    lemma_visits_blanks(s, 0, name_end);
    let colon = blanks_end(s, name_end);
    assert(number_end(s, colon) is None);
    lemma_visits_step(s, 0, colon, colon + 1);
    lemma_visits_blanks(s, 0, colon + 1);
    let start = blanks_end(s, colon + 1);
    lemma_value_under_cover(s, start, other, table, depth);
    let (value_other, end) = value_at(s, start, other, depth)->0;
    let (value, same_end) = value_at(s, start, table, depth)->0;
    assert(same_end == end);
    lemma_visits_blanks(s, 0, end);
    let next = blanks_end(s, end);
    assert(number_end(s, next) is None);
    lemma_visits_step(s, 0, next, next + 1);
    if s[next] == 44 {
        lemma_visits_blanks(s, 0, next + 1);
        lemma_members_under_cover(
            s,
            blanks_end(s, next + 1),
            other,
            table,
            depth,
            done_other.push((name, value_other)),
            done.push((name, value)),
        );
    }
}

/// A text that can be parsed under any table at all can be parsed under
/// every table that holds each of its pending numbers: with such a table,
/// parsing fails for no other reason than the text itself.
pub proof fn law_pending_numbers_suffice_to_parse(
    s: Seq<u8>,
    other: Seq<(Seq<u8>, u64)>,
    table: Seq<(Seq<u8>, u64)>,
)
    requires
        document_at(s, other) is Some,
        covers(table, s),
    ensures
        document_at(s, table) is Some,
{
    assert(visits(s, 0, 0));
    lemma_visits_blanks(s, 0, 0);
    lemma_value_under_cover(s, blanks_end(s, 0), other, table, NESTING_LIMIT as nat);
}

} // verus!
