//! The pieces of JSON text below the level of values: blanks, numbers and
//! strings.

use vstd::prelude::*;
use crate::number::bits_of_nat;
use crate::number::from_u64;
use crate::text::table::NumberTable;
use crate::text::table::table_bits;

verus! {

/// Whether `b` is a blank between the tokens of a text: a space, a tab, a
/// line feed or a carriage return.
pub open spec fn is_blank(b: u8) -> bool {
    b == 32 || b == 9 || b == 10 || b == 13
}

/// Whether `b` is a decimal digit.
pub open spec fn is_digit(b: u8) -> bool {
    48 <= b <= 57
}

/// The first place at or after `pos` that holds no blank.
pub open spec fn blanks_end(s: Seq<u8>, pos: int) -> int
    decreases s.len() - pos,
{
    if 0 <= pos < s.len() && is_blank(s[pos]) {
        blanks_end(s, pos + 1)
    } else {
        pos
    }
}

/// The first place at or after `pos` that holds no digit.
pub open spec fn digits_end(s: Seq<u8>, pos: int) -> int
    decreases s.len() - pos,
{
    if 0 <= pos < s.len() && is_digit(s[pos]) {
        digits_end(s, pos + 1)
    } else {
        pos
    }
}

/// The place behind the number that begins at `pos`: an optional minus
/// sign; then a zero, or a digit other than zero and any digits; then
/// optionally a point and at least one digit; then optionally an `e` or `E`,
/// an optional sign and at least one digit. Nothing where the text at `pos`
/// is not of that form.
pub open spec fn number_end(s: Seq<u8>, pos: int) -> Option<int> {
    let whole = if 0 <= pos < s.len() && s[pos] == 45 {
        pos + 1
    } else {
        pos
    };
    if !(0 <= whole < s.len() && is_digit(s[whole])) {
        None
    } else {
        let point = if s[whole] == 48 {
            whole + 1
        } else {
            digits_end(s, whole)
        };
        if point < s.len() && s[point] == 46 {
            if point + 1 < s.len() && is_digit(s[point + 1]) {
                exponent_end(s, digits_end(s, point + 1))
            } else {
                None
            }
        } else {
            exponent_end(s, point)
        }
    }
}

/// The place behind the exponent that may begin at `pos`.
pub open spec fn exponent_end(s: Seq<u8>, pos: int) -> Option<int> {
    if 0 <= pos < s.len() && (s[pos] == 101 || s[pos] == 69) {
        let digits = if pos + 1 < s.len() && (s[pos + 1] == 43 || s[pos + 1] == 45) {
            pos + 2
        } else {
            pos + 1
        };
        if digits < s.len() && is_digit(s[digits]) {
            Some(digits_end(s, digits))
        } else {
            None
        }
    } else {
        Some(pos)
    }
}

/// The number that a run of digits stands for.
pub open spec fn digits_value(digits: Seq<u8>) -> nat
    decreases digits.len(),
{
    if digits.len() == 0 {
        0
    } else {
        (digits_value(digits.drop_last()) * 10 + (digits.last() - 48)) as nat
    }
}

/// Whether every byte of `digits` is a digit.
pub open spec fn all_digits(digits: Seq<u8>) -> bool {
    forall|i: int| 0 <= i < digits.len() ==> is_digit(#[trigger] digits[i])
}

/// The bits of a number that is written as an integer of up to sixty-four
/// bits, with or without a minus sign: the bits of the binary64 value
/// nearest to it.
pub open spec fn integer_bits(token: Seq<u8>) -> Option<u64> {
    let negative = token.len() > 0 && token[0] == 45;
    let digits = if negative {
        token.drop_first()
    } else {
        token
    };
    if digits.len() > 0 && all_digits(digits) && digits_value(digits) <= u64::MAX {
        let sign: nat = if negative {
            0x8000_0000_0000_0000
        } else {
            0
        };
        Some((sign + bits_of_nat(digits_value(digits))) as u64)
    } else {
        None
    }
}

/// The bits of a number by its text: what the library computes for an
/// integer of up to sixty-four bits, and for any other text what `table`
/// holds.
pub open spec fn number_bits(token: Seq<u8>, table: Seq<(Seq<u8>, u64)>) -> Option<u64> {
    match integer_bits(token) {
        Some(bits) => Some(bits),
        None => table_bits(table, token),
    }
}

/// What a prefix of a run of digits stands for is no more than what the
/// run stands for.
pub proof fn lemma_digits_value_grows(digits: Seq<u8>, k: int)
    requires
        0 <= k <= digits.len(),
        all_digits(digits),
    ensures
        digits_value(digits.take(k)) <= digits_value(digits),
    decreases digits.len() - k,
{
    if k < digits.len() {
        lemma_digits_value_grows(digits, k + 1);
        assert(digits.take(k + 1).drop_last() =~= digits.take(k));
        assert(digits.take(k + 1).last() == digits[k]);
    } else {
        assert(digits.take(k) =~= digits);
    }
}

/// The first place at or after `pos` that holds no blank.
pub fn skip_blanks(s: &[u8], pos: usize) -> (r: usize)
    requires
        pos <= s.len(),
    ensures
        r == blanks_end(s@, pos as int),
        pos <= r <= s.len(),
{
    let mut i: usize = pos;
    while i < s.len() && (s[i] == 32 || s[i] == 9 || s[i] == 10 || s[i] == 13)
        invariant
            pos <= i <= s.len(),
            blanks_end(s@, pos as int) == blanks_end(s@, i as int),
        decreases s.len() - i,
    {
        i += 1;
    }
    i
}

/// The first place at or after `pos` that holds no digit.
pub fn skip_digits(s: &[u8], pos: usize) -> (r: usize)
    requires
        pos <= s.len(),
    ensures
        r == digits_end(s@, pos as int),
        pos <= r <= s.len(),
{
    let mut i: usize = pos;
    while i < s.len() && s[i] >= 48 && s[i] <= 57
        invariant
            pos <= i <= s.len(),
            digits_end(s@, pos as int) == digits_end(s@, i as int),
        decreases s.len() - i,
    {
        i += 1;
    }
    i
}

/// The place behind the exponent that may begin at `pos`.
fn scan_exponent(s: &[u8], pos: usize) -> (r: Option<usize>)
    requires
        pos <= s.len(),
    ensures
        match r {
            Some(end) => exponent_end(s@, pos as int) == Some(end as int) && pos <= end <= s.len(),
            None => exponent_end(s@, pos as int) is None,
        },
{
    if pos < s.len() && (s[pos] == 101 || s[pos] == 69) {
        let digits = if pos + 1 < s.len() && (s[pos + 1] == 43 || s[pos + 1] == 45) {
            pos + 2
        } else {
            pos + 1
        };
        if digits < s.len() && s[digits] >= 48 && s[digits] <= 57 {
            Some(skip_digits(s, digits))
        } else {
            None
        }
    } else {
        Some(pos)
    }
}

/// The place behind the number that begins at `pos`, where one begins
/// there.
pub fn scan_number(s: &[u8], pos: usize) -> (r: Option<usize>)
    requires
        pos <= s.len(),
    ensures
        match r {
            Some(end) => number_end(s@, pos as int) == Some(end as int) && pos < end <= s.len(),
            None => number_end(s@, pos as int) is None,
        },
{
    let whole = if pos < s.len() && s[pos] == 45 {
        pos + 1
    } else {
        pos
    };
    if !(whole < s.len() && s[whole] >= 48 && s[whole] <= 57) {
        return None;
    }
    let point = if s[whole] == 48 {
        whole + 1
    } else {
        skip_digits(s, whole + 1)
    };
    if point < s.len() && s[point] == 46 {
        if point + 1 < s.len() && s[point + 1] >= 48 && s[point + 1] <= 57 {
            scan_exponent(s, skip_digits(s, point + 1))
        } else {
            None
        }
    } else {
        scan_exponent(s, point)
    }
}

/// The bits of `token` where it is written as an integer of up to
/// sixty-four bits.
pub fn integer_token_bits(token: &[u8]) -> (r: Option<u64>)
    ensures
        r == integer_bits(token@),
{
    let negative = token.len() > 0 && token[0] == 45;
    let start: usize = if negative {
        1
    } else {
        0
    };
    let ghost digits = if negative {
        token@.drop_first()
    } else {
        token@
    };
    if start >= token.len() {
        return None;
    }
    let mut value: u64 = 0;
    let mut i: usize = start;
    proof {
        assert(digits.take(0) =~= Seq::<u8>::empty());
    }
    while i < token.len()
        invariant
            start <= i <= token.len(),
            negative == (token.len() > 0 && token@[0] == 45),
            digits == if negative {
                token@.drop_first()
            } else {
                token@
            },
            digits.len() == token.len() - start,
            forall|k: int| 0 <= k < digits.len() ==> digits[k] == token@[k + start],
            all_digits(digits.take(i - start)),
            value == digits_value(digits.take(i - start)),
        decreases token.len() - i,
    {
        let b = token[i];
        if !(b >= 48 && b <= 57) {
            proof {
                assert(!is_digit(digits[i - start]));
            }
            return None;
        }
        proof {
            let longer = digits.take(i - start + 1);
            assert(longer.drop_last() =~= digits.take(i - start));
            assert(longer.last() == b);
            assert(all_digits(longer)) by {
                assert forall|k: int| 0 <= k < longer.len() implies is_digit(
                    #[trigger] longer[k],
                ) by {
                    if k < longer.len() - 1 {
                        assert(longer[k] == digits.take(i - start)[k]);
                    }
                }
            }
        }
        let grown = match value.checked_mul(10) {
            Some(tenfold) => tenfold.checked_add((b - 48) as u64),
            None => None,
        };
        match grown {
            Some(next) => {
                value = next;
            },
            None => {
                proof {
                    if all_digits(digits) {
                        lemma_digits_value_grows(digits, i - start + 1);
                    }
                }
                return None;
            },
        }
        i += 1;
    }
    proof {
        assert(digits.take(i - start) =~= digits);
    }
    let magnitude = from_u64(value);
    if negative {
        Some(magnitude + 0x8000_0000_0000_0000)
    } else {
        Some(magnitude)
    }
}

/// The bits of the number whose text is `token`: computed where the text is
/// an integer of up to sixty-four bits, and looked up in `table` otherwise.
pub fn token_bits(token: &[u8], table: &NumberTable) -> (r: Option<u64>)
    ensures
        r == number_bits(token@, table@),
{
    match integer_token_bits(token) {
        Some(bits) => Some(bits),
        None => table.bits_of(token),
    }
}

/// The value of `b` as a hexadecimal digit, of either case.
pub open spec fn hex_value(b: u8) -> Option<int> {
    if 48 <= b <= 57 {
        Some(b - 48)
    } else if 97 <= b <= 102 {
        Some(b - 87)
    } else if 65 <= b <= 70 {
        Some(b - 55)
    } else {
        None
    }
}

/// The number that the four hexadecimal digits at `pos` stand for.
pub open spec fn hex4(s: Seq<u8>, pos: int) -> Option<int> {
    if 0 <= pos && pos + 4 <= s.len() && hex_value(s[pos]) is Some && hex_value(s[pos + 1]) is Some
        && hex_value(s[pos + 2]) is Some && hex_value(s[pos + 3]) is Some {
        Some(
            hex_value(s[pos])->0 * 4096 + hex_value(s[pos + 1])->0 * 256 + hex_value(
                s[pos + 2],
            )->0 * 16 + hex_value(s[pos + 3])->0,
        )
    } else {
        None
    }
}

/// The bytes of the code point `cp` in UTF-8.
pub open spec fn utf8_bytes(cp: int) -> Seq<u8> {
    if cp < 0x80 {
        seq![cp as u8]
    } else if cp < 0x800 {
        seq![(0xC0 + cp / 64) as u8, (0x80 + cp % 64) as u8]
    } else if cp < 0x10000 {
        seq![(0xE0 + cp / 4096) as u8, (0x80 + (cp / 64) % 64) as u8, (0x80 + cp % 64) as u8]
    } else {
        seq![
            (0xF0 + cp / 262144) as u8,
            (0x80 + (cp / 4096) % 64) as u8,
            (0x80 + (cp / 64) % 64) as u8,
            (0x80 + cp % 64) as u8,
        ]
    }
}

/// What the four hexadecimal digits at `pos`, which follow `\u`, stand for,
/// and the place behind the escape: the UTF-8 bytes of a code point. The
/// first half of a surrogate pair must be followed by `\u` and the second
/// half, and the two give one code point; a second half alone is refused.
pub open spec fn unicode_escape(s: Seq<u8>, pos: int) -> Option<(Seq<u8>, int)> {
    match hex4(s, pos) {
        None => None,
        Some(first) => if 0xDC00 <= first <= 0xDFFF {
            None
        } else if 0xD800 <= first <= 0xDBFF {
            if pos + 6 <= s.len() && s[pos + 4] == 92 && s[pos + 5] == 117 {
                match hex4(s, pos + 6) {
                    None => None,
                    Some(second) => if 0xDC00 <= second <= 0xDFFF {
                        Some(
                            (
                                utf8_bytes(
                                    0x10000 + (first - 0xD800) * 0x400 + (second - 0xDC00),
                                ),
                                pos + 10,
                            ),
                        )
                    } else {
                        None
                    },
                }
            } else {
                None
            }
        } else {
            Some((utf8_bytes(first), pos + 4))
        },
    }
}

/// What the escape whose backslash stands just before `pos` stands for, and
/// the place behind the escape.
pub open spec fn escape_at(s: Seq<u8>, pos: int) -> Option<(Seq<u8>, int)> {
    if !(0 <= pos < s.len()) {
        None
    } else if s[pos] == 34 || s[pos] == 92 || s[pos] == 47 {
        Some((seq![s[pos]], pos + 1))
    } else if s[pos] == 98 {
        Some((seq![8u8], pos + 1))
    } else if s[pos] == 102 {
        Some((seq![12u8], pos + 1))
    } else if s[pos] == 110 {
        Some((seq![10u8], pos + 1))
    } else if s[pos] == 114 {
        Some((seq![13u8], pos + 1))
    } else if s[pos] == 116 {
        Some((seq![9u8], pos + 1))
    } else if s[pos] == 117 {
        unicode_escape(s, pos + 1)
    } else {
        None
    }
}

/// The bytes of the string whose opening quote stands before `pos`, behind
/// the bytes `done` that were read already, and the place behind its closing
/// quote. A byte below the space is refused unless it is escaped.
pub open spec fn string_end(s: Seq<u8>, pos: int, done: Seq<u8>) -> Option<(Seq<u8>, int)>
    decreases s.len() - pos,
{
    if !(0 <= pos < s.len()) {
        None
    } else if s[pos] == 34 {
        Some((done, pos + 1))
    } else if s[pos] == 92 {
        match escape_at(s, pos + 1) {
            None => None,
            Some((bytes, next)) => if next <= pos {
                None
            } else {
                string_end(s, next, done + bytes)
            },
        }
    } else if s[pos] < 32 {
        None
    } else {
        string_end(s, pos + 1, done.push(s[pos]))
    }
}

/// The value of `b` as a hexadecimal digit.
fn hex_digit(b: u8) -> (r: Option<u32>)
    ensures
        match r {
            Some(v) => hex_value(b) == Some(v as int) && v < 16,
            None => hex_value(b) is None,
        },
{
    if b >= 48 && b <= 57 {
        Some((b - 48) as u32)
    } else if b >= 97 && b <= 102 {
        Some((b - 87) as u32)
    } else if b >= 65 && b <= 70 {
        Some((b - 55) as u32)
    } else {
        None
    }
}

/// The number that the four hexadecimal digits at `pos` stand for.
fn read_hex4(s: &[u8], pos: usize) -> (r: Option<u32>)
    requires
        pos <= s.len(),
    ensures
        match r {
            Some(v) => hex4(s@, pos as int) == Some(v as int) && v < 0x10000 && pos + 4 <= s.len(),
            None => hex4(s@, pos as int) is None,
        },
{
    if s.len() - pos < 4 {
        return None;
    }
    match hex_digit(s[pos]) {
        None => None,
        Some(a) => match hex_digit(s[pos + 1]) {
            None => None,
            Some(b) => match hex_digit(s[pos + 2]) {
                None => None,
                Some(c) => match hex_digit(s[pos + 3]) {
                    None => None,
                    Some(d) => Some(a * 4096 + b * 256 + c * 16 + d),
                },
            },
        },
    }
}

/// Appends the UTF-8 bytes of the code point `cp` to `out`.
fn push_utf8(out: &mut Vec<u8>, cp: u32)
    requires
        cp < 0x110000,
    ensures
        final(out)@ == old(out)@ + utf8_bytes(cp as int),
{
    if cp < 0x80 {
        out.push(cp as u8);
        proof {
            assert(out@ =~= old(out)@ + utf8_bytes(cp as int));
        }
    } else if cp < 0x800 {
        out.push((0xC0 + cp / 64) as u8);
        out.push((0x80 + cp % 64) as u8);
        proof {
            assert(out@ =~= old(out)@ + utf8_bytes(cp as int));
        }
    } else if cp < 0x10000 {
        out.push((0xE0 + cp / 4096) as u8);
        out.push((0x80 + (cp / 64) % 64) as u8);
        out.push((0x80 + cp % 64) as u8);
        proof {
            assert(out@ =~= old(out)@ + utf8_bytes(cp as int));
        }
    } else {
        out.push((0xF0 + cp / 262144) as u8);
        out.push((0x80 + (cp / 4096) % 64) as u8);
        out.push((0x80 + (cp / 64) % 64) as u8);
        out.push((0x80 + cp % 64) as u8);
        proof {
            assert(out@ =~= old(out)@ + utf8_bytes(cp as int));
        }
    }
}

/// Reads the escape whose backslash stands just before `pos`, appends what
/// it stands for to `out`, and gives the place behind the escape.
fn read_escape(s: &[u8], pos: usize, out: &mut Vec<u8>) -> (r: Option<usize>)
    requires
        pos <= s.len(),
    ensures
        match r {
            Some(next) => escape_at(s@, pos as int) matches Some((bytes, end)) && end == next
                && final(out)@ == old(out)@ + bytes && pos < next <= s.len(),
            None => escape_at(s@, pos as int) is None,
        },
{
    if pos >= s.len() {
        return None;
    }
    let b = s[pos];
    let plain: Option<u8> = if b == 34 || b == 92 || b == 47 {
        Some(b)
    } else if b == 98 {
        Some(8)
    } else if b == 102 {
        Some(12)
    } else if b == 110 {
        Some(10)
    } else if b == 114 {
        Some(13)
    } else if b == 116 {
        Some(9)
    } else {
        None
    };
    match plain {
        Some(byte) => {
            out.push(byte);
            proof {
                assert(out@ =~= old(out)@ + seq![byte]);
            }
            Some(pos + 1)
        },
        None => {
            if b != 117 {
                return None;
            }
            let first = match read_hex4(s, pos + 1) {
                Some(first) => first,
                None => {
                    return None;
                },
            };
            if first >= 0xDC00 && first <= 0xDFFF {
                None
            } else if first >= 0xD800 && first <= 0xDBFF {
                if s.len() - (pos + 1) >= 6 && s[pos + 5] == 92 && s[pos + 6] == 117 {
                    match read_hex4(s, pos + 7) {
                        None => None,
                        Some(second) => {
                            if second >= 0xDC00 && second <= 0xDFFF {
                                push_utf8(out, 0x10000 + (first - 0xD800) * 0x400 + (second - 0xDC00));
                                Some(pos + 11)
                            } else {
                                None
                            }
                        },
                    }
                } else {
                    None
                }
            } else {
                push_utf8(out, first);
                Some(pos + 5)
            }
        },
    }
}

/// Reads the string whose opening quote stands just before `pos`: its
/// bytes, and the place behind its closing quote.
pub fn read_string(s: &[u8], pos: usize) -> (r: Option<(Vec<u8>, usize)>)
    requires
        pos <= s.len(),
    ensures
        match r {
            Some((bytes, end)) => string_end(s@, pos as int, Seq::empty()) == Some(
                (bytes@, end as int),
            ) && pos < end <= s.len(),
            None => string_end(s@, pos as int, Seq::empty()) is None,
        },
{
    let mut out: Vec<u8> = Vec::new();
    let mut i: usize = pos;
    loop
        invariant
            pos <= i <= s.len(),
            string_end(s@, pos as int, Seq::empty()) == string_end(s@, i as int, out@),
        decreases s.len() - i,
    {
        if i >= s.len() {
            return None;
        }
        let b = s[i];
        if b == 34 {
            return Some((out, i + 1));
        } else if b == 92 {
            match read_escape(s, i + 1, &mut out) {
                Some(next) => {
                    i = next;
                },
                None => {
                    return None;
                },
            }
        } else if b < 32 {
            return None;
        } else {
            out.push(b);
            i += 1;
        }
    }
}

/// The texts of the numbers of `s` from `pos` on that the library does not
/// convert itself, behind the texts `done` that were found already, in the
/// order of the text.
///
/// The scan goes over the text once. It passes over each string, takes each
/// number where one begins, and keeps those that are not written as an
/// integer of up to sixty-four bits. It ends at a string that is not closed.
pub open spec fn pending_from(s: Seq<u8>, pos: int, done: Seq<Seq<u8>>) -> Seq<Seq<u8>>
    decreases s.len() - pos,
{
    if !(0 <= pos < s.len()) {
        done
    } else if s[pos] == 34 {
        match string_end(s, pos + 1, Seq::empty()) {
            Some((bytes, end)) => if pos < end <= s.len() {
                pending_from(s, end, done)
            } else {
                done
            },
            None => done,
        }
    } else {
        match number_end(s, pos) {
            Some(end) => if pos < end <= s.len() {
                let token = s.subrange(pos, end);
                pending_from(
                    s,
                    end,
                    if integer_bits(token) is None {
                        done.push(token)
                    } else {
                        done
                    },
                )
            } else {
                done
            },
            None => pending_from(s, pos + 1, done),
        }
    }
}

/// The texts of the numbers of `s` that a table has to supply before `s`
/// can be parsed: those that are not written as an integer of up to
/// sixty-four bits.
pub fn pending_numbers(s: &[u8]) -> (r: Vec<Vec<u8>>)
    ensures
        r@.len() == pending_from(s@, 0, Seq::empty()).len(),
        forall|i: int|
            0 <= i < r@.len() ==> (#[trigger] r@[i])@ == pending_from(s@, 0, Seq::empty())[i],
{
    let mut found: Vec<Vec<u8>> = Vec::new();
    let ghost mut done: Seq<Seq<u8>> = Seq::empty();
    let mut at: usize = 0;
    while at < s.len()
        invariant
            0 <= at <= s.len(),
            found@.len() == done.len(),
            forall|i: int| 0 <= i < found@.len() ==> (#[trigger] found@[i])@ == done[i],
            pending_from(s@, 0, Seq::empty()) == pending_from(s@, at as int, done),
        decreases s.len() - at,
    {
        if s[at] == 34 {
            match read_string(s, at + 1) {
                Some((_, end)) => {
                    at = end;
                },
                None => {
                    return found;
                },
            }
        } else {
            match scan_number(s, at) {
                Some(end) => {
                    let token = vstd::slice::slice_subrange(s, at, end);
                    if integer_token_bits(token).is_none() {
                        found.push(vstd::slice::slice_to_vec(token));
                        proof {
                            done = done.push(token@);
                        }
                    }
                    at = end;
                },
                None => {
                    at += 1;
                },
            }
        }
    }
    found
}

} // verus!
