//! The specification-level decoder: a mathematical reading of the Bencode
//! grammar over a byte sequence and a cursor position.
//!
//! [`decode_at`] says, for every buffer and every starting position, either
//! which value begins there and where it ends, or with which error the parse
//! fails.  [`crate::parser::Parser::parse`] is proved to agree with it
//! exactly.

use vstd::prelude::*;

use crate::value::BencodeView;
use crate::value::DecodeError;
use crate::value::dict_insert;
use crate::value::items_wf;
use crate::value::lemma_dict_insert_unique;
use crate::value::lemma_dict_insert_values_wf;
use crate::value::lemma_items_wf_push;
use crate::value::pairs_keys_unique;
use crate::value::pairs_values_wf;
use crate::value::view_wf;
use vstd::utf8::decode_utf8;
use vstd::utf8::valid_utf8;

verus! {

/// The marker byte `d`, opening a dictionary.
pub const DICT_MARK: u8 = 100;

/// The marker byte `l`, opening a list.
pub const LIST_MARK: u8 = 108;

/// The marker byte `i`, opening an integer.
pub const INT_MARK: u8 = 105;

/// The terminator byte `e`, closing dictionaries, lists and integers.
pub const END_MARK: u8 = 101;

/// The byte `:`, separating a length prefix from its payload.
pub const COLON: u8 = 58;

/// The byte `-`, the sign of a negative integer literal.
pub const MINUS: u8 = 45;

/// The byte `0`.
pub const DIGIT_ZERO: u8 = 48;

/// The byte `9`.
pub const DIGIT_NINE: u8 = 57;

/// An ASCII decimal digit.
pub open spec fn is_digit(b: u8) -> bool {
    DIGIT_ZERO <= b && b <= DIGIT_NINE
}

/// A non-empty run of ASCII decimal digits.
pub open spec fn is_digit_span(s: Seq<u8>) -> bool {
    s.len() > 0 && forall|i: int| 0 <= i < s.len() ==> is_digit(#[trigger] s[i])
}

/// The base-10 value of a digit run.
pub open spec fn digits_value(s: Seq<u8>) -> int
    decreases s.len(),
{
    if s.len() == 0 {
        0
    } else {
        10 * digits_value(s.drop_last()) + (s.last() - DIGIT_ZERO)
    }
}

/// A well-formed signed base-10 literal: an optional leading minus sign
/// followed by at least one digit.
pub open spec fn is_int_literal(s: Seq<u8>) -> bool {
    if s.len() > 0 && s[0] == MINUS {
        is_digit_span(s.subrange(1, s.len() as int))
    } else {
        is_digit_span(s)
    }
}

/// The signed value of a well-formed literal.
pub open spec fn int_literal_value(s: Seq<u8>) -> int {
    if s.len() > 0 && s[0] == MINUS {
        -digits_value(s.subrange(1, s.len() as int))
    } else {
        digits_value(s)
    }
}

/// A run of digits has a non-negative value.
pub proof fn lemma_digits_value_nonneg(s: Seq<u8>)
    requires
        forall|i: int| 0 <= i < s.len() ==> is_digit(#[trigger] s[i]),
    ensures
        digits_value(s) >= 0,
    decreases s.len(),
{
    if s.len() > 0 {
        assert(forall|i: int|
            0 <= i < s.drop_last().len() ==> is_digit(#[trigger] s.drop_last()[i]));
        lemma_digits_value_nonneg(s.drop_last());
    }
}

/// One more digit multiplies the value so far by ten and adds the digit.
pub proof fn lemma_digits_value_take_step(s: Seq<u8>, i: int)
    requires
        0 <= i < s.len(),
    ensures
        digits_value(s.take(i + 1)) == 10 * digits_value(s.take(i)) + (s[i] - DIGIT_ZERO),
{
    assert(s.take(i + 1).drop_last() =~= s.take(i));
    assert(s.take(i + 1).last() == s[i]);
}

/// Extending a digit run to the right cannot lower its value.
pub proof fn lemma_digits_value_take_le(s: Seq<u8>, i: int, j: int)
    requires
        forall|k: int| 0 <= k < s.len() ==> is_digit(#[trigger] s[k]),
        0 <= i <= j <= s.len(),
    ensures
        digits_value(s.take(i)) <= digits_value(s.take(j)),
    decreases j - i,
{
    if i < j {
        lemma_digits_value_take_le(s, i, j - 1);
        assert(forall|k: int| 0 <= k < s.take(j - 1).len() ==> is_digit(#[trigger] s.take(j - 1)[k]));
        lemma_digits_value_nonneg(s.take(j - 1));
        lemma_digits_value_take_step(s, j - 1);
    }
}

/// The first position at or after `pos` holding `target`, if any.
pub open spec fn find_byte(data: Seq<u8>, pos: int, target: u8) -> Option<int>
    decreases data.len() - pos,
{
    if pos < 0 || pos >= data.len() {
        None
    } else if data[pos] == target {
        Some(pos)
    } else {
        find_byte(data, pos + 1, target)
    }
}

/// What the span between `i` and its closing `e` yields: the integer value,
/// or the error mandated for it.  Spans that are no literal are reported as
/// malformed when they are at least text, and as invalid UTF-8 otherwise.
pub open spec fn int_span_result(span: Seq<u8>) -> Result<int, DecodeError> {
    if is_int_literal(span) {
        if isize::MIN as int <= int_literal_value(span) <= isize::MAX as int {
            Ok(int_literal_value(span))
        } else {
            Err(DecodeError::MalformedInteger)
        }
    } else if !valid_utf8(span) {
        Err(DecodeError::InvalidUtf8)
    } else {
        Err(DecodeError::MalformedInteger)
    }
}

/// What a length-prefix span yields: the length, or the error mandated for
/// it.  A sign is not part of the length grammar.
pub open spec fn len_span_result(span: Seq<u8>) -> Result<int, DecodeError> {
    if is_digit_span(span) {
        if digits_value(span) <= usize::MAX as int {
            Ok(digits_value(span))
        } else {
            Err(DecodeError::MalformedLength)
        }
    } else if !valid_utf8(span) {
        Err(DecodeError::InvalidUtf8)
    } else {
        Err(DecodeError::MalformedLength)
    }
}

/// The value beginning at `pos`, and the position just past it; or the error
/// the grammar assigns to the malformed input.
pub open spec fn decode_at(data: Seq<u8>, pos: int) -> Result<(BencodeView, int), DecodeError>
    decreases data.len() - pos, 0int,
{
    if pos < 0 || pos >= data.len() {
        Err(DecodeError::UnexpectedEof)
    } else if data[pos] == DICT_MARK {
        match decode_pairs_at(data, pos + 1, Seq::empty()) {
            Ok((pairs, end)) => Ok((BencodeView::Dictionary(pairs), end)),
            Err(e) => Err(e),
        }
    } else if data[pos] == LIST_MARK {
        match decode_items_at(data, pos + 1, Seq::empty()) {
            Ok((items, end)) => Ok((BencodeView::List(items), end)),
            Err(e) => Err(e),
        }
    } else if data[pos] == INT_MARK {
        match find_byte(data, pos + 1, END_MARK) {
            None => Err(DecodeError::UnexpectedEof),
            Some(epos) => match int_span_result(data.subrange(pos + 1, epos)) {
                Ok(n) => Ok((BencodeView::Integer(n), epos + 1)),
                Err(e) => Err(e),
            },
        }
    } else if is_digit(data[pos]) {
        match find_byte(data, pos, COLON) {
            None => Err(DecodeError::UnexpectedEof),
            Some(cpos) => match len_span_result(data.subrange(pos, cpos)) {
                Ok(n) => if cpos + 1 + n <= data.len() {
                    Ok((BencodeView::Bytes(data.subrange(cpos + 1, cpos + 1 + n)), cpos + 1 + n))
                } else {
                    Err(DecodeError::UnexpectedEof)
                },
                Err(e) => Err(e),
            },
        }
    } else {
        Err(DecodeError::UnrecognizedMarker(data[pos]))
    }
}

/// The list elements from `pos` up to and past the closing `e`, appended to
/// `acc`.  The guards on the positions a nested decode returns only serve
/// the termination measure; [`lemma_decode_at_advances`] shows a decoded
/// value always ends past its start and within the buffer.
pub open spec fn decode_items_at(
    data: Seq<u8>,
    pos: int,
    acc: Seq<BencodeView>,
) -> Result<(Seq<BencodeView>, int), DecodeError>
    decreases data.len() - pos, 1int,
{
    if pos < 0 || pos >= data.len() {
        Err(DecodeError::UnexpectedEof)
    } else if data[pos] == END_MARK {
        Ok((acc, pos + 1))
    } else {
        match decode_at(data, pos) {
            Err(e) => Err(e),
            Ok((item, end)) => if !(pos < end <= data.len()) {
                Err(DecodeError::UnexpectedEof)
            } else {
                decode_items_at(data, end, acc.push(item))
            },
        }
    }
}

/// The dictionary pairs from `pos` up to and past the closing `e`, folded
/// into `acc` with [`dict_insert`].  A key must decode to a byte string
/// holding valid UTF-8; its value is decoded before the key is examined.
/// The position guards are as in [`decode_items_at`].
pub open spec fn decode_pairs_at(
    data: Seq<u8>,
    pos: int,
    acc: Seq<(Seq<char>, BencodeView)>,
) -> Result<(Seq<(Seq<char>, BencodeView)>, int), DecodeError>
    decreases data.len() - pos, 1int,
{
    if pos < 0 || pos >= data.len() {
        Err(DecodeError::UnexpectedEof)
    } else if data[pos] == END_MARK {
        Ok((acc, pos + 1))
    } else {
        match decode_at(data, pos) {
            Err(e) => Err(e),
            Ok((key, kend)) => if !(pos < kend <= data.len()) {
                Err(DecodeError::UnexpectedEof)
            } else {
                match decode_at(data, kend) {
                    Err(e) => Err(e),
                    Ok((val, vend)) => if !(kend < vend <= data.len()) {
                        Err(DecodeError::UnexpectedEof)
                    } else {
                        match key {
                            BencodeView::Bytes(kb) => if valid_utf8(kb) {
                                decode_pairs_at(data, vend, dict_insert(acc, decode_utf8(kb), val))
                            } else {
                                Err(DecodeError::InvalidUtf8)
                            },
                            _ => Err(DecodeError::NonStringKey),
                        }
                    },
                }
            },
        }
    }
}

/// A decoded value always ends past its start and within the buffer, and a
/// decoded element run ends past its start.
pub proof fn lemma_decode_at_advances(data: Seq<u8>, pos: int)
    ensures
        decode_at(data, pos) matches Ok(r) ==> pos < r.1 <= data.len(),
    decreases data.len() - pos, 0int,
{
    if 0 <= pos < data.len() {
        if data[pos] == DICT_MARK {
            lemma_decode_pairs_at_advances(data, pos + 1, Seq::empty());
        } else if data[pos] == LIST_MARK {
            lemma_decode_items_at_advances(data, pos + 1, Seq::empty());
        } else if data[pos] == INT_MARK {
            lemma_find_byte_in_range(data, pos + 1, END_MARK);
        } else if is_digit(data[pos]) {
            lemma_find_byte_in_range(data, pos, COLON);
            if let Some(cpos) = find_byte(data, pos, COLON) {
                if is_digit_span(data.subrange(pos, cpos)) {
                    lemma_digits_value_nonneg(data.subrange(pos, cpos));
                }
            }
        }
    }
}

pub proof fn lemma_decode_items_at_advances(data: Seq<u8>, pos: int, acc: Seq<BencodeView>)
    ensures
        decode_items_at(data, pos, acc) matches Ok(r) ==> pos < r.1 <= data.len(),
    decreases data.len() - pos, 1int,
{
    if 0 <= pos < data.len() && data[pos] != END_MARK {
        lemma_decode_at_advances(data, pos);
        if let Ok((item, end)) = decode_at(data, pos) {
            if pos < end <= data.len() {
                lemma_decode_items_at_advances(data, end, acc.push(item));
            }
        }
    }
}

pub proof fn lemma_decode_pairs_at_advances(
    data: Seq<u8>,
    pos: int,
    acc: Seq<(Seq<char>, BencodeView)>,
)
    ensures
        decode_pairs_at(data, pos, acc) matches Ok(r) ==> pos < r.1 <= data.len(),
    decreases data.len() - pos, 1int,
{
    if 0 <= pos < data.len() && data[pos] != END_MARK {
        lemma_decode_at_advances(data, pos);
        if let Ok((key, kend)) = decode_at(data, pos) {
            if pos < kend <= data.len() {
                lemma_decode_at_advances(data, kend);
                if let Ok((val, vend)) = decode_at(data, kend) {
                    if kend < vend <= data.len() {
                        if let BencodeView::Bytes(kb) = key {
                            if valid_utf8(kb) {
                                lemma_decode_pairs_at_advances(
                                    data,
                                    vend,
                                    dict_insert(acc, decode_utf8(kb), val),
                                );
                            }
                        }
                    }
                }
            }
        }
    }
}

/// A found byte lies at or after the start of the search and before the end
/// of the buffer.
pub proof fn lemma_find_byte_in_range(data: Seq<u8>, pos: int, target: u8)
    ensures
        find_byte(data, pos, target) matches Some(i) ==> pos <= i < data.len(),
    decreases data.len() - pos,
{
    if 0 <= pos < data.len() && data[pos] != target {
        lemma_find_byte_in_range(data, pos + 1, target);
    }
}

/// The search fails when no position in range holds the byte.
pub proof fn lemma_find_byte_none(data: Seq<u8>, pos: int, target: u8)
    requires
        forall|j: int| pos <= j < data.len() ==> data[j] != target,
    ensures
        find_byte(data, pos, target) == None::<int>,
    decreases data.len() - pos,
{
    if 0 <= pos && pos < data.len() {
        lemma_find_byte_none(data, pos + 1, target);
    }
}

/// The search finds the earliest occurrence: a position known to hold the
/// byte, with none before it in the searched range.
pub proof fn lemma_find_byte_first(data: Seq<u8>, pos: int, target: u8, at: int)
    requires
        0 <= pos <= at < data.len(),
        data[at] == target,
        forall|j: int| pos <= j < at ==> data[j] != target,
    ensures
        find_byte(data, pos, target) == Some(at),
    decreases at - pos,
{
    if pos < at {
        lemma_find_byte_first(data, pos + 1, target, at);
    }
}

/// Every decoded value is well-formed: each dictionary in the tree binds
/// a key at most once, as [`dict_insert`] never leaves two pairs with the
/// same key.
pub proof fn lemma_decode_at_wf(data: Seq<u8>, pos: int)
    ensures
        decode_at(data, pos) matches Ok(r) ==> view_wf(r.0),
    decreases data.len() - pos, 0int,
{
    if 0 <= pos < data.len() {
        if data[pos] == DICT_MARK {
            assert(pairs_keys_unique(Seq::<(Seq<char>, BencodeView)>::empty()));
            assert(pairs_values_wf(Seq::<(Seq<char>, BencodeView)>::empty()));
            lemma_decode_pairs_at_wf(data, pos + 1, Seq::empty());
        } else if data[pos] == LIST_MARK {
            assert(items_wf(Seq::<BencodeView>::empty()));
            lemma_decode_items_at_wf(data, pos + 1, Seq::empty());
        }
    }
}

proof fn lemma_decode_items_at_wf(data: Seq<u8>, pos: int, acc: Seq<BencodeView>)
    requires
        items_wf(acc),
    ensures
        decode_items_at(data, pos, acc) matches Ok(r) ==> items_wf(r.0),
    decreases data.len() - pos, 1int,
{
    if 0 <= pos < data.len() && data[pos] != END_MARK {
        lemma_decode_at_wf(data, pos);
        if let Ok((item, end)) = decode_at(data, pos) {
            if pos < end <= data.len() {
                lemma_items_wf_push(acc, item);
                lemma_decode_items_at_wf(data, end, acc.push(item));
            }
        }
    }
}

proof fn lemma_decode_pairs_at_wf(data: Seq<u8>, pos: int, acc: Seq<(Seq<char>, BencodeView)>)
    requires
        pairs_keys_unique(acc),
        pairs_values_wf(acc),
    ensures
        decode_pairs_at(data, pos, acc) matches Ok(r) ==> pairs_keys_unique(r.0)
            && pairs_values_wf(r.0),
    decreases data.len() - pos, 1int,
{
    if 0 <= pos < data.len() && data[pos] != END_MARK {
        lemma_decode_at_wf(data, pos);
        if let Ok((key, kend)) = decode_at(data, pos) {
            if pos < kend <= data.len() {
                lemma_decode_at_wf(data, kend);
                if let Ok((val, vend)) = decode_at(data, kend) {
                    if kend < vend <= data.len() {
                        if let BencodeView::Bytes(kb) = key {
                            if valid_utf8(kb) {
                                lemma_dict_insert_unique(acc, decode_utf8(kb), val);
                                lemma_dict_insert_values_wf(acc, decode_utf8(kb), val);
                                lemma_decode_pairs_at_wf(
                                    data,
                                    vend,
                                    dict_insert(acc, decode_utf8(kb), val),
                                );
                            }
                        }
                    }
                }
            }
        }
    }
}

} // verus!
