//! The executable recursive-descent decoder, proved to agree with
//! [`decode_at`] on every input.

use vstd::prelude::*;

use vstd::pervasive::VecAdditionalExecFns;
use vstd::utf8::decode_utf8;
use vstd::utf8::valid_utf8;

use crate::model::COLON;
use crate::model::DICT_MARK;
use crate::model::DIGIT_NINE;
use crate::model::DIGIT_ZERO;
use crate::model::END_MARK;
use crate::model::INT_MARK;
use crate::model::LIST_MARK;
use crate::model::MINUS;
use crate::model::decode_at;
use crate::model::decode_items_at;
use crate::model::decode_pairs_at;
use crate::model::digits_value;
use crate::model::find_byte;
use crate::model::int_span_result;
use crate::model::is_digit;
use crate::model::is_digit_span;
use crate::model::is_int_literal;
use crate::model::int_literal_value;
use crate::model::len_span_result;
use crate::model::lemma_digits_value_nonneg;
use crate::model::lemma_digits_value_take_le;
use crate::model::lemma_digits_value_take_step;
use crate::model::lemma_find_byte_in_range;
use crate::value::Bencode;
use crate::value::BencodeView;
use crate::value::DecodeError;
use crate::value::dict_insert;
use crate::value::lemma_dict_insert_found;
use crate::value::lemma_dict_insert_fresh;
use crate::value::lemma_pairs_view_index;
use crate::value::lemma_pairs_view_push;
use crate::value::lemma_pairs_view_update;
use crate::value::lemma_seq_view_push;
use crate::value::pairs_view;
use crate::value::seq_view;

verus! {

/// Relies on `alloc::string::String::from_utf8`: the conversion succeeds
/// exactly on valid UTF-8, and the returned string holds the characters the
/// bytes decode to.
#[verifier::external_body]
fn string_from_bytes(bytes: Vec<u8>) -> (r: Option<String>)
    ensures
        r is Some <==> valid_utf8(bytes@),
        r matches Some(s) ==> s@ == decode_utf8(bytes@),
{
    String::from_utf8(bytes).ok()
}

/// The error for a span that is no well-formed integer literal: the bytes
/// are reported as text that fails to parse when they are valid UTF-8, and
/// as invalid UTF-8 otherwise.
fn integer_span_failure(span: Vec<u8>) -> (e: DecodeError)
    ensures
        e == if valid_utf8(span@) {
            DecodeError::MalformedInteger
        } else {
            DecodeError::InvalidUtf8
        },
{
    match string_from_bytes(span) {
        Some(_) => DecodeError::MalformedInteger,
        None => DecodeError::InvalidUtf8,
    }
}

/// As [`integer_span_failure`], for a length prefix.
fn length_span_failure(span: Vec<u8>) -> (e: DecodeError)
    ensures
        e == if valid_utf8(span@) {
            DecodeError::MalformedLength
        } else {
            DecodeError::InvalidUtf8
        },
{
    match string_from_bytes(span) {
        Some(_) => DecodeError::MalformedLength,
        None => DecodeError::InvalidUtf8,
    }
}

/// Reads the span between `i` and its `e` terminator as a signed base-10
/// integer.
fn parse_int_span(span: Vec<u8>) -> (r: Result<isize, DecodeError>)
    ensures
        r matches Ok(n) ==> int_span_result(span@) == Ok::<int, DecodeError>(n as int),
        r matches Err(e) ==> int_span_result(span@) == Err::<int, DecodeError>(e),
{
    let len = span.len();
    let negative = len > 0 && span[0] == MINUS;
    let offset: usize = if negative {
        1
    } else {
        0
    };
    let ghost digits = span@.subrange(offset as int, len as int);
    if len == offset {
        proof {
            assert(!is_int_literal(span@));
        }
        return Err(integer_span_failure(span));
    }
    let mut i: usize = offset;
    while i < len
        invariant
            offset <= i <= len,
            len == span@.len(),
            offset == 1 <==> (len > 0 && span@[0] == MINUS),
            offset == 0 || offset == 1,
            digits == span@.subrange(offset as int, len as int),
            forall|j: int| offset <= j < i ==> is_digit(#[trigger] span@[j]),
        decreases len - i,
    {
        let b = span[i];
        if b < DIGIT_ZERO || b > DIGIT_NINE {
            proof {
                assert(!is_digit(span@[i as int]));
                if offset == 1 {
                    assert(span@.subrange(1, len as int)[i - 1] == span@[i as int]);
                    assert(!is_digit_span(span@.subrange(1, len as int)));
                } else {
                    assert(!is_digit_span(span@));
                }
                assert(!is_int_literal(span@));
            }
            return Err(integer_span_failure(span));
        }
        i += 1;
    }
    proof {
        assert(forall|j: int| 0 <= j < digits.len() ==> is_digit(#[trigger] digits[j]));
        assert(is_digit_span(digits));
        assert(is_int_literal(span@));
        if offset == 0 {
            assert(digits =~= span@);
        }
        assert(int_literal_value(span@) == if negative {
            -digits_value(digits)
        } else {
            digits_value(digits)
        });
    }
    let mut acc: isize = 0;
    let mut k: usize = offset;
    while k < len
        invariant
            offset <= k <= len,
            len == span@.len(),
            offset == 0 || offset == 1,
            negative <==> offset == 1,
            digits == span@.subrange(offset as int, len as int),
            forall|j: int| 0 <= j < digits.len() ==> is_digit(#[trigger] digits[j]),
            is_digit_span(digits),
            is_int_literal(span@),
            int_literal_value(span@) == if negative {
                -digits_value(digits)
            } else {
                digits_value(digits)
            },
            acc as int == if negative {
                -digits_value(digits.take(k - offset))
            } else {
                digits_value(digits.take(k - offset))
            },
        decreases len - k,
    {
        let d = span[k];
        proof {
            assert(digits[k - offset] == span@[k as int]);
            lemma_digits_value_take_step(digits, k - offset);
            lemma_digits_value_nonneg(digits.take(k - offset));
            lemma_digits_value_take_le(digits, k + 1 - offset, digits.len() as int);
            assert(digits.take(digits.len() as int) =~= digits);
        }
        let shifted = match acc.checked_mul(10) {
            Some(x) => x,
            None => {
                return Err(DecodeError::MalformedInteger);
            },
        };
        acc = if negative {
            match shifted.checked_sub((d - DIGIT_ZERO) as isize) {
                Some(x) => x,
                None => {
                    return Err(DecodeError::MalformedInteger);
                },
            }
        } else {
            match shifted.checked_add((d - DIGIT_ZERO) as isize) {
                Some(x) => x,
                None => {
                    return Err(DecodeError::MalformedInteger);
                },
            }
        };
        k += 1;
    }
    proof {
        assert(digits.take(len - offset) =~= digits);
    }
    Ok(acc)
}

/// Reads a length prefix span as an unsigned base-10 length.
fn parse_len_span(span: Vec<u8>) -> (r: Result<usize, DecodeError>)
    ensures
        r matches Ok(n) ==> len_span_result(span@) == Ok::<int, DecodeError>(n as int),
        r matches Err(e) ==> len_span_result(span@) == Err::<int, DecodeError>(e),
{
    let len = span.len();
    if len == 0 {
        return Err(length_span_failure(span));
    }
    let mut i: usize = 0;
    while i < len
        invariant
            0 <= i <= len,
            len == span@.len(),
            forall|j: int| 0 <= j < i ==> is_digit(#[trigger] span@[j]),
        decreases len - i,
    {
        let b = span[i];
        if b < DIGIT_ZERO || b > DIGIT_NINE {
            proof {
                assert(!is_digit(span@[i as int]));
                assert(!is_digit_span(span@));
            }
            return Err(length_span_failure(span));
        }
        i += 1;
    }
    let mut acc: usize = 0;
    let mut k: usize = 0;
    while k < len
        invariant
            0 <= k <= len,
            len == span@.len(),
            forall|j: int| 0 <= j < len ==> is_digit(#[trigger] span@[j]),
            is_digit_span(span@),
            acc as int == digits_value(span@.take(k as int)),
        decreases len - k,
    {
        let d = span[k];
        proof {
            lemma_digits_value_take_step(span@, k as int);
            lemma_digits_value_nonneg(span@.take(k as int));
            lemma_digits_value_take_le(span@, k + 1, len as int);
            assert(span@.take(len as int) =~= span@);
        }
        let shifted = match acc.checked_mul(10) {
            Some(x) => x,
            None => {
                return Err(DecodeError::MalformedLength);
            },
        };
        acc = match shifted.checked_add((d - DIGIT_ZERO) as usize) {
            Some(x) => x,
            None => {
                return Err(DecodeError::MalformedLength);
            },
        };
        k += 1;
    }
    proof {
        assert(span@.take(len as int) =~= span@);
    }
    Ok(acc)
}

/// Binds `key` to `val` among the decoded entries, overwriting in place the
/// entry already holding the key, if any, and appending otherwise.
fn dict_insert_entries(entries: &mut Vec<(String, Bencode)>, key: String, val: Bencode)
    ensures
        pairs_view(final(entries)@) == dict_insert(
            pairs_view(old(entries)@),
            key@,
            val.deep_view(),
        ),
{
    let ghost orig = old(entries)@;
    let n = entries.len();
    let mut i: usize = 0;
    while i < n
        invariant
            0 <= i <= n,
            orig == old(entries)@,
            entries@ == orig,
            n == orig.len(),
            forall|j: int| 0 <= j < i ==> orig[j].0@ != key@,
        decreases n - i,
    {
        if entries[i].0 == key {
            let ghost entry = (key, val);
            proof {
                lemma_pairs_view_index(orig);
                assert(pairs_view(orig)[i as int].0 == key@);
                assert(forall|j: int| 0 <= j < i ==> #[trigger] pairs_view(orig)[j].0 != key@);
                lemma_dict_insert_found(pairs_view(orig), key@, val.deep_view(), i as int);
                lemma_pairs_view_update(orig, i as int, entry);
                assert(pairs_view(orig.update(i as int, entry)) == dict_insert(
                    pairs_view(orig),
                    key@,
                    val.deep_view(),
                ));
            }
            entries.set(i, (key, val));
            proof {
                assert(entries@ == orig.update(i as int, entry));
            }
            return;
        }
        i += 1;
    }
    let ghost entry = (key, val);
    proof {
        lemma_pairs_view_index(orig);
        assert(!crate::value::dict_has_key(pairs_view(orig), key@));
        lemma_pairs_view_push(orig, entry);
        lemma_dict_insert_fresh(pairs_view(orig), key@, val.deep_view());
        assert(pairs_view(orig.push(entry)) == dict_insert(
            pairs_view(orig),
            key@,
            val.deep_view(),
        ));
    }
    entries.push((key, val));
    proof {
        assert(entries@ == orig.push(entry));
    }
}

/// A decoder: the input buffer and a cursor over it.
pub struct Parser {
    data: Vec<u8>,
    current: usize,
}

impl Parser {
    /// The bytes being decoded.
    pub closed spec fn bytes(&self) -> Seq<u8> {
        self.data@
    }

    /// The cursor: how many bytes have been consumed.
    pub closed spec fn pos(&self) -> int {
        self.current as int
    }

    /// A decoder over `data`, with the cursor at the start.
    pub fn new(data: Vec<u8>) -> (parser: Parser)
        ensures
            parser.bytes() == data@,
            parser.pos() == 0,
    {
        Self { data, current: 0 }
    }

    fn is_at_end(&self) -> (r: bool)
        ensures
            r == (self.pos() >= self.bytes().len()),
    {
        self.current >= self.data.len()
    }

    fn peek(&self) -> (b: u8)
        requires
            self.pos() < self.bytes().len(),
        ensures
            b == self.bytes()[self.pos()],
    {
        self.data[self.current]
    }

    fn previous(&self) -> (b: u8)
        requires
            0 < self.pos() <= self.bytes().len(),
        ensures
            b == self.bytes()[self.pos() - 1],
    {
        self.data[self.current - 1]
    }

    fn advance(&mut self) -> (b: u8)
        requires
            old(self).pos() < old(self).bytes().len(),
        ensures
            final(self).bytes() == old(self).bytes(),
            final(self).pos() == old(self).pos() + 1,
            b == old(self).bytes()[old(self).pos()],
    {
        let limit = self.data.len();
        if self.current < limit {
            self.current = self.current + 1;
        }
        self.previous()
    }

    /// Consumes bytes up to the next `target`, and the `target` itself,
    /// returning the bytes before it.
    fn advance_to(&mut self, target: u8) -> (r: Result<Vec<u8>, DecodeError>)
        requires
            old(self).pos() <= old(self).bytes().len(),
        ensures
            final(self).bytes() == old(self).bytes(),
            match find_byte(old(self).bytes(), old(self).pos(), target) {
                Some(at) => r matches Ok(span) && span@ == old(self).bytes().subrange(
                    old(self).pos(),
                    at,
                ) && final(self).pos() == at + 1,
                None => r == Err::<Vec<u8>, DecodeError>(DecodeError::UnexpectedEof),
            },
    {
        let mut span: Vec<u8> = Vec::new();
        loop
            invariant
                self.bytes() == old(self).bytes(),
                old(self).pos() <= self.pos() <= self.bytes().len(),
                span@ == self.bytes().subrange(old(self).pos(), self.pos()),
                find_byte(self.bytes(), old(self).pos(), target) == find_byte(
                    self.bytes(),
                    self.pos(),
                    target,
                ),
            decreases self.bytes().len() - self.pos(),
        {
            if self.is_at_end() {
                return Err(DecodeError::UnexpectedEof);
            }
            let b = self.peek();
            if b == target {
                self.advance();
                return Ok(span);
            }
            let taken = self.advance();
            span.push(taken);
            proof {
                assert(self.bytes().subrange(old(self).pos(), self.pos())
                    =~= self.bytes().subrange(old(self).pos(), self.pos() - 1).push(
                    self.bytes()[self.pos() - 1],
                ));
            }
        }
    }

    /// Consumes exactly `count` bytes and returns them.
    fn advance_exact(&mut self, count: usize) -> (r: Result<Vec<u8>, DecodeError>)
        requires
            old(self).pos() <= old(self).bytes().len(),
        ensures
            final(self).bytes() == old(self).bytes(),
            if old(self).pos() + count <= old(self).bytes().len() {
                r matches Ok(content) && content@ == old(self).bytes().subrange(
                    old(self).pos(),
                    old(self).pos() + count,
                ) && final(self).pos() == old(self).pos() + count
            } else {
                r == Err::<Vec<u8>, DecodeError>(DecodeError::UnexpectedEof)
            },
    {
        if count > self.data.len() - self.current {
            return Err(DecodeError::UnexpectedEof);
        }
        let mut content: Vec<u8> = Vec::new();
        let mut taken: usize = 0;
        while taken < count
            invariant
                taken <= count,
                self.bytes() == old(self).bytes(),
                self.pos() == old(self).pos() + taken,
                old(self).pos() + count <= self.bytes().len(),
                content@ == self.bytes().subrange(old(self).pos(), self.pos()),
            decreases count - taken,
        {
            let b = self.advance();
            content.push(b);
            taken += 1;
            proof {
                assert(self.bytes().subrange(old(self).pos(), self.pos())
                    =~= self.bytes().subrange(old(self).pos(), self.pos() - 1).push(
                    self.bytes()[self.pos() - 1],
                ));
            }
        }
        Ok(content)
    }

    /// Decodes the one value beginning at the cursor and leaves the cursor
    /// just past it.  The result, and on failure the error, are exactly
    /// those of [`decode_at`] for the cursor's starting position; input
    /// after the decoded value is left untouched.
    pub fn parse(&mut self) -> (r: Result<Bencode, DecodeError>)
        ensures
            final(self).bytes() == old(self).bytes(),
            match r {
                Ok(v) => decode_at(old(self).bytes(), old(self).pos()) == Ok::<
                    (BencodeView, int),
                    DecodeError,
                >((v.deep_view(), final(self).pos())) && old(self).pos() < final(self).pos()
                    <= final(self).bytes().len(),
                Err(e) => decode_at(old(self).bytes(), old(self).pos()) == Err::<
                    (BencodeView, int),
                    DecodeError,
                >(e),
            },
        decreases self.bytes().len() - self.pos(),
    {
        if self.is_at_end() {
            return Err(DecodeError::UnexpectedEof);
        }
        let marker = self.peek();
        if marker == DICT_MARK {
            self.advance();
            let mut entries: Vec<(String, Bencode)> = Vec::new();
            loop
                invariant
                    self.bytes() == old(self).bytes(),
                    old(self).pos() < self.pos() <= self.bytes().len(),
                    old(self).pos() < self.bytes().len(),
                    self.bytes()[old(self).pos()] == DICT_MARK,
                    decode_pairs_at(
                        self.bytes(),
                        old(self).pos() + 1,
                        Seq::<(Seq<char>, BencodeView)>::empty(),
                    ) == decode_pairs_at(self.bytes(), self.pos(), pairs_view(entries@)),
                decreases self.bytes().len() - self.pos(),
            {
                if self.is_at_end() {
                    return Err(DecodeError::UnexpectedEof);
                }
                if self.peek() == END_MARK {
                    self.advance();
                    return Ok(Bencode::Dictionary(entries));
                }
                let key_val = match self.parse() {
                    Ok(v) => v,
                    Err(e) => {
                        return Err(e);
                    },
                };
                let val = match self.parse() {
                    Ok(v) => v,
                    Err(e) => {
                        return Err(e);
                    },
                };
                let key_bytes = match key_val {
                    Bencode::Bytes(kb) => kb,
                    other => {
                        proof {
                            assert(!(other.deep_view() is Bytes));
                        }
                        return Err(DecodeError::NonStringKey);
                    },
                };
                let key = match string_from_bytes(key_bytes) {
                    Some(s) => s,
                    None => {
                        return Err(DecodeError::InvalidUtf8);
                    },
                };
                dict_insert_entries(&mut entries, key, val);
            }
        } else if marker == LIST_MARK {
            self.advance();
            let mut items: Vec<Bencode> = Vec::new();
            loop
                invariant
                    self.bytes() == old(self).bytes(),
                    old(self).pos() < self.pos() <= self.bytes().len(),
                    old(self).pos() < self.bytes().len(),
                    self.bytes()[old(self).pos()] == LIST_MARK,
                    decode_items_at(self.bytes(), old(self).pos() + 1, Seq::<
                        BencodeView,
                    >::empty()) == decode_items_at(self.bytes(), self.pos(), seq_view(items@)),
                decreases self.bytes().len() - self.pos(),
            {
                if self.is_at_end() {
                    return Err(DecodeError::UnexpectedEof);
                }
                if self.peek() == END_MARK {
                    self.advance();
                    return Ok(Bencode::List(items));
                }
                let item = match self.parse() {
                    Ok(v) => v,
                    Err(e) => {
                        return Err(e);
                    },
                };
                proof {
                    lemma_seq_view_push(items@, item);
                }
                items.push(item);
            }
        } else if marker == INT_MARK {
            self.advance();
            let span = match self.advance_to(END_MARK) {
                Ok(s) => s,
                Err(e) => {
                    return Err(e);
                },
            };
            proof {
                lemma_find_byte_in_range(old(self).bytes(), old(self).pos() + 1, END_MARK);
            }
            let n = match parse_int_span(span) {
                Ok(n) => n,
                Err(e) => {
                    return Err(e);
                },
            };
            Ok(Bencode::Integer(n))
        } else if marker >= DIGIT_ZERO && marker <= DIGIT_NINE {
            let span = match self.advance_to(COLON) {
                Ok(s) => s,
                Err(e) => {
                    return Err(e);
                },
            };
            proof {
                lemma_find_byte_in_range(old(self).bytes(), old(self).pos(), COLON);
            }
            let n = match parse_len_span(span) {
                Ok(n) => n,
                Err(e) => {
                    return Err(e);
                },
            };
            let content = match self.advance_exact(n) {
                Ok(c) => c,
                Err(e) => {
                    return Err(e);
                },
            };
            Ok(Bencode::Bytes(content))
        } else {
            Err(DecodeError::UnrecognizedMarker(marker))
        }
    }
}

} // verus!
