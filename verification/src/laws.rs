//! The decoder's laws: every well-formed encoding decodes to exactly the
//! value it was built from, wherever it stands in a buffer and whatever
//! follows it.

use vstd::prelude::*;

use vstd::utf8::encode_utf8;

use crate::model::COLON;
use crate::model::DICT_MARK;
use crate::model::DIGIT_ZERO;
use crate::model::END_MARK;
use crate::model::INT_MARK;
use crate::model::LIST_MARK;
use crate::model::MINUS;
use crate::model::decode_at;
use crate::model::decode_items_at;
use crate::model::decode_pairs_at;
use crate::model::digits_value;
use crate::model::int_span_result;
use crate::model::int_literal_value;
use crate::model::is_digit;
use crate::model::is_digit_span;
use crate::model::is_int_literal;
use crate::model::lemma_decode_at_advances;
use crate::model::lemma_find_byte_first;
use crate::model::lemma_find_byte_none;
use crate::model::len_span_result;
use crate::value::BencodeView;
use crate::value::DecodeError;
use crate::value::dict_has_key;
use crate::value::lemma_dict_insert_fresh;

verus! {

/// `enc` encodes `v`: wherever `enc` stands in a buffer, decoding from its
/// first byte yields `v` and consumes exactly `enc`, whatever precedes or
/// follows it.
pub open spec fn encodes(enc: Seq<u8>, v: BencodeView) -> bool {
    forall|data: Seq<u8>, pos: int|
        0 <= pos && pos + enc.len() <= data.len() && data.subrange(pos, pos + enc.len() as int)
            == enc ==> #[trigger] decode_at(data, pos) == Ok::<(BencodeView, int), DecodeError>(
            (v, pos + enc.len() as int),
        )
}

/// A concatenation found in a buffer puts each half at its own position.
pub proof fn lemma_subrange_split(data: Seq<u8>, pos: int, a: Seq<u8>, b: Seq<u8>)
    requires
        0 <= pos,
        pos + a.len() + b.len() <= data.len(),
        data.subrange(pos, pos + a.len() + b.len()) == a + b,
    ensures
        data.subrange(pos, pos + a.len() as int) == a,
        data.subrange(pos + a.len() as int, pos + a.len() + b.len()) == b,
{
    let alen = a.len() as int;
    let blen = b.len() as int;
    assert forall|i: int| 0 <= i < alen implies data.subrange(pos, pos + alen)[i] == a[i] by {
        assert(data.subrange(pos, pos + alen + blen)[i] == (a + b)[i]);
    }
    assert(data.subrange(pos, pos + alen) =~= a);
    assert forall|i: int| 0 <= i < blen implies data.subrange(pos + alen, pos + alen + blen)[i]
        == b[i] by {
        assert(data.subrange(pos, pos + alen + blen)[alen + i] == (a + b)[alen + i]);
    }
    assert(data.subrange(pos + alen, pos + alen + blen) =~= b);
}

/// The decimal digits of `n`, most significant first.
pub open spec fn nat_digits(n: int) -> Seq<u8>
    recommends
        n >= 0,
    decreases n,
{
    if n < 10 {
        seq![(DIGIT_ZERO as int + n) as u8]
    } else {
        nat_digits(n / 10).push((DIGIT_ZERO as int + (n % 10)) as u8)
    }
}

pub proof fn lemma_nat_digits_digits(n: int)
    requires
        n >= 0,
    ensures
        nat_digits(n).len() >= 1,
        forall|i: int| 0 <= i < nat_digits(n).len() ==> is_digit(#[trigger] nat_digits(n)[i]),
    decreases n,
{
    if n >= 10 {
        lemma_nat_digits_digits(n / 10);
        assert(forall|i: int|
            0 <= i < nat_digits(n / 10).len() ==> nat_digits(n)[i] == nat_digits(n / 10)[i]);
    }
}

pub proof fn lemma_nat_digits_value(n: int)
    requires
        n >= 0,
    ensures
        digits_value(nat_digits(n)) == n,
    decreases n,
{
    if n < 10 {
        let s = seq![(DIGIT_ZERO as int + n) as u8];
        assert(s.drop_last() =~= Seq::<u8>::empty());
        assert(digits_value(s) == 10 * digits_value(Seq::<u8>::empty()) + (s.last() - DIGIT_ZERO));
    } else {
        lemma_nat_digits_value(n / 10);
        let s = nat_digits(n / 10);
        let full = s.push((DIGIT_ZERO as int + (n % 10)) as u8);
        assert(full.drop_last() =~= s);
        assert(digits_value(full) == 10 * digits_value(s) + (full.last() - DIGIT_ZERO));
    }
}

/// The canonical literal for `n`: a minus sign for a negative value, then
/// the decimal digits of the magnitude.
pub open spec fn int_literal_bytes(n: int) -> Seq<u8> {
    if n < 0 {
        seq![MINUS] + nat_digits(-n)
    } else {
        nat_digits(n)
    }
}

pub proof fn lemma_int_literal_bytes(n: int)
    ensures
        int_literal_bytes(n).len() >= 1,
        is_int_literal(int_literal_bytes(n)),
        int_literal_value(int_literal_bytes(n)) == n,
        forall|i: int| 0 <= i < int_literal_bytes(n).len() ==> (is_digit(
            #[trigger] int_literal_bytes(n)[i],
        ) || int_literal_bytes(n)[i] == MINUS),
{
    let lit = int_literal_bytes(n);
    if n >= 0 {
        lemma_nat_digits_digits(n);
        lemma_nat_digits_value(n);
        assert(is_digit(lit[0]));
        assert(lit[0] != MINUS);
    } else {
        lemma_nat_digits_digits(-n);
        lemma_nat_digits_value(-n);
        assert(lit[0] == MINUS);
        assert(lit.subrange(1, lit.len() as int) =~= nat_digits(-n));
        assert(is_digit_span(lit.subrange(1, lit.len() as int)));
    }
}

/// The encoding `i<n>e` of an integer.
pub open spec fn integer_encoding(n: int) -> Seq<u8> {
    seq![INT_MARK] + int_literal_bytes(n) + seq![END_MARK]
}

/// The encoding `<N>:<payload>` of a byte string.
pub open spec fn bytes_encoding(payload: Seq<u8>) -> Seq<u8> {
    nat_digits(payload.len() as int) + seq![COLON] + payload
}

/// Decoding the encoding `i<n>e` of any integer in the supported range
/// yields exactly `Integer(n)`.
pub proof fn lemma_integer_encoding_decodes(n: int)
    requires
        isize::MIN as int <= n <= isize::MAX as int,
    ensures
        encodes(integer_encoding(n), BencodeView::Integer(n)),
{
    let lit = int_literal_bytes(n);
    let enc = integer_encoding(n);
    lemma_int_literal_bytes(n);
    assert(enc =~= seq![INT_MARK] + (lit + seq![END_MARK]));
    assert forall|data: Seq<u8>, pos: int|
        0 <= pos && pos + enc.len() <= data.len() && data.subrange(pos, pos + enc.len() as int)
            == enc implies #[trigger] decode_at(data, pos) == Ok::<
        (BencodeView, int),
        DecodeError,
    >((BencodeView::Integer(n), pos + enc.len() as int)) by {
        lemma_subrange_split(data, pos, seq![INT_MARK], lit + seq![END_MARK]);
        lemma_subrange_split(data, pos + 1, lit, seq![END_MARK]);
        assert(data[pos] == INT_MARK) by {
            assert(data.subrange(pos, pos + 1)[0] == data[pos]);
        }
        let epos = pos + 1 + lit.len() as int;
        assert(data[epos] == END_MARK) by {
            assert(data.subrange(epos, epos + 1)[0] == data[epos]);
        }
        assert forall|j: int| pos + 1 <= j < epos implies data[j] != END_MARK by {
            assert(data.subrange(pos + 1, epos)[j - (pos + 1)] == data[j]);
            assert(lit[j - (pos + 1)] != END_MARK);
        }
        lemma_find_byte_first(data, pos + 1, END_MARK, epos);
        assert(data.subrange(pos + 1, epos) == lit);
        assert(int_span_result(lit) == Ok::<int, DecodeError>(n));
        assert(epos + 1 == pos + enc.len());
    }
}

/// Decoding the encoding `<N>:<payload>` of any byte string yields exactly
/// `Bytes(payload)`, also when the payload is not valid text.
pub proof fn lemma_bytes_encoding_decodes(payload: Seq<u8>)
    requires
        payload.len() <= usize::MAX as int,
    ensures
        encodes(bytes_encoding(payload), BencodeView::Bytes(payload)),
{
    let count = payload.len() as int;
    let prefix = nat_digits(count);
    let enc = bytes_encoding(payload);
    lemma_nat_digits_digits(count);
    lemma_nat_digits_value(count);
    assert(enc =~= prefix + (seq![COLON] + payload));
    assert forall|data: Seq<u8>, pos: int|
        0 <= pos && pos + enc.len() <= data.len() && data.subrange(pos, pos + enc.len() as int)
            == enc implies #[trigger] decode_at(data, pos) == Ok::<
        (BencodeView, int),
        DecodeError,
    >((BencodeView::Bytes(payload), pos + enc.len() as int)) by {
        lemma_subrange_split(data, pos, prefix, seq![COLON] + payload);
        let cpos = pos + prefix.len() as int;
        lemma_subrange_split(data, cpos, seq![COLON], payload);
        assert(data[cpos] == COLON) by {
            assert(data.subrange(cpos, cpos + 1)[0] == data[cpos]);
        }
        assert forall|j: int| pos <= j < cpos implies data[j] == prefix[j - pos] by {
            assert(data.subrange(pos, cpos)[j - pos] == data[j]);
        }
        assert(is_digit(data[pos]));
        assert forall|j: int| pos <= j < cpos implies data[j] != COLON by {
            assert(is_digit(prefix[j - pos]));
        }
        lemma_find_byte_first(data, pos, COLON, cpos);
        assert(data.subrange(pos, cpos) == prefix);
        assert(len_span_result(prefix) == Ok::<int, DecodeError>(count));
        assert(data.subrange(cpos + 1, cpos + 1 + count) == payload);
        assert(cpos + 1 + count == pos + enc.len());
    }
}

/// The bytes of a run of encodings, in order.
pub open spec fn concat_encodings(encs: Seq<Seq<u8>>) -> Seq<u8>
    decreases encs.len(),
{
    if encs.len() == 0 {
        Seq::empty()
    } else {
        encs.first() + concat_encodings(encs.drop_first())
    }
}

/// The encoding `l<enc(v1)>..<enc(vk)>e` of a list.
pub open spec fn list_encoding(item_encs: Seq<Seq<u8>>) -> Seq<u8> {
    seq![LIST_MARK] + concat_encodings(item_encs) + seq![END_MARK]
}

/// The terminator closes no value of its own: decoding from a terminator
/// byte fails, so a position known to decode holds no terminator.
proof fn lemma_end_mark_starts_no_value(data: Seq<u8>, pos: int)
    requires
        0 <= pos < data.len(),
        decode_at(data, pos) is Ok,
    ensures
        data[pos] != END_MARK,
{
    if data[pos] == END_MARK {
        assert(!is_digit(END_MARK));
        assert(decode_at(data, pos) == Err::<(BencodeView, int), DecodeError>(
            DecodeError::UnrecognizedMarker(END_MARK),
        ));
    }
}

/// An element run made of encodings decodes to the encoded items, appended
/// to what was decoded before it.
proof fn lemma_encoded_run_decodes_items(
    data: Seq<u8>,
    pos: int,
    item_encs: Seq<Seq<u8>>,
    items: Seq<BencodeView>,
    acc: Seq<BencodeView>,
)
    requires
        item_encs.len() == items.len(),
        forall|i: int| 0 <= i < items.len() ==> encodes(#[trigger] item_encs[i], items[i]),
        0 <= pos,
        pos + concat_encodings(item_encs).len() < data.len(),
        data.subrange(pos, pos + concat_encodings(item_encs).len() as int) == concat_encodings(
            item_encs,
        ),
        data[pos + concat_encodings(item_encs).len()] == END_MARK,
    ensures
        decode_items_at(data, pos, acc) == Ok::<(Seq<BencodeView>, int), DecodeError>(
            (acc + items, pos + concat_encodings(item_encs).len() + 1),
        ),
    decreases item_encs.len(),
{
    let whole = concat_encodings(item_encs);
    if item_encs.len() == 0 {
        assert(data[pos] == END_MARK);
        assert(acc + items =~= acc);
    } else {
        let e0 = item_encs.first();
        let rest = concat_encodings(item_encs.drop_first());
        assert(whole == e0 + rest);
        lemma_subrange_split(data, pos, e0, rest);
        assert(encodes(item_encs[0], items[0]));
        assert(decode_at(data, pos) == Ok::<(BencodeView, int), DecodeError>(
            (items.first(), pos + e0.len() as int),
        ));
        lemma_decode_at_advances(data, pos);
        lemma_end_mark_starts_no_value(data, pos);
        let pos1 = pos + e0.len() as int;
        assert(forall|i: int|
            0 <= i < items.drop_first().len() ==> encodes(
                #[trigger] item_encs.drop_first()[i],
                items.drop_first()[i],
            ));
        lemma_encoded_run_decodes_items(
            data,
            pos1,
            item_encs.drop_first(),
            items.drop_first(),
            acc.push(items.first()),
        );
        assert(acc.push(items.first()) + items.drop_first() =~= acc + items);
    }
}

/// Decoding the encoding `l<enc(v1)>..<enc(vk)>e` of any finite run of
/// values yields exactly `List([v1, .., vk])`, preserving order.
pub proof fn lemma_list_encoding_decodes(item_encs: Seq<Seq<u8>>, items: Seq<BencodeView>)
    requires
        item_encs.len() == items.len(),
        forall|i: int| 0 <= i < items.len() ==> encodes(#[trigger] item_encs[i], items[i]),
    ensures
        encodes(list_encoding(item_encs), BencodeView::List(items)),
{
    let body = concat_encodings(item_encs);
    let enc = list_encoding(item_encs);
    assert(enc =~= seq![LIST_MARK] + (body + seq![END_MARK]));
    assert forall|data: Seq<u8>, pos: int|
        0 <= pos && pos + enc.len() <= data.len() && data.subrange(pos, pos + enc.len() as int)
            == enc implies #[trigger] decode_at(data, pos) == Ok::<
        (BencodeView, int),
        DecodeError,
    >((BencodeView::List(items), pos + enc.len() as int)) by {
        lemma_subrange_split(data, pos, seq![LIST_MARK], body + seq![END_MARK]);
        lemma_subrange_split(data, pos + 1, body, seq![END_MARK]);
        assert(data[pos] == LIST_MARK) by {
            assert(data.subrange(pos, pos + 1)[0] == data[pos]);
        }
        let epos = pos + 1 + body.len() as int;
        assert(data[epos] == END_MARK) by {
            assert(data.subrange(epos, epos + 1)[0] == data[epos]);
        }
        lemma_encoded_run_decodes_items(data, pos + 1, item_encs, items, Seq::empty());
        assert(Seq::<BencodeView>::empty() + items =~= items);
        assert(epos + 1 == pos + enc.len());
    }
}

/// The bytes of a run of key/value pairs: each key as the byte-string
/// encoding of its UTF-8 bytes, then the value's encoding.
pub open spec fn pair_encodings(keys: Seq<Seq<char>>, val_encs: Seq<Seq<u8>>) -> Seq<u8>
    recommends
        keys.len() == val_encs.len(),
    decreases keys.len(),
{
    if keys.len() == 0 || val_encs.len() == 0 {
        Seq::empty()
    } else {
        bytes_encoding(encode_utf8(keys.first())) + val_encs.first() + pair_encodings(
            keys.drop_first(),
            val_encs.drop_first(),
        )
    }
}

/// The encoding `d<enc(k1)><enc(v1)>..e` of a dictionary.
pub open spec fn dict_encoding(keys: Seq<Seq<char>>, val_encs: Seq<Seq<u8>>) -> Seq<u8> {
    seq![DICT_MARK] + pair_encodings(keys, val_encs) + seq![END_MARK]
}

/// The pairs of keys and values, in order.
pub open spec fn zip_pairs(keys: Seq<Seq<char>>, vals: Seq<BencodeView>) -> Seq<
    (Seq<char>, BencodeView),
>
    recommends
        keys.len() == vals.len(),
{
    Seq::new(keys.len(), |i: int| (keys[i], vals[i]))
}

/// A pair run made of encodings decodes to the zipped pairs, appended to
/// what was decoded before it, when no key repeats and none is already
/// bound.
proof fn lemma_encoded_run_decodes_pairs(
    data: Seq<u8>,
    pos: int,
    keys: Seq<Seq<char>>,
    val_encs: Seq<Seq<u8>>,
    vals: Seq<BencodeView>,
    acc: Seq<(Seq<char>, BencodeView)>,
)
    requires
        keys.len() == val_encs.len(),
        val_encs.len() == vals.len(),
        forall|i: int| 0 <= i < vals.len() ==> encodes(#[trigger] val_encs[i], vals[i]),
        forall|i: int|
            0 <= i < keys.len() ==> encode_utf8(#[trigger] keys[i]).len() <= usize::MAX as int,
        forall|i: int| 0 <= i < keys.len() ==> !dict_has_key(acc, #[trigger] keys[i]),
        forall|i: int, j: int| 0 <= i < j < keys.len() ==> keys[i] != keys[j],
        0 <= pos,
        pos + pair_encodings(keys, val_encs).len() < data.len(),
        data.subrange(pos, pos + pair_encodings(keys, val_encs).len() as int) == pair_encodings(
            keys,
            val_encs,
        ),
        data[pos + pair_encodings(keys, val_encs).len()] == END_MARK,
    ensures
        decode_pairs_at(data, pos, acc) == Ok::<(Seq<(Seq<char>, BencodeView)>, int), DecodeError>(
            (acc + zip_pairs(keys, vals), pos + pair_encodings(keys, val_encs).len() + 1),
        ),
    decreases keys.len(),
{
    let whole = pair_encodings(keys, val_encs);
    if keys.len() == 0 {
        assert(data[pos] == END_MARK);
        assert(zip_pairs(keys, vals) =~= Seq::<(Seq<char>, BencodeView)>::empty());
        assert(acc + zip_pairs(keys, vals) =~= acc);
    } else {
        let key0 = keys.first();
        let kb0 = encode_utf8(key0);
        let ke = bytes_encoding(kb0);
        let ve = val_encs.first();
        let rest = pair_encodings(keys.drop_first(), val_encs.drop_first());
        assert(whole == ke + ve + rest);
        assert(whole =~= ke + (ve + rest));
        lemma_subrange_split(data, pos, ke, ve + rest);
        let kend = pos + ke.len() as int;
        lemma_subrange_split(data, kend, ve, rest);
        let vend = kend + ve.len() as int;
        assert(encode_utf8(keys[0]).len() <= usize::MAX as int);
        lemma_bytes_encoding_decodes(kb0);
        assert(decode_at(data, pos) == Ok::<(BencodeView, int), DecodeError>(
            (BencodeView::Bytes(kb0), kend),
        ));
        lemma_decode_at_advances(data, pos);
        lemma_end_mark_starts_no_value(data, pos);
        assert(encodes(val_encs[0], vals[0]));
        assert(decode_at(data, kend) == Ok::<(BencodeView, int), DecodeError>(
            (vals.first(), vend),
        ));
        lemma_decode_at_advances(data, kend);
        vstd::utf8::encode_utf8_valid_utf8(key0);
        vstd::utf8::encode_utf8_decode_utf8(key0);
        assert(!dict_has_key(acc, keys[0]));
        lemma_dict_insert_fresh(acc, key0, vals.first());
        let acc1 = acc.push((key0, vals.first()));
        assert forall|i: int| 0 <= i < keys.drop_first().len() implies !dict_has_key(
            acc1,
            #[trigger] keys.drop_first()[i],
        ) by {
            let k = keys.drop_first()[i];
            assert(k == keys[i + 1]);
            assert(keys[0] != keys[i + 1]);
            assert(!dict_has_key(acc, keys[i + 1]));
            if dict_has_key(acc1, k) {
                let idx = choose|idx: int| 0 <= idx < acc1.len() && acc1[idx].0 == k;
                if idx < acc.len() {
                    assert(acc[idx].0 == k);
                } else {
                    assert(acc1[idx] == (key0, vals.first()));
                }
            }
        }
        assert(forall|i: int|
            0 <= i < keys.drop_first().len() ==> encode_utf8(#[trigger] keys.drop_first()[i]).len()
                <= usize::MAX as int);
        assert(forall|i: int|
            0 <= i < vals.drop_first().len() ==> encodes(
                #[trigger] val_encs.drop_first()[i],
                vals.drop_first()[i],
            ));
        assert(forall|i: int, j: int|
            0 <= i < j < keys.drop_first().len() ==> keys.drop_first()[i]
                != keys.drop_first()[j]);
        lemma_encoded_run_decodes_pairs(
            data,
            vend,
            keys.drop_first(),
            val_encs.drop_first(),
            vals.drop_first(),
            acc1,
        );
        assert(acc1 + zip_pairs(keys.drop_first(), vals.drop_first()) =~= acc + zip_pairs(
            keys,
            vals,
        ));
    }
}

/// Decoding the encoding `d<enc(k1)><enc(v1)>..e` of any run of key/value
/// pairs with pairwise distinct keys yields a dictionary holding exactly
/// those pairs.
pub proof fn lemma_dict_encoding_decodes(
    keys: Seq<Seq<char>>,
    val_encs: Seq<Seq<u8>>,
    vals: Seq<BencodeView>,
)
    requires
        keys.len() == val_encs.len(),
        val_encs.len() == vals.len(),
        forall|i: int| 0 <= i < vals.len() ==> encodes(#[trigger] val_encs[i], vals[i]),
        forall|i: int|
            0 <= i < keys.len() ==> encode_utf8(#[trigger] keys[i]).len() <= usize::MAX as int,
        forall|i: int, j: int| 0 <= i < j < keys.len() ==> keys[i] != keys[j],
    ensures
        encodes(dict_encoding(keys, val_encs), BencodeView::Dictionary(zip_pairs(keys, vals))),
{
    let body = pair_encodings(keys, val_encs);
    let enc = dict_encoding(keys, val_encs);
    assert(enc =~= seq![DICT_MARK] + (body + seq![END_MARK]));
    assert forall|data: Seq<u8>, pos: int|
        0 <= pos && pos + enc.len() <= data.len() && data.subrange(pos, pos + enc.len() as int)
            == enc implies #[trigger] decode_at(data, pos) == Ok::<
        (BencodeView, int),
        DecodeError,
    >((BencodeView::Dictionary(zip_pairs(keys, vals)), pos + enc.len() as int)) by {
        lemma_subrange_split(data, pos, seq![DICT_MARK], body + seq![END_MARK]);
        lemma_subrange_split(data, pos + 1, body, seq![END_MARK]);
        assert(data[pos] == DICT_MARK) by {
            assert(data.subrange(pos, pos + 1)[0] == data[pos]);
        }
        let epos = pos + 1 + body.len() as int;
        assert(data[epos] == END_MARK) by {
            assert(data.subrange(epos, epos + 1)[0] == data[epos]);
        }
        lemma_encoded_run_decodes_pairs(
            data,
            pos + 1,
            keys,
            val_encs,
            vals,
            Seq::empty(),
        );
        assert(Seq::<(Seq<char>, BencodeView)>::empty() + zip_pairs(keys, vals) =~= zip_pairs(
            keys,
            vals,
        ));
        assert(epos + 1 == pos + enc.len());
    }
}

/// A buffer that ends with a strict prefix of `enc`, decoded from the
/// prefix's start, fails with `UnexpectedEof`: truncated input is reported
/// as such, never as a value or another error.
pub open spec fn prefix_eofs(enc: Seq<u8>) -> bool {
    forall|data: Seq<u8>, pos: int, k: int|
        0 <= pos && 0 <= k < enc.len() && data.len() == pos + k && #[trigger] data.subrange(
            pos,
            pos + k,
        ) == enc.take(k) ==> decode_at(data, pos) == Err::<(BencodeView, int), DecodeError>(
            DecodeError::UnexpectedEof,
        )
}

/// An encoding is never empty and never opens with the terminator.
proof fn lemma_encoding_head(enc: Seq<u8>, v: BencodeView)
    requires
        encodes(enc, v),
    ensures
        enc.len() > 0,
        enc[0] != END_MARK,
{
    assert(enc.subrange(0, enc.len() as int) =~= enc);
    assert(decode_at(enc, 0) == Ok::<(BencodeView, int), DecodeError>((v, enc.len() as int)));
    assert(enc.len() > 0);
    lemma_end_mark_starts_no_value(enc, 0);
}

/// Truncating the encoding of an integer anywhere fails with
/// `UnexpectedEof`.
pub proof fn lemma_integer_encoding_prefix_eofs(n: int)
    ensures
        prefix_eofs(integer_encoding(n)),
{
    let lit = int_literal_bytes(n);
    let enc = integer_encoding(n);
    lemma_int_literal_bytes(n);
    assert(enc =~= seq![INT_MARK] + (lit + seq![END_MARK]));
    assert forall|data: Seq<u8>, pos: int, k: int|
        0 <= pos && 0 <= k < enc.len() && data.len() == pos + k && #[trigger] data.subrange(
            pos,
            pos + k,
        ) == enc.take(k) implies decode_at(data, pos) == Err::<(BencodeView, int), DecodeError>(
        DecodeError::UnexpectedEof,
    ) by {
        if k > 0 {
            assert(data[pos] == enc[0]) by {
                assert(data.subrange(pos, pos + k)[0] == data[pos]);
                assert(enc.take(k)[0] == enc[0]);
            }
            assert forall|j: int| pos + 1 <= j < data.len() implies data[j] != END_MARK by {
                assert(data.subrange(pos, pos + k)[j - pos] == data[j]);
                assert(enc.take(k)[j - pos] == enc[j - pos]);
                assert(enc[j - pos] == lit[j - pos - 1]);
            }
            lemma_find_byte_none(data, pos + 1, END_MARK);
        }
    }
}

/// Truncating the encoding of a byte string anywhere fails with
/// `UnexpectedEof`, whether the cut falls in the length prefix or in the
/// payload.
pub proof fn lemma_bytes_encoding_prefix_eofs(payload: Seq<u8>)
    requires
        payload.len() <= usize::MAX as int,
    ensures
        prefix_eofs(bytes_encoding(payload)),
{
    let count = payload.len() as int;
    let prefix = nat_digits(count);
    let dlen = prefix.len() as int;
    let enc = bytes_encoding(payload);
    lemma_nat_digits_digits(count);
    lemma_nat_digits_value(count);
    assert(enc =~= prefix + (seq![COLON] + payload));
    assert forall|data: Seq<u8>, pos: int, k: int|
        0 <= pos && 0 <= k < enc.len() && data.len() == pos + k && #[trigger] data.subrange(
            pos,
            pos + k,
        ) == enc.take(k) implies decode_at(data, pos) == Err::<(BencodeView, int), DecodeError>(
        DecodeError::UnexpectedEof,
    ) by {
        if k > 0 {
            assert forall|j: int| pos <= j < pos + k implies data[j] == enc[j - pos] by {
                assert(data.subrange(pos, pos + k)[j - pos] == data[j]);
                assert(enc.take(k)[j - pos] == enc[j - pos]);
            }
            assert(data[pos] == enc[0]);
            assert(enc[0] == prefix[0]);
            assert(is_digit(data[pos]));
            if k <= dlen {
                assert forall|j: int| pos <= j < data.len() implies data[j] != COLON by {
                    assert(enc[j - pos] == prefix[j - pos]);
                    assert(is_digit(prefix[j - pos]));
                }
                lemma_find_byte_none(data, pos, COLON);
            } else {
                let cpos = pos + dlen;
                assert(data[cpos] == COLON) by {
                    assert(enc[dlen] == COLON);
                }
                assert forall|j: int| pos <= j < cpos implies data[j] != COLON by {
                    assert(enc[j - pos] == prefix[j - pos]);
                    assert(is_digit(prefix[j - pos]));
                }
                lemma_find_byte_first(data, pos, COLON, cpos);
                assert(data.subrange(pos, cpos) =~= prefix);
                assert(len_span_result(prefix) == Ok::<int, DecodeError>(count));
                assert(cpos + 1 + count == pos + enc.len());
                assert(cpos + 1 + count > data.len());
            }
        }
    }
}

/// Cutting an element run anywhere before its terminator decodes to
/// `UnexpectedEof`.
proof fn lemma_encoded_run_prefix_eofs_items(
    data: Seq<u8>,
    pos: int,
    item_encs: Seq<Seq<u8>>,
    items: Seq<BencodeView>,
    acc: Seq<BencodeView>,
    m: int,
)
    requires
        item_encs.len() == items.len(),
        forall|i: int| 0 <= i < items.len() ==> encodes(#[trigger] item_encs[i], items[i]),
        forall|i: int| 0 <= i < items.len() ==> prefix_eofs(#[trigger] item_encs[i]),
        0 <= pos,
        0 <= m <= concat_encodings(item_encs).len(),
        data.len() == pos + m,
        data.subrange(pos, pos + m) == concat_encodings(item_encs).take(m),
    ensures
        decode_items_at(data, pos, acc) == Err::<(Seq<BencodeView>, int), DecodeError>(
            DecodeError::UnexpectedEof,
        ),
    decreases item_encs.len(),
{
    let whole = concat_encodings(item_encs);
    if m == 0 {
    } else {
        let e0 = item_encs.first();
        let rest = concat_encodings(item_encs.drop_first());
        assert(whole == e0 + rest);
        assert(encodes(item_encs[0], items[0]));
        lemma_encoding_head(e0, items.first());
        assert forall|j: int| pos <= j < pos + m implies data[j] == whole[j - pos] by {
            assert(data.subrange(pos, pos + m)[j - pos] == data[j]);
            assert(whole.take(m)[j - pos] == whole[j - pos]);
        }
        assert(data[pos] == e0[0]);
        if m < e0.len() {
            assert(data.subrange(pos, pos + m) =~= e0.take(m));
            assert(decode_at(data, pos) == Err::<(BencodeView, int), DecodeError>(
                DecodeError::UnexpectedEof,
            ));
        } else {
            let pos1 = pos + e0.len() as int;
            let m1 = m - e0.len() as int;
            assert(data.subrange(pos, pos1) =~= e0);
            assert(decode_at(data, pos) == Ok::<(BencodeView, int), DecodeError>(
                (items.first(), pos1),
            ));
            lemma_end_mark_starts_no_value(data, pos);
            assert(data.subrange(pos1, pos1 + m1) =~= rest.take(m1)) by {
                assert forall|i: int| 0 <= i < m1 implies #[trigger] data.subrange(pos1, pos1 + m1)[i] == rest.take(m1)[i] by {
                    assert(data[pos1 + i] == whole[e0.len() + i]);
                }
            }
            assert(forall|i: int|
                0 <= i < items.drop_first().len() ==> encodes(
                    #[trigger] item_encs.drop_first()[i],
                    items.drop_first()[i],
                ));
            assert(forall|i: int|
                0 <= i < items.drop_first().len() ==> prefix_eofs(
                    #[trigger] item_encs.drop_first()[i],
                ));
            lemma_encoded_run_prefix_eofs_items(
                data,
                pos1,
                item_encs.drop_first(),
                items.drop_first(),
                acc.push(items.first()),
                m1,
            );
        }
    }
}

/// Truncating the encoding of a list anywhere fails with `UnexpectedEof`,
/// whichever element the cut falls in.
pub proof fn lemma_list_encoding_prefix_eofs(item_encs: Seq<Seq<u8>>, items: Seq<BencodeView>)
    requires
        item_encs.len() == items.len(),
        forall|i: int| 0 <= i < items.len() ==> encodes(#[trigger] item_encs[i], items[i]),
        forall|i: int| 0 <= i < items.len() ==> prefix_eofs(#[trigger] item_encs[i]),
    ensures
        prefix_eofs(list_encoding(item_encs)),
{
    let body = concat_encodings(item_encs);
    let enc = list_encoding(item_encs);
    assert(enc =~= seq![LIST_MARK] + (body + seq![END_MARK]));
    assert forall|data: Seq<u8>, pos: int, k: int|
        0 <= pos && 0 <= k < enc.len() && data.len() == pos + k && #[trigger] data.subrange(
            pos,
            pos + k,
        ) == enc.take(k) implies decode_at(data, pos) == Err::<(BencodeView, int), DecodeError>(
        DecodeError::UnexpectedEof,
    ) by {
        if k > 0 {
            assert forall|j: int| pos <= j < pos + k implies data[j] == enc[j - pos] by {
                assert(data.subrange(pos, pos + k)[j - pos] == data[j]);
                assert(enc.take(k)[j - pos] == enc[j - pos]);
            }
            assert(data[pos] == LIST_MARK);
            assert(data.subrange(pos + 1, pos + k) =~= body.take(k - 1)) by {
                assert forall|i: int| 0 <= i < k - 1 implies #[trigger] data.subrange(pos + 1, pos + k)[i] == body.take(k - 1)[i] by {
                    assert(data[pos + 1 + i] == enc[1 + i]);
                    assert(enc[1 + i] == body[i]);
                }
            }
            lemma_encoded_run_prefix_eofs_items(
                data,
                pos + 1,
                item_encs,
                items,
                Seq::empty(),
                k - 1,
            );
        }
    }
}

/// Cutting a pair run anywhere before its terminator decodes to
/// `UnexpectedEof`.
proof fn lemma_encoded_run_prefix_eofs_pairs(
    data: Seq<u8>,
    pos: int,
    keys: Seq<Seq<char>>,
    val_encs: Seq<Seq<u8>>,
    vals: Seq<BencodeView>,
    acc: Seq<(Seq<char>, BencodeView)>,
    m: int,
)
    requires
        keys.len() == val_encs.len(),
        val_encs.len() == vals.len(),
        forall|i: int| 0 <= i < vals.len() ==> encodes(#[trigger] val_encs[i], vals[i]),
        forall|i: int| 0 <= i < vals.len() ==> prefix_eofs(#[trigger] val_encs[i]),
        forall|i: int|
            0 <= i < keys.len() ==> encode_utf8(#[trigger] keys[i]).len() <= usize::MAX as int,
        0 <= pos,
        0 <= m <= pair_encodings(keys, val_encs).len(),
        data.len() == pos + m,
        data.subrange(pos, pos + m) == pair_encodings(keys, val_encs).take(m),
    ensures
        decode_pairs_at(data, pos, acc) == Err::<(Seq<(Seq<char>, BencodeView)>, int), DecodeError>(
            DecodeError::UnexpectedEof,
        ),
    decreases keys.len(),
{
    let whole = pair_encodings(keys, val_encs);
    if m == 0 {
    } else {
        let key0 = keys.first();
        let kb0 = encode_utf8(key0);
        let ke = bytes_encoding(kb0);
        let ve = val_encs.first();
        let rest = pair_encodings(keys.drop_first(), val_encs.drop_first());
        assert(whole == ke + ve + rest);
        assert(whole =~= ke + (ve + rest));
        assert(encode_utf8(keys[0]).len() <= usize::MAX as int);
        lemma_bytes_encoding_decodes(kb0);
        lemma_bytes_encoding_prefix_eofs(kb0);
        lemma_encoding_head(ke, BencodeView::Bytes(kb0));
        assert(encodes(val_encs[0], vals[0]));
        assert(prefix_eofs(val_encs[0]));
        lemma_encoding_head(ve, vals.first());
        assert forall|j: int| pos <= j < pos + m implies data[j] == whole[j - pos] by {
            assert(data.subrange(pos, pos + m)[j - pos] == data[j]);
            assert(whole.take(m)[j - pos] == whole[j - pos]);
        }
        assert(data[pos] == ke[0]);
        if m < ke.len() {
            assert(data.subrange(pos, pos + m) =~= ke.take(m));
            assert(decode_at(data, pos) == Err::<(BencodeView, int), DecodeError>(
                DecodeError::UnexpectedEof,
            ));
        } else {
            let kend = pos + ke.len() as int;
            assert(data.subrange(pos, kend) =~= ke);
            assert(decode_at(data, pos) == Ok::<(BencodeView, int), DecodeError>(
                (BencodeView::Bytes(kb0), kend),
            ));
            lemma_end_mark_starts_no_value(data, pos);
            let m1 = m - ke.len() as int;
            if m1 < ve.len() {
                assert(data.subrange(kend, kend + m1) =~= ve.take(m1)) by {
                    assert forall|i: int| 0 <= i < m1 implies #[trigger] data.subrange(kend, kend + m1)[i] == ve.take(m1)[i] by {
                        assert(data[kend + i] == whole[ke.len() + i]);
                    }
                }
                assert(decode_at(data, kend) == Err::<(BencodeView, int), DecodeError>(
                    DecodeError::UnexpectedEof,
                ));
            } else {
                let vend = kend + ve.len() as int;
                assert(data.subrange(kend, vend) =~= ve) by {
                    assert forall|i: int| 0 <= i < ve.len() implies #[trigger] data.subrange(kend, vend)[i] == ve[i] by {
                        assert(data[kend + i] == whole[ke.len() + i]);
                    }
                }
                assert(decode_at(data, kend) == Ok::<(BencodeView, int), DecodeError>(
                    (vals.first(), vend),
                ));
                vstd::utf8::encode_utf8_valid_utf8(key0);
                vstd::utf8::encode_utf8_decode_utf8(key0);
                let m2 = m1 - ve.len() as int;
                assert(data.subrange(vend, vend + m2) =~= rest.take(m2)) by {
                    assert forall|i: int| 0 <= i < m2 implies #[trigger] data.subrange(vend, vend + m2)[i] == rest.take(m2)[i] by {
                        assert(data[vend + i] == whole[ke.len() + ve.len() + i]);
                    }
                }
                assert(forall|i: int|
                    0 <= i < vals.drop_first().len() ==> encodes(
                        #[trigger] val_encs.drop_first()[i],
                        vals.drop_first()[i],
                    ));
                assert(forall|i: int|
                    0 <= i < vals.drop_first().len() ==> prefix_eofs(
                        #[trigger] val_encs.drop_first()[i],
                    ));
                assert(forall|i: int|
                    0 <= i < keys.drop_first().len() ==> encode_utf8(
                        #[trigger] keys.drop_first()[i],
                    ).len() <= usize::MAX as int);
                lemma_encoded_run_prefix_eofs_pairs(
                    data,
                    vend,
                    keys.drop_first(),
                    val_encs.drop_first(),
                    vals.drop_first(),
                    crate::value::dict_insert(acc, key0, vals.first()),
                    m2,
                );
            }
        }
    }
}

/// Truncating the encoding of a dictionary anywhere fails with
/// `UnexpectedEof`, whether the cut falls in a key, in a value or at the
/// missing terminator.
pub proof fn lemma_dict_encoding_prefix_eofs(
    keys: Seq<Seq<char>>,
    val_encs: Seq<Seq<u8>>,
    vals: Seq<BencodeView>,
)
    requires
        keys.len() == val_encs.len(),
        val_encs.len() == vals.len(),
        forall|i: int| 0 <= i < vals.len() ==> encodes(#[trigger] val_encs[i], vals[i]),
        forall|i: int| 0 <= i < vals.len() ==> prefix_eofs(#[trigger] val_encs[i]),
        forall|i: int|
            0 <= i < keys.len() ==> encode_utf8(#[trigger] keys[i]).len() <= usize::MAX as int,
    ensures
        prefix_eofs(dict_encoding(keys, val_encs)),
{
    let body = pair_encodings(keys, val_encs);
    let enc = dict_encoding(keys, val_encs);
    assert(enc =~= seq![DICT_MARK] + (body + seq![END_MARK]));
    assert forall|data: Seq<u8>, pos: int, k: int|
        0 <= pos && 0 <= k < enc.len() && data.len() == pos + k && #[trigger] data.subrange(
            pos,
            pos + k,
        ) == enc.take(k) implies decode_at(data, pos) == Err::<(BencodeView, int), DecodeError>(
        DecodeError::UnexpectedEof,
    ) by {
        if k > 0 {
            assert forall|j: int| pos <= j < pos + k implies data[j] == enc[j - pos] by {
                assert(data.subrange(pos, pos + k)[j - pos] == data[j]);
                assert(enc.take(k)[j - pos] == enc[j - pos]);
            }
            assert(data[pos] == DICT_MARK);
            assert(data.subrange(pos + 1, pos + k) =~= body.take(k - 1)) by {
                assert forall|i: int| 0 <= i < k - 1 implies #[trigger] data.subrange(pos + 1, pos + k)[i] == body.take(k - 1)[i] by {
                    assert(data[pos + 1 + i] == enc[1 + i]);
                    assert(enc[1 + i] == body[i]);
                }
            }
            lemma_encoded_run_prefix_eofs_pairs(
                data,
                pos + 1,
                keys,
                val_encs,
                vals,
                Seq::empty(),
                k - 1,
            );
        }
    }
}

} // verus!
