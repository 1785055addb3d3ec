//! The decoded value tree, its mathematical view, and the dictionary
//! insertion policy (last write wins).

use vstd::prelude::*;

verus! {

/// One decoded Bencode value.
///
/// A dictionary is kept as its pairs in the order the keys first appeared,
/// with a later binding for an existing key overwriting the earlier value in
/// place; [`dict_insert`] is the specification of that policy.
#[derive(Debug, PartialEq)]
pub enum Bencode {
    Dictionary(Vec<(String, Bencode)>),
    List(Vec<Bencode>),
    Integer(isize),
    Bytes(Vec<u8>),
}

/// The mathematical shape of a decoded value: dictionaries become sequences
/// of key/value pairs over character sequences, lists become sequences,
/// integers become unbounded integers and byte strings become byte
/// sequences.
pub enum BencodeView {
    Dictionary(Seq<(Seq<char>, BencodeView)>),
    List(Seq<BencodeView>),
    Integer(int),
    Bytes(Seq<u8>),
}

impl Bencode {
    /// The mathematical value this tree stands for.
    pub open spec fn deep_view(self) -> BencodeView
        decreases self, 1int,
    {
        match self {
            Bencode::Dictionary(entries) => BencodeView::Dictionary(pairs_view(entries@)),
            Bencode::List(items) => BencodeView::List(seq_view(items@)),
            Bencode::Integer(n) => BencodeView::Integer(n as int),
            Bencode::Bytes(bytes) => BencodeView::Bytes(bytes@),
        }
    }
}

/// The views of a sequence of values, element by element.
pub open spec fn seq_view(items: Seq<Bencode>) -> Seq<BencodeView>
    decreases items, 0int,
{
    if items.len() == 0 {
        Seq::empty()
    } else {
        seq_view(items.drop_last()).push(items.last().deep_view())
    }
}

/// The views of a sequence of dictionary entries, entry by entry.
pub open spec fn pairs_view(entries: Seq<(String, Bencode)>) -> Seq<(Seq<char>, BencodeView)>
    decreases entries, 0int,
{
    if entries.len() == 0 {
        Seq::empty()
    } else {
        pairs_view(entries.drop_last()).push(
            (entries.last().0@, entries.last().1.deep_view()),
        )
    }
}

/// Entry by entry, [`pairs_view`] is the view of each pair in place.
pub proof fn lemma_pairs_view_index(entries: Seq<(String, Bencode)>)
    ensures
        pairs_view(entries).len() == entries.len(),
        forall|i: int| 0 <= i < entries.len() ==> #[trigger] pairs_view(entries)[i]
            == (entries[i].0@, entries[i].1.deep_view()),
    decreases entries.len(),
{
    if entries.len() > 0 {
        lemma_pairs_view_index(entries.drop_last());
    }
}

pub proof fn lemma_seq_view_push(items: Seq<Bencode>, item: Bencode)
    ensures
        seq_view(items.push(item)) == seq_view(items).push(item.deep_view()),
{
    assert(items.push(item).drop_last() =~= items);
}

pub proof fn lemma_pairs_view_push(entries: Seq<(String, Bencode)>, entry: (String, Bencode))
    ensures
        pairs_view(entries.push(entry)) == pairs_view(entries).push((entry.0@, entry.1.deep_view())),
{
    assert(entries.push(entry).drop_last() =~= entries);
}

pub proof fn lemma_pairs_view_update(entries: Seq<(String, Bencode)>, i: int, entry: (String, Bencode))
    requires
        0 <= i < entries.len(),
    ensures
        pairs_view(entries.update(i, entry)) == pairs_view(entries).update(
            i,
            (entry.0@, entry.1.deep_view()),
        ),
{
    lemma_pairs_view_index(entries);
    lemma_pairs_view_index(entries.update(i, entry));
    assert(pairs_view(entries.update(i, entry)) =~= pairs_view(entries).update(
        i,
        (entry.0@, entry.1.deep_view()),
    ));
}

/// Why a parse failed, as the taxonomy of malformed inputs.
#[derive(Clone, Copy, Debug, PartialEq, Eq, Structural)]
pub enum DecodeError {
    /// The cursor would have to move past the end of the buffer.
    UnexpectedEof,
    /// Bytes that must be text (an integer span, a length prefix, a
    /// dictionary key) are not valid UTF-8.
    InvalidUtf8,
    /// An integer span is not a well-formed base-10 literal, or its value
    /// does not fit the supported range.
    MalformedInteger,
    /// A length prefix is not a well-formed unsigned base-10 literal, or its
    /// value does not fit the supported range.
    MalformedLength,
    /// A dictionary key position decoded to something other than a byte
    /// string.
    NonStringKey,
    /// The byte at the cursor starts none of the four grammar productions.
    UnrecognizedMarker(u8),
}

/// Binds `key` to `val` in a pair sequence: an existing binding of `key` is
/// overwritten in place, a new key is appended.  This is the last-write-wins
/// policy for duplicate dictionary keys.
pub open spec fn dict_insert(
    pairs: Seq<(Seq<char>, BencodeView)>,
    key: Seq<char>,
    val: BencodeView,
) -> Seq<(Seq<char>, BencodeView)>
    decreases pairs.len(),
{
    if pairs.len() == 0 {
        seq![(key, val)]
    } else if pairs.first().0 == key {
        seq![(key, val)] + pairs.drop_first()
    } else {
        seq![pairs.first()] + dict_insert(pairs.drop_first(), key, val)
    }
}

/// The value bound to `key`, looking at the earliest pair whose key matches.
pub open spec fn dict_lookup(
    pairs: Seq<(Seq<char>, BencodeView)>,
    key: Seq<char>,
) -> Option<BencodeView>
    decreases pairs.len(),
{
    if pairs.len() == 0 {
        None
    } else if pairs.first().0 == key {
        Some(pairs.first().1)
    } else {
        dict_lookup(pairs.drop_first(), key)
    }
}

/// Whether some pair binds `key`.
pub open spec fn dict_has_key(pairs: Seq<(Seq<char>, BencodeView)>, key: Seq<char>) -> bool {
    exists|i: int| 0 <= i < pairs.len() && pairs[i].0 == key
}

/// Duplicate keys resolve to the last-written value: after an insertion the
/// inserted key is bound to the inserted value, and every other key keeps
/// its binding.
pub proof fn lemma_dict_insert_last_write(
    pairs: Seq<(Seq<char>, BencodeView)>,
    key: Seq<char>,
    val: BencodeView,
)
    ensures
        dict_lookup(dict_insert(pairs, key, val), key) == Some(val),
        forall|other: Seq<char>| other != key ==> dict_lookup(
            dict_insert(pairs, key, val),
            other,
        ) == dict_lookup(pairs, other),
    decreases pairs.len(),
{
    if pairs.len() == 0 {
        let updated = seq![(key, val)];
        assert(updated.drop_first() =~= Seq::<(Seq<char>, BencodeView)>::empty());
        assert forall|other: Seq<char>| other != key implies dict_lookup(
            dict_insert(pairs, key, val),
            other,
        ) == dict_lookup(pairs, other) by {
            assert(dict_lookup(updated, other) == dict_lookup(updated.drop_first(), other));
        }
    } else if pairs.first().0 == key {
        let updated = seq![(key, val)] + pairs.drop_first();
        assert(updated.first() == (key, val));
        assert(updated.drop_first() =~= pairs.drop_first());
        assert forall|other: Seq<char>| other != key implies dict_lookup(
            dict_insert(pairs, key, val),
            other,
        ) == dict_lookup(pairs, other) by {
            assert(dict_lookup(updated, other) == dict_lookup(pairs.drop_first(), other));
            assert(dict_lookup(pairs, other) == dict_lookup(pairs.drop_first(), other));
        }
    } else {
        lemma_dict_insert_last_write(pairs.drop_first(), key, val);
        let updated = seq![pairs.first()] + dict_insert(pairs.drop_first(), key, val);
        assert(updated.first() == pairs.first());
        assert(updated.drop_first() =~= dict_insert(pairs.drop_first(), key, val));
        assert forall|other: Seq<char>| other != key implies dict_lookup(
            dict_insert(pairs, key, val),
            other,
        ) == dict_lookup(pairs, other) by {
            if pairs.first().0 != other {
                assert(dict_lookup(dict_insert(pairs.drop_first(), key, val), other)
                    == dict_lookup(pairs.drop_first(), other));
            }
        }
    }
}

/// Inserting a fresh key appends its pair.
pub proof fn lemma_dict_insert_fresh(
    pairs: Seq<(Seq<char>, BencodeView)>,
    key: Seq<char>,
    val: BencodeView,
)
    requires
        !dict_has_key(pairs, key),
    ensures
        dict_insert(pairs, key, val) == pairs.push((key, val)),
    decreases pairs.len(),
{
    if pairs.len() == 0 {
        assert(dict_insert(pairs, key, val) =~= pairs.push((key, val)));
    } else {
        assert(pairs.first().0 != key) by {
            assert(pairs[0] == pairs.first());
        }
        assert(!dict_has_key(pairs.drop_first(), key)) by {
            assert(forall|i: int|
                0 <= i < pairs.drop_first().len() ==> pairs.drop_first()[i] == pairs[i + 1]);
        }
        lemma_dict_insert_fresh(pairs.drop_first(), key, val);
        assert(seq![pairs.first()] + pairs.drop_first().push((key, val)) =~= pairs.push(
            (key, val),
        ));
    }
}

/// Overwriting the pair at the first index holding `key` is what
/// [`dict_insert`] does when the key is already bound there.
pub proof fn lemma_dict_insert_found(
    pairs: Seq<(Seq<char>, BencodeView)>,
    key: Seq<char>,
    val: BencodeView,
    i: int,
)
    requires
        0 <= i < pairs.len(),
        pairs[i].0 == key,
        forall|j: int| 0 <= j < i ==> pairs[j].0 != key,
    ensures
        dict_insert(pairs, key, val) == pairs.update(i, (key, val)),
    decreases i,
{
    if i == 0 {
        assert(pairs.first() == pairs[0]);
        assert(seq![(key, val)] + pairs.drop_first() =~= pairs.update(0, (key, val)));
    } else {
        assert(pairs.first().0 != key) by {
            assert(pairs[0] == pairs.first());
        }
        assert(pairs.drop_first()[i - 1] == pairs[i]);
        assert(forall|j: int| 0 <= j < i - 1 ==> pairs.drop_first()[j] == pairs[j + 1]);
        lemma_dict_insert_found(pairs.drop_first(), key, val, i - 1);
        assert(seq![pairs.first()] + pairs.drop_first().update(i - 1, (key, val)) =~= pairs.update(
            i,
            (key, val),
        ));
    }
}

/// Well-formed: every dictionary anywhere in the tree binds each key at
/// most once, as the data model asks.
pub open spec fn view_wf(v: BencodeView) -> bool
    decreases v, 1int,
{
    match v {
        BencodeView::Dictionary(pairs) => pairs_keys_unique(pairs) && pairs_values_wf(pairs),
        BencodeView::List(items) => items_wf(items),
        BencodeView::Integer(_) => true,
        BencodeView::Bytes(_) => true,
    }
}

/// Every element of the run is well-formed.
pub open spec fn items_wf(items: Seq<BencodeView>) -> bool
    decreases items, 0int,
{
    items.len() == 0 || (view_wf(items.first()) && items_wf(items.drop_first()))
}

/// Every value of the pair run is well-formed.
pub open spec fn pairs_values_wf(pairs: Seq<(Seq<char>, BencodeView)>) -> bool
    decreases pairs, 0int,
{
    pairs.len() == 0 || (view_wf(pairs.first().1) && pairs_values_wf(pairs.drop_first()))
}

/// No two pairs bind the same key.
pub open spec fn pairs_keys_unique(pairs: Seq<(Seq<char>, BencodeView)>) -> bool {
    forall|i: int, j: int| 0 <= i < j < pairs.len() ==> pairs[i].0 != pairs[j].0
}

/// A key is bound exactly when some pair holds it, after any insertion:
/// the inserted key, and every key bound before.
pub proof fn lemma_dict_insert_keys(
    pairs: Seq<(Seq<char>, BencodeView)>,
    key: Seq<char>,
    val: BencodeView,
)
    ensures
        forall|other: Seq<char>| #[trigger] dict_has_key(dict_insert(pairs, key, val), other)
            <==> (dict_has_key(pairs, other) || other == key),
    decreases pairs.len(),
{
    assert forall|other: Seq<char>| #[trigger] dict_has_key(dict_insert(pairs, key, val), other)
        <==> (dict_has_key(pairs, other) || other == key) by {
        let updated = dict_insert(pairs, key, val);
        if pairs.len() == 0 {
            assert(updated[0] == (key, val));
            if dict_has_key(updated, other) {
                let i = choose|i: int| 0 <= i < updated.len() && updated[i].0 == other;
                assert(updated[i] == (key, val));
            }
        } else if pairs.first().0 == key {
            assert(updated[0] == (key, val));
            assert(forall|i: int| 1 <= i < updated.len() ==> updated[i] == pairs[i]);
            if dict_has_key(updated, other) {
                let i = choose|i: int| 0 <= i < updated.len() && updated[i].0 == other;
                if i > 0 {
                    assert(pairs[i].0 == other);
                }
            }
            if dict_has_key(pairs, other) {
                let i = choose|i: int| 0 <= i < pairs.len() && pairs[i].0 == other;
                if i > 0 {
                    assert(updated[i].0 == other);
                } else {
                    assert(pairs[0].0 == key);
                }
            }
        } else {
            lemma_dict_insert_keys(pairs.drop_first(), key, val);
            let inner = dict_insert(pairs.drop_first(), key, val);
            assert(updated[0] == pairs.first());
            assert(forall|i: int| 1 <= i < updated.len() ==> updated[i] == inner[i - 1]);
            if dict_has_key(updated, other) {
                let i = choose|i: int| 0 <= i < updated.len() && updated[i].0 == other;
                if i == 0 {
                    assert(pairs[0].0 == other);
                } else {
                    assert(inner[i - 1].0 == other);
                    assert(dict_has_key(inner, other));
                    if dict_has_key(pairs.drop_first(), other) {
                        let j = choose|j: int|
                            0 <= j < pairs.drop_first().len() && pairs.drop_first()[j].0 == other;
                        assert(pairs[j + 1].0 == other);
                    }
                }
            }
            if dict_has_key(pairs, other) || other == key {
                if other == key {
                    assert(dict_has_key(inner, other));
                } else {
                    let i = choose|i: int| 0 <= i < pairs.len() && pairs[i].0 == other;
                    if i == 0 {
                        assert(updated[0].0 == other);
                    } else {
                        assert(pairs.drop_first()[i - 1].0 == other);
                        assert(dict_has_key(pairs.drop_first(), other));
                        assert(dict_has_key(inner, other));
                    }
                }
                if dict_has_key(inner, other) {
                    let i = choose|i: int| 0 <= i < inner.len() && inner[i].0 == other;
                    assert(updated[i + 1].0 == other);
                }
            }
        }
    }
}

/// Insertion keeps the keys pairwise distinct.
pub proof fn lemma_dict_insert_unique(
    pairs: Seq<(Seq<char>, BencodeView)>,
    key: Seq<char>,
    val: BencodeView,
)
    requires
        pairs_keys_unique(pairs),
    ensures
        pairs_keys_unique(dict_insert(pairs, key, val)),
    decreases pairs.len(),
{
    let updated = dict_insert(pairs, key, val);
    if pairs.len() == 0 {
    } else if pairs.first().0 == key {
        assert(updated[0] == (key, val));
        assert(forall|i: int| 1 <= i < updated.len() ==> updated[i] == pairs[i]);
        assert forall|i: int, j: int| 0 <= i < j < updated.len() implies updated[i].0
            != updated[j].0 by {
            if i == 0 {
                assert(pairs[0].0 != pairs[j].0);
            }
        }
    } else {
        assert(forall|i: int, j: int|
            0 <= i < j < pairs.drop_first().len() ==> pairs.drop_first()[i].0
                != pairs.drop_first()[j].0) by {
            assert(forall|i: int|
                0 <= i < pairs.drop_first().len() ==> pairs.drop_first()[i] == pairs[i + 1]);
        }
        lemma_dict_insert_unique(pairs.drop_first(), key, val);
        lemma_dict_insert_keys(pairs.drop_first(), key, val);
        let inner = dict_insert(pairs.drop_first(), key, val);
        assert(updated[0] == pairs.first());
        assert(forall|i: int| 1 <= i < updated.len() ==> updated[i] == inner[i - 1]);
        assert(!dict_has_key(pairs.drop_first(), pairs[0].0)) by {
            if dict_has_key(pairs.drop_first(), pairs[0].0) {
                let i = choose|i: int|
                    0 <= i < pairs.drop_first().len() && pairs.drop_first()[i].0 == pairs[0].0;
                assert(pairs[i + 1].0 == pairs[0].0);
            }
        }
        assert(!dict_has_key(inner, pairs[0].0));
        assert forall|i: int, j: int| 0 <= i < j < updated.len() implies updated[i].0
            != updated[j].0 by {
            if i == 0 {
                if updated[j].0 == pairs[0].0 {
                    assert(inner[j - 1].0 == pairs[0].0);
                    assert(dict_has_key(inner, pairs[0].0));
                }
            } else {
                assert(inner[i - 1].0 != inner[j - 1].0);
            }
        }
    }
}

/// Insertion keeps every stored value well-formed when the inserted value
/// is.
pub proof fn lemma_dict_insert_values_wf(
    pairs: Seq<(Seq<char>, BencodeView)>,
    key: Seq<char>,
    val: BencodeView,
)
    requires
        pairs_values_wf(pairs),
        view_wf(val),
    ensures
        pairs_values_wf(dict_insert(pairs, key, val)),
    decreases pairs.len(),
{
    let updated = dict_insert(pairs, key, val);
    if pairs.len() == 0 {
        assert(updated.drop_first() =~= Seq::<(Seq<char>, BencodeView)>::empty());
        assert(pairs_values_wf(Seq::<(Seq<char>, BencodeView)>::empty()));
        assert(updated.first().1 == val);
    } else if pairs.first().0 == key {
        assert(updated.first() == (key, val));
        assert(updated.drop_first() =~= pairs.drop_first());
    } else {
        lemma_dict_insert_values_wf(pairs.drop_first(), key, val);
        assert(updated.first() == pairs.first());
        assert(updated.drop_first() =~= dict_insert(pairs.drop_first(), key, val));
    }
}

/// Appending a well-formed element keeps a run well-formed.
pub proof fn lemma_items_wf_push(items: Seq<BencodeView>, item: BencodeView)
    requires
        items_wf(items),
        view_wf(item),
    ensures
        items_wf(items.push(item)),
    decreases items.len(),
{
    if items.len() == 0 {
        assert(items.push(item).first() == item);
        assert(items.push(item).drop_first() =~= Seq::<BencodeView>::empty());
        assert(items_wf(Seq::<BencodeView>::empty()));
    } else {
        lemma_items_wf_push(items.drop_first(), item);
        assert(items.push(item).first() == items.first());
        assert(items.push(item).drop_first() =~= items.drop_first().push(item));
    }
}

} // verus!
