//! What an object answers for a key, and what its canonical text is.
use crate::json::{
    bytes_before, canonical_text, comma_joined, entry_lines, in_key_order, item_lines, json_quoted,
    placed, second_parts, text_before, JsonShape,
};
use vstd::prelude::*;
use vstd::utf8::encode_utf8;

verus! {

proof fn lemma_entry_before(object: JsonShape, key: Seq<char>, n: nat)
    requires
        object is Object,
        n <= object->Object_0.len(),
    ensures
        object.entry_before(key, n) is None <==> forall|j: int|
            0 <= j < n ==> (#[trigger] object->Object_0[j]).0 != key,
        forall|i: int|
            0 <= i < n && (#[trigger] object->Object_0[i]).0 == key && (forall|j: int|
                0 <= j < i ==> (#[trigger] object->Object_0[j]).0 != key) ==> object.entry_before(
                key,
                n,
            ) == Some(object->Object_0[i].1),
    decreases n,
{
    if n > 0 {
        lemma_entry_before(object, key, (n - 1) as nat);
        let entries = object->Object_0;
        if object.entry_before(key, n) is None {
            assert forall|j: int| 0 <= j < n implies (#[trigger] entries[j]).0 != key by {}
        }
    }
}

/// An object answers for a key with its first entry of that key, and with nothing where
/// it has none. Nothing else answers for a key.
pub proof fn the_first_entry_with_a_key_counts(shape: JsonShape, key: Seq<char>)
    ensures
        shape !is Object ==> shape.at(key) is None,
        shape matches JsonShape::Object(entries) ==> {
            &&& shape.at(key) is None <==> forall|j: int|
                0 <= j < entries.len() ==> (#[trigger] entries[j]).0 != key
            &&& forall|i: int|
                0 <= i < entries.len() && (#[trigger] entries[i]).0 == key && (forall|j: int|
                    0 <= j < i ==> (#[trigger] entries[j]).0 != key) ==> shape.at(key) == Some(
                    entries[i].1,
                )
        },
{
    if shape is Object {
        lemma_entry_before(shape, key, shape->Object_0.len());
    }
}

/// Whether two byte strings differ first at a place, where the left one ends or has the
/// smaller byte.
pub open spec fn smaller_at(left: Seq<u8>, right: Seq<u8>, k: int) -> bool {
    &&& 0 <= k <= left.len()
    &&& k < right.len()
    &&& left.take(k) == right.take(k)
    &&& k < left.len() ==> left[k] < right[k]
}

proof fn lemma_before_at(left: Seq<u8>, right: Seq<u8>) -> (k: int)
    requires
        bytes_before(left, right),
    ensures
        smaller_at(left, right, k),
    decreases left.len(),
{
    if left.len() == 0 || left[0] != right[0] {
        assert(left.take(0) =~= right.take(0));
        0
    } else {
        let rest = left.drop_first();
        let other = right.drop_first();
        let k = lemma_before_at(rest, other);
        assert forall|i: int| 0 <= i < k + 1 implies left[i] == right[i] by {
            if i > 0 {
                assert(left[i] == rest.take(k)[i - 1]);
                assert(right[i] == other.take(k)[i - 1]);
            }
        }
        assert(left.take(k + 1) =~= right.take(k + 1));
        k + 1
    }
}

proof fn lemma_at_before(left: Seq<u8>, right: Seq<u8>, k: int)
    requires
        smaller_at(left, right, k),
    ensures
        bytes_before(left, right),
    decreases left.len(),
{
    if left.len() > 0 && k > 0 {
        assert(left[0] == left.take(k)[0]);
        assert(right[0] == right.take(k)[0]);
        let rest = left.drop_first();
        let other = right.drop_first();
        assert forall|i: int| 0 <= i < k - 1 implies rest[i] == other[i] by {
            assert(rest[i] == left.take(k)[i + 1]);
            assert(other[i] == right.take(k)[i + 1]);
        }
        assert(rest.take(k - 1) =~= other.take(k - 1));
        lemma_at_before(rest, other, k - 1);
    }
}

/// One byte string stands before another where, at the first place at which they differ,
/// it ends or has the smaller byte.
pub proof fn byte_strings_stand_in_dictionary_order(left: Seq<u8>, right: Seq<u8>)
    ensures
        bytes_before(left, right) <==> exists|k: int| #[trigger] smaller_at(left, right, k),
{
    if bytes_before(left, right) {
        let k = lemma_before_at(left, right);
    }
    if exists|k: int| #[trigger] smaller_at(left, right, k) {
        let k = choose|k: int| #[trigger] smaller_at(left, right, k);
        lemma_at_before(left, right, k);
    }
}

proof fn lemma_asymmetric(left: Seq<u8>, right: Seq<u8>)
    requires
        bytes_before(left, right),
    ensures
        !bytes_before(right, left),
    decreases left.len(),
{
    if left.len() > 0 && left[0] == right[0] {
        lemma_asymmetric(left.drop_first(), right.drop_first());
    }
}

/// That the left one does not stand behind the right one is passed on.
proof fn lemma_transitive(a: Seq<u8>, b: Seq<u8>, c: Seq<u8>)
    requires
        !bytes_before(b, a),
        !bytes_before(c, b),
    ensures
        !bytes_before(c, a),
    decreases a.len() + b.len() + c.len(),
{
    if a.len() > 0 && b.len() > 0 && c.len() > 0 {
        if a[0] == b[0] && b[0] == c[0] {
            lemma_transitive(a.drop_first(), b.drop_first(), c.drop_first());
        }
    }
}

/// Whether entries stand in order: none has a key that belongs before that of an earlier
/// one.
pub open spec fn ordered(entries: Seq<(Seq<char>, Seq<char>)>) -> bool {
    forall|i: int, j: int|
        0 <= i < j < entries.len() ==> !text_before(
            (#[trigger] entries[j]).0,
            (#[trigger] entries[i]).0,
        )
}

proof fn lemma_placed(entries: Seq<(Seq<char>, Seq<char>)>, entry: (Seq<char>, Seq<char>))
    requires
        ordered(entries),
    ensures
        ordered(placed(entries, entry)),
        placed(entries, entry).to_multiset() == entries.to_multiset().insert(entry),
        placed(entries, entry).len() == entries.len() + 1,
        forall|i: int|
            0 <= i < placed(entries, entry).len() ==> (#[trigger] placed(entries, entry)[i] == entry
                || entries.contains(placed(entries, entry)[i])),
    decreases entries.len(),
{
    broadcast use vstd::seq_lib::group_to_multiset_ensures;

    let result = placed(entries, entry);
    if entries.len() == 0 || !text_before(entry.0, entries.last().0) {
        assert forall|i: int, j: int| 0 <= i < j < result.len() implies !text_before(
            (#[trigger] result[j]).0,
            (#[trigger] result[i]).0,
        ) by {
            if j == entries.len() && i < entries.len() - 1 {
                assert(!text_before(entries.last().0, entries[i].0));
                lemma_transitive(
                    encode_utf8(entries[i].0),
                    encode_utf8(entries.last().0),
                    encode_utf8(entry.0),
                );
            }
        }
        assert forall|i: int| 0 <= i < result.len() implies (#[trigger] result[i] == entry
            || entries.contains(result[i])) by {
            if i < entries.len() {
                assert(entries[i] == result[i]);
            }
        }
    } else {
        let front = entries.drop_last();
        let last = entries.last();
        assert(ordered(front)) by {
            assert forall|i: int, j: int| 0 <= i < j < front.len() implies !text_before(
                (#[trigger] front[j]).0,
                (#[trigger] front[i]).0,
            ) by {
                assert(front[j] == entries[j] && front[i] == entries[i]);
            }
        }
        lemma_placed(front, entry);
        let before = placed(front, entry);
        assert(front.push(last) =~= entries);
        assert(result.to_multiset() =~= entries.to_multiset().insert(entry));
        assert forall|i: int, j: int| 0 <= i < j < result.len() implies !text_before(
            (#[trigger] result[j]).0,
            (#[trigger] result[i]).0,
        ) by {
            if j < before.len() {
                assert(result[j] == before[j] && result[i] == before[i]);
            } else {
                assert(result[i] == before[i]);
                if before[i] == entry {
                    lemma_asymmetric(encode_utf8(entry.0), encode_utf8(last.0));
                } else {
                    let k = front.index_of(before[i]);
                    assert(front[k] == entries[k]);
                }
            }
        }
        assert forall|i: int| 0 <= i < result.len() implies (#[trigger] result[i] == entry
            || entries.contains(result[i])) by {
            if i < before.len() {
                assert(result[i] == before[i]);
                if before[i] != entry {
                    let k = front.index_of(before[i]);
                    assert(entries[k] == front[k]);
                }
            } else {
                assert(entries[entries.len() - 1] == result[i]);
            }
        }
    }
}

/// Sorting by key keeps every entry, and puts the keys in dictionary order.
pub proof fn sorting_keeps_every_entry(entries: Seq<(Seq<char>, Seq<char>)>)
    ensures
        ordered(in_key_order(entries)),
        in_key_order(entries).to_multiset() == entries.to_multiset(),
        in_key_order(entries).len() == entries.len(),
    decreases entries.len(),
{
    broadcast use vstd::seq_lib::group_to_multiset_ensures;

    if entries.len() > 0 {
        let front = entries.drop_last();
        sorting_keeps_every_entry(front);
        lemma_placed(in_key_order(front), entries.last());
        assert(front.push(entries.last()) =~= entries);
    }
}

proof fn lemma_item_lines(items: Seq<JsonShape>, item: JsonShape, n: nat)
    requires
        n <= items.len(),
    ensures
        item_lines(items.push(item), n) == item_lines(items, n),
        item_lines(items, n).len() == n,
    decreases n,
{
    if n > 0 {
        lemma_item_lines(items, item, (n - 1) as nat);
    }
}

proof fn lemma_entry_lines(
    entries: Seq<(Seq<char>, JsonShape)>,
    entry: (Seq<char>, JsonShape),
    n: nat,
)
    requires
        n <= entries.len(),
    ensures
        entry_lines(entries.push(entry), n) == entry_lines(entries, n),
        entry_lines(entries, n).len() == n,
        forall|i: int|
            0 <= i < n ==> (#[trigger] entry_lines(entries, n)[i]).0 == entries[i].0,
    decreases n,
{
    if n > 0 {
        lemma_entry_lines(entries, entry, (n - 1) as nat);
    }
}

proof fn lemma_comma(texts: Seq<Seq<char>>, more: Seq<char>, n: nat)
    requires
        n <= texts.len(),
    ensures
        comma_joined(texts.push(more), n) == comma_joined(texts, n),
    decreases n,
{
    if n > 0 {
        lemma_comma(texts, more, (n - 1) as nat);
        assert(texts.push(more)[n - 1] == texts[n - 1]);
    }
}

/// Words for nothing, true and false are written as they are, a number as its text, and
/// a text in quotes.
pub proof fn plain_values_are_written_as_they_are(
    text: Seq<char>,
    unsigned: Option<u64>,
)
    ensures
        canonical_text(JsonShape::Null) == seq!['n', 'u', 'l', 'l'],
        canonical_text(JsonShape::Bool(true)) == seq!['t', 'r', 'u', 'e'],
        canonical_text(JsonShape::Bool(false)) == seq!['f', 'a', 'l', 's', 'e'],
        canonical_text(JsonShape::Number { unsigned, text }) == text,
        canonical_text(JsonShape::Text(text)) == json_quoted(text),
        canonical_text(JsonShape::Array(Seq::empty())) == seq!['[', ']'],
        canonical_text(JsonShape::Object(Seq::empty())) == seq!['{', '}'],
{
    reveal_strlit("null");
    reveal_strlit("true");
    reveal_strlit("false");
    reveal_strlit("[");
    reveal_strlit("]");
    reveal_strlit("{");
    reveal_strlit("}");
}

/// One more item goes behind a comma, before the bracket that closes the list.
pub proof fn an_item_is_written_behind_a_comma(items: Seq<JsonShape>, item: JsonShape)
    ensures
        canonical_text(JsonShape::Array(seq![item])) == seq!['['] + canonical_text(item).push(']'),
        items.len() > 0 ==> canonical_text(JsonShape::Array(items.push(item))) == canonical_text(
            JsonShape::Array(items),
        ).drop_last().push(',') + canonical_text(item).push(']'),
{
    reveal_strlit("[");
    reveal_strlit("]");
    reveal_strlit(",");
    let none = Seq::<JsonShape>::empty();
    lemma_item_lines(none, item, 0);
    assert(none.push(item) =~= seq![item]);
    let one = item_lines(seq![item], 1);
    assert(one =~= seq![canonical_text(item)]);
    assert(canonical_text(JsonShape::Array(seq![item])) =~= seq!['['] + canonical_text(item).push(
        ']',
    ));
    if items.len() > 0 {
        let n = items.len();
        let all = items.push(item);
        lemma_item_lines(items, item, n);
        let lines = item_lines(items, n);
        assert(item_lines(all, n + 1) == lines.push(canonical_text(item)));
        lemma_comma(lines, canonical_text(item), n);
        let before = canonical_text(JsonShape::Array(items));
        assert(before.drop_last() =~= seq!['['] + comma_joined(lines, n));
        assert(canonical_text(JsonShape::Array(all)) =~= before.drop_last().push(',')
            + canonical_text(item).push(']'));
    }
}

/// One more entry with a key that belongs before none of the others goes behind a comma,
/// before the brace that closes the object: its key in quotes, a colon and its value.
pub proof fn an_entry_is_written_behind_a_comma(
    entries: Seq<(Seq<char>, JsonShape)>,
    key: Seq<char>,
    value: JsonShape,
)
    requires
        forall|i: int| 0 <= i < entries.len() ==> !text_before(key, (#[trigger] entries[i]).0),
    ensures
        entries.len() == 0 ==> canonical_text(JsonShape::Object(entries.push((key, value))))
            == seq!['{'] + json_quoted(key).push(':') + canonical_text(value).push('}'),
        entries.len() > 0 ==> canonical_text(JsonShape::Object(entries.push((key, value))))
            == canonical_text(JsonShape::Object(entries)).drop_last().push(',') + json_quoted(
            key,
        ).push(':') + canonical_text(value).push('}'),
{
    reveal_strlit("{");
    reveal_strlit("}");
    reveal_strlit(",");
    reveal_strlit(":");
    let n = entries.len();
    let all = entries.push((key, value));
    lemma_entry_lines(entries, (key, value), n);
    let lines = entry_lines(entries, n);
    let line = json_quoted(key) + ":"@ + canonical_text(value);
    assert(line =~= json_quoted(key).push(':') + canonical_text(value));
    let grown = entry_lines(all, n + 1);
    assert(grown == lines.push((key, line)));
    assert(grown.drop_last() =~= lines);
    let sorted = in_key_order(lines);
    sorting_keeps_every_entry(lines);
    assert(sorted.len() == 0 || !text_before(key, sorted.last().0)) by {
        if sorted.len() > 0 {
            broadcast use vstd::seq_lib::group_to_multiset_ensures;

            assert(sorted.to_multiset().count(sorted.last()) > 0) by {
                assert(sorted.contains(sorted.last()));
            }
            assert(lines.contains(sorted.last()));
            let k = lines.index_of(sorted.last());
            assert(lines[k].0 == entries[k].0);
        }
    }
    assert(in_key_order(grown) == sorted.push((key, line)));
    let parts = second_parts(sorted);
    assert(second_parts(sorted.push((key, line))) =~= parts.push(line));
    lemma_comma(parts, line, n);
    if n == 0 {
        assert(canonical_text(JsonShape::Object(all)) =~= seq!['{'] + json_quoted(key).push(':')
            + canonical_text(value).push('}'));
    } else {
        let before = canonical_text(JsonShape::Object(entries));
        assert(before.drop_last() =~= seq!['{'] + comma_joined(parts, n));
        assert(canonical_text(JsonShape::Object(all)) =~= before.drop_last().push(',')
            + json_quoted(key).push(':') + canonical_text(value).push('}'));
    }
}

} // verus!
