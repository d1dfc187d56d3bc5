use vstd::prelude::*;
use crate::text::is_encodable;

verus! {

/// A name and a value of the environment, as texts.
pub type Entry = (Seq<char>, Seq<char>);

/// Some entry of the sequence has the given name.
pub open spec fn has_key(entries: Seq<Entry>, key: Seq<char>) -> bool {
    exists|i: int| 0 <= i < entries.len() && (#[trigger] entries[i]).0 == key
}

/// No name occurs in two entries.
pub open spec fn unique_keys(entries: Seq<Entry>) -> bool {
    forall|i: int, j: int|
        0 <= i < j < entries.len() ==> (#[trigger] entries[i]).0 != (#[trigger] entries[j]).0
}

/// Both texts of an entry can cross the boundary.
pub open spec fn is_encodable_entry(entry: Entry) -> bool {
    is_encodable(entry.0) && is_encodable(entry.1)
}

/// Every entry of the sequence can cross the boundary.
pub open spec fn all_encodable_entries(entries: Seq<Entry>) -> bool {
    forall|i: int| 0 <= i < entries.len() ==> is_encodable_entry(#[trigger] entries[i])
}

/// The number of leading entries of the sequence that can cross the boundary.
pub open spec fn encodable_entries_prefix_len(entries: Seq<Entry>) -> nat
    decreases entries.len(),
{
    if entries.len() == 0 || !is_encodable_entry(entries[0]) {
        0
    } else {
        1 + encodable_entries_prefix_len(entries.drop_first())
    }
}

/// The entries read as a sequence of writes: the mapping from each name to
/// the value that was written to it last.
pub open spec fn entries_map(entries: Seq<Entry>) -> Map<Seq<char>, Seq<char>>
    decreases entries.len(),
{
    if entries.len() == 0 {
        Map::empty()
    } else {
        entries_map(entries.drop_last()).insert(entries.last().0, entries.last().1)
    }
}

/// The entries with the value `value` in every entry named `key`.
pub open spec fn overwrite(entries: Seq<Entry>, key: Seq<char>, value: Seq<char>) -> Seq<Entry> {
    Seq::new(
        entries.len(),
        |i: int|
            if entries[i].0 == key {
                (key, value)
            } else {
                entries[i]
            },
    )
}

/// The entries after `value` was written to `key`: an entry of that name
/// keeps its place and takes the value, a new name goes to the end.
pub open spec fn put_entry(entries: Seq<Entry>, key: Seq<char>, value: Seq<char>) -> Seq<Entry> {
    if has_key(entries, key) {
        overwrite(entries, key, value)
    } else {
        entries.push((key, value))
    }
}


/// `n` is the length of the longest encodable prefix as soon as the first `n`
/// entries are encodable and the one after them, if any, is not.
pub proof fn lemma_encodable_entries_prefix_len(entries: Seq<Entry>, n: int)
    requires
        0 <= n <= entries.len(),
        forall|j: int| 0 <= j < n ==> is_encodable_entry(#[trigger] entries[j]),
        n < entries.len() ==> !is_encodable_entry(entries[n]),
    ensures
        encodable_entries_prefix_len(entries) == n,
    decreases n,
{
    if n > 0 {
        let rest = entries.drop_first();
        assert forall|j: int| 0 <= j < n - 1 implies is_encodable_entry(#[trigger] rest[j]) by {
            assert(rest[j] == entries[j + 1]);
        }
        lemma_encodable_entries_prefix_len(rest, n - 1);
    }
}

/// A name is in the mapping exactly when some entry has it.
pub proof fn lemma_map_keys(entries: Seq<Entry>, key: Seq<char>)
    ensures
        entries_map(entries).contains_key(key) <==> has_key(entries, key),
    decreases entries.len(),
{
    if entries.len() > 0 {
        let front = entries.drop_last();
        lemma_map_keys(front, key);
        if has_key(front, key) {
            let i = choose|i: int| 0 <= i < front.len() && (#[trigger] front[i]).0 == key;
            assert(entries[i].0 == key);
        }
        if has_key(entries, key) && entries.last().0 != key {
            let i = choose|i: int| 0 <= i < entries.len() && (#[trigger] entries[i]).0 == key;
            assert(front[i].0 == key);
        }
        if entries.last().0 == key {
            assert(entries[entries.len() - 1].0 == key);
        }
    }
}

/// The mapping gives a name the value of the last entry that has it.
pub proof fn lemma_lookup_last(entries: Seq<Entry>, key: Seq<char>, i: int)
    requires
        0 <= i < entries.len(),
        entries[i].0 == key,
        forall|j: int| i < j < entries.len() ==> (#[trigger] entries[j]).0 != key,
    ensures
        entries_map(entries).contains_key(key),
        entries_map(entries)[key] == entries[i].1,
    decreases entries.len(),
{
    if i < entries.len() - 1 {
        let front = entries.drop_last();
        assert(entries[entries.len() - 1].0 != key);
        assert forall|j: int| i < j < front.len() implies (#[trigger] front[j]).0 != key by {
            assert(front[j] == entries[j]);
        }
        lemma_lookup_last(front, key, i);
    }
}

/// The mapping holds no name that no entry has.
pub proof fn lemma_lookup_absent(entries: Seq<Entry>, key: Seq<char>)
    requires
        forall|j: int| 0 <= j < entries.len() ==> (#[trigger] entries[j]).0 != key,
    ensures
        !entries_map(entries).contains_key(key),
{
    lemma_map_keys(entries, key);
}

/// Overwriting the entries of a name is one write to it where the name is
/// held, and changes nothing where it is not.
pub proof fn lemma_overwrite_map(entries: Seq<Entry>, key: Seq<char>, value: Seq<char>)
    ensures
        entries_map(overwrite(entries, key, value)) == if has_key(entries, key) {
            entries_map(entries).insert(key, value)
        } else {
            entries_map(entries)
        },
    decreases entries.len(),
{
    let after = overwrite(entries, key, value);
    if entries.len() == 0 {
        assert(after =~= entries);
    } else {
        let front = entries.drop_last();
        let last = entries.last();
        lemma_overwrite_map(front, key, value);
        assert(after.drop_last() =~= overwrite(front, key, value));
        if has_key(front, key) {
            let i = choose|i: int| 0 <= i < front.len() && (#[trigger] front[i]).0 == key;
            assert(entries[i].0 == key);
        }
        if last.0 == key {
            assert(entries[entries.len() - 1].0 == key);
            assert(after.last() == (key, value));
            assert(entries_map(after) =~= entries_map(entries).insert(key, value));
        } else {
            assert(after.last() == last);
            if has_key(entries, key) {
                let i = choose|i: int| 0 <= i < entries.len() && (#[trigger] entries[i]).0 == key;
                assert(front[i].0 == key);
                assert(entries_map(after) =~= entries_map(entries).insert(key, value));
            } else {
                assert(entries_map(after) =~= entries_map(entries));
            }
        }
    }
}

/// A write through `put_entry` is an insertion into the mapping.
pub proof fn lemma_put_entry_map(entries: Seq<Entry>, key: Seq<char>, value: Seq<char>)
    ensures
        entries_map(put_entry(entries, key, value)) == entries_map(entries).insert(key, value),
{
    if has_key(entries, key) {
        lemma_overwrite_map(entries, key, value);
    } else {
        assert(entries.push((key, value)).drop_last() =~= entries);
    }
}

/// A write keeps the names distinct.
pub proof fn lemma_put_entry_unique(entries: Seq<Entry>, key: Seq<char>, value: Seq<char>)
    requires
        unique_keys(entries),
    ensures
        unique_keys(put_entry(entries, key, value)),
{
    let after = put_entry(entries, key, value);
    if has_key(entries, key) {
        assert forall|i: int, j: int| 0 <= i < j < after.len() implies (#[trigger] after[i]).0
            != (#[trigger] after[j]).0 by {
            assert(after[i].0 == entries[i].0);
            assert(after[j].0 == entries[j].0);
        }
    } else {
        assert forall|i: int, j: int| 0 <= i < j < after.len() implies (#[trigger] after[i]).0
            != (#[trigger] after[j]).0 by {
            assert(after[i] == entries[i]);
            if j < entries.len() {
                assert(after[j] == entries[j]);
            }
        }
    }
}

/// A write of two encodable texts keeps every entry encodable.
pub proof fn lemma_put_entry_encodable(entries: Seq<Entry>, key: Seq<char>, value: Seq<char>)
    requires
        all_encodable_entries(entries),
        is_encodable(key),
        is_encodable(value),
    ensures
        all_encodable_entries(put_entry(entries, key, value)),
{
    let after = put_entry(entries, key, value);
    assert forall|i: int| 0 <= i < after.len() implies is_encodable_entry(#[trigger] after[i]) by {
        if i < entries.len() {
            assert(is_encodable_entry(entries[i]));
        }
    }
}

} // verus!
