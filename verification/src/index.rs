//! The in-memory index: an ordered map from each live key to the place of
//! its latest record in the log.

use vstd::prelude::*;
use vstd::utf8::encode_utf8;
use crossbeam_skiplist::SkipMap;

verus! {

/// The place of one record: the log file that holds it, the offset of its
/// first byte, and the number of bytes it takes.
#[derive(Clone, Copy, Debug, PartialEq, Eq, Structural)]
pub struct CommandPos {
    /// Generation of the log file.
    pub gen: u64,
    /// Offset of the first byte.
    pub pos: u64,
    /// Number of bytes.
    pub len: u64,
}

impl CommandPos {
    /// The place of the bytes from `start` up to `end` in log `gen`.
    pub fn from_range(gen: u64, start: u64, end: u64) -> (place: CommandPos)
        requires
            start <= end,
        ensures
            place == (CommandPos { gen, pos: start, len: (end - start) as u64 }),
    {
        CommandPos { gen, pos: start, len: end - start }
    }

    /// Offset of the first byte after the record.
    pub open spec fn end(self) -> int {
        self.pos + self.len
    }
}

/// The ordered map `crossbeam_skiplist::SkipMap`, of which nothing is known
/// here but what the functions below say.
#[verifier::external_type_specification]
#[verifier::external_body]
#[verifier::reject_recursive_types(K)]
#[verifier::reject_recursive_types(V)]
pub struct ExSkipMap<K, V>(SkipMap<K, V>);

/// What an index says: the place recorded for each live key.
pub type Places = Map<Seq<char>, CommandPos>;

/// The entries that a skip map holds.
pub uninterp spec fn skip_map_entries(map: SkipMap<String, CommandPos>) -> Places;

/// Makes an empty map, by `SkipMap::new`.
#[verifier::external_body]
fn skip_map_new() -> (fresh: SkipMap<String, CommandPos>)
    ensures
        skip_map_entries(fresh) == Places::empty(),
{
    SkipMap::new()
}

/// Looks a key up, by `SkipMap::get`: the value of the entry with that key,
/// if the map holds one.
#[verifier::external_body]
fn skip_map_get(map: &SkipMap<String, CommandPos>, key: &str) -> (found: Option<CommandPos>)
    ensures
        found == skip_map_entries(*map).get(key@),
{
    map.get(key).map(|entry| *entry.value())
}

/// Binds a key, by `SkipMap::insert`, which removes an entry with the same
/// key before it adds the new one.
#[verifier::external_body]
fn skip_map_insert(map: &mut SkipMap<String, CommandPos>, key: String, value: CommandPos)
    ensures
        skip_map_entries(*final(map)) == skip_map_entries(*old(map)).insert(key@, value),
{
    map.insert(key, value);
}

/// Drops a key, by `SkipMap::remove`, which returns the entry it removed, if
/// the map held one with that key.
#[verifier::external_body]
fn skip_map_remove(map: &mut SkipMap<String, CommandPos>, key: &str) -> (removed: Option<
    CommandPos,
>)
    ensures
        removed == skip_map_entries(*old(map)).get(key@),
        skip_map_entries(*final(map)) == skip_map_entries(*old(map)).remove(key@),
{
    map.remove(key).map(|entry| *entry.value())
}

/// Lists the entries, by `SkipMap::iter`, which visits the entries in the
/// order of their keys, each once; strings are ordered by their bytes.
#[verifier::external_body]
fn skip_map_to_vec(map: &SkipMap<String, CommandPos>) -> (entries: Vec<(String, CommandPos)>)
    ensures
        entries_list(entries@, skip_map_entries(*map)),
{
    map.iter().map(|entry| (entry.key().clone(), *entry.value())).collect()
}

/// Byte strings in the order of a dictionary: `a` stands before `b`.
pub open spec fn bytes_before(a: Seq<u8>, b: Seq<u8>) -> bool
    decreases a.len(),
{
    if b.len() == 0 {
        false
    } else if a.len() == 0 {
        true
    } else if a[0] != b[0] {
        a[0] < b[0]
    } else {
        bytes_before(a.drop_first(), b.drop_first())
    }
}

/// The order of keys: that of their UTF-8 bytes.
pub open spec fn key_before(a: Seq<char>, b: Seq<char>) -> bool {
    bytes_before(encode_utf8(a), encode_utf8(b))
}

/// The keys of a list of entries.
pub open spec fn keys_of(list: Seq<(String, CommandPos)>) -> Seq<Seq<char>> {
    list.map_values(|entry: (String, CommandPos)| entry.0@)
}

/// `order` holds the keys of `map` in rising order, and nothing else.
pub open spec fn key_order(order: Seq<Seq<char>>, map: Places) -> bool {
    &&& forall|i: int| 0 <= i < order.len() ==> map.contains_key(#[trigger] order[i])
    &&& forall|i: int, j: int| 0 <= i < j < order.len() ==> key_before(order[i], order[j])
    &&& forall|key: Seq<char>| #[trigger]
        map.contains_key(key) ==> exists|i: int| 0 <= i < order.len() && #[trigger] order[i] == key
}

/// `list` holds the entries of `map` in the order of their keys, and nothing
/// else.
pub open spec fn entries_list(list: Seq<(String, CommandPos)>, map: Places) -> bool {
    &&& key_order(keys_of(list), map)
    &&& forall|i: int| 0 <= i < list.len() ==> map[#[trigger] list[i].0@] == list[i].1
}

/// The index of a store: which record holds the value of each live key.
pub struct Index {
    map: SkipMap<String, CommandPos>,
}

impl View for Index {
    type V = Places;

    closed spec fn view(&self) -> Places {
        skip_map_entries(self.map)
    }
}

impl Index {
    /// An index without keys.
    pub fn new() -> (index: Index)
        ensures
            index@ == Places::empty(),
    {
        Index { map: skip_map_new() }
    }

    /// The place recorded for `key`, if it is live.
    pub fn get(&self, key: &str) -> (found: Option<CommandPos>)
        ensures
            found == self@.get(key@),
    {
        skip_map_get(&self.map, key)
    }

    /// Whether `key` is live.
    pub fn contains_key(&self, key: &str) -> (found: bool)
        ensures
            found == self@.contains_key(key@),
    {
        skip_map_get(&self.map, key).is_some()
    }

    /// Records `place` for `key`, and returns the place it had before.
    pub fn insert(&mut self, key: String, place: CommandPos) -> (prior: Option<CommandPos>)
        ensures
            prior == old(self)@.get(key@),
            final(self)@ == old(self)@.insert(key@, place),
    {
        let prior = skip_map_get(&self.map, key.as_str());
        skip_map_insert(&mut self.map, key, place);
        prior
    }

    /// Forgets `key`, and returns the place it had.
    pub fn remove(&mut self, key: &str) -> (prior: Option<CommandPos>)
        ensures
            prior == old(self)@.get(key@),
            final(self)@ == old(self)@.remove(key@),
    {
        skip_map_remove(&mut self.map, key)
    }

    /// The live keys with their places, in the order of the keys.
    pub fn entries(&self) -> (entries: Vec<(String, CommandPos)>)
        ensures
            entries_list(entries@, self@),
    {
        skip_map_to_vec(&self.map)
    }
}

} // verus!
