//! A table from text to text: the columns of one input row by name, or the
//! new names of samples by their old names.

use vstd::prelude::*;
use vstd::hash_map::StringHashMap;

verus! {

/// A finite map from text to text.
pub struct TextMap {
    entries: StringHashMap<String>,
}

impl View for TextMap {
    type V = Map<Seq<char>, Seq<char>>;

    closed spec fn view(&self) -> Map<Seq<char>, Seq<char>> {
        self.entries@.map_values(|value: String| value@)
    }
}

/// The map that `pairs` fill when each one in turn sets the value for its
/// key: of several values for one key the last stays.
pub open spec fn pairs_map(pairs: Seq<(String, String)>) -> Map<Seq<char>, Seq<char>>
    decreases pairs.len(),
{
    if pairs.len() == 0 {
        Map::empty()
    } else {
        pairs_map(pairs.drop_last()).insert(pairs.last().0@, pairs.last().1@)
    }
}

impl TextMap {
    /// A map without entries.
    pub fn new() -> (map: TextMap)
        ensures
            map@ == Map::<Seq<char>, Seq<char>>::empty(),
    {
        let map = TextMap { entries: StringHashMap::new() };
        assert(map@ =~= Map::<Seq<char>, Seq<char>>::empty());
        map
    }

    /// Sets the value for `key` to `value`.
    pub fn insert(&mut self, key: String, value: String)
        ensures
            final(self)@ == old(self)@.insert(key@, value@),
    {
        self.entries.insert(key, value);
        assert(self@ =~= old(self)@.insert(key@, value@));
    }

    /// The value for `key`, if there is one.
    pub fn get<'a>(&'a self, key: &str) -> (value: Option<&'a str>)
        ensures
            match value {
                Some(text) => self@.contains_key(key@) && self@[key@] == text@,
                None => !self@.contains_key(key@),
            },
    {
        match self.entries.get(key) {
            Some(text) => Some(text.as_str()),
            None => None,
        }
    }

    /// The map that the pairs of `pairs` fill, each a key and its value.
    pub fn from_pairs(pairs: &Vec<(String, String)>) -> (map: TextMap)
        ensures
            map@ == pairs_map(pairs@),
    {
        let mut map = TextMap::new();
        let mut i: usize = 0;
        while i < pairs.len()
            invariant
                i <= pairs.len(),
                map@ == pairs_map(pairs@.take(i as int)),
            decreases pairs.len() - i,
        {
            assert(pairs@.take(i + 1).drop_last() =~= pairs@.take(i as int));
            map.insert(pairs[i].0.clone(), pairs[i].1.clone());
            i = i + 1;
        }
        assert(pairs@.take(i as int) =~= pairs@);
        map
    }
}

/// The name under which a sample is reported: its own where no table of new
/// names is given; else the one that the table gives for it, and none where
/// the table has no entry for it.
pub open spec fn lookup_name(rename_hash: Option<TextMap>, name_in: Seq<char>) -> Option<
    Seq<char>,
> {
    match rename_hash {
        None => Some(name_in),
        Some(table) => if table@.contains_key(name_in) {
            Some(table@[name_in])
        } else {
            None
        },
    }
}

/// Gives the name under which the sample `name_in` is reported, or `None`
/// where the sample is to be left out.
pub fn maybe_lookup_name<'a>(rename_hash: &'a Option<TextMap>, name_in: &'a str) -> (name_out:
    Option<&'a str>)
    ensures
        match name_out {
            Some(name) => lookup_name(*rename_hash, name_in@) == Some(name@),
            None => lookup_name(*rename_hash, name_in@) is None,
        },
{
    match rename_hash {
        Some(table) => table.get(name_in),
        None => Some(name_in),
    }
}

} // verus!
