//! The key-value container.
use vstd::prelude::*;
use crate::pairs::{find, find_from, has_key, inserted, lookup, pairs_of, removed, unique_keys};
use crate::pairs::{lemma_find, lemma_inserted_unique, lemma_removed_unique};
use crate::snapshot::{decode, decode_records, encode, read_field, record};
use crate::snapshot::{lemma_read_field_rest, push_escaped, read_field_at, ParseError, Stop};
use crate::text::{chars_of, Key, Text};

verus! {

/// An in-memory container of key-value pairs with unique keys.
///
/// New keys are kept in the order in which they were inserted; storing a
/// value under a key that is present replaces the value where it stands.
/// The view of a store is the sequence of its pairs, each key and value
/// taken by its own view.
#[derive(Debug)]
pub struct KeyValueStore<K: Key, V: View> {
    data: Vec<(K, V)>,
}

impl<K: Key, V: View> View for KeyValueStore<K, V> {
    type V = Seq<(K::V, V::V)>;

    closed spec fn view(&self) -> Seq<(K::V, V::V)> {
        pairs_of(self.data@)
    }
}

impl<K: Key, V: View> KeyValueStore<K, V> {
    #[verifier::type_invariant]
    spec fn keys_are_unique(self) -> bool {
        unique_keys(self@)
    }

    /// An empty store.
    pub fn new() -> (s: Self)
        ensures
            s@ == Seq::<(K::V, V::V)>::empty(),
            unique_keys(s@),
    {
        let s = KeyValueStore { data: Vec::new() };
        assert(s@ =~= Seq::<(K::V, V::V)>::empty());
        s
    }

    /// The number of pairs in the store.
    pub fn len(&self) -> (n: usize)
        ensures
            n == self@.len(),
            unique_keys(self@),
    {
        proof {
            use_type_invariant(self);
        }
        self.data.len()
    }

    /// Moves the pairs out of the store and leaves it empty.
    fn take_data(&mut self) -> (data: Vec<(K, V)>)
        ensures
            pairs_of(data@) == old(self)@,
            final(self)@.len() == 0,
    {
        let mut data: Vec<(K, V)> = Vec::new();
        core::mem::swap(&mut self.data, &mut data);
        data
    }

    /// The position of the pair stored under `key`.
    fn position(&self, key: &K) -> (r: Option<usize>)
        ensures
            match r {
                Some(i) => find(self@, key@) == Some(i as int) && i < self.data@.len(),
                None => find(self@, key@) is None,
            },
    {
        let mut i: usize = 0;
        while i < self.data.len()
            invariant
                i <= self.data@.len(),
                self@.len() == self.data@.len(),
                find(self@, key@) == find_from(self@, key@, i as int),
            decreases self.data@.len() - i,
        {
            if self.data[i].0.same(key) {
                return Some(i);
            }
            i += 1;
        }
        None
    }

    /// Stores `value` under `key`: a key that is present keeps its place and
    /// takes the new value, a new key goes to the end.
    pub fn insert(&mut self, key: K, value: V)
        ensures
            final(self)@ == inserted(old(self)@, key@, value@),
            unique_keys(final(self)@),
    {
        proof {
            use_type_invariant(&*self);
            lemma_find(self@, key@);
        }
        let found = self.position(&key);
        let mut data = self.take_data();
        match found {
            Some(i) => {
                data.set(i, (key, value));
            },
            None => {
                data.push((key, value));
            },
        }
        proof {
            lemma_inserted_unique(old(self)@, key@, value@);
            assert(pairs_of(data@) =~= inserted(old(self)@, key@, value@));
        }
        self.data = data;
    }

    /// Deletes the pair stored under `key`; a key that is absent leaves the
    /// store as it is.
    pub fn remove(&mut self, key: K)
        ensures
            final(self)@ == removed(old(self)@, key@),
            !has_key(old(self)@, key@) ==> final(self)@ == old(self)@,
            unique_keys(final(self)@),
    {
        proof {
            use_type_invariant(&*self);
            lemma_find(self@, key@);
        }
        let found = self.position(&key);
        let mut data = self.take_data();
        match found {
            Some(i) => {
                data.remove(i);
            },
            None => {},
        }
        proof {
            lemma_removed_unique(old(self)@, key@);
            assert(pairs_of(data@) =~= removed(old(self)@, key@));
        }
        self.data = data;
    }

    /// The value stored under `key`, if there is one.
    pub fn get(&self, key: K) -> (r: Option<&V>)
        ensures
            match r {
                Some(v) => lookup(self@, key@) == Some(v@),
                None => lookup(self@, key@) is None,
            },
            unique_keys(self@),
    {
        proof {
            use_type_invariant(self);
        }
        match self.position(&key) {
            Some(i) => Some(&self.data[i].1),
            None => None,
        }
    }
}

impl<K: Key + Text, V: Text> KeyValueStore<K, V> {
    /// Writes the pairs of the store, in their order, as a snapshot.
    pub fn serialize(&self) -> (s: String)
        ensures
            s@ == encode::<K, V>(self@),
            unique_keys(self@),
    {
        proof {
            use_type_invariant(self);
        }
        let mut buf = String::new();
        let mut i: usize = 0;
        assert(self@.take(0) =~= Seq::<(K::V, V::V)>::empty());
        while i < self.data.len()
            invariant
                i <= self.data@.len(),
                self@ == pairs_of(self.data@),
                buf@ == encode::<K, V>(self@.take(i as int)),
            decreases self.data@.len() - i,
        {
            let ghost before = buf@;
            if i > 0 {
                buf.push(';');
            }
            let key_text = self.data[i].0.to_text();
            push_escaped(&mut buf, key_text.as_str());
            buf.push(',');
            let value_text = self.data[i].1.to_text();
            push_escaped(&mut buf, value_text.as_str());
            proof {
                let done = self@.take(i as int);
                let now = self@.take(i + 1);
                let written = record::<K, V>(self@[i as int]);
                assert(now.drop_last() =~= done);
                assert(now.last() == self@[i as int]);
                if i == 0 {
                    assert(buf@ =~= written);
                } else {
                    assert(buf@ =~= before + seq![';'] + written);
                }
            }
            i += 1;
        }
        assert(self@.take(self.data@.len() as int) =~= self@);
        buf
    }

    /// Reads a snapshot: the store that its pairs make when they are stored
    /// one after another, or the first fault in the text.
    pub fn deserialize(s: &str) -> (r: Result<Self, ParseError>)
        ensures
            match r {
                Ok(store) => decode::<K, V>(s@) == Ok::<Seq<(K::V, V::V)>, ParseError>(store@)
                    && unique_keys(store@),
                Err(e) => decode::<K, V>(s@) == Err::<Seq<(K::V, V::V)>, ParseError>(e),
            },
    {
        let chars = chars_of(s);
        let mut store: Self = Self::new();
        if chars.len() == 0 {
            return Ok(store);
        }
        let mut pos: usize = 0;
        assert(chars@.skip(0) =~= chars@);
        loop
            invariant
                pos <= chars.len(),
                chars@ == s@,
                chars@.len() > 0,
                unique_keys(store@),
                decode::<K, V>(s@) == decode_records::<K, V>(chars@.skip(pos as int), store@),
            decreases chars.len() - pos,
        {
            let ghost here = chars@.skip(pos as int);
            let (key_text, key_stop, value_at) = read_field_at(&chars, pos);
            if let Stop::Broken = key_stop {
                return Err(ParseError::Malformed);
            }
            let key = match K::from_text(key_text.as_str()) {
                Some(key) => key,
                None => {
                    return Err(ParseError::Key);
                },
            };
            match key_stop {
                Stop::Comma => {},
                _ => {
                    return Err(ParseError::Malformed);
                },
            }
            let (value_text, value_stop, next) = read_field_at(&chars, value_at);
            if let Stop::Broken = value_stop {
                return Err(ParseError::Malformed);
            }
            let value = match V::from_text(value_text.as_str()) {
                Some(value) => value,
                None => {
                    return Err(ParseError::Value);
                },
            };
            proof {
                lemma_read_field_rest(here);
                lemma_read_field_rest(read_field(here).rest);
            }
            match value_stop {
                Stop::Comma => {
                    return Err(ParseError::Malformed);
                },
                Stop::End => {
                    store.insert(key, value);
                    return Ok(store);
                },
                _ => {
                    store.insert(key, value);
                    pos = next;
                },
            }
        }
    }
}

impl<K: Key + Text, V: Text> core::str::FromStr for KeyValueStore<K, V> {
    type Err = ParseError;

    /// Reads a snapshot, as `deserialize` does.
    fn from_str(s: &str) -> (r: Result<Self, ParseError>)
        ensures
            match r {
                Ok(store) => decode::<K, V>(s@) == Ok::<Seq<(K::V, V::V)>, ParseError>(store@)
                    && unique_keys(store@),
                Err(e) => decode::<K, V>(s@) == Err::<Seq<(K::V, V::V)>, ParseError>(e),
            },
    {
        Self::deserialize(s)
    }
}

} // verus!
