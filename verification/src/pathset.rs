//! An ordered set of files: each file is kept once, under the path by
//! which it was first put in, and is found again by its key through a
//! hash of the key's text.

use crate::text::{same_text, texts};
use std::collections::HashMap;
use vstd::prelude::*;
use vstd::string::{StringExecFns, StringSliceAdditionalSpecFns};
use vstd::utf8::encode_utf8;

verus! {

/// A file that was found: the path by which it was reached, and the key
/// that tells it from every other file.
pub struct Found {
    pub path: Seq<char>,
    pub key: Seq<char>,
}

/// Whether a list holds a file with the given key.
pub open spec fn holds_key(items: Seq<Found>, key: Seq<char>) -> bool {
    exists|i: int| 0 <= i < items.len() && (#[trigger] items[i]).key == key
}

/// A list with one more file taken in, unless it holds a file with the
/// same key already.
pub open spec fn taking(items: Seq<Found>, item: Found) -> Seq<Found> {
    if holds_key(items, item.key) {
        items
    } else {
        items.push(item)
    }
}

/// The paths of a list of files.
pub open spec fn paths_of(items: Seq<Found>) -> Seq<Seq<char>> {
    Seq::new(items.len(), |i: int| items[i].path)
}

/// The keys of a list of files.
pub open spec fn keys_of(items: Seq<Found>) -> Seq<Seq<char>> {
    Seq::new(items.len(), |i: int| items[i].key)
}

/// One more byte worked into a hash.
spec fn mixed(hash: u64, byte: u8) -> u64 {
    (hash ^ (byte as u64)).wrapping_mul(0x0000_0100_0000_01b3)
}

/// The hash of a string of bytes.
spec fn hash_of_bytes(bytes: Seq<u8>) -> u64
    decreases bytes.len(),
{
    if bytes.len() == 0 {
        0xcbf2_9ce4_8422_2325
    } else {
        mixed(hash_of_bytes(bytes.drop_last()), bytes.last())
    }
}

/// The hash of a text: that of its UTF-8 encoding.
spec fn hash_of(text: Seq<char>) -> u64 {
    hash_of_bytes(encode_utf8(text))
}

/// Computes the hash of a text.
fn hash_text(text: &str) -> (hash: u64)
    ensures
        hash == hash_of(text@),
{
    let bytes = text.as_bytes();
    let mut hash: u64 = 0xcbf2_9ce4_8422_2325;
    let mut k: usize = 0;
    while k < bytes.len()
        invariant
            k <= bytes.len(),
            bytes@ == text.spec_bytes(),
            hash == hash_of_bytes(bytes@.take(k as int)),
        decreases bytes.len() - k,
    {
        assert(bytes@.take(k + 1).drop_last() =~= bytes@.take(k as int));
        hash = (hash ^ (bytes[k] as u64)).wrapping_mul(0x0000_0100_0000_01b3);
        k += 1;
    }
    assert(bytes@.take(k as int) =~= bytes@);
    hash
}

/// Files in the order in which they were first put in, none twice.
#[derive(Debug)]
pub struct PathSet {
    keys: Vec<String>,
    paths: Vec<String>,
    index: HashMap<u64, Vec<usize>>,
}

impl View for PathSet {
    type V = Seq<Found>;

    closed spec fn view(&self) -> Seq<Found> {
        Seq::new(
            self.keys@.len(),
            |i: int| Found { path: self.paths@[i]@, key: self.keys@[i]@ },
        )
    }
}

/// Whether every path of the list is entered in the index under its hash.
#[verifier::opaque]
spec fn indexed(files: Seq<String>, index: Map<u64, Vec<usize>>) -> bool {
    forall|i: int|
        0 <= i < files.len() ==> {
            let hash = hash_of(#[trigger] files[i]@);
            index.contains_key(hash) && index[hash]@.contains(i as usize)
        }
}

/// Whether the index holds positions in the list only, each under the
/// hash of the path that stands there.
#[verifier::opaque]
spec fn index_sound(files: Seq<String>, index: Map<u64, Vec<usize>>) -> bool {
    forall|hash: u64, j: int|
        index.contains_key(hash) && 0 <= j < index[hash]@.len() ==> {
            let i = #[trigger] index[hash]@[j];
            i < files.len() && hash_of(files[i as int]@) == hash
        }
}

/// A path that is in the list is entered under its hash.
proof fn lemma_entered(files: Seq<String>, index: Map<u64, Vec<usize>>, i: int)
    requires
        indexed(files, index),
        0 <= i < files.len() <= usize::MAX,
    ensures
        index.contains_key(hash_of(files[i]@)),
        exists|k: int|
            0 <= k < index[hash_of(files[i]@)]@.len() && #[trigger] index[hash_of(
                files[i]@,
            )]@[k] == i,
{
    reveal(indexed);
    let hash = hash_of(files[i]@);
    let k = choose|k: int| 0 <= k < index[hash]@.len() && index[hash]@[k] == i as usize;
    assert(index[hash]@[k] == i);
}

/// What is entered under a hash is the position of a path with that hash.
proof fn lemma_entry(files: Seq<String>, index: Map<u64, Vec<usize>>, hash: u64, j: int)
    requires
        index_sound(files, index),
        index.contains_key(hash),
        0 <= j < index[hash]@.len(),
    ensures
        index[hash]@[j] < files.len(),
        hash_of(files[index[hash]@[j] as int]@) == hash,
{
    reveal(index_sound);
}

/// The index stays in order when a path that the list does not hold is
/// put at the end of the list and entered under its hash.
proof fn lemma_entering(
    files: Seq<String>,
    index: Map<u64, Vec<usize>>,
    path: String,
    bucket: Vec<usize>,
)
    requires
        indexed(files, index),
        index_sound(files, index),
        bucket@ == if index.contains_key(hash_of(path@)) {
            index[hash_of(path@)]@.push(files.len() as usize)
        } else {
            seq![files.len() as usize]
        },
        files.len() <= usize::MAX,
    ensures
        indexed(files.push(path), index.insert(hash_of(path@), bucket)),
        index_sound(files.push(path), index.insert(hash_of(path@), bucket)),
{
    let hash = hash_of(path@);
    let at = files.len() as int;
    let longer = files.push(path);
    let wider = index.insert(hash, bucket);
    assert forall|i: int| 0 <= i < longer.len() implies {
        let h = hash_of(#[trigger] longer[i]@);
        wider.contains_key(h) && wider[h]@.contains(i as usize)
    } by {
        let h = hash_of(longer[i]@);
        if i < at {
            lemma_entered(files, index, i);
            let k = choose|k: int| 0 <= k < index[h]@.len() && #[trigger] index[h]@[k] == i;
            if h == hash {
                assert(bucket@[k] == i as usize);
            } else {
                assert(wider[h]@[k] == i as usize);
            }
        } else {
            assert(bucket@[bucket@.len() - 1] == at as usize);
        }
    }
    assert forall|h: u64, j: int| wider.contains_key(h) && 0 <= j < wider[h]@.len() implies {
        let i = #[trigger] wider[h]@[j];
        i < longer.len() && hash_of(longer[i as int]@) == h
    } by {
        if h == hash {
            if index.contains_key(hash) && j < index[hash]@.len() {
                lemma_entry(files, index, hash, j);
            }
        } else {
            lemma_entry(files, index, h, j);
        }
    }
    reveal(indexed);
    reveal(index_sound);
}

impl PathSet {
    /// Whether the set is in order: no key is held twice, every key has
    /// its path, and the index agrees with the list.
    pub closed spec fn wf(&self) -> bool {
        &&& self.paths@.len() == self.keys@.len()
        &&& texts(self.keys@).no_duplicates()
        &&& indexed(self.keys@, self.index@)
        &&& index_sound(self.keys@, self.index@)
    }

    /// Holding a key is holding it in the list of keys.
    proof fn lemma_keys(&self, key: Seq<char>)
        ensures
            holds_key(self@, key) <==> texts(self.keys@).contains(key),
            keys_of(self@) == texts(self.keys@),
    {
        let keys = texts(self.keys@);
        if holds_key(self@, key) {
            let i = choose|i: int| 0 <= i < self@.len() && (#[trigger] self@[i]).key == key;
            assert(keys[i] == key);
        }
        if keys.contains(key) {
            let i = choose|i: int| 0 <= i < keys.len() && keys[i] == key;
            assert(self@[i].key == key);
        }
        assert(keys_of(self@) =~= keys);
    }

    /// A set that holds nothing.
    pub fn new() -> (set: PathSet)
        ensures
            set.wf(),
            set@ == Seq::<Found>::empty(),
    {
        let set = PathSet { keys: Vec::new(), paths: Vec::new(), index: HashMap::new() };
        proof {
            reveal(indexed);
            reveal(index_sound);
            assert(set@ =~= Seq::<Found>::empty());
        }
        set
    }

    /// Whether the set holds a file with the given key.
    pub fn contains(&self, key: &str) -> (held: bool)
        requires
            self.wf(),
        ensures
            held == holds_key(self@, key@),
    {
        broadcast use vstd::std_specs::hash::group_hash_axioms;

        let hash = hash_text(key);
        let ghost held_keys = texts(self.keys@);
        let count = self.keys.len();
        proof {
            self.lemma_keys(key@);
        }
        match self.index.get(&hash) {
            None => {
                assert(!held_keys.contains(key@)) by {
                    if held_keys.contains(key@) {
                        let i = choose|i: int| 0 <= i < held_keys.len() && held_keys[i] == key@;
                        lemma_entered(self.keys@, self.index@, i);
                    }
                }
                false
            },
            Some(bucket) => {
                let mut j: usize = 0;
                while j < bucket.len()
                    invariant
                        holds_key(self@, key@) <==> held_keys.contains(key@),
                        count == self.keys@.len(),
                        index_sound(self.keys@, self.index@),
                        held_keys == texts(self.keys@),
                        self.index@.contains_key(hash),
                        *bucket == self.index@[hash],
                        j <= bucket.len(),
                        forall|k: int|
                            0 <= k < j ==> held_keys[(#[trigger] bucket@[k]) as int] != key@,
                    decreases bucket.len() - j,
                {
                    let i = bucket[j];
                    proof {
                        lemma_entry(self.keys@, self.index@, hash, j as int);
                    }
                    if same_text(self.keys[i].as_str(), key) {
                        assert(held_keys[i as int] == key@);
                        return true;
                    }
                    j += 1;
                }
                assert(!held_keys.contains(key@)) by {
                    if held_keys.contains(key@) {
                        let i = choose|i: int| 0 <= i < held_keys.len() && held_keys[i] == key@;
                        lemma_entered(self.keys@, self.index@, i);
                        let k = choose|k: int|
                            0 <= k < bucket@.len() && #[trigger] bucket@[k] == i;
                        assert(held_keys[bucket@[k] as int] != key@);
                    }
                }
                false
            },
        }
    }

    /// Takes a file in under the given path, unless a file with the same
    /// key is held already.
    pub fn insert(&mut self, key: &str, path: &str)
        requires
            old(self).wf(),
        ensures
            final(self).wf(),
            final(self)@ == taking(old(self)@, Found { path: path@, key: key@ }),
    {
        broadcast use vstd::std_specs::hash::group_hash_axioms;

        if self.contains(key) {
            return ;
        }
        let ghost before = *self;
        let hash = hash_text(key);
        let at = self.keys.len();
        let mut bucket = match self.index.remove(&hash) {
            Some(bucket) => bucket,
            None => Vec::new(),
        };
        bucket.push(at);
        let owned = String::from_str(key);
        proof {
            before.lemma_keys(key@);
            lemma_entering(before.keys@, before.index@, owned, bucket);
        }
        self.keys.push(owned);
        self.paths.push(String::from_str(path));
        self.index.insert(hash, bucket);
        proof {
            assert(texts(self.keys@) =~= texts(before.keys@).push(key@));
            assert(self.index@ =~= before.index@.insert(hash, bucket));
            assert(self@ =~= before@.push(Found { path: path@, key: key@ }));
        }
    }

    /// The paths of the files, in the order in which they were first put
    /// in.
    pub fn into_vec(self) -> (files: Vec<String>)
        requires
            self.wf(),
        ensures
            texts(files@) == paths_of(self@),
            keys_of(self@).no_duplicates(),
    {
        proof {
            self.lemma_keys(Seq::empty());
            assert(texts(self.paths@) =~= paths_of(self@));
        }
        self.paths
    }
}

} // verus!
