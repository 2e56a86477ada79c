//! The content-addressed store: exact bytes, kept under the hash of the bytes.
use crate::hash::{content_key, ContentHash};
use vstd::prelude::*;

verus! {

/// What a store holds after `bytes` were put into one that held `objects`: a
/// key that is there already keeps what it has.
pub open spec fn stored(objects: Map<Seq<char>, Seq<u8>>, bytes: Seq<u8>) -> Map<
    Seq<char>,
    Seq<u8>,
> {
    if objects.dom().contains(content_key(bytes)) {
        objects
    } else {
        objects.insert(content_key(bytes), bytes)
    }
}

/// A byte-faithful content-addressed store.
pub trait Cas {
    /// The bytes that the store returns for each key it knows. Only a store
    /// that is itself verified has to say what they are.
    open spec fn objects(&self) -> Map<Seq<char>, Seq<u8>> {
        arbitrary()
    }

    /// Stores `bytes` and returns their content hash. Storing the same bytes
    /// again gives the same hash and changes nothing.
    fn put(&mut self, bytes: &[u8]) -> (hash: ContentHash)
        ensures
            hash@ == content_key(bytes@),
            final(self).objects() == stored(old(self).objects(), bytes@),
    ;

    /// The bytes kept under `hash`, if any.
    fn get(&self, hash: &ContentHash) -> (bytes: Option<Vec<u8>>)
        ensures
            match bytes {
                Some(b) => self.objects().dom().contains(hash@) && b@ == self.objects()[hash@],
                None => !self.objects().dom().contains(hash@),
            },
    ;

    /// Whether `hash` is present.
    fn contains(&self, hash: &ContentHash) -> (present: bool)
        ensures
            present == self.objects().dom().contains(hash@),
    {
        self.get(hash).is_some()
    }

    /// The number of distinct objects.
    fn len(&self) -> (n: usize)
        ensures
            self.objects().dom().finite(),
            n == self.objects().dom().len(),
    ;

    /// Whether the store holds nothing.
    fn is_empty(&self) -> (empty: bool)
        ensures
            self.objects().dom().finite(),
            empty == (self.objects().dom().len() == 0),
    {
        self.len() == 0
    }
}

/// The in-memory store.
pub struct MemoryCas {
    entries: Vec<(ContentHash, Vec<u8>)>,
}

spec fn distinct(entries: Seq<(ContentHash, Vec<u8>)>) -> bool {
    forall|i: int, j: int|
        0 <= i < j < entries.len() ==> (#[trigger] entries[i]).0@ != (#[trigger] entries[j]).0@
}

spec fn contents(entries: Seq<(ContentHash, Vec<u8>)>) -> Map<Seq<char>, Seq<u8>>
    decreases entries.len(),
{
    if entries.len() == 0 {
        Map::empty()
    } else {
        contents(entries.drop_last()).insert(entries.last().0@, entries.last().1@)
    }
}

proof fn lemma_contents_hit(entries: Seq<(ContentHash, Vec<u8>)>, i: int)
    requires
        distinct(entries),
        0 <= i < entries.len(),
    ensures
        contents(entries).dom().contains(entries[i].0@),
        contents(entries)[entries[i].0@] == entries[i].1@,
    decreases entries.len(),
{
    if i < entries.len() - 1 {
        let before = entries.drop_last();
        lemma_contents_hit(before, i);
        assert(before[i] == entries[i]);
        assert(entries[i].0@ != entries[entries.len() - 1].0@);
    }
}

proof fn lemma_contents_miss(entries: Seq<(ContentHash, Vec<u8>)>, key: Seq<char>)
    requires
        forall|i: int| 0 <= i < entries.len() ==> (#[trigger] entries[i]).0@ != key,
    ensures
        !contents(entries).dom().contains(key),
    decreases entries.len(),
{
    if entries.len() > 0 {
        assert forall|i: int| 0 <= i < entries.drop_last().len() implies (
        #[trigger] entries.drop_last()[i]).0@ != key by {
            assert(entries.drop_last()[i] == entries[i]);
        }
        lemma_contents_miss(entries.drop_last(), key);
        assert(entries[entries.len() - 1].0@ != key);
    }
}

proof fn lemma_contents_len(entries: Seq<(ContentHash, Vec<u8>)>)
    requires
        distinct(entries),
    ensures
        contents(entries).dom().finite(),
        contents(entries).dom().len() == entries.len(),
    decreases entries.len(),
{
    if entries.len() > 0 {
        let before = entries.drop_last();
        lemma_contents_len(before);
        assert forall|i: int| 0 <= i < before.len() implies (#[trigger] before[i]).0@
            != entries.last().0@ by {
            assert(before[i] == entries[i]);
        }
        lemma_contents_miss(before, entries.last().0@);
        assert(contents(entries).dom() =~= contents(before).dom().insert(entries.last().0@));
    } else {
        assert(contents(entries).dom() =~= Set::empty());
    }
}

impl MemoryCas {
    #[verifier::type_invariant]
    closed spec fn valid(self) -> bool {
        distinct(self.entries@)
    }

    /// An empty store.
    pub fn new() -> (store: Self)
        ensures
            store.objects() == Map::<Seq<char>, Seq<u8>>::empty(),
    {
        MemoryCas { entries: Vec::new() }
    }

    /// The position of `hash` among the entries; their number where it is not.
    fn position(&self, hash: &ContentHash) -> (at: usize)
        ensures
            at <= self.entries@.len(),
            at < self.entries@.len() ==> self.entries@[at as int].0@ == hash@,
            forall|k: int| 0 <= k < at ==> (#[trigger] self.entries@[k]).0@ != hash@,
    {
        let mut i: usize = 0;
        while i < self.entries.len()
            invariant
                i <= self.entries@.len(),
                forall|k: int| 0 <= k < i ==> (#[trigger] self.entries@[k]).0@ != hash@,
            decreases self.entries@.len() - i,
        {
            if self.entries[i].0.same(hash) {
                return i;
            }
            i += 1;
        }
        i
    }
}

/// The length of all bytes in the first `n` entries.
spec fn entry_bytes(entries: Seq<(ContentHash, Vec<u8>)>, n: nat) -> nat
    decreases n,
{
    if n == 0 {
        0
    } else {
        entry_bytes(entries, (n - 1) as nat) + entries[n - 1].1@.len()
    }
}

/// The length of all bytes that a store holds.
pub open spec fn object_bytes(objects: Map<Seq<char>, Seq<u8>>) -> nat
    decreases objects.dom().len(),
{
    if objects.dom().finite() && objects.dom().len() > 0 {
        let key = objects.dom().choose();
        objects[key].len() + object_bytes(objects.remove(key))
    } else {
        0
    }
}

proof fn lemma_object_bytes_remove(objects: Map<Seq<char>, Seq<u8>>, key: Seq<char>)
    requires
        objects.dom().finite(),
        objects.dom().contains(key),
    ensures
        object_bytes(objects) == objects[key].len() + object_bytes(objects.remove(key)),
    decreases objects.dom().len(),
{
    let first = objects.dom().choose();
    if first != key {
        lemma_object_bytes_remove(objects.remove(first), key);
        lemma_object_bytes_remove(objects.remove(key), first);
        assert(objects.remove(first).remove(key) =~= objects.remove(key).remove(first));
    }
}

/// New bytes add their length to what a store holds.
pub proof fn law_new_bytes_add_their_length(objects: Map<Seq<char>, Seq<u8>>, bytes: Seq<u8>)
    requires
        objects.dom().finite(),
    ensures
        object_bytes(stored(objects, bytes)) == object_bytes(objects) + if objects.dom().contains(
            content_key(bytes),
        ) {
            0
        } else {
            bytes.len()
        },
{
    let key = content_key(bytes);
    if !objects.dom().contains(key) {
        lemma_object_bytes_remove(stored(objects, bytes), key);
        assert(stored(objects, bytes).remove(key) =~= objects);
    }
}

proof fn lemma_contents_bytes(entries: Seq<(ContentHash, Vec<u8>)>)
    requires
        distinct(entries),
    ensures
        object_bytes(contents(entries)) == entry_bytes(entries, entries.len()),
    decreases entries.len(),
{
    lemma_contents_len(entries);
    if entries.len() > 0 {
        let before = entries.drop_last();
        let key = entries.last().0@;
        lemma_contents_bytes(before);
        assert forall|i: int| 0 <= i < before.len() implies (#[trigger] before[i]).0@ != key by {
            assert(before[i] == entries[i]);
        }
        lemma_contents_miss(before, key);
        lemma_object_bytes_remove(contents(entries), key);
        assert(contents(entries).remove(key) =~= contents(before));
        lemma_entry_bytes_same(before, entries, before.len());
    }
}

proof fn lemma_entry_bytes_same(
    a: Seq<(ContentHash, Vec<u8>)>,
    b: Seq<(ContentHash, Vec<u8>)>,
    n: nat,
)
    requires
        n <= a.len(),
        n <= b.len(),
        forall|i: int| 0 <= i < n ==> a[i] == b[i],
    ensures
        entry_bytes(a, n) == entry_bytes(b, n),
    decreases n,
{
    if n > 0 {
        lemma_entry_bytes_same(a, b, (n - 1) as nat);
    }
}

impl MemoryCas {
    /// The length of all bytes in the store.
    pub fn mem_bytes(&self) -> (n: u128)
        ensures
            n == object_bytes(self.objects()),
    {
        proof {
            use_type_invariant(self);
            lemma_contents_bytes(self.entries@);
        }
        let mut n: u128 = 0;
        let mut i: usize = 0;
        while i < self.entries.len()
            invariant
                i <= self.entries@.len(),
                n == entry_bytes(self.entries@, i as nat),
                n <= i * 0xffff_ffff_ffff_ffff,
            decreases self.entries@.len() - i,
        {
            let len: usize = self.entries[i].1.len();
            assert((i + 1) * 0xffff_ffff_ffff_ffff == i * 0xffff_ffff_ffff_ffff
                + 0xffff_ffff_ffff_ffff) by (nonlinear_arith);
            assert(n + len <= 0xffff_ffff_ffff_ffff_ffff_ffff_ffff_ffff) by (nonlinear_arith)
                requires
                    n <= i * 0xffff_ffff_ffff_ffff,
                    i <= 0xffff_ffff_ffff_ffff,
                    len <= 0xffff_ffff_ffff_ffff,
            ;
            n = n + len as u128;
            i += 1;
        }
        n
    }
}

impl Default for MemoryCas {
    fn default() -> (store: Self)
        ensures
            store.objects() == Map::<Seq<char>, Seq<u8>>::empty(),
    {
        MemoryCas::new()
    }
}

impl Cas for MemoryCas {
    closed spec fn objects(&self) -> Map<Seq<char>, Seq<u8>> {
        contents(self.entries@)
    }

    fn put(&mut self, bytes: &[u8]) -> (hash: ContentHash) {
        proof {
            use_type_invariant(&*self);
        }
        let hash = ContentHash::of(bytes);
        let at = self.position(&hash);
        if at < self.entries.len() {
            proof {
                lemma_contents_hit(self.entries@, at as int);
            }
        } else {
            let ghost before = self.entries@;
            proof {
                lemma_contents_miss(self.entries@, hash@);
            }
            let copy = vstd::slice::slice_to_vec(bytes);
            let key = hash.clone();
            assert(distinct(before.push((key, copy)))) by {
                let after = before.push((key, copy));
                assert forall|i: int, j: int| 0 <= i < j < after.len() implies (
                #[trigger] after[i]).0@ != (#[trigger] after[j]).0@ by {
                    assert(after[i] == before[i]);
                }
            }
            let mut held = MemoryCas { entries: Vec::new() };
            std::mem::swap(self, &mut held);
            let mut entries = held.entries;
            entries.push((key, copy));
            *self = MemoryCas { entries };
            assert(self.entries@.drop_last() =~= before);
        }
        hash
    }

    fn get(&self, hash: &ContentHash) -> (bytes: Option<Vec<u8>>) {
        proof {
            use_type_invariant(self);
        }
        let at = self.position(hash);
        if at < self.entries.len() {
            proof {
                lemma_contents_hit(self.entries@, at as int);
            }
            Some(vstd::slice::slice_to_vec(&self.entries[at].1))
        } else {
            proof {
                lemma_contents_miss(self.entries@, hash@);
            }
            None
        }
    }

    fn len(&self) -> (n: usize) {
        proof {
            use_type_invariant(self);
            lemma_contents_len(self.entries@);
        }
        self.entries.len()
    }
}

/// Putting bytes makes them readable under their key, unless the key was there;
/// every other key is as it was.
pub proof fn law_put(objects: Map<Seq<char>, Seq<u8>>, bytes: Seq<u8>, key: Seq<char>)
    ensures
        stored(objects, bytes).dom().contains(content_key(bytes)),
        stored(objects, bytes)[content_key(bytes)] == (if objects.dom().contains(
            content_key(bytes),
        ) {
            objects[content_key(bytes)]
        } else {
            bytes
        }),
        key != content_key(bytes) ==> (stored(objects, bytes).dom().contains(key)
            <==> objects.dom().contains(key)) && stored(objects, bytes)[key] == objects[key],
{
}

} // verus!
