//! The bounded store: an ordered collection of records with a capacity.

use crate::codec::{
    decode, decoding, encodable, encode, encoding, is_encoding_of, lemma_round_trip,
};
use crate::contents::{
    distinct_keys, has_key, hydrated, inserted, keys, lemma_hydrated_keys_distinct,
    lemma_hydrated_of_distinct_keys, lemma_lookup_at, lemma_put_properties,
    lemma_trimmed_properties, lemma_without_absent_key, lemma_without_present_key, lookup, put,
    trimmed,
};
use crate::error::StoreError;
use crate::record::{views, Paste, PasteView};
use crate::text::{same_text, text_views};
use std::collections::VecDeque;
use vstd::prelude::*;

verus! {

/// A store of records in insertion order, oldest first.
pub struct Store {
    entries: VecDeque<Paste>,
    max_entries: usize,
}

impl View for Store {
    type V = Seq<PasteView>;

    closed spec fn view(&self) -> Seq<PasteView> {
        views(self.entries@)
    }
}

/// What a store holds when it starts from the outcome of reading its
/// snapshot: the records of the snapshot, rebuilt in their order, where the
/// read gave bytes that are a snapshot, and nothing otherwise.
pub open spec fn initial_contents(loaded: Result<Seq<u8>, StoreError>) -> Seq<PasteView> {
    match loaded {
        Ok(bytes) => match decoding(bytes) {
            Some(s) => hydrated(s),
            None => Seq::empty(),
        },
        Err(_) => Seq::empty(),
    }
}

/// The error from which a store recovered when it started: that of the
/// read, or that the bytes read are no snapshot.
pub open spec fn recovered_error(loaded: Result<Seq<u8>, StoreError>) -> Option<StoreError> {
    match loaded {
        Ok(bytes) => if decoding(bytes) is Some {
            None
        } else {
            Some(StoreError::CorruptSnapshot)
        },
        Err(e) => Some(e),
    }
}

/// The outcome of a read, with the bytes as a sequence.
pub open spec fn loaded_view(loaded: Result<Vec<u8>, StoreError>) -> Result<Seq<u8>, StoreError> {
    match loaded {
        Ok(bytes) => Ok(bytes@),
        Err(e) => Err(e),
    }
}

/// The place of the record with the key `key`, if there is one.
fn find(entries: &VecDeque<Paste>, key: &str) -> (found: Option<usize>)
    ensures
        match found {
            Some(i) => i < entries@.len() && entries@[i as int]@.title == key@,
            None => !has_key(views(entries@), key@),
        },
{
    let mut i: usize = 0;
    while i < entries.len()
        invariant
            i <= entries@.len(),
            forall|k: int| 0 <= k < i ==> (#[trigger] views(entries@)[k]).title != key@,
        decreases entries@.len() - i,
    {
        if same_text(entries[i].title.as_str(), key) {
            return Some(i);
        }
        i += 1;
    }
    None
}

/// Puts `paste` at the newest end, after removing a record with its key.
fn put_entry(entries: &mut VecDeque<Paste>, paste: Paste)
    requires
        distinct_keys(views(old(entries)@)),
    ensures
        views(final(entries)@) == put(views(old(entries)@), paste@),
{
    let ghost before = views(entries@);
    match find(entries, paste.title.as_str()) {
        Some(i) => {
            entries.remove(i);
            proof {
                lemma_without_present_key(before, i as int);
                assert(views(entries@) =~= before.remove(i as int));
            }
        },
        None => {
            proof {
                lemma_without_absent_key(before, paste@.title);
            }
        },
    }
    let ghost between = views(entries@);
    entries.push_back(paste);
    proof {
        assert(views(entries@) =~= between.push(paste@));
    }
}

/// Removes records from the front until no more than `max_entries` are left.
fn evict_oldest(entries: &mut VecDeque<Paste>, max_entries: usize)
    ensures
        views(final(entries)@) == trimmed(views(old(entries)@), max_entries as nat),
{
    while entries.len() > max_entries
        invariant
            trimmed(views(entries@), max_entries as nat) == trimmed(
                views(old(entries)@),
                max_entries as nat,
            ),
        decreases entries.len(),
    {
        let ghost before = views(entries@);
        entries.pop_front();
        proof {
            assert(views(entries@) =~= before.skip(1));
            assert(trimmed(views(entries@), max_entries as nat) =~= trimmed(
                before,
                max_entries as nat,
            ));
        }
    }
}

impl Store {
    /// The number of records the store retains before it evicts.
    pub closed spec fn capacity(&self) -> nat {
        self.max_entries as nat
    }

    /// What holds of every store: no key occurs twice, and the capacity is
    /// positive.
    #[verifier::type_invariant]
    pub open spec fn well_formed(&self) -> bool {
        &&& distinct_keys(self@)
        &&& self.capacity() > 0
    }

    /// An empty store that retains up to `max_entries` records.
    pub fn new(max_entries: usize) -> (store: Store)
        requires
            max_entries > 0,
        ensures
            store@ == Seq::<PasteView>::empty(),
            store.capacity() == max_entries,
    {
        Store { entries: VecDeque::new(), max_entries }
    }

    /// A store that holds the records of `pastes`, put in their order: of
    /// two records with one key the later stays. Nothing is evicted, so the
    /// store may start with more records than `max_entries`; the next
    /// insert brings it back within its capacity.
    pub fn hydrate(pastes: &[Paste], max_entries: usize) -> (store: Store)
        requires
            max_entries > 0,
        ensures
            store@ == hydrated(views(pastes@)),
            store.capacity() == max_entries,
    {
        let ghost all = views(pastes@);
        let mut entries: VecDeque<Paste> = VecDeque::new();
        let mut i: usize = 0;
        proof {
            assert(all.take(0) =~= Seq::empty());
        }
        while i < pastes.len()
            invariant
                i <= pastes@.len(),
                all == views(pastes@),
                views(entries@) == hydrated(all.take(i as int)),
            decreases pastes@.len() - i,
        {
            proof {
                lemma_hydrated_keys_distinct(all.take(i as int));
                assert(all.take(i + 1).drop_last() =~= all.take(i as int));
            }
            put_entry(&mut entries, pastes[i].clone());
            i += 1;
        }
        proof {
            assert(all.take(i as int) =~= all);
            lemma_hydrated_keys_distinct(all);
        }
        Store { entries, max_entries }
    }

    /// Starts a store from the outcome of reading its snapshot. Where the
    /// read gave the bytes of a snapshot, the store holds its records. Where
    /// the read failed, or the bytes are no snapshot, the store starts empty
    /// and the error is handed back beside it.
    pub fn initialize(loaded: Result<Vec<u8>, StoreError>, max_entries: usize) -> (started: (
        Store,
        Option<StoreError>,
    ))
        requires
            max_entries > 0,
        ensures
            started.0@ == initial_contents(loaded_view(loaded)),
            started.0.capacity() == max_entries,
            started.1 == recovered_error(loaded_view(loaded)),
    {
        match loaded {
            Ok(bytes) => match decode(bytes.as_slice()) {
                Ok(pastes) => (Store::hydrate(pastes.as_slice(), max_entries), None),
                Err(e) => (Store::new(max_entries), Some(e)),
            },
            Err(e) => (Store::new(max_entries), Some(e)),
        }
    }

    /// Stores `content` under `title` as the newest record. A record that
    /// had this key is replaced and loses its place; then the oldest records
    /// are evicted until no more than the capacity are left.
    pub fn insert(&mut self, title: String, content: Vec<u8>)
        ensures
            final(self)@ == inserted(
                old(self)@,
                PasteView { title: title@, content: content@ },
                old(self).capacity(),
            ),
            final(self).capacity() == old(self).capacity(),
            final(self)@.len() <= final(self).capacity(),
            lookup(final(self)@, title@) == Some(content@),
    {
        proof {
            use_type_invariant(&*self);
        }
        let ghost before = self@;
        let paste = Paste { title, content };
        let mut entries = VecDeque::new();
        std::mem::swap(&mut entries, &mut self.entries);
        put_entry(&mut entries, paste);
        evict_oldest(&mut entries, self.max_entries);
        proof {
            let after = views(entries@);
            lemma_put_properties(before, paste@);
            lemma_trimmed_properties(put(before, paste@), self.max_entries as nat);
            lemma_lookup_at(after, after.len() - 1);
        }
        self.entries = entries;
    }

    /// Removes the oldest records until no more than the capacity are left.
    pub fn evict(&mut self)
        ensures
            final(self)@ == trimmed(old(self)@, old(self).capacity()),
            final(self).capacity() == old(self).capacity(),
            final(self)@.len() <= final(self).capacity(),
    {
        proof {
            use_type_invariant(&*self);
            lemma_trimmed_properties(self@, self.max_entries as nat);
        }
        let mut entries = VecDeque::new();
        std::mem::swap(&mut entries, &mut self.entries);
        evict_oldest(&mut entries, self.max_entries);
        self.entries = entries;
    }

    /// A copy of the record stored under `title`, if there is one. The
    /// store is left as it was.
    pub fn get_paste_by_title(&self, title: &str) -> (found: Option<Paste>)
        ensures
            match found {
                Some(paste) => paste@.title == title@ && lookup(self@, title@) == Some(
                    paste@.content,
                ),
                None => !has_key(self@, title@),
            },
    {
        proof {
            use_type_invariant(self);
        }
        match find(&self.entries, title) {
            Some(i) => {
                proof {
                    lemma_lookup_at(self@, i as int);
                }
                Some(self.entries[i].clone())
            },
            None => None,
        }
    }

    /// The keys of all records, oldest first.
    pub fn list_keys(&self) -> (titles: Vec<String>)
        ensures
            text_views(titles@) == keys(self@),
    {
        let mut titles: Vec<String> = Vec::new();
        let mut i: usize = 0;
        while i < self.entries.len()
            invariant
                i <= self.entries@.len(),
                text_views(titles@) == keys(self@).take(i as int),
            decreases self.entries@.len() - i,
        {
            let ghost before = text_views(titles@);
            titles.push(self.entries[i].title.clone());
            proof {
                assert(text_views(titles@) =~= before.push(self.entries@[i as int].title@));
                assert(keys(self@).take(i + 1) =~= keys(self@).take(i as int).push(
                    self@[i as int].title,
                ));
            }
            i += 1;
        }
        proof {
            assert(keys(self@).take(i as int) =~= keys(self@));
        }
        titles
    }

    /// A copy of all records, oldest first.
    pub fn get_all_pastes(&self) -> (pastes: Vec<Paste>)
        ensures
            views(pastes@) == self@,
    {
        let mut pastes: Vec<Paste> = Vec::new();
        let mut i: usize = 0;
        while i < self.entries.len()
            invariant
                i <= self.entries@.len(),
                views(pastes@) == self@.take(i as int),
            decreases self.entries@.len() - i,
        {
            let ghost before = views(pastes@);
            pastes.push(self.entries[i].clone());
            proof {
                assert(views(pastes@) =~= before.push(self.entries@[i as int]@));
                assert(self@.take(i + 1) =~= self@.take(i as int).push(self@[i as int]));
            }
            i += 1;
        }
        proof {
            assert(self@.take(i as int) =~= self@);
        }
        pastes
    }

    /// The snapshot of what the store holds. A store that starts from it
    /// holds the same records in the same order.
    pub fn snapshot(&self) -> (bytes: Vec<u8>)
        ensures
            is_encoding_of(bytes@, self@),
            initial_contents(Ok(bytes@)) == self@,
    {
        proof {
            use_type_invariant(self);
        }
        let pastes = self.get_all_pastes();
        let bytes = encode(pastes.as_slice());
        proof {
            lemma_snapshot_reload(self@);
        }
        bytes
    }

    /// The number of records held.
    pub fn len(&self) -> (n: usize)
        ensures
            n == self@.len(),
    {
        self.entries.len()
    }

    /// Whether the store holds no record.
    pub fn is_empty(&self) -> (empty: bool)
        ensures
            empty == (self@.len() == 0),
    {
        self.entries.len() == 0
    }

    /// The number of records retained before eviction begins.
    pub fn max_entries(&self) -> (n: usize)
        ensures
            n == self.capacity(),
    {
        self.max_entries
    }
}

/// Reloading: a store that starts from its own snapshot holds what it held
/// when the snapshot was taken, in the same order.
pub proof fn lemma_snapshot_reload(s: Seq<PasteView>)
    requires
        distinct_keys(s),
        encodable(s),
    ensures
        initial_contents(Ok(encoding(s))) == s,
        recovered_error(Ok(encoding(s))) is None,
{
    lemma_round_trip(s);
    lemma_hydrated_of_distinct_keys(s);
}

/// Persistence: the snapshot taken after an insert holds the inserted
/// record. A store that starts from it finds the payload under the key.
pub proof fn lemma_snapshot_holds_insert(s: Seq<PasteView>, e: PasteView, capacity: nat)
    requires
        distinct_keys(s),
        capacity > 0,
        encodable(inserted(s, e, capacity)),
    ensures
        lookup(initial_contents(Ok(encoding(inserted(s, e, capacity)))), e.title) == Some(
            e.content,
        ),
{
    let after = inserted(s, e, capacity);
    lemma_put_properties(s, e);
    lemma_trimmed_properties(put(s, e), capacity);
    lemma_snapshot_reload(after);
    lemma_lookup_at(after, after.len() - 1);
}

/// Resilience: a store that starts from a failed read, or from bytes that
/// are no snapshot, starts empty, and a record inserted into it is then its
/// only record.
pub proof fn lemma_start_empty(
    loaded: Result<Seq<u8>, StoreError>,
    e: PasteView,
    capacity: nat,
)
    requires
        loaded matches Ok(bytes) ==> decoding(bytes) is None,
        capacity > 0,
    ensures
        initial_contents(loaded) == Seq::<PasteView>::empty(),
        recovered_error(loaded) is Some,
        inserted(initial_contents(loaded), e, capacity) == seq![e],
{
    lemma_without_absent_key(Seq::empty(), e.title);
    assert(inserted(Seq::empty(), e, capacity) =~= seq![e]);
}

} // verus!
