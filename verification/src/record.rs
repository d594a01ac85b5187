//! The record held by the store and its mathematical view.

use vstd::prelude::*;

verus! {

/// A stored paste: a key (`title`) and its payload (`content`).
#[derive(Debug, PartialEq, Eq)]
pub struct Paste {
    pub title: String,
    pub content: Vec<u8>,
}

/// What a [`Paste`] is to the contracts: its key as a sequence of characters
/// and its payload as a sequence of bytes.
pub struct PasteView {
    pub title: Seq<char>,
    pub content: Seq<u8>,
}

impl View for Paste {
    type V = PasteView;

    open spec fn view(&self) -> PasteView {
        PasteView { title: self.title@, content: self.content@ }
    }
}

/// The views of a sequence of records, in the same order.
pub open spec fn views(pastes: Seq<Paste>) -> Seq<PasteView> {
    pastes.map_values(|p: Paste| p@)
}

impl Paste {
    /// Builds a record from a key and a payload.
    pub fn new(title: String, content: Vec<u8>) -> (paste: Paste)
        ensures
            paste@ == (PasteView { title: title@, content: content@ }),
    {
        Paste { title, content }
    }
}

impl Clone for Paste {
    /// A copy of the record, with the same key and the same payload.
    fn clone(&self) -> (copy: Paste)
        ensures
            copy@ == self@,
    {
        Paste { title: self.title.clone(), content: self.content.clone() }
    }
}

} // verus!
