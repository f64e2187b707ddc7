//! The stages of a build that decide something.
//!
//! A build reads documents, indexes them, merges the indexes in memory until
//! they are large, writes the large indexes to files, and merges the files.
//! Reading and writing are the caller's affair. What is decided on the way
//! stands here: the numbers of the documents, when an index in memory is
//! handed on, and which error a build reports.

use crate::format::low32;
use crate::index::{indexes, merges, tokens, InMemoryIndex, IndexView, REASONABLE_SIZE};
use crate::text::lowercase;
use vstd::prelude::*;

verus! {

/// Indexes the documents one by one and numbers them in the order in which
/// they come, from 0 on.
///
/// The files of a build are merged in the order in which their documents
/// came, so the postings of a term end up in the order of the documents'
/// numbers.
pub struct Indexer {
    next_id: usize,
}

impl Indexer {
    /// The number that the next document gets.
    pub closed spec fn spec_next_id(self) -> usize {
        self.next_id
    }

    /// An indexer that has seen no document.
    pub fn new() -> (indexer: Indexer)
        ensures
            indexer.spec_next_id() == 0,
    {
        Indexer { next_id: 0 }
    }

    /// The number that the next document gets.
    pub fn next_id(&self) -> (id: usize)
        ensures
            id == self.spec_next_id(),
    {
        self.next_id
    }

    /// Indexes the next document. The numbers start again at 0 when they
    /// run out.
    pub fn index(&mut self, text: String) -> (index: InMemoryIndex)
        ensures
            index.wf(),
            indexes(index@, low32(old(self).spec_next_id() as int), tokens(lowercase(text@))),
            final(self).spec_next_id() == if old(self).spec_next_id() < usize::MAX {
                old(self).spec_next_id() + 1
            } else {
                0
            },
    {
        let id = self.next_id;
        self.next_id = if id < usize::MAX {
            id + 1
        } else {
            0
        };
        InMemoryIndex::from_single_document(id, text)
    }
}

/// Merges the indexes of single documents into large ones.
pub struct InMemoryMerger {
    accumulated: InMemoryIndex,
}

impl View for InMemoryMerger {
    type V = IndexView;

    closed spec fn view(&self) -> IndexView {
        self.accumulated@
    }
}

impl InMemoryMerger {
    /// The index that is being filled is in order.
    pub closed spec fn wf(&self) -> bool {
        self.accumulated.wf()
    }

    /// A merger that holds nothing.
    pub fn new() -> (merger: InMemoryMerger)
        ensures
            merger.wf(),
            merger@ == (IndexView { word_count: 0, entries: Seq::empty() }),
    {
        InMemoryMerger { accumulated: InMemoryIndex::new() }
    }

    /// The number of words that the merger holds.
    pub fn word_count(&self) -> (n: usize)
        ensures
            n == self@.word_count,
    {
        self.accumulated.word_count()
    }

    /// Takes an index in. If the merger holds a large index then, it hands
    /// that index out and begins again with nothing.
    pub fn add(&mut self, index: InMemoryIndex) -> (large: Option<InMemoryIndex>)
        requires
            old(self).wf(),
            index.wf(),
            old(self)@.word_count + index@.word_count <= usize::MAX,
        ensures
            final(self).wf(),
            large is Some <==> old(self)@.word_count + index@.word_count > REASONABLE_SIZE,
            match large {
                Some(large) => large.wf() && merges(large@, old(self)@, index@) && final(self)@ == (
                IndexView { word_count: 0, entries: Seq::empty() }),
                None => merges(final(self)@, old(self)@, index@),
            },
    {
        self.accumulated.merge(index);
        if self.accumulated.is_large() {
            let mut large = InMemoryIndex::new();
            std::mem::swap(&mut self.accumulated, &mut large);
            Some(large)
        } else {
            None
        }
    }

    /// Ends the stage: hands out what the merger holds, unless that is nothing.
    pub fn finish(self) -> (rest: Option<InMemoryIndex>)
        requires
            self.wf(),
        ensures
            rest is Some <==> self@.word_count != 0,
            rest matches Some(rest) ==> rest.wf() && rest@ == self@,
    {
        if !self.accumulated.is_empty() {
            Some(self.accumulated)
        } else {
            None
        }
    }
}

/// The error that a build reports: that of the stage that reads the
/// documents, else that of the stage that writes the index files, else that of
/// the stage that merges them.
pub fn first_error<E>(reader: Result<(), E>, writer: Result<(), E>, merger: Result<(), E>) -> (r:
    Result<(), E>)
    ensures
        r == if reader is Err {
            reader
        } else if writer is Err {
            writer
        } else {
            merger
        },
{
    match reader {
        Err(e) => Err(e),
        Ok(_) => match writer {
            Err(e) => Err(e),
            Ok(_) => merger,
        },
    }
}

} // verus!
