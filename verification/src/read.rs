//! Reading an index file from beginning to end, as a merge needs it.

use crate::endian::{read_u32, read_u64};
use crate::error::{FingertipsError, FingertipsErrorKind, FingertipsResult};
use crate::format::{
    entry_at, parse_entry, EntryView, Item, Parsed, ENTRY_FIXED_SIZE, HEADER_SIZE,
};
use crate::lex::{compare, Relation};
use crate::text::string_from_utf8;
use crate::write::IndexFileWriter;
use vstd::bytes::spec_u64_from_le_bytes;
use vstd::prelude::*;
use vstd::slice::{slice_subrange, slice_to_vec};
use vstd::utf8::encode_utf8;

verus! {

/// An entry in the table of contents of an index file.
///
/// It names a term, says how many documents hold it (`df`), and points at the
/// term's postings (`offset` and `nbytes`).
pub struct Entry {
    /// A word that one or more documents hold.
    pub term: String,
    /// The number of documents that hold the term.
    pub df: u32,
    /// Where the term's postings begin, in bytes from the start of the file.
    pub offset: u64,
    /// The length of the term's postings in bytes.
    pub nbytes: u64,
}

impl View for Entry {
    type V = EntryView;

    open spec fn view(&self) -> EntryView {
        EntryView {
            term: encode_utf8(self.term@),
            df: self.df,
            offset: self.offset,
            nbytes: self.nbytes,
        }
    }
}

/// The state of a reader, as a value: the bytes of its file, how far it has
/// read the main part and the contents, and the entry it has read ahead.
#[verifier::ext_equal]
pub struct ReaderView {
    pub data: Seq<u8>,
    pub main: int,
    pub contents: int,
    pub next: Option<EntryView>,
}

/// What moving the entry at hand does to a reader.
#[verifier::ext_equal]
pub struct Moved {
    /// Whether the move went through, and if not, why.
    pub result: Result<(), FingertipsErrorKind>,
    /// The reader afterwards.
    pub reader: ReaderView,
    /// The bytes that went to the writer.
    pub region: Seq<u8>,
}

impl ReaderView {
    /// The reader on a file as it is opened: the main part is read from byte
    /// 8, the contents from the position that the header gives, and the first
    /// entry is read ahead.
    pub open spec fn opened(data: Seq<u8>) -> Result<ReaderView, FingertipsErrorKind> {
        if data.len() < HEADER_SIZE {
            Err(FingertipsErrorKind::Io)
        } else {
            let start = spec_u64_from_le_bytes(data.subrange(0, HEADER_SIZE as int));
            let at = if start <= data.len() {
                start as int
            } else {
                data.len() as int
            };
            match parse_entry(data, at) {
                Parsed::Corrupt => Err(FingertipsErrorKind::CorruptIndex),
                Parsed::End => Ok(
                    ReaderView { data, main: HEADER_SIZE as int, contents: at, next: None },
                ),
                Parsed::Entry { entry, next } => Ok(
                    ReaderView {
                        data,
                        main: HEADER_SIZE as int,
                        contents: next,
                        next: Some(entry),
                    },
                ),
            }
        }
    }

    /// What `move_entry_to` does: the postings of the entry at hand leave the
    /// main part, and the next entry is read ahead.
    pub open spec fn moved(self) -> Moved {
        match self.next {
            None => Moved {
                result: Err(FingertipsErrorKind::NoEntryToMove),
                reader: self,
                region: Seq::empty(),
            },
            Some(e) => {
                if e.nbytes > usize::MAX {
                    Moved {
                        result: Err(FingertipsErrorKind::PlatformLimitExceeded),
                        reader: self,
                        region: Seq::empty(),
                    }
                } else if self.main + e.nbytes > self.data.len() {
                    Moved {
                        result: Err(FingertipsErrorKind::Io),
                        reader: self,
                        region: Seq::empty(),
                    }
                } else {
                    let region = self.data.subrange(self.main, self.main + e.nbytes);
                    let main = self.main + e.nbytes;
                    match parse_entry(self.data, self.contents) {
                        Parsed::Corrupt => Moved {
                            result: Err(FingertipsErrorKind::CorruptIndex),
                            reader: ReaderView { main, ..self },
                            region,
                        },
                        Parsed::End => Moved {
                            result: Ok(()),
                            reader: ReaderView { main, next: None, ..self },
                            region,
                        },
                        Parsed::Entry { entry, next } => Moved {
                            result: Ok(()),
                            reader: ReaderView { main, contents: next, next: Some(entry), ..self },
                            region,
                        },
                    }
                }
            },
        }
    }

    /// A bound on the number of entries that are left to read.
    pub open spec fn left(self) -> nat {
        let ahead: nat = if self.next is Some {
            1
        } else {
            0
        };
        if self.contents <= self.data.len() {
            (self.data.len() - self.contents + ahead) as nat
        } else {
            ahead
        }
    }

    /// What is left to read, entry by entry, the entry at hand first; or the
    /// error that reading on runs into.
    pub open spec fn pending(self) -> Result<Seq<Item>, FingertipsErrorKind>
        decreases self.left(),
        via Self::pending_decreases
    {
        match self.next {
            None => Ok(Seq::empty()),
            Some(e) => {
                let m = self.moved();
                match m.result {
                    Err(kind) => Err(kind),
                    Ok(_) => match m.reader.pending() {
                        Err(kind) => Err(kind),
                        Ok(rest) => Ok(
                            seq![Item { term: e.term, df: e.df, region: m.region }] + rest,
                        ),
                    },
                }
            },
        }
    }

    #[via_fn]
    proof fn pending_decreases(self) {
        if self.moved().result is Ok {
            lemma_moved_decreases(self);
        }
    }
}

/// Reads an index file in one pass from beginning to end.
///
/// This is not how an index is used to answer queries: it is what a merge of
/// index files needs. The main part and the table of contents are read side by
/// side, and the only way forward is `move_entry_to`.
pub struct IndexFileReader {
    /// The bytes of the file.
    data: Vec<u8>,
    /// How far the main part has been read.
    main: usize,
    /// How far the table of contents has been read.
    contents: usize,
    /// The next entry of the table, read ahead; `None` at the end of the table.
    next: Option<Entry>,
}

impl View for IndexFileReader {
    type V = ReaderView;

    closed spec fn view(&self) -> ReaderView {
        ReaderView {
            data: self.data@,
            main: self.main as int,
            contents: self.contents as int,
            next: match self.next {
                Some(e) => Some(e@),
                None => None,
            },
        }
    }
}

impl IndexFileReader {
    /// Both positions lie within the file.
    pub open spec fn wf(&self) -> bool {
        &&& HEADER_SIZE <= self@.main <= self@.data.len()
        &&& 0 <= self@.contents <= self@.data.len()
    }

    /// Takes over the bytes of an index file to read them from beginning to
    /// end. The first entry of the table of contents is read at once.
    pub fn open_and_delete(data: Vec<u8>) -> (r: FingertipsResult<IndexFileReader>)
        ensures
            match ReaderView::opened(data@) {
                Ok(v) => r matches Ok(reader) && reader@ == v && reader.wf(),
                Err(kind) => r matches Err(e) && e.kind() == kind,
            },
    {
        let start = match read_u64(data.as_slice()) {
            Ok(value) => value,
            Err(_) => {
                return Err(FingertipsError::new(FingertipsErrorKind::Io));
            },
        };
        let at: usize = if start <= data.len() as u64 {
            start as usize
        } else {
            data.len()
        };
        let first = match IndexFileReader::read_entry(data.as_slice(), at) {
            Ok(first) => first,
            Err(e) => {
                return Err(e);
            },
        };
        match first {
            None => Ok(IndexFileReader { data, main: HEADER_SIZE, contents: at, next: None }),
            Some((entry, after)) => Ok(
                IndexFileReader { data, main: HEADER_SIZE, contents: after, next: Some(entry) },
            ),
        }
    }

    /// Reads the entry of a table of contents that begins at `pos`, and says
    /// where the one after it begins.
    ///
    /// `Ok(None)` says that the table has ended: fewer than eight bytes are left.
    pub fn read_entry(data: &[u8], pos: usize) -> (r: FingertipsResult<Option<(Entry, usize)>>)
        ensures
            match parse_entry(data@, pos as int) {
                Parsed::End => r == Ok::<Option<(Entry, usize)>, FingertipsError>(None),
                Parsed::Corrupt => r matches Err(e) && e.kind()
                    == FingertipsErrorKind::CorruptIndex,
                Parsed::Entry { entry, next } => r matches Ok(Some((e, after))) && e@ == entry
                    && after == next,
            },
    {
        if pos > data.len() {
            return Ok(None);
        }
        let rest = slice_subrange(data, pos, data.len());
        let offset = match read_u64(rest) {
            Ok(value) => value,
            Err(_) => {
                return Ok(None);
            },
        };
        assert(rest@.subrange(0, 8) =~= data@.subrange(pos as int, pos + 8));
        let rest = slice_subrange(rest, 8, rest.len());
        let nbytes = match read_u64(rest) {
            Ok(value) => value,
            Err(_) => {
                return Err(FingertipsError::new(FingertipsErrorKind::CorruptIndex));
            },
        };
        assert(rest@.subrange(0, 8) =~= data@.subrange(pos + 8, pos + 16));
        let rest = slice_subrange(rest, 8, rest.len());
        let df = match read_u32(rest) {
            Ok(value) => value,
            Err(_) => {
                return Err(FingertipsError::new(FingertipsErrorKind::CorruptIndex));
            },
        };
        assert(rest@.subrange(0, 4) =~= data@.subrange(pos + 16, pos + 20));
        let rest = slice_subrange(rest, 4, rest.len());
        let term_len = match read_u32(rest) {
            Ok(value) => value as usize,
            Err(_) => {
                return Err(FingertipsError::new(FingertipsErrorKind::CorruptIndex));
            },
        };
        assert(rest@.subrange(0, 4) =~= data@.subrange(pos + 20, pos + 24));
        let rest = slice_subrange(rest, 4, rest.len());
        if rest.len() < term_len {
            return Err(FingertipsError::new(FingertipsErrorKind::CorruptIndex));
        }
        let bytes = slice_to_vec(slice_subrange(rest, 0, term_len));
        assert(bytes@ =~= entry_at(data@, pos as int).term);
        let term = match string_from_utf8(bytes) {
            Ok(term) => term,
            Err(_) => {
                return Err(FingertipsError::new(FingertipsErrorKind::CorruptIndex));
            },
        };
        Ok(Some((Entry { term, df, offset, nbytes }, pos + ENTRY_FIXED_SIZE + term_len)))
    }

    /// The next entry of the table of contents, or `None` at its end.
    pub fn peek(&self) -> (r: Option<&Entry>)
        ensures
            match r {
                Some(e) => self@.next == Some(e@),
                None => self@.next is None,
            },
    {
        self.next.as_ref()
    }

    /// Whether the next entry is that of the given term.
    pub fn is_at(&self, term: &str) -> (r: bool)
        ensures
            r == (self@.next matches Some(e) && e.term == encode_utf8(term@)),
    {
        match &self.next {
            Some(e) => compare(e.term.as_str().as_bytes(), term.as_bytes()) == Relation::Same,
            None => false,
        }
    }

    /// Hands the postings of the entry at hand to `out`, unchanged, and reads
    /// the next entry ahead.
    pub fn move_entry_to(&mut self, out: &mut IndexFileWriter) -> (r: FingertipsResult<()>)
        requires
            old(self).wf(),
            old(out).wf(),
        ensures
            final(self).wf(),
            final(out).wf(),
            final(self)@ == old(self)@.moved().reader,
            final(out).main_part() == old(out).main_part() + old(self)@.moved().region,
            final(out).contents_part() == old(out).contents_part(),
            match old(self)@.moved().result {
                Ok(_) => r is Ok,
                Err(kind) => r matches Err(e) && e.kind() == kind,
            },
    {
        let nbytes = match &self.next {
            Some(e) => e.nbytes,
            None => {
                assert(out.main_part() + Seq::<u8>::empty() =~= out.main_part());
                return Err(FingertipsError::new(FingertipsErrorKind::NoEntryToMove));
            },
        };
        if nbytes > usize::MAX as u64 {
            assert(out.main_part() + Seq::<u8>::empty() =~= out.main_part());
            return Err(FingertipsError::new(FingertipsErrorKind::PlatformLimitExceeded));
        }
        let n = nbytes as usize;
        if self.data.len() - self.main < n {
            assert(out.main_part() + Seq::<u8>::empty() =~= out.main_part());
            return Err(FingertipsError::new(FingertipsErrorKind::Io));
        }
        out.write_main(slice_subrange(self.data.as_slice(), self.main, self.main + n));
        self.main = self.main + n;
        match IndexFileReader::read_entry(self.data.as_slice(), self.contents) {
            Err(e) => Err(e),
            Ok(None) => {
                self.next = None;
                Ok(())
            },
            Ok(Some((entry, after))) => {
                proof {
                    vstd::bytes::lemma_auto_spec_u32_to_from_le_bytes();
                }
                self.next = Some(entry);
                self.contents = after;
                Ok(())
            },
        }
    }
}

/// What an index file holds, read as a merge reads it; or the error that
/// reading it runs into.
pub open spec fn read_items(data: Seq<u8>) -> Result<Seq<Item>, FingertipsErrorKind> {
    match ReaderView::opened(data) {
        Err(kind) => Err(kind),
        Ok(reader) => reader.pending(),
    }
}

/// A move that goes through leaves less to read.
pub proof fn lemma_moved_decreases(v: ReaderView)
    requires
        v.moved().result is Ok,
    ensures
        v.moved().reader.left() < v.left(),
{
    vstd::bytes::lemma_auto_spec_u32_to_from_le_bytes();
}

} // verus!
