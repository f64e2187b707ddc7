//! Writing an index file.

use crate::endian::{write_u32, write_u64};
use crate::format::{
    ascending, contiguous, entry_bytes, entry_of, file_bytes, index_file, layout,
    lemma_layout_contiguous, low32, low_u32, main_bytes, toc_bytes, EntryView, Item, HEADER_SIZE,
};
use crate::index::{entries_view, hits_view, InMemoryIndex, IndexView, PostingsView};
use crate::lex::lex_lt;
use vstd::prelude::*;
use vstd::utf8::encode_utf8;

verus! {

/// Builds the bytes of one index file.
///
/// The postings are handed over first, term by term, and go to the main part
/// as they come. The table of contents is collected on the side and put
/// behind the main part at the end, when the header is filled in too.
pub struct IndexFileWriter {
    /// The number of bytes written so far.
    offset: u64,
    /// The file so far: the header, still zero, and the main part.
    writer: Vec<u8>,
    /// The table of contents so far.
    contents_buf: Vec<u8>,
}

impl IndexFileWriter {
    /// The writer is in order: it has counted what it wrote.
    pub closed spec fn wf(self) -> bool {
        &&& self.writer@.len() >= HEADER_SIZE
        &&& self.offset == self.writer@.len()
    }

    /// The main part written so far.
    pub closed spec fn main_part(self) -> Seq<u8> {
        self.writer@.subrange(HEADER_SIZE as int, self.writer@.len() as int)
    }

    /// The table of contents collected so far.
    pub closed spec fn contents_part(self) -> Seq<u8> {
        self.contents_buf@
    }

    /// What a writer holds fits into a file whose positions are 64 bits wide.
    pub proof fn lemma_fits(self)
        requires
            self.wf(),
        ensures
            HEADER_SIZE + self.main_part().len() <= u64::MAX,
    {
    }

    /// Starts a file: eight zero bytes hold the place of the header.
    pub fn new() -> (w: IndexFileWriter)
        ensures
            w.wf(),
            w.main_part() == Seq::<u8>::empty(),
            w.contents_part() == Seq::<u8>::empty(),
    {
        let mut f: Vec<u8> = Vec::new();
        write_u64(&mut f, 0);
        proof {
            vstd::bytes::lemma_auto_spec_u64_to_from_le_bytes();
        }
        assert(f@.subrange(8, f@.len() as int) =~= Seq::<u8>::empty());
        IndexFileWriter { offset: 8, writer: f, contents_buf: Vec::new() }
    }

    /// The position in the file at which the next byte of the main part will stand.
    pub fn offset(&self) -> (offset: u64)
        requires
            self.wf(),
        ensures
            offset == HEADER_SIZE + self.main_part().len(),
    {
        self.offset
    }

    /// Appends bytes to the main part.
    pub fn write_main(&mut self, buf: &[u8])
        requires
            old(self).wf(),
        ensures
            final(self).wf(),
            final(self).main_part() == old(self).main_part() + buf@,
            final(self).contents_part() == old(self).contents_part(),
    {
        self.writer.extend_from_slice(buf);
        assert(self.writer@ =~= old(self).writer@ + buf@);
        assert(self.writer.len() <= usize::MAX);
        self.offset = self.offset + buf.len() as u64;
        assert(self.main_part() =~= old(self).main_part() + buf@);
    }

    /// Appends an entry to the table of contents. It is taken as it comes:
    /// that `offset` and `nbytes` say where the term's postings lie is the
    /// caller's affair.
    pub fn write_contents_entry(&mut self, term: String, df: u32, offset: u64, nbytes: u64)
        ensures
            final(self).wf() == old(self).wf(),
            final(self).main_part() == old(self).main_part(),
            final(self).contents_part() == old(self).contents_part() + entry_bytes(
                EntryView { term: encode_utf8(term@), df, offset, nbytes },
            ),
    {
        write_u64(&mut self.contents_buf, offset);
        write_u64(&mut self.contents_buf, nbytes);
        write_u32(&mut self.contents_buf, df);
        let bytes = term.as_str().as_bytes();
        write_u32(&mut self.contents_buf, low_u32(bytes.len()));
        self.contents_buf.extend_from_slice(bytes);
        assert(self.contents_buf@ =~= old(self).contents_buf@ + entry_bytes(
            EntryView { term: encode_utf8(term@), df, offset, nbytes },
        ));
    }

    /// Ends the file: the table of contents goes behind the main part, and the
    /// header is overwritten with the position at which the table starts.
    pub fn finish(self) -> (file: Vec<u8>)
        requires
            self.wf(),
        ensures
            file@ == file_bytes(self.main_part(), self.contents_part()),
    {
        let contents_start = self.offset;
        let mut file = self.writer;
        file.extend_from_slice(self.contents_buf.as_slice());
        let mut header: Vec<u8> = Vec::new();
        write_u64(&mut header, contents_start);
        proof {
            vstd::bytes::lemma_auto_spec_u64_to_from_le_bytes();
        }
        let ghost tail = self.main_part() + self.contents_part();
        assert(file@.subrange(HEADER_SIZE as int, file@.len() as int) =~= tail);
        let mut i: usize = 0;
        while i < HEADER_SIZE
            invariant
                i <= HEADER_SIZE,
                header@.len() == HEADER_SIZE,
                file@.len() == HEADER_SIZE + tail.len(),
                file@.subrange(HEADER_SIZE as int, file@.len() as int) == tail,
                forall|j: int| 0 <= j < i ==> file@[j] == header@[j],
            decreases HEADER_SIZE - i,
        {
            file.set(i, header[i]);
            assert(file@.subrange(HEADER_SIZE as int, file@.len() as int) =~= tail);
            i += 1;
        }
        assert(file@ =~= header@ + self.main_part() + self.contents_part()) by {
            assert(file@ =~= file@.subrange(0, HEADER_SIZE as int) + file@.subrange(
                HEADER_SIZE as int,
                file@.len() as int,
            ));
            assert(file@.subrange(0, HEADER_SIZE as int) =~= header@);
        }
        file
    }
}

/// Byte strings, one after the other.
pub open spec fn concat(parts: Seq<Seq<u8>>) -> Seq<u8>
    decreases parts.len(),
{
    if parts.len() == 0 {
        Seq::empty()
    } else {
        concat(parts.drop_last()) + parts.last()
    }
}

/// What an index file holds for a term of an index in memory: the UTF-8
/// bytes of the term, the number of its postings, and the postings.
pub open spec fn item_of(p: PostingsView) -> Item {
    Item { term: encode_utf8(p.term), df: low32(p.hits.len() as int), region: concat(p.hits) }
}

/// What the index file of an index in memory holds.
pub open spec fn items_of_index(v: IndexView) -> Seq<Item> {
    Seq::new(v.entries.len(), |i: int| item_of(v.entries[i]))
}

/// Makes the index file of an index in memory.
///
/// The terms go into the file in ascending order of their UTF-8 bytes, as a
/// merge needs them. For each term its postings are written as they stand,
/// and an entry of the contents says where they lie and how many they are.
pub fn write_index_to_tmp_file(index: InMemoryIndex) -> (file: Vec<u8>)
    ensures
        file@ == index_file(items_of_index(index@), HEADER_SIZE as int),
        index.wf() ==> ascending(items_of_index(index@)),
        contiguous(
            layout(items_of_index(index@), HEADER_SIZE as int),
            HEADER_SIZE as int,
            HEADER_SIZE + main_bytes(items_of_index(index@)).len(),
        ),
{
    let mut writer = IndexFileWriter::new();
    let ghost items = items_of_index(index@);
    let ghost toc = layout(items, HEADER_SIZE as int);
    let entries = index.into_entries();
    let ghost all = entries@;
    for e in it: entries
        invariant
            all == entries@,
            entries_view(all) == index@.entries,
            items == items_of_index(index@),
            toc == layout(items, HEADER_SIZE as int),
            writer.wf(),
            writer.main_part() == main_bytes(items.take(it.index() as int)),
            writer.contents_part() == toc_bytes(toc.take(it.index() as int)),
    {
        let ghost k = it.index() as int;
        assert(e == all[k]);
        assert(index@.entries[k] == e@);
        let (term, hits) = e.into_parts();
        let df = low_u32(hits.len());
        let start = writer.offset();
        let ghost main0 = writer.main_part();
        let ghost parts = hits_view(hits@);
        for buffer in hit: hits
            invariant
                parts == hits_view(hits@),
                writer.wf(),
                writer.main_part() == main0 + concat(parts.take(hit.index() as int)),
                writer.contents_part() == toc_bytes(toc.take(k)),
        {
            let ghost j = hit.index() as int;
            assert(buffer == hits@[j]);
            assert(parts.take(j + 1).drop_last() =~= parts.take(j));
            writer.write_main(buffer.as_slice());
            assert(writer.main_part() =~= main0 + concat(parts.take(j + 1)));
        }
        let stop = writer.offset();
        proof {
            assert(parts.take(parts.len() as int) =~= parts);
            assert(items.take(k + 1).drop_last() =~= items.take(k));
            assert(toc.take(k + 1).drop_last() =~= toc.take(k));
            assert(writer.main_part() =~= main_bytes(items.take(k + 1)));
            assert(toc[k] == entry_of(items, HEADER_SIZE as int, k));
        }
        writer.write_contents_entry(term, df, start, stop - start);
    }
    proof {
        assert(items.take(items.len() as int) =~= items);
        assert(toc.take(toc.len() as int) =~= toc);
        writer.lemma_fits();
        lemma_layout_contiguous(items, HEADER_SIZE as int);
        if index.wf() {
            lemma_written_ascending(index@);
        }
    }
    writer.finish()
}

/// A single byte string, put one after the other, is itself.
pub proof fn lemma_concat_one(part: Seq<u8>)
    ensures
        concat(seq![part]) == part,
{
    reveal_with_fuel(concat, 2);
    assert(seq![part].drop_last() =~= Seq::<Seq<u8>>::empty());
    assert(concat(seq![part]) =~= part);
}

/// In the index file of an index in memory, the terms stand in ascending
/// order of their UTF-8 bytes, each once.
pub proof fn lemma_written_ascending(v: IndexView)
    requires
        v.sorted(),
    ensures
        ascending(items_of_index(v)),
{
    let items = items_of_index(v);
    assert forall|i: int, j: int| 0 <= i < j < items.len() implies lex_lt(
        (#[trigger] items[i]).term,
        (#[trigger] items[j]).term,
    ) by {
        assert(lex_lt(encode_utf8(v.entries[i].term), encode_utf8(v.entries[j].term)));
    }
}

/// In the index file of an index in memory, the document count of a term is
/// the number of its postings, as long as that fits into 32 bits, and the
/// region of the term holds these postings, one after the other.
pub proof fn lemma_df_is_posting_count(v: IndexView, i: int)
    requires
        0 <= i < v.entries.len(),
        v.entries[i].hits.len() <= u32::MAX,
    ensures
        items_of_index(v)[i].df == v.entries[i].hits.len(),
        items_of_index(v)[i].region == concat(v.entries[i].hits),
        layout(items_of_index(v), HEADER_SIZE as int)[i].df == v.entries[i].hits.len(),
{
}

} // verus!
