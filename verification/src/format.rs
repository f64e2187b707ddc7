//! The layout of an index file, as functions on byte sequences.
//!
//! An index file has three parts. The header is one little-endian `u64`, the
//! position at which the contents start. The main part holds the postings, all
//! those of one term side by side. The contents are a table with one entry for
//! each term: where its postings lie, how many bytes they take, how many
//! documents hold the term, and the term itself.

use crate::lex::lex_lt;
use vstd::bytes::{
    spec_u32_from_le_bytes, spec_u32_to_le_bytes, spec_u64_from_le_bytes, spec_u64_to_le_bytes,
};
use vstd::prelude::*;
use vstd::utf8::valid_utf8;

verus! {

/// The number of bytes of the header.
pub const HEADER_SIZE: usize = 8;

/// The number of bytes of a contents entry before its term.
pub const ENTRY_FIXED_SIZE: usize = 24;

/// An entry of the contents, as a value: the UTF-8 bytes of the term, the
/// number of documents that hold it, and where its postings lie.
pub struct EntryView {
    pub term: Seq<u8>,
    pub df: u32,
    pub offset: u64,
    pub nbytes: u64,
}

/// What an index file holds for one term: the UTF-8 bytes of the term, the
/// number of documents that hold it, and its postings, side by side.
pub struct Item {
    pub term: Seq<u8>,
    pub df: u32,
    pub region: Seq<u8>,
}

/// The low 32 bits of a number: what is left of a count in a 32-bit field.
pub open spec fn low32(n: int) -> u32 {
    (n % 0x1_0000_0000) as u32
}

/// The low 32 bits of a length.
pub fn low_u32(n: usize) -> (r: u32)
    ensures
        r == low32(n as int),
{
    ((n as u64) % 0x1_0000_0000u64) as u32
}

/// The bytes of one contents entry.
pub open spec fn entry_bytes(e: EntryView) -> Seq<u8> {
    spec_u64_to_le_bytes(e.offset) + spec_u64_to_le_bytes(e.nbytes) + spec_u32_to_le_bytes(e.df)
        + spec_u32_to_le_bytes(low32(e.term.len() as int)) + e.term
}

/// The bytes of a table of contents: its entries, one after the other.
pub open spec fn toc_bytes(entries: Seq<EntryView>) -> Seq<u8>
    decreases entries.len(),
{
    if entries.len() == 0 {
        Seq::empty()
    } else {
        toc_bytes(entries.drop_last()) + entry_bytes(entries.last())
    }
}

/// The main part for the given items: their regions, one after the other.
pub open spec fn main_bytes(items: Seq<Item>) -> Seq<u8>
    decreases items.len(),
{
    if items.len() == 0 {
        Seq::empty()
    } else {
        main_bytes(items.drop_last()) + items.last().region
    }
}

/// The contents entry of the `i`-th item, where the region of the first item
/// begins at `base`.
pub open spec fn entry_of(items: Seq<Item>, base: int, i: int) -> EntryView {
    EntryView {
        term: items[i].term,
        df: items[i].df,
        offset: (base + main_bytes(items.take(i)).len()) as u64,
        nbytes: items[i].region.len() as u64,
    }
}

/// The table of contents for the given items: each entry's offset is `base`
/// plus the length of the regions before it.
pub open spec fn layout(items: Seq<Item>, base: int) -> Seq<EntryView> {
    Seq::new(items.len(), |i: int| entry_of(items, base, i))
}

/// The index file that holds a main part and a table of contents.
pub open spec fn file_bytes(main: Seq<u8>, contents: Seq<u8>) -> Seq<u8> {
    spec_u64_to_le_bytes((HEADER_SIZE + main.len()) as u64) + main + contents
}

/// The index file that holds the given items, with offsets counted from `base`.
pub open spec fn index_file(items: Seq<Item>, base: int) -> Seq<u8> {
    file_bytes(main_bytes(items), toc_bytes(layout(items, base)))
}

/// Whether the terms of the items stand in ascending order of their bytes, each once.
pub open spec fn ascending(items: Seq<Item>) -> bool {
    forall|i: int, j: int|
        0 <= i < j < items.len() ==> lex_lt((#[trigger] items[i]).term, (#[trigger] items[j]).term)
}

/// The contents of an index file name the terms of its items, in their order.
pub proof fn lemma_layout_terms(items: Seq<Item>, base: int)
    ensures
        layout(items, base).len() == items.len(),
        forall|i: int|
            0 <= i < items.len() ==> (#[trigger] layout(items, base)[i]).term == items[i].term
                && layout(items, base)[i].df == items[i].df,
        ascending(items) ==> forall|i: int, j: int|
            0 <= i < j < items.len() ==> lex_lt(
                (#[trigger] layout(items, base)[i]).term,
                (#[trigger] layout(items, base)[j]).term,
            ),
{
    if ascending(items) {
        assert forall|i: int, j: int| 0 <= i < j < items.len() implies lex_lt(
            (#[trigger] layout(items, base)[i]).term,
            (#[trigger] layout(items, base)[j]).term,
        ) by {
            assert(lex_lt(items[i].term, items[j].term));
        }
    }
}

/// Whether the regions that the entries point at lie side by side from
/// `from` to `to`: the first begins at `from`, each begins where the one
/// before it ends, and the last ends at `to`.
pub open spec fn contiguous(toc: Seq<EntryView>, from: int, to: int) -> bool {
    if toc.len() == 0 {
        from == to
    } else {
        &&& toc[0].offset == from
        &&& forall|i: int|
            0 <= i < toc.len() - 1 ==> (#[trigger] toc[i]).offset + toc[i].nbytes == toc[i
                + 1].offset
        &&& toc.last().offset + toc.last().nbytes == to
    }
}

/// The regions that the contents of an index file point at lie side by side,
/// from `base` on, and each is as long as the entry says. The main part has
/// to be of a size that fits into 64 bits.
pub proof fn lemma_layout_contiguous(items: Seq<Item>, base: int)
    requires
        0 <= base,
        base + main_bytes(items).len() <= u64::MAX,
    ensures
        contiguous(layout(items, base), base, base + main_bytes(items).len()),
        forall|i: int|
            0 <= i < items.len() ==> (#[trigger] layout(items, base)[i]).nbytes
                == items[i].region.len(),
{
    assert(items.take(0) =~= Seq::<Item>::empty());
    assert forall|i: int| 0 <= i < items.len() implies {
        &&& (#[trigger] layout(items, base)[i]).offset == base + main_bytes(items.take(i)).len()
        &&& layout(items, base)[i].nbytes == items[i].region.len()
        &&& main_bytes(items.take(i + 1)).len() == main_bytes(items.take(i)).len()
            + items[i].region.len()
        &&& main_bytes(items.take(i + 1)).len() <= main_bytes(items).len()
    } by {
        lemma_main_grows(items, i);
        lemma_main_grows(items, i + 1);
        assert(items.take(i + 1).drop_last() =~= items.take(i));
    }
    if items.len() > 0 {
        assert(items.take(items.len() as int) =~= items);
    }
}

/// Where no region is empty, the regions that the contents of an index file
/// point at begin at ascending offsets.
pub proof fn lemma_offsets_ascend(items: Seq<Item>, base: int, i: int, j: int)
    requires
        0 <= base,
        base + main_bytes(items).len() <= u64::MAX,
        forall|k: int| 0 <= k < items.len() ==> (#[trigger] items[k]).region.len() > 0,
        0 <= i < j < items.len(),
    ensures
        layout(items, base)[i].offset < layout(items, base)[j].offset,
    decreases j - i,
{
    lemma_layout_contiguous(items, base);
    if i + 1 < j {
        lemma_offsets_ascend(items, base, i + 1, j);
    }
    let toc = layout(items, base);
    assert(toc[i].offset + toc[i].nbytes == toc[i + 1].offset);
    assert(items[i].region.len() > 0);
}

/// The main part for the first `i` items is no longer than the main part for all.
pub proof fn lemma_main_grows(items: Seq<Item>, i: int)
    requires
        0 <= i <= items.len(),
    ensures
        main_bytes(items.take(i)).len() <= main_bytes(items).len(),
    decreases items.len(),
{
    if i == items.len() {
        assert(items.take(i) =~= items);
    } else {
        lemma_main_grows(items.drop_last(), i);
        assert(items.drop_last().take(i) =~= items.take(i));
    }
}

/// In an index file whose regions are counted from the header on, the
/// first region begins behind the header, and the last ends where the header
/// says that the contents begin.
pub proof fn lemma_header_closes(items: Seq<Item>)
    requires
        HEADER_SIZE + main_bytes(items).len() <= u64::MAX,
    ensures
        index_file(items, HEADER_SIZE as int).subrange(0, HEADER_SIZE as int)
            == spec_u64_to_le_bytes((HEADER_SIZE + main_bytes(items).len()) as u64),
        contiguous(
            layout(items, HEADER_SIZE as int),
            HEADER_SIZE as int,
            HEADER_SIZE + main_bytes(items).len(),
        ),
{
    lemma_layout_contiguous(items, HEADER_SIZE as int);
    vstd::bytes::lemma_auto_spec_u64_to_from_le_bytes();
    assert(index_file(items, HEADER_SIZE as int).subrange(0, HEADER_SIZE as int)
        =~= spec_u64_to_le_bytes((HEADER_SIZE + main_bytes(items).len()) as u64));
}

/// What stands at a position of the contents.
pub enum Parsed {
    /// Fewer than eight bytes are left: the table has ended.
    End,
    /// An entry begins but is cut short, or its term is not UTF-8.
    Corrupt,
    /// An entry, and the position after it.
    Entry { entry: EntryView, next: int },
}

/// The length of the term of the entry that begins at `pos`.
pub open spec fn term_len_at(data: Seq<u8>, pos: int) -> int {
    spec_u32_from_le_bytes(data.subrange(pos + 20, pos + 24)) as int
}

/// The entry that begins at `pos`, given that the data hold all of it.
pub open spec fn entry_at(data: Seq<u8>, pos: int) -> EntryView {
    EntryView {
        term: data.subrange(pos + 24, pos + 24 + term_len_at(data, pos)),
        df: spec_u32_from_le_bytes(data.subrange(pos + 16, pos + 20)),
        offset: spec_u64_from_le_bytes(data.subrange(pos, pos + 8)),
        nbytes: spec_u64_from_le_bytes(data.subrange(pos + 8, pos + 16)),
    }
}

/// Reads one contents entry at `pos`.
pub open spec fn parse_entry(data: Seq<u8>, pos: int) -> Parsed {
    if pos < 0 || data.len() - pos < 8 {
        Parsed::End
    } else if data.len() - pos < 24 || data.len() - pos < 24 + term_len_at(data, pos) || !valid_utf8(
        entry_at(data, pos).term,
    ) {
        Parsed::Corrupt
    } else {
        Parsed::Entry { entry: entry_at(data, pos), next: pos + 24 + term_len_at(data, pos) }
    }
}

} // verus!
