//! Reading back what was written.
//!
//! An index file that holds given items gives the same items back when it is
//! read from beginning to end, whatever the offsets in its contents count from.

use crate::error::FingertipsErrorKind;
use crate::format::{
    entry_at, entry_bytes, index_file, layout, low32, main_bytes, parse_entry, term_len_at,
    toc_bytes, EntryView, Item, Parsed, HEADER_SIZE,
};
use crate::format::ascending;
use crate::index::{indexes, posting, IndexView};
use crate::kway::{
    advance, at_term, head_of, heads_of, holds, lemma_advance_len, lemma_gather_term,
    lemma_min_term, merge_items, min_term, total_len,
};
use crate::streams::{all_readable, items_of};
use crate::read::{read_items, ReaderView};
use crate::write::{items_of_index, lemma_concat_one, lemma_written_ascending};
use vstd::bytes::{
    lemma_auto_spec_u32_to_from_le_bytes, lemma_auto_spec_u64_to_from_le_bytes,
    spec_u32_to_le_bytes, spec_u64_to_le_bytes,
};
use vstd::prelude::*;
use vstd::utf8::{encode_utf8, valid_utf8};

verus! {

/// Whether the items can stand in an index file as they are: each term is
/// UTF-8, and its length fits into the 32 bits that the contents have for it.
pub open spec fn storable(items: Seq<Item>) -> bool {
    forall|i: int|
        0 <= i < items.len() ==> valid_utf8((#[trigger] items[i]).term) && items[i].term.len()
            <= u32::MAX
}

/// The main part for the first `i` items is the beginning of the main part for all.
pub proof fn lemma_main_prefix(items: Seq<Item>, i: int)
    requires
        0 <= i <= items.len(),
    ensures
        main_bytes(items.take(i)).len() <= main_bytes(items).len(),
        main_bytes(items.take(i)) == main_bytes(items).take(main_bytes(items.take(i)).len() as int),
        i < items.len() ==> main_bytes(items.take(i + 1)) == main_bytes(items.take(i))
            + items[i].region,
    decreases items.len(),
{
    if i == items.len() {
        assert(items.take(i) =~= items);
        assert(main_bytes(items).take(main_bytes(items).len() as int) =~= main_bytes(items));
    } else {
        let shorter = items.drop_last();
        lemma_main_prefix(shorter, i);
        assert(shorter.take(i) =~= items.take(i));
        assert(main_bytes(items.take(i)) =~= main_bytes(items).take(
            main_bytes(items.take(i)).len() as int,
        ));
        assert(items.take(i + 1).drop_last() =~= items.take(i));
    }
}

/// The contents for the first `i` entries are the beginning of the contents for all.
pub proof fn lemma_toc_prefix(entries: Seq<EntryView>, i: int)
    requires
        0 <= i <= entries.len(),
    ensures
        toc_bytes(entries.take(i)).len() <= toc_bytes(entries).len(),
        toc_bytes(entries.take(i)) == toc_bytes(entries).take(
            toc_bytes(entries.take(i)).len() as int,
        ),
        i < entries.len() ==> toc_bytes(entries.take(i + 1)) == toc_bytes(entries.take(i))
            + entry_bytes(entries[i]),
    decreases entries.len(),
{
    if i == entries.len() {
        assert(entries.take(i) =~= entries);
        assert(toc_bytes(entries).take(toc_bytes(entries).len() as int) =~= toc_bytes(entries));
    } else {
        let shorter = entries.drop_last();
        lemma_toc_prefix(shorter, i);
        assert(shorter.take(i) =~= entries.take(i));
        assert(toc_bytes(entries.take(i)) =~= toc_bytes(entries).take(
            toc_bytes(entries.take(i)).len() as int,
        ));
        assert(entries.take(i + 1).drop_last() =~= entries.take(i));
    }
}

/// Where the bytes of an entry stand in the data, with nothing or another
/// entry's beginning behind them, the entry is read there.
pub proof fn lemma_parse_written(data: Seq<u8>, pos: int, e: EntryView)
    requires
        0 <= pos,
        pos + entry_bytes(e).len() <= data.len(),
        data.subrange(pos, pos + entry_bytes(e).len()) == entry_bytes(e),
        valid_utf8(e.term),
        e.term.len() <= u32::MAX,
    ensures
        parse_entry(data, pos) == (Parsed::Entry { entry: e, next: pos + entry_bytes(e).len() }),
        entry_bytes(e).len() == 24 + e.term.len(),
{
    lemma_auto_spec_u64_to_from_le_bytes();
    lemma_auto_spec_u32_to_from_le_bytes();
    let bytes = entry_bytes(e);
    let a = spec_u64_to_le_bytes(e.offset);
    let b = spec_u64_to_le_bytes(e.nbytes);
    let c = spec_u32_to_le_bytes(e.df);
    let d = spec_u32_to_le_bytes(low32(e.term.len() as int));
    assert(low32(e.term.len() as int) == e.term.len());
    assert(bytes.len() == 24 + e.term.len());
    assert(data.subrange(pos, pos + 8) =~= a) by {
        assert(data.subrange(pos, pos + 8) =~= bytes.subrange(0, 8));
        assert(bytes.subrange(0, 8) =~= a);
    }
    assert(data.subrange(pos + 8, pos + 16) =~= b) by {
        assert(data.subrange(pos + 8, pos + 16) =~= bytes.subrange(8, 16));
        assert(bytes.subrange(8, 16) =~= b);
    }
    assert(data.subrange(pos + 16, pos + 20) =~= c) by {
        assert(data.subrange(pos + 16, pos + 20) =~= bytes.subrange(16, 20));
        assert(bytes.subrange(16, 20) =~= c);
    }
    assert(data.subrange(pos + 20, pos + 24) =~= d) by {
        assert(data.subrange(pos + 20, pos + 24) =~= bytes.subrange(20, 24));
        assert(bytes.subrange(20, 24) =~= d);
    }
    assert(term_len_at(data, pos) == e.term.len());
    assert(data.subrange(pos + 24, pos + 24 + e.term.len()) =~= e.term) by {
        assert(data.subrange(pos + 24, pos + 24 + e.term.len()) =~= bytes.subrange(
            24,
            24 + e.term.len() as int,
        ));
        assert(bytes.subrange(24, 24 + e.term.len() as int) =~= e.term);
    }
    assert(entry_at(data, pos) == e);
}

/// The reader on the index file of the given items after it has moved `i` entries.
pub open spec fn reader_at(items: Seq<Item>, base: int, i: int) -> ReaderView {
    let toc = layout(items, base);
    let start = HEADER_SIZE + main_bytes(items).len();
    ReaderView {
        data: index_file(items, base),
        main: HEADER_SIZE + main_bytes(items.take(i)).len(),
        contents: start + toc_bytes(
            toc.take(
                if i < items.len() {
                    i + 1
                } else {
                    i
                },
            ),
        ).len(),
        next: if i < items.len() {
            Some(toc[i])
        } else {
            None
        },
    }
}

/// What is read at the beginning of the `i`-th entry of the index file of
/// the given items: the entry, or the end of the contents behind the last one.
proof fn lemma_parse_at(items: Seq<Item>, base: int, i: int)
    requires
        storable(items),
        0 <= i <= items.len(),
        index_file(items, base).len() <= usize::MAX,
    ensures
        ({
            let toc = layout(items, base);
            let start = HEADER_SIZE + main_bytes(items).len();
            let pos = start + toc_bytes(toc.take(i)).len();
            parse_entry(index_file(items, base), pos) == if i < items.len() {
                Parsed::Entry { entry: toc[i], next: start + toc_bytes(toc.take(i + 1)).len() }
            } else {
                Parsed::End
            }
        }),
{
    lemma_auto_spec_u64_to_from_le_bytes();
    let toc = layout(items, base);
    let data = index_file(items, base);
    let start = HEADER_SIZE + main_bytes(items).len();
    let pos = start + toc_bytes(toc.take(i)).len();
    lemma_toc_prefix(toc, i);
    if i < items.len() {
        lemma_toc_prefix(toc, i + 1);
        let whole = toc_bytes(toc);
        let e = toc[i];
        let from = toc_bytes(toc.take(i)).len() as int;
        let to = toc_bytes(toc.take(i + 1)).len() as int;
        assert(whole.subrange(from, to) =~= entry_bytes(e)) by {
            assert(whole.take(to) == toc_bytes(toc.take(i)) + entry_bytes(e));
            assert(whole.subrange(from, to) =~= whole.take(to).subrange(from, to));
        }
        assert(data.subrange(pos, pos + entry_bytes(e).len()) =~= whole.subrange(from, to));
        lemma_parse_written(data, pos, e);
    } else {
        assert(toc.take(i) =~= toc);
    }
}

/// The reader on the index file of the given items, after `i` entries, has
/// the other items left to read.
proof fn lemma_pending_written(items: Seq<Item>, base: int, i: int)
    requires
        storable(items),
        0 <= i <= items.len(),
        index_file(items, base).len() <= usize::MAX,
    ensures
        reader_at(items, base, i).pending() == Ok::<Seq<Item>, FingertipsErrorKind>(items.skip(i)),
    decreases items.len() - i,
{
    lemma_auto_spec_u64_to_from_le_bytes();
    let v = reader_at(items, base, i);
    let data = index_file(items, base);
    let main = main_bytes(items);
    if i < items.len() {
        let e = layout(items, base)[i];
        lemma_main_prefix(items, i);
        lemma_main_prefix(items, i + 1);
        let from = main_bytes(items.take(i)).len() as int;
        let to = main_bytes(items.take(i + 1)).len() as int;
        assert(main.subrange(from, to) =~= items[i].region) by {
            assert(main.take(to) == main_bytes(items.take(i)) + items[i].region);
            assert(main.subrange(from, to) =~= main.take(to).subrange(from, to));
        }
        assert(data.subrange(HEADER_SIZE + from, HEADER_SIZE + to) =~= main.subrange(from, to));
        assert(e.nbytes == items[i].region.len());
        lemma_parse_at(items, base, i + 1);
        let m = v.moved();
        assert(m.result is Ok);
        assert(m.region == items[i].region);
        assert(m.reader =~= reader_at(items, base, i + 1));
        lemma_pending_written(items, base, i + 1);
        assert(seq![items[i]] + items.skip(i + 1) =~= items.skip(i));
    } else {
        assert(items.skip(i) =~= Seq::<Item>::empty());
    }
}

/// The index file of the given items, read from beginning to end, gives the
/// items back, whatever the offsets in its contents count from. The terms
/// have to be such that the file can hold them, and the file has to be of a
/// size that fits into memory.
pub proof fn lemma_read_back(items: Seq<Item>, base: int)
    requires
        storable(items),
        index_file(items, base).len() <= usize::MAX,
    ensures
        read_items(index_file(items, base)) == Ok::<Seq<Item>, FingertipsErrorKind>(items),
{
    lemma_auto_spec_u64_to_from_le_bytes();
    let data = index_file(items, base);
    let toc = layout(items, base);
    let start = HEADER_SIZE + main_bytes(items).len();
    assert(data.subrange(0, HEADER_SIZE as int) =~= spec_u64_to_le_bytes(start as u64));
    assert(toc.take(0) =~= Seq::<EntryView>::empty());
    assert(items.take(0) =~= Seq::<Item>::empty());
    lemma_parse_at(items, base, 0);
    lemma_pending_written(items, base, 0);
    assert(items.skip(0) =~= items);
    if items.len() == 0 {
        assert(toc =~= Seq::<EntryView>::empty());
    } else {
        assert(ReaderView::opened(data)->Ok_0 =~= reader_at(items, base, 0));
    }
}

/// What is read from a file can stand in a file: the terms are UTF-8, and
/// their lengths fit into 32 bits.
pub proof fn lemma_read_storable(data: Seq<u8>)
    requires
        read_items(data) is Ok,
    ensures
        storable(read_items(data)->Ok_0),
{
    lemma_auto_spec_u32_to_from_le_bytes();
    let v = ReaderView::opened(data)->Ok_0;
    lemma_pending_storable(v);
}

proof fn lemma_pending_storable(v: ReaderView)
    requires
        v.pending() is Ok,
        v.next matches Some(e) ==> valid_utf8(e.term) && e.term.len() <= u32::MAX,
    ensures
        storable(v.pending()->Ok_0),
    decreases v.left(),
{
    lemma_auto_spec_u32_to_from_le_bytes();
    if let Some(e) = v.next {
        let m = v.moved();
        crate::read::lemma_moved_decreases(v);
        lemma_pending_storable(m.reader);
        let rest = m.reader.pending()->Ok_0;
        let first = Item { term: e.term, df: e.df, region: m.region };
        let items = v.pending()->Ok_0;
        assert(items == seq![first] + rest);
        assert forall|i: int| 0 <= i < items.len() implies valid_utf8((#[trigger] items[i]).term)
            && items[i].term.len() <= u32::MAX by {
            if i > 0 {
                assert(items[i] == rest[i - 1]);
            }
        }
    }
}

/// A single document, indexed, written to a file and read back: the file
/// holds one item for each term of the document, in ascending order of the
/// terms. The item counts one document, and its region is the posting of the
/// term: the number of the document and the places of the term, in order.
///
/// No token may be longer than the 32 bits for its length can say, and the
/// file has to be of a size that fits into memory.
pub proof fn lemma_single_document_round_trip(
    v: IndexView,
    document: u32,
    toks: Seq<Seq<char>>,
    file: Seq<u8>,
)
    requires
        indexes(v, document, toks),
        forall|k: int| 0 <= k < toks.len() ==> encode_utf8(#[trigger] toks[k]).len() <= u32::MAX,
        file == index_file(items_of_index(v), HEADER_SIZE as int),
        file.len() <= usize::MAX,
    ensures
        read_items(file) == Ok::<Seq<Item>, FingertipsErrorKind>(items_of_index(v)),
        ascending(items_of_index(v)),
        forall|i: int|
            0 <= i < v.entries.len() ==> {
                let item = #[trigger] items_of_index(v)[i];
                &&& toks.contains(v.entries[i].term)
                &&& item.term == encode_utf8(v.entries[i].term)
                &&& item.df == 1
                &&& item.region == posting(document, toks, v.entries[i].term)
            },
        forall|k: int|
            0 <= k < toks.len() ==> holds(items_of_index(v), encode_utf8(#[trigger] toks[k])),
{
    broadcast use vstd::utf8::encode_utf8_valid_utf8;

    let items = items_of_index(v);
    assert(storable(items)) by {
        assert forall|i: int| 0 <= i < items.len() implies valid_utf8((#[trigger] items[i]).term)
            && items[i].term.len() <= u32::MAX by {
            let term = v.entries[i].term;
            assert(toks.contains(term));
            let k = choose|k: int| 0 <= k < toks.len() && toks[k] == term;
            assert(encode_utf8(toks[k]).len() <= u32::MAX);
        }
    }
    lemma_read_back(items, HEADER_SIZE as int);
    lemma_written_ascending(v);
    assert forall|i: int| 0 <= i < v.entries.len() implies {
        let item = #[trigger] items_of_index(v)[i];
        &&& toks.contains(v.entries[i].term)
        &&& item.term == encode_utf8(v.entries[i].term)
        &&& item.df == 1
        &&& item.region == posting(document, toks, v.entries[i].term)
    } by {
        lemma_concat_one(posting(document, toks, v.entries[i].term));
    }
    assert forall|k: int| 0 <= k < toks.len() implies holds(
        items_of_index(v),
        encode_utf8(#[trigger] toks[k]),
    ) by {
        assert(v.contains(toks[k]));
        let i = v.position(toks[k]);
        assert(items_of_index(v)[i].term == encode_utf8(toks[k]));
    }
}

/// The merge of files whose items can stand in a file has such items too.
pub proof fn lemma_merge_storable(rests: Seq<Seq<Item>>)
    requires
        forall|f: int| 0 <= f < rests.len() ==> storable(#[trigger] rests[f]),
    ensures
        storable(merge_items(rests)),
    decreases total_len(rests, rests.len() as int),
{
    let n = rests.len() as int;
    let heads = heads_of(rests);
    if let Some(t) = min_term(heads, n) {
        lemma_min_term(heads, n);
        let f = choose|f: int| 0 <= f < n && at_term(heads[f], t);
        lemma_advance_len(rests, t, n, f);
        let after = advance(rests, t);
        assert forall|g: int| 0 <= g < after.len() implies storable(#[trigger] after[g]) by {
            assert(storable(rests[g]));
            assert forall|i: int| 0 <= i < after[g].len() implies valid_utf8(
                (#[trigger] after[g][i]).term,
            ) && after[g][i].term.len() <= u32::MAX by {
                if at_term(head_of(rests[g]), t) {
                    assert(after[g][i] == rests[g][i + 1]);
                } else {
                    assert(after[g][i] == rests[g][i]);
                }
            }
        }
        lemma_merge_storable(after);
        lemma_gather_term(heads, t, n);
        assert(storable(rests[f]));
        assert(rests[f][0].term == t);
        let merged = merge_items(rests);
        let tail = merge_items(after);
        assert forall|i: int| 0 <= i < merged.len() implies valid_utf8(
            (#[trigger] merged[i]).term,
        ) && merged[i].term.len() <= u32::MAX by {
            if i > 0 {
                assert(merged[i] == tail[i - 1]);
            }
        }
    }
}

/// What a merge writes can be read again. The merge of files that can be
/// read, written as an index file, gives the merged items back when it is
/// read, as long as it is of a size that fits into memory.
pub proof fn lemma_merged_readable(files: Seq<Seq<u8>>)
    requires
        all_readable(files),
        index_file(merge_items(items_of(files)), 0).len() <= usize::MAX,
    ensures
        read_items(index_file(merge_items(items_of(files)), 0)) == Ok::<
            Seq<Item>,
            FingertipsErrorKind,
        >(merge_items(items_of(files))),
{
    let rests = items_of(files);
    assert forall|f: int| 0 <= f < rests.len() implies storable(#[trigger] rests[f]) by {
        assert(read_items(files[f]) is Ok);
        lemma_read_storable(files[f]);
    }
    lemma_merge_storable(rests);
    lemma_read_back(merge_items(rests), 0);
}

} // verus!
