//! The readers of a merge, as values.
//!
//! A merge goes in rounds. In each round the readers that have the smallest
//! term at hand move their entries. This module says what the readers hold
//! before and after a round, and which error a merge runs into first.

use crate::error::FingertipsErrorKind;
use crate::format::Item;
use crate::kway::{
    advance, at_term, gather, head_of, heads_of, lemma_min_term, merge_items, min_term,
};
use crate::read::{lemma_moved_decreases, read_items, IndexFileReader, ReaderView};
use vstd::prelude::*;

verus! {

/// The bytes of each file.
pub open spec fn contents_of(files: Seq<Vec<u8>>) -> Seq<Seq<u8>> {
    Seq::new(files.len(), |i: int| files[i]@)
}

/// Whether each of the files can be read from beginning to end.
pub open spec fn all_readable(files: Seq<Seq<u8>>) -> bool {
    forall|i: int| 0 <= i < files.len() ==> (#[trigger] read_items(files[i])) is Ok
}

/// What a file holds, where it can be read; nothing, where it cannot.
pub open spec fn items_or_none(r: Result<Seq<Item>, FingertipsErrorKind>) -> Seq<Item> {
    match r {
        Ok(items) => items,
        Err(_) => Seq::empty(),
    }
}

/// What each of the files holds.
pub open spec fn items_of(files: Seq<Seq<u8>>) -> Seq<Seq<Item>> {
    Seq::new(files.len(), |i: int| items_or_none(read_items(files[i])))
}

/// The states of the readers.
pub open spec fn views_of(streams: Seq<IndexFileReader>) -> Seq<ReaderView> {
    Seq::new(streams.len(), |i: int| streams[i]@)
}

/// The error of the first file among the first `n` that cannot be opened, if
/// there is one.
pub open spec fn first_unopened(files: Seq<Seq<u8>>, n: int) -> Option<FingertipsErrorKind>
    decreases n,
{
    if n <= 0 {
        None
    } else {
        match (first_unopened(files, n - 1), ReaderView::opened(files[n - 1])) {
            (Some(kind), _) => Some(kind),
            (None, Err(kind)) => Some(kind),
            (None, Ok(_)) => None,
        }
    }
}

/// The readers on the files, as they are opened.
pub open spec fn opened_views(files: Seq<Seq<u8>>) -> Seq<ReaderView> {
    Seq::new(files.len(), |i: int| ReaderView::opened(files[i])->Ok_0)
}

/// An error among the first files is the first error among all.
pub proof fn lemma_first_unopened(files: Seq<Seq<u8>>, m: int, n: int)
    requires
        0 <= m <= n,
        first_unopened(files, m) is Some,
    ensures
        first_unopened(files, n) == first_unopened(files, m),
    decreases n - m,
{
    if m < n {
        lemma_first_unopened(files, m, n - 1);
    }
}

/// Where each of the first files can be opened, none of them gives an error.
pub proof fn lemma_all_opened(files: Seq<Seq<u8>>, n: int)
    requires
        0 <= n <= files.len(),
        forall|i: int| 0 <= i < n ==> (#[trigger] ReaderView::opened(files[i])) is Ok,
    ensures
        first_unopened(files, n) is None,
    decreases n,
{
    if n > 0 {
        lemma_all_opened(files, n - 1);
        assert(ReaderView::opened(files[n - 1]) is Ok);
    }
}

/// The item that a reader has at hand: the entry it has read ahead, with the
/// bytes that moving it hands on.
pub open spec fn reader_head(v: ReaderView) -> Option<Item> {
    match v.next {
        None => None,
        Some(e) => Some(Item { term: e.term, df: e.df, region: v.moved().region }),
    }
}

/// The items that the readers have at hand.
pub open spec fn reader_heads(views: Seq<ReaderView>) -> Seq<Option<Item>> {
    Seq::new(views.len(), |i: int| reader_head(views[i]))
}

/// What each reader has left to read.
pub open spec fn rests_of(views: Seq<ReaderView>) -> Seq<Seq<Item>> {
    Seq::new(views.len(), |i: int| items_or_none(views[i].pending()))
}

/// The readers after those that are at term `t` have moved their entry.
pub open spec fn step_views(views: Seq<ReaderView>, t: Seq<u8>) -> Seq<ReaderView> {
    Seq::new(
        views.len(),
        |i: int|
            if at_term(reader_head(views[i]), t) {
                views[i].moved().reader
            } else {
                views[i]
            },
    )
}

/// The sum of the lengths that the entries of term `t` announce, among the
/// first `n` readers.
pub open spec fn announced(views: Seq<ReaderView>, t: Seq<u8>, n: int) -> int
    decreases n,
{
    if n <= 0 {
        0
    } else {
        announced(views, t, n - 1) + match views[n - 1].next {
            Some(e) if e.term == t => e.nbytes as int,
            _ => 0,
        }
    }
}

/// The number of readers among the first `n` that have an entry at hand.
pub open spec fn count_ahead(views: Seq<ReaderView>, n: int) -> nat
    decreases n,
{
    if n <= 0 {
        0
    } else {
        count_ahead(views, n - 1) + if views[n - 1].next is Some {
            1nat
        } else {
            0nat
        }
    }
}

/// A bound on the number of entries that the first `n` readers have left.
pub open spec fn sum_left(views: Seq<ReaderView>, n: int) -> nat
    decreases n,
{
    if n <= 0 {
        0
    } else {
        sum_left(views, n - 1) + views[n - 1].left()
    }
}

/// The error of the first reader among the first `n` that is at term `t`
/// and cannot move its entry, if there is one.
pub open spec fn first_failure(views: Seq<ReaderView>, t: Seq<u8>, n: int) -> Option<
    FingertipsErrorKind,
>
    decreases n,
{
    if n <= 0 {
        None
    } else {
        match first_failure(views, t, n - 1) {
            Some(kind) => Some(kind),
            None => if at_term(reader_head(views[n - 1]), t) {
                match views[n - 1].moved().result {
                    Err(kind) => Some(kind),
                    Ok(_) => None,
                }
            } else {
                None
            },
        }
    }
}

/// The error that a merge of the readers runs into first, if it runs into
/// one. In each round the readers that are at the smallest term move their
/// entries, in their order.
pub open spec fn merge_error(views: Seq<ReaderView>) -> Option<FingertipsErrorKind>
    decreases sum_left(views, views.len() as int),
    via merge_error_decreases
{
    match min_term(reader_heads(views), views.len() as int) {
        None => None,
        Some(t) => match first_failure(views, t, views.len() as int) {
            Some(kind) => Some(kind),
            None => merge_error(step_views(views, t)),
        },
    }
}

#[via_fn]
pub proof fn merge_error_decreases(views: Seq<ReaderView>) {
    let n = views.len() as int;
    let heads = reader_heads(views);
    if let Some(t) = min_term(heads, n) {
        if first_failure(views, t, n) is None {
            lemma_min_term(heads, n);
            let i = choose|i: int| 0 <= i < n && at_term(heads[i], t);
            lemma_no_failure(views, t, n);
            lemma_step_left(views, t, n, i);
        }
    }
}

/// Where no reader fails, each reader at the term moves its entry.
pub proof fn lemma_no_failure(views: Seq<ReaderView>, t: Seq<u8>, n: int)
    requires
        0 <= n <= views.len(),
        first_failure(views, t, n) is None,
    ensures
        forall|j: int|
            0 <= j < n && at_term(reader_head(#[trigger] views[j]), t)
                ==> views[j].moved().result is Ok,
    decreases n,
{
    if n > 0 {
        lemma_no_failure(views, t, n - 1);
    }
}

/// A failure among the first readers is the first failure among all.
pub proof fn lemma_first_failure(views: Seq<ReaderView>, t: Seq<u8>, m: int, n: int)
    requires
        0 <= m <= n,
        first_failure(views, t, m) is Some,
    ensures
        first_failure(views, t, n) == first_failure(views, t, m),
    decreases n - m,
{
    if m < n {
        lemma_first_failure(views, t, m, n - 1);
    }
}

/// The error that a merge of the files runs into first, if it runs into one:
/// the files are opened in their order, and then merged.
pub open spec fn merge_failure(files: Seq<Seq<u8>>) -> Option<FingertipsErrorKind> {
    match first_unopened(files, files.len() as int) {
        Some(kind) => Some(kind),
        None => merge_error(opened_views(files)),
    }
}

/// A number as a 64-bit field holds it.
pub open spec fn wrap64(x: int) -> u64 {
    (x % 0x1_0000_0000_0000_0000) as u64
}

/// The reader stands somewhere in the given file: reading on from its state
/// fails as reading the whole file fails, or succeeds as that does.
pub open spec fn tracks(v: ReaderView, data: Seq<u8>) -> bool {
    match read_items(data) {
        Err(kind) => v.pending() == Err::<Seq<Item>, FingertipsErrorKind>(kind),
        Ok(_) => v.pending() is Ok,
    }
}

pub proof fn lemma_moved_tracks(v: ReaderView, data: Seq<u8>)
    requires
        tracks(v, data),
        v.next is Some,
    ensures
        v.moved().result is Ok ==> tracks(v.moved().reader, data),
        v.moved().result matches Err(kind) ==> read_items(data) == Err::<
            Seq<Item>,
            FingertipsErrorKind,
        >(kind),
{
}

pub proof fn lemma_none_gathers_nothing(
    heads: Seq<Option<Item>>,
    views: Seq<ReaderView>,
    t: Seq<u8>,
    n: int,
)
    requires
        0 <= n <= views.len(),
        heads == reader_heads(views),
        forall|i: int| 0 <= i < n ==> !at_term(#[trigger] heads[i], t),
    ensures
        gather(heads, t, n) == (Item { term: t, df: 0, region: Seq::empty() }),
        announced(views, t, n) == 0,
    decreases n,
{
    if n > 0 {
        lemma_none_gathers_nothing(heads, views, t, n - 1);
        assert(!at_term(heads[n - 1], t));
    }
}

pub proof fn lemma_announced(heads: Seq<Option<Item>>, views: Seq<ReaderView>, t: Seq<u8>, n: int)
    requires
        0 <= n <= views.len(),
        heads == reader_heads(views),
        forall|i: int|
            0 <= i < n && at_term(#[trigger] heads[i], t) ==> views[i].moved().result is Ok
                && views[i].main >= 0,
    ensures
        gather(heads, t, n).region.len() == announced(views, t, n),
    decreases n,
{
    if n > 0 {
        lemma_announced(heads, views, t, n - 1);
        assert(heads[n - 1] == reader_head(views[n - 1]));
        if at_term(heads[n - 1], t) {
            assert(views[n - 1].moved().result is Ok);
        }
    }
}

pub proof fn lemma_count_ahead(views: Seq<ReaderView>, n: int)
    requires
        0 <= n <= views.len(),
    ensures
        count_ahead(views, n) == 0 <==> forall|i: int|
            0 <= i < n ==> (#[trigger] views[i]).next is None,
    decreases n,
{
    if n > 0 {
        lemma_count_ahead(views, n - 1);
        if count_ahead(views, n) == 0 {
            assert forall|i: int| 0 <= i < n implies (#[trigger] views[i]).next is None by {
                if i < n - 1 {
                } else {
                    assert(views[n - 1].next is None);
                }
            }
        }
    }
}

pub proof fn lemma_step_left(views: Seq<ReaderView>, t: Seq<u8>, n: int, i: int)
    requires
        0 <= n <= views.len(),
        forall|j: int|
            0 <= j < n && at_term(reader_head(#[trigger] views[j]), t)
                ==> views[j].moved().result is Ok,
    ensures
        sum_left(step_views(views, t), n) <= sum_left(views, n),
        0 <= i < n && at_term(reader_head(views[i]), t) ==> sum_left(step_views(views, t), n)
            < sum_left(views, n),
    decreases n,
{
    if n > 0 {
        lemma_step_left(views, t, n - 1, i);
        if at_term(reader_head(views[n - 1]), t) {
            lemma_moved_decreases(views[n - 1]);
        }
    }
}

/// One round of the merge: where every reader can read on, the merge of what
/// the readers have left is the item gathered in this round, and then the
/// merge of what they have left after it.
pub proof fn lemma_merge_step(views: Seq<ReaderView>, t: Seq<u8>)
    requires
        forall|i: int| 0 <= i < views.len() ==> (#[trigger] views[i]).pending() is Ok,
        min_term(reader_heads(views), views.len() as int) == Some(t),
    ensures
        merge_items(rests_of(views)) == seq![
            gather(reader_heads(views), t, views.len() as int),
        ] + merge_items(rests_of(step_views(views, t))),
{
    let rests = rests_of(views);
    assert(heads_of(rests) =~= reader_heads(views)) by {
        assert forall|i: int| 0 <= i < views.len() implies heads_of(rests)[i] == reader_heads(
            views,
        )[i] by {
            lemma_pending_head(views[i]);
        }
    }
    assert(advance(rests, t) =~= rests_of(step_views(views, t))) by {
        assert forall|i: int| 0 <= i < views.len() implies advance(rests, t)[i] == rests_of(
            step_views(views, t),
        )[i] by {
            lemma_pending_head(views[i]);
        }
    }
}

/// Where a reader can read on, the item it has at hand is the first of those
/// it has left, and moving leaves the others.
pub proof fn lemma_pending_head(v: ReaderView)
    requires
        v.pending() is Ok,
    ensures
        head_of(items_or_none(v.pending())) == reader_head(v),
        v.next is Some ==> v.moved().result is Ok && items_or_none(v.moved().reader.pending())
            == items_or_none(v.pending()).drop_first(),
{
    if let Some(e) = v.next {
        let m = v.moved();
        let rest = m.reader.pending()->Ok_0;
        let first = Item { term: e.term, df: e.df, region: m.region };
        assert((seq![first] + rest).drop_first() =~= rest);
    }
}

pub proof fn lemma_all_none(heads: Seq<Option<Item>>, n: int)
    requires
        0 <= n <= heads.len(),
        forall|i: int| 0 <= i < n ==> (#[trigger] heads[i]) is None,
    ensures
        min_term(heads, n) is None,
    decreases n,
{
    if n > 0 {
        lemma_all_none(heads, n - 1);
        assert(heads[n - 1] is None);
    }
}

pub proof fn lemma_count_monotone(views: Seq<ReaderView>, j: int, n: int)
    requires
        0 <= j <= n <= views.len(),
    ensures
        count_ahead(views, j) <= count_ahead(views, n),
        j < n && views[j].next is Some ==> count_ahead(views, j) < count_ahead(views, n),
    decreases n - j,
{
    if j < n {
        lemma_count_monotone(views, j, n - 1);
    }
}

} // verus!
