//! Merging index files.

use crate::error::{FingertipsError, FingertipsErrorKind, FingertipsResult};
use crate::format::{
    ascending, contiguous, entry_of, index_file, layout, lemma_layout_contiguous, main_bytes,
    toc_bytes, EntryView, Item,
};
use crate::kway::{
    all_ascending, at_term, gather, heads_of, lemma_gather_term, lemma_merge_ascending,
    lemma_min_term, merge_items, min_term, not_below,
};
use crate::lex::{compare, lemma_lex_asymmetric, Relation};
use crate::read::{read_items, IndexFileReader, ReaderView};
use crate::streams::{
    all_readable, announced, contents_of, count_ahead, first_failure, first_unopened, items_of,
    lemma_all_none, lemma_all_opened, lemma_announced, lemma_count_ahead, lemma_count_monotone,
    lemma_first_failure, lemma_first_unopened, lemma_merge_step, lemma_moved_tracks,
    lemma_none_gathers_nothing, lemma_step_left, merge_error, merge_failure, opened_views,
    reader_head, reader_heads, rests_of, step_views, sum_left, tracks, views_of, wrap64,
};
use crate::tmp::TmpDir;
use crate::write::IndexFileWriter;
use vstd::prelude::*;
use vstd::utf8::encode_utf8;

verus! {

fn open_all(files: Vec<Vec<u8>>) -> (r: FingertipsResult<Vec<IndexFileReader>>)
    ensures
        match r {
            Ok(streams) => {
                &&& streams@.len() == files@.len()
                &&& first_unopened(contents_of(files@), files@.len() as int) is None
                &&& views_of(streams@) == opened_views(contents_of(files@))
                &&& forall|i: int|
                    0 <= i < files@.len() ==> ReaderView::opened(files@[i]@) == Ok::<
                        ReaderView,
                        FingertipsErrorKind,
                    >((#[trigger] streams@[i])@) && streams@[i].wf()
            },
            Err(e) => {
                &&& first_unopened(contents_of(files@), files@.len() as int) == Some(e.kind())
                &&& exists|i: int|
                    0 <= i < files@.len() && #[trigger] read_items(files@[i]@) == Err::<
                        Seq<Item>,
                        FingertipsErrorKind,
                    >(e.kind())
            },
        },
{
    let mut streams: Vec<IndexFileReader> = Vec::new();
    let ghost all = files@;
    let ghost data = contents_of(files@);
    for file in it: files
        invariant
            all == files@,
            data == contents_of(all),
            streams@.len() == it.index(),
            forall|i: int|
                0 <= i < streams@.len() ==> ReaderView::opened(all[i]@) == Ok::<
                    ReaderView,
                    FingertipsErrorKind,
                >((#[trigger] streams@[i])@) && streams@[i].wf(),
    {
        let ghost n = streams@.len() as int;
        assert(file == all[n]);
        match IndexFileReader::open_and_delete(file) {
            Ok(reader) => {
                streams.push(reader);
            },
            Err(e) => {
                proof {
                    assert(read_items(all[n]@) == Err::<Seq<Item>, FingertipsErrorKind>(e.kind()));
                    assert forall|i: int| 0 <= i < n implies (#[trigger] ReaderView::opened(
                        data[i],
                    )) is Ok by {
                        assert(streams@[i].wf());
                    }
                    lemma_all_opened(data, n);
                    assert(data[n] == all[n]@);
                    lemma_first_unopened(data, n + 1, data.len() as int);
                }
                return Err(e);
            },
        }
    }
    proof {
        assert forall|i: int| 0 <= i < data.len() implies (#[trigger] ReaderView::opened(
            data[i],
        )) is Ok by {
            assert(streams@[i].wf());
        }
        lemma_all_opened(data, data.len() as int);
        assert(views_of(streams@) =~= opened_views(data));
    }
    Ok(streams)
}

/// Merges index files into one.
///
/// Each round takes the smallest term that any file has next, hands the
/// postings of that term on, file by file, and writes one entry for it, with
/// the document counts added up.
pub fn merge_streams(files: Vec<Vec<u8>>) -> (r: FingertipsResult<Vec<u8>>)
    ensures
        match r {
            Ok(out) => {
                let merged = merge_items(items_of(contents_of(files@)));
                &&& all_readable(contents_of(files@))
                &&& out@ == index_file(merged, 0)
                &&& all_ascending(items_of(contents_of(files@))) ==> ascending(merged)
                &&& contiguous(layout(merged, 0), 0, main_bytes(merged).len() as int)
            },
            Err(e) => {
                &&& merge_failure(contents_of(files@)) == Some(e.kind())
                &&& exists|i: int|
                    0 <= i < files@.len() && #[trigger] read_items(files@[i]@) == Err::<
                        Seq<Item>,
                        FingertipsErrorKind,
                    >(e.kind())
            },
        },
{
    let ghost data = contents_of(files@);
    let mut streams = match open_all(files) {
        Ok(streams) => streams,
        Err(e) => {
            let ghost i = choose|i: int|
                0 <= i < files@.len() && #[trigger] read_items(files@[i]@) == Err::<
                    Seq<Item>,
                    FingertipsErrorKind,
                >(e.kind());
            assert(read_items(data[i]) is Err);
            return Err(e);
        },
    };
    let mut output = IndexFileWriter::new();
    let mut point: u64 = 0;
    let mut count: usize = 0;
    let mut i: usize = 0;
    while i < streams.len()
        invariant
            i <= streams.len(),
            count == count_ahead(views_of(streams@), i as int),
            count <= i,
        decreases streams.len() - i,
    {
        if streams[i].peek().is_some() {
            count += 1;
        }
        i += 1;
    }
    let ghost mut emitted: Seq<Item> = Seq::empty();
    proof {
        assert(rests_of(views_of(streams@)) =~= items_of(data));
        assert(emitted + merge_items(items_of(data)) =~= merge_items(items_of(data)));
        assert(layout(emitted, 0) =~= Seq::<EntryView>::empty());
    }
    while count > 0
        invariant
            streams@.len() == data.len(),
            data == contents_of(files@),
            forall|i: int|
                0 <= i < streams@.len() ==> (#[trigger] streams@[i]).wf() && tracks(
                    streams@[i]@,
                    data[i],
                ),
            count == count_ahead(views_of(streams@), streams@.len() as int),
            output.wf(),
            output.main_part() == main_bytes(emitted),
            output.contents_part() == toc_bytes(layout(emitted, 0)),
            point == main_bytes(emitted).len(),
            all_readable(data) ==> emitted + merge_items(rests_of(views_of(streams@)))
                == merge_items(items_of(data)),
            first_unopened(data, data.len() as int) is None,
            merge_error(views_of(streams@)) == merge_error(opened_views(data)),
        decreases sum_left(views_of(streams@), streams@.len() as int),
    {
        let ghost views = views_of(streams@);
        let ghost heads = reader_heads(views);
        let ghost k = streams@.len() as int;
        let mut term: Option<String> = None;
        let mut nbytes: u64 = 0;
        let mut df: u32 = 0;
        let mut i: usize = 0;
        while i < streams.len()
            invariant
                i <= streams.len(),
                views == views_of(streams@),
                heads == reader_heads(views),
                match term {
                    None => min_term(heads, i as int) is None,
                    Some(s) => {
                        &&& min_term(heads, i as int) == Some(encode_utf8(s@))
                        &&& df == gather(heads, encode_utf8(s@), i as int).df
                        &&& nbytes == wrap64(announced(views, encode_utf8(s@), i as int))
                    },
                },
            decreases streams.len() - i,
        {
            proof {
                lemma_min_term(heads, i as int);
            }
            match streams[i].peek() {
                None => {},
                Some(entry) => {
                    let ghost t = encode_utf8(entry.term@);
                    let relation = match &term {
                        None => Relation::Before,
                        Some(s) => compare(entry.term.as_str().as_bytes(), s.as_str().as_bytes()),
                    };
                    match relation {
                        Relation::Before => {
                            proof {
                                assert forall|j: int| 0 <= j < i implies !at_term(
                                    #[trigger] heads[j],
                                    t,
                                ) by {
                                    if let Some(s) = term {
                                        assert(not_below(heads[j], encode_utf8(s@)));
                                    }
                                }
                                lemma_none_gathers_nothing(heads, views, t, i as int);
                            }
                            term = Some(entry.term.clone());
                            nbytes = entry.nbytes;
                            df = entry.df;
                        },
                        Relation::Same => {
                            nbytes = nbytes.wrapping_add(entry.nbytes);
                            df = df.wrapping_add(entry.df);
                        },
                        Relation::After => {
                            proof {
                                lemma_lex_asymmetric(encode_utf8(term->Some_0@), t);
                            }
                        },
                    }
                },
            }
            i += 1;
        }
        proof {
            lemma_count_ahead(views, k);
            lemma_min_term(heads, k);
            if min_term(heads, k) is None {
                assert forall|i: int| 0 <= i < k implies (#[trigger] views[i]).next is None by {
                    assert(heads[i] is None);
                }
            }
        }
        let term = term.unwrap();
        let ghost t = encode_utf8(term@);
        let ghost main0 = output.main_part();
        let ghost stepped = step_views(views, t);
        let mut j: usize = 0;
        while j < streams.len()
            invariant
                j <= streams.len(),
                streams@.len() == k,
                k == data.len(),
                data == contents_of(files@),
                heads == reader_heads(views),
                stepped == step_views(views, t),
                t == encode_utf8(term@),
                views.len() == k,
                forall|i: int| 0 <= i < k ==> tracks(#[trigger] views[i], data[i]),
                forall|i: int|
                    0 <= i < k ==> (#[trigger] streams@[i]).wf() && tracks(streams@[i]@, data[i]),
                forall|i: int| 0 <= i < j ==> (#[trigger] streams@[i])@ == stepped[i],
                forall|i: int| j <= i < k ==> (#[trigger] streams@[i])@ == views[i],
                forall|i: int|
                    0 <= i < j && at_term(#[trigger] heads[i], t) ==> views[i].moved().result
                        is Ok && views[i].main >= 0,
                count == count_ahead(stepped, j as int) + count_ahead(views, k) - count_ahead(
                    views,
                    j as int,
                ),
                output.wf(),
                output.main_part() == main0 + gather(heads, t, j as int).region,
                output.contents_part() == toc_bytes(layout(emitted, 0)),
                first_failure(views, t, j as int) is None,
                min_term(heads, k) == Some(t),
                first_unopened(data, data.len() as int) is None,
                merge_error(views) == merge_error(opened_views(data)),
            decreases streams.len() - j,
        {
            proof {
                lemma_count_monotone(views, j as int, k);
            }
            if streams[j].is_at(term.as_str()) {
                proof {
                    lemma_moved_tracks(views[j as int], data[j as int]);
                }
                match streams[j].move_entry_to(&mut output) {
                    Ok(_) => {},
                    Err(e) => {
                        proof {
                            assert(read_items(data[j as int]) is Err);
                            assert(read_items(files@[j as int]@) == Err::<
                                Seq<Item>,
                                FingertipsErrorKind,
                            >(e.kind()));
                            assert(heads[j as int] == reader_head(views[j as int]));
                            assert(first_failure(views, t, j + 1) == Some(e.kind()));
                            lemma_first_failure(views, t, j + 1, k);
                        }
                        return Err(e);
                    },
                }
                if streams[j].peek().is_none() {
                    count -= 1;
                }
            }
            assert(heads[j as int] == reader_head(views[j as int]));
            assert(output.main_part() =~= main0 + gather(heads, t, j + 1).region);
            j += 1;
        }
        proof {
            assert(views_of(streams@) =~= stepped);
            lemma_announced(heads, views, t, k);
            let i = choose|i: int| 0 <= i < k && at_term(heads[i], t);
            assert forall|j: int|
                0 <= j < k && at_term(reader_head(#[trigger] views[j]), t) implies views[j].moved().result
                is Ok by {
                assert(at_term(heads[j], t));
            }
            lemma_step_left(views, t, k, i);
            let item = gather(heads, t, k);
            lemma_gather_term(heads, t, k);
            let next = emitted.push(item);
            assert(next.drop_last() =~= emitted);
            assert(next.take(emitted.len() as int) =~= emitted);
            assert(layout(next, 0) =~= layout(emitted, 0).push(
                entry_of(next, 0, emitted.len() as int),
            )) by {
                assert forall|i: int| 0 <= i < emitted.len() implies layout(next, 0)[i] == layout(
                    emitted,
                    0,
                )[i] by {
                    assert(next.take(i) =~= emitted.take(i));
                }
            }
            assert(layout(next, 0).drop_last() =~= layout(emitted, 0));
            output.lemma_fits();
            if all_readable(data) {
                assert forall|i: int| 0 <= i < views.len() implies (#[trigger] views[i]).pending()
                    is Ok by {
                    assert(read_items(data[i]) is Ok);
                }
                lemma_merge_step(views, t);
                assert(next + merge_items(rests_of(stepped)) =~= emitted + (seq![item]
                    + merge_items(rests_of(stepped))));
            }
            emitted = next;
        }
        output.write_contents_entry(term, df, point, nbytes);
        point += nbytes;
    }
    proof {
        let views = views_of(streams@);
        lemma_count_ahead(views, views.len() as int);
        assert forall|i: int| 0 <= i < data.len() implies (#[trigger] read_items(data[i]))
            is Ok by {
            assert(views[i].next is None);
            assert(tracks(streams@[i]@, data[i]));
        }
        let heads = heads_of(rests_of(views));
        lemma_min_term(reader_heads(views), views.len() as int);
        assert(heads =~= reader_heads(views)) by {
            assert forall|i: int| 0 <= i < views.len() implies heads[i] == reader_heads(views)[i] by {
                assert(views[i].next is None);
            }
        }
        assert forall|i: int| 0 <= i < views.len() implies (#[trigger] reader_heads(views)[i])
            is None by {
            assert(views[i].next is None);
        }
        lemma_all_none(reader_heads(views), views.len() as int);
        assert(emitted + Seq::<Item>::empty() =~= emitted);
        output.lemma_fits();
        lemma_layout_contiguous(emitted, 0);
        if all_ascending(items_of(data)) {
            lemma_merge_ascending(items_of(data));
        }
    }
    Ok(output.finish())
}

/// How many files are merged at a time, at most.
pub const NSTREAMS: usize = 8;

/// The name that the finished index gets in the output directory.
pub const MERGED_FILENAME: &'static str = "index.dat";

/// The names of the given files.
pub open spec fn names(files: Seq<String>) -> Seq<Seq<char>> {
    Seq::new(files.len(), |i: int| files[i]@)
}

/// The names of the files on each level.
pub open spec fn names_by_level(stacks: Seq<Vec<String>>) -> Seq<Seq<Seq<char>>> {
    Seq::new(stacks.len(), |l: int| names(stacks[l]@))
}

/// The state of a cascade of merges, as a value.
#[verifier::ext_equal]
pub struct MergeView {
    /// The files that wait on each level, the oldest first. Those of level 0
    /// come from the indexer, those of level `l + 1` are merges of
    /// `NSTREAMS` files of level `l`.
    pub stacks: Seq<Seq<Seq<char>>>,
    /// The level on which the next file goes: 0 unless a merge is under way.
    pub level: nat,
    /// The files that wait for the merges that end the build, the newest first.
    pub tmp: Seq<Seq<char>>,
}

/// What the caller is to do at the end of a build, as a value.
#[verifier::ext_equal]
pub enum FinishView {
    /// Merge these files, in this order, and hand the merged file back.
    Merge(Seq<Seq<char>>),
    /// This file is the index: give it its final name.
    Rename(Seq<char>),
    /// There is no file at all.
    Empty,
}

/// The number of files on the first `n` levels.
pub open spec fn files_in(stacks: Seq<Seq<Seq<char>>>, n: int) -> nat
    decreases n,
{
    if n <= 0 {
        0
    } else {
        files_in(stacks, n - 1) + stacks[n - 1].len()
    }
}

/// The lowest level from `from` on that holds a file; the number of levels, if none does.
pub open spec fn lowest(stacks: Seq<Seq<Seq<char>>>, from: int) -> int
    decreases stacks.len() - from,
{
    if from >= stacks.len() {
        stacks.len() as int
    } else if from >= 0 && stacks[from].len() > 0 {
        from
    } else {
        lowest(stacks, from + 1)
    }
}

impl MergeView {
    /// No level is full, and the next file goes on a level that exists or on
    /// the one above them.
    pub open spec fn wf(self) -> bool {
        &&& self.level <= self.stacks.len()
        &&& forall|l: int| 0 <= l < self.stacks.len() ==> (#[trigger] self.stacks[l]).len() < NSTREAMS
        &&& self.tmp.len() < NSTREAMS
    }

    /// The levels with `file` put on the level where the next file goes.
    pub open spec fn pushed(self, file: Seq<char>) -> Seq<Seq<Seq<char>>> {
        if self.level >= self.stacks.len() {
            self.stacks.push(seq![file])
        } else {
            self.stacks.update(self.level as int, self.stacks[self.level as int].push(file))
        }
    }

    /// What `add_file` does: the file goes on its level. If that level is
    /// full then, its files leave it to be merged, and the merged file will go
    /// one level up.
    pub open spec fn added(self, file: Seq<char>) -> (MergeView, Option<Seq<Seq<char>>>) {
        let stacks = self.pushed(file);
        let level = self.level as int;
        if stacks[level].len() < NSTREAMS {
            (MergeView { stacks, level: 0, tmp: self.tmp }, None)
        } else {
            (
                MergeView {
                    stacks: stacks.update(level, Seq::empty()),
                    level: self.level + 1,
                    tmp: self.tmp,
                },
                Some(stacks[level]),
            )
        }
    }

    /// What `finish` does once the merged file, if any, has joined the
    /// waiting files: files leave the levels, the lowest level first and on
    /// each level the newest file first, until `NSTREAMS` files wait. Those
    /// are merged, the oldest first. When the levels are empty, the files
    /// that wait are merged if they are several; a single one is the index.
    pub open spec fn drained(self) -> (MergeView, FinishView)
        decreases files_in(self.stacks, self.stacks.len() as int),
        via Self::drained_decreases
    {
        let l = lowest(self.stacks, 0);
        if self.tmp.len() >= NSTREAMS {
            (MergeView { tmp: Seq::empty(), ..self }, FinishView::Merge(self.tmp.reverse()))
        } else if l >= self.stacks.len() {
            if self.tmp.len() > 1 {
                (MergeView { tmp: Seq::empty(), ..self }, FinishView::Merge(self.tmp.reverse()))
            } else if self.tmp.len() == 1 {
                (MergeView { tmp: Seq::empty(), ..self }, FinishView::Rename(self.tmp[0]))
            } else {
                (self, FinishView::Empty)
            }
        } else {
            MergeView {
                stacks: self.stacks.update(l, self.stacks[l].drop_last()),
                tmp: self.tmp.push(self.stacks[l].last()),
                ..self
            }.drained()
        }
    }

    #[via_fn]
    proof fn drained_decreases(self) {
        let l = lowest(self.stacks, 0);
        lemma_lowest(self.stacks, 0);
        if l < self.stacks.len() {
            lemma_files_in_update(
                self.stacks,
                l,
                self.stacks[l].drop_last(),
                self.stacks.len() as int,
            );
        }
    }

    /// What `finish` does.
    pub open spec fn finished(self, merged: Option<Seq<char>>) -> (MergeView, FinishView) {
        match merged {
            Some(file) => MergeView { tmp: self.tmp.push(file), ..self }.drained(),
            None => self.drained(),
        }
    }
}

/// The lowest level that holds a file holds one, and none below it does.
pub proof fn lemma_lowest(stacks: Seq<Seq<Seq<char>>>, from: int)
    requires
        0 <= from,
    ensures
        from <= lowest(stacks, from) || lowest(stacks, from) == stacks.len(),
        lowest(stacks, from) <= stacks.len(),
        lowest(stacks, from) < stacks.len() ==> stacks[lowest(stacks, from)].len() > 0,
        forall|l: int| from <= l < lowest(stacks, from) ==> (#[trigger] stacks[l]).len() == 0,
    decreases stacks.len() - from,
{
    if from < stacks.len() && stacks[from].len() == 0 {
        lemma_lowest(stacks, from + 1);
    }
}

pub proof fn lemma_files_in_update(
    stacks: Seq<Seq<Seq<char>>>,
    l: int,
    stack: Seq<Seq<char>>,
    n: int,
)
    requires
        0 <= l < stacks.len(),
        0 <= n <= stacks.len(),
    ensures
        files_in(stacks.update(l, stack), n) == if l < n {
            files_in(stacks, n) - stacks[l].len() + stack.len()
        } else {
            files_in(stacks, n) as int
        },
    decreases n,
{
    if n > 0 {
        lemma_files_in_update(stacks, l, stack, n - 1);
    }
}

/// What the caller is to do at the end of a build.
#[derive(Debug)]
pub enum FinishStep {
    /// Merge these files, in this order, into a new temporary file, and hand
    /// that file to `finish`.
    Merge(Vec<String>),
    /// This file is the index: rename it to `index.dat` in the output directory.
    Rename(String),
}

impl View for FinishStep {
    type V = FinishView;

    open spec fn view(&self) -> FinishView {
        match self {
            FinishStep::Merge(files) => FinishView::Merge(names(files@)),
            FinishStep::Rename(file) => FinishView::Rename(file@),
        }
    }
}

/// Keeps the index files of a build and says which of them to merge.
///
/// To merge all files at the end, each of them would have to be open at once.
/// Instead the files are merged `NSTREAMS` at a time as they come: the files
/// of the indexer wait on level 0, and when `NSTREAMS` wait on a level, they
/// are merged into one file of the level above. No file is merged more than
/// once per level.
///
/// The merger names the files and leaves the work on them to its caller.
#[derive(Clone, Debug)]
pub struct FileMerge {
    output_dir: String,
    tmp_dir: TmpDir,
    stacks: Vec<Vec<String>>,
    level: usize,
    tmp: Vec<String>,
}

impl View for FileMerge {
    type V = MergeView;

    closed spec fn view(&self) -> MergeView {
        MergeView {
            stacks: names_by_level(self.stacks@),
            level: self.level as nat,
            tmp: names(self.tmp@),
        }
    }
}

impl FileMerge {
    /// The directory in which the index is built.
    pub closed spec fn spec_output_dir(self) -> Seq<char> {
        self.output_dir@
    }

    /// The source of names for the merged files.
    pub closed spec fn spec_tmp_dir(self) -> TmpDir {
        self.tmp_dir
    }

    /// A merger without files, for a build in the given directory.
    pub fn new(output_dir: &str) -> (merge: FileMerge)
        ensures
            merge@ == (MergeView { stacks: Seq::empty(), level: 0, tmp: Seq::empty() }),
            merge@.wf(),
            merge.spec_output_dir() == output_dir@,
            merge.spec_tmp_dir().spec_dir() == output_dir@,
            merge.spec_tmp_dir().spec_count() == 1,
    {
        let merge = FileMerge {
            output_dir: output_dir.to_owned(),
            tmp_dir: TmpDir::new(output_dir),
            stacks: Vec::new(),
            level: 0,
            tmp: Vec::new(),
        };
        assert(merge@ =~~= (MergeView { stacks: Seq::empty(), level: 0, tmp: Seq::empty() }));
        merge
    }

    /// The directory in which the index is built.
    pub fn output_dir(&self) -> (dir: &str)
        ensures
            dir@ == self.spec_output_dir(),
    {
        self.output_dir.as_str()
    }

    /// The source of names for the merged files.
    pub fn tmp_dir(&mut self) -> (tmp_dir: &mut TmpDir)
        ensures
            *tmp_dir == old(self).spec_tmp_dir(),
            final(self).spec_tmp_dir() == *final(tmp_dir),
            final(self)@ == old(self)@,
            final(self).spec_output_dir() == old(self).spec_output_dir(),
    {
        &mut self.tmp_dir
    }

    /// The files that wait on each level.
    pub fn stacks(&self) -> (stacks: &Vec<Vec<String>>)
        ensures
            names_by_level(stacks@) == self@.stacks,
    {
        &self.stacks
    }

    /// Takes a file into the cascade: a file of the indexer, or the merged
    /// file that the call before asked for.
    ///
    /// `Some` asks for a merge: the caller merges the files given, in their
    /// order, into a new temporary file and hands that file to `add_file`.
    /// `None` says that nothing is left to do for the file.
    pub fn add_file(&mut self, file: String) -> (r: Option<Vec<String>>)
        requires
            old(self)@.wf(),
        ensures
            final(self)@.wf(),
            final(self)@ == old(self)@.added(file@).0,
            match r {
                Some(files) => old(self)@.added(file@).1 == Some(names(files@)) && files@.len()
                    == NSTREAMS,
                None => old(self)@.added(file@).1 is None,
            },
            final(self).spec_output_dir() == old(self).spec_output_dir(),
            final(self).spec_tmp_dir() == old(self).spec_tmp_dir(),
    {
        let level = self.level;
        if level == self.stacks.len() {
            self.stacks.push(Vec::new());
        }
        self.stacks[level].push(file);
        assert(names_by_level(self.stacks@) =~~= old(self)@.pushed(file@));
        if self.stacks[level].len() < NSTREAMS {
            self.level = 0;
            assert(self@ =~~= old(self)@.added(file@).0);
            return None;
        }
        let mut to_merge: Vec<String> = Vec::new();
        std::mem::swap(&mut self.stacks[level], &mut to_merge);
        self.level = level + 1;
        assert(self@ =~~= old(self)@.added(file@).0);
        Some(to_merge)
    }

    /// Ends the build: says which of the files that are left to merge, until
    /// one is left, and then to give that one its final name.
    ///
    /// The first call takes `None`. After `Merge`, the caller merges the
    /// files given, in their order, into a new temporary file and calls again
    /// with that file. `Rename` ends the build. The error is `EmptyCorpus`:
    /// no file was ever added.
    pub fn finish(&mut self, merged: Option<String>) -> (r: FingertipsResult<FinishStep>)
        requires
            old(self)@.wf(),
        ensures
            final(self)@.wf(),
            final(self)@ == old(self)@.finished(option_name(merged)).0,
            match r {
                Ok(step) => step@ == old(self)@.finished(option_name(merged)).1,
                Err(e) => e.kind() == FingertipsErrorKind::EmptyCorpus && old(self)@.finished(
                    option_name(merged),
                ).1 == FinishView::Empty,
            },
            r matches Ok(FinishStep::Merge(files)) ==> 2 <= files@.len() <= NSTREAMS,
            final(self).spec_output_dir() == old(self).spec_output_dir(),
            final(self).spec_tmp_dir() == old(self).spec_tmp_dir(),
    {
        if let Some(file) = merged {
            self.tmp.push(file);
        }
        let ghost start = self@;
        assert(start =~~= match option_name(merged) {
            Some(file) => MergeView { tmp: old(self)@.tmp.push(file), ..old(self)@ },
            None => old(self)@,
        });
        assert(old(self)@.finished(option_name(merged)) == start.drained());
        let mut level: usize = 0;
        loop
            invariant
                old(self)@.finished(option_name(merged)) == start.drained(),
                self@.drained() == start.drained(),
                self@.level == start.level,
                self@.level <= self@.stacks.len(),
                forall|l: int|
                    0 <= l < self@.stacks.len() ==> (#[trigger] self@.stacks[l]).len() < NSTREAMS,
                self@.tmp.len() <= NSTREAMS,
                level <= self.stacks@.len(),
                forall|l: int| 0 <= l < level ==> (#[trigger] self@.stacks[l]).len() == 0,
                self.output_dir == old(self).output_dir,
                self.tmp_dir == old(self).tmp_dir,
            ensures
                self@.tmp.len() < NSTREAMS,
                lowest(self@.stacks, 0) >= self@.stacks.len(),
            decreases files_in(self@.stacks, self@.stacks.len() as int), self.stacks@.len() - level,
        {
            if self.tmp.len() >= NSTREAMS {
                let files = merge_reversed(&mut self.tmp);
                assert(self@ =~~= start.drained().0);
                return Ok(FinishStep::Merge(files));
            }
            proof {
                lemma_lowest_from(self@.stacks, level as int);
            }
            if level == self.stacks.len() {
                break ;
            }
            if self.stacks[level].len() == 0 {
                level += 1;
            } else {
                let ghost before = self@;
                proof {
                    lemma_lowest(before.stacks, 0);
                    lemma_lowest(before.stacks, level as int);
                    lemma_files_in_update(
                        before.stacks,
                        level as int,
                        before.stacks[level as int].drop_last(),
                        before.stacks.len() as int,
                    );
                }
                let file = self.stacks[level].pop().unwrap();
                self.tmp.push(file);
                assert(self@ =~~= MergeView {
                    stacks: before.stacks.update(
                        level as int,
                        before.stacks[level as int].drop_last(),
                    ),
                    tmp: before.tmp.push(before.stacks[level as int].last()),
                    ..before
                });
            }
        }
        if self.tmp.len() > 1 {
            let files = merge_reversed(&mut self.tmp);
            assert(self@ =~~= start.drained().0);
            return Ok(FinishStep::Merge(files));
        }
        match self.tmp.pop() {
            Some(last_file) => {
                assert(self@ =~~= start.drained().0);
                Ok(FinishStep::Rename(last_file))
            },
            None => {
                assert(self@ =~~= start.drained().0);
                Err(FingertipsError::new(FingertipsErrorKind::EmptyCorpus))
            },
        }
    }
}

/// The name of the file, if there is one.
pub open spec fn option_name(file: Option<String>) -> Option<Seq<char>> {
    match file {
        Some(file) => Some(file@),
        None => None,
    }
}

/// Where no level below `from` holds a file, the lowest level that does is
/// found from `from` on.
proof fn lemma_lowest_from(stacks: Seq<Seq<Seq<char>>>, from: int)
    requires
        0 <= from <= stacks.len(),
        forall|l: int| 0 <= l < from ==> (#[trigger] stacks[l]).len() == 0,
    ensures
        lowest(stacks, 0) == lowest(stacks, from),
    decreases from,
{
    if from > 0 {
        lemma_lowest_from(stacks, from - 1);
    }
}

/// Takes the files that wait, the oldest first.
pub fn merge_reversed(filenames: &mut Vec<String>) -> (to_merge: Vec<String>)
    ensures
        names(to_merge@) == names(old(filenames)@).reverse(),
        to_merge@.len() == old(filenames)@.len(),
        final(filenames)@.len() == 0,
{
    let mut to_merge: Vec<String> = Vec::new();
    let ghost all = filenames@;
    while filenames.len() > 0
        invariant
            filenames@.len() + to_merge@.len() == all.len(),
            forall|i: int| 0 <= i < filenames@.len() ==> filenames@[i] == all[i],
            forall|i: int| 0 <= i < to_merge@.len() ==> to_merge@[i] == all[all.len() - 1 - i],
        decreases filenames@.len(),
    {
        let file = filenames.pop().unwrap();
        to_merge.push(file);
    }
    assert(names(to_merge@) =~~= names(all).reverse());
    to_merge
}

} // verus!
