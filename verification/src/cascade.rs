//! Why files can be merged in a cascade.
//!
//! A build does not merge all its files at once: it merges a few, then
//! merges the merged files with others, and so on. That gives the same index
//! as one merge of all the files, in the order in which they came, for two
//! reasons. A merge of merges is the merge of all. And the cascade keeps the
//! order of the files: what it asks to merge are always the newest files, and
//! the merged file takes their place.

use crate::format::{ascending, Item};
use crate::kway::{
    all_ascending, at_term, found, founds, gather, holds, lemma_found, lemma_gather_term,
    lemma_merge_ascending, lemma_merge_totals, merge_items, wrapped_sum,
};
use crate::lex::lemma_lex_asymmetric;
use crate::merge::{
    files_in, lemma_files_in_update, lemma_lowest, lowest, FinishView, MergeView, NSTREAMS,
};
use vstd::prelude::*;

verus! {

/// The files of all groups, group after group.
pub open spec fn flat(groups: Seq<Seq<Seq<Item>>>) -> Seq<Seq<Item>>
    decreases groups.len(),
{
    if groups.len() == 0 {
        Seq::empty()
    } else {
        flat(groups.drop_last()) + groups.last()
    }
}

/// The merge of each group.
pub open spec fn merged_groups(groups: Seq<Seq<Seq<Item>>>) -> Seq<Seq<Item>> {
    Seq::new(groups.len(), |g: int| merge_items(groups[g]))
}

/// Two gathered items of a term, joined: the document counts added up, and
/// the regions one after the other.
pub open spec fn join(a: Item, b: Item) -> Item {
    Item { term: a.term, df: wrapped_sum(a.df, b.df), region: a.region + b.region }
}

/// Files with ascending terms that hold the same item for every term are the same.
pub proof fn lemma_ascending_equal(a: Seq<Item>, b: Seq<Item>)
    requires
        ascending(a),
        ascending(b),
        forall|t: Seq<u8>| #[trigger] found(a, t) == found(b, t),
    ensures
        a == b,
    decreases a.len() + b.len(),
{
    if a.len() == 0 {
        if b.len() > 0 {
            lemma_found(b, 0);
            assert(found(a, b[0].term) == found(b, b[0].term));
        }
        assert(a =~= b);
    } else if b.len() == 0 {
        lemma_found(a, 0);
        assert(found(a, a[0].term) == found(b, a[0].term));
    } else {
        lemma_found(a, 0);
        lemma_found(b, 0);
        assert(found(a, a[0].term) == found(b, a[0].term));
        assert(found(a, b[0].term) == found(b, b[0].term));
        let j = choose|j: int| 0 <= j < b.len() && (#[trigger] b[j]).term == a[0].term;
        let i = choose|i: int| 0 <= i < a.len() && (#[trigger] a[i]).term == b[0].term;
        lemma_found(b, j);
        lemma_found(a, i);
        lemma_lex_asymmetric(a[0].term, b[0].term);
        lemma_lex_asymmetric(a[0].term, a[0].term);
        if j > 0 {
            assert(crate::lex::lex_lt(b[0].term, b[j].term));
            if i > 0 {
                assert(crate::lex::lex_lt(a[0].term, a[i].term));
            }
        }
        assert(a[0] == b[0]);
        let ta = a.drop_first();
        let tb = b.drop_first();
        assert(ascending(ta)) by {
            assert forall|x: int, y: int| 0 <= x < y < ta.len() implies crate::lex::lex_lt(
                (#[trigger] ta[x]).term,
                (#[trigger] ta[y]).term,
            ) by {
                assert(crate::lex::lex_lt(a[x + 1].term, a[y + 1].term));
            }
        }
        assert(ascending(tb)) by {
            assert forall|x: int, y: int| 0 <= x < y < tb.len() implies crate::lex::lex_lt(
                (#[trigger] tb[x]).term,
                (#[trigger] tb[y]).term,
            ) by {
                assert(crate::lex::lex_lt(b[x + 1].term, b[y + 1].term));
            }
        }
        assert forall|t: Seq<u8>| #[trigger] found(ta, t) == found(tb, t) by {
            lemma_found_tail(a, t);
            lemma_found_tail(b, t);
            assert(found(a, t) == found(b, t));
        }
        lemma_ascending_equal(ta, tb);
        assert(a =~= seq![a[0]] + ta);
        assert(b =~= seq![b[0]] + tb);
    }
}

/// What a file with ascending terms holds for a term behind its first item:
/// nothing for the term of the first item, and what the whole file holds for
/// every other term.
proof fn lemma_found_tail(a: Seq<Item>, t: Seq<u8>)
    requires
        ascending(a),
        a.len() > 0,
    ensures
        found(a.drop_first(), t) == if t == a[0].term {
            None
        } else {
            found(a, t)
        },
{
    let tail = a.drop_first();
    assert(ascending(tail)) by {
        assert forall|x: int, y: int| 0 <= x < y < tail.len() implies crate::lex::lex_lt(
            (#[trigger] tail[x]).term,
            (#[trigger] tail[y]).term,
        ) by {
            assert(crate::lex::lex_lt(a[x + 1].term, a[y + 1].term));
        }
    }
    lemma_lex_asymmetric(t, t);
    if holds(tail, t) {
        let k = choose|k: int| 0 <= k < tail.len() && (#[trigger] tail[k]).term == t;
        assert(a[k + 1] == tail[k]);
        lemma_found(tail, k);
        lemma_found(a, k + 1);
        if t == a[0].term {
            assert(crate::lex::lex_lt(a[0].term, a[k + 1].term));
        }
    } else if t != a[0].term && holds(a, t) {
        let k = choose|k: int| 0 <= k < a.len() && (#[trigger] a[k]).term == t;
        assert(tail[k - 1] == a[k]);
    }
}

/// Adding up document counts does not depend on how the sums are grouped.
proof fn lemma_wrapped_sum_groups(a: u32, b: u32, c: u32)
    ensures
        wrapped_sum(wrapped_sum(a, b), c) == wrapped_sum(a, wrapped_sum(b, c)),
        wrapped_sum(a, 0) == a,
{
}

/// Gathering over files and more files is gathering over each and joining.
proof fn lemma_gather_joins(x: Seq<Option<Item>>, y: Seq<Option<Item>>, t: Seq<u8>, n: int)
    requires
        0 <= n <= y.len(),
    ensures
        gather(x + y, t, x.len() + n) == join(
            gather(x, t, x.len() as int),
            gather(y, t, n),
        ),
    decreases n,
{
    let whole = x + y;
    let left = gather(x, t, x.len() as int);
    lemma_gather_term(x, t, x.len() as int);
    if n == 0 {
        lemma_gather_prefix(whole, x, t, x.len() as int);
        assert(left.region + Seq::<u8>::empty() =~= left.region);
    } else {
        lemma_gather_joins(x, y, t, n - 1);
        let before = gather(y, t, n - 1);
        assert(whole[x.len() + n - 1] == y[n - 1]);
        if let Some(item) = y[n - 1] {
            if item.term == t {
                lemma_wrapped_sum_groups(left.df, before.df, item.df);
                assert((left.region + before.region) + item.region =~= left.region + (before.region
                    + item.region));
            }
        }
    }
}

/// Gathering looks at the first `n` heads alone.
proof fn lemma_gather_prefix(a: Seq<Option<Item>>, b: Seq<Option<Item>>, t: Seq<u8>, n: int)
    requires
        0 <= n <= a.len(),
        n <= b.len(),
        forall|i: int| 0 <= i < n ==> a[i] == b[i],
    ensures
        gather(a, t, n) == gather(b, t, n),
    decreases n,
{
    if n > 0 {
        lemma_gather_prefix(a, b, t, n - 1);
    }
}

/// Where no head is of the term, nothing is gathered.
proof fn lemma_gather_nothing(heads: Seq<Option<Item>>, t: Seq<u8>, n: int)
    requires
        0 <= n <= heads.len(),
        forall|i: int| 0 <= i < n ==> !at_term(#[trigger] heads[i], t),
    ensures
        gather(heads, t, n) == (Item { term: t, df: 0, region: Seq::empty() }),
    decreases n,
{
    if n > 0 {
        lemma_gather_nothing(heads, t, n - 1);
        assert(!at_term(heads[n - 1], t));
    }
}

/// The files of all groups have ascending terms if the files of each group have.
proof fn lemma_flat_ascending(groups: Seq<Seq<Seq<Item>>>)
    requires
        forall|g: int| 0 <= g < groups.len() ==> all_ascending(#[trigger] groups[g]),
    ensures
        all_ascending(flat(groups)),
        groups.len() > 0 ==> flat(groups).len() == flat(groups.drop_last()).len()
            + groups.last().len(),
    decreases groups.len(),
{
    if groups.len() > 0 {
        let front = groups.drop_last();
        assert forall|g: int| 0 <= g < front.len() implies all_ascending(#[trigger] front[g]) by {
            assert(front[g] == groups[g]);
        }
        lemma_flat_ascending(front);
        assert(all_ascending(groups[groups.len() - 1]));
        let all = flat(groups);
        assert forall|f: int| 0 <= f < all.len() implies ascending(#[trigger] all[f]) by {
            if f < flat(front).len() {
                assert(all[f] == flat(front)[f]);
            } else {
                assert(all[f] == groups.last()[f - flat(front).len()]);
            }
        }
    }
}

/// What the merged groups hold for a term, gathered, is what all the files
/// hold for it, gathered; and a merged group holds the term if a file does.
proof fn lemma_groups_gather(groups: Seq<Seq<Seq<Item>>>, t: Seq<u8>)
    requires
        forall|g: int| 0 <= g < groups.len() ==> all_ascending(#[trigger] groups[g]),
    ensures
        gather(founds(merged_groups(groups), t), t, groups.len() as int) == gather(
            founds(flat(groups), t),
            t,
            flat(groups).len() as int,
        ),
        (exists|g: int|
            0 <= g < groups.len() && holds(#[trigger] merged_groups(groups)[g], t)) <==> (exists|
            f: int,
        | 0 <= f < flat(groups).len() && holds(#[trigger] flat(groups)[f], t)),
    decreases groups.len(),
{
    let merged = merged_groups(groups);
    let all = flat(groups);
    if groups.len() == 0 {
    } else {
        let n = groups.len() as int;
        let front = groups.drop_last();
        let last = groups.last();
        assert forall|g: int| 0 <= g < front.len() implies all_ascending(#[trigger] front[g]) by {
            assert(front[g] == groups[g]);
        }
        lemma_groups_gather(front, t);
        lemma_flat_ascending(groups);
        let merged_front = merged_groups(front);
        let all_front = flat(front);
        assert forall|g: int| 0 <= g < n - 1 implies founds(merged, t)[g] == founds(
            merged_front,
            t,
        )[g] by {
            assert(front[g] == groups[g]);
        }
        lemma_gather_prefix(founds(merged, t), founds(merged_front, t), t, n - 1);
        assert(founds(all, t) =~= founds(all_front, t) + founds(last, t));
        lemma_gather_joins(founds(all_front, t), founds(last, t), t, last.len() as int);
        assert(all_ascending(last));
        lemma_merge_totals(last, t);
        lemma_merge_ascending(last);
        let before = gather(founds(merged, t), t, n - 1);
        lemma_gather_term(founds(merged, t), t, n - 1);
        let head = found(merge_items(last), t);
        assert(founds(merged, t)[n - 1] == head);
        if exists|f: int| 0 <= f < last.len() && holds(#[trigger] last[f], t) {
            let f = choose|f: int| 0 <= f < last.len() && holds(#[trigger] last[f], t);
            lemma_gather_term(founds(last, t), t, last.len() as int);
            assert(holds(merge_items(last), t));
            assert(holds(merged[n - 1], t));
            assert(all[all_front.len() + f] == last[f]);
            assert(holds(all[all_front.len() + f], t));
        } else {
            assert forall|f: int| 0 <= f < last.len() implies !at_term(
                #[trigger] founds(last, t)[f],
                t,
            ) by {
                assert(!holds(last[f], t));
            }
            lemma_gather_nothing(founds(last, t), t, last.len() as int);
            assert(before.region + Seq::<u8>::empty() =~= before.region);
            assert(!holds(merged[n - 1], t));
        }
        assert((exists|g: int| 0 <= g < groups.len() && holds(#[trigger] merged[g], t)) <==> (
        exists|f: int| 0 <= f < all.len() && holds(#[trigger] all[f], t))) by {
            if exists|g: int| 0 <= g < groups.len() && holds(#[trigger] merged[g], t) {
                let g = choose|g: int| 0 <= g < groups.len() && holds(#[trigger] merged[g], t);
                if g < n - 1 {
                    assert(merged[g] == merged_front[g]) by {
                        assert(front[g] == groups[g]);
                    }
                    assert(holds(merged_front[g], t));
                    let f = choose|f: int|
                        0 <= f < all_front.len() && holds(#[trigger] all_front[f], t);
                    assert(all[f] == all_front[f]);
                    assert(holds(all[f], t));
                }
            }
            if exists|f: int| 0 <= f < all.len() && holds(#[trigger] all[f], t) {
                let f = choose|f: int| 0 <= f < all.len() && holds(#[trigger] all[f], t);
                if f < all_front.len() {
                    assert(all[f] == all_front[f]);
                    assert(holds(all_front[f], t));
                    let g = choose|g: int|
                        0 <= g < front.len() && holds(#[trigger] merged_front[g], t);
                    assert(merged[g] == merged_front[g]) by {
                        assert(front[g] == groups[g]);
                    }
                    assert(holds(merged[g], t));
                } else {
                    assert(all[f] == last[f - all_front.len()]);
                    assert(holds(last[f - all_front.len()], t));
                }
            }
        }
    }
}

/// A merge of merges is the merge of all. Where files with ascending terms
/// are merged group by group, and the merged files are merged in the order of
/// the groups, the outcome is that of merging all the files at once, group
/// after group.
pub proof fn lemma_merge_of_merges(groups: Seq<Seq<Seq<Item>>>)
    requires
        forall|g: int| 0 <= g < groups.len() ==> all_ascending(#[trigger] groups[g]),
    ensures
        merge_items(merged_groups(groups)) == merge_items(flat(groups)),
{
    let merged = merged_groups(groups);
    let all = flat(groups);
    assert(all_ascending(merged)) by {
        assert forall|g: int| 0 <= g < merged.len() implies ascending(#[trigger] merged[g]) by {
            assert(all_ascending(groups[g]));
            lemma_merge_ascending(groups[g]);
        }
    }
    lemma_flat_ascending(groups);
    lemma_merge_ascending(merged);
    lemma_merge_ascending(all);
    assert forall|t: Seq<u8>| #[trigger]
        found(merge_items(merged), t) == found(merge_items(all), t) by {
        lemma_merge_totals(merged, t);
        lemma_merge_totals(all, t);
        lemma_groups_gather(groups, t);
    }
    lemma_ascending_equal(merge_items(merged), merge_items(all));
}

/// The merge of a single file with ascending terms is the file.
pub proof fn lemma_merge_single(file: Seq<Item>)
    requires
        ascending(file),
    ensures
        merge_items(seq![file]) == file,
{
    let rests = seq![file];
    assert(all_ascending(rests));
    lemma_merge_ascending(rests);
    assert forall|t: Seq<u8>| #[trigger] found(merge_items(rests), t) == found(file, t) by {
        lemma_merge_totals(rests, t);
        reveal_with_fuel(gather, 2);
        if holds(file, t) {
            let i = choose|i: int| 0 <= i < file.len() && (#[trigger] file[i]).term == t;
            lemma_found(file, i);
            assert(holds(rests[0], t));
            assert(founds(rests, t)[0] == Some(file[i]));
            assert(Seq::<u8>::empty() + file[i].region =~= file[i].region);
        } else {
            assert forall|f: int| 0 <= f < rests.len() implies !holds(#[trigger] rests[f], t) by {
                assert(rests[f] == file);
            }
        }
    }
    lemma_ascending_equal(merge_items(rests), file);
}

/// The groups in which each file stands alone, and behind them one group
/// of several files.
pub open spec fn alone_then(before: Seq<Seq<Item>>, group: Seq<Seq<Item>>) -> Seq<Seq<Seq<Item>>> {
    Seq::new(
        before.len() + 1,
        |g: int|
            if g < before.len() {
                seq![before[g]]
            } else {
                group
            },
    )
}

proof fn lemma_flat_alone(before: Seq<Seq<Item>>, n: int)
    requires
        0 <= n <= before.len(),
    ensures
        flat(Seq::new(n as nat, |g: int| seq![before[g]])) == before.take(n),
    decreases n,
{
    let groups = Seq::new(n as nat, |g: int| seq![before[g]]);
    if n == 0 {
        assert(before.take(0) =~= Seq::<Seq<Item>>::empty());
    } else {
        lemma_flat_alone(before, n - 1);
        assert(groups.drop_last() =~= Seq::new((n - 1) as nat, |g: int| seq![before[g]]));
        assert(before.take(n - 1) + seq![before[n - 1]] =~= before.take(n));
    }
}

/// A cascade merges in steps: where the newest files are merged into one,
/// and that file is put in their place, the merge of all files stays what it
/// was. The files have to have ascending terms.
pub proof fn lemma_merge_in_steps(before: Seq<Seq<Item>>, group: Seq<Seq<Item>>)
    requires
        all_ascending(before),
        all_ascending(group),
    ensures
        merge_items(before + seq![merge_items(group)]) == merge_items(before + group),
{
    let groups = alone_then(before, group);
    let n = before.len() as int;
    assert forall|g: int| 0 <= g < groups.len() implies all_ascending(#[trigger] groups[g]) by {
        if g < n {
            assert(ascending(before[g]));
        }
    }
    lemma_merge_of_merges(groups);
    assert(merged_groups(groups) =~= before + seq![merge_items(group)]) by {
        assert forall|g: int| 0 <= g < groups.len() implies merged_groups(groups)[g] == (before
            + seq![merge_items(group)])[g] by {
            if g < n {
                assert(ascending(before[g]));
                lemma_merge_single(before[g]);
            }
        }
    }
    assert(flat(groups) =~= before + group) by {
        lemma_flat_alone(before, n);
        assert(groups.drop_last() =~= Seq::new(n as nat, |g: int| seq![before[g]]));
        assert(before.take(n) =~= before);
    }
}

/// The files on the levels from `from` up to `to`, the oldest first. The
/// files of a level are older than those of the levels below it.
pub open spec fn waiting_on(stacks: Seq<Seq<Seq<char>>>, from: int, to: int) -> Seq<Seq<char>>
    decreases to - from,
{
    if to <= from {
        Seq::empty()
    } else {
        stacks[to - 1] + waiting_on(stacks, from, to - 1)
    }
}

/// The files that wait in a cascade, the oldest first: those on the levels,
/// and then those that wait for the merges that end the build.
pub open spec fn waiting(v: MergeView) -> Seq<Seq<char>> {
    waiting_on(v.stacks, 0, v.stacks.len() as int) + v.tmp.reverse()
}

/// Whether the levels below the one on which the next file goes are empty,
/// as they are while the files of a build come in.
pub open spec fn empty_below(v: MergeView) -> bool {
    forall|l: int| 0 <= l < v.level && l < v.stacks.len() ==> (#[trigger] v.stacks[l]).len() == 0
}

proof fn lemma_waiting_split(stacks: Seq<Seq<Seq<char>>>, from: int, mid: int, to: int)
    requires
        from <= mid <= to,
    ensures
        waiting_on(stacks, from, to) == waiting_on(stacks, mid, to) + waiting_on(stacks, from, mid),
    decreases to - mid,
{
    if mid < to {
        lemma_waiting_split(stacks, from, mid, to - 1);
        assert(stacks[to - 1] + (waiting_on(stacks, mid, to - 1) + waiting_on(stacks, from, mid))
            =~= (stacks[to - 1] + waiting_on(stacks, mid, to - 1)) + waiting_on(stacks, from, mid));
    } else {
        assert(Seq::<Seq<char>>::empty() + waiting_on(stacks, from, mid) =~= waiting_on(
            stacks,
            from,
            mid,
        ));
    }
}

proof fn lemma_waiting_same(
    a: Seq<Seq<Seq<char>>>,
    b: Seq<Seq<Seq<char>>>,
    from: int,
    to: int,
)
    requires
        0 <= from,
        to <= a.len(),
        to <= b.len(),
        forall|l: int| from <= l < to ==> a[l] == b[l],
    ensures
        waiting_on(a, from, to) == waiting_on(b, from, to),
    decreases to - from,
{
    if from < to {
        lemma_waiting_same(a, b, from, to - 1);
    }
}

proof fn lemma_waiting_empty(stacks: Seq<Seq<Seq<char>>>, from: int, to: int)
    requires
        0 <= from,
        to <= stacks.len(),
        forall|l: int| from <= l < to ==> (#[trigger] stacks[l]).len() == 0,
    ensures
        waiting_on(stacks, from, to) == Seq::<Seq<char>>::empty(),
    decreases to - from,
{
    if from < to {
        lemma_waiting_empty(stacks, from, to - 1);
        assert(stacks[to - 1] + Seq::<Seq<char>>::empty() =~= Seq::<Seq<char>>::empty());
    }
}

/// What putting another stack on a level does to the files that wait, where
/// the levels below are empty.
proof fn lemma_waiting_update(stacks: Seq<Seq<Seq<char>>>, l: int, stack: Seq<Seq<char>>)
    requires
        0 <= l < stacks.len(),
        forall|k: int| 0 <= k < l ==> (#[trigger] stacks[k]).len() == 0,
    ensures
        waiting_on(stacks.update(l, stack), 0, stacks.len() as int) == waiting_on(
            stacks,
            l + 1,
            stacks.len() as int,
        ) + stack,
        waiting_on(stacks, 0, stacks.len() as int) == waiting_on(
            stacks,
            l + 1,
            stacks.len() as int,
        ) + stacks[l],
{
    let n = stacks.len() as int;
    let other = stacks.update(l, stack);
    lemma_waiting_split(stacks, 0, l + 1, n);
    lemma_waiting_split(other, 0, l + 1, n);
    lemma_waiting_same(stacks, other, l + 1, n);
    lemma_waiting_same(stacks, other, 0, l);
    lemma_waiting_empty(stacks, 0, l);
    assert(waiting_on(stacks, 0, l + 1) =~= stacks[l]);
    assert(waiting_on(other, 0, l + 1) =~= stack);
}

/// A cascade keeps the order of the files. A file that is added is the
/// newest of the files that wait. Where a merge is asked for, the files to
/// merge are the newest, in their order, and the merged file takes their place.
pub proof fn lemma_added_order(v: MergeView, file: Seq<char>)
    requires
        v.wf(),
        empty_below(v),
        v.tmp.len() == 0,
    ensures
        empty_below(v.added(file).0),
        v.added(file).0.tmp.len() == 0,
        match v.added(file).1 {
            None => waiting(v.added(file).0) == waiting(v) + seq![file],
            Some(files) => waiting(v.added(file).0) + files == waiting(v) + seq![file],
        },
{
    let after = v.added(file).0;
    let pushed = v.pushed(file);
    let l = v.level as int;
    let n = v.stacks.len() as int;
    assert(v.tmp.reverse() =~= Seq::<Seq<char>>::empty());
    assert(after.tmp.reverse() =~= Seq::<Seq<char>>::empty());
    if l == n {
        lemma_waiting_empty(v.stacks, 0, n);
        lemma_waiting_same(v.stacks, pushed, 0, n);
        assert(waiting_on(pushed, 0, n + 1) =~= seq![file]);
        if pushed[l].len() >= NSTREAMS {
            lemma_waiting_update(pushed, l, Seq::empty());
            assert(waiting_on(pushed, l + 1, n + 1) =~= Seq::<Seq<char>>::empty());
        }
        assert(match v.added(file).1 {
            None => waiting(after) =~= waiting(v) + seq![file],
            Some(files) => waiting(after) + files =~= waiting(v) + seq![file],
        });
    } else {
        lemma_waiting_update(v.stacks, l, v.stacks[l].push(file));
        let upper = waiting_on(v.stacks, l + 1, n);
        assert(upper + v.stacks[l].push(file) =~= (upper + v.stacks[l]) + seq![file]);
        if pushed[l].len() >= NSTREAMS {
            lemma_waiting_update(pushed, l, Seq::empty());
            lemma_waiting_same(v.stacks, pushed, l + 1, n);
        }
        assert(match v.added(file).1 {
            None => waiting(after) =~= waiting(v) + seq![file],
            Some(files) => waiting(after) + files =~= waiting(v) + seq![file],
        });
    }
}

/// The end of a build keeps the order of the files. Where a merge is asked
/// for, the files to merge are the newest of those that wait, in their
/// order, and the merged file takes their place as the newest. The file that
/// is left in the end is the only one.
pub proof fn lemma_finished_order(v: MergeView, merged: Option<Seq<char>>)
    requires
        v.wf(),
        merged is Some ==> v.tmp.len() == 0,
    ensures
        ({
            let all = match merged {
                Some(file) => waiting(v) + seq![file],
                None => waiting(v),
            };
            match v.finished(merged).1 {
                FinishView::Merge(files) => waiting(v.finished(merged).0) + files == all
                    && v.finished(merged).0.tmp.len() == 0,
                FinishView::Rename(file) => all == seq![file] && waiting(v.finished(merged).0).len()
                    == 0,
                FinishView::Empty => all.len() == 0,
            }
        }),
{
    match merged {
        Some(file) => {
            let begun = MergeView { tmp: v.tmp.push(file), ..v };
            assert(begun.tmp.reverse() =~= seq![file]);
            assert(v.tmp.reverse() =~= Seq::<Seq<char>>::empty());
            assert(waiting(begun) =~= waiting(v) + seq![file]);
            lemma_drained_order(begun);
        },
        None => {
            lemma_drained_order(v);
        },
    }
}

proof fn lemma_drained_order(v: MergeView)
    ensures
        match v.drained().1 {
            FinishView::Merge(files) => waiting(v.drained().0) + files == waiting(v)
                && v.drained().0.tmp.len() == 0,
            FinishView::Rename(file) => waiting(v) == seq![file] && waiting(v.drained().0).len()
                == 0,
            FinishView::Empty => waiting(v).len() == 0,
        },
    decreases files_in(v.stacks, v.stacks.len() as int),
{
    let n = v.stacks.len() as int;
    let l = lowest(v.stacks, 0);
    lemma_lowest(v.stacks, 0);
    if v.tmp.len() >= NSTREAMS || (l >= n && v.tmp.len() > 1) {
        let after = MergeView { tmp: Seq::empty(), ..v };
        assert(after.tmp.reverse() =~= Seq::<Seq<char>>::empty());
        assert(waiting(after) + v.tmp.reverse() =~= waiting(v));
    } else if l >= n {
        lemma_waiting_empty(v.stacks, 0, n);
        let after = MergeView { tmp: Seq::empty(), ..v };
        assert(after.tmp.reverse() =~= Seq::<Seq<char>>::empty());
        if v.tmp.len() == 1 {
            assert(v.tmp.reverse() =~= seq![v.tmp[0]]);
            assert(waiting(v) =~= seq![v.tmp[0]]);
            assert(waiting(after) =~= Seq::<Seq<char>>::empty());
        } else {
            assert(v.tmp.reverse() =~= Seq::<Seq<char>>::empty());
            assert(waiting(v) =~= Seq::<Seq<char>>::empty());
        }
    } else {
        let file = v.stacks[l].last();
        let next = MergeView {
            stacks: v.stacks.update(l, v.stacks[l].drop_last()),
            tmp: v.tmp.push(file),
            ..v
        };
        lemma_files_in_update(v.stacks, l, v.stacks[l].drop_last(), n);
        lemma_drained_order(next);
        lemma_waiting_update(v.stacks, l, v.stacks[l].drop_last());
        let upper = waiting_on(v.stacks, l + 1, n);
        assert(next.tmp.reverse() =~= seq![file] + v.tmp.reverse());
        assert(v.stacks[l].drop_last() + seq![file] =~= v.stacks[l]);
        assert(waiting(next) =~= waiting(v)) by {
            assert((upper + v.stacks[l].drop_last()) + (seq![file] + v.tmp.reverse()) =~= (upper
                + (v.stacks[l].drop_last() + seq![file])) + v.tmp.reverse());
        }
    }
}

/// A build with a single file ends without a merge: the file that was
/// added is the index, as it is.
pub proof fn lemma_single_file_finish(file: Seq<char>)
    ensures
        ({
            let start = MergeView { stacks: Seq::empty(), level: 0, tmp: Seq::empty() };
            let one = start.added(file);
            &&& one.1 is None
            &&& one.0.wf()
            &&& one.0.finished(None).1 == FinishView::Rename(file)
        }),
{
    let start = MergeView { stacks: Seq::empty(), level: 0, tmp: Seq::empty() };
    let one = start.added(file).0;
    assert(one.stacks =~= seq![seq![file]]);
    assert(lowest(one.stacks, 0) == 0);
    let next = MergeView {
        stacks: one.stacks.update(0, one.stacks[0].drop_last()),
        tmp: one.tmp.push(one.stacks[0].last()),
        ..one
    };
    assert(next.stacks[0].len() == 0);
    reveal_with_fuel(lowest, 3);
    assert(lowest(next.stacks, 0) == 1);
    assert(one.drained() == next.drained());
    assert(next.tmp =~= seq![file]);
}

} // verus!
