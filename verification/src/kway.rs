//! The merge of index files, as a function on what they hold.
//!
//! Each file is a sequence of items, one for each term. A merge repeatedly
//! takes the smallest term that stands first in any file, gathers the items of
//! that term from the files that have it first, in the order of the files, and
//! goes on with what is left.

use crate::format::{ascending, Item};
use crate::lex::{lemma_lex_asymmetric, lemma_lex_total, lemma_lex_transitive, lex_lt};
use vstd::prelude::*;

verus! {

/// The sum of two document counts, as a 32-bit field holds it.
pub open spec fn wrapped_sum(a: u32, b: u32) -> u32 {
    if a + b > u32::MAX {
        (a + b - 0x1_0000_0000) as u32
    } else {
        (a + b) as u32
    }
}

/// The item that stands first in what is left of a file.
pub open spec fn head_of(rest: Seq<Item>) -> Option<Item> {
    if rest.len() > 0 {
        Some(rest[0])
    } else {
        None
    }
}

/// The items that stand first, file by file.
pub open spec fn heads_of(rests: Seq<Seq<Item>>) -> Seq<Option<Item>> {
    Seq::new(rests.len(), |i: int| head_of(rests[i]))
}

/// Whether the item that stands first is of term `t`.
pub open spec fn at_term(head: Option<Item>, t: Seq<u8>) -> bool {
    head matches Some(item) && item.term == t
}

/// Whether no item stands first, or one whose term is not smaller than `t`.
pub open spec fn not_below(head: Option<Item>, t: Seq<u8>) -> bool {
    head matches Some(item) ==> !lex_lt(item.term, t)
}

/// The smallest term among the first `n` heads; where several heads are
/// equally small, it is their common term.
pub open spec fn min_term(heads: Seq<Option<Item>>, n: int) -> Option<Seq<u8>>
    decreases n,
{
    if n <= 0 {
        None
    } else {
        let before = min_term(heads, n - 1);
        match (heads[n - 1], before) {
            (None, _) => before,
            (Some(item), None) => Some(item.term),
            (Some(item), Some(t)) => if lex_lt(item.term, t) {
                Some(item.term)
            } else {
                Some(t)
            },
        }
    }
}

/// The items of term `t` among the first `n` heads, gathered into one: the
/// document counts add up, and the regions follow each other in the order of
/// the files.
pub open spec fn gather(heads: Seq<Option<Item>>, t: Seq<u8>, n: int) -> Item
    decreases n,
{
    if n <= 0 {
        Item { term: t, df: 0, region: Seq::empty() }
    } else {
        let before = gather(heads, t, n - 1);
        match heads[n - 1] {
            Some(item) if item.term == t => Item {
                term: t,
                df: wrapped_sum(before.df, item.df),
                region: before.region + item.region,
            },
            _ => before,
        }
    }
}

/// What is left of each file once the items of term `t` that stood first are taken.
pub open spec fn advance(rests: Seq<Seq<Item>>, t: Seq<u8>) -> Seq<Seq<Item>> {
    Seq::new(
        rests.len(),
        |i: int|
            if at_term(head_of(rests[i]), t) {
                rests[i].drop_first()
            } else {
                rests[i]
            },
    )
}

/// The number of items in the first `n` files.
pub open spec fn total_len(rests: Seq<Seq<Item>>, n: int) -> nat
    decreases n,
{
    if n <= 0 {
        0
    } else {
        total_len(rests, n - 1) + rests[n - 1].len()
    }
}

/// The merge of the given files.
pub open spec fn merge_items(rests: Seq<Seq<Item>>) -> Seq<Item>
    decreases total_len(rests, rests.len() as int),
    via merge_items_decreases
{
    match min_term(heads_of(rests), rests.len() as int) {
        None => Seq::empty(),
        Some(t) => seq![gather(heads_of(rests), t, rests.len() as int)] + merge_items(
            advance(rests, t),
        ),
    }
}

#[via_fn]
proof fn merge_items_decreases(rests: Seq<Seq<Item>>) {
    let n = rests.len() as int;
    let heads = heads_of(rests);
    if let Some(t) = min_term(heads, n) {
        lemma_min_term(heads, n);
        let i = choose|i: int| 0 <= i < n && at_term(heads[i], t);
        lemma_advance_len(rests, t, n, i);
    }
}

/// The smallest term stands first somewhere, and no head is smaller. There
/// is none only where no file has anything left.
pub proof fn lemma_min_term(heads: Seq<Option<Item>>, n: int)
    requires
        0 <= n <= heads.len(),
    ensures
        match min_term(heads, n) {
            None => forall|i: int| 0 <= i < n ==> (#[trigger] heads[i]) is None,
            Some(t) => {
                &&& exists|i: int| 0 <= i < n && at_term(heads[i], t)
                &&& forall|i: int| 0 <= i < n ==> not_below(#[trigger] heads[i], t)
            },
        },
    decreases n,
{
    if n > 0 {
        lemma_min_term(heads, n - 1);
        let before = min_term(heads, n - 1);
        match (heads[n - 1], before) {
            (None, _) => {
                if let Some(t) = before {
                    let i = choose|i: int| 0 <= i < n - 1 && at_term(heads[i], t);
                    assert(at_term(heads[i], t));
                }
            },
            (Some(item), None) => {
                assert(at_term(heads[n - 1], item.term));
                lemma_lex_asymmetric(item.term, item.term);
            },
            (Some(item), Some(t)) => {
                if lex_lt(item.term, t) {
                    assert(at_term(heads[n - 1], item.term));
                    lemma_lex_asymmetric(item.term, item.term);
                    assert forall|i: int| 0 <= i < n implies not_below(
                        #[trigger] heads[i],
                        item.term,
                    ) by {
                        if let Some(other) = heads[i] {
                            if lex_lt(other.term, item.term) {
                                lemma_lex_transitive(other.term, item.term, t);
                            }
                        }
                    }
                } else {
                    let i = choose|i: int| 0 <= i < n - 1 && at_term(heads[i], t);
                    assert(at_term(heads[i], t));
                }
            },
        }
    }
}

/// Taking the items of a term that stands first somewhere leaves less.
pub proof fn lemma_advance_len(rests: Seq<Seq<Item>>, t: Seq<u8>, n: int, i: int)
    requires
        0 <= n <= rests.len(),
    ensures
        total_len(advance(rests, t), n) <= total_len(rests, n),
        0 <= i < n && at_term(heads_of(rests)[i], t) ==> total_len(advance(rests, t), n)
            < total_len(rests, n),
    decreases n,
{
    if n > 0 {
        lemma_advance_len(rests, t, n - 1, i);
    }
}

/// Whether each file has its terms in ascending order, each once.
pub open spec fn all_ascending(rests: Seq<Seq<Item>>) -> bool {
    forall|f: int| 0 <= f < rests.len() ==> ascending(#[trigger] rests[f])
}

/// Whether every term of every file comes after `t`.
pub open spec fn all_above(rests: Seq<Seq<Item>>, t: Seq<u8>) -> bool {
    forall|f: int, i: int|
        0 <= f < rests.len() && 0 <= i < rests[f].len() ==> lex_lt(t, (#[trigger] rests[f][i]).term)
}

/// Whether a file holds the term.
pub open spec fn holds(rest: Seq<Item>, t: Seq<u8>) -> bool {
    exists|i: int| 0 <= i < rest.len() && (#[trigger] rest[i]).term == t
}

/// The item of the term in a file, if the file holds the term.
pub open spec fn found(rest: Seq<Item>, t: Seq<u8>) -> Option<Item> {
    if holds(rest, t) {
        Some(rest[choose|i: int| 0 <= i < rest.len() && (#[trigger] rest[i]).term == t])
    } else {
        None
    }
}

/// The items of the term, file by file.
pub open spec fn founds(rests: Seq<Seq<Item>>, t: Seq<u8>) -> Seq<Option<Item>> {
    Seq::new(rests.len(), |f: int| found(rests[f], t))
}

/// The sum of the document counts of term `t` among the first `n` heads.
pub open spec fn df_sum(heads: Seq<Option<Item>>, t: Seq<u8>, n: int) -> int
    decreases n,
{
    if n <= 0 {
        0
    } else {
        df_sum(heads, t, n - 1) + match heads[n - 1] {
            Some(item) if item.term == t => item.df as int,
            _ => 0,
        }
    }
}

/// In a file with ascending terms, the item of a term is the one that has it.
pub proof fn lemma_found(rest: Seq<Item>, i: int)
    requires
        ascending(rest),
        0 <= i < rest.len(),
    ensures
        holds(rest, rest[i].term),
        found(rest, rest[i].term) == Some(rest[i]),
{
    let t = rest[i].term;
    let j = choose|j: int| 0 <= j < rest.len() && (#[trigger] rest[j]).term == t;
    lemma_lex_asymmetric(t, t);
    if j < i {
        assert(lex_lt(rest[j].term, rest[i].term));
    } else if i < j {
        assert(lex_lt(rest[i].term, rest[j].term));
    }
}

/// The document count of a gathered item is the sum of the counts gathered,
/// unless that sum is too large for 32 bits.
pub proof fn lemma_gather_df(heads: Seq<Option<Item>>, t: Seq<u8>, n: int)
    requires
        df_sum(heads, t, n) <= u32::MAX,
    ensures
        gather(heads, t, n).df == df_sum(heads, t, n),
        gather(heads, t, n).term == t,
    decreases n,
{
    if n > 0 {
        lemma_df_sum_positive(heads, t, n - 1);
        lemma_gather_df(heads, t, n - 1);
    }
}

proof fn lemma_df_sum_positive(heads: Seq<Option<Item>>, t: Seq<u8>, n: int)
    ensures
        0 <= df_sum(heads, t, n),
    decreases n,
{
    if n > 0 {
        lemma_df_sum_positive(heads, t, n - 1);
    }
}

/// Gathering looks at the items of the term alone.
proof fn lemma_gather_same(a: Seq<Option<Item>>, b: Seq<Option<Item>>, t: Seq<u8>, n: int)
    requires
        0 <= n <= a.len(),
        n <= b.len(),
        forall|f: int|
            0 <= f < n ==> (at_term(#[trigger] a[f], t) <==> at_term(b[f], t)) && (at_term(a[f], t)
                ==> a[f] == b[f]),
    ensures
        gather(a, t, n) == gather(b, t, n),
    decreases n,
{
    if n > 0 {
        lemma_gather_same(a, b, t, n - 1);
        assert(at_term(a[n - 1], t) <==> at_term(b[n - 1], t));
    }
}

/// After a round of a merge of files with ascending terms, every term that
/// is left comes after the term of the round, and the files still have
/// ascending terms.
proof fn lemma_advance_above(rests: Seq<Seq<Item>>, t: Seq<u8>)
    requires
        all_ascending(rests),
        min_term(heads_of(rests), rests.len() as int) == Some(t),
    ensures
        all_above(advance(rests, t), t),
        all_ascending(advance(rests, t)),
{
    let heads = heads_of(rests);
    let after = advance(rests, t);
    lemma_min_term(heads, rests.len() as int);
    assert forall|f: int, i: int| 0 <= f < after.len() && 0 <= i < after[f].len() implies lex_lt(
        t,
        (#[trigger] after[f][i]).term,
    ) by {
        assert(ascending(rests[f]));
        assert(not_below(heads[f], t));
        let first = rests[f][0];
        if at_term(head_of(rests[f]), t) {
            assert(after[f][i] == rests[f][i + 1]);
            assert(lex_lt(rests[f][0].term, rests[f][i + 1].term));
        } else {
            lemma_lex_total(first.term, t);
            if i > 0 {
                assert(lex_lt(rests[f][0].term, rests[f][i].term));
                lemma_lex_transitive(t, first.term, rests[f][i].term);
            }
        }
    }
    assert forall|f: int| 0 <= f < after.len() implies ascending(#[trigger] after[f]) by {
        assert(ascending(rests[f]));
        if at_term(head_of(rests[f]), t) {
            assert forall|i: int, j: int| 0 <= i < j < after[f].len() implies lex_lt(
                (#[trigger] after[f][i]).term,
                (#[trigger] after[f][j]).term,
            ) by {
                assert(lex_lt(rests[f][i + 1].term, rests[f][j + 1].term));
            }
        }
    }
}

/// Where every term of every file comes after `t`, so does every term of the merge.
proof fn lemma_merge_above(rests: Seq<Seq<Item>>, t: Seq<u8>)
    requires
        all_above(rests, t),
    ensures
        forall|k: int|
            0 <= k < merge_items(rests).len() ==> lex_lt(t, (#[trigger] merge_items(rests)[k]).term),
    decreases total_len(rests, rests.len() as int),
{
    let n = rests.len() as int;
    let heads = heads_of(rests);
    if let Some(first) = min_term(heads, n) {
        lemma_min_term(heads, n);
        let f = choose|f: int| 0 <= f < n && at_term(heads[f], first);
        lemma_advance_len(rests, first, n, f);
        let after = advance(rests, first);
        assert(all_above(after, t)) by {
            assert forall|g: int, i: int|
                0 <= g < after.len() && 0 <= i < after[g].len() implies lex_lt(
                t,
                (#[trigger] after[g][i]).term,
            ) by {
                if at_term(head_of(rests[g]), first) {
                    assert(after[g][i] == rests[g][i + 1]);
                } else {
                    assert(after[g][i] == rests[g][i]);
                }
            }
        }
        lemma_merge_above(after, t);
        lemma_gather_term(heads, first, n);
        assert(lex_lt(t, rests[f][0].term));
        let merged = merge_items(rests);
        assert forall|k: int| 0 <= k < merged.len() implies lex_lt(
            t,
            (#[trigger] merged[k]).term,
        ) by {
            if k > 0 {
                assert(merged[k] == merge_items(after)[k - 1]);
            }
        }
    }
}

/// The term of a gathered item is the term that was gathered.
pub proof fn lemma_gather_term(heads: Seq<Option<Item>>, t: Seq<u8>, n: int)
    ensures
        gather(heads, t, n).term == t,
    decreases n,
{
    if n > 0 {
        lemma_gather_term(heads, t, n - 1);
    }
}

/// The merge of files with ascending terms has ascending terms.
pub proof fn lemma_merge_ascending(rests: Seq<Seq<Item>>)
    requires
        all_ascending(rests),
    ensures
        ascending(merge_items(rests)),
    decreases total_len(rests, rests.len() as int),
{
    let n = rests.len() as int;
    let heads = heads_of(rests);
    if let Some(t) = min_term(heads, n) {
        lemma_min_term(heads, n);
        let f = choose|f: int| 0 <= f < n && at_term(heads[f], t);
        lemma_advance_len(rests, t, n, f);
        let after = advance(rests, t);
        lemma_advance_above(rests, t);
        lemma_merge_above(after, t);
        lemma_merge_ascending(after);
        lemma_gather_term(heads, t, n);
        let merged = merge_items(rests);
        let tail = merge_items(after);
        assert forall|i: int, j: int| 0 <= i < j < merged.len() implies lex_lt(
            (#[trigger] merged[i]).term,
            (#[trigger] merged[j]).term,
        ) by {
            assert(merged[j] == tail[j - 1]);
            if i > 0 {
                assert(merged[i] == tail[i - 1]);
                assert(lex_lt(tail[i - 1].term, tail[j - 1].term));
            }
        }
    }
}

/// A merge keeps the totals. Where the files have ascending terms, the merge
/// holds a term if one of the files does, and the item of the term is then
/// what the files hold for it, gathered: the document counts added up, and
/// the regions one after the other, in the order of the files.
pub proof fn lemma_merge_totals(rests: Seq<Seq<Item>>, t: Seq<u8>)
    requires
        all_ascending(rests),
    ensures
        found(merge_items(rests), t) == if exists|f: int|
            0 <= f < rests.len() && holds(#[trigger] rests[f], t) {
            Some(gather(founds(rests, t), t, rests.len() as int))
        } else {
            None
        },
    decreases total_len(rests, rests.len() as int),
{
    let n = rests.len() as int;
    let heads = heads_of(rests);
    let merged = merge_items(rests);
    lemma_merge_ascending(rests);
    match min_term(heads, n) {
        None => {
            lemma_min_term(heads, n);
            assert forall|f: int| 0 <= f < rests.len() implies !holds(#[trigger] rests[f], t) by {
                assert(heads[f] is None);
            }
        },
        Some(first) => {
            lemma_min_term(heads, n);
            let at = choose|f: int| 0 <= f < n && at_term(heads[f], first);
            lemma_advance_len(rests, first, n, at);
            let after = advance(rests, first);
            let tail = merge_items(after);
            lemma_advance_above(rests, first);
            lemma_merge_above(after, first);
            lemma_merge_ascending(after);
            lemma_gather_term(heads, first, n);
            lemma_lex_asymmetric(first, first);
            if t == first {
                lemma_found(merged, 0);
                assert(holds(rests[at], t)) by {
                    assert(rests[at][0].term == t);
                }
                assert forall|f: int| 0 <= f < n implies (at_term(
                    #[trigger] founds(rests, t)[f],
                    t,
                ) <==> at_term(heads[f], t)) && (at_term(founds(rests, t)[f], t) ==> founds(
                    rests,
                    t,
                )[f] == heads[f]) by {
                    assert(ascending(rests[f]));
                    if at_term(heads[f], t) {
                        lemma_found(rests[f], 0);
                    } else if holds(rests[f], t) {
                        let i = choose|i: int|
                            0 <= i < rests[f].len() && (#[trigger] rests[f][i]).term == t;
                        assert(not_below(heads[f], t));
                        if i > 0 {
                            assert(lex_lt(rests[f][0].term, rests[f][i].term));
                        }
                    }
                }
                lemma_gather_same(founds(rests, t), heads, t, n);
            } else {
                lemma_merge_totals(after, t);
                assert(found(merged, t) == found(tail, t)) by {
                    if holds(tail, t) {
                        let k = choose|k: int| 0 <= k < tail.len() && (#[trigger] tail[k]).term == t;
                        assert(merged[k + 1] == tail[k]);
                        lemma_found(merged, k + 1);
                        lemma_found(tail, k);
                    } else if holds(merged, t) {
                        let k = choose|k: int|
                            0 <= k < merged.len() && (#[trigger] merged[k]).term == t;
                        assert(merged[k] == tail[k - 1]);
                    }
                }
                assert(founds(after, t) =~= founds(rests, t)) by {
                    assert forall|f: int| 0 <= f < n implies found(after[f], t) == found(
                        rests[f],
                        t,
                    ) by {
                        assert(ascending(rests[f]));
                        assert(ascending(after[f]));
                        if at_term(head_of(rests[f]), first) {
                            if holds(after[f], t) {
                                let i = choose|i: int|
                                    0 <= i < after[f].len() && (#[trigger] after[f][i]).term == t;
                                assert(rests[f][i + 1] == after[f][i]);
                                lemma_found(rests[f], i + 1);
                                lemma_found(after[f], i);
                            } else if holds(rests[f], t) {
                                let i = choose|i: int|
                                    0 <= i < rests[f].len() && (#[trigger] rests[f][i]).term == t;
                                assert(after[f][i - 1] == rests[f][i]);
                            }
                        }
                    }
                }
                assert((exists|f: int| 0 <= f < rests.len() && holds(#[trigger] rests[f], t)) <==> (
                exists|f: int| 0 <= f < after.len() && holds(#[trigger] after[f], t))) by {
                    if exists|f: int| 0 <= f < rests.len() && holds(#[trigger] rests[f], t) {
                        let f = choose|f: int| 0 <= f < rests.len() && holds(#[trigger] rests[f], t);
                        assert(founds(after, t)[f] == founds(rests, t)[f]);
                        assert(holds(after[f], t));
                    }
                    if exists|f: int| 0 <= f < after.len() && holds(#[trigger] after[f], t) {
                        let f = choose|f: int| 0 <= f < after.len() && holds(#[trigger] after[f], t);
                        assert(founds(after, t)[f] == founds(rests, t)[f]);
                        assert(holds(rests[f], t));
                    }
                }
            }
        },
    }
}

} // verus!
