//! Indexes in memory.
//!
//! The first step of a build is to index documents in memory, as many as fit.
//! An `InMemoryIndex` holds, for each term, the postings of the documents
//! that hold the term.

use crate::endian::write_u32;
use crate::format::{low32, low_u32};
use crate::lex::{compare, lemma_lex_asymmetric, lemma_lex_transitive, lex_lt, Relation};
use crate::text::{
    alphanumeric, is_alphanumeric, lemma_utf8_len, lowercase, push_char, to_lowercase,
};
use vstd::bytes::spec_u32_to_le_bytes;
use vstd::prelude::*;
use vstd::utf8::encode_utf8;

verus! {

/// Whether the `i`-th character is marked as part of a word.
pub open spec fn marked(flags: Seq<bool>, i: int) -> bool {
    0 <= i < flags.len() && flags[i]
}

/// The words that end within the first `n` characters, and the word that is
/// open after them.
pub open spec fn scan(s: Seq<char>, flags: Seq<bool>, n: int) -> (Seq<Seq<char>>, Seq<char>)
    decreases n,
{
    if n <= 0 {
        (Seq::empty(), Seq::empty())
    } else {
        let (done, open) = scan(s, flags, n - 1);
        if marked(flags, n - 1) {
            (done, open.push(s[n - 1]))
        } else if open.len() > 0 {
            (done.push(open), Seq::empty())
        } else {
            (done, open)
        }
    }
}

/// The words of a string: its longest runs of marked characters, in order.
pub open spec fn words(s: Seq<char>, flags: Seq<bool>) -> Seq<Seq<char>> {
    let (done, open) = scan(s, flags, s.len() as int);
    if open.len() > 0 {
        done.push(open)
    } else {
        done
    }
}

/// Which characters of a string are letters or digits.
pub open spec fn word_chars(s: Seq<char>) -> Seq<bool> {
    Seq::new(s.len(), |i: int| alphanumeric(s[i]))
}

/// The tokens of a string: its longest runs of letters and digits, in order.
pub open spec fn tokens(s: Seq<char>) -> Seq<Seq<char>> {
    words(s, word_chars(s))
}

/// The strings as values.
pub open spec fn texts(strings: Seq<String>) -> Seq<Seq<char>> {
    Seq::new(strings.len(), |i: int| strings[i]@)
}

/// Breaks a string into words, given which of its characters belong to
/// words: `in_word[i]` says so of the `i`-th character, and a character
/// without a mark belongs to none.
pub fn split_words(text: &str, in_word: &Vec<bool>) -> (r: Vec<String>)
    ensures
        texts(r@) == words(text@, in_word@),
{
    let mut done: Vec<String> = Vec::new();
    let mut open = String::new();
    let mut i: usize = 0;
    let size = text.as_bytes().len();
    proof {
        lemma_utf8_len(text@);
    }
    for c in it: text.chars()
        invariant
            it.seq() == text@,
            i == it.index(),
            text@.len() <= size,
            scan(text@, in_word@, i as int) == (texts(done@), open@),
    {
        let ghost before = texts(done@);
        if i < in_word.len() && in_word[i] {
            push_char(&mut open, c);
        } else if !open.as_str().is_empty() {
            done.push(open);
            open = String::new();
            assert(texts(done@) =~= before.push(done@[done@.len() - 1]@));
        }
        i += 1;
    }
    if !open.as_str().is_empty() {
        let ghost before = texts(done@);
        done.push(open);
        assert(texts(done@) =~= before.push(done@[done@.len() - 1]@));
    }
    done
}

/// Breaks a string into its tokens: the longest runs of letters and digits.
pub fn tokenize(text: &str) -> (r: Vec<String>)
    ensures
        texts(r@) == tokens(text@),
{
    let mut in_word: Vec<bool> = Vec::new();
    for c in it: text.chars()
        invariant
            it.seq() == text@,
            in_word@.len() == it.index(),
            forall|i: int| 0 <= i < in_word@.len() ==> in_word@[i] == alphanumeric(text@[i]),
    {
        in_word.push(is_alphanumeric(c));
    }
    assert(in_word@ =~= word_chars(text@));
    split_words(text, &in_word)
}

/// A posting says that a document holds a term, and where: its bytes are the
/// number of the document and then the positions of the term in the document,
/// each as a little-endian `u32`.
pub type Hit = Vec<u8>;

/// A term and its postings.
pub struct TermHits {
    term: String,
    hits: Vec<Hit>,
}

/// A term and its postings, as a value.
#[verifier::ext_equal]
pub struct PostingsView {
    pub term: Seq<char>,
    pub hits: Seq<Seq<u8>>,
}

/// An index in memory, as a value: the number of words indexed, and the
/// terms with their postings.
#[verifier::ext_equal]
pub struct IndexView {
    pub word_count: nat,
    pub entries: Seq<PostingsView>,
}

/// The postings as values.
pub open spec fn hits_view(hits: Seq<Hit>) -> Seq<Seq<u8>> {
    Seq::new(hits.len(), |i: int| hits[i]@)
}

impl View for TermHits {
    type V = PostingsView;

    closed spec fn view(&self) -> PostingsView {
        PostingsView { term: self.term@, hits: hits_view(self.hits@) }
    }
}

impl TermHits {
    /// Notes that the term stands at `position` in the document: the place
    /// goes behind the first posting, which is begun with the number of the
    /// document if the term has no posting yet.
    fn note(&mut self, document: u32, position: u32)
        ensures
            final(self)@.term == old(self)@.term,
            final(self)@.hits == if old(self)@.hits.len() == 0 {
                seq![spec_u32_to_le_bytes(document) + spec_u32_to_le_bytes(position)]
            } else {
                old(self)@.hits.update(0, old(self)@.hits[0] + spec_u32_to_le_bytes(position))
            },
    {
        if self.hits.len() == 0 {
            let mut hit: Hit = Vec::with_capacity(4 + 4);
            write_u32(&mut hit, document);
            self.hits.push(hit);
        }
        write_u32(&mut self.hits[0], position);
        assert(self@.hits =~~= if old(self)@.hits.len() == 0 {
            seq![spec_u32_to_le_bytes(document) + spec_u32_to_le_bytes(position)]
        } else {
            old(self)@.hits.update(0, old(self)@.hits[0] + spec_u32_to_le_bytes(position))
        });
    }
}

impl TermHits {
    /// Puts postings behind those that the term has.
    fn extend(&mut self, hits: Vec<Hit>)
        ensures
            final(self)@.term == old(self)@.term,
            final(self)@.hits == old(self)@.hits + hits_view(hits@),
    {
        let ghost added = hits_view(hits@);
        let mut hits = hits;
        self.hits.append(&mut hits);
        assert(self@.hits =~~= old(self)@.hits + added);
    }
}

impl TermHits {
    /// The term and its postings.
    pub fn into_parts(self) -> (parts: (String, Vec<Hit>))
        ensures
            parts.0@ == self@.term,
            hits_view(parts.1@) == self@.hits,
    {
        (self.term, self.hits)
    }
}

/// The terms with their postings, as values.
pub open spec fn entries_view(entries: Seq<TermHits>) -> Seq<PostingsView> {
    Seq::new(entries.len(), |i: int| entries[i]@)
}

impl IndexView {
    /// The terms stand in ascending order of their UTF-8 bytes, each once.
    pub open spec fn sorted(self) -> bool {
        forall|i: int, j: int|
            0 <= i < j < self.entries.len() ==> lex_lt(
                encode_utf8(#[trigger] self.entries[i].term),
                encode_utf8(#[trigger] self.entries[j].term),
            )
    }

    /// Whether the index holds the term.
    pub open spec fn contains(self, term: Seq<char>) -> bool {
        exists|i: int| 0 <= i < self.entries.len() && #[trigger] self.entries[i].term == term
    }

    /// Where the term stands, if the index holds it.
    pub open spec fn position(self, term: Seq<char>) -> int {
        choose|i: int| 0 <= i < self.entries.len() && #[trigger] self.entries[i].term == term
    }

    /// The postings of the term; none, if the index does not hold it.
    pub open spec fn hits_of(self, term: Seq<char>) -> Seq<Seq<u8>> {
        if self.contains(term) {
            self.entries[self.position(term)].hits
        } else {
            Seq::empty()
        }
    }
}

/// In a sorted index, a term stands where it is found.
pub proof fn lemma_position(v: IndexView, i: int)
    requires
        v.sorted(),
        0 <= i < v.entries.len(),
    ensures
        v.contains(v.entries[i].term),
        v.position(v.entries[i].term) == i,
        v.hits_of(v.entries[i].term) == v.entries[i].hits,
{
    let term = v.entries[i].term;
    let j = v.position(term);
    lemma_lex_asymmetric(encode_utf8(term), encode_utf8(term));
    if j < i {
        assert(lex_lt(encode_utf8(v.entries[j].term), encode_utf8(v.entries[i].term)));
    } else if i < j {
        assert(lex_lt(encode_utf8(v.entries[i].term), encode_utf8(v.entries[j].term)));
    }
}

/// The posting of a term in a document: the number of the document, and then
/// each place at which the term stands among the document's tokens, in order,
/// all as little-endian `u32`.
pub open spec fn posting(document: u32, toks: Seq<Seq<char>>, term: Seq<char>) -> Seq<u8>
    decreases toks.len(),
{
    if toks.len() == 0 {
        spec_u32_to_le_bytes(document)
    } else {
        let before = posting(document, toks.drop_last(), term);
        if toks.last() == term {
            before + spec_u32_to_le_bytes(low32(toks.len() - 1))
        } else {
            before
        }
    }
}

/// Whether an index is that of a single document with the given number and
/// tokens: its terms are the tokens, each once and in order, and each term
/// has one posting, that of the document.
pub open spec fn indexes(v: IndexView, document: u32, toks: Seq<Seq<char>>) -> bool {
    &&& v.sorted()
    &&& v.word_count == toks.len()
    &&& forall|i: int|
        0 <= i < v.entries.len() ==> toks.contains((#[trigger] v.entries[i]).term)
            && v.entries[i].hits == seq![posting(document, toks, v.entries[i].term)]
    &&& forall|k: int| 0 <= k < toks.len() ==> v.contains(#[trigger] toks[k])
}

/// The posting of a term that the document does not hold is the number of
/// the document.
pub proof fn lemma_posting_absent(document: u32, toks: Seq<Seq<char>>, term: Seq<char>)
    requires
        !toks.contains(term),
    ensures
        posting(document, toks, term) == spec_u32_to_le_bytes(document),
    decreases toks.len(),
{
    if toks.len() > 0 {
        assert(toks[toks.len() - 1] == toks.last());
        assert forall|i: int| 0 <= i < toks.drop_last().len() implies toks.drop_last()[i]
            != term by {
            assert(toks[i] == toks.drop_last()[i]);
        }
        lemma_posting_absent(document, toks.drop_last(), term);
    }
}

/// The first `k` terms of an index.
pub open spec fn upto(v: IndexView, k: int) -> IndexView {
    IndexView { word_count: v.word_count, entries: v.entries.take(k) }
}

/// What one more term adds to the first `k` terms of a sorted index: the
/// term is new, and the others stay as they are.
pub proof fn lemma_upto_step(v: IndexView, k: int, term: Seq<char>)
    requires
        v.sorted(),
        0 <= k < v.entries.len(),
    ensures
        term == v.entries[k].term ==> !upto(v, k).contains(term) && upto(v, k + 1).contains(term)
            && upto(v, k + 1).hits_of(term) == v.entries[k].hits,
        term != v.entries[k].term ==> upto(v, k).contains(term) == upto(v, k + 1).contains(term)
            && upto(v, k).hits_of(term) == upto(v, k + 1).hits_of(term),
{
    let a = upto(v, k);
    let b = upto(v, k + 1);
    assert(b.sorted()) by {
        assert forall|i: int, j: int| 0 <= i < j < b.entries.len() implies lex_lt(
            encode_utf8(#[trigger] b.entries[i].term),
            encode_utf8(#[trigger] b.entries[j].term),
        ) by {
            assert(b.entries[i] == v.entries[i] && b.entries[j] == v.entries[j]);
        }
    }
    assert(a.sorted()) by {
        assert forall|i: int, j: int| 0 <= i < j < a.entries.len() implies lex_lt(
            encode_utf8(#[trigger] a.entries[i].term),
            encode_utf8(#[trigger] a.entries[j].term),
        ) by {
            assert(a.entries[i] == v.entries[i] && a.entries[j] == v.entries[j]);
        }
    }
    if term == v.entries[k].term {
        assert(b.entries[k] == v.entries[k]);
        lemma_position(b, k);
        if a.contains(term) {
            let j = a.position(term);
            assert(a.entries[j] == v.entries[j]);
            assert(lex_lt(encode_utf8(v.entries[j].term), encode_utf8(v.entries[k].term)));
            lemma_lex_asymmetric(encode_utf8(term), encode_utf8(term));
        }
    } else {
        if a.contains(term) {
            let j = a.position(term);
            assert(b.entries[j] == a.entries[j]);
            lemma_position(a, j);
            lemma_position(b, j);
        } else if b.contains(term) {
            let j = b.position(term);
            assert(b.entries[k] == v.entries[k]);
            assert(a.entries[j] == b.entries[j]);
        }
    }
}

/// Whether `merged` is what comes of merging `added` into `first`: it holds
/// the terms of both, in order, and for each term the postings that `first`
/// has for it and then those that `added` has. The word counts add up.
pub open spec fn merges(merged: IndexView, first: IndexView, added: IndexView) -> bool {
    &&& merged.sorted()
    &&& merged.word_count == first.word_count + added.word_count
    &&& forall|i: int|
        0 <= i < merged.entries.len() ==> {
            let term = (#[trigger] merged.entries[i]).term;
            &&& first.contains(term) || added.contains(term)
            &&& merged.entries[i].hits == first.hits_of(term) + added.hits_of(term)
        }
    &&& forall|term: Seq<char>|
        first.contains(term) || added.contains(term) ==> #[trigger] merged.contains(term)
}

/// How often a term stands among the tokens.
pub open spec fn occurrences(toks: Seq<Seq<char>>, term: Seq<char>) -> nat
    decreases toks.len(),
{
    if toks.len() == 0 {
        0
    } else {
        occurrences(toks.drop_last(), term) + if toks.last() == term {
            1nat
        } else {
            0nat
        }
    }
}

/// A posting begins with the number of its document, and has four bytes
/// more for each place at which the term stands in the document.
pub proof fn lemma_posting_shape(document: u32, toks: Seq<Seq<char>>, term: Seq<char>)
    ensures
        posting(document, toks, term).len() == 4 + 4 * occurrences(toks, term),
        posting(document, toks, term).subrange(0, 4) == spec_u32_to_le_bytes(document),
        document_of(posting(document, toks, term)) == document,
    decreases toks.len(),
{
    vstd::bytes::lemma_auto_spec_u32_to_from_le_bytes();
    if toks.len() == 0 {
        assert(posting(document, toks, term).subrange(0, 4) =~= spec_u32_to_le_bytes(document));
    } else {
        lemma_posting_shape(document, toks.drop_last(), term);
        let before = posting(document, toks.drop_last(), term);
        assert(posting(document, toks, term).subrange(0, 4) =~= before.subrange(0, 4));
    }
}

/// The number of the document of a posting.
pub open spec fn document_of(hit: Seq<u8>) -> u32 {
    vstd::bytes::spec_u32_from_le_bytes(hit.subrange(0, 4))
}

/// Whether the postings are those of different documents, in ascending
/// order of the documents' numbers.
pub open spec fn by_document(hits: Seq<Seq<u8>>) -> bool {
    forall|i: int, j: int|
        0 <= i < j < hits.len() ==> document_of(#[trigger] hits[i]) < document_of(
            #[trigger] hits[j],
        )
}

/// Whether the index is sorted by document: the postings of each term are
/// those of different documents, in ascending order of the documents' numbers.
pub open spec fn sorted_by_document(v: IndexView) -> bool {
    forall|i: int| 0 <= i < v.entries.len() ==> by_document((#[trigger] v.entries[i]).hits)
}

/// Whether every document of `first` has a smaller number than every
/// document of `added`.
pub open spec fn documents_before(first: IndexView, added: IndexView) -> bool {
    forall|i: int, a: int, j: int, b: int|
        0 <= i < first.entries.len() && 0 <= a < first.entries[i].hits.len() && 0 <= j
            < added.entries.len() && 0 <= b < added.entries[j].hits.len() ==> document_of(
            #[trigger] first.entries[i].hits[a],
        ) < document_of(#[trigger] added.entries[j].hits[b])
}

/// The index of a single document is sorted by document.
pub proof fn lemma_single_document_sorted(v: IndexView, document: u32, toks: Seq<Seq<char>>)
    requires
        indexes(v, document, toks),
    ensures
        sorted_by_document(v),
{
    assert forall|i: int| 0 <= i < v.entries.len() implies by_document(
        (#[trigger] v.entries[i]).hits,
    ) by {
        assert(v.entries[i].hits.len() == 1);
    }
}

/// Merging keeps an index sorted by document: if both indexes are sorted
/// by document, and the documents of the index that is merged in all come
/// after those of the other, the merged index is sorted by document.
pub proof fn lemma_merge_keeps_document_order(
    merged: IndexView,
    first: IndexView,
    added: IndexView,
)
    requires
        merges(merged, first, added),
        first.sorted(),
        added.sorted(),
        sorted_by_document(first),
        sorted_by_document(added),
        documents_before(first, added),
    ensures
        sorted_by_document(merged),
{
    assert forall|k: int| 0 <= k < merged.entries.len() implies by_document(
        (#[trigger] merged.entries[k]).hits,
    ) by {
        let term = merged.entries[k].term;
        let left = first.hits_of(term);
        let right = added.hits_of(term);
        let hits = merged.entries[k].hits;
        assert(hits == left + right);
        if first.contains(term) {
            assert(by_document(first.entries[first.position(term)].hits));
        }
        if added.contains(term) {
            assert(by_document(added.entries[added.position(term)].hits));
        }
        assert forall|i: int, j: int| 0 <= i < j < hits.len() implies document_of(
            #[trigger] hits[i],
        ) < document_of(#[trigger] hits[j]) by {
            if j < left.len() {
                assert(hits[i] == left[i] && hits[j] == left[j]);
            } else if i >= left.len() {
                assert(hits[i] == right[i - left.len()] && hits[j] == right[j - left.len()]);
            } else {
                let p = first.position(term);
                let q = added.position(term);
                assert(hits[i] == first.entries[p].hits[i]);
                assert(hits[j] == added.entries[q].hits[j - left.len()]);
            }
        }
    }
}

/// An in-memory index.
///
/// An index of a large corpus does not fit into memory. This one is filled
/// until it is large, written to a file, and begun again; the files are
/// merged later.
pub struct InMemoryIndex {
    /// The total number of words in the indexed documents.
    pub word_count: usize,
    /// The terms that appear in the index, in ascending order of their UTF-8
    /// bytes, each with its postings.
    ///
    /// An index is sorted by document if the postings of each term are those
    /// of different documents, in ascending order of the documents' numbers.
    /// Merging keeps that where the documents of the index merged in all come
    /// after those of this index.
    entries: Vec<TermHits>,
}

impl View for InMemoryIndex {
    type V = IndexView;

    closed spec fn view(&self) -> IndexView {
        IndexView { word_count: self.word_count as nat, entries: entries_view(self.entries@) }
    }
}

/// The number of words from which on an index is large.
pub const REASONABLE_SIZE: usize = 100_000_000;

impl InMemoryIndex {
    /// The index is in order: its terms are sorted.
    pub open spec fn wf(&self) -> bool {
        self@.sorted()
    }

    /// A new, empty index.
    pub fn new() -> (index: InMemoryIndex)
        ensures
            index@ == (IndexView { word_count: 0, entries: Seq::empty() }),
            index.wf(),
    {
        let index = InMemoryIndex { word_count: 0, entries: Vec::new() };
        assert(index@ =~~= (IndexView { word_count: 0, entries: Seq::empty() }));
        index
    }

    /// Adds the postings of `other` to this index: for each term of `other`,
    /// its postings go behind those that this index has for the term.
    ///
    /// If both indexes are sorted by document, and the documents of `other`
    /// all come after those of this index, this index stays sorted by document.
    pub fn merge(&mut self, other: InMemoryIndex)
        requires
            old(self).wf(),
            other.wf(),
            old(self)@.word_count + other@.word_count <= usize::MAX,
        ensures
            final(self).wf(),
            merges(final(self)@, old(self)@, other@),
    {
        let ghost begin = self@;
        self.word_count += other.word_count;
        let ghost added = other@;
        let ghost all = other.entries@;
        proof {
            assert forall|i: int| 0 <= i < self@.entries.len() implies {
                let term = (#[trigger] self@.entries[i]).term;
                &&& begin.contains(term) || upto(added, 0).contains(term)
                &&& self@.entries[i].hits == begin.hits_of(term) + upto(added, 0).hits_of(term)
            } by {
                lemma_position(begin, i);
                assert(begin.entries[i].hits + Seq::<Seq<u8>>::empty() =~= begin.entries[i].hits);
            }
            assert forall|term: Seq<char>|
                begin.contains(term) || upto(added, 0).contains(
                    term,
                ) implies #[trigger] self@.contains(term) by {
                if begin.contains(term) {
                    let i = begin.position(term);
                    assert(self@.entries[i].term == term);
                }
            }
        }
        for e in it: other.entries
            invariant
                all == other.entries@,
                added.entries == entries_view(all),
                added.sorted(),
                begin.sorted(),
                self.wf(),
                self.word_count == begin.word_count + added.word_count,
                forall|i: int|
                    0 <= i < self@.entries.len() ==> {
                        let term = (#[trigger] self@.entries[i]).term;
                        &&& begin.contains(term) || upto(added, it.index() as int).contains(term)
                        &&& self@.entries[i].hits == begin.hits_of(term) + upto(
                            added,
                            it.index() as int,
                        ).hits_of(term)
                    },
                forall|term: Seq<char>|
                    begin.contains(term) || upto(added, it.index() as int).contains(term)
                        ==> #[trigger] self@.contains(term),
        {
            let ghost k = it.index() as int;
            assert(e == all[k]);
            let ghost t = e@.term;
            let ghost h = e@.hits;
            let ghost start = self@;
            let TermHits { term, hits } = e;
            let place = self.slot(term);
            let ghost placed = self@;
            self.entries[place].extend(hits);
            proof {
                assert(added.entries[k] == e@);
                lemma_upto_step(added, k, t);
                assert(self@.entries =~~= placed.entries.update(
                    place as int,
                    PostingsView { term: t, hits: placed.entries[place as int].hits + h },
                ));
                assert(self@.sorted()) by {
                    assert forall|a: int, b: int|
                        0 <= a < b < self@.entries.len() implies lex_lt(
                        encode_utf8(#[trigger] self@.entries[a].term),
                        encode_utf8(#[trigger] self@.entries[b].term),
                    ) by {
                        assert(self@.entries[a].term == placed.entries[a].term);
                        assert(self@.entries[b].term == placed.entries[b].term);
                    }
                }
                assert forall|i: int| 0 <= i < self@.entries.len() implies {
                    let term = (#[trigger] self@.entries[i]).term;
                    &&& begin.contains(term) || upto(added, k + 1).contains(term)
                    &&& self@.entries[i].hits == begin.hits_of(term) + upto(added, k + 1).hits_of(
                        term,
                    )
                } by {
                    let term = self@.entries[i].term;
                    lemma_upto_step(added, k, term);
                    if i == place {
                        if start.contains(t) {
                            let b = start.position(t);
                            lemma_position(start, b);
                            lemma_position(placed, b);
                            lemma_position(placed, place as int);
                            assert(start.entries[b].hits == begin.hits_of(t) + upto(
                                added,
                                k,
                            ).hits_of(t));
                            assert(begin.hits_of(t) + Seq::<Seq<u8>>::empty() + h =~= begin.hits_of(
                                t,
                            ) + h);
                        } else {
                            assert(!begin.contains(t));
                            assert(Seq::<Seq<u8>>::empty() + h =~= h);
                            assert(Seq::<Seq<u8>>::empty() + h =~= begin.hits_of(t) + h);
                        }
                    } else {
                        let b = if !start.contains(t) && i > place { i - 1 } else { i };
                        assert(placed.entries[i] == start.entries[b]);
                        assert(start.entries[b].term == term);
                        assert(term != t) by {
                            if term == t {
                                lemma_position(self@, i);
                                lemma_position(self@, place as int);
                            }
                        }
                    }
                }
                assert forall|term: Seq<char>|
                    begin.contains(term) || upto(added, k + 1).contains(
                        term,
                    ) implies #[trigger] self@.contains(term) by {
                    lemma_upto_step(added, k, term);
                    if term == t {
                        assert(self@.entries[place as int].term == t);
                    } else {
                        assert(start.contains(term));
                        let b = start.position(term);
                        let i = if !start.contains(t) && b >= place { b + 1 } else { b };
                        assert(placed.entries[i] == start.entries[b]);
                        assert(self@.entries[i].term == term);
                    }
                }
            }
        }
        assert(upto(added, all.len() as int) =~= added);
    }

    /// The postings of a term, if the index holds it.
    pub fn get(&self, term: &str) -> (hits: Option<&Vec<Hit>>)
        requires
            self.wf(),
        ensures
            match hits {
                Some(hits) => self@.contains(term@) && hits_view(hits@) == self@.hits_of(term@),
                None => !self@.contains(term@),
            },
    {
        broadcast use vstd::utf8::encode_utf8_decode_utf8;

        proof {
            lemma_lex_asymmetric(encode_utf8(term@), encode_utf8(term@));
        }
        match self.find(term.as_bytes()) {
            Ok(i) => {
                proof {
                    assert(vstd::utf8::decode_utf8(encode_utf8(self@.entries[i as int].term))
                        == vstd::utf8::decode_utf8(encode_utf8(term@)));
                    lemma_position(self@, i as int);
                }
                Some(&self.entries[i].hits)
            },
            Err(_) => {
                assert(!self@.contains(term@)) by {
                    if self@.contains(term@) {
                        let j = self@.position(term@);
                        assert(encode_utf8(self@.entries[j].term) == encode_utf8(term@));
                    }
                }
                None
            },
        }
    }

    /// The number of terms that the index holds.
    pub fn len(&self) -> (n: usize)
        ensures
            n == self@.entries.len(),
    {
        self.entries.len()
    }

    /// The terms of the index with their postings, in ascending order of the
    /// terms' UTF-8 bytes.
    pub fn into_entries(self) -> (entries: Vec<TermHits>)
        ensures
            entries_view(entries@) == self@.entries,
    {
        self.entries
    }

    /// The total number of words in the indexed documents.
    pub fn word_count(&self) -> (n: usize)
        ensures
            n == self@.word_count,
    {
        self.word_count
    }

    /// Whether the index holds no data.
    pub fn is_empty(&self) -> (r: bool)
        ensures
            r == (self@.word_count == 0),
    {
        self.word_count == 0
    }

    /// Whether the index is large enough to be written to a file rather than
    /// to be filled further.
    pub fn is_large(&self) -> (r: bool)
        ensures
            r == (self@.word_count > REASONABLE_SIZE),
    {
        self.word_count > REASONABLE_SIZE
    }

    /// Indexes a document, given its number and its tokens.
    ///
    /// The index holds one posting for each term of the document.
    pub fn from_tokens(document_id: usize, tokens: &Vec<String>) -> (index: InMemoryIndex)
        ensures
            index.wf(),
            indexes(index@, low32(document_id as int), texts(tokens@)),
    {
        let document = low_u32(document_id);
        let mut index = InMemoryIndex::new();
        let ghost toks = texts(tokens@);
        let mut i: usize = 0;
        while i < tokens.len()
            invariant
                i <= tokens@.len(),
                toks == texts(tokens@),
                document == low32(document_id as int),
                index.wf(),
                index.word_count == i,
                forall|j: int|
                    0 <= j < index@.entries.len() ==> toks.take(i as int).contains(
                        (#[trigger] index@.entries[j]).term,
                    ) && index@.entries[j].hits == seq![
                        posting(document, toks.take(i as int), index@.entries[j].term),
                    ],
                forall|k: int| 0 <= k < i ==> index@.contains(#[trigger] toks[k]),
            decreases tokens@.len() - i,
        {
            let ghost seen = toks.take(i as int);
            let ghost next = toks.take(i + 1);
            let ghost t = toks[i as int];
            let ghost start = index@;
            let k = index.slot(tokens[i].clone());
            let ghost placed = index@;
            index.entries[k].note(document, low_u32(i));
            index.word_count += 1;
            proof {
                assert(next.drop_last() =~= seen);
                assert(next.last() == t);
                assert(next[i as int] == t);
                let new_posting = posting(document, next, t);
                if start.contains(t) {
                    assert(placed.entries[k as int].hits == seq![posting(document, seen, t)]);
                } else {
                    assert(!seen.contains(t)) by {
                        if seen.contains(t) {
                            let j = choose|j: int| 0 <= j < seen.len() && seen[j] == t;
                            assert(start.contains(toks[j]));
                        }
                    }
                    lemma_posting_absent(document, seen, t);
                }
                assert(index@.entries =~~= placed.entries.update(
                    k as int,
                    PostingsView { term: t, hits: seq![new_posting] },
                ));
                assert(index@.sorted()) by {
                    assert forall|a: int, b: int|
                        0 <= a < b < index@.entries.len() implies lex_lt(
                        encode_utf8(#[trigger] index@.entries[a].term),
                        encode_utf8(#[trigger] index@.entries[b].term),
                    ) by {
                        assert(index@.entries[a].term == placed.entries[a].term);
                        assert(index@.entries[b].term == placed.entries[b].term);
                    }
                }
                assert forall|j: int| 0 <= j < index@.entries.len() implies next.contains(
                    (#[trigger] index@.entries[j]).term,
                ) && index@.entries[j].hits == seq![
                    posting(document, next, index@.entries[j].term),
                ] by {
                    let term = index@.entries[j].term;
                    if j != k {
                        let b = if !start.contains(t) && j > k { j - 1 } else { j };
                        assert(placed.entries[j] == start.entries[b]);
                        assert(start.entries[b].term == term);
                        assert(seen.contains(term));
                        let w = choose|w: int| 0 <= w < seen.len() && seen[w] == term;
                        assert(next[w] == term);
                        assert(term != t) by {
                            if term == t {
                                lemma_position(index@, j);
                                lemma_position(index@, k as int);
                            }
                        }
                    }
                }
                assert forall|w: int| 0 <= w < i + 1 implies index@.contains(
                    #[trigger] toks[w],
                ) by {
                    if w < i {
                        assert(start.contains(toks[w]));
                        let b = start.position(toks[w]);
                        let j = if !start.contains(t) && b >= k { b + 1 } else { b };
                        assert(placed.entries[j] == start.entries[b]);
                        assert(index@.entries[j].term == toks[w]);
                    } else {
                        assert(index@.entries[k as int].term == toks[w]);
                    }
                }
            }
            i += 1;
        }
        assert(toks.take(i as int) =~= toks);
        index
    }

    /// Indexes a single document.
    ///
    /// The text is put in lower case and broken into tokens. The index holds
    /// one posting for each term of the document.
    pub fn from_single_document(document_id: usize, text: String) -> (index: InMemoryIndex)
        ensures
            index.wf(),
            indexes(index@, low32(document_id as int), tokens(lowercase(text@))),
    {
        let text = to_lowercase(text.as_str());
        let tokens = tokenize(text.as_str());
        InMemoryIndex::from_tokens(document_id, &tokens)
    }

    /// Looks for a term: `Ok` with the place at which it stands, or `Err`
    /// with the place at which it would have to stand.
    fn find(&self, term: &[u8]) -> (r: Result<usize, usize>)
        requires
            self.wf(),
        ensures
            match r {
                Ok(i) => i < self@.entries.len() && encode_utf8(self@.entries[i as int].term)
                    == term@,
                Err(i) => {
                    &&& i <= self@.entries.len()
                    &&& forall|j: int|
                        0 <= j < i ==> lex_lt(
                            encode_utf8(#[trigger] self@.entries[j].term),
                            term@,
                        )
                    &&& forall|j: int|
                        i <= j < self@.entries.len() ==> lex_lt(
                            term@,
                            encode_utf8(#[trigger] self@.entries[j].term),
                        )
                },
            },
    {
        let mut low: usize = 0;
        let mut high: usize = self.entries.len();
        while low < high
            invariant
                self.wf(),
                low <= high <= self.entries@.len(),
                forall|j: int|
                    0 <= j < low ==> lex_lt(encode_utf8(#[trigger] self@.entries[j].term), term@),
                forall|j: int|
                    high <= j < self@.entries.len() ==> lex_lt(
                        term@,
                        encode_utf8(#[trigger] self@.entries[j].term),
                    ),
            decreases high - low,
        {
            let mid = low + (high - low) / 2;
            let ghost at = encode_utf8(self@.entries[mid as int].term);
            match compare(self.entries[mid].term.as_str().as_bytes(), term) {
                Relation::Same => {
                    return Ok(mid);
                },
                Relation::Before => {
                    assert forall|j: int| 0 <= j < mid + 1 implies lex_lt(
                        encode_utf8(#[trigger] self@.entries[j].term),
                        term@,
                    ) by {
                        if j < mid {
                            lemma_lex_transitive(encode_utf8(self@.entries[j].term), at, term@);
                        }
                    }
                    low = mid + 1;
                },
                Relation::After => {
                    assert forall|j: int| mid <= j < self@.entries.len() implies lex_lt(
                        term@,
                        encode_utf8(#[trigger] self@.entries[j].term),
                    ) by {
                        if mid < j {
                            lemma_lex_transitive(term@, at, encode_utf8(self@.entries[j].term));
                        }
                    }
                    high = mid;
                },
            }
        }
        Err(low)
    }

    /// The place of a term in the index. Where the index does not hold the
    /// term yet, the term is put in, without postings, and the flag is set.
    fn slot(&mut self, term: String) -> (place: usize)
        requires
            old(self).wf(),
        ensures
            final(self).wf(),
            final(self)@.word_count == old(self)@.word_count,
            place < final(self)@.entries.len(),
            place <= old(self)@.entries.len(),
            final(self)@.entries[place as int].term == term@,
            final(self)@.entries == if old(self)@.contains(term@) {
                old(self)@.entries
            } else {
                old(self)@.entries.insert(
                    place as int,
                    PostingsView { term: term@, hits: Seq::empty() },
                )
            },
    {
        broadcast use vstd::utf8::encode_utf8_decode_utf8;

        let ghost bytes = encode_utf8(term@);
        proof {
            lemma_lex_asymmetric(bytes, bytes);
        }
        match self.find(term.as_str().as_bytes()) {
            Ok(i) => {
                assert(vstd::utf8::decode_utf8(encode_utf8(self@.entries[i as int].term))
                    == vstd::utf8::decode_utf8(bytes));
                i
            },
            Err(i) => {
                let ghost before = self@.entries;
                let ghost added = PostingsView { term: term@, hits: Seq::empty() };
                self.entries.insert(i, TermHits { term, hits: Vec::new() });
                assert(self@.entries =~~= before.insert(i as int, added));
                assert forall|a: int, b: int| 0 <= a < b < self@.entries.len() implies lex_lt(
                    encode_utf8(#[trigger] self@.entries[a].term),
                    encode_utf8(#[trigger] self@.entries[b].term),
                ) by {
                    let x = if a < i { a } else { a - 1 };
                    let y = if b < i { b } else { b - 1 };
                    if a != i && b != i {
                        assert(lex_lt(
                            encode_utf8(before[x].term),
                            encode_utf8(before[y].term),
                        ));
                    } else if a == i {
                        assert(lex_lt(bytes, encode_utf8(before[y].term)));
                    } else {
                        assert(lex_lt(encode_utf8(before[x].term), bytes));
                    }
                }
                assert(!old(self)@.contains(term@)) by {
                    if old(self)@.contains(term@) {
                        let j = old(self)@.position(term@);
                        assert(encode_utf8(before[j].term) == bytes);
                    }
                }
                i
            },
        }
    }
}

} // verus!
