//! Building an index in memory, one document at a time: every document gets
//! the next identifier, and each of its distinct terms gets a posting with
//! the number of times it occurs in it.

use crate::bytes_order::{lemma_lex_order, lex_less, strictly_increasing};
use crate::dictionary::{
    dictionary_map, find_entry, lemma_insert_sorted, lemma_map_insert, lemma_map_update, term_keys,
};
use crate::document::{document_tokens, lemma_tokens_nonempty, tokens};
use crate::inverted_index::{
    dictionary_keys, dictionary_sorted, entry_views, lemma_term_bytes_injective, term_bytes,
    total_postings, InvertedIndex,
};
use crate::model::{DocumentId, Posting};
use crate::segment_reader::{quote_term, quoted_term};
use crate::text::{decimal, format_decimal, join2, join3};
use vstd::prelude::*;

verus! {

/// How many of `words` are `term`.
pub open spec fn occurrences(words: Seq<Seq<char>>, term: Seq<char>) -> nat
    decreases words.len(),
{
    if words.len() == 0 {
        0
    } else {
        occurrences(words.drop_last(), term) + if words.last() == term {
            1nat
        } else {
            0nat
        }
    }
}

proof fn lemma_occurrences_contains(words: Seq<Seq<char>>, term: Seq<char>)
    ensures
        occurrences(words, term) > 0 ==> words.contains(term),
        occurrences(words, term) <= words.len(),
    decreases words.len(),
{
    if words.len() > 0 {
        lemma_occurrences_contains(words.drop_last(), term);
        if occurrences(words.drop_last(), term) > 0 {
            let i = choose|i: int| 0 <= i < words.drop_last().len() && words.drop_last()[i] == term;
            assert(words[i] == term);
        }
        if words.last() == term {
            assert(words[words.len() - 1] == term);
        }
    }
}

/// A counter that a document can overflow.
#[derive(Debug, Clone, Copy, PartialEq, Eq, Structural)]
pub enum CountOverflow {
    Tokens,
    Frequency,
}

/// The first of `words`, from position `k` on, at which counting overflows:
/// the builder's token count, which stood at `token_count` before the
/// document, or the term's frequency in the document.
pub open spec fn first_overflow(words: Seq<Seq<char>>, token_count: nat, k: nat) -> Option<
    (nat, CountOverflow),
>
    decreases words.len() - k,
{
    if k >= words.len() {
        None
    } else if token_count + k + 1 > u64::MAX {
        Some((k, CountOverflow::Tokens))
    } else if occurrences(words.take(k + 1int), words[k as int]) > u32::MAX {
        Some((k, CountOverflow::Frequency))
    } else {
        first_overflow(words, token_count, k + 1)
    }
}

/// The postings after document `document_id` with tokens `words` is added:
/// each of its distinct terms gets a posting with its number of
/// occurrences.
pub open spec fn with_document(
    map: Map<Seq<char>, Seq<Posting>>,
    words: Seq<Seq<char>>,
    document_id: DocumentId,
) -> Map<Seq<char>, Seq<Posting>> {
    Map::new(
        |term: Seq<char>| map.contains_key(term) || words.contains(term),
        |term: Seq<char>|
            if words.contains(term) {
                (if map.contains_key(term) {
                    map[term]
                } else {
                    Seq::empty()
                }).push(
                    Posting { document_id, term_frequency: occurrences(words, term) as u32 },
                )
            } else {
                map[term]
            },
    )
}

/// The postings after the first `j` of the counted terms `counts` of a
/// document have been added.
pub open spec fn with_counted(
    map: Map<Seq<char>, Seq<Posting>>,
    counts: Seq<(String, u32)>,
    j: int,
    words: Seq<Seq<char>>,
    document_id: DocumentId,
) -> Map<Seq<char>, Seq<Posting>> {
    Map::new(
        |term: Seq<char>|
            map.contains_key(term) || exists|c: int| 0 <= c < j && (#[trigger] counts[c]).0@ == term,
        |term: Seq<char>|
            if exists|c: int| 0 <= c < j && (#[trigger] counts[c]).0@ == term {
                (if map.contains_key(term) {
                    map[term]
                } else {
                    Seq::empty()
                }).push(
                    Posting { document_id, term_frequency: occurrences(words, term) as u32 },
                )
            } else {
                map[term]
            },
    )
}

proof fn lemma_distinct_counted(counts: Seq<(String, u32)>, a: int, b: int)
    requires
        strictly_increasing(term_keys(counts)),
        0 <= a < counts.len(),
        0 <= b < counts.len(),
        counts[a].0@ == counts[b].0@,
    ensures
        a == b,
{
    let keys = term_keys(counts);
    if a < b {
        assert(lex_less(keys[a], keys[b]));
        lemma_lex_order(keys[a], keys[a], keys[a]);
    } else if b < a {
        assert(lex_less(keys[b], keys[a]));
        lemma_lex_order(keys[b], keys[b], keys[b]);
    }
}

/// Where indexing a corpus stands: the postings so far, the next document
/// identifier, the token count, and the error that stopped it, if any.
pub struct CorpusProgress {
    pub map: Map<Seq<char>, Seq<Posting>>,
    pub next: nat,
    pub tokens: nat,
    pub error: Option<Seq<char>>,
}

/// Indexing one more document, the line `line`; see `add_document`.
pub open spec fn document_step(progress: CorpusProgress, line: Seq<char>) -> CorpusProgress {
    let words = tokens(line);
    match first_overflow(words, progress.tokens, 0) {
        Some((k, CountOverflow::Tokens)) => CorpusProgress {
            tokens: progress.tokens + k,
            error: Some("token count exceeds u64"@),
            ..progress
        },
        Some((k, CountOverflow::Frequency)) => CorpusProgress {
            tokens: progress.tokens + k + 1,
            error: Some(quoted_term("term "@, words[k as int], " frequency exceeds u32"@)),
            ..progress
        },
        None => CorpusProgress {
            map: with_document(progress.map, words, progress.next as DocumentId),
            next: progress.next + 1,
            tokens: progress.tokens + words.len(),
            error: None,
        },
    }
}

/// Indexing the first `count` of `lines`, one document per line, from
/// `start`, stopping at the first error.
pub open spec fn corpus_progress(start: CorpusProgress, lines: Seq<String>, count: int) -> CorpusProgress
    decreases count,
{
    if count <= 0 {
        start
    } else {
        let before = corpus_progress(start, lines, count - 1);
        if before.error is Some {
            before
        } else {
            document_step(before, lines[count - 1]@)
        }
    }
}

/// Indexing without an error gives every line the next document
/// identifier.
pub proof fn lemma_progress_counts_documents(start: CorpusProgress, lines: Seq<String>, count: int)
    requires
        0 <= count,
        start.error is None,
        corpus_progress(start, lines, count).error is None,
    ensures
        corpus_progress(start, lines, count).next == start.next + count,
    decreases count,
{
    if count > 0 {
        lemma_progress_counts_documents(start, lines, count - 1);
    }
}

proof fn lemma_error_stays(start: CorpusProgress, lines: Seq<String>, stopped: int, count: int)
    requires
        0 <= stopped <= count,
        corpus_progress(start, lines, stopped).error is Some,
    ensures
        corpus_progress(start, lines, count) == corpus_progress(start, lines, stopped),
    decreases count - stopped,
{
    if count > stopped {
        lemma_error_stays(start, lines, stopped, count - 1);
    }
}

/// Builds an index in memory.
pub struct IndexBuilder {
    postings: Vec<(String, Vec<Posting>)>,
    next_document_id: DocumentId,
    token_count: u64,
}

impl IndexBuilder {
    /// The postings so far, in term order.
    pub closed spec fn entries(&self) -> Seq<(Seq<char>, Seq<Posting>)> {
        entry_views(self.postings@)
    }

    /// The identifier the next document gets, which is also the number of
    /// documents so far.
    pub closed spec fn spec_next_document_id(&self) -> DocumentId {
        self.next_document_id
    }

    /// The number of tokens read so far.
    pub closed spec fn spec_token_count(&self) -> u64 {
        self.token_count
    }

    /// The terms stay in strictly increasing order.
    #[verifier::type_invariant]
    spec fn sorted(self) -> bool {
        dictionary_sorted(entry_views(self.postings@))
    }

    /// An empty builder.
    pub fn new() -> (builder: Self)
        ensures
            builder.entries().len() == 0,
            builder.spec_next_document_id() == 0,
            builder.spec_token_count() == 0,
            well_built(dictionary_map(builder.entries()), 0),
    {
        let builder = IndexBuilder { postings: Vec::new(), next_document_id: 0, token_count: 0 };
        assert(dictionary_keys(entry_views(builder.postings@)) =~= Seq::<Seq<u8>>::empty());
        assert(dictionary_map(builder.entries()) =~= Map::empty());
        builder
    }

    /// A builder holding `postings`, with `next_document_id` documents so
    /// far and no token, if the terms of `postings` strictly increase.
    pub fn from_parts(postings: Vec<(String, Vec<Posting>)>, next_document_id: DocumentId) -> (result:
        Option<Self>)
        ensures
            dictionary_sorted(entry_views(postings@)) ==> (result matches Some(builder)
                && builder.entries() == entry_views(postings@) && builder.spec_next_document_id()
                == next_document_id && builder.spec_token_count() == 0),
            !dictionary_sorted(entry_views(postings@)) ==> result is None,
    {
        let mut i: usize = 1;
        let ghost keys = dictionary_keys(entry_views(postings@));
        while i < postings.len()
            invariant
                1 <= i,
                keys == dictionary_keys(entry_views(postings@)),
                forall|a: int, b: int| 0 <= a < b < i && b < keys.len() ==> lex_less(
                    #[trigger] keys[a],
                    #[trigger] keys[b],
                ),
            decreases postings@.len() - i,
        {
            let before = postings[i - 1].0.as_str().as_bytes();
            let after = postings[i].0.as_str().as_bytes();
            assert(before@ == keys[i - 1]);
            assert(after@ == keys[i as int]);
            match crate::bytes_order::compare_bytes(before, after) {
                crate::bytes_order::Comparison::Less => {},
                _ => {
                    proof {
                        lemma_lex_order(keys[i - 1], keys[i as int], keys[i as int]);
                    }
                    return None;
                },
            }
            proof {
                assert forall|a: int, b: int| 0 <= a < b < i + 1 && b < keys.len() implies lex_less(
                    #[trigger] keys[a],
                    #[trigger] keys[b],
                ) by {
                    if b == i && a < i - 1 {
                        lemma_lex_order(keys[a], keys[i - 1], keys[b]);
                    }
                }
            }
            i = i + 1;
        }
        Some(IndexBuilder { postings, next_document_id, token_count: 0 })
    }

    /// Adds the document `document`: it gets the next identifier, and each
    /// of its distinct tokens a posting with its number of occurrences.
    /// Stops, with an error, when the token count or a term's frequency in
    /// the document would overflow; the tokens counted before stay counted.
    pub fn add_document(&mut self, document: &str) -> (result: Result<(), String>)
        requires
            old(self).spec_next_document_id() < u32::MAX,
        ensures
            ({
                let words = tokens(document@);
                match first_overflow(words, old(self).spec_token_count() as nat, 0) {
                    Some((k, CountOverflow::Tokens)) => result matches Err(message) && message@
                        == "token count exceeds u64"@ && final(self).spec_token_count()
                        == old(self).spec_token_count() + k && final(self).entries()
                        == old(self).entries() && final(self).spec_next_document_id()
                        == old(self).spec_next_document_id(),
                    Some((k, CountOverflow::Frequency)) => result matches Err(message) && message@
                        == quoted_term("term "@, words[k as int], " frequency exceeds u32"@)
                        && final(self).spec_token_count() == old(self).spec_token_count() + k + 1
                        && final(self).entries() == old(self).entries() && final(self).spec_next_document_id() == old(self).spec_next_document_id(),
                    None => result is Ok && final(self).spec_token_count() == old(self).spec_token_count() + words.len() && final(self).spec_next_document_id()
                        == old(self).spec_next_document_id() + 1 && dictionary_map(
                        final(self).entries(),
                    ) == with_document(
                        dictionary_map(old(self).entries()),
                        words,
                        old(self).spec_next_document_id(),
                    ),
                }
            }),
            well_built(dictionary_map(old(self).entries()), old(self).spec_next_document_id())
                ==> well_built(
                dictionary_map(final(self).entries()),
                final(self).spec_next_document_id(),
            ),
    {
        proof {
            use_type_invariant(&*self);
        }
        let words = document_tokens(document);
        let ghost all = tokens(document@);
        let ghost start_count = self.token_count as nat;
        let mut counts: Vec<(String, u32)> = Vec::new();
        let mut k: usize = 0;
        assert(term_keys(counts@) =~= Seq::<Seq<u8>>::empty());
        while k < words.len()
            invariant
                all == tokens(document@),
                k <= words@.len(),
                words@.len() == all.len(),
                forall|i: int| 0 <= i < words@.len() ==> (#[trigger] words@[i])@ == all[i],
                self.token_count == start_count + k,
                self.postings@ == old(self).postings@,
                dictionary_sorted(entry_views(old(self).postings@)),
                self.next_document_id == old(self).next_document_id,
                start_count == old(self).token_count,
                first_overflow(all, start_count, 0) == first_overflow(all, start_count, k as nat),
                strictly_increasing(term_keys(counts@)),
                forall|j: int|
                    0 <= j < counts@.len() ==> (#[trigger] counts@[j]).1 == occurrences(
                        all.take(k as int),
                        counts@[j].0@,
                    ) && all.take(k as int).contains(counts@[j].0@),
                forall|i: int|
                    #![trigger all[i]]
                    0 <= i < k ==> exists|j: int|
                        0 <= j < counts@.len() && (#[trigger] counts@[j]).0@ == all[i],
            decreases words@.len() - k,
        {
            let word = words[k];
            assert(word@ == all[k as int]);
            self.token_count = match self.token_count.checked_add(1) {
                Some(count) => count,
                None => {
                    assert(first_overflow(all, start_count, k as nat) == Some(
                        (k as nat, CountOverflow::Tokens),
                    ));
                    assert(self.entries() == old(self).entries());
                    assert(self.token_count == old(self).token_count + k);

                    return Err(String::from_str("token count exceeds u64"));
                },
            };
            let ghost longer = all.take(k + 1);
            assert(longer.drop_last() =~= all.take(k as int));
            assert(longer.last() == all[k as int]);
            match find_entry(counts.as_slice(), word) {
                Ok(i) => {
                    let count = counts[i].1;
                    if count == 4294967295 {
                        assert(first_overflow(all, start_count, k as nat) == Some(
                            (k as nat, CountOverflow::Frequency),
                        ));
                        return Err(quote_term("term ", word, " frequency exceeds u32"));
                    }
                    let ghost before = counts@;
                    counts[i].1 = count + 1;
                    proof {
                        assert(term_keys(counts@) =~= term_keys(before));
                        assert forall|j: int| 0 <= j < counts@.len() implies (#[trigger] counts@[j]).1
                            == occurrences(longer, counts@[j].0@) && longer.contains(
                            counts@[j].0@,
                        ) by {
                            if j != i {
                                assert(counts@[j] == before[j]);
                                if counts@[j].0@ == all[k as int] {
                                    lemma_distinct_counted(before, i as int, j);
                                }
                                let w = choose|w: int|
                                    0 <= w < all.take(k as int).len() && all.take(k as int)[w]
                                        == counts@[j].0@;
                                assert(longer[w] == counts@[j].0@);
                            } else {
                                assert(longer[k as int] == all[k as int]);
                            }
                        }
                        assert forall|w: int| #![trigger all[w]] 0 <= w < k + 1 implies exists|j: int|
                            0 <= j < counts@.len() && (#[trigger] counts@[j]).0@ == all[w] by {
                            if w < k {
                                let j = choose|j: int|
                                    0 <= j < before.len() && (#[trigger] before[j]).0@ == all[w];
                                assert(counts@[j].0@ == all[w]);
                            } else {
                                assert(counts@[i as int].0@ == all[w]);
                            }
                        }
                    }
                },
                Err(p) => {
                    let ghost before = counts@;
                    proof {
                        lemma_occurrences_contains(all.take(k as int), all[k as int]);
                        if all.take(k as int).contains(all[k as int]) {
                            let w = choose|w: int|
                                0 <= w < all.take(k as int).len() && all.take(k as int)[w]
                                    == all[k as int];
                            let j = choose|j: int|
                                0 <= j < before.len() && (#[trigger] before[j]).0@ == all[w];
                            lemma_term_bytes_injective(before[j].0@, all[k as int]);
                            lemma_lex_order(term_keys(before)[j], term_keys(before)[j], term_keys(before)[j]);
                        }
                        lemma_insert_sorted(term_keys(before), p as int, term_bytes(word@));
                    }
                    counts.insert(p, (word.to_owned(), 1));
                    proof {
                        assert(term_keys(counts@) =~= term_keys(before).insert(
                            p as int,
                            term_bytes(word@),
                        ));
                        assert forall|j: int| 0 <= j < counts@.len() implies (#[trigger] counts@[j]).1
                            == occurrences(longer, counts@[j].0@) && longer.contains(
                            counts@[j].0@,
                        ) by {
                            if j == p {
                                assert(longer[k as int] == all[k as int]);
                            } else {
                                let old_j = if j < p {
                                    j
                                } else {
                                    j - 1
                                };
                                assert(counts@[j] == before[old_j]);
                                if before[old_j].0@ == all[k as int] {
                                    let w = choose|w: int|
                                        0 <= w < all.take(k as int).len() && all.take(k as int)[w]
                                            == before[old_j].0@;
                                    assert(all.take(k as int).contains(all[k as int]));
                                    lemma_occurrences_contains(all.take(k as int), all[k as int]);
                                }
                                let w = choose|w: int|
                                    0 <= w < all.take(k as int).len() && all.take(k as int)[w]
                                        == counts@[j].0@;
                                assert(longer[w] == counts@[j].0@);
                            }
                        }
                        assert forall|w: int| #![trigger all[w]] 0 <= w < k + 1 implies exists|j: int|
                            0 <= j < counts@.len() && (#[trigger] counts@[j]).0@ == all[w] by {
                            if w < k {
                                let j = choose|j: int|
                                    0 <= j < before.len() && (#[trigger] before[j]).0@ == all[w];
                                if j < p {
                                    assert(counts@[j].0@ == all[w]);
                                } else {
                                    assert(counts@[j + 1].0@ == all[w]);
                                }
                            } else {
                                assert(counts@[p as int].0@ == all[w]);
                            }
                        }
                    }
                },
            }
            k = k + 1;
        }
        assert(all.take(k as int) =~= all);
        let document_id = self.next_document_id;
        let mut postings: Vec<(String, Vec<Posting>)> = Vec::new();
        std::mem::swap(&mut postings, &mut self.postings);
        let ghost start_map = dictionary_map(entry_views(postings@));
        let mut j: usize = 0;
        assert(with_counted(start_map, counts@, 0, all, document_id) =~= start_map);
        while j < counts.len()
            invariant
                all == tokens(document@),
                j <= counts@.len(),
                start_map == dictionary_map(entry_views(old(self).postings@)),
                dictionary_sorted(entry_views(postings@)),
                strictly_increasing(term_keys(counts@)),
                forall|c: int|
                    0 <= c < counts@.len() ==> (#[trigger] counts@[c]).1 == occurrences(
                        all,
                        counts@[c].0@,
                    ) && all.contains(counts@[c].0@),
                dictionary_map(entry_views(postings@)) == with_counted(
                    start_map,
                    counts@,
                    j as int,
                    all,
                    document_id,
                ),
            decreases counts@.len() - j,
        {
            let term = counts[j].0.as_str();
            let posting = Posting { document_id, term_frequency: counts[j].1 };
            let ghost before = postings@;
            let ghost current = dictionary_map(entry_views(before));
            let ghost previous = with_counted(start_map, counts@, j as int, all, document_id);
            let ghost next = with_counted(start_map, counts@, j + 1, all, document_id);
            let ghost value = (if start_map.contains_key(term@) {
                start_map[term@]
            } else {
                Seq::empty()
            }).push(posting);
            proof {
                assert(counts@[j as int].0@ == term@);
                assert(posting == Posting {
                    document_id,
                    term_frequency: occurrences(all, term@) as u32,
                });
                assert forall|t: Seq<char>|
                    #![trigger next.contains_key(t)]
                    #![trigger previous.contains_key(t)]
                    t != term@ implies next.contains_key(t) == previous.contains_key(t) && (
                    next.contains_key(t) ==> next[t] == previous[t]) by {
                    if exists|c: int| 0 <= c < j + 1 && (#[trigger] counts@[c]).0@ == t {
                        let c = choose|c: int| 0 <= c < j + 1 && (#[trigger] counts@[c]).0@ == t;
                        assert(c < j);
                    }
                }
                assert(next.contains_key(term@));
                assert(next[term@] == value);
                assert(next =~= previous.insert(term@, value));
                assert forall|c: int| 0 <= c < j implies (#[trigger] counts@[c]).0@ != term@ by {
                    if counts@[c].0@ == term@ {
                        lemma_distinct_counted(counts@, c, j as int);
                    }
                }
                assert(term_keys(before) =~= dictionary_keys(entry_views(before)));
            }
            match find_entry(postings.as_slice(), term) {
                Ok(i) => {
                    proof {
                        lemma_map_update(
                            entry_views(before),
                            i as int,
                            entry_views(before)[i as int].1.push(posting),
                        );
                        crate::inverted_index::lemma_unique_term(entry_views(before), i as int);
                        assert(current.contains_key(term@));
                        assert(current[term@] == entry_views(before)[i as int].1);
                        assert(previous[term@] == start_map[term@]);
                        assert(entry_views(before)[i as int].1.push(posting) == value);
                    }
                    postings[i].1.push(posting);
                    assert(entry_views(postings@) =~= entry_views(before).update(
                        i as int,
                        (entry_views(before)[i as int].0, entry_views(before)[i as int].1.push(posting)),
                    ));
                },
                Err(p) => {
                    proof {
                        lemma_map_insert(entry_views(before), p as int, term@, seq![posting]);
                        if current.contains_key(term@) {
                            let i = choose|i: int|
                                0 <= i < entry_views(before).len() && entry_views(before)[i].0
                                    == term@;
                            assert(term_keys(before)[i] == term_bytes(term@));
                            lemma_lex_order(term_bytes(term@), term_bytes(term@), term_bytes(term@));
                        }
                    }
                    let mut list: Vec<Posting> = Vec::new();
                    list.push(posting);
                    assert(!start_map.contains_key(term@));
                    assert(list@ =~= value);
                    postings.insert(p, (term.to_owned(), list));
                    assert(entry_views(postings@) =~= entry_views(before).insert(
                        p as int,
                        (term@, seq![posting]),
                    ));
                },
            }
            j = j + 1;
        }
        proof {
            assert forall|term: Seq<char>| all.contains(term) implies exists|c: int|
                0 <= c < counts@.len() && (#[trigger] counts@[c]).0@ == term by {
                let w = choose|w: int| 0 <= w < all.len() && all[w] == term;
                assert(all.take(k as int)[w] == all[w]);
            }
            assert(dictionary_map(entry_views(postings@)) =~= with_document(
                start_map,
                all,
                document_id,
            ));
        }
        proof {
            if well_built(start_map, document_id) {
                lemma_document_keeps_well_built(start_map, document@, start_count, document_id);
            }
        }
        self.postings = postings;
        self.next_document_id = self.next_document_id + 1;
        Ok(())
    }

    /// Where the builder stands, as the start of indexing a corpus.
    pub open spec fn progress(&self) -> CorpusProgress {
        CorpusProgress {
            map: dictionary_map(self.entries()),
            next: self.spec_next_document_id() as nat,
            tokens: self.spec_token_count() as nat,
            error: None,
        }
    }

    /// Adds every line of a corpus as one document, in order; stops at the
    /// first document that `add_document` rejects, with its error.
    pub fn create_index(&mut self, lines: &[String]) -> (result: Result<(), String>)
        requires
            old(self).spec_next_document_id() + lines@.len() <= u32::MAX,
        ensures
            ({
                let reached = corpus_progress(old(self).progress(), lines@, lines@.len() as int);
                &&& dictionary_map(final(self).entries()) == reached.map
                &&& final(self).spec_next_document_id() == reached.next
                &&& final(self).spec_token_count() == reached.tokens
                &&& match reached.error {
                    None => result is Ok,
                    Some(message) => result matches Err(text) && text@ == message,
                }
            }),
            well_built(dictionary_map(old(self).entries()), old(self).spec_next_document_id())
                ==> well_built(
                dictionary_map(final(self).entries()),
                final(self).spec_next_document_id(),
            ),
            dictionary_sorted(final(self).entries()),
    {
        let ghost start = old(self).progress();
        let mut index: usize = 0;
        while index < lines.len()
            invariant
                index <= lines@.len(),
                self.spec_next_document_id() + (lines@.len() - index) <= u32::MAX,
                corpus_progress(start, lines@, index as int).error is None,
                corpus_progress(start, lines@, index as int) == self.progress(),
                start == old(self).progress(),
                well_built(dictionary_map(old(self).entries()), old(self).spec_next_document_id())
                    ==> well_built(dictionary_map(self.entries()), self.spec_next_document_id()),
            decreases lines@.len() - index,
        {
            let ghost before = self.progress();
            let outcome = self.add_document(lines[index].as_str());
            assert(corpus_progress(start, lines@, index + 1) == document_step(
                before,
                lines@[index as int]@,
            ));
            match outcome {
                Ok(()) => {},
                Err(message) => {
                    proof {
                        lemma_error_stays(start, lines@, index + 1, lines@.len() as int);
                        use_type_invariant(&*self);
                    }
                    return Err(message);
                },
            }
            index = index + 1;
        }
        proof {
            use_type_invariant(&*self);
        }
        Ok(())
    }

    /// The number of tokens read so far.
    pub fn token_count(&self) -> (count: u64)
        ensures
            count == self.spec_token_count(),
    {
        self.token_count
    }

    /// Checks every term in term order: it must be nonempty and have
    /// postings, each with a nonzero frequency and a known document, in
    /// strictly increasing document order.
    pub fn validate(&self) -> (result: Result<(), String>)
        ensures
            match first_defect(self.entries(), 0, self.spec_next_document_id()) {
                None => result is Ok,
                Some((term, defect)) => result matches Err(message) && message@ == defect_message(
                    term,
                    defect,
                ),
            },
    {
        let ghost entries = self.entries();
        let next = self.next_document_id;
        let mut i: usize = 0;
        while i < self.postings.len()
            invariant
                i <= self.postings@.len(),
                entries == entry_views(self.postings@),
                next == self.next_document_id,
                first_defect(entries, 0, next) == first_defect(entries, i as nat, next),
            decreases self.postings@.len() - i,
        {
            let term = self.postings[i].0.as_str();
            let postings = self.postings[i].1.as_slice();
            assert(entries[i as int] == (term@, postings@));
            if term.unicode_len() == 0 {
                return Err(String::from_str("cannot finalize an index containing an empty term"));
            }
            if postings.len() == 0 {
                return Err(quote_term("term ", term, " has no postings"));
            }
            let mut j: usize = 0;
            while j < postings.len()
                invariant
                    j <= postings@.len(),
                    postings@.len() > 0,
                    i < self.postings@.len(),
                    entries == entry_views(self.postings@),
                    next == self.next_document_id,
                    first_defect(entries, 0, next) == first_defect(entries, i as nat, next),
                    entries[i as int] == (term@, postings@),
                    term@.len() > 0,
                    first_posting_defect(postings@, 0, next) == first_posting_defect(
                        postings@,
                        j as nat,
                        next,
                    ),
                decreases postings@.len() - j,
            {
                let posting = postings[j];
                if posting.term_frequency == 0 {
                    return Err(quote_term("term ", term, " has a posting with zero frequency"));
                }
                if posting.document_id >= next {
                    let number = format_decimal(posting.document_id as u64, 0);
                    let start = quote_term("term ", term, " contains unknown document ID ");
                    return Err(join2(start.as_str(), number.as_str()));
                }
                if j > 0 && postings[j - 1].document_id >= posting.document_id {
                    return Err(
                        quote_term("term ", term, " has document IDs that are not strictly increasing"),
                    );
                }
                j = j + 1;
            }
            i = i + 1;
        }
        Ok(())
    }

    /// The finalized index: the postings in term order and the number of
    /// documents, after `validate` passes and if the number of postings
    /// fits a `usize`.
    pub fn finalize(self) -> (result: Result<InvertedIndex, String>)
        ensures
            match first_defect(self.entries(), 0, self.spec_next_document_id()) {
                Some((term, defect)) => result matches Err(message) && message@ == defect_message(
                    term,
                    defect,
                ),
                None => if total_postings(self.entries(), self.entries().len() as int) > usize::MAX {
                    result matches Err(message) && message@ == "posting count exceeds usize"@
                } else {
                    result matches Ok(index) && index.entries() == self.entries()
                        && index.spec_document_count() == self.spec_next_document_id()
                },
            },
    {
        proof {
            use_type_invariant(&self);
        }
        match self.validate() {
            Ok(()) => {},
            Err(message) => return Err(message),
        }
        let ghost entries = self.entries();
        let mut total: usize = 0;
        let mut i: usize = 0;
        while i < self.postings.len()
            invariant
                i <= self.postings@.len(),
                entries == entry_views(self.postings@),
                entries == self.entries(),
                first_defect(self.entries(), 0, self.spec_next_document_id()) is None,
                total == total_postings(entries, i as int),
            decreases self.postings@.len() - i,
        {
            total = match total.checked_add(self.postings[i].1.len()) {
                Some(sum) => sum,
                None => {
                    proof {
                        lemma_total_postings_grows(entries, i as int + 1, entries.len() as int);
                    }
                    return Err(String::from_str("posting count exceeds usize"));
                },
            };
            i = i + 1;
        }
        Ok(InvertedIndex::from_finalized_postings(self.postings, self.next_document_id))
    }
}


/// Something that keeps a term out of the finalized index.
#[derive(Debug, Clone, Copy, PartialEq, Eq, Structural)]
pub enum TermDefect {
    EmptyTerm,
    NoPostings,
    ZeroFrequency,
    UnknownDocument(DocumentId),
    UnorderedDocuments,
}

/// The defect of posting `j` of a term, given the posting before it, with
/// `next_document_id` documents known.
pub open spec fn posting_defect(postings: Seq<Posting>, j: int, next_document_id: DocumentId) -> Option<
    TermDefect,
> {
    if postings[j].term_frequency == 0 {
        Some(TermDefect::ZeroFrequency)
    } else if postings[j].document_id >= next_document_id {
        Some(TermDefect::UnknownDocument(postings[j].document_id))
    } else if j > 0 && postings[j - 1].document_id >= postings[j].document_id {
        Some(TermDefect::UnorderedDocuments)
    } else {
        None
    }
}

/// The first defect among the postings from position `j` on.
pub open spec fn first_posting_defect(postings: Seq<Posting>, j: nat, next_document_id: DocumentId) -> Option<
    TermDefect,
>
    decreases postings.len() - j,
{
    if j >= postings.len() {
        None
    } else {
        match posting_defect(postings, j as int, next_document_id) {
            Some(defect) => Some(defect),
            None => first_posting_defect(postings, j + 1, next_document_id),
        }
    }
}

/// The first defect of one entry.
pub open spec fn term_defect(entry: (Seq<char>, Seq<Posting>), next_document_id: DocumentId) -> Option<
    TermDefect,
> {
    if entry.0.len() == 0 {
        Some(TermDefect::EmptyTerm)
    } else if entry.1.len() == 0 {
        Some(TermDefect::NoPostings)
    } else {
        first_posting_defect(entry.1, 0, next_document_id)
    }
}

/// The first entry, from position `i` on, with a defect, and its defect.
pub open spec fn first_defect(
    entries: Seq<(Seq<char>, Seq<Posting>)>,
    i: nat,
    next_document_id: DocumentId,
) -> Option<(Seq<char>, TermDefect)>
    decreases entries.len() - i,
{
    if i >= entries.len() {
        None
    } else {
        match term_defect(entries[i as int], next_document_id) {
            Some(defect) => Some((entries[i as int].0, defect)),
            None => first_defect(entries, i + 1, next_document_id),
        }
    }
}

/// The message that reports `defect` of `term`.
pub open spec fn defect_message(term: Seq<char>, defect: TermDefect) -> Seq<char> {
    match defect {
        TermDefect::EmptyTerm => "cannot finalize an index containing an empty term"@,
        TermDefect::NoPostings => quoted_term("term "@, term, " has no postings"@),
        TermDefect::ZeroFrequency => quoted_term(
            "term "@,
            term,
            " has a posting with zero frequency"@,
        ),
        TermDefect::UnknownDocument(id) => quoted_term(
            "term "@,
            term,
            " contains unknown document ID "@,
        ) + decimal(id as nat),
        TermDefect::UnorderedDocuments => quoted_term(
            "term "@,
            term,
            " has document IDs that are not strictly increasing"@,
        ),
    }
}

proof fn lemma_total_postings_grows(entries: Seq<(Seq<char>, Seq<Posting>)>, count: int, all: int)
    requires
        0 <= count <= all <= entries.len(),
    ensures
        total_postings(entries, count) <= total_postings(entries, all),
    decreases all - count,
{
    if count < all {
        lemma_total_postings_grows(entries, count, all - 1);
    }
}

/// Whether `map` has the shape that documents `0..next_document_id` give
/// it: every term is nonempty and has postings, with nonzero frequencies
/// and known documents in strictly increasing order.
pub open spec fn well_built(map: Map<Seq<char>, Seq<Posting>>, next_document_id: DocumentId) -> bool {
    forall|term: Seq<char>|
        #[trigger] map.contains_key(term) ==> term.len() > 0 && map[term].len() > 0 && forall|j: int|
            0 <= j < map[term].len() ==> posting_defect(map[term], j, next_document_id) is None
}

proof fn lemma_no_overflow_from(words: Seq<Seq<char>>, token_count: nat, k: nat)
    requires
        first_overflow(words, token_count, k) is None,
    ensures
        forall|m: int|
            k <= m < words.len() ==> occurrences(#[trigger] words.take(m + 1), words[m]) <= u32::MAX,
    decreases words.len() - k,
{
    if k < words.len() {
        lemma_no_overflow_from(words, token_count, k + 1);
    }
}

proof fn lemma_occurrences_after(words: Seq<Seq<char>>, term: Seq<char>, m: int)
    requires
        0 <= m <= words.len(),
        forall|i: int| m <= i < words.len() ==> #[trigger] words[i] != term,
    ensures
        occurrences(words, term) == occurrences(words.take(m), term),
    decreases words.len() - m,
{
    if m < words.len() {
        lemma_occurrences_after(words, term, m + 1);
        let longer = words.take(m + 1);
        assert(longer.drop_last() =~= words.take(m));
    } else {
        assert(words.take(m) =~= words);
    }
}

proof fn lemma_frequency_range(words: Seq<Seq<char>>, token_count: nat, term: Seq<char>)
    requires
        first_overflow(words, token_count, 0) is None,
        words.contains(term),
    ensures
        1 <= occurrences(words, term) <= u32::MAX,
{
    let last = choose|k: int|
        0 <= k < words.len() && words[k] == term && forall|i: int|
            k < i < words.len() ==> #[trigger] words[i] != term;
    assert(exists|k: int|
        0 <= k < words.len() && words[k] == term && forall|i: int|
            k < i < words.len() ==> #[trigger] words[i] != term) by {
        lemma_last_occurrence(words, term, words.len() as int);
    }
    lemma_no_overflow_from(words, token_count, 0);
    assert(occurrences(words.take(last + 1), words[last]) <= u32::MAX);
    lemma_occurrences_after(words, term, last + 1);
    let prefix = words.take(last + 1);
    assert(prefix.drop_last() =~= words.take(last));
    assert(prefix.last() == term);
}

proof fn lemma_last_occurrence(words: Seq<Seq<char>>, term: Seq<char>, end: int)
    requires
        0 <= end <= words.len(),
        exists|k: int| 0 <= k < end && words[k] == term,
    ensures
        exists|k: int|
            0 <= k < end && words[k] == term && forall|i: int|
                k < i < end ==> #[trigger] words[i] != term,
    decreases end,
{
    if words[end - 1] == term {
        assert(forall|i: int| end - 1 < i < end ==> #[trigger] words[i] != term);
    } else {
        lemma_last_occurrence(words, term, end - 1);
        let k = choose|k: int|
            0 <= k < end - 1 && words[k] == term && forall|i: int|
                k < i < end - 1 ==> #[trigger] words[i] != term;
        assert(forall|i: int| k < i < end ==> #[trigger] words[i] != term);
    }
}

/// Adding a document keeps the postings well built.
pub proof fn lemma_document_keeps_well_built(
    map: Map<Seq<char>, Seq<Posting>>,
    document: Seq<char>,
    token_count: nat,
    next_document_id: DocumentId,
)
    requires
        well_built(map, next_document_id),
        next_document_id < u32::MAX,
        first_overflow(tokens(document), token_count, 0) is None,
    ensures
        well_built(
            with_document(map, tokens(document), next_document_id),
            (next_document_id + 1) as DocumentId,
        ),
{
    let words = tokens(document);
    let after = with_document(map, words, next_document_id);
    let next = (next_document_id + 1) as DocumentId;
    lemma_tokens_nonempty(document);
    assert forall|term: Seq<char>| #[trigger] after.contains_key(term) implies term.len() > 0
        && after[term].len() > 0 && forall|j: int|
        0 <= j < after[term].len() ==> posting_defect(after[term], j, next) is None by {
        if words.contains(term) {
            lemma_frequency_range(words, token_count, term);
            let k = choose|k: int| 0 <= k < words.len() && words[k] == term;
            assert(words[k].len() > 0);
            let before = if map.contains_key(term) {
                map[term]
            } else {
                Seq::<Posting>::empty()
            };
            assert forall|j: int| 0 <= j < after[term].len() implies posting_defect(
                after[term],
                j,
                next,
            ) is None by {
                if j < before.len() {
                    assert(posting_defect(before, j, next_document_id) is None);
                    assert(after[term][j] == before[j]);
                    if j > 0 {
                        assert(after[term][j - 1] == before[j - 1]);
                    }
                } else if j > 0 {
                    assert(posting_defect(before, j - 1, next_document_id) is None);
                }
            }
        } else {
            assert forall|j: int| 0 <= j < after[term].len() implies posting_defect(
                after[term],
                j,
                next,
            ) is None by {
                assert(posting_defect(map[term], j, next_document_id) is None);
            }
        }
    }
}

proof fn lemma_no_posting_defect(postings: Seq<Posting>, j: nat, next_document_id: DocumentId)
    requires
        forall|i: int| 0 <= i < postings.len() ==> posting_defect(postings, i, next_document_id) is None,
    ensures
        first_posting_defect(postings, j, next_document_id) is None,
    decreases postings.len() - j,
{
    if j < postings.len() {
        lemma_no_posting_defect(postings, j + 1, next_document_id);
    }
}

proof fn lemma_no_defect_from(
    entries: Seq<(Seq<char>, Seq<Posting>)>,
    i: nat,
    next_document_id: DocumentId,
)
    requires
        dictionary_sorted(entries),
        well_built(dictionary_map(entries), next_document_id),
    ensures
        first_defect(entries, i, next_document_id) is None,
    decreases entries.len() - i,
{
    if i < entries.len() {
        let map = dictionary_map(entries);
        let term = entries[i as int].0;
        crate::inverted_index::lemma_unique_term(entries, i as int);
        assert(map.contains_key(term));
        assert(map[term] == entries[i as int].1);
        lemma_no_posting_defect(entries[i as int].1, 0, next_document_id);
        lemma_no_defect_from(entries, i + 1, next_document_id);
    }
}

/// An index built from documents has no defect: finalizing it fails at
/// most on the number of postings.
pub proof fn lemma_built_index_has_no_defect(
    entries: Seq<(Seq<char>, Seq<Posting>)>,
    next_document_id: DocumentId,
)
    requires
        dictionary_sorted(entries),
        well_built(dictionary_map(entries), next_document_id),
    ensures
        first_defect(entries, 0, next_document_id) is None,
{
    lemma_no_defect_from(entries, 0, next_document_id);
}

} // verus!
