//! The finalized in-memory index: terms in increasing byte order, each with
//! its postings.

use crate::bytes_order::{compare_bytes, lemma_lex_order, lex_less, strictly_increasing, Comparison};
use crate::model::{DocumentId, Posting};
use vstd::prelude::*;
use vstd::string::StringSliceAdditionalSpecFns;
use vstd::utf8::encode_utf8;

verus! {

/// The UTF-8 bytes of a term.
pub open spec fn term_bytes(term: Seq<char>) -> Seq<u8> {
    encode_utf8(term)
}

/// The abstract value of one dictionary entry.
pub open spec fn entry_view(entry: (String, Vec<Posting>)) -> (Seq<char>, Seq<Posting>) {
    (entry.0@, entry.1@)
}

/// The abstract values of dictionary entries.
pub open spec fn entry_views(entries: Seq<(String, Vec<Posting>)>) -> Seq<(Seq<char>, Seq<Posting>)> {
    entries.map_values(|entry: (String, Vec<Posting>)| entry_view(entry))
}

/// The terms of a dictionary, as bytes.
pub open spec fn dictionary_keys(entries: Seq<(Seq<char>, Seq<Posting>)>) -> Seq<Seq<u8>> {
    entries.map_values(|entry: (Seq<char>, Seq<Posting>)| term_bytes(entry.0))
}

/// Whether the terms of a dictionary strictly increase in byte order.
pub open spec fn dictionary_sorted(entries: Seq<(Seq<char>, Seq<Posting>)>) -> bool {
    strictly_increasing(dictionary_keys(entries))
}

/// The number of postings of the first `count` entries.
pub open spec fn total_postings(entries: Seq<(Seq<char>, Seq<Posting>)>, count: int) -> int
    decreases count,
{
    if count <= 0 {
        0
    } else {
        total_postings(entries, count - 1) + entries[count - 1].1.len()
    }
}

/// The postings of `term` in a dictionary: those of its entry, or none.
pub open spec fn postings_of(entries: Seq<(Seq<char>, Seq<Posting>)>, term: Seq<char>) -> Seq<Posting> {
    if exists|i: int| 0 <= i < entries.len() && entries[i].0 == term {
        entries[choose|i: int| 0 <= i < entries.len() && entries[i].0 == term].1
    } else {
        Seq::empty()
    }
}

/// The finalized index.
pub struct InvertedIndex {
    postings: Vec<(String, Vec<Posting>)>,
    document_count: DocumentId,
    posting_count: usize,
}

impl InvertedIndex {
    /// The dictionary, in term order.
    pub closed spec fn entries(&self) -> Seq<(Seq<char>, Seq<Posting>)> {
        entry_views(self.postings@)
    }

    /// The number of documents the index covers.
    pub closed spec fn spec_document_count(&self) -> DocumentId {
        self.document_count
    }

    #[verifier::type_invariant]
    spec fn well_formed(self) -> bool {
        &&& dictionary_sorted(entry_views(self.postings@))
        &&& self.posting_count == total_postings(
            entry_views(self.postings@),
            self.postings@.len() as int,
        )
    }

    /// An index over `postings`, which must be in strictly increasing term
    /// order, covering `document_count` documents.
    pub fn from_finalized_postings(postings: Vec<(String, Vec<Posting>)>, document_count: DocumentId) -> (index: Self)
        requires
            dictionary_sorted(entry_views(postings@)),
            total_postings(entry_views(postings@), postings@.len() as int) <= usize::MAX,
        ensures
            index.entries() == entry_views(postings@),
            index.spec_document_count() == document_count,
    {
        let ghost entries = entry_views(postings@);
        let mut posting_count: usize = 0;
        let mut i: usize = 0;
        while i < postings.len()
            invariant
                i <= postings@.len(),
                entries == entry_views(postings@),
                total_postings(entries, postings@.len() as int) <= usize::MAX,
                posting_count == total_postings(entries, i as int),
            decreases postings@.len() - i,
        {
            proof {
                lemma_total_postings_grows(entries, i as int + 1, postings@.len() as int);
            }
            posting_count = posting_count + postings[i].1.len();
            i = i + 1;
        }
        Self { postings, document_count, posting_count }
    }

    /// The postings of `term`, or none if the index does not contain it.
    pub fn query(&self, term: &str) -> (postings: &[Posting])
        ensures
            postings@ == postings_of(self.entries(), term@),
    {
        proof {
            use_type_invariant(self);
        }
        let ghost entries = self.entries();
        let ghost keys = dictionary_keys(entries);
        let target = term.as_bytes();
        let mut low: usize = 0;
        let mut high: usize = self.postings.len();
        while low < high
            invariant
                low <= high <= self.postings@.len(),
                entries == self.entries(),
                keys == dictionary_keys(entries),
                dictionary_sorted(entries),
                target@ == term_bytes(term@),
                forall|j: int| 0 <= j < low ==> lex_less(#[trigger] keys[j], target@),
                forall|j: int| high <= j < keys.len() ==> lex_less(target@, #[trigger] keys[j]),
            decreases high - low,
        {
            let middle = low + (high - low) / 2;
            let key = self.postings[middle].0.as_str().as_bytes();
            assert(key@ == keys[middle as int]);
            match compare_bytes(key, target) {
                Comparison::Equal => {
                    proof {
                        lemma_term_bytes_injective(entries[middle as int].0, term@);
                        lemma_unique_term(entries, middle as int);
                    }
                    return self.postings[middle].1.as_slice();
                },
                Comparison::Less => {
                    assert forall|j: int| 0 <= j < middle + 1 implies lex_less(#[trigger] keys[j], target@) by {
                        if j < middle {
                            lemma_lex_order(keys[j], keys[middle as int], target@);
                        }
                    }
                    low = middle + 1;
                },
                Comparison::Greater => {
                    proof {
                        lemma_lex_order(key@, target@, target@);
                    }
                    assert forall|j: int| middle <= j < keys.len() implies lex_less(target@, #[trigger] keys[j]) by {
                        if j > middle {
                            lemma_lex_order(target@, keys[middle as int], keys[j]);
                        }
                    }
                    high = middle;
                },
            }
        }
        proof {
            assert forall|i: int| 0 <= i < entries.len() implies entries[i].0 != term@ by {
                lemma_lex_order(keys[i], target@, target@);
            }
        }
        &[]
    }

    /// The number of documents the index covers.
    pub fn document_count(&self) -> (count: DocumentId)
        ensures
            count == self.spec_document_count(),
    {
        self.document_count
    }

    /// The number of distinct terms.
    pub fn term_count(&self) -> (count: usize)
        ensures
            count == self.entries().len(),
    {
        self.postings.len()
    }

    /// The number of postings over all terms.
    pub fn posting_count(&self) -> (count: usize)
        ensures
            count == total_postings(self.entries(), self.entries().len() as int),
    {
        proof {
            use_type_invariant(self);
        }
        self.posting_count
    }

    /// The dictionary, in term order.
    pub fn terms(&self) -> (terms: &[(String, Vec<Posting>)])
        ensures
            entry_views(terms@) == self.entries(),
            dictionary_sorted(self.entries()),
    {
        proof {
            use_type_invariant(self);
        }
        self.postings.as_slice()
    }
}

proof fn lemma_total_postings_grows(entries: Seq<(Seq<char>, Seq<Posting>)>, count: int, all: int)
    requires
        0 <= count <= all <= entries.len(),
    ensures
        total_postings(entries, count) <= total_postings(entries, all),
    decreases all - count,
{
    if count < all {
        lemma_total_postings_grows(entries, count, all - 1);
    }
}

/// Different terms have different UTF-8 bytes.
pub proof fn lemma_term_bytes_injective(a: Seq<char>, b: Seq<char>)
    ensures
        term_bytes(a) == term_bytes(b) ==> a == b,
{
    vstd::utf8::encode_utf8_decode_utf8(a);
    vstd::utf8::encode_utf8_decode_utf8(b);
}

/// In a sorted dictionary an entry's term occurs in no other entry.
pub proof fn lemma_unique_term(entries: Seq<(Seq<char>, Seq<Posting>)>, i: int)
    requires
        dictionary_sorted(entries),
        0 <= i < entries.len(),
    ensures
        postings_of(entries, entries[i].0) == entries[i].1,
        forall|j: int| 0 <= j < entries.len() && entries[j].0 == entries[i].0 ==> j == i,
{
    let keys = dictionary_keys(entries);
    assert forall|j: int| 0 <= j < entries.len() && entries[j].0 == entries[i].0 implies j == i by {
        if j < i {
            assert(lex_less(keys[j], keys[i]));
            lemma_lex_order(keys[j], keys[i], keys[i]);
        } else if j > i {
            assert(lex_less(keys[i], keys[j]));
            lemma_lex_order(keys[i], keys[j], keys[j]);
        }
    }
}

} // verus!
