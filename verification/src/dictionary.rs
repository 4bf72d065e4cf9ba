//! Dictionaries kept as vectors of entries in strictly increasing term
//! order: lookup by binary search, and what an entry's update or insertion
//! does to the mapping from terms to postings.

use crate::bytes_order::{compare_bytes, lemma_lex_order, lex_less, strictly_increasing, Comparison};
use crate::inverted_index::{
    dictionary_keys, dictionary_sorted, lemma_term_bytes_injective, lemma_unique_term, postings_of,
    term_bytes,
};
use crate::model::Posting;
use vstd::prelude::*;
use vstd::string::StringSliceAdditionalSpecFns;

verus! {

/// The terms of the entries, as bytes.
pub open spec fn term_keys<V>(entries: Seq<(String, V)>) -> Seq<Seq<u8>> {
    entries.map_values(|entry: (String, V)| term_bytes(entry.0@))
}

/// Finds `term` among `entries`, whose terms strictly increase: its
/// position, or the position where it would be inserted.
pub fn find_entry<V>(entries: &[(String, V)], term: &str) -> (result: Result<usize, usize>)
    requires
        strictly_increasing(term_keys(entries@)),
    ensures
        result matches Ok(i) ==> i < entries@.len() && entries@[i as int].0@ == term@,
        result matches Err(p) ==> p <= entries@.len() && (forall|i: int|
            0 <= i < p ==> lex_less(#[trigger] term_keys(entries@)[i], term_bytes(term@))) && (
        forall|i: int|
            p <= i < entries@.len() ==> lex_less(
                term_bytes(term@),
                #[trigger] term_keys(entries@)[i],
            )),
{
    let ghost keys = term_keys(entries@);
    let target = term.as_bytes();
    let mut low: usize = 0;
    let mut high: usize = entries.len();
    while low < high
        invariant
            low <= high <= entries@.len(),
            keys == term_keys(entries@),
            strictly_increasing(keys),
            target@ == term_bytes(term@),
            forall|j: int| 0 <= j < low ==> lex_less(#[trigger] keys[j], target@),
            forall|j: int| high <= j < keys.len() ==> lex_less(target@, #[trigger] keys[j]),
        decreases high - low,
    {
        let middle = low + (high - low) / 2;
        let key = entries[middle].0.as_str().as_bytes();
        assert(key@ == keys[middle as int]);
        match compare_bytes(key, target) {
            Comparison::Equal => {
                proof {
                    lemma_term_bytes_injective(entries@[middle as int].0@, term@);
                }
                return Ok(middle);
            },
            Comparison::Less => {
                assert forall|j: int| 0 <= j < middle + 1 implies lex_less(
                    #[trigger] keys[j],
                    target@,
                ) by {
                    if j < middle {
                        lemma_lex_order(keys[j], keys[middle as int], target@);
                    }
                }
                low = middle + 1;
            },
            Comparison::Greater => {
                proof {
                    lemma_lex_order(key@, target@, target@);
                }
                assert forall|j: int| middle <= j < keys.len() implies lex_less(
                    target@,
                    #[trigger] keys[j],
                ) by {
                    if j > middle {
                        lemma_lex_order(target@, keys[middle as int], keys[j]);
                    }
                }
                high = middle;
            },
        }
    }
    Err(low)
}

/// Inserting a key at a position between the smaller and the larger keys
/// keeps the keys strictly increasing.
pub proof fn lemma_insert_sorted(keys: Seq<Seq<u8>>, p: int, key: Seq<u8>)
    requires
        strictly_increasing(keys),
        0 <= p <= keys.len(),
        forall|i: int| 0 <= i < p ==> lex_less(#[trigger] keys[i], key),
        forall|i: int| p <= i < keys.len() ==> lex_less(key, #[trigger] keys[i]),
    ensures
        strictly_increasing(keys.insert(p, key)),
{
    let longer = keys.insert(p, key);
    assert forall|i: int, j: int| 0 <= i < j < longer.len() implies lex_less(
        #[trigger] longer[i],
        #[trigger] longer[j],
    ) by {
        if j < p {
        } else if j == p {
        } else if i < p {
            lemma_lex_order(keys[i], key, keys[j - 1]);
        } else if i == p {
        } else {
        }
    }
}

/// The mapping from terms to postings that a sorted dictionary stands for.
pub open spec fn dictionary_map(entries: Seq<(Seq<char>, Seq<Posting>)>) -> Map<
    Seq<char>,
    Seq<Posting>,
> {
    Map::new(
        |term: Seq<char>| exists|i: int| 0 <= i < entries.len() && entries[i].0 == term,
        |term: Seq<char>| postings_of(entries, term),
    )
}

/// Replacing the postings of an entry changes the mapping at its term only.
pub proof fn lemma_map_update(
    entries: Seq<(Seq<char>, Seq<Posting>)>,
    i: int,
    postings: Seq<Posting>,
)
    requires
        dictionary_sorted(entries),
        0 <= i < entries.len(),
    ensures
        dictionary_sorted(entries.update(i, (entries[i].0, postings))),
        dictionary_map(entries.update(i, (entries[i].0, postings))) == dictionary_map(
            entries,
        ).insert(entries[i].0, postings),
{
    let term = entries[i].0;
    let updated = entries.update(i, (term, postings));
    assert(dictionary_keys(updated) =~= dictionary_keys(entries));
    assert forall|j: int| 0 <= j < entries.len() implies #[trigger] updated[j].0 == entries[j].0 by {}
    lemma_unique_term(updated, i);
    assert forall|u: Seq<char>| #[trigger] dictionary_map(updated).contains_key(u) && u != term
        implies dictionary_map(updated)[u] == dictionary_map(entries)[u] by {
        let j = choose|j: int| 0 <= j < updated.len() && updated[j].0 == u;
        lemma_unique_term(updated, j);
        lemma_unique_term(entries, j);
    }
    assert forall|u: Seq<char>| dictionary_map(entries).contains_key(u) implies #[trigger] dictionary_map(
        updated,
    ).contains_key(u) by {
        let j = choose|j: int| 0 <= j < entries.len() && entries[j].0 == u;
        assert(updated[j].0 == u);
    }
    assert(dictionary_map(updated) =~= dictionary_map(entries).insert(term, postings));
}

/// Inserting an entry for a new term at its place adds that term to the
/// mapping.
pub proof fn lemma_map_insert(
    entries: Seq<(Seq<char>, Seq<Posting>)>,
    p: int,
    term: Seq<char>,
    postings: Seq<Posting>,
)
    requires
        dictionary_sorted(entries),
        0 <= p <= entries.len(),
        forall|i: int|
            0 <= i < p ==> lex_less(#[trigger] dictionary_keys(entries)[i], term_bytes(term)),
        forall|i: int|
            p <= i < entries.len() ==> lex_less(
                term_bytes(term),
                #[trigger] dictionary_keys(entries)[i],
            ),
    ensures
        dictionary_sorted(entries.insert(p, (term, postings))),
        dictionary_map(entries.insert(p, (term, postings))) == dictionary_map(entries).insert(
            term,
            postings,
        ),
{
    let longer = entries.insert(p, (term, postings));
    lemma_insert_sorted(dictionary_keys(entries), p, term_bytes(term));
    assert(dictionary_keys(longer) =~= dictionary_keys(entries).insert(p, term_bytes(term)));
    lemma_unique_term(longer, p);
    assert forall|i: int| 0 <= i < entries.len() implies #[trigger] entries[i].0 != term by {
        lemma_lex_order(term_bytes(term), term_bytes(term), term_bytes(term));
        if i < p {
            assert(lex_less(dictionary_keys(entries)[i], term_bytes(term)));
        } else {
            assert(lex_less(term_bytes(term), dictionary_keys(entries)[i]));
        }
    }
    assert forall|u: Seq<char>| #[trigger] dictionary_map(longer).contains_key(u) && u != term
        implies dictionary_map(entries).contains_key(u) && dictionary_map(longer)[u]
        == dictionary_map(entries)[u] by {
        let j = choose|j: int| 0 <= j < longer.len() && longer[j].0 == u;
        lemma_unique_term(longer, j);
        let k = if j < p {
            j
        } else {
            j - 1
        };
        assert(entries[k] == longer[j]);
        lemma_unique_term(entries, k);
    }
    assert forall|u: Seq<char>| dictionary_map(entries).contains_key(u) implies #[trigger] dictionary_map(
        longer,
    ).contains_key(u) by {
        let j = choose|j: int| 0 <= j < entries.len() && entries[j].0 == u;
        if j < p {
            assert(longer[j].0 == u);
        } else {
            assert(longer[j + 1].0 == u);
        }
    }
    assert(longer[p].0 == term);
    assert(dictionary_map(longer) =~= dictionary_map(entries).insert(term, postings));
}

} // verus!
