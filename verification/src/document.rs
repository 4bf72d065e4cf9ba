//! Documents and their tokens: a document is one line of text, and its
//! tokens are the maximal runs of characters that are not whitespace.

use crate::segment_reader::{all_alphanumeric, is_alphanumeric_text};
use crate::text::{decimal, format_decimal, join2, join3};
use vstd::prelude::*;

verus! {

/// Whether `c` has the Unicode `White_Space` property, as
/// `char::is_whitespace` says.
pub open spec fn is_whitespace(c: char) -> bool {
    ||| '\u{9}' <= c <= '\u{d}'
    ||| c == ' '
    ||| c == '\u{85}'
    ||| c == '\u{a0}'
    ||| c == '\u{1680}'
    ||| '\u{2000}' <= c <= '\u{200a}'
    ||| c == '\u{2028}'
    ||| c == '\u{2029}'
    ||| c == '\u{202f}'
    ||| c == '\u{205f}'
    ||| c == '\u{3000}'
}

/// Whether `c` is whitespace.
pub fn is_whitespace_char(c: char) -> (whitespace: bool)
    ensures
        whitespace == is_whitespace(c),
{
    ('\u{9}' <= c && c <= '\u{d}') || c == ' ' || c == '\u{85}' || c == '\u{a0}' || c
        == '\u{1680}' || ('\u{2000}' <= c && c <= '\u{200a}') || c == '\u{2028}' || c
        == '\u{2029}' || c == '\u{202f}' || c == '\u{205f}' || c == '\u{3000}'
}

/// How many characters at the start of `text` are whitespace.
pub open spec fn leading_whitespace(text: Seq<char>) -> nat
    decreases text.len(),
{
    if text.len() > 0 && is_whitespace(text[0]) {
        1 + leading_whitespace(text.drop_first())
    } else {
        0
    }
}

/// How many characters at the start of `text` are not whitespace.
pub open spec fn leading_word(text: Seq<char>) -> nat
    decreases text.len(),
{
    if text.len() > 0 && !is_whitespace(text[0]) {
        1 + leading_word(text.drop_first())
    } else {
        0
    }
}

proof fn lemma_leading_whitespace(text: Seq<char>, count: int)
    requires
        0 <= count <= text.len(),
        forall|i: int| 0 <= i < count ==> is_whitespace(#[trigger] text[i]),
        count == text.len() || !is_whitespace(text[count]),
    ensures
        leading_whitespace(text) == count,
    decreases count,
{
    if count > 0 {
        assert forall|i: int| 0 <= i < count - 1 implies is_whitespace(
            #[trigger] text.drop_first()[i],
        ) by {
            assert(text.drop_first()[i] == text[i + 1]);
        }
        if count < text.len() {
            assert(text.drop_first()[count - 1] == text[count]);
        }
        lemma_leading_whitespace(text.drop_first(), count - 1);
    }
}

proof fn lemma_leading_word(text: Seq<char>, count: int)
    requires
        0 <= count <= text.len(),
        forall|i: int| 0 <= i < count ==> !is_whitespace(#[trigger] text[i]),
        count == text.len() || is_whitespace(text[count]),
    ensures
        leading_word(text) == count,
    decreases count,
{
    if count > 0 {
        assert forall|i: int| 0 <= i < count - 1 implies !is_whitespace(
            #[trigger] text.drop_first()[i],
        ) by {
            assert(text.drop_first()[i] == text[i + 1]);
        }
        if count < text.len() {
            assert(text.drop_first()[count - 1] == text[count]);
        }
        lemma_leading_word(text.drop_first(), count - 1);
    }
}

/// The leading runs fit the text, and a text that starts with a
/// non-whitespace character starts with a word.
pub proof fn lemma_leading_bounds(text: Seq<char>)
    ensures
        leading_whitespace(text) <= text.len(),
        leading_word(text) <= text.len(),
        text.len() > 0 && !is_whitespace(text[0]) ==> leading_word(text) >= 1,
    decreases text.len(),
{
    if text.len() > 0 {
        lemma_leading_bounds(text.drop_first());
    }
}

/// The first token of `text` and the text after it, if `text` has a token.
pub open spec fn next_token(text: Seq<char>) -> Option<(Seq<char>, Seq<char>)> {
    let rest = text.skip(leading_whitespace(text) as int);
    if rest.len() == 0 {
        None
    } else {
        let length = leading_word(rest) as int;
        Some((rest.take(length), rest.skip(length)))
    }
}

/// A token is never empty and what follows it is shorter than the text.
pub proof fn lemma_next_token_shorter(text: Seq<char>)
    ensures
        next_token(text) matches Some((token, rest)) ==> rest.len() < text.len() && token.len()
            > 0,
{
    lemma_leading_bounds(text);
    let skipped = text.skip(leading_whitespace(text) as int);
    if skipped.len() > 0 {
        lemma_leading_bounds(skipped);
        if is_whitespace(skipped[0]) {
            assert(skipped =~= text.subrange(leading_whitespace(text) as int, text.len() as int));
            lemma_whitespace_run_ends(text);
        }
    }
}

/// The leading whitespace run ends at a non-whitespace character or at the
/// end of the text.
pub proof fn lemma_whitespace_run_ends(text: Seq<char>)
    ensures
        leading_whitespace(text) < text.len() ==> !is_whitespace(text[leading_whitespace(text) as int]),
    decreases text.len(),
{
    if text.len() > 0 && is_whitespace(text[0]) {
        lemma_whitespace_run_ends(text.drop_first());
        let n = leading_whitespace(text.drop_first());
        if n < text.drop_first().len() {
            assert(text.drop_first()[n as int] == text[n + 1int]);
        }
    }
}

/// The tokens of `text`, in order: its maximal runs of non-whitespace
/// characters, as `str::split_whitespace` gives them.
pub open spec fn tokens(text: Seq<char>) -> Seq<Seq<char>>
    decreases text.len(),
{
    match next_token(text) {
        None => Seq::empty(),
        Some((token, rest)) => {
            proof {
                lemma_next_token_shorter(text);
            }
            seq![token] + tokens(rest)
        },
    }
}

/// Every token holds at least one character.
pub proof fn lemma_tokens_nonempty(text: Seq<char>)
    ensures
        forall|i: int| 0 <= i < tokens(text).len() ==> (#[trigger] tokens(text)[i]).len() > 0,
    decreases text.len(),
{
    lemma_next_token_shorter(text);
    if let Some((token, rest)) = next_token(text) {
        lemma_tokens_nonempty(rest);
        assert forall|i: int| 0 <= i < tokens(text).len() implies (#[trigger] tokens(text)[i]).len()
            > 0 by {
            if i > 0 {
                assert(tokens(text)[i] == tokens(rest)[i - 1]);
            }
        }
    }
}

/// Collects the characters of `text`.
pub fn characters_of(text: &str) -> (characters: Vec<char>)
    ensures
        characters@ == text@,
{
    broadcast use vstd::string::axiom_spec_iter;

    let mut characters: Vec<char> = Vec::new();
    for c in iter: text.chars()
        invariant
            characters@ == iter.seq().subrange(0, iter.index() as int),
    {
        characters.push(c);
    }
    characters
}

/// The tokens of one document, one at a time.
pub struct DocumentTokenizer<'a> {
    document: &'a str,
    characters: Vec<char>,
    position: usize,
}

impl<'a> DocumentTokenizer<'a> {
    /// The part of the document not tokenized yet.
    pub closed spec fn rest(&self) -> Seq<char> {
        self.document@.subrange(self.position as int, self.document@.len() as int)
    }

    /// The tokenizer's invariant.
    pub closed spec fn wf(&self) -> bool {
        &&& self.characters@ == self.document@
        &&& self.position <= self.characters@.len()
    }

    /// A tokenizer at the start of `document`.
    pub fn new(document: &'a str) -> (tokenizer: Self)
        ensures
            tokenizer.wf(),
            tokenizer.rest() == document@,
    {
        let characters = characters_of(document);
        let tokenizer = DocumentTokenizer { document, characters, position: 0 };
        assert(document@.subrange(0, document@.len() as int) =~= document@);
        tokenizer
    }

    /// The next token, if any; see `next_token`.
    pub fn next(&mut self) -> (token: Option<&'a str>)
        requires
            old(self).wf(),
        ensures
            final(self).wf(),
            match next_token(old(self).rest()) {
                None => token is None && final(self).rest().len() == 0,
                Some((word, rest)) => token matches Some(text) && text@ == word
                    && final(self).rest() == rest,
            },
    {
        let ghost text = self.rest();
        let length = self.characters.len();
        let start_position = self.position;
        let mut i = self.position;
        while i < length && is_whitespace_char(self.characters[i])
            invariant
                start_position <= i <= length,
                length == self.characters@.len(),
                self.characters@ == self.document@,
                text == self.document@.subrange(start_position as int, length as int),
                forall|k: int| start_position <= k < i ==> is_whitespace(#[trigger] self.characters@[k]),
            decreases length - i,
        {
            i = i + 1;
        }
        proof {
            assert forall|k: int| 0 <= k < i - start_position implies is_whitespace(#[trigger] text[k]) by {
                assert(text[k] == self.characters@[start_position + k]);
            }
            if i < length {
                assert(text[i - start_position] == self.characters@[i as int]);
            }
            lemma_leading_whitespace(text, i - start_position);
        }
        if i == length {
            self.position = length;
            assert(text.skip(leading_whitespace(text) as int).len() == 0);
            return None;
        }
        let word_start = i;
        while i < length && !is_whitespace_char(self.characters[i])
            invariant
                word_start <= i <= length,
                length == self.characters@.len(),
                self.characters@ == self.document@,
                forall|k: int| word_start <= k < i ==> !is_whitespace(#[trigger] self.characters@[k]),
            decreases length - i,
        {
            i = i + 1;
        }
        let ghost skipped = text.skip(leading_whitespace(text) as int);
        proof {
            assert(skipped =~= self.document@.subrange(word_start as int, length as int));
            assert forall|k: int| 0 <= k < i - word_start implies !is_whitespace(#[trigger] skipped[k]) by {
                assert(skipped[k] == self.characters@[word_start + k]);
            }
            if i < length {
                assert(skipped[i - word_start] == self.characters@[i as int]);
            }
            lemma_leading_word(skipped, i - word_start);
            assert(skipped.take(i - word_start) =~= self.document@.subrange(word_start as int, i as int));
            assert(skipped.skip(i - word_start) =~= self.document@.subrange(i as int, length as int));
        }
        self.position = i;
        Some(self.document.substring_char(word_start, i))
    }
}

/// Splits `document` into its tokens.
pub fn document_tokens(document: &str) -> (words: Vec<&str>)
    ensures
        words@.len() == tokens(document@).len(),
        forall|i: int| 0 <= i < words@.len() ==> (#[trigger] words@[i])@ == tokens(document@)[i],
{
    let mut tokenizer = DocumentTokenizer::new(document);
    let mut words: Vec<&str> = Vec::new();
    loop
        invariant
            tokenizer.wf(),
            tokens(document@) == Seq::new(words@.len(), |i: int| words@[i]@) + tokens(
                tokenizer.rest(),
            ),
        decreases tokenizer.rest().len(),
    {
        let ghost before = tokenizer.rest();
        proof {
            lemma_next_token_shorter(before);
        }
        match tokenizer.next() {
            None => {
                assert(tokens(before) =~= Seq::<Seq<char>>::empty());
                assert(Seq::new(words@.len(), |i: int| words@[i]@) + Seq::<Seq<char>>::empty() =~= Seq::new(words@.len(), |i: int| words@[i]@));
                return words;
            },
            Some(word) => {
                let ghost previous = Seq::new(words@.len(), |i: int| words@[i]@);
                words.push(word);
                assert(Seq::new(words@.len(), |i: int| words@[i]@) =~= previous.push(word@));
                assert(previous + tokens(before) =~= Seq::new(words@.len(), |i: int| words@[i]@)
                    + tokens(tokenizer.rest()));
            },
        }
    }
}

/// Why a document is rejected.
#[derive(Debug, Clone, PartialEq, Eq)]
pub enum ValidationError {
    EmptyDocument { line: usize },
    InvalidTokenCharacter { line: usize, token: String },
}

/// The message of a document error.
pub open spec fn validation_message(error: ValidationError) -> Seq<char> {
    match error {
        ValidationError::EmptyDocument { line } => "document on line "@ + decimal(line as nat)
            + " is empty"@,
        ValidationError::InvalidTokenCharacter { line, token } => "token '"@ + token@
            + "' on line "@ + decimal(line as nat) + " is not ASCII alphanumeric"@,
    }
}

impl ValidationError {
    /// The error's message, such as `document on line 3 is empty`.
    pub fn message(&self) -> (message: String)
        ensures
            message@ == validation_message(*self),
    {
        match self {
            ValidationError::EmptyDocument { line } => {
                let number = format_decimal(*line as u64, 0);
                join3("document on line ", number.as_str(), " is empty")
            },
            ValidationError::InvalidTokenCharacter { line, token } => {
                let number = format_decimal(*line as u64, 0);
                let start = join3("token '", token.as_str(), "' on line ");
                let middle = join2(start.as_str(), number.as_str());
                join2(middle.as_str(), " is not ASCII alphanumeric")
            },
        }
    }
}

/// The first of `words`, from position `k` on, that is not ASCII
/// alphanumeric.
pub open spec fn first_invalid_token(words: Seq<Seq<char>>, k: nat) -> Option<Seq<char>>
    decreases words.len() - k,
{
    if k >= words.len() {
        None
    } else if !all_alphanumeric(words[k as int]) {
        Some(words[k as int])
    } else {
        first_invalid_token(words, k + 1)
    }
}

/// Checks the document on line `line`: it must have a token, and every
/// token must be ASCII alphanumeric.
pub fn validate_document(line: usize, document: &str) -> (result: Result<(), ValidationError>)
    ensures
        tokens(document@).len() == 0 ==> result == Err::<(), ValidationError>(
            ValidationError::EmptyDocument { line },
        ),
        tokens(document@).len() > 0 ==> match first_invalid_token(tokens(document@), 0) {
            Some(token) => result matches Err(ValidationError::InvalidTokenCharacter { line: l, token: t })
                && l == line && t@ == token,
            None => result is Ok,
        },
{
    let words = document_tokens(document);
    if words.len() == 0 {
        return Err(ValidationError::EmptyDocument { line });
    }
    let ghost all = tokens(document@);
    let mut k: usize = 0;
    while k < words.len()
        invariant
            k <= words@.len(),
            words@.len() == all.len(),
            all == tokens(document@),
            forall|i: int| 0 <= i < words@.len() ==> (#[trigger] words@[i])@ == all[i],
            first_invalid_token(all, 0) == first_invalid_token(all, k as nat),
        decreases words@.len() - k,
    {
        let word = words[k];
        if !is_alphanumeric_text(word) {
            return Err(ValidationError::InvalidTokenCharacter { line, token: word.to_owned() });
        }
        k = k + 1;
    }
    Ok(())
}

/// The message of the problem with the document `text` on line `line`, if
/// it has one: it has no token, or one of its tokens is not ASCII
/// alphanumeric.
pub open spec fn line_problem(line: nat, text: Seq<char>) -> Option<Seq<char>> {
    let words = tokens(text);
    if words.len() == 0 {
        Some("document on line "@ + decimal(line) + " is empty"@)
    } else {
        match first_invalid_token(words, 0) {
            Some(token) => Some(
                "token '"@ + token + "' on line "@ + decimal(line) + " is not ASCII alphanumeric"@,
            ),
            None => None,
        }
    }
}

/// The first of `lines`, from position `k` on, with a problem: its position
/// and the problem's message. Lines are numbered from one.
pub open spec fn first_line_problem(lines: Seq<String>, k: nat) -> Option<(nat, Seq<char>)>
    decreases lines.len() - k,
{
    if k >= lines.len() {
        None
    } else {
        match line_problem(k + 1, lines[k as int]@) {
            Some(message) => Some((k, message)),
            None => first_line_problem(lines, k + 1),
        }
    }
}

/// Checks every document of a corpus, one per line, in order, and reports
/// the first problem: a document without a token, or a token that is not
/// ASCII alphanumeric.
pub fn validate_doc(lines: &[String]) -> (result: Result<(), String>)
    ensures
        match first_line_problem(lines@, 0) {
            None => result is Ok,
            Some((_, message)) => result matches Err(text) && text@ == message,
        },
{
    let mut index: usize = 0;
    while index < lines.len()
        invariant
            index <= lines@.len(),
            first_line_problem(lines@, 0) == first_line_problem(lines@, index as nat),
        decreases lines@.len() - index,
    {
        let line_number = index + 1;
        match validate_document(line_number, lines[index].as_str()) {
            Ok(()) => {},
            Err(error) => {
                return Err(error.message());
            },
        }
        index = index + 1;
    }
    Ok(())
}

} // verus!
