//! Division of an English sentence into words and punctuation, for the
//! grammar demonstration.
use vstd::prelude::*;
use crate::tokenizer::{is_letter_number_hyphen, letter_number_hyphen};
use crate::text::{str_to_chars, chars_to_string, sub_chars};
use crate::rule_reader::strings_view;

verus! {

/// The most words that a sentence is divided into.
pub const MAX_WORDS_IN_SENTENCE: usize = 120;

/// Is the character an apostrophe (' or ʼ)?
pub open spec fn is_apostrophe(ch: char) -> bool {
    ch == '\'' || ch == '\u{02bc}'
}

fn is_an_apostrophe(ch: char) -> (b: bool)
    ensures
        b == is_apostrophe(ch),
{
    ch == '\'' || ch == '\u{02bc}'
}

/// The index of a quote mark among the left quotes `' " « ‘ “` or, if it
/// is not one of them, among the right quotes `' " » ’ ”`.
pub open spec fn quote_index(ch: char) -> Option<usize> {
    if ch == '\'' {
        Some(0)
    } else if ch == '"' {
        Some(1)
    } else if ch == '\u{00ab}' || ch == '\u{00bb}' {
        Some(2)
    } else if ch == '\u{2018}' || ch == '\u{2019}' {
        Some(3)
    } else if ch == '\u{201c}' || ch == '\u{201d}' {
        Some(4)
    } else {
        None
    }
}

/// Determines whether the character is a quote mark, and gives its index
/// among the quote marks (see `quote_index`).
pub fn is_quote_mark(ch: char) -> (r: Option<usize>)
    ensures
        r == quote_index(ch),
{
    if ch == '\'' {
        Some(0)
    } else if ch == '"' {
        Some(1)
    } else if ch == '\u{00ab}' || ch == '\u{00bb}' {
        Some(2)
    } else if ch == '\u{2018}' || ch == '\u{2019}' {
        Some(3)
    } else if ch == '\u{201c}' || ch == '\u{201d}' {
        Some(4)
    } else {
        None
    }
}

/// Is the character punctuation? A period is not: it may belong to an
/// abbreviation or a number.
pub open spec fn punctuation_char(ch: char) -> bool {
    ch != '.' && (('!' <= ch && ch <= '/') || (':' <= ch && ch <= '@') || ch == '\u{2013}'
        || quote_index(ch) is Some)
}

fn is_punctuation(ch: char) -> (b: bool)
    ensures
        b == punctuation_char(ch),
{
    if ch == '.' {
        return false;
    }
    if ch >= '!' && ch <= '/' {
        return true;
    }
    if ch >= ':' && ch <= '@' {
        return true;
    }
    if ch == '\u{2013}' {
        return true;
    }
    is_quote_mark(ch).is_some()
}

/// Is the period at `index` at the end of the sentence: at its last
/// character, or with no letter, number or hyphen from there on?
pub open spec fn end_of_sentence_spec(s: Seq<char>, index: int) -> bool {
    index >= s.len() - 1 || forall|k: int| index <= k < s.len() ==> !is_letter_number_hyphen(#[trigger] s[k])
}

/// Determines whether a period is at the end of a sentence (see
/// `end_of_sentence_spec`). The sentence is not empty.
pub fn end_of_sentence(sentence: &Vec<char>, index: usize) -> (b: bool)
    requires
        sentence@.len() > 0,
    ensures
        b == end_of_sentence_spec(sentence@, index as int),
{
    let length = sentence.len();
    if index >= length - 1 {
        return true;
    }
    let mut i = index;
    while i < length
        invariant
            index <= i <= length,
            index + 1 < length,
            length == sentence@.len(),
            forall|k: int| index <= k < i ==> !is_letter_number_hyphen(#[trigger] sentence@[k]),
        decreases length - i,
    {
        if letter_number_hyphen(sentence[i]) {
            assert(is_letter_number_hyphen(sentence@[i as int]));
            return false;
        }
        i = i + 1;
    }
    true
}

/// The index of the first character at or after `i` that is not a space
/// or a control character (the length if there is none).
pub open spec fn skip_blanks(s: Seq<char>, i: int) -> int
    decreases s.len() - i,
{
    if i < 0 || i >= s.len() {
        s.len() as int
    } else if s[i] > ' ' {
        i
    } else {
        skip_blanks(s, i + 1)
    }
}

/// Where a word that goes on at `j` ends: at a period that ends the
/// sentence, at an apostrophe not followed by a letter, number or hyphen,
/// or at any other character that is not a letter, number or hyphen.
pub open spec fn word_end(s: Seq<char>, j: int) -> int
    decreases s.len() - j,
{
    if j < 0 || j >= s.len() {
        s.len() as int
    } else {
        let ch = s[j];
        let stop = if ch == '.' {
            end_of_sentence_spec(s, j)
        } else if is_apostrophe(ch) {
            j < s.len() - 1 && !is_letter_number_hyphen(s[j + 1])
        } else {
            !is_letter_number_hyphen(ch)
        };
        if stop {
            j
        } else {
            word_end(s, j + 1)
        }
    }
}

/// The words and punctuation of `s` from `start` on, when `count` words
/// have been taken: a period that ends the sentence and each punctuation
/// mark stand alone; a word starts with a letter, number or hyphen; other
/// characters are skipped. At most `MAX_WORDS_IN_SENTENCE` words are taken.
pub open spec fn words_from(s: Seq<char>, start: int, count: nat) -> Seq<Seq<char>>
    decreases s.len() - start,
{
    if start < 0 || start >= s.len() || count >= MAX_WORDS_IN_SENTENCE {
        Seq::empty()
    } else {
        let st = skip_blanks(s, start);
        if st < start || st >= s.len() {
            Seq::empty()
        } else {
            let c = s[st];
            if c == '.' && end_of_sentence_spec(s, st) {
                seq![seq!['.']] + words_from(s, st + 1, count)
            } else if punctuation_char(c) {
                seq![seq![c]] + words_from(s, st + 1, count)
            } else if is_letter_number_hyphen(c) {
                proof {
                    lemma_word_end(s, st + 1);
                }
                let e = word_end(s, st + 1);
                if e <= st {
                    Seq::empty()
                } else {
                    seq![s.subrange(st, e)] + words_from(s, e, count + 1)
                }
            } else {
                words_from(s, st + 1, count)
            }
        }
    }
}

pub proof fn lemma_skip_blanks(s: Seq<char>, i: int)
    requires
        0 <= i <= s.len(),
    ensures
        i <= skip_blanks(s, i) <= s.len(),
        skip_blanks(s, i) < s.len() ==> s[skip_blanks(s, i)] > ' ',
    decreases s.len() - i,
{
    if i < s.len() && s[i] <= ' ' {
        lemma_skip_blanks(s, i + 1);
    }
}

pub proof fn lemma_word_end(s: Seq<char>, j: int)
    requires
        0 <= j <= s.len(),
    ensures
        j <= word_end(s, j) <= s.len(),
    decreases s.len() - j,
{
    if j < s.len() {
        lemma_word_end(s, j + 1);
    }
}

/// Finds where a word that goes on at `j` ends (see `word_end`).
fn find_word_end(chrs: &Vec<char>, j: usize) -> (e: usize)
    requires
        0 < j <= chrs@.len(),
    ensures
        e == word_end(chrs@, j as int),
{
    let length = chrs.len();
    let mut last_index = j;
    while last_index < length
        invariant
            length == chrs@.len(),
            0 < last_index <= length,
            word_end(chrs@, last_index as int) == word_end(chrs@, j as int),
        decreases length - last_index,
    {
        let ch = chrs[last_index];
        if ch == '.' {
            if end_of_sentence(chrs, last_index) {
                return last_index;
            }
        } else if is_an_apostrophe(ch) {
            if last_index < length - 1 {
                let ch2 = chrs[last_index + 1];
                if !letter_number_hyphen(ch2) {
                    return last_index;
                }
            }
        } else {
            if !letter_number_hyphen(ch) {
                return last_index;
            }
        }
        last_index = last_index + 1;
    }
    last_index
}

/// Divides the characters of a sentence into words and punctuation (see
/// `words_from`).
fn get_words(chrs: &Vec<char>) -> (words: Vec<String>)
    ensures
        strings_view(words@) == words_from(chrs@, 0, 0),
{
    let ghost s = chrs@;
    let mut words: Vec<String> = Vec::new();
    let mut number_of_words: usize = 0;
    let length = chrs.len();
    let mut start_index: usize = 0;
    while start_index < length && number_of_words < MAX_WORDS_IN_SENTENCE
        invariant
            s == chrs@,
            length == s.len(),
            start_index <= length,
            number_of_words <= MAX_WORDS_IN_SENTENCE,
            strings_view(words@) + words_from(s, start_index as int, number_of_words as nat)
                == words_from(s, 0, 0),
        decreases length - start_index, MAX_WORDS_IN_SENTENCE - number_of_words,
    {
        let ghost before = strings_view(words@);
        let ghost rest = words_from(s, start_index as int, number_of_words as nat);
        proof {
            lemma_skip_blanks(s, start_index as int);
        }
        let mut st = start_index;
        while st < length && chrs[st] <= ' '
            invariant
                s == chrs@,
                length == s.len(),
                start_index <= st <= length,
                skip_blanks(s, st as int) == skip_blanks(s, start_index as int),
            decreases length - st,
        {
            st = st + 1;
        }
        if st >= length {
            assert(rest =~= Seq::<Seq<char>>::empty());
            assert(strings_view(words@) + Seq::<Seq<char>>::empty() =~= strings_view(words@));
            start_index = length;
        } else {
            let character = chrs[st];
            if character == '.' && end_of_sentence(chrs, st) {
                let dot = chars_to_string(&str_to_chars("."));
                proof {
                    reveal_strlit(".");
                }
                assert(dot@ =~= seq!['.']);
                words.push(dot);
                assert(strings_view(words@) =~= before.push(seq!['.']));
                assert(before.push(seq!['.']) + words_from(s, st + 1, number_of_words as nat)
                    =~= before + rest);
                start_index = st + 1;
            } else if is_punctuation(character) {
                let mut v: Vec<char> = Vec::new();
                v.push(character);
                let p = chars_to_string(&v);
                words.push(p);
                assert(strings_view(words@) =~= before.push(seq![character]));
                assert(before.push(seq![character]) + words_from(s, st + 1, number_of_words as nat)
                    =~= before + rest);
                start_index = st + 1;
            } else if letter_number_hyphen(character) {
                proof {
                    lemma_word_end(s, st + 1);
                }
                let last_index = find_word_end(chrs, st + 1);
                let w = sub_chars(chrs, st, last_index);
                let ws = chars_to_string(&w);
                words.push(ws);
                assert(strings_view(words@) =~= before.push(s.subrange(st as int, last_index as int)));
                assert(before.push(s.subrange(st as int, last_index as int)) + words_from(
                    s,
                    last_index as int,
                    (number_of_words + 1) as nat,
                ) =~= before + rest);
                number_of_words = number_of_words + 1;
                start_index = last_index;
            } else {
                start_index = st + 1;
            }
        }
    }
    assert(words_from(s, start_index as int, number_of_words as nat) =~= Seq::<Seq<char>>::empty());
    assert(strings_view(words@) + Seq::<Seq<char>>::empty() =~= strings_view(words@));
    words
}

/// The text with each new line made a space.
pub open spec fn newlines_to_spaces(s: Seq<char>) -> Seq<char> {
    s.map_values(|c: char| if c == '\n' { ' ' } else { c })
}

/// Divides a sentence into words and punctuation (see `words_from`); a new
/// line counts as a space. For `I know\nmy\nrights.` it gives `I`, `know`,
/// `my`, `rights` and `.`.
pub fn sentence_to_words(sentence: &str) -> (words: Vec<String>)
    ensures
        strings_view(words@) == words_from(newlines_to_spaces(sentence@), 0, 0),
{
    let chrs = str_to_chars(sentence);
    let mut clean: Vec<char> = Vec::new();
    let mut i: usize = 0;
    while i < chrs.len()
        invariant
            i <= chrs@.len(),
            clean@ == newlines_to_spaces(chrs@.subrange(0, i as int)),
        decreases chrs@.len() - i,
    {
        let c = chrs[i];
        clean.push(if c == '\n' { ' ' } else { c });
        assert(chrs@.subrange(0, i + 1) =~= chrs@.subrange(0, i as int).push(c));
        assert(clean@ =~= newlines_to_spaces(chrs@.subrange(0, i + 1)));
        i = i + 1;
    }
    assert(chrs@.subrange(0, i as int) =~= chrs@);
    get_words(&clean)
}

} // verus!
