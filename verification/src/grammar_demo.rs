//! The grammar demonstration: a text is divided into sentences, each
//! sentence into words, and the words become facts of a knowledge base, on
//! which a grammar (its rules loaded from a source file) parses the
//! sentence.
use vstd::prelude::*;
use crate::unifiable::{Unifiable, Term, terms_view, lemma_complex_view};
use crate::goal::{Goal, GoalView};
use crate::rule::{Rule, parse_rule, parse_rule_spec, rule_keyed};
use crate::knowledge_base::{KnowledgeBase, kb_rules, kb_wf, keyed_rules, rules_view, add_rules, remove_rules};
use crate::part_of_speech::{PosMap, make_facts, words_facts, word_facts_spec, tag_facts, word_fact_spec,
    you_facts, atom_terms, atoms_term};
use crate::sentence::{sentence_to_words, words_from, newlines_to_spaces, skip_blanks, word_end,
    lemma_skip_blanks, lemma_word_end};
use crate::s_linked_list::{make_linked_list, mll, spliced_count};
use crate::solver::Solver;
use crate::logic_var::VarIds;
use crate::text::{str_to_chars, chars_to_string, trim, trim_chars, sub_chars};
use crate::rule_reader::strings_view;

verus! {

// ---------------------------------------------------------------------
// Sentences

/// Does the character end a word (a space or a new line)?
pub open spec fn ends_word(c: char) -> bool {
    c == ' ' || c == '\n'
}

/// Is the character a mark that ends a sentence (`!`, `?`, `.`)?
pub open spec fn ends_sentence(c: char) -> bool {
    c == '!' || c == '?' || c == '.'
}

/// The sentences of the text `c` from `i` on: `p0`, `p1`, `p2` are the
/// three characters before `i` and `prev` the start of the current
/// sentence. A sentence ends at a space or new line after `!`, `?` or
/// `.`, but not after a period which follows a period or a space two
/// characters back (an initial such as `H. G. Wells`). Each sentence is
/// trimmed; an empty last one is dropped.
pub open spec fn sentences_scan(c: Seq<char>, i: int, p0: char, p1: char, p2: char, prev: int) -> Seq<
    Seq<char>,
>
    decreases c.len() - i,
{
    if i < 0 || i >= c.len() {
        let s = trim(c.subrange(prev, c.len() as int));
        if s.len() > 0 {
            seq![s]
        } else {
            Seq::empty()
        }
    } else {
        let ch = c[i];
        if ends_word(ch) && ends_sentence(p2) && (p2 != '.' || (p0 != '.' && p0 != ' ')) {
            seq![trim(c.subrange(prev, i))] + sentences_scan(c, i + 1, p1, p2, ch, i)
        } else {
            sentences_scan(c, i + 1, p1, p2, ch, prev)
        }
    }
}

/// The sentences of a text (see `sentences_scan`).
pub open spec fn sentences_spec(text: Seq<char>) -> Seq<Seq<char>> {
    sentences_scan(text, 0, 'a', 'a', 'a', 0)
}

/// Splits a text into sentences (see `sentences_scan`): for
/// `The value of π is 3.14. But π is irrational.` it gives the two
/// sentences.
pub fn split_into_sentences(text: &str) -> (r: Vec<String>)
    ensures
        strings_view(r@) == sentences_spec(text@),
{
    let chrs = str_to_chars(text);
    let ghost c = chrs@;
    let mut sentences: Vec<String> = Vec::new();
    let mut previous_index: usize = 0;
    let mut p0 = 'a';
    let mut p1 = 'a';
    let mut p2 = 'a';
    let mut i: usize = 0;
    while i < chrs.len()
        invariant
            c == chrs@,
            c == text@,
            previous_index <= i <= c.len(),
            strings_view(sentences@) + sentences_scan(c, i as int, p0, p1, p2, previous_index as int)
                == sentences_spec(text@),
        decreases c.len() - i,
    {
        let ch = chrs[i];
        let ghost before = strings_view(sentences@);
        if (ch == ' ' || ch == '\n') && (p2 == '!' || p2 == '?' || p2 == '.') && (p2 != '.' || (p0 != '.'
            && p0 != ' ')) {
            let piece = sub_chars(&chrs, previous_index, i);
            let t = trim_chars(&piece);
            let st = chars_to_string(&t);
            sentences.push(st);
            assert(strings_view(sentences@) =~= before.push(st@));
            assert(before.push(st@) + sentences_scan(c, i + 1, p1, p2, ch, i as int) =~= before + (seq![st@]
                + sentences_scan(c, i + 1, p1, p2, ch, i as int)));
            previous_index = i;
        }
        p0 = p1;
        p1 = p2;
        p2 = ch;
        i = i + 1;
    }
    let piece = sub_chars(&chrs, previous_index, chrs.len());
    let t = trim_chars(&piece);
    if t.len() > 0 {
        let st = chars_to_string(&t);
        let ghost before = strings_view(sentences@);
        sentences.push(st);
        assert(strings_view(sentences@) =~= before.push(st@));
        assert(before.push(st@) =~= before + seq![st@]);
    } else {
        assert(strings_view(sentences@) + Seq::<Seq<char>>::empty() =~= strings_view(sentences@));
    }
    sentences
}

// ---------------------------------------------------------------------
// Word facts

/// A sentence gives no more words than it has characters.
pub proof fn lemma_words_len(s: Seq<char>, start: int, count: nat)
    requires
        0 <= start <= s.len(),
    ensures
        words_from(s, start, count).len() <= s.len() - start,
    decreases s.len() - start,
{
    if start < s.len() && count < crate::sentence::MAX_WORDS_IN_SENTENCE {
        lemma_skip_blanks(s, start);
        let st = skip_blanks(s, start);
        if st < s.len() {
            let c = s[st];
            if c == '.' && crate::sentence::end_of_sentence_spec(s, st) {
                lemma_words_len(s, st + 1, count);
            } else if crate::sentence::punctuation_char(c) {
                lemma_words_len(s, st + 1, count);
            } else if crate::tokenizer::is_letter_number_hyphen(c) {
                lemma_word_end(s, st + 1);
                let e = word_end(s, st + 1);
                lemma_words_len(s, e, count + 1);
            } else {
                lemma_words_len(s, st + 1, count);
            }
        }
    }
}

/// Every fact of a word is keyed (a complex term with a functor).
#[verifier::spinoff_prover]
#[verifier::rlimit(40)]
proof fn lemma_word_facts_keyed(words: Seq<Seq<char>>, pos: Map<Seq<char>, Seq<Seq<char>>>, n: int)
    ensures
        forall|i: int| 0 <= i < words_facts(words, pos, n).len() ==> rule_keyed(
            #[trigger] words_facts(words, pos, n)[i],
        ),
    decreases n,
{
    if n > 0 && n <= words.len() {
        lemma_word_facts_keyed(words, pos, n - 1);
        let w = words[n - 1];
        let lower = crate::part_of_speech::lower_except_i(w);
        let tags = crate::part_of_speech::word_tags(w, lower, pos);
        lemma_tag_facts_keyed(w, lower, tags, tags.len() as int);
        let a = words_facts(words, pos, n - 1);
        let b = word_facts_spec(w, pos);
        assert forall|i: int| 0 <= i < (a + b).len() implies rule_keyed(#[trigger] (a + b)[i]) by {
            if i >= a.len() {
                assert((a + b)[i] == b[i - a.len()]);
            }
        }
    }
}

/// Every fact of a word's tags is keyed.
proof fn lemma_tag_facts_keyed(word: Seq<char>, lower: Seq<char>, tags: Seq<Seq<char>>, n: int)
    ensures
        forall|i: int| 0 <= i < tag_facts(word, lower, tags, n).len() ==> rule_keyed(
            #[trigger] tag_facts(word, lower, tags, n)[i],
        ),
    decreases n,
{
    if n > 0 && n <= tags.len() {
        lemma_tag_facts_keyed(word, lower, tags, n - 1);
        let a = tag_facts(word, lower, tags, n - 1);
        match crate::part_of_speech::word_term_spec(word, lower, tags[n - 1]) {
            Some(t) => {
                assert forall|i: int| 0 <= i < a.push(word_fact_spec(word, t)).len() implies rule_keyed(
                    #[trigger] a.push(word_fact_spec(word, t))[i],
                ) by {
                    if i < a.len() {
                        assert(a.push(word_fact_spec(word, t))[i] == a[i]);
                    }
                }
            },
            None => {},
        }
    }
}

/// The atoms of the words.
fn word_atoms(words: &Vec<String>) -> (terms: Vec<Unifiable>)
    ensures
        terms_view(terms@) == atom_terms(strings_view(words@)),
{
    let mut terms: Vec<Unifiable> = Vec::new();
    let mut i: usize = 0;
    while i < words.len()
        invariant
            i <= words@.len(),
            terms_view(terms@) == atom_terms(strings_view(words@).take(i as int)),
        decreases words@.len() - i,
    {
        let ghost before = terms_view(terms@);
        let a = Unifiable::Atom(chars_to_string(&str_to_chars(words[i].as_str())));
        terms.push(a);
        assert(terms_view(terms@) =~= before.push(a@));
        assert(a@ == Term::Atom(words@[i as int]@));
        assert(strings_view(words@).take(i + 1) =~= strings_view(words@).take(i as int).push(words@[i as int]@));
        assert(atom_terms(strings_view(words@).take(i + 1)) =~= atom_terms(strings_view(words@).take(i as int)).push(Term::Atom(words@[i as int]@)));
        assert(terms_view(terms@) =~= atom_terms(strings_view(words@).take(i + 1)));
        i = i + 1;
    }
    assert(strings_view(words@).take(i as int) =~= strings_view(words@));
    terms
}

/// The words of a sentence (see `sentence_to_words`).
pub open spec fn sentence_words(sentence: Seq<char>) -> Seq<Seq<char>> {
    words_from(newlines_to_spaces(sentence), 0, 0)
}

/// Makes the word list of a sentence, eg. `[I, know, it, .]`, and adds the
/// facts of its words to the knowledge base (see `make_facts`).
pub fn sentence_to_facts(sentence: &str, kb: &mut KnowledgeBase, pos: &PosMap) -> (list: Unifiable)
    requires
        kb_wf(old(kb).view_entries()),
        sentence@.len() + 2 <= usize::MAX,
    ensures
        kb_wf(final(kb).view_entries()),
        list@ == mll(false, atom_terms(sentence_words(sentence@))),
        forall|k: Seq<char>|
            #![trigger kb_rules(final(kb).view_entries(), k)]
            kb_rules(final(kb).view_entries(), k) == kb_rules(old(kb).view_entries(), k) + keyed_rules(
                words_facts(sentence_words(sentence@), pos.view_map(), sentence_words(sentence@).len() as int),
                k,
            ),
{
    let words = sentence_to_words(sentence);
    proof {
        lemma_words_len(newlines_to_spaces(sentence@), 0, 0);
    }
    let terms = word_atoms(&words);
    assert(spliced_count(terms_view(terms@)) == 0);
    let word_list = make_linked_list(false, terms);
    let facts = make_facts(&words, pos);
    proof {
        lemma_word_facts_keyed(strings_view(words@), pos.view_map(), words@.len() as int);
        assert forall|i: int| 0 <= i < facts@.len() implies rule_keyed(#[trigger] facts@[i]@) by {
            assert(rules_view(facts@)[i] == facts@[i]@);
        }
    }
    add_rules(kb, facts);
    word_list
}

// ---------------------------------------------------------------------
// The grammar's own rules

/// The rules that the demonstration adds to its grammar: `words_to_pos`
/// turns a list of words into their parts of speech, `make_np` joins an
/// adjective and a noun into a noun phrase.
pub open spec fn grammar_texts() -> Seq<Seq<char>> {
    seq![
        "words_to_pos([$H1 | $T1], [$H2 | $T2]) :- word($H1, $H2), words_to_pos($T1, $T2)."@,
        "words_to_pos([], [])."@,
        "make_np([adjective($Adj, $_), noun($Noun, $Plur) | $T], [$NP | $Out]) :- !, $NP = np([$Adj, $Noun], $Plur), make_np($T, $Out)."@,
        "make_np([$H | $T], [$H | $T2]) :- make_np($T, $T2)."@,
        "make_np([], [])."@,
    ]
}

/// The rules of the texts `texts[..n]`, or the error of the first that
/// does not parse (see `parse_rule`).
pub open spec fn parse_all(texts: Seq<Seq<char>>, n: int) -> Result<Seq<(Term, GoalView)>, Seq<char>>
    decreases n,
{
    if n <= 0 || n > texts.len() {
        Ok(Seq::empty())
    } else {
        match parse_all(texts, n - 1) {
            Err(e) => Err(e),
            Ok(rs) => match crate::rule_reader::parsed_text(texts[n - 1]) {
                Ok(r) => Ok(rs.push(r)),
                Err(e) => Err(e),
            },
        }
    }
}

/// Parses the demonstration's own rules (see `grammar_texts`).
pub fn grammar_rules() -> (r: Result<Vec<Rule>, String>)
    ensures
        match r {
            Ok(v) => parse_all(grammar_texts(), 5) == Ok::<Seq<(Term, GoalView)>, Seq<char>>(rules_view(v@)),
            Err(e) => parse_all(grammar_texts(), 5) == Err::<Seq<(Term, GoalView)>, Seq<char>>(e@),
        },
{
    let texts = vec![
        "words_to_pos([$H1 | $T1], [$H2 | $T2]) :- word($H1, $H2), words_to_pos($T1, $T2).",
        "words_to_pos([], []).",
        "make_np([adjective($Adj, $_), noun($Noun, $Plur) | $T], [$NP | $Out]) :- !, $NP = np([$Adj, $Noun], $Plur), make_np($T, $Out).",
        "make_np([$H | $T], [$H | $T2]) :- make_np($T, $T2).",
        "make_np([], []).",
    ];
    let ghost tv = texts@.map_values(|t: &str| t@);
    assert(tv =~= grammar_texts());
    let mut rules: Vec<Rule> = Vec::new();
    assert(rules_view(rules@) =~= Seq::<(Term, GoalView)>::empty());
    let mut i: usize = 0;
    while i < texts.len()
        invariant
            i <= texts@.len(),
            texts@.len() == 5,
            tv == texts@.map_values(|t: &str| t@),
            tv == grammar_texts(),
            parse_all(tv, i as int) == Ok::<Seq<(Term, GoalView)>, Seq<char>>(rules_view(rules@)),
        decreases texts@.len() - i,
    {
        assert(tv[i as int] == texts@[i as int]@);
        let t = chars_to_string(&str_to_chars(texts[i]));
        match crate::rule_reader::parse_text(&t) {
            Ok(rule) => {
                let ghost before = rules_view(rules@);
                rules.push(rule);
                assert(rules_view(rules@) =~= before.push(rule@));
            },
            Err(e) => {
                proof {
                    lemma_parse_all_err(tv, i as int + 1, 5);
                }
                return Err(e);
            },
        }
        i = i + 1;
    }
    Ok(rules)
}

/// A parse error among the first texts is the error of all of them.
proof fn lemma_parse_all_err(texts: Seq<Seq<char>>, n: int, m: int)
    requires
        0 < n <= m <= texts.len(),
        parse_all(texts, n) is Err,
    ensures
        parse_all(texts, m) == parse_all(texts, n),
    decreases m - n,
{
    if m > n {
        lemma_parse_all_err(texts, n, m - 1);
    }
}

/// The query that parses a sentence: `parse(word list, $_)`.
pub open spec fn sentence_query_spec(sentence: Seq<char>) -> GoalView {
    GoalView::Complex(
        Term::SComplex(seq![Term::Atom("parse"@), mll(false, atom_terms(sentence_words(sentence))), Term::Anonymous]),
    )
}

/// Prepares the knowledge base and the query for a sentence: the facts
/// of the previous sentence's words (key `word/2`) are removed and those of
/// this sentence added, and the solver of `parse(word list, $_)` is made.
pub fn sentence_query(sentence: &str, kb: &mut KnowledgeBase, pos: &PosMap) -> (sn: Solver)
    requires
        kb_wf(old(kb).view_entries()),
        sentence@.len() + 2 <= usize::MAX,
    ensures
        kb_wf(final(kb).view_entries()),
        sn.query@ == sentence_query_spec(sentence@),
        forall|k: Seq<char>|
            #![trigger kb_rules(final(kb).view_entries(), k)]
            kb_rules(final(kb).view_entries(), k) == (if k == "word/2"@ {
                Seq::<(Term, GoalView)>::empty()
            } else {
                kb_rules(old(kb).view_entries(), k)
            }) + keyed_rules(
                words_facts(sentence_words(sentence@), pos.view_map(), sentence_words(sentence@).len() as int),
                k,
            ),
{
    let ghost es0 = kb.view_entries();
    remove_rules(kb, "word/2");
    let ghost es1 = kb.view_entries();
    let list = sentence_to_facts(sentence, kb, pos);
    let terms = vec![Unifiable::Atom(chars_to_string(&str_to_chars("parse"))), list, Unifiable::Anonymous];
    proof {
        lemma_complex_view(terms);
        assert(terms_view(terms@) =~= seq![Term::Atom("parse"@), terms@[1]@, Term::Anonymous]);
    }
    let goal = Goal::ComplexGoal(Unifiable::SComplex(terms));
    Solver::new(goal, VarIds::new())
}

} // verus!
