//! Parts of speech of English words, and the word facts of a sentence for
//! the grammar demonstration.
//!
//! A part-of-speech table has a line per word: the word and its tags,
//! separated by spaces, eg. `name NN VB` (a noun or a verb). The tags are
//! those of the Penn Treebank: `NN` noun, `NNS` plural noun, `VB` verb,
//! `VBD` past tense, `JJ` adjective, `PPS` subject pronoun, `AT` article,
//! `IN` preposition, `RB` adverb, and so on.
use vstd::prelude::*;
use crate::unifiable::{Unifiable, Term, terms_view, lemma_complex_view};
use crate::rule::{Rule, rule_view};
use crate::knowledge_base::rules_view;
use crate::parse_terms::{parse_complex, parse_complex_spec};
use crate::text::{str_to_chars, chars_to_string, trim, trim_chars, sub_chars, chars_eq, chars_eq_str,
    chars_starts_with};
use crate::rule_reader::strings_view;

verus! {

// ---------------------------------------------------------------------
// The part-of-speech table

/// A table of the part-of-speech tags of words.
pub struct PosMap {
    pub entries: Vec<(String, Vec<String>)>,
}

/// The model of the entries of a table.
pub open spec fn pos_entries(es: Seq<(String, Vec<String>)>) -> Seq<(Seq<char>, Seq<Seq<char>>)> {
    es.map_values(|e: (String, Vec<String>)| (e.0@, strings_view(e.1@)))
}

/// The tags of a word: those of its first entry.
pub open spec fn pos_lookup(es: Seq<(Seq<char>, Seq<Seq<char>>)>, word: Seq<char>) -> Option<
    Seq<Seq<char>>,
>
    decreases es.len(),
{
    if es.len() == 0 {
        None
    } else if es[0].0 == word {
        Some(es[0].1)
    } else {
        pos_lookup(es.drop_first(), word)
    }
}

impl PosMap {
    /// The model of the table: the tags of each word in it.
    pub open spec fn view_map(&self) -> Map<Seq<char>, Seq<Seq<char>>> {
        Map::new(
            |w: Seq<char>| pos_lookup(pos_entries(self.entries@), w) is Some,
            |w: Seq<char>| pos_lookup(pos_entries(self.entries@), w).unwrap(),
        )
    }

    /// An empty table.
    pub fn new() -> (m: PosMap)
        ensures
            m.view_map() == Map::<Seq<char>, Seq<Seq<char>>>::empty(),
    {
        let m = PosMap { entries: Vec::new() };
        assert(m.view_map() =~= Map::<Seq<char>, Seq<Seq<char>>>::empty());
        m
    }

    /// The index of the first entry of a word, if any.
    fn find(&self, word: &Vec<char>) -> (r: Option<usize>)
        ensures
            match r {
                Some(i) => i < self.entries@.len() && self.entries@[i as int].0@ == word@
                    && forall|k: int| 0 <= k < i ==> (#[trigger] self.entries@[k]).0@ != word@,
                None => forall|k: int| 0 <= k < self.entries@.len() ==> (#[trigger] self.entries@[k]).0@
                    != word@,
            },
    {
        let mut i: usize = 0;
        while i < self.entries.len()
            invariant
                i <= self.entries@.len(),
                forall|k: int| 0 <= k < i ==> (#[trigger] self.entries@[k]).0@ != word@,
            decreases self.entries@.len() - i,
        {
            let key = str_to_chars(self.entries[i].0.as_str());
            if chars_eq(&key, word) {
                return Some(i);
            }
            i = i + 1;
        }
        None
    }

    /// The tags of a word, if it is in the table.
    pub fn get(&self, word: &str) -> (r: Option<&Vec<String>>)
        ensures
            match r {
                Some(v) => self.view_map().contains_key(word@) && self.view_map()[word@] == strings_view(v@),
                None => !self.view_map().contains_key(word@),
            },
    {
        let w = str_to_chars(word);
        match self.find(&w) {
            Some(i) => {
                proof {
                    lemma_lookup_at(pos_entries(self.entries@), word@, i as int);
                }
                Some(&self.entries[i].1)
            },
            None => {
                proof {
                    lemma_lookup_none(pos_entries(self.entries@), word@);
                }
                None
            },
        }
    }

    /// Sets the tags of a word, replacing those it had.
    pub fn insert(&mut self, word: String, tags: Vec<String>)
        ensures
            final(self).view_map() == old(self).view_map().insert(word@, strings_view(tags@)),
    {
        let w = str_to_chars(word.as_str());
        let ghost es0 = pos_entries(self.entries@);
        let ghost tv = strings_view(tags@);
        match self.find(&w) {
            Some(i) => {
                proof {
                    lemma_lookup_at(es0, word@, i as int);
                }
                self.entries.set(i, (word, tags));
                let ghost es1 = pos_entries(self.entries@);
                proof {
                    assert(es1 =~= es0.update(i as int, (w@, tv)));
                    assert forall|k: Seq<char>| k != w@ implies pos_lookup(es1, k) == pos_lookup(es0, k) by {
                        lemma_lookup_update(es0, k, i as int, (w@, tv));
                    }
                    lemma_lookup_at(es1, w@, i as int);
                }
            },
            None => {
                proof {
                    lemma_lookup_none(es0, w@);
                }
                self.entries.push((word, tags));
                let ghost es1 = pos_entries(self.entries@);
                proof {
                    assert(es1 =~= es0.push((w@, tv)));
                    assert forall|k: Seq<char>| k != w@ implies pos_lookup(es1, k) == pos_lookup(es0, k) by {
                        lemma_lookup_push(es0, k, (w@, tv));
                    }
                    lemma_lookup_push(es0, w@, (w@, tv));
                }
            },
        }
        assert(self.view_map() =~= old(self).view_map().insert(word@, strings_view(tags@)));
    }
}

/// The lookup finds the first entry of a word.
proof fn lemma_lookup_at(es: Seq<(Seq<char>, Seq<Seq<char>>)>, w: Seq<char>, i: int)
    requires
        0 <= i < es.len(),
        es[i].0 == w,
        forall|k: int| 0 <= k < i ==> (#[trigger] es[k]).0 != w,
    ensures
        pos_lookup(es, w) == Some(es[i].1),
    decreases i,
{
    if i > 0 {
        assert(es[0].0 != w);
        assert forall|k: int| 0 <= k < i - 1 implies (#[trigger] es.drop_first()[k]).0 != w by {
            assert(es.drop_first()[k] == es[k + 1]);
        }
        lemma_lookup_at(es.drop_first(), w, i - 1);
    }
}

/// A word without an entry is not found.
proof fn lemma_lookup_none(es: Seq<(Seq<char>, Seq<Seq<char>>)>, w: Seq<char>)
    requires
        forall|k: int| 0 <= k < es.len() ==> (#[trigger] es[k]).0 != w,
    ensures
        pos_lookup(es, w) is None,
    decreases es.len(),
{
    if es.len() > 0 {
        assert(es[0].0 != w);
        assert forall|k: int| 0 <= k < es.drop_first().len() implies (#[trigger] es.drop_first()[k]).0 != w by {
            assert(es.drop_first()[k] == es[k + 1]);
        }
        lemma_lookup_none(es.drop_first(), w);
    }
}

/// Changing an entry of another word does not change the lookup of `w`.
proof fn lemma_lookup_update(es: Seq<(Seq<char>, Seq<Seq<char>>)>, w: Seq<char>, i: int, e: (
    Seq<char>,
    Seq<Seq<char>>,
))
    requires
        0 <= i < es.len(),
        es[i].0 == e.0,
        e.0 != w,
    ensures
        pos_lookup(es.update(i, e), w) == pos_lookup(es, w),
    decreases es.len(),
{
    if es.len() > 0 && es[0].0 != w {
        if i > 0 {
            assert(es.update(i, e).drop_first() =~= es.drop_first().update(i - 1, e));
            lemma_lookup_update(es.drop_first(), w, i - 1, e);
        } else {
            assert(es.update(i, e).drop_first() =~= es.drop_first());
        }
    }
}

/// An entry added at the end does not change the lookup of the words
/// before it, and is found for a new word.
proof fn lemma_lookup_push(es: Seq<(Seq<char>, Seq<Seq<char>>)>, w: Seq<char>, e: (
    Seq<char>,
    Seq<Seq<char>>,
))
    ensures
        pos_lookup(es.push(e), w) == match pos_lookup(es, w) {
            Some(v) => Some(v),
            None => if e.0 == w {
                Some(e.1)
            } else {
                None
            },
        },
    decreases es.len(),
{
    assert(es.push(e)[0] == if es.len() > 0 { es[0] } else { e });
    if es.len() > 0 {
        assert(es.push(e).drop_first() =~= es.drop_first().push(e));
        lemma_lookup_push(es.drop_first(), w, e);
    } else {
        assert(es.push(e).drop_first() =~= Seq::<(Seq<char>, Seq<Seq<char>>)>::empty());
    }
}

/// The pieces of a text separated by single spaces (as `str::split(" ")`):
/// there is always one piece more than there are spaces.
pub open spec fn split_spaces(s: Seq<char>) -> Seq<Seq<char>>
    decreases s.len(),
{
    if s.len() == 0 {
        seq![s]
    } else if s.last() == ' ' {
        split_spaces(s.drop_last()).push(Seq::empty())
    } else {
        let p = split_spaces(s.drop_last());
        p.update(p.len() - 1, p.last().push(s.last()))
    }
}

proof fn lemma_split_nonempty(s: Seq<char>)
    ensures
        split_spaces(s).len() > 0,
    decreases s.len(),
{
    if s.len() > 0 {
        lemma_split_nonempty(s.drop_last());
    }
}

/// Splits a text at each space.
fn split_at_spaces(s: &Vec<char>) -> (r: Vec<String>)
    ensures
        strings_view(r@) == split_spaces(s@),
{
    let mut done: Vec<String> = Vec::new();
    let mut cur: Vec<char> = Vec::new();
    let mut i: usize = 0;
    assert(s@.subrange(0, 0) =~= Seq::<char>::empty());
    assert(strings_view(done@).push(cur@) =~= seq![Seq::<char>::empty()]);
    while i < s.len()
        invariant
            i <= s@.len(),
            strings_view(done@).push(cur@) == split_spaces(s@.subrange(0, i as int)),
        decreases s@.len() - i,
    {
        let c = s[i];
        let ghost pre = s@.subrange(0, i as int);
        assert(s@.subrange(0, i + 1).drop_last() =~= pre);
        assert(s@.subrange(0, i + 1).last() == c);
        proof {
            lemma_split_nonempty(pre);
        }
        if c == ' ' {
            let piece = chars_to_string(&cur);
            let ghost dv = strings_view(done@);
            done.push(piece);
            assert(strings_view(done@) =~= dv.push(piece@));
            cur = Vec::new();
            assert(strings_view(done@).push(cur@) =~= dv.push(piece@).push(Seq::empty()));
        } else {
            let ghost dv = strings_view(done@);
            let ghost c0 = cur@;
            cur.push(c);
            assert(dv.push(cur@) =~= dv.push(c0).update(dv.len() as int, c0.push(c)));
        }
        i = i + 1;
    }
    assert(s@.subrange(0, i as int) =~= s@);
    let last = chars_to_string(&cur);
    let ghost dv = strings_view(done@);
    done.push(last);
    assert(strings_view(done@) =~= dv.push(cur@));
    done
}

/// What a line of the table gives: the word before the first space and
/// the tags after it (none if the trimmed line has no space).
pub open spec fn pos_line(line: Seq<char>) -> Option<(Seq<char>, Seq<Seq<char>>)> {
    let t = trim(line);
    if exists|i: int| 0 <= i < t.len() && t[i] == ' ' {
        let i = choose|i: int| 0 <= i < t.len() && t[i] == ' ' && forall|k: int| 0 <= k < i ==> t[k] != ' ';
        Some((t.subrange(0, i), split_spaces(t.subrange(i + 1, t.len() as int))))
    } else {
        None
    }
}

/// The table that the lines `lines[..n]` make, each line setting the tags
/// of its word.
pub open spec fn pos_table(lines: Seq<Seq<char>>, n: int) -> Map<Seq<char>, Seq<Seq<char>>>
    decreases n,
{
    if n <= 0 || n > lines.len() {
        Map::empty()
    } else {
        match pos_line(lines[n - 1]) {
            Some((w, tags)) => pos_table(lines, n - 1).insert(w, tags),
            None => pos_table(lines, n - 1),
        }
    }
}

/// Reads a line of the table (see `pos_line`).
fn read_pos_line(line: &String) -> (r: Option<(String, Vec<String>)>)
    ensures
        match pos_line(line@) {
            Some((w, tags)) => r matches Some(p) && p.0@ == w && strings_view(p.1@) == tags,
            None => r is None,
        },
{
    let v = str_to_chars(line.as_str());
    let t = trim_chars(&v);
    let mut i: usize = 0;
    while i < t.len()
        invariant
            i <= t@.len(),
            t@ == trim(line@),
            forall|k: int| 0 <= k < i ==> t@[k] != ' ',
        decreases t@.len() - i,
    {
        if t[i] == ' ' {
            let word = chars_to_string(&sub_chars(&t, 0, i));
            let rest = sub_chars(&t, i + 1, t.len());
            let tags = split_at_spaces(&rest);
            proof {
                let tt = trim(line@);
                assert(tt == t@);
                let j = choose|j: int| 0 <= j < tt.len() && tt[j] == ' ' && forall|k: int| 0 <= k < j ==> tt[k] != ' ';
                assert(0 <= i < tt.len() && tt[i as int] == ' ' && forall|k: int| 0 <= k < i ==> tt[k] != ' ');
                if j < i {
                    assert(tt[j] != ' ');
                } else if j > i {
                    assert(tt[i as int] != ' ');
                }
            }
            return Some((word, tags));
        }
        i = i + 1;
    }
    None
}

/// Makes a part-of-speech table from its lines: each line holds a word and
/// its tags, separated by spaces; a later line for a word replaces an
/// earlier one; a line without a space is passed over.
pub fn create_pos_map(lines: &Vec<String>) -> (m: PosMap)
    ensures
        m.view_map() == pos_table(strings_view(lines@), lines@.len() as int),
{
    let ghost lv = strings_view(lines@);
    let mut m = PosMap::new();
    let mut n: usize = 0;
    while n < lines.len()
        invariant
            n <= lines@.len(),
            lv == strings_view(lines@),
            m.view_map() == pos_table(lv, n as int),
        decreases lines@.len() - n,
    {
        assert(lv[n as int] == lines@[n as int]@);
        match read_pos_line(&lines[n]) {
            Some((w, tags)) => {
                m.insert(w, tags);
            },
            None => {},
        }
        n = n + 1;
    }
    m
}

// ---------------------------------------------------------------------
// Terms for words

/// The lower case of a text, as `str::to_lowercase` gives it (by the
/// Unicode lower case mappings).
pub uninterp spec fn lowercase(s: Seq<char>) -> Seq<char>;

/// Lower-cases a text by `str::to_lowercase`. The contract names the
/// result and claims nothing more of it.
#[verifier::external_body]
fn to_lowercase(s: &str) -> (r: String)
    ensures
        r@ == lowercase(s@),
{
    s.to_lowercase()
}

/// A word in lower case, except the pronoun `I` (and `I'm`, `I've`, ...).
pub open spec fn lower_except_i(word: Seq<char>) -> Seq<char> {
    if word == "I"@ || (word.len() >= 2 && word[0] == 'I' && word[1] == '\'') {
        word
    } else {
        lowercase(word)
    }
}

/// Makes a word lower case, except the pronoun `I` (see `lower_except_i`).
pub fn lower_case_except_i(word: &str) -> (r: String)
    ensures
        r@ == lower_except_i(word@),
{
    let w = str_to_chars(word);
    proof {
        reveal_strlit("I");
    }
    if chars_eq_str(&w, "I") || (w.len() >= 2 && w[0] == 'I' && w[1] == '\'') {
        return chars_to_string(&w);
    }
    to_lowercase(word)
}

/// An atom of a text.
fn atom(s: &str) -> (u: Unifiable)
    ensures
        u@ == Term::Atom(s@),
{
    Unifiable::Atom(chars_to_string(&str_to_chars(s)))
}

/// The complex term of the terms.
fn complex_of(v: Vec<Unifiable>) -> (u: Unifiable)
    ensures
        u@ == Term::SComplex(terms_view(v@)),
{
    proof {
        lemma_complex_view(v);
    }
    Unifiable::SComplex(v)
}

/// The model of the complex term `f(a1, ..., an)` of atoms.
pub open spec fn atoms_term(f: Seq<char>, args: Seq<Seq<char>>) -> Term {
    Term::SComplex(seq![Term::Atom(f)] + atom_terms(args))
}

/// The atoms of texts.
pub open spec fn atom_terms(args: Seq<Seq<char>>) -> Seq<Term> {
    args.map_values(|a: Seq<char>| Term::Atom(a))
}

/// Makes the complex term of atoms `f(a, b, ...)`.
fn make_atoms_term(f: &str, args: Vec<&str>) -> (u: Unifiable)
    ensures
        u@ == atoms_term(f@, args@.map_values(|a: &str| a@)),
{
    let ghost strs = args@.map_values(|a: &str| a@);
    let mut v: Vec<Unifiable> = Vec::new();
    v.push(atom(f));
    assert(strs.take(0) =~= Seq::<Seq<char>>::empty());
    assert(terms_view(v@) =~= seq![Term::Atom(f@)] + atom_terms(strs.take(0)));
    let mut i: usize = 0;
    while i < args.len()
        invariant
            i <= args@.len(),
            strs == args@.map_values(|a: &str| a@),
            terms_view(v@) == seq![Term::Atom(f@)] + atom_terms(strs.take(i as int)),
        decreases args@.len() - i,
    {
        let ghost before = terms_view(v@);
        let a = atom(args[i]);
        v.push(a);
        assert(strs[i as int] == args@[i as int]@);
        assert(strs.take(i + 1) =~= strs.take(i as int).push(strs[i as int]));
        assert(atom_terms(strs.take(i + 1)) =~= atom_terms(strs.take(i as int)).push(Term::Atom(strs[i as int])));
        assert(terms_view(v@) =~= before.push(a@));
        assert(terms_view(v@) =~= seq![Term::Atom(f@)] + atom_terms(strs.take(i + 1)));
        i = i + 1;
    }
    assert(strs.take(i as int) =~= strs);
    complex_of(v)
}

/// Does `s` start with `p`?
pub open spec fn starts(s: Seq<char>, p: Seq<char>) -> bool {
    p.len() <= s.len() && s.subrange(0, p.len() as int) == p
}

/// The pronoun term of a word in subject (`PPS`, `PPSS`) or object (`PPO`)
/// case, eg. `pronoun(We, subject, first, plural)`. The pronoun `you` is
/// handled by `make_you_facts`.
pub open spec fn pronoun_term_spec(word: Seq<char>, lower: Seq<char>, tag: Seq<char>) -> Option<Term> {
    if starts(tag, "PPS"@) {
        Some(
            if lower == "we"@ {
                atoms_term("pronoun"@, seq![word, "subject"@, "first"@, "plural"@])
            } else if lower == "they"@ {
                atoms_term("pronoun"@, seq![word, "subject"@, "third"@, "plural"@])
            } else if lower == "I"@ {
                atoms_term("pronoun"@, seq![word, "subject"@, "first"@, "singular"@])
            } else {
                atoms_term("pronoun"@, seq![word, "subject"@, "third"@, "singular"@])
            },
        )
    } else if starts(tag, "PPO"@) {
        Some(
            if lower == "us"@ {
                atoms_term("pronoun"@, seq![word, "object"@, "first"@, "plural"@])
            } else if lower == "them"@ {
                atoms_term("pronoun"@, seq![word, "object"@, "third"@, "plural"@])
            } else if lower == "me"@ {
                atoms_term("pronoun"@, seq![word, "object"@, "first"@, "singular"@])
            } else {
                atoms_term("pronoun"@, seq![word, "object"@, "third"@, "singular"@])
            },
        )
    } else {
        None
    }
}

/// Does the text `s` start with the literal `p`?
fn starts_with(s: &str, p: &str) -> (b: bool)
    ensures
        b == starts(s@, p@),
{
    let sc = str_to_chars(s);
    let pc = str_to_chars(p);
    chars_starts_with(&sc, &pc)
}

/// Is the text `s` the literal `p`?
fn is(s: &str, p: &str) -> (b: bool)
    ensures
        b == (s@ == p@),
{
    let sc = str_to_chars(s);
    chars_eq_str(&sc, p)
}

/// Creates a pronoun term (see `pronoun_term_spec`).
pub fn make_pronoun_term(word: &str, lower: &str, tag: &str) -> (r: Option<Unifiable>)
    ensures
        match r {
            Some(u) => pronoun_term_spec(word@, lower@, tag@) == Some(u@),
            None => pronoun_term_spec(word@, lower@, tag@) is None,
        },
{
    let case = if starts_with(tag, "PPS") {
        "subject"
    } else if starts_with(tag, "PPO") {
        "object"
    } else {
        return None;
    };
    let subject = starts_with(tag, "PPS");
    let (person, number) = if subject {
        if is(lower, "we") {
            ("first", "plural")
        } else if is(lower, "they") {
            ("third", "plural")
        } else if is(lower, "I") {
            ("first", "singular")
        } else {
            ("third", "singular")
        }
    } else {
        if is(lower, "us") {
            ("first", "plural")
        } else if is(lower, "them") {
            ("third", "plural")
        } else if is(lower, "me") {
            ("first", "singular")
        } else {
            ("third", "singular")
        }
    };
    let t = make_atoms_term("pronoun", vec![word, case, person, number]);
    assert(seq![word, case, person, number].map_values(|a: &str| a@) =~= seq![word@, case@, person@, number@]);
    Some(t)
}

/// The facts of the pronoun `you`: subject and object, singular and plural,
/// eg. `word(you, pronoun(You, subject, second, singular))`.
pub open spec fn you_facts(word: Seq<char>) -> Seq<(Term, crate::goal::GoalView)> {
    let f = |case: Seq<char>, number: Seq<char>| (
        Term::SComplex(
            seq![
                Term::Atom("word"@),
                Term::Atom("you"@),
                atoms_term("pronoun"@, seq![word, case, "second"@, number]),
            ],
        ),
        crate::goal::GoalView::Nil,
    );
    seq![
        f("subject"@, "singular"@),
        f("object"@, "singular"@),
        f("subject"@, "plural"@),
        f("object"@, "plural"@),
    ]
}

/// The fact `word(w, term)`.
fn word_fact(w: Unifiable, term: Unifiable) -> (r: Rule)
    ensures
        r@ == (Term::SComplex(seq![Term::Atom("word"@), w@, term@]), crate::goal::GoalView::Nil),
{
    let v = vec![atom("word"), w, term];
    let c = complex_of(v);
    assert(terms_view(v@) =~= seq![Term::Atom("word"@), v@[1]@, v@[2]@]);
    crate::rule::make_fact(c)
}

/// The fact `word(you, pronoun(word, case, second, number))`.
fn you_fact(word: &str, case: &str, number: &str) -> (r: Rule)
    ensures
        r@ == (
            Term::SComplex(
                seq![
                    Term::Atom("word"@),
                    Term::Atom("you"@),
                    atoms_term("pronoun"@, seq![word@, case@, "second"@, number@]),
                ],
            ),
            crate::goal::GoalView::Nil,
        ),
{
    let p = make_atoms_term("pronoun", vec![word, case, "second", number]);
    assert(seq![word, case, "second", number].map_values(|a: &str| a@) =~= seq![word@, case@, "second"@, number@]);
    word_fact(atom("you"), p)
}

/// Creates the facts of the pronoun `you` (see `you_facts`).
pub fn make_you_facts(word: &str) -> (facts: Vec<Rule>)
    ensures
        rules_view(facts@) == you_facts(word@),
{
    let facts = vec![
        you_fact(word, "subject", "singular"),
        you_fact(word, "object", "singular"),
        you_fact(word, "subject", "plural"),
        you_fact(word, "object", "plural"),
    ];
    assert(rules_view(facts@) =~= you_facts(word@));
    facts
}

/// The verb or participle term of a word with a verb tag, eg.
/// `verb(listen, present, base)` or `participle(dancing, active)`.
pub open spec fn verb_term_spec(word: Seq<char>, tag: Seq<char>) -> Option<Term> {
    if tag == "VB"@ {
        Some(atoms_term("verb"@, seq![word, "present"@, "base"@]))
    } else if tag == "VBZ"@ {
        Some(atoms_term("verb"@, seq![word, "present"@, "third_sing"@]))
    } else if tag == "VBD"@ {
        Some(atoms_term("verb"@, seq![word, "past"@, "past"@]))
    } else if tag == "VBG"@ {
        Some(atoms_term("participle"@, seq![word, "active"@]))
    } else if tag == "VBN"@ {
        Some(atoms_term("participle"@, seq![word, "passive"@]))
    } else {
        None
    }
}

/// The noun term of a word with a noun tag, eg. `noun(speaker, singular)`.
pub open spec fn noun_term_spec(word: Seq<char>, tag: Seq<char>) -> Option<Term> {
    if tag == "NN"@ || tag == "NNP"@ {
        Some(atoms_term("noun"@, seq![word, "singular"@]))
    } else if tag == "NNS"@ {
        Some(atoms_term("noun"@, seq![word, "plural"@]))
    } else {
        None
    }
}

/// The adjective term of a word with an adjective tag, eg.
/// `adjective(happy, positive)`.
pub open spec fn adjective_term_spec(word: Seq<char>, tag: Seq<char>) -> Option<Term> {
    if tag == "JJ"@ {
        Some(atoms_term("adjective"@, seq![word, "positive"@]))
    } else if tag == "JJR"@ {
        Some(atoms_term("adjective"@, seq![word, "comparative"@]))
    } else if tag == "JJS"@ {
        Some(atoms_term("adjective"@, seq![word, "superlative"@]))
    } else {
        None
    }
}

/// The article term of a word: `article(the, definite)` for `the` in any
/// case, otherwise `article(a, indefinite)`.
pub open spec fn article_term_spec(word: Seq<char>) -> Term {
    if lowercase(word) == "the"@ {
        atoms_term("article"@, seq![word, "definite"@])
    } else {
        atoms_term("article"@, seq![word, "indefinite"@])
    }
}

/// Creates a verb term (see `verb_term_spec`).
pub fn make_verb_term(word: &str, tag: &str) -> (r: Option<Unifiable>)
    ensures
        match r {
            Some(u) => verb_term_spec(word@, tag@) == Some(u@),
            None => verb_term_spec(word@, tag@) is None,
        },
{
    let r = if is(tag, "VB") {
        make_atoms_term("verb", vec![word, "present", "base"])
    } else if is(tag, "VBZ") {
        make_atoms_term("verb", vec![word, "present", "third_sing"])
    } else if is(tag, "VBD") {
        make_atoms_term("verb", vec![word, "past", "past"])
    } else if is(tag, "VBG") {
        make_atoms_term("participle", vec![word, "active"])
    } else if is(tag, "VBN") {
        make_atoms_term("participle", vec![word, "passive"])
    } else {
        return None;
    };
    assert(seq![word, "present", "base"].map_values(|a: &str| a@) =~= seq![word@, "present"@, "base"@]);
    assert(seq![word, "present", "third_sing"].map_values(|a: &str| a@) =~= seq![word@, "present"@, "third_sing"@]);
    assert(seq![word, "past", "past"].map_values(|a: &str| a@) =~= seq![word@, "past"@, "past"@]);
    assert(seq![word, "active"].map_values(|a: &str| a@) =~= seq![word@, "active"@]);
    assert(seq![word, "passive"].map_values(|a: &str| a@) =~= seq![word@, "passive"@]);
    Some(r)
}

/// Creates a noun term (see `noun_term_spec`).
pub fn make_noun_term(word: &str, tag: &str) -> (r: Option<Unifiable>)
    ensures
        match r {
            Some(u) => noun_term_spec(word@, tag@) == Some(u@),
            None => noun_term_spec(word@, tag@) is None,
        },
{
    let r = if is(tag, "NN") || is(tag, "NNP") {
        make_atoms_term("noun", vec![word, "singular"])
    } else if is(tag, "NNS") {
        make_atoms_term("noun", vec![word, "plural"])
    } else {
        return None;
    };
    assert(seq![word, "singular"].map_values(|a: &str| a@) =~= seq![word@, "singular"@]);
    assert(seq![word, "plural"].map_values(|a: &str| a@) =~= seq![word@, "plural"@]);
    Some(r)
}

/// Creates an adjective term (see `adjective_term_spec`).
pub fn make_adjective_term(word: &str, tag: &str) -> (r: Option<Unifiable>)
    ensures
        match r {
            Some(u) => adjective_term_spec(word@, tag@) == Some(u@),
            None => adjective_term_spec(word@, tag@) is None,
        },
{
    let r = if is(tag, "JJ") {
        make_atoms_term("adjective", vec![word, "positive"])
    } else if is(tag, "JJR") {
        make_atoms_term("adjective", vec![word, "comparative"])
    } else if is(tag, "JJS") {
        make_atoms_term("adjective", vec![word, "superlative"])
    } else {
        return None;
    };
    assert(seq![word, "positive"].map_values(|a: &str| a@) =~= seq![word@, "positive"@]);
    assert(seq![word, "comparative"].map_values(|a: &str| a@) =~= seq![word@, "comparative"@]);
    assert(seq![word, "superlative"].map_values(|a: &str| a@) =~= seq![word@, "superlative"@]);
    Some(r)
}

/// Creates an article term (see `article_term_spec`).
pub fn make_article_term(word: &str) -> (u: Unifiable)
    ensures
        u@ == article_term_spec(word@),
{
    let lower = to_lowercase(word);
    let r = if is(lower.as_str(), "the") {
        make_atoms_term("article", vec![word, "definite"])
    } else {
        make_atoms_term("article", vec![word, "indefinite"])
    };
    assert(seq![word, "definite"].map_values(|a: &str| a@) =~= seq![word@, "definite"@]);
    assert(seq![word, "indefinite"].map_values(|a: &str| a@) =~= seq![word@, "indefinite"@]);
    r
}

/// Creates an adverb term, eg. `adverb(happily)`.
pub fn make_adverb_term(word: &str) -> (u: Unifiable)
    ensures
        u@ == atoms_term("adverb"@, seq![word@]),
{
    let mut v: Vec<&str> = Vec::new();
    v.push(word);
    assert(v@.map_values(|a: &str| a@) =~= seq![word@]);
    make_atoms_term("adverb", v)
}

/// Creates a preposition term, eg. `preposition(from)`.
pub fn make_preposition_term(word: &str) -> (u: Unifiable)
    ensures
        u@ == atoms_term("preposition"@, seq![word@]),
{
    let mut v: Vec<&str> = Vec::new();
    v.push(word);
    assert(v@.map_values(|a: &str| a@) =~= seq![word@]);
    make_atoms_term("preposition", v)
}

/// The term of a word for one of its tags: by the start of the tag, a
/// verb (`VB`), noun (`NN`), pronoun (`PP`), adjective (`JJ`), article
/// (`AT`), preposition (`IN`) or adverb (`RB`); none for other tags.
pub open spec fn word_term_spec(word: Seq<char>, lower: Seq<char>, tag: Seq<char>) -> Option<Term> {
    if starts(tag, "VB"@) {
        verb_term_spec(word, tag)
    } else if starts(tag, "NN"@) {
        noun_term_spec(word, tag)
    } else if starts(tag, "PP"@) {
        pronoun_term_spec(word, lower, tag)
    } else if starts(tag, "JJ"@) {
        adjective_term_spec(word, tag)
    } else if starts(tag, "AT"@) {
        Some(article_term_spec(word))
    } else if starts(tag, "IN"@) {
        Some(atoms_term("preposition"@, seq![word]))
    } else if starts(tag, "RB"@) {
        Some(atoms_term("adverb"@, seq![word]))
    } else {
        None
    }
}

/// Creates the term of a word for a tag (see `word_term_spec`).
pub fn make_word_term(word: &str, lower: &str, tag: &str) -> (r: Option<Unifiable>)
    ensures
        match r {
            Some(u) => word_term_spec(word@, lower@, tag@) == Some(u@),
            None => word_term_spec(word@, lower@, tag@) is None,
        },
{
    if starts_with(tag, "VB") {
        make_verb_term(word, tag)
    } else if starts_with(tag, "NN") {
        make_noun_term(word, tag)
    } else if starts_with(tag, "PP") {
        make_pronoun_term(word, lower, tag)
    } else if starts_with(tag, "JJ") {
        make_adjective_term(word, tag)
    } else if starts_with(tag, "AT") {
        Some(make_article_term(word))
    } else if starts_with(tag, "IN") {
        Some(make_preposition_term(word))
    } else if starts_with(tag, "RB") {
        Some(make_adverb_term(word))
    } else {
        None
    }
}

/// The source text of the term of a punctuation mark, eg. `semicolon(;)`
/// for `;`. Quote marks and brackets have a second argument, the opening
/// mark of their kind, for comparisons: `quote_mark(’, ‘)`.
pub open spec fn punctuation_source(c: char) -> Option<Seq<char>> {
    if c == '.' {
        Some("period(.)"@)
    } else if c == ',' {
        Some("comma(\\,)"@)
    } else if c == '?' {
        Some("question_mark(?)"@)
    } else if c == '!' {
        Some("exclamation_mark(!)"@)
    } else if c == ':' {
        Some("colon(:)"@)
    } else if c == ';' {
        Some("semicolon(;)"@)
    } else if c == '-' {
        Some("dash(-)"@)
    } else if c == '"' {
        Some("quote_mark(\", \")"@)
    } else if c == '\'' {
        Some("quote_mark(', ')"@)
    } else if c == '\u{ab}' {
        Some("quote_mark(\u{ab}, \u{ab})"@)
    } else if c == '\u{bb}' {
        Some("quote_mark(\u{bb}, \u{ab})"@)
    } else if c == '\u{2018}' {
        Some("quote_mark(\u{2018}, \u{2018})"@)
    } else if c == '\u{2019}' {
        Some("quote_mark(\u{2019}, \u{2018})"@)
    } else if c == '\u{201c}' {
        Some("quote_mark(\u{201c}, \u{201c})"@)
    } else if c == '\u{201d}' {
        Some("quote_mark(\u{201d}, \u{201c})"@)
    } else if c == '(' {
        Some("bracket((, ()"@)
    } else if c == ')' {
        Some("bracket(), ()"@)
    } else if c == '[' {
        Some("bracket([, [)"@)
    } else if c == ']' {
        Some("bracket(], [)"@)
    } else if c == '<' {
        Some("bracket(<, <)"@)
    } else if c == '>' {
        Some("bracket(>, <)"@)
    } else {
        None
    }
}

/// The term of a punctuation mark: its source text parsed as a complex
/// term (none if it is not punctuation, or if that text does not parse).
pub open spec fn punctuation_term_spec(symbol: Seq<char>) -> Option<Term> {
    if symbol.len() != 1 {
        None
    } else {
        match punctuation_source(symbol[0]) {
            Some(src) => match parse_complex_spec(src) {
                Ok(t) => Some(t),
                Err(_) => None,
            },
            None => None,
        }
    }
}

/// Makes the complex term of a punctuation mark, eg. `semicolon(;)` for
/// `;` (see `punctuation_term_spec`).
pub fn make_punctuation_term(symbol: &str) -> (r: Option<Unifiable>)
    ensures
        match r {
            Some(u) => punctuation_term_spec(symbol@) == Some(u@),
            None => punctuation_term_spec(symbol@) is None,
        },
{
    let sc = str_to_chars(symbol);
    if sc.len() != 1 {
        return None;
    }
    let c = sc[0];
    let src = if c == '.' {
        "period(.)"
    } else if c == ',' {
        "comma(\\,)"
    } else if c == '?' {
        "question_mark(?)"
    } else if c == '!' {
        "exclamation_mark(!)"
    } else if c == ':' {
        "colon(:)"
    } else if c == ';' {
        "semicolon(;)"
    } else if c == '-' {
        "dash(-)"
    } else if c == '"' {
        "quote_mark(\", \")"
    } else if c == '\'' {
        "quote_mark(', ')"
    } else if c == '\u{ab}' {
        "quote_mark(\u{ab}, \u{ab})"
    } else if c == '\u{bb}' {
        "quote_mark(\u{bb}, \u{ab})"
    } else if c == '\u{2018}' {
        "quote_mark(\u{2018}, \u{2018})"
    } else if c == '\u{2019}' {
        "quote_mark(\u{2019}, \u{2018})"
    } else if c == '\u{201c}' {
        "quote_mark(\u{201c}, \u{201c})"
    } else if c == '\u{201d}' {
        "quote_mark(\u{201d}, \u{201c})"
    } else if c == '(' {
        "bracket((, ()"
    } else if c == ')' {
        "bracket(), ()"
    } else if c == '[' {
        "bracket([, [)"
    } else if c == ']' {
        "bracket(], [)"
    } else if c == '<' {
        "bracket(<, <)"
    } else if c == '>' {
        "bracket(>, <)"
    } else {
        return None;
    };
    match parse_complex(src) {
        Ok(t) => Some(t),
        Err(_) => None,
    }
}

/// The model of the fact `word(w, t)`.
pub open spec fn word_fact_spec(word: Seq<char>, t: Term) -> (Term, crate::goal::GoalView) {
    (Term::SComplex(seq![Term::Atom("word"@), Term::Atom(word), t]), crate::goal::GoalView::Nil)
}

/// The facts of a word for its tags `tags[..n]`, in order: one for each
/// tag that gives a term.
pub open spec fn tag_facts(word: Seq<char>, lower: Seq<char>, tags: Seq<Seq<char>>, n: int) -> Seq<
    (Term, crate::goal::GoalView),
>
    decreases n,
{
    if n <= 0 || n > tags.len() {
        Seq::empty()
    } else {
        match word_term_spec(word, lower, tags[n - 1]) {
            Some(t) => tag_facts(word, lower, tags, n - 1).push(word_fact_spec(word, t)),
            None => tag_facts(word, lower, tags, n - 1),
        }
    }
}

/// The tags of a word in a table: those of the word itself, or if it has
/// none, those of its lower case (none if neither is there).
pub open spec fn word_tags(word: Seq<char>, lower: Seq<char>, pos: Map<Seq<char>, Seq<Seq<char>>>) -> Seq<
    Seq<char>,
> {
    if pos.contains_key(word) {
        pos[word]
    } else if pos.contains_key(lower) {
        pos[lower]
    } else {
        Seq::empty()
    }
}

/// The facts of a word for the knowledge base. `you` gives its four
/// pronoun facts; a one-byte punctuation mark its punctuation term;
/// another word a fact for each of its tags that gives a term, eg.
/// `word(envy, noun(envy, singular))` and `word(envy, verb(envy, present,
/// base))`; a word without any, `word(w, unknown(w))`.
pub open spec fn word_facts_spec(word: Seq<char>, pos: Map<Seq<char>, Seq<Seq<char>>>) -> Seq<
    (Term, crate::goal::GoalView),
> {
    let lower = lower_except_i(word);
    if lower == "you"@ {
        you_facts(word)
    } else if word.len() == 1 && (word[0] as u32) < 128 && punctuation_term_spec(word) is Some {
        seq![word_fact_spec(word, punctuation_term_spec(word).unwrap())]
    } else {
        let tags = word_tags(word, lower, pos);
        let fs = tag_facts(word, lower, tags, tags.len() as int);
        if fs.len() == 0 {
            seq![word_fact_spec(word, atoms_term("unknown"@, seq![word]))]
        } else {
            fs
        }
    }
}

/// Takes a word and produces its facts for the knowledge base (see
/// `word_facts_spec`).
pub fn word_to_facts(word: &str, pos: &PosMap) -> (facts: Vec<Rule>)
    ensures
        rules_view(facts@) == word_facts_spec(word@, pos.view_map()),
{
    let lower = lower_case_except_i(word);
    proof {
        reveal_strlit("you");
    }
    if is(lower.as_str(), "you") {
        return make_you_facts(word);
    }
    let wc = str_to_chars(word);
    if wc.len() == 1 && (wc[0] as u32) < 128 {
        if let Some(term) = make_punctuation_term(word) {
            let fact = word_fact(atom(word), term);
            let v = vec![fact];
            assert(rules_view(v@) =~= seq![fact@]);
            return v;
        }
    }
    let mut facts: Vec<Rule> = Vec::new();
    let pos_data = match pos.get(word) {
        Some(d) => Some(d),
        None => pos.get(lower.as_str()),
    };
    let empty: Vec<String> = Vec::new();
    let tags: &Vec<String> = match pos_data {
        Some(d) => d,
        None => &empty,
    };
    let ghost tv = strings_view(tags@);
    assert(tv == word_tags(word@, lower@, pos.view_map()));
    let mut i: usize = 0;
    while i < tags.len()
        invariant
            i <= tags@.len(),
            tv == strings_view(tags@),
            rules_view(facts@) == tag_facts(word@, lower@, tv, i as int),
        decreases tags@.len() - i,
    {
        assert(tv[i as int] == tags@[i as int]@);
        match make_word_term(word, lower.as_str(), tags[i].as_str()) {
            Some(term) => {
                let ghost before = rules_view(facts@);
                let fact = word_fact(atom(word), term);
                facts.push(fact);
                assert(rules_view(facts@) =~= before.push(fact@));
            },
            None => {},
        }
        i = i + 1;
    }
    if facts.len() == 0 {
        let mut v: Vec<&str> = Vec::new();
        v.push(word);
        assert(v@.map_values(|a: &str| a@) =~= seq![word@]);
        let unknown = make_atoms_term("unknown", v);
        let fact = word_fact(atom(word), unknown);
        facts.push(fact);
        assert(rules_view(facts@) =~= seq![fact@]);
    }
    facts
}

/// The facts of the words `words[..n]`, in order.
pub open spec fn words_facts(words: Seq<Seq<char>>, pos: Map<Seq<char>, Seq<Seq<char>>>, n: int) -> Seq<
    (Term, crate::goal::GoalView),
>
    decreases n,
{
    if n <= 0 || n > words.len() {
        Seq::empty()
    } else {
        words_facts(words, pos, n - 1) + word_facts_spec(words[n - 1], pos)
    }
}

/// Takes a list of words and makes the facts of all of them, in order
/// (see `word_facts_spec`).
pub fn make_facts(words: &Vec<String>, pos: &PosMap) -> (facts: Vec<Rule>)
    ensures
        rules_view(facts@) == words_facts(strings_view(words@), pos.view_map(), words@.len() as int),
{
    let ghost wv = strings_view(words@);
    let mut facts: Vec<Rule> = Vec::new();
    let mut i: usize = 0;
    while i < words.len()
        invariant
            i <= words@.len(),
            wv == strings_view(words@),
            rules_view(facts@) == words_facts(wv, pos.view_map(), i as int),
        decreases words@.len() - i,
    {
        assert(wv[i as int] == words@[i as int]@);
        let word_facts = word_to_facts(words[i].as_str(), pos);
        let ghost before = rules_view(facts@);
        let mut wf = word_facts;
        let ghost add = rules_view(wf@);
        let mut rev: Vec<Rule> = Vec::new();
        while wf.len() > 0
            invariant
                rules_view(wf@) + rules_view(rev@).reverse() == add,
            decreases wf@.len(),
        {
            let ghost w0 = rules_view(wf@);
            let ghost r0 = rules_view(rev@);
            let r = wf.pop().unwrap();
            rev.push(r);
            assert(rules_view(wf@) =~= w0.drop_last());
            assert(rules_view(rev@) =~= r0.push(r@));
            assert(rules_view(rev@).reverse() =~= seq![r@] + r0.reverse());
            assert(w0 =~= w0.drop_last().push(r@));
        }
        assert(rules_view(rev@).reverse() =~= add);
        let ghost fsv = rules_view(facts@);
        while rev.len() > 0
            invariant
                rules_view(facts@) + rules_view(rev@).reverse() == fsv + add,
            decreases rev@.len(),
        {
            let ghost f0 = rules_view(facts@);
            let ghost r0 = rules_view(rev@);
            let r = rev.pop().unwrap();
            facts.push(r);
            assert(rules_view(rev@) =~= r0.drop_last());
            assert(rules_view(facts@) =~= f0.push(r@));
            assert(r0.reverse() =~= seq![r@] + r0.drop_last().reverse());
            assert(rules_view(facts@) + rules_view(rev@).reverse() =~= f0 + r0.reverse());
        }
        assert(rules_view(facts@) =~= before + add);
        i = i + 1;
    }
    facts
}

} // verus!
