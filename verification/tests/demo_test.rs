use suiron::sentence::{sentence_to_words, end_of_sentence, is_quote_mark};
use suiron::part_of_speech::{PosMap, create_pos_map, lower_case_except_i, make_pronoun_term,
    make_you_facts, make_verb_term, make_noun_term, make_adjective_term, make_article_term,
    make_adverb_term, make_preposition_term, make_word_term, make_punctuation_term, word_to_facts,
    make_facts};
use suiron::grammar_demo::{split_into_sentences, sentence_to_facts, grammar_rules, sentence_query};
use suiron::knowledge_base::{KnowledgeBase, format_kb, count_rules, add_rules, remove_rules, test_kb};
use suiron::rule::parse_rule;

fn strings(v: &[&str]) -> Vec<String> { v.iter().map(|s| s.to_string()).collect() }

fn display(t: Option<suiron::unifiable::Unifiable>) -> String {
    t.map(|u| u.to_display_string()).unwrap_or_else(|| "None".to_string())
}

#[test]
fn test_sentence_to_words() {
    assert_eq!(sentence_to_words("   I know\nmy\nrights.   "), strings(&["I", "know", "my", "rights", "."]));
    assert_eq!(sentence_to_words("Is you is or is you ain't?"),
               strings(&["Is", "you", "is", "or", "is", "you", "ain't", "?"]));
    assert_eq!(sentence_to_words("The value of π is 3.14."),
               strings(&["The", "value", "of", "π", "is", "3.14", "."]));
    assert_eq!(sentence_to_words(""), Vec::<String>::new());
}

#[test]
fn test_end_of_sentence() {
    let chrs: Vec<char> = "The value of π is 3.14.  ".chars().collect();
    assert!(!end_of_sentence(&chrs, 19));
    assert!(end_of_sentence(&chrs, 22));
    assert!(end_of_sentence(&chrs, 100));
}

#[test]
fn test_is_quote_mark() {
    assert_eq!(is_quote_mark('»'), Some(2));
    assert_eq!(is_quote_mark('"'), Some(1));
    assert_eq!(is_quote_mark('a'), None);
}

#[test]
fn test_split_into_sentences() {
    let text = "The value of π is approximately 3.14. But π is an irrational number.";
    assert_eq!(split_into_sentences(text),
               strings(&["The value of π is approximately 3.14.", "But π is an irrational number."]));
    let text = "I met H. G. Wells today. Did he? Yes.";
    assert_eq!(split_into_sentences(text), strings(&["I met H. G. Wells today.", "Did he?", "Yes."]));
}

#[test]
fn test_lower_case_except_i() {
    assert_eq!(lower_case_except_i("Twilight"), "twilight");
    assert_eq!(lower_case_except_i("I"), "I");
    assert_eq!(lower_case_except_i("I'm"), "I'm");
}

#[test]
fn test_make_terms() {
    assert_eq!(display(make_pronoun_term("We", "we", "PPSS")), "pronoun(We, subject, first, plural)");
    assert_eq!(display(make_pronoun_term("them", "them", "PPO")), "pronoun(them, object, third, plural)");
    assert_eq!(display(make_pronoun_term("it", "it", "NN")), "None");
    assert_eq!(display(make_verb_term("listen", "VB")), "verb(listen, present, base)");
    assert_eq!(display(make_verb_term("Dancing", "VBG")), "participle(Dancing, active)");
    assert_eq!(display(make_verb_term("listen", "NN")), "None");
    assert_eq!(display(make_noun_term("speaker", "NN")), "noun(speaker, singular)");
    assert_eq!(display(make_noun_term("desks", "NNS")), "noun(desks, plural)");
    assert_eq!(display(make_adjective_term("happy", "JJ")), "adjective(happy, positive)");
    assert_eq!(display(make_adjective_term("biggest", "JJS")), "adjective(biggest, superlative)");
    assert_eq!(make_article_term("a").to_display_string(), "article(a, indefinite)");
    assert_eq!(make_article_term("The").to_display_string(), "article(The, definite)");
    assert_eq!(make_adverb_term("happily").to_display_string(), "adverb(happily)");
    assert_eq!(make_preposition_term("from").to_display_string(), "preposition(from)");
    assert_eq!(display(make_word_term("Dancing", "dancing", "VBG")), "participle(Dancing, active)");
    assert_eq!(display(make_word_term("Dancing", "dancing", "XX")), "None");
}

#[test]
fn test_make_punctuation_term() {
    assert_eq!(display(make_punctuation_term(";")), "semicolon(;)");
    assert_eq!(display(make_punctuation_term(",")), "comma(,)");
    assert_eq!(display(make_punctuation_term(".")), "period(.)");
    assert_eq!(display(make_punctuation_term("«")), "quote_mark(«, «)");
    assert_eq!(display(make_punctuation_term("a")), "None");
    assert_eq!(display(make_punctuation_term(";;")), "None");
}

#[test]
fn test_make_you_facts() {
    let facts: Vec<String> = make_you_facts("You").iter().map(|f| f.to_display_string()).collect();
    assert_eq!(facts, strings(&[
        "word(you, pronoun(You, subject, second, singular)).",
        "word(you, pronoun(You, object, second, singular)).",
        "word(you, pronoun(You, subject, second, plural)).",
        "word(you, pronoun(You, object, second, plural)).",
    ]));
}

fn small_pos() -> PosMap {
    create_pos_map(&strings(&["envy NN VB", "he PPS", "envies NNS VBZ", "I PPSS", "know VB",
                              "it PPS PPO", "name NN VB", "name NN"]))
}

#[test]
fn test_create_pos_map() {
    let pos = small_pos();
    assert_eq!(pos.get("envy"), Some(&strings(&["NN", "VB"])));
    // A later line for a word replaces the earlier one.
    assert_eq!(pos.get("name"), Some(&strings(&["NN"])));
    assert_eq!(pos.get("nothing"), None);
    let mut pos = PosMap::new();
    pos.insert("a".to_string(), strings(&["AT"]));
    pos.insert("a".to_string(), strings(&["AT", "NN"]));
    assert_eq!(pos.get("a"), Some(&strings(&["AT", "NN"])));
    assert_eq!(pos.entries.len(), 1);
}

#[test]
fn test_word_to_facts() {
    let pos = small_pos();
    let facts: Vec<String> = word_to_facts("envy", &pos).iter().map(|f| f.to_display_string()).collect();
    assert_eq!(facts, strings(&["word(envy, noun(envy, singular)).", "word(envy, verb(envy, present, base))."]));
    let facts: Vec<String> = word_to_facts("zyx", &pos).iter().map(|f| f.to_display_string()).collect();
    assert_eq!(facts, strings(&["word(zyx, unknown(zyx))."]));
    let facts: Vec<String> = word_to_facts(";", &pos).iter().map(|f| f.to_display_string()).collect();
    assert_eq!(facts, strings(&["word(;, semicolon(;))."]));
    assert_eq!(word_to_facts("YOU", &pos).len(), 4);
}

#[test]
fn test_make_facts() {
    let pos = small_pos();
    let words = strings(&["He", "envies"]);
    let facts: Vec<String> = make_facts(&words, &pos).iter().map(|f| f.to_display_string()).collect();
    assert_eq!(facts, strings(&["word(He, pronoun(He, subject, third, singular)).",
                                "word(envies, noun(envies, plural)).",
                                "word(envies, verb(envies, present, third_sing))."]));
}

#[test]
fn test_sentence_to_facts() {
    let pos = small_pos();
    let mut kb = KnowledgeBase::new();
    let word_list = sentence_to_facts("I know it.", &mut kb, &pos);
    assert_eq!(word_list.to_display_string(), "[I, know, it, .]");
    let s = "_____ Contents of Knowledge Base _____\n\
             word/2\n\
             \tword(I, pronoun(I, subject, first, singular)).\n\
             \tword(know, verb(know, present, base)).\n\
             \tword(it, pronoun(it, subject, third, singular)).\n\
             \tword(it, pronoun(it, object, third, singular)).\n\
             \tword(., period(.)).\n\
             ______________________________________";
    assert_eq!(s, format_kb(&kb));
}

#[test]
fn test_grammar_rules_and_query() {
    let rules = grammar_rules().unwrap();
    assert_eq!(rules.len(), 5);
    let pos = small_pos();
    let mut kb = KnowledgeBase::new();
    add_rules(&mut kb, rules);
    let sn = sentence_query("I know it.", &mut kb, &pos);
    assert_eq!(sn.query.to_display_string(), "parse([I, know, it, .], $_)");
    assert_eq!(count_rules(&kb, "word/2"), 5);
    // The facts of the previous sentence go.
    let _ = sentence_query("Envy.", &mut kb, &pos);
    assert_eq!(count_rules(&kb, "word/2"), 3);
    assert_eq!(count_rules(&kb, "make_np/2"), 3);
}

#[test]
fn test_remove_rules() {
    let mut kb = test_kb();
    remove_rules(&mut kb, "loves/2");
    assert_eq!(count_rules(&kb, "loves/2"), 0);
    assert_eq!(count_rules(&kb, "father/2"), 2);
    remove_rules(&mut kb, "nothing/9");
    assert_eq!(count_rules(&kb, "father/2"), 2);
    add_rules(&mut kb, vec![parse_rule("loves(a, b).").unwrap()]);
    assert_eq!(count_rules(&kb, "loves/2"), 1);
}
