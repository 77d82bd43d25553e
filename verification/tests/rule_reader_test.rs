use suiron::rule_reader::{strip_comments, separate_rules, check_last_char, unmatched_bracket,
                          trim_error_line, load_parse_error, read_facts_and_rules, load_kb_from_lines};
use suiron::knowledge_base::{KnowledgeBase, count_rules};
use suiron::rule::parse_rule;

#[test]
fn test_unmatched_bracket() {
    match unmatched_bracket("a_fact(a, b, c).", 0, 0) {
        Some(msg) => {
            let msg = format!("There should be no error message: {}", msg);
            panic!("{}", msg);
        },
        None => {},
    }
    match unmatched_bracket("a_fact(a, b, c.", 1, 0) {
        Some(msg) => { assert_eq!("Unmatched parenthesis: (\n\
                       Check: a_fact(a, b, c.", msg); },
        None => { panic!("Should produce an error message."); },
    }
    match unmatched_bracket("a, b, c]", 0, -1) {
        Some(msg) => { assert_eq!("Unmatched bracket: ]\n\
                       Check: a, b, c]", msg); },
        None => { panic!("Should produce an error message."); },
    }
}

#[test]
fn test_check_last_char() {
    match check_last_char("mother($M, $C);", 10) {
        Some(msg) => {
            let msg = format!("There should be no error message: {}", msg);
            panic!("{}", msg);
        },
        None => {},
    }
    match check_last_char("mother($M, $C)", 10) {
        Some(msg) => { assert_eq!("Check end of line 10: mother($M, $C)", msg); },
        None => { panic!("Should produce an error message."); },
    }
}

#[test]
fn test_strip_comments() {
    let line1 = "# This is a comment.";
    let line2 = "% Second comment.";
    let line3 = "// Third comment.";
    let line4 = "remove_punc([$H | $T], [$H | $T2]) :- \
         remove_punc($T, $T2). % Comment.";
    let line = strip_comments(line1);
    assert_eq!(line, "");
    let line = strip_comments(line2);
    assert_eq!(line, "");
    let line = strip_comments(line3);
    assert_eq!(line, "");
    let line = strip_comments(line4);
    assert_eq!(line, "remove_punc([$H | $T], [$H | $T2]) :- remove_punc($T, $T2).");
}

#[test]
fn test_separate_rules() {
    let text = "sibling($X, $Y) :- mother($Z, $X), mother($Z, $Y), !.\
        mother(Necessity, Invention). mother(Necessity, Innovation).";
    let expected = "[\"sibling($X, $Y) :- mother($Z, $X), mother($Z, $Y), !.\", \
                     \"mother(Necessity, Invention).\", \
                     \" mother(Necessity, Innovation).\"]";
    let bad_text = "sibling($X, $Y) :- mother($Z, $X), mother($Z, $Y), !.\
            mother(Necessity, Invention. mother(Necessity, Innovation).";
    let err_message = "Unmatched parenthesis: (\n\
                       Check: mother(Necessity, Invention.";
    match separate_rules(text) {
        Ok(rules) => {
            let s = format!("{:?}", rules);
            assert_eq!(expected, s);
        },
        Err(_) => { panic!("There should be no error here."); },
    }
    match separate_rules(bad_text) {
        Ok(_) => { panic!("Missing parenthesis should cause an error."); },
        Err(msg) => { assert_eq!(err_message, msg); },
    }
}

#[test]
fn test_trim_error_line() {
    let s = "Just a sentence. This should be trimmed.";
    let chrs: Vec<char> = s.chars().collect();
    let s2 = trim_error_line(&chrs);
    assert_eq!("Just a sentence.", s2, "Should trim at period.");
    let s = "Long sentence       123456789012345678901234567890\
             12345678901234567890123456789012345678901234567890\
             123456789012345678901234567890";
    let chrs: Vec<char> = s.chars().collect();
    let s2 = trim_error_line(&chrs);
    assert_eq!(100, s2.len(), "Should trim at 100 characters.");
}

#[test]
fn test_load_parse_error() {
    assert_eq!(load_parse_error("Bad.".to_string(), "".to_string()), "Bad. Check start of file.");
    assert_eq!(load_parse_error("Bad.".to_string(), "a(b).".to_string()),
               "Bad. Error occurs after: a(b).");
}

#[test]
fn test_read_facts_and_rules_from_lines() {
    let lines: Vec<String> = vec![
        "% Kings".to_string(),
        "male(Godwin).   # a fact".to_string(),
        "father($X, $Y) :-".to_string(),
        "    parent($X, $Y), male($X).".to_string(),
    ];
    let rules = read_facts_and_rules(&lines).unwrap();
    assert_eq!(rules, vec!["male(Godwin).".to_string(),
                           "father($X, $Y) :-parent($X, $Y), male($X).".to_string()]);
    let bad: Vec<String> = vec!["a(b).".to_string(), "".to_string(), "par".to_string()];
    assert_eq!(read_facts_and_rules(&bad).unwrap_err(), "Check end of line 3: par");
    let bad: Vec<String> = vec!["father($X, $Y) :- parent($X, $Y, male($X).".to_string()];
    assert_eq!(read_facts_and_rules(&bad).unwrap_err(),
               "Unmatched parenthesis: (\nCheck: father($X, $Y) :- parent($X, $Y, male($X).");
}

/// The lines of a small program about the kings of England: 24 facts and
/// rules, with comments.
fn kings_lines() -> Vec<String> {
    let text = "% Kings of England.
male(Godwin).
male(Tostig).
male(Harold).
male(Gyrth).
male(Leofwine).
male(Wulfnoth).
female(Gytha).
female(Edith).
female(Gunhild).
female(Aelfgifu).
female(Gytha2).
parent(Godwin, Harold).
parent(Godwin, Tostig).
parent(Godwin, Gyrth).
parent(Gytha, Harold).
parent(Gytha, Edith).
parent(Harold, Godwin2).
parent(Harold, Gytha2).
parent(Edith, Gunhild).   # a comment
father($X, $Y) :- parent($X, $Y), male($X).
mother($X, $Y) :- parent($X, $Y), female($X).
sibling($X, $Y) :- parent($Z, $X), parent($Z, $Y).
grandmother($X, $Y) :- parent($X, $Z), parent($Z, $Y), female($X).
// the last rule
grandfather($X, $Y) :- parent($X, $Z),
                       parent($Z, $Y), male($X).";
    text.lines().map(|l| l.to_string()).collect()
}

#[test]
fn test_read_facts_and_rules() {
    let rules = read_facts_and_rules(&kings_lines()).unwrap();
    let n = rules.len();
    assert_eq!(n, 24, "Must read all rules.");
    let last_rule = parse_rule(&rules[n - 1]).unwrap();
    let s2 = "grandfather($X, $Y) :- parent($X, $Z), parent($Z, $Y), male($X).";
    assert_eq!(last_rule.to_display_string(), s2);

    let bad1 = vec!["father($X, $Y) :- parent($X, $Y, male($X).".to_string()];
    assert_eq!(read_facts_and_rules(&bad1).unwrap_err(),
               "Unmatched parenthesis: (\nCheck: father($X, $Y) :- parent($X, $Y, male($X).");
    let bad2 = vec!["mother($X, $Y) :- parent($X, $Y), female$X).".to_string()];
    assert_eq!(read_facts_and_rules(&bad2).unwrap_err(),
               "Unmatched parenthesis: )\nCheck: mother($X, $Y) :- parent($X, $Y), female$X).");
    let bad3 = vec!["male(Godwin).".to_string(), "".to_string(), "par".to_string()];
    assert_eq!(read_facts_and_rules(&bad3).unwrap_err(), "Check end of line 3: par");
}

#[test]
fn test_load_kb_from_file() {
    let mut kb = KnowledgeBase::new();
    match load_kb_from_lines(&mut kb, &kings_lines()) {
        Some(err) => panic!("Should be no errors: {}", err),
        None => assert_eq!(5, count_rules(&kb, "female/1"), "Should be 5 facts."),
    }
    assert_eq!(6, count_rules(&kb, "male/1"));
    assert_eq!(1, count_rules(&kb, "grandfather/2"));
}

/// A rule that does not parse stops the load, naming the rule before it.
#[test]
fn test_load_errors() {
    let mut kb = KnowledgeBase::new();
    let lines = vec!["male(Godwin).".to_string(),
                     "father($X, $Y) :- parent($X, $Y) :- male($X).".to_string()];
    let err = load_kb_from_lines(&mut kb, &lines).expect("The second fact is bad.");
    assert!(err.ends_with(" Error occurs after: male(Godwin)."), "{}", err);
    assert_eq!(1, count_rules(&kb, "male/1"));

    let mut kb = KnowledgeBase::new();
    let lines = vec!["father($X, $Y) :- parent($X, $Y) :- male($X).".to_string()];
    let err = load_kb_from_lines(&mut kb, &lines).expect("The fact is bad.");
    assert!(err.ends_with(" Check start of file."), "{}", err);
}

/// With no bad line end, the facts and rules are those of the lines joined,
/// comments stripped; else the first bad line gives the error.
#[test]
fn test_read_facts_and_rules_is_separate_rules_of_joined_lines() {
    let lines: Vec<String> = vec![
        "a(1). b(2). % two facts".to_string(),
        "".to_string(),
        "c($X) :- ".to_string(),
        "    a($X).".to_string(),
    ];
    let joined = "a(1). b(2).c($X) :-a($X).";
    assert_eq!(read_facts_and_rules(&lines).unwrap(), separate_rules(joined).unwrap());
    let bad: Vec<String> = vec!["a(1).".to_string(), "b(2)".to_string(), "c(3)".to_string()];
    assert_eq!(read_facts_and_rules(&bad).unwrap_err(), "Check end of line 2: b(2)");
}
