use suiron::token::{make_leaf_token, Token, TokenType};
use suiron::tokenizer::{tokenize, group_tokens, group_and_tokens, group_or_tokens,
                        letter_number_hyphen, invalid_between_terms};

fn tokens_to_string(tokens: &Vec<Token>) -> String {
    let mut first = true;
    let mut out = "".to_string();
    for token in tokens {
        if !first { out += " "; } else { first = false; }
        let token_type = token.get_type();
        if token_type == TokenType::Subgoal {
            out += &token.get_token_str();
        } else {
            let s = token_type.to_display_string();
            out += &s.to_uppercase();
        }
    }
    out
}

fn make_test_tokens() -> Vec<Token> {
    let c1 = make_leaf_token("a(1)");
    let c2 = make_leaf_token("b(2)");
    let c3 = make_leaf_token("c(3)");
    let c4 = make_leaf_token("d(4)");
    let c5 = make_leaf_token("d(5)");
    let com1 = make_leaf_token(",");
    let com2 = make_leaf_token(",");
    let com3 = make_leaf_token(",");
    let sem = make_leaf_token(";");
    let lp = make_leaf_token("(");
    let rp = make_leaf_token(")");
    vec![c1, com1, c2, com2, lp, c3, sem, c4, rp, com3, c5]
}

#[test]
fn test_tokens_to_string() {
    let tokens = make_test_tokens();
    let s1 = "a(1) COMMA b(2) COMMA LPAREN c(3) SEMICOLON d(4) RPAREN COMMA d(5)";
    let s2 = tokens_to_string(&tokens);
    assert_eq!(s1, s2);
}

#[test]
fn test_group_tokens() {
    let test_tokens = make_test_tokens();
    let token = group_tokens(&test_tokens, 0);
    assert_eq!(token.to_display_string(),
        "GROUP > SUBGOAL(a(1)) COMMA SUBGOAL(b(2)) COMMA GROUP SUBGOAL(d(5))");
    let token = group_and_tokens(token);
    assert_eq!(token.to_display_string(), "GROUP > AND");
    let child = &token.get_children()[0];
    assert_eq!(child.to_display_string(),
        "AND > SUBGOAL(a(1)) SUBGOAL(b(2)) GROUP SUBGOAL(d(5))");
    let children = child.get_children();
    let child = &children[2];
    assert_eq!(child.to_display_string(), "GROUP > OR");
    let child = &child.get_children()[0];
    assert_eq!(child.to_display_string(), "OR > SUBGOAL(c(3)) SUBGOAL(d(4))");
}

fn make_test_tokens2() -> Vec<Token> {
    let c1 = make_leaf_token("a(1)");
    let c2 = make_leaf_token("b(2)");
    let c3 = make_leaf_token("c(3)");
    let c4 = make_leaf_token("d(4)");
    let com1 = make_leaf_token(",");
    let com2 = make_leaf_token(",");
    let sem = make_leaf_token(";");
    vec![c1, com1, c2, sem, c3, com2, c4]
}

#[test]
fn test_group_tokens2() {
    let test_tokens = make_test_tokens2();
    let token = group_tokens(&test_tokens, 0);
    assert_eq!(token.to_display_string(),
         "GROUP > SUBGOAL(a(1)) COMMA SUBGOAL(b(2)) \
         SEMICOLON SUBGOAL(c(3)) COMMA SUBGOAL(d(4))");
    let token = group_and_tokens(token);
    assert_eq!(token.to_display_string(), "GROUP > AND SEMICOLON AND");
    let token = group_or_tokens(token);
    assert_eq!(token.to_display_string(), "GROUP > OR");
}

fn make_test_tokens3() -> Vec<Token> {
    let c1 = make_leaf_token("a(1)");
    let c2 = make_leaf_token("b(2)");
    let c3 = make_leaf_token("c(3)");
    let c4 = make_leaf_token("d(4)");
    let com = make_leaf_token(",");
    let sem1 = make_leaf_token(";");
    let sem2 = make_leaf_token(";");
    let lp = make_leaf_token("(");
    let rp = make_leaf_token(")");
    vec![c1, sem1, lp, c2, com, c3, sem2, c4, rp]
}

#[test]
fn test_group_tokens3() {
    let test_tokens = make_test_tokens3();
    let token = group_tokens(&test_tokens, 0);
    let token = group_and_tokens(token);
    let token = group_or_tokens(token);
    assert_eq!(token.to_display_string(), "GROUP > OR");
    let child = &token.get_children()[0];
    assert_eq!(child.to_display_string(), "OR > SUBGOAL(a(1)) GROUP");
    let child = &child.get_children()[1];
    let child = &child.get_children()[0];
    assert_eq!(child.to_display_string(), "OR > AND SUBGOAL(d(4))");
    let child = &child.get_children()[0];
    assert_eq!(child.to_display_string(), "AND > SUBGOAL(b(2)) SUBGOAL(c(3))");
}

#[test]
fn test_tokenize() {
    let s = "a(1, 2), b(3, 4); c(5, 6), c(7, 8)";
    match tokenize(s) {
        Ok(tokens) => {
            let s = tokens_to_string(&tokens);
            assert_eq!(s, "a(1, 2) COMMA b(3, 4) SEMICOLON c(5, 6) COMMA c(7, 8)");
        },
        Err(err) => { panic!("Should create tokens: {}", err); },
    }
    let s = "a(1, 2), b(3, 4";
    match tokenize(s) {
        Ok(_tokens) => { panic!("Missing parenthesis. Should not create tokens."); },
        Err(err) => { assert_eq!(err, "tokenize() - Invalid term: a(1, 2), b(3, 4"); },
    }
    let s = "$X = 1, 2, 3]";
    match tokenize(s) {
        Ok(_tokens) => { panic!("Missing parenthesis. Should not create tokens."); },
        Err(err) => { assert_eq!(err, "tokenize() - Unmatched bracket: $X = 1, 2, 3]"); },
    }
}

#[test]
fn test_tokenize_errors_and_groups() {
    assert_eq!(tokenize("   ").unwrap_err(), "tokenize() - String is empty.");
    assert_eq!(tokenize("a), b").unwrap_err(), "tokenize() - Unmatched parenthesis: a), b");
    assert_eq!(tokenize("a # b").unwrap_err(), "tokenize() - Invalid character: a # b");
    assert_eq!(tokenize("[a)").unwrap_err(), "tokenize() - Unmatched parenthesis: [a)");
    assert_eq!(tokenize("(a]").unwrap_err(), "Tokenize() - Unmatched bracket: (a]");
    let tokens = tokenize("(a; b), c").unwrap();
    assert_eq!(tokens_to_string(&tokens), "LPAREN a SEMICOLON b RPAREN COMMA c");
    // Quoted text is skipped.
    let tokens = tokenize("p(\"x, y\"), q").unwrap();
    assert_eq!(tokens_to_string(&tokens), "p(\"x, y\") COMMA q");
}

#[test]
fn test_character_classes() {
    assert!(letter_number_hyphen('a'));
    assert!(letter_number_hyphen('-'));
    assert!(letter_number_hyphen('Ж'));
    assert!(!letter_number_hyphen(' '));
    assert!(invalid_between_terms('@'));
    assert!(!invalid_between_terms(','));
}

/// A group gives its tokens once: the text after the closing parenthesis
/// starts after it.
#[test]
fn test_tokenize_group_once() {
    let tokens = tokenize("(mother($X, $Y); father($X, $Y))").unwrap();
    assert_eq!(tokens.len(), 5);
    assert_eq!(tokens_to_string(&tokens),
               "LPAREN mother($X, $Y) SEMICOLON father($X, $Y) RPAREN");
    let tokens = tokenize("a, (b; c), d").unwrap();
    assert_eq!(tokens_to_string(&tokens), "a COMMA LPAREN b SEMICOLON c RPAREN COMMA d");
}
