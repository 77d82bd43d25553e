use suiron::infix::{check_infix, check_arithmetic_infix, Infix};
use suiron::parse_goals::indices_of_parentheses;
use suiron::parse_terms::check_quotes;
use suiron::s_complex::validate_complex;
use suiron::s_linked_list::equal_escape;
use suiron::built_in_print::format_for_print_pred;
use suiron::built_in_join::is_punctuation;
use suiron::rule::index_of_neck;
use suiron::parse_stack::{peek, pop, ParseStack};
use suiron::token::TokenType;

fn chars(s: &str) -> Vec<char> { s.chars().collect() }

#[test]
fn test_check_arithmetic_infix() {
    let chrs = chars("$X * 7");
    let (inf, ind) = check_arithmetic_infix(&chrs);
    assert_eq!(inf, Infix::Multiply);
    assert_eq!(ind, 3, "Multiply operator");
    let chrs = chars("$X / 7");
    let (inf, ind) = check_arithmetic_infix(&chrs);
    assert_eq!(inf, Infix::Divide);
    assert_eq!(ind, 3, "Divide operator");
    let chrs = chars("$X + 7");
    let (inf, ind) = check_arithmetic_infix(&chrs);
    assert_eq!(inf, Infix::Plus);
    assert_eq!(ind, 3, "Plus operator");
    let chrs = chars("$X - 7");
    let (inf, ind) = check_arithmetic_infix(&chrs);
    assert_eq!(inf, Infix::Minus);
    assert_eq!(ind, 3, "Minus operator");
    let chrs = chars("$X < 7");
    let (inf, ind) = check_arithmetic_infix(&chrs);
    assert_eq!(inf, Infix::NoInfix);
    assert_eq!(ind, 0, "Not an arithmetic operator");
    let chrs = chars("$X *7");
    let (inf, ind) = check_arithmetic_infix(&chrs);
    assert_eq!(inf, Infix::NoInfix);
    assert_eq!(ind, 0, "Missing space.");
    let chrs = chars("$X/ 7");
    let (inf, ind) = check_arithmetic_infix(&chrs);
    assert_eq!(inf, Infix::NoInfix);
    assert_eq!(ind, 0, "Missing space.");
    let chrs = chars("\"$X / 7\"");
    let (inf, ind) = check_arithmetic_infix(&chrs);
    assert_eq!(inf, Infix::NoInfix);
    assert_eq!(ind, 0, "Between quotes.");
    let chrs = chars("($X + 7)");
    let (inf, ind) = check_arithmetic_infix(&chrs);
    assert_eq!(inf, Infix::NoInfix);
    assert_eq!(ind, 0, "Between parentheses.");
}

#[test]
fn test_check_infix() {
    let (inf, ind) = check_infix(&chars("$Age >= 22"));
    assert_eq!((inf, ind), (Infix::GreaterThanOrEqual, 5));
    assert_eq!(check_infix(&chars("$X < 6")), (Infix::LessThan, 3));
    assert_eq!(check_infix(&chars("$X = verb")), (Infix::Unify, 3));
    assert_eq!(check_infix(&chars("$X == 2")), (Infix::Equal, 3));
    assert_eq!(check_infix(&chars("$X<6")), (Infix::NoInfix, 0));
    assert_eq!(check_infix(&chars("\" <= \"")), (Infix::NoInfix, 0));
    assert_eq!(check_infix(&chars("$X ==")), (Infix::NoInfix, 0));
    assert_eq!(Infix::GreaterThanOrEqual.to_display_string(), ">=");
}

#[test]
fn test_check_quotes() {
    if let Some(error_message) = check_quotes("\"\"Hello\"", 3) {
        assert_eq!(error_message, "check_quotes() - Unmatched quotes: \"\"Hello\"");
    }
    if let Some(error_message) = check_quotes("x\"Hello\"", 2) {
        assert_eq!(error_message, "check_quotes() - Text before opening quote: x\"Hello\"");
    }
    if let Some(error_message) = check_quotes("\"Hello\"x", 2) {
        assert_eq!(error_message, "check_quotes() - Text after closing quote: \"Hello\"x");
    }
    if let Some(error_message) = check_quotes("\"Hello\"", 2) {
        panic!("The string should be OK: {}", error_message);
    }
    if let Some(error_message) = check_quotes("Hello", 0) {
        panic!("The string should be OK: {}", error_message);
    }
}

#[test]
fn test_indices_of_parentheses() {
    let goal_chr = chars("parse($In, $Out)");
    match indices_of_parentheses(&goal_chr) {
        Ok(indices) => {
            match indices {
                Some(ind) => { assert_eq!((5, 15), ind, "Incorrect indices."); },
                None => { panic!("Could not get indices."); },
            }
        },
        Err(err) => { panic!("{err}"); }
    }
    let goal_chr = chars("parse");
    match indices_of_parentheses(&goal_chr) {
        Ok(indices) => {
            match indices {
                Some(_) => { panic!("Should not find indices."); },
                None => {},
            }
        },
        Err(msg) => { panic!("{}", msg); }
    }
    let goal_chr = chars("parse($In, $Out");
    let err = "indices_of_parentheses() - Unbalanced parentheses: parse($In, $Out";
    match indices_of_parentheses(&goal_chr) {
        Ok(_) => { panic!("Should produce error message."); },
        Err(msg) => { assert_eq!(err, msg, "Unexpected error message."); }
    }
    let goal_chr = chars("parse)$In, $Out(");
    let err = "indices_of_parentheses() - Invalid parentheses: parse)$In, $Out(";
    match indices_of_parentheses(&goal_chr) {
        Ok(_) => { panic!("Should produce error message."); },
        Err(msg) => { assert_eq!(err, msg, "Unexpected error message."); }
    }
}

#[test]
fn test_validate_complex() {
    let s = "aaaaaaaa";
    let chrs = chars(s);
    match validate_complex(s, &chrs) {
        Some(err) => {
            let err = format!("validate_complex() - Should not produce error: {}", err);
            panic!("{}", err);
        },
        None => {},
    }
    let s = "";
    let chrs = chars(s);
    match validate_complex(s, &chrs) {
        Some(err) => { assert_eq!(err, "Parsing error - Length of string is 0."); },
        None => { panic!("validate_complex() - Should generate error."); },
    }
    let s = "$aaaa";
    let chrs = chars(s);
    match validate_complex(s, &chrs) {
        Some(err) => { assert_eq!(err, "Parsing error - First character is invalid: $aaaa"); },
        None => { panic!("validate_complex() - Should generate error."); },
    }
    let long = "a".repeat(1001);
    assert_eq!(validate_complex(&long, &chars(&long)).unwrap(),
               format!("Parsing error - String is too long.\n{}", long));
}

#[test]
fn test_equal_escape() {
    let text = chars("OK, sure.");
    if equal_escape(&text, 2, ',') {} else { panic!("Should match with comma."); }
    let text = chars("OK\\, sure.");
    if equal_escape(&text, 3, ',') {
        panic!("Should not match with comma, because comma is escaped.");
    }
}

#[test]
fn test_format_for_print_pred() {
    let s1 = "Hello, %s. ".to_string();
    let s2 = "Dave".to_string();
    let s3 = "You're looking well today.".to_string();
    let v = vec![s1, s2, s3];
    let s = format_for_print_pred(&v);
    assert_eq!("Hello, Dave. You're looking well today.", s);
}

#[test]
fn test_format_for_print_pred_more() {
    let v = vec!["%s and %s".to_string(), "A".to_string()];
    assert_eq!(format_for_print_pred(&v), "A and ");
    let v = vec!["no specifier".to_string(), "X".to_string(), "Y".to_string()];
    assert_eq!(format_for_print_pred(&v), "no specifierXY");
}

#[test]
fn test_is_punctuation() {
    assert!(is_punctuation(","));
    assert!(is_punctuation("?"));
    assert!(!is_punctuation("a"));
    assert!(!is_punctuation(",,"));
}

#[test]
fn test_index_of_neck() {
    assert_eq!(index_of_neck(&chars("a($X) :- b($X)")), Some(6));
    assert_eq!(index_of_neck(&chars("a($X).")), None);
}

#[test]
fn test_parse_stack() {
    let mut stack: ParseStack = vec![];
    assert_eq!(peek(&mut stack), TokenType::Empty);
    assert_eq!(pop(&mut stack), TokenType::Empty);
    stack.push(TokenType::Group);
    stack.push(TokenType::Complex);
    assert_eq!(peek(&mut stack), TokenType::Complex);
    assert_eq!(pop(&mut stack), TokenType::Complex);
    assert_eq!(pop(&mut stack), TokenType::Group);
    assert_eq!(stack.len(), 0);
}

/// Text between matching parentheses is skipped, nested parentheses too.
#[test]
fn test_infix_skips_nested_parentheses() {
    assert_eq!(check_infix(&chars("f(g(a) = b)")), (Infix::NoInfix, 0));
    assert_eq!(check_arithmetic_infix(&chars("f(g(a) + b)")), (Infix::NoInfix, 0));
    assert_eq!(check_arithmetic_infix(&chars("$X * 6")), (Infix::Multiply, 3));
    assert_eq!(check_infix(&chars("f(g(a), b) = $X")), (Infix::Unify, 11));
}

/// Without quotes and parentheses, the first infix found is the one at the
/// least index.
#[test]
fn test_infix_least_index() {
    assert_eq!(check_infix(&chars("$X = $Y == $Z")), (Infix::Unify, 3));
    assert_eq!(check_infix(&chars("$X <= 5")), (Infix::LessThanOrEqual, 3));
    assert_eq!(check_infix(&chars("$X=5")), (Infix::NoInfix, 0));
    assert_eq!(check_arithmetic_infix(&chars("$X - $Y + $Z")), (Infix::Minus, 3));
}

/// Print: the pieces of the format string alternate with the strings;
/// without a specifier, all strings follow one another.
#[test]
fn test_format_for_print_pred_formula() {
    let v = vec!["%s!".to_string(), "a".to_string(), "b".to_string()];
    assert_eq!(format_for_print_pred(&v), "a!b");
    let v = vec!["<%s|%s>".to_string(), "1".to_string(), "2".to_string()];
    assert_eq!(format_for_print_pred(&v), "<1|2>");
    let v = vec!["abc".to_string(), "d".to_string(), "e".to_string()];
    assert_eq!(format_for_print_pred(&v), "abcde");
}
