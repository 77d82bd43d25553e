use suiron::unifiable::Unifiable;
use suiron::parse_terms::{parse_term, parse_arguments, parse_complex, parse_function, parse_functor_terms};
use suiron::s_linked_list::{make_linked_list, parse_linked_list};
use suiron::s_complex::{make_complex, make_query};
use suiron::logic_var::VarIds;
use suiron::parse_goals::get_left_and_right;
use suiron::infix::check_infix;

fn atom(s: &str) -> Unifiable { Unifiable::Atom(s.to_string()) }
fn lv(id: usize, name: &str) -> Unifiable { Unifiable::LogicVar { id, name: name.to_string() } }
fn pll(err: &str) -> String { format!("parse_linked_list() - {}", err) }

#[test]
fn test_parse_term() {
    let term = parse_term(" $_ ").unwrap();
    assert!(matches!(term, Unifiable::Anonymous), "Should create an Anonymous variable");
    assert_eq!("$_", term.to_display_string());

    match parse_term(" $X ").unwrap() {
        Unifiable::LogicVar { id, name } => {
            assert_eq!(0, id);
            assert_eq!("$X", name);
        },
        t => panic!("Should create a LogicVar: {}", t.to_display_string()),
    }
    match parse_term(" $10 ").unwrap() {
        Unifiable::Atom(s) => assert_eq!("$10", s),
        t => panic!("Should create an Atom: {}", t.to_display_string()),
    }
    let term = parse_term(" verb ").unwrap();
    assert!(matches!(term, Unifiable::Atom(_)));
    assert_eq!("verb", term.to_display_string());
    let term = parse_term(" 1.7 ").unwrap();
    assert!(matches!(term, Unifiable::SFloat(_)));
    assert_eq!("1.7", term.to_display_string());
    let term = parse_term(" 46 ").unwrap();
    assert!(matches!(term, Unifiable::SInteger(_)));
    assert_eq!("46", term.to_display_string());
    match parse_term(" animal(horse, mammal) ").unwrap() {
        Unifiable::SComplex(terms) => assert_eq!("mammal", terms[2].to_display_string()),
        t => panic!("Should create an SComplex: {}", t.to_display_string()),
    }
}

#[test]
fn test_parse_arguments() {
    let terms = parse_arguments("8, 5.9, symptom, [], [a, b | $T], city(Toronto, 2.79)").unwrap();
    match &terms[0] {
        Unifiable::SInteger(i) => assert_eq!(*i, 8, "Incorrect integer."),
        _ => panic!("Should create SInteger"),
    }
    match &terms[1] {
        Unifiable::SFloat(f) => assert_eq!(f.parse::<f64>().unwrap(), 5.9, "Incorrect float."),
        _ => panic!("Should create SFloat"),
    }
    match &terms[2] {
        Unifiable::Atom(a) => assert_eq!(a, "symptom", "Incorrect atom"),
        _ => panic!("Should create an Atom"),
    }
    match &terms[3] {
        Unifiable::SLinkedList { count, .. } => assert_eq!(*count, 0, "Should be empty list."),
        _ => panic!("Should create an empty list"),
    }
    match &terms[4] {
        Unifiable::SLinkedList { count, .. } => {
            assert_eq!(*count, 3, "Incorrect list size.");
            assert_eq!(terms[4].to_display_string(), "[a, b | $T]", "Incorrect list.");
        },
        _ => panic!("Should create a list"),
    }
    match &terms[5] {
        Unifiable::SComplex(args) => {
            assert_eq!(args.len() - 1, 2, "Complex term, incorrect arity.");
            assert_eq!(terms[5].to_display_string(), "city(Toronto, 2.79)", "Incorrect complex term.");
        },
        _ => panic!("Should create a complex term"),
    }
}

#[test]
fn test_make_linked_list() {
    let empty = make_linked_list(false, vec![]);
    match &empty {
        Unifiable::SLinkedList { term, count, .. } => {
            assert_eq!(*count, 0, "Test 1 - Count should be 0 for empty list.");
            assert!(matches!(**term, Unifiable::Nil), "Test 1 - Term should be Nil for empty list.");
        },
        _ => panic!("Test 1 - Did not produce list."),
    }
    let list1 = make_linked_list(false, vec![Unifiable::SInteger(1), Unifiable::SInteger(2),
                                             Unifiable::SInteger(3)]);
    match &list1 {
        Unifiable::SLinkedList { count, .. } => assert_eq!(*count, 3, "Test 2 - Count should be 3."),
        _ => panic!("Test 2 - Did not produce list."),
    }
    assert_eq!(list1.to_display_string(), "[1, 2, 3]", "Test 2 - Unexpected list.");

    let list2 = make_linked_list(true, vec![Unifiable::SInteger(1), Unifiable::SInteger(2),
                                            Unifiable::SInteger(3), lv(0, "$T")]);
    match &list2 {
        Unifiable::SLinkedList { count, .. } => assert_eq!(*count, 4, "Test 3 - Count should be 4."),
        _ => panic!("Test 3 - Did not produce list."),
    }
    assert_eq!(list2.to_display_string(), "[1, 2, 3 | $T]", "Test 3 - Unexpected list.");
}

#[test]
fn test_parse_linked_list() {
    assert_eq!(parse_linked_list("a, b, c").unwrap_err(), pll("Missing opening bracket [: a, b, c"));
    assert_eq!(parse_linked_list("[a, b, c").unwrap_err(), pll("Missing closing bracket ]: [a, b, c"));
    assert_eq!(parse_linked_list("[a | b | $T]").unwrap_err(), pll("Too many vertical bars: [a | b | $T]"));
    assert_eq!(parse_linked_list("[a, b, ]").unwrap_err(), pll("Missing argument: [a, b, ]"));
    assert_eq!(parse_linked_list("[a, b | ]").unwrap_err(), pll("Missing argument: [a, b | ]"));
    assert_eq!(parse_linked_list("[, b | $T]").unwrap_err(), pll("Missing argument: [, b | $T]"));
    match parse_linked_list("[a, b | $T]").unwrap() {
        Unifiable::SLinkedList { count, .. } => assert_eq!(count, 3, "{}", pll("Count should be 3.")),
        _ => panic!("{}", pll("Should produce a list.")),
    }
}

#[test]
fn test_make_complex() {
    let cmplx = make_complex(vec![atom("drinks"), atom("Picard"), atom("Earl Grey")]);
    assert_eq!(cmplx.to_display_string(), "drinks(Picard, Earl Grey)");
}

#[test]
fn test_make_query() {
    let mut ids = VarIds::new();
    let qry = make_query(vec![atom("loves"), lv(0, "$X"), lv(0, "$Y")], &mut ids);
    assert_eq!(qry.to_display_string(), "loves($X_1, $Y_2)");
}

#[test]
fn test_parse_functor_terms() {
    let c = parse_functor_terms("father", "Anakin, Luke").unwrap();
    assert!(matches!(c, Unifiable::SComplex(_)));
    assert_eq!("father(Anakin, Luke)", c.to_display_string());
}

#[test]
fn test_parse_complex() {
    let c = parse_complex("father(Anakin, Luke)").unwrap();
    assert!(matches!(c, Unifiable::SComplex(_)));
    assert_eq!("father(Anakin, Luke)", c.to_display_string());
    let c = parse_complex("punctuation(comma, \\,)").unwrap();
    assert!(matches!(c, Unifiable::SComplex(_)));
    assert_eq!("punctuation(comma, ,)", c.to_display_string());
    assert_eq!(parse_complex("father(, Luke)").unwrap_err(),
               "parse_arguments() - Missing first argument: father(, Luke)");
    assert_eq!(parse_complex("father(Anakin,)").unwrap_err(),
               "parse_arguments() - Missing last argument: father(Anakin,)");
    // Displayed with empty parentheses.
    assert_eq!("father()", parse_complex("father").unwrap().to_display_string());
}

#[test]
fn test_parse_function() {
    let sf = parse_function("add(5, 6, 7)").unwrap();
    assert!(matches!(sf, Unifiable::SFunction { .. }));
    assert_eq!("add(5, 6, 7)", sf.to_display_string());
    assert_eq!(parse_function("add").unwrap_err(), "parse_function() - Invalid function: add");
    assert_eq!(parse_function("add(, 6, 7)").unwrap_err(),
               "parse_arguments() - Missing first argument: add(, 6, 7)");
    assert_eq!(parse_function("add(5, 6, )").unwrap_err(),
               "parse_arguments() - Missing last argument: add(5, 6, )");
    assert_eq!(parse_function("add()").unwrap_err(), "parse_function - No arguments: add()");
}

#[test]
fn test_get_left_and_right() {
    let chrs: Vec<char> = "$X < 7".chars().collect();
    let (_inf, ind) = check_infix(&chrs);
    let (left, right) = get_left_and_right(chrs, ind, 1).expect("get_left_and_right() - Should not fail.");
    assert_eq!("$X", left.to_display_string());
    assert_eq!("7", right.to_display_string());
}

/// Numbers: digits within i64 are integers, digits with a period are
/// floats; a minus sign makes an atom; an escaped character stands for
/// itself.
#[test]
fn test_parse_numbers() {
    assert!(matches!(parse_term("-20").unwrap(), Unifiable::Atom(_)));
    assert!(matches!(parse_term("20").unwrap(), Unifiable::SInteger(20)));
    assert!(matches!(parse_term("99999999999999999999").unwrap(), Unifiable::Atom(_)));
    match parse_term("\\,").unwrap() {
        Unifiable::Atom(s) => assert_eq!(s, ","),
        t => panic!("Should create an Atom: {}", t.to_display_string()),
    }
    assert!(matches!(parse_term("9223372036854775807").unwrap(), Unifiable::SInteger(9223372036854775807)));
    assert!(matches!(parse_term("4.").unwrap(), Unifiable::SFloat(_)));
    assert!(matches!(parse_term("abc1").unwrap(), Unifiable::Atom(_)));
}
