use suiron::unifiable::Unifiable;
use suiron::goal::Goal;
use suiron::logic_var::VarIds;
use suiron::s_complex::parse_query;
use suiron::rule::parse_rule;
use suiron::knowledge_base::{KnowledgeBase, add_rules, test_kb};
use suiron::solver::{Outcome, Solver, make_base_node, next_solution};
use suiron::solutions::{format_solution, solve, solve_all};

const FUEL: u64 = 1_000_000;

fn query(text: &str) -> Solver {
    let mut ids = VarIds::new();
    let q = parse_query(text, &mut ids).unwrap();
    make_base_node(q, ids)
}

// get_value($X) :- $X = 1.
// get_value($X) :- $X = 2.
// test1($X) :- get_value($X), $X == 2.    // one solution
// test2($X) :- get_value($X), !, $X == 2. // no solutions
#[test]
fn test_set_no_backtracking() {
    let mut kb = KnowledgeBase::new();
    let rule1 = parse_rule("get_value($X) :- $X = 1.").unwrap();
    let rule2 = parse_rule("get_value($X) :- $X = 2.").unwrap();
    let rule3 = parse_rule("test1($X) :- get_value($X), $X == 2.").unwrap();
    let rule4 = parse_rule("test2($X) :- get_value($X), !, $X == 2.").unwrap();
    add_rules(&mut kb, vec![rule1, rule2, rule3, rule4]);

    let mut sn = query("test1($X)");
    match next_solution(&mut sn, &kb, FUEL) {
        Outcome::Solution(_) => {},
        _ => panic!("There should be 1 solution."),
    }
    let mut sn = query("test2($X)");
    match next_solution(&mut sn, &kb, FUEL) {
        Outcome::NoMore => {},
        _ => panic!("There should be no solutions."),
    }
}

#[test]
fn test_next_solution1() {
    let kb = test_kb();
    let mut sn = query("loves($Who, $Whom)");
    match next_solution(&mut sn, &kb, FUEL) {
        Outcome::Solution(ss) => assert_eq!("loves(Leonard, Penny)",
                                            sn.query.replace_variables(&ss).to_display_string()),
        _ => panic!("Who loves whom?"),
    }
    match next_solution(&mut sn, &kb, FUEL) {
        Outcome::Solution(ss) => assert_eq!("loves(Penny, Leonard)",
                                            sn.query.replace_variables(&ss).to_display_string()),
        _ => panic!("Who loves whom?"),
    }
    match next_solution(&mut sn, &kb, FUEL) {
        Outcome::NoMore => {},
        _ => panic!("The love predicate should be exhausted."),
    }
}

#[test]
fn test_next_solution2() {
    let kb = test_kb();
    let mut sn = query("grandfather($Who, $Whom)");
    match next_solution(&mut sn, &kb, FUEL) {
        Outcome::Solution(ss) => assert_eq!("grandfather(Alfred, Aethelstan)",
                                            sn.query.replace_variables(&ss).to_display_string()),
        _ => panic!("Cannot find grandfather."),
    }
    match next_solution(&mut sn, &kb, FUEL) {
        Outcome::NoMore => {},
        _ => panic!("Solutions should be exhausted."),
    }
}

#[test]
fn test_format_solution() {
    let kb = test_kb();
    let mut sn = query("loves($Who, $Whom)");
    match next_solution(&mut sn, &kb, FUEL) {
        Outcome::Solution(ss) => {
            let result = sn.query.replace_variables(&ss);
            assert_eq!("$Who = Leonard, $Whom = Penny", format_solution(&sn.query, &result));
        },
        _ => panic!("Missing Solution 1."),
    }
    match next_solution(&mut sn, &kb, FUEL) {
        Outcome::Solution(ss) => {
            let result = sn.query.replace_variables(&ss);
            assert_eq!("$Who = Penny, $Whom = Leonard", format_solution(&sn.query, &result));
        },
        _ => panic!("Missing Solution 2."),
    }
    match next_solution(&mut sn, &kb, FUEL) {
        Outcome::NoMore => {},
        _ => panic!("The solutions should be exhausted."),
    }
}

#[test]
fn test_solve() {
    let kb = test_kb();
    let mut sn = query("loves(Leonard, $Whom)");
    assert_eq!(Some("$Whom = Penny".to_string()), solve(&mut sn, &kb, FUEL));
}

#[test]
fn test_solve_all() {
    let kb = test_kb();
    let mut sn = query("loves($Who, $Whom)");
    let results = solve_all(&mut sn, &kb, FUEL);
    assert_eq!(results.len(), 2, "There should be 2 solutions.");
    assert_eq!("$Who = Leonard, $Whom = Penny", results[0]);
    assert_eq!("$Who = Penny, $Whom = Leonard", results[1]);
    assert!(sn.halted, "The search has ended.");
}

/// After the last solution, the answer is `No more.`, and stays so.
#[test]
fn test_no_more_is_final() {
    let kb = test_kb();
    let mut sn = query("loves(Leonard, $Whom)");
    assert_eq!(Some("$Whom = Penny".to_string()), solve(&mut sn, &kb, FUEL));
    assert_eq!(Some("No more.".to_string()), solve(&mut sn, &kb, FUEL));
    assert_eq!(Some("No more.".to_string()), solve(&mut sn, &kb, FUEL));
    assert_eq!(Some("No more.".to_string()), solve(&mut sn, &kb, 0));
}

/// A search cut short can be resumed, and gives what one long search gives.
#[test]
fn test_resume() {
    let kb = test_kb();
    let mut sn = query("grandfather($Who, $Whom)");
    let mut steps = 0;
    let answer = loop {
        match solve(&mut sn, &kb, 1) {
            Some(text) => break text,
            None => steps += 1,
        }
    };
    assert!(steps > 0, "One step is not enough for a solution.");
    assert_eq!("$Who = Alfred, $Whom = Aethelstan", answer);
    let mut sn2 = query("grandfather($Who, $Whom)");
    assert_eq!(Some(answer), solve(&mut sn2, &kb, FUEL));
}

/// A query with no matching rule has no solution; a query whose
/// search does not end runs out of steps.
#[test]
fn test_no_rules_and_endless_search() {
    let kb = test_kb();
    let mut sn = query("hates($Who, $Whom)");
    assert_eq!(Some("No more.".to_string()), solve(&mut sn, &kb, FUEL));

    let mut kb = KnowledgeBase::new();
    add_rules(&mut kb, vec![parse_rule("loop :- loop.").unwrap()]);
    let mut sn = query("loop");
    assert_eq!(None, solve(&mut sn, &kb, 10_000));
    assert!(!sn.halted);
}

/// What `print` and `nl` print is collected by the solver.
#[test]
fn test_output() {
    let mut kb = KnowledgeBase::new();
    add_rules(&mut kb, vec![parse_rule("greet($X) :- print(Hello, $X), nl.").unwrap()]);
    let mut sn = query("greet(World)");
    assert_eq!(Some("".to_string()), solve(&mut sn, &kb, FUEL));
    assert_eq!("HelloWorld\n", sn.take_output());
    assert_eq!("", sn.take_output());
}

/// `not` succeeds when its goal fails, and fails when it succeeds.
#[test]
fn test_not() {
    let kb = test_kb();
    let mut kb2 = KnowledgeBase::new();
    add_rules(&mut kb2, vec![
        parse_rule("person(Leonard).").unwrap(),
        parse_rule("person(Sheldon).").unwrap(),
        parse_rule("loves(Leonard, Penny).").unwrap(),
        parse_rule("lonely($X) :- person($X), not(loves($X, $_)).").unwrap(),
    ]);
    let mut sn = query("lonely($X)");
    assert_eq!(vec!["$X = Sheldon".to_string()], solve_all(&mut sn, &kb2, FUEL));
    let _ = kb;
}

/// The query of a solver made with `Solver::new` is kept.
#[test]
fn test_solver_new() {
    let mut ids = VarIds::new();
    let q = parse_query("loves($X, Penny)", &mut ids).unwrap();
    let sn = Solver::new(q, ids);
    assert_eq!("loves($X_1, Penny)", sn.query.to_display_string());
    assert!(matches!(sn.query, Goal::ComplexGoal(Unifiable::SComplex(_))));
}

/// After a cut, a query has at most the solution being built.
#[test]
fn test_cut_one_solution() {
    let mut kb = KnowledgeBase::new();
    add_rules(&mut kb, vec![
        parse_rule("num(1).").unwrap(),
        parse_rule("num(2).").unwrap(),
        parse_rule("first($X) :- num($X), !.").unwrap(),
    ]);
    let mut sn = query("first($X)");
    assert_eq!(Some("$X = 1".to_string()), solve(&mut sn, &kb, FUEL));
    assert!(sn.halted);
    assert_eq!(Some("No more.".to_string()), solve(&mut sn, &kb, FUEL));
    let mut sn = query("num($X)");
    assert_eq!(solve_all(&mut sn, &kb, FUEL), vec!["$X = 1".to_string(), "$X = 2".to_string()]);
}

/// A built-in predicate gives at most one solution: nothing is retried on
/// backtracking.
#[test]
fn test_builtin_one_solution() {
    let mut kb = KnowledgeBase::new();
    let rule = parse_rule("one($X) :- $X = a.").unwrap();
    add_rules(&mut kb, vec![rule]);
    let mut sn = query("one($X)");
    let results = solve_all(&mut sn, &kb, FUEL);
    assert_eq!(results, vec!["$X = a".to_string()]);
}

/// A cut inside a `not` leaves the `not` its guard: `p :- !, fail.`
/// fails, so `not(p)` succeeds, once.
#[test]
fn test_cut_inside_not() {
    let mut kb = KnowledgeBase::new();
    add_rules(&mut kb, vec![
        parse_rule("p(1) :- !, fail.").unwrap(),
        parse_rule("q($X) :- $X = a, not(p(1)).").unwrap(),
    ]);
    let mut sn = query("q($X)");
    assert_eq!(solve_all(&mut sn, &kb, FUEL), vec!["$X = a".to_string()]);
    assert!(sn.halted);
}

/// A cut inside a `not` whose goals succeed: the `not` fails, and the
/// choice points before the `not` are gone too.
#[test]
fn test_cut_inside_failing_not() {
    let mut kb = KnowledgeBase::new();
    add_rules(&mut kb, vec![
        parse_rule("num(1).").unwrap(),
        parse_rule("num(2).").unwrap(),
        parse_rule("p(1) :- !.").unwrap(),
        parse_rule("r($X) :- num($X), not(p(1)).").unwrap(),
    ]);
    let mut sn = query("r($X)");
    assert_eq!(solve_all(&mut sn, &kb, FUEL), Vec::<String>::new());
}

/// A query of one built-in predicate has one solution, then no more.
#[test]
fn test_builtin_query_one_solution() {
    let kb = KnowledgeBase::new();
    let goal = suiron::parse_goals::parse_subgoal("nl").unwrap();
    let mut sn = make_base_node(goal, VarIds::new());
    assert!(matches!(next_solution(&mut sn, &kb, FUEL), Outcome::Solution(_)));
    assert!(matches!(next_solution(&mut sn, &kb, FUEL), Outcome::NoMore));
    assert!(matches!(next_solution(&mut sn, &kb, FUEL), Outcome::NoMore));
}

/// After a cut, a goal still being proven goes on to its next rule when
/// the rest of the rule fails.
#[test]
fn test_cut_then_next_rule() {
    let mut kb = KnowledgeBase::new();
    add_rules(&mut kb, vec![
        parse_rule("p($X) :- $X = 1, !, fail.").unwrap(),
        parse_rule("p(2).").unwrap(),
    ]);
    let mut sn = query("p($X)");
    assert_eq!(solve_all(&mut sn, &kb, FUEL), vec!["$X = 2".to_string()]);
}

/// After a cut in a branch of an Or that then fails, the next branch is
/// tried.
#[test]
fn test_cut_then_next_branch() {
    let mut kb = KnowledgeBase::new();
    add_rules(&mut kb, vec![
        parse_rule("r($X) :- $X = 1, !, fail; $X = 2.").unwrap(),
    ]);
    let mut sn = query("r($X)");
    assert_eq!(solve_all(&mut sn, &kb, FUEL), vec!["$X = 2".to_string()]);
}
