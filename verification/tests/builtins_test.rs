use suiron::unifiable::Unifiable;
use suiron::goal::{Goal, Operator, BuiltInPredicate};
use suiron::logic_var::{VarIds, VarMap};
use suiron::s_complex::{parse_query, make_query};
use suiron::parse_terms::{parse_complex, parse_arguments};
use suiron::parse_goals::{parse_subgoal, make_goal};
use suiron::rule::{parse_rule, make_rule, make_fact, Rule};
use suiron::knowledge_base::{KnowledgeBase, add_rules};
use suiron::substitution_set::{empty_ss, get_ground_term, SubstitutionSet};
use suiron::s_linked_list::make_linked_list;
use suiron::solver::{Outcome, Solver, make_base_node, next_solution};
use suiron::solutions::{solve, solve_all};
use suiron::unify::evaluate_function;

const FUEL: u64 = 1_000_000;

fn atom(s: &str) -> Unifiable { Unifiable::Atom(s.to_string()) }
fn lv(name: &str) -> Unifiable { Unifiable::LogicVar { id: 0, name: name.to_string() } }
fn scomplex(terms: Vec<Unifiable>) -> Unifiable { Unifiable::SComplex(terms) }
fn pred(functor: &str, terms: Vec<Unifiable>) -> Goal {
    Goal::BuiltInGoal(BuiltInPredicate::new(functor.to_string(), Some(terms)))
}
fn pred0(functor: &str) -> Goal {
    Goal::BuiltInGoal(BuiltInPredicate::new(functor.to_string(), None))
}
fn unify(left: Unifiable, right: Unifiable) -> Goal { pred("unify", vec![left, right]) }
fn and_goal(goals: Vec<Goal>) -> Goal { Goal::OperatorGoal(Operator::And(goals)) }
fn goal(text: &str) -> Goal { parse_subgoal(text).unwrap() }

fn base(terms: Vec<Unifiable>) -> Solver {
    let mut ids = VarIds::new();
    let q = make_query(terms, &mut ids);
    make_base_node(q, ids)
}

fn base_text(text: &str) -> Solver {
    let mut ids = VarIds::new();
    let q = parse_query(text, &mut ids).unwrap();
    make_base_node(q, ids)
}

/// The ground term of the query's argument `i` in a solution.
fn ground_arg(sn: &Solver, ss: &SubstitutionSet, i: usize) -> Option<Unifiable> {
    match &sn.query {
        Goal::ComplexGoal(Unifiable::SComplex(ts)) => get_ground_term(&ts[i], ss).map(|t| t.clone()),
        _ => None,
    }
}

fn add(kb: &mut KnowledgeBase, rules: Vec<Rule>) { add_rules(kb, rules); }

#[test]
fn test_and_or() {
    let mut kb = KnowledgeBase::new();
    let facts = ["father(George, Frank)", "father(George, Sam)", "mother(Gina, Frank)",
                 "mother(Gina, Sam)", "mother(Maria, Marcus)", "father(Frank, Marcus)"];
    add(&mut kb, facts.iter().map(|f| make_fact(parse_complex(f).unwrap())).collect());

    let r1 = make_rule(parse_complex("parent($X, $Y)").unwrap(),
                       Goal::OperatorGoal(Operator::Or(vec![goal("father($X, $Y)"), goal("mother($X, $Y)")])));
    let r2 = make_rule(parse_complex("relative($X, $Y)").unwrap(),
                       Goal::OperatorGoal(Operator::Or(vec![goal("grandfather($X, $Y)"), goal("father($X, $Y)"),
                                                            goal("grandmother($X, $Y)"), goal("mother($X, $Y)")])));
    let r3 = make_rule(parse_complex("grandfather($X, $Y)").unwrap(),
                       Goal::OperatorGoal(Operator::And(vec![goal("father($X, $Z)"), goal("parent($Z, $Y)")])));
    add(&mut kb, vec![r1, r2, r3]);

    let mut sn = base_text("relative($X, Marcus)");
    let results = solve_all(&mut sn, &kb, FUEL);
    assert_eq!(results, ["$X = George", "$X = Frank", "$X = Maria"]);
}

#[test]
fn test_backchaining() {
    let mut kb = KnowledgeBase::new();
    let people = [("Charles", "Tony"), ("Bill", "Audrey"), ("Maria", "Bill"), ("Tony", "Maria")];
    add(&mut kb, people.iter()
        .map(|(a, b)| make_fact(scomplex(vec![atom("parent"), atom(a), atom(b)]))).collect());
    let r1 = make_rule(scomplex(vec![atom("ancestor"), lv("$X"), lv("$Y")]),
                       Goal::ComplexGoal(scomplex(vec![atom("parent"), lv("$X"), lv("$Y")])));
    let r2 = make_rule(scomplex(vec![atom("ancestor"), lv("$X"), lv("$Y")]),
                       and_goal(vec![Goal::ComplexGoal(scomplex(vec![atom("parent"), lv("$X"), lv("$Z")])),
                                     Goal::ComplexGoal(scomplex(vec![atom("ancestor"), lv("$Z"), lv("$Y")]))]));
    add(&mut kb, vec![r1, r2]);

    let mut sn = base(vec![atom("ancestor"), atom("Charles"), lv("$X")]);
    let solutions = solve_all(&mut sn, &kb, FUEL);
    let s1 = "[\"$X = Tony\", \"$X = Maria\", \"$X = Bill\", \"$X = Audrey\"]";
    assert_eq!(s1, format!("{:?}", solutions));
}

#[test]
fn test_fail() {
    let f: Vec<Rule> = (1..=3).map(|i| make_fact(scomplex(vec![atom("num"), Unifiable::SInteger(i)]))).collect();
    // test($X) :- num($X), print($X), fail.
    let r1 = make_rule(scomplex(vec![atom("test"), lv("$X")]),
                       and_goal(vec![goal("num($X)"), pred("print", vec![lv("$X")]), pred0("fail")]));
    // test($X) :- nl, $X = 4.
    let r2 = make_rule(scomplex(vec![atom("test"), lv("$X")]),
                       and_goal(vec![pred0("nl"), unify(lv("$X"), Unifiable::SInteger(4))]));
    let mut kb = KnowledgeBase::new();
    add(&mut kb, f);
    add(&mut kb, vec![r1, r2]);

    let mut sn = base(vec![atom("test"), lv("$X")]);
    let result = solve(&mut sn, &kb, FUEL).unwrap();
    assert_eq!("$X = 4", result);
    assert_eq!("123\n", sn.take_output());
}

#[test]
fn test_atom() {
    let a1 = atom("This is an atom.");
    let a2 = atom("This is an atom.");
    let a3 = atom("Just another.");
    let ss = empty_ss();
    let ss = a1.unify(&a2, &ss).expect("Unification must succeed: a1 = a2");
    let ss = a1.unify(&Unifiable::Anonymous, &ss).expect("Unification must succeed: a1 = $_");
    assert!(a1.unify(&a3, &ss).is_none(), "Unification must fail: a1 != a3");
    assert_eq!(ss.len(), 0, "Unification must not change substitution set.");
}

#[test]
fn test_integer() {
    let i1 = Unifiable::SInteger(45);
    let i2 = Unifiable::SInteger(45);
    let i3 = Unifiable::SInteger(46);
    let ss = empty_ss();
    let ss = i1.unify(&i2, &ss).expect("Unification must succeed: i1 = i2");
    assert!(i1.unify(&i3, &ss).is_none(), "Unification must fail: i1 != i3");
    assert_eq!(ss.len(), 0, "Unification must not change substitution set.");
}

#[test]
fn test_float() {
    let a1 = atom("An atom.");
    let i1 = Unifiable::SInteger(45);
    let f1 = Unifiable::SFloat("45.0".to_string());
    let f2 = Unifiable::SFloat("45.0".to_string());
    let f3 = Unifiable::SFloat("45.0000000001".to_string());
    let ss = empty_ss();
    let ss = f1.unify(&f2, &ss).expect("Unification must succeed: f1 = f2");
    assert!(f1.unify(&f3, &ss).is_none(), "Unification must fail: f1 != f3");
    assert!(f1.unify(&a1, &ss).is_none(), "Unification must fail: f1 != a1");
    assert!(f1.unify(&i1, &ss).is_none(), "Unification must fail: f1 != i1");
    assert_eq!(ss.len(), 0, "Unification must not change substitution set.");
}

fn list_of_people() -> Unifiable {
    let people = [("male", "Sheldon"), ("male", "Leonard"), ("male", "Raj"), ("male", "Howard"),
                  ("female", "Penny"), ("female", "Bernadette"), ("female", "Amy")];
    make_linked_list(false, people.iter().map(|(s, n)| scomplex(vec![atom(s), atom(n)])).collect())
}

#[test]
fn test_filter() {
    let mut kb = KnowledgeBase::new();
    let r1 = make_rule(scomplex(vec![atom("get_people"), lv("$X")]), unify(lv("$X"), list_of_people()));
    let filter = scomplex(vec![atom("female"), Unifiable::Anonymous]);
    let r2 = make_rule(scomplex(vec![atom("list_wimmin"), lv("$W")]),
                       and_goal(vec![goal("get_people($X)"),
                                     pred("include", vec![filter, lv("$X"), lv("$W")])]));
    let filter = scomplex(vec![atom("female"), Unifiable::Anonymous]);
    let r3 = make_rule(scomplex(vec![atom("list_nerds"), lv("$N")]),
                       and_goal(vec![goal("get_people($X)"),
                                     pred("exclude", vec![filter, lv("$X"), lv("$N")])]));
    add(&mut kb, vec![r1, r2, r3]);

    let mut sn = base(vec![atom("list_wimmin"), lv("$W")]);
    assert_eq!("$W = [female(Penny), female(Bernadette), female(Amy)]", solve(&mut sn, &kb, FUEL).unwrap());
    let mut sn = base(vec![atom("list_nerds"), lv("$N")]);
    assert_eq!("$N = [male(Sheldon), male(Leonard), male(Raj), male(Howard)]",
               solve(&mut sn, &kb, FUEL).unwrap());
}

#[test]
fn test_join() {
    let mut kb = KnowledgeBase::new();
    let join_function = Unifiable::SFunction {
        name: "join".to_string(),
        terms: vec![lv("$D1"), lv("$D2"), lv("$D3"), lv("$D4"), lv("$D5")],
    };
    let body = and_goal(vec![unify(lv("$D1"), atom("coffee")), unify(lv("$D2"), atom(",")),
                             unify(lv("$D3"), atom("tea")), unify(lv("$D4"), atom("or")),
                             unify(lv("$D5"), atom("juice")), unify(lv("$Out"), join_function)]);
    add(&mut kb, vec![make_rule(scomplex(vec![atom("would_you_like"), lv("$Out")]), body)]);
    let mut sn = base(vec![atom("would_you_like"), lv("$X")]);
    let solution = solve(&mut sn, &kb, FUEL).unwrap();
    assert_eq!("\"$X = coffee, tea or juice\"", format!("{:?}", solution));

    let mut kb = KnowledgeBase::new();
    let rule = parse_rule("would_you_like($Out) :- $D1 = coffee, $D2 = \\,, \
                           $D3 = tea, $D4 = or, $D5 = juice, \
                           $Out = join($D1, $D2, $D3, $D4, $D5).")
        .expect("Should be no parsing errors.");
    add(&mut kb, vec![rule]);
    let mut sn = base(vec![atom("would_you_like"), lv("$X")]);
    assert_eq!("$X = coffee, tea or juice", solve(&mut sn, &kb, FUEL).unwrap());
}

/// count() counts the items of a list, following a tail variable.
#[test]
fn count_test_test_count() {
    let mut kb = KnowledgeBase::new();
    let c = || lv("$Count");
    let tc = || scomplex(vec![atom("test_count"), lv("$Count")]);
    let r1 = make_rule(tc(), pred("count", vec![make_linked_list(false, vec![]), c()]));
    let list = make_linked_list(false, vec![atom("a"), atom("b"), atom("c")]);
    let r2 = make_rule(tc(), pred("count", vec![list, c()]));
    let list = make_linked_list(true, vec![atom("a"), Unifiable::Anonymous]);
    let r3 = make_rule(tc(), pred("count", vec![list, c()]));
    let list1 = make_linked_list(false, vec![atom("green"), atom("blue")]);
    let list2 = make_linked_list(false, vec![atom("red"), list1]);
    let r4 = make_rule(tc(), pred("count", vec![list2, c()]));

    let list1 = make_linked_list(false, vec![atom("one"), atom("two"), atom("three")]);
    let list2 = make_linked_list(true, vec![atom("red"), atom("green"), atom("blue"), lv("$TailVar")]);
    let r5 = make_rule(tc(), and_goal(vec![unify(lv("$TailVar"), list1), unify(lv("$NewList"), list2),
                                           pred("count", vec![lv("$NewList"), c()])]));
    let list = make_linked_list(true, vec![atom("red"), atom("green"), atom("blue"), lv("$TailVar")]);
    let r6 = make_rule(tc(), and_goal(vec![unify(lv("$TailVar"), make_linked_list(false, vec![])),
                                           unify(lv("$NewList"), list),
                                           pred("count", vec![lv("$NewList"), c()])]));
    add(&mut kb, vec![r1, r2, r3, r4, r5, r6]);

    let mut sn = base(vec![atom("test_count"), lv("$X")]);
    let mut results: Vec<i64> = vec![];
    loop {
        match next_solution(&mut sn, &kb, FUEL) {
            Outcome::Solution(ss) => {
                if let Some(Unifiable::SInteger(i)) = ground_arg(&sn, &ss, 1) {
                    results.push(i);
                }
            },
            Outcome::NoMore => break,
            Outcome::OutOfSteps => panic!("Query timed out."),
        }
    }
    assert_eq!("[0, 3, 2, 3, 6, 3]", format!("{:?}", results));
}

/// count() of a list of three atoms.
#[test]
fn built_in_count_test_count() {
    let mut kb = KnowledgeBase::new();
    let list = make_linked_list(false, vec![atom("a"), atom("b"), atom("c")]);
    let rule1 = make_rule(scomplex(vec![atom("test_count"), lv("$Count")]),
                          pred("count", vec![list, lv("$Count")]));
    add(&mut kb, vec![rule1]);
    let mut sn = base(vec![atom("test_count"), lv("$X")]);
    assert_eq!("$X = 3", solve(&mut sn, &kb, FUEL).unwrap());
}

/// append() joins terms and lists into one list.
#[test]
fn built_in_append_test_append() {
    let kb = KnowledgeBase::new();
    let args = parse_arguments("3.14159, [A, B, C], 6, $Out").unwrap();
    let append_pred = make_goal("append", args);
    let mut ids = VarIds::new();
    let mut var_map = VarMap::new();
    let append_pred = append_pred.recreate_variables(&mut var_map, &mut ids);
    let mut sn = Solver::new(append_pred, ids);
    match next_solution(&mut sn, &kb, FUEL) {
        Outcome::Solution(ss) => {
            let term = ss[1].clone().unwrap();
            assert_eq!("[3.14159, A, B, C, 6]", term.to_display_string());
        },
        _ => panic!("Append() should join terms together."),
    }
}

#[test]
fn append_test_test_append() {
    // test_append($Out) :- $X = red, $Y = [green, blue, purple],
    //                      append($X, orange, $Y, $Out).
    let mut kb = KnowledgeBase::new();
    let list = make_linked_list(false, vec![atom("green"), atom("blue"), atom("purple")]);
    let body = and_goal(vec![unify(lv("$X"), atom("red")), unify(lv("$Y"), list),
                             pred("append", vec![lv("$X"), atom("orange"), lv("$Y"), lv("$Out")])]);
    add(&mut kb, vec![make_rule(scomplex(vec![atom("test_append"), lv("$Out")]), body)]);
    let mut sn = base(vec![atom("test_append"), lv("$Out")]);
    match next_solution(&mut sn, &kb, FUEL) {
        Outcome::Solution(ss) => {
            let result = ground_arg(&sn, &ss, 1).expect("No solution.");
            assert_eq!("[red, orange, green, blue, purple]", result.to_display_string());
        },
        _ => panic!("No solution."),
    }

    let rule = parse_rule("test_append2($Out) :- $X = raspberry, \
               append(cherry, [strawberry, blueberry], $X, $Out).").unwrap();
    add(&mut kb, vec![rule]);
    let mut sn = base_text("test_append2($Z)");
    match next_solution(&mut sn, &kb, FUEL) {
        Outcome::Solution(ss) => {
            let result = ground_arg(&sn, &ss, 1).expect("No solution.");
            assert_eq!("[cherry, strawberry, blueberry, raspberry]", result.to_display_string());
        },
        _ => panic!("No solution."),
    }
}

#[test]
fn functor_test_test_functor() {
    let mut kb = KnowledgeBase::new();
    // get($Y) :- functor(mouse(mammal, rodent), $X), $X = $Y.
    let m = scomplex(vec![atom("mouse"), atom("mammal"), atom("rodent")]);
    let rule1 = make_rule(scomplex(vec![atom("get"), lv("$Y")]),
                          and_goal(vec![pred("functor", vec![m, lv("$X")]), unify(lv("$X"), lv("$Y"))]));
    // get($Y) :- $X = cat(mammal, carnivore), functor($X, $Y).
    let rule2 = parse_rule("get($Y) :- $X = cat(mammal, carnivore), functor($X, $Y).").unwrap();
    add(&mut kb, vec![rule1, rule2]);
    let mut sn = base(vec![atom("get"), lv("$X")]);
    let solutions = solve_all(&mut sn, &kb, FUEL);
    assert_eq!("$X = mouse", solutions[0]);
    assert_eq!("$X = cat", solutions[1]);

    // check_arity($X, $Y) :- functor(diamonds(forever, a girl's best friend), $X, $Y).
    let mineral = parse_complex("diamonds(forever, a girl's best friend)").unwrap();
    let rule3 = make_rule(scomplex(vec![atom("check_arity"), lv("$X"), lv("$Y")]),
                          pred("functor", vec![mineral, lv("$X"), lv("$Y")]));
    add(&mut kb, vec![rule3]);
    let mut sn = base(vec![atom("check_arity"), lv("$X"), lv("$Y")]);
    assert_eq!("$X = diamonds, $Y = 2", solve(&mut sn, &kb, FUEL).unwrap());

    let symptom = || parse_complex("symptom(cold, sneezing)").unwrap();
    let head = || scomplex(vec![atom("test_functor"), lv("$Y")]);
    let rule4 = make_rule(head(), and_goal(vec![unify(lv("$X"), symptom()),
                                                pred("functor", vec![lv("$X"), atom("symptom")]),
                                                unify(lv("$Y"), atom("Success #1"))]));
    let not_op = Goal::OperatorGoal(Operator::Not(vec![pred("functor", vec![lv("$X"), atom("symptoms")])]));
    let rule5 = make_rule(head(), and_goal(vec![unify(lv("$X"), symptom()), not_op,
                                                unify(lv("$Y"), atom("Success #2"))]));
    let rule6 = make_rule(head(), and_goal(vec![unify(lv("$X"), symptom()),
                                                pred("functor", vec![lv("$X"), atom("symp*")]),
                                                unify(lv("$Y"), atom("Success #3"))]));
    add(&mut kb, vec![rule4, rule5, rule6]);
    let mut sn = base(vec![atom("test_functor"), lv("$X")]);
    let solutions = solve_all(&mut sn, &kb, FUEL);
    assert_eq!("$X = Success #1", solutions[0]);
    assert_eq!("$X = Success #2", solutions[1]);
    assert_eq!("$X = Success #3", solutions[2]);
}

/// The unit test of the functor module: an append() goal solved alone.
#[test]
fn built_in_functor_test_functor() {
    let kb = KnowledgeBase::new();
    let append_pred = parse_subgoal("append(3.14159, [A, B, C], 6, $Out)").unwrap();
    let mut ids = VarIds::new();
    let mut var_map = VarMap::new();
    let append_pred = append_pred.recreate_variables(&mut var_map, &mut ids);
    let mut sn = Solver::new(append_pred, ids);
    match next_solution(&mut sn, &kb, FUEL) {
        Outcome::Solution(ss) => {
            let term = ss[1].clone().unwrap();
            assert_eq!("[3.14159, A, B, C, 6]", term.to_display_string());
        },
        _ => panic!("Append() should join terms together."),
    }
}

/// functor() binds the functor and the arity of a complex term.
#[test]
fn test_functor_arity() {
    let kb = KnowledgeBase::new();
    let goal = parse_subgoal("functor(boss(Zack, Stephen), $Func, $Arity)").unwrap();
    let mut ids = VarIds::new();
    let mut var_map = VarMap::new();
    let goal = goal.recreate_variables(&mut var_map, &mut ids);
    let mut sn = Solver::new(goal, ids);
    match next_solution(&mut sn, &kb, FUEL) {
        Outcome::Solution(ss) => {
            assert_eq!("boss", ss[1].clone().unwrap().to_display_string());
            assert_eq!("2", ss[2].clone().unwrap().to_display_string());
        },
        _ => panic!("functor() should succeed."),
    }
    // The wrong arity fails.
    let goal = parse_subgoal("functor(boss(Zack, Stephen), boss, 3)").unwrap();
    let mut sn = Solver::new(goal, VarIds::new());
    assert!(matches!(next_solution(&mut sn, &kb, FUEL), Outcome::NoMore));
}

/// Integer arithmetic by functions, and its failures.
#[test]
fn test_integer_arithmetic() {
    let mut kb = KnowledgeBase::new();
    add(&mut kb, vec![
        parse_rule("calc($X, $Y, $Out) :- $A = $X + $Y, $B = $A - 6, $C = $B * 3, $Out = $C / 2.").unwrap(),
    ]);
    let mut sn = base_text("calc(3, 7, $R)");
    assert_eq!("$R = 6", solve(&mut sn, &kb, FUEL).unwrap());
    let mut sn = base_text("calc(3, 1, $R)");
    assert_eq!("$R = -3", solve(&mut sn, &kb, FUEL).unwrap());
    // Division by zero fails.
    add(&mut kb, vec![parse_rule("div($X, $Out) :- $Out = $X / 0.").unwrap()]);
    let mut sn = base_text("div(3, $R)");
    assert_eq!("No more.", solve(&mut sn, &kb, FUEL).unwrap());
}

/// Comparisons of integers and atoms.
#[test]
fn test_integer_and_atom_comparison() {
    let mut kb = KnowledgeBase::new();
    add(&mut kb, vec![
        parse_rule("gt($X, $Y, $Z) :- $X > $Y, !, $Z = passed.").unwrap(),
        parse_rule("gt($_, $_, $Z) :- $Z = failed.").unwrap(),
        parse_rule("le($X, $Y, $Z) :- $X <= $Y, !, $Z = passed.").unwrap(),
        parse_rule("le($_, $_, $Z) :- $Z = failed.").unwrap(),
    ]);
    let run = |q: &str, kb: &KnowledgeBase| {
        let mut sn = base_text(q);
        solve(&mut sn, kb, FUEL).unwrap()
    };
    assert_eq!("$Z = passed", run("gt(4, 3, $Z)", &kb));
    assert_eq!("$Z = passed", run("gt(Beth, Albert, $Z)", &kb));
    assert_eq!("$Z = failed", run("gt(2, 3, $Z)", &kb));
    assert_eq!("$Z = passed", run("le(Joseph, Joseph, $Z)", &kb));
    assert_eq!("$Z = failed", run("le(7, -20, $Z)", &kb));
}

#[test]
fn test_format_slist() {
    let list = suiron::parse_terms::parse_term("[Α, Β, Γ, Δ]").unwrap();
    let ss = empty_ss();
    assert_eq!(suiron::built_in_print_list::format_slist(&list, &ss), "Α, Β, Γ, Δ");
}

#[test]
fn test_next_solution_print_list() {
    let mut kb = KnowledgeBase::new();
    let rule = parse_rule("test :- $X = Δ, $L = [Α, Β, Γ, $X], print_list($L), nl.").unwrap();
    add(&mut kb, vec![rule]);
    let goal = parse_subgoal("test").unwrap();
    let mut sn = Solver::new(goal, VarIds::new());
    let s = "----- Substitution Set -----\n\
             0\tNone\n\
             1\tΔ\n\
             2\t[Α, Β, Γ, $X_1]\n\
             ----------------------------";
    match next_solution(&mut sn, &kb, FUEL) {
        Outcome::Solution(ss) => assert_eq!(s, suiron::substitution_set::format_ss(&ss)),
        _ => panic!("print_list(): No solution."),
    }
    assert_eq!("Α, Β, Γ, Δ\n\n", sn.take_output());
}

/// print_list shows lists after the first on new lines, following a
/// tail variable, and other terms by their text.
#[test]
fn test_print_list_more() {
    let mut kb = KnowledgeBase::new();
    add(&mut kb, vec![parse_rule("show :- $T = [c, d], $L = [a, b | $T], print_list($L, x, [e]).").unwrap()]);
    let mut sn = base_text("show");
    assert_eq!(Some("".to_string()), solve(&mut sn, &kb, FUEL));
    assert_eq!("a, b, c, d\nx\n,\ne\n", sn.take_output());
}

/// Atoms may be upper or lower case and hold spaces; `_` is an atom;
/// variables start with a dollar sign.
#[test]
fn test_atoms_and_variables() {
    let c = parse_complex("mother(June, The Beaver)").unwrap();
    assert_eq!(c.to_display_string(), "mother(June, The Beaver)");
    match c {
        Unifiable::SComplex(ts) => assert!(matches!(&ts[2], Unifiable::Atom(s) if s == "The Beaver")),
        _ => panic!("Should be a complex term."),
    }
    assert!(matches!(suiron::parse_terms::parse_term("_").unwrap(), Unifiable::Atom(_)));
    assert!(matches!(suiron::parse_terms::parse_term("$_").unwrap(), Unifiable::Anonymous));
    assert!(matches!(suiron::parse_terms::parse_term("$Child").unwrap(), Unifiable::LogicVar { .. }));
}

/// Lists unify as in Prolog: [a, b, c, d] = [$Head | $Tail].
#[test]
fn test_list_unification() {
    let mut kb = KnowledgeBase::new();
    add(&mut kb, vec![parse_rule("split($H, $T) :- [a, b, c, d] = [$H | $T].").unwrap()]);
    let mut sn = base_text("split($Head, $Tail)");
    assert_eq!("$Head = a, $Tail = [b, c, d]", solve(&mut sn, &kb, FUEL).unwrap());
}

/// voter($P) :- $P = person($_, $Age), $Age >= 18.
#[test]
fn test_voter() {
    let mut kb = KnowledgeBase::new();
    add(&mut kb, vec![
        parse_rule("voter($P) :- $P = person($_, $Age), $Age >= 18.").unwrap(),
        parse_rule("someone(person(Ann, 34)).").unwrap(),
        parse_rule("someone(person(Bob, 12)).").unwrap(),
        parse_rule("check($P) :- someone($P), voter($P).").unwrap(),
    ]);
    let mut sn = base_text("check($P)");
    assert_eq!(solve_all(&mut sn, &kb, FUEL), vec!["$P = person(Ann, 34)".to_string()]);
}

fn evaluation_ss() -> std::rc::Rc<SubstitutionSet> {
    let ss = empty_ss();
    let x = Unifiable::LogicVar { id: 1, name: "$X".to_string() };
    let y = Unifiable::LogicVar { id: 2, name: "$Y".to_string() };
    let ss = x.unify(&Unifiable::SInteger(3), &ss).unwrap();
    y.unify(&Unifiable::SInteger(4), &ss).unwrap()
}

fn evaluate(name: &str, args: Vec<Unifiable>) -> Option<Unifiable> {
    let ss = evaluation_ss();
    evaluate_function(&name.to_string(), &args, &ss)
}

fn x1() -> Unifiable { Unifiable::LogicVar { id: 1, name: "$X".to_string() } }
fn y2() -> Unifiable { Unifiable::LogicVar { id: 2, name: "$Y".to_string() } }

// The integer cases; floating-point arithmetic is not part of this library.
#[test]
fn test_evaluate_add() {
    let r = evaluate("add", vec![Unifiable::SInteger(2), x1(), y2()]);
    assert_eq!("SInteger(9)", format!("{:?}", r.unwrap()));
}

#[test]
fn test_evaluate_subtract() {
    let r = evaluate("subtract", vec![x1(), Unifiable::SInteger(10), y2()]);
    assert_eq!("SInteger(-11)", format!("{:?}", r.unwrap()));
}

#[test]
fn test_evaluate_multiply() {
    let r = evaluate("multiply", vec![x1(), y2(), Unifiable::SInteger(-3)]);
    assert_eq!("SInteger(-36)", format!("{:?}", r.unwrap()));
}

#[test]
fn test_evaluate_divide() {
    let r = evaluate("divide", vec![Unifiable::SInteger(12), x1(), y2()]);
    assert_eq!("SInteger(1)", format!("{:?}", r.unwrap()));
    // Integer division truncates.
    let r = evaluate("divide", vec![Unifiable::SInteger(13), x1(), y2()]);
    assert_eq!("SInteger(1)", format!("{:?}", r.unwrap()));
    // Division by zero gives no result.
    assert!(evaluate("divide", vec![Unifiable::SInteger(13), Unifiable::SInteger(0), y2()]).is_none());
}
