use std::rc::Rc;
use suiron::unifiable::Unifiable;
use suiron::goal::{Goal, Operator, BuiltInPredicate, format_built_in};
use suiron::parse_goals::parse_subgoal;
use suiron::logic_var::{VarMap, VarIds};
use suiron::substitution_set::SubstitutionSet;
use suiron::knowledge_base::{KnowledgeBase, add_rules, count_rules, format_kb, get_rule, test_kb};
use suiron::rule::{Rule, make_rule, make_fact};

fn atom(s: &str) -> Unifiable { Unifiable::Atom(s.to_string()) }
fn lv(name: &str) -> Unifiable { Unifiable::LogicVar { id: 0, name: name.to_string() } }
fn scomplex(terms: Vec<Unifiable>) -> Unifiable { Unifiable::SComplex(terms) }

// key(), recreate_variables() and replace_variables().
#[test]
fn test_goals1() {
    let mut ids = VarIds::new();
    let goal = parse_subgoal("grandfather($Who, Aethelstan)").unwrap();
    assert_eq!("grandfather($Who, Aethelstan)", goal.to_display_string());
    assert_eq!("grandfather/2", goal.key());

    let mut var_map = VarMap::new();
    let query = goal.recreate_variables(&mut var_map, &mut ids);
    assert_eq!("grandfather($Who_1, Aethelstan)", query.to_display_string());

    let mut ss: SubstitutionSet = Vec::new();
    ss.push(None);
    ss.push(Some(Rc::new(Unifiable::Atom("Alfred".to_string()))));
    let result = query.replace_variables(&ss);
    assert_eq!("grandfather(Alfred, Aethelstan)", result.to_display_string());
}

fn make_parent() -> Unifiable { scomplex(vec![atom("parent"), lv("$X"), lv("$Y")]) }
fn make_male() -> Unifiable { scomplex(vec![atom("male"), lv("$X")]) }
fn make_mother() -> Unifiable { scomplex(vec![atom("mother"), lv("$X"), lv("$Y")]) }
fn make_father() -> Unifiable { scomplex(vec![atom("father"), lv("$X"), lv("$Y")]) }

fn make_and() -> Operator {
    Operator::And(vec![Goal::ComplexGoal(make_parent()), Goal::ComplexGoal(make_male())])
}

fn make_or() -> Operator {
    Operator::Or(vec![Goal::ComplexGoal(make_mother()), Goal::ComplexGoal(make_father())])
}

// AND:   parent($X, $Y), male($X).
// OR:    mother($X, $Y); father($X, $Y)
#[test]
fn test_creation_of_operators() {
    let op1 = Goal::OperatorGoal(make_and());
    let op2 = Goal::OperatorGoal(make_or());
    assert_eq!("parent($X, $Y), male($X)", op1.to_display_string());
    assert_eq!("mother($X, $Y); father($X, $Y)", op2.to_display_string());
}

#[test]
fn test_split_head_tail() {
    let and_op = make_and();
    let (head, tail) = and_op.split_head_tail();
    assert_eq!(tail.len(), 1);
    assert_eq!(tail.get_subgoal(0), Goal::ComplexGoal(make_male()));
    assert_eq!(head, Goal::ComplexGoal(make_parent()));
    let (_, tail) = tail.split_head_tail();
    assert_eq!(tail.len(), 0);
}

fn two_terms() -> Vec<Unifiable> { vec![lv("$X"), atom("Klivo")] }

#[test]
fn test_format_built_in() {
    assert_eq!("pred_name($X, Klivo)", format_built_in("pred_name", &two_terms()));
}

#[test]
fn test_display() {
    let print_pred = BuiltInPredicate::new("print".to_string(), Some(two_terms()));
    assert_eq!("print($X, Klivo)", print_pred.to_display_string());
    let unify_pred = BuiltInPredicate::new("unify".to_string(), Some(two_terms()));
    assert_eq!("$X = Klivo", unify_pred.to_display_string());
}

// grandfather($X, $Y) :- father($X, $Z), father($Z, $Y).
fn grandfather_rule() -> Rule {
    let head = scomplex(vec![atom("grandfather"), lv("$X"), lv("$Y")]);
    let g1 = Goal::ComplexGoal(scomplex(vec![atom("father"), lv("$X"), lv("$Z")]));
    let g2 = Goal::ComplexGoal(scomplex(vec![atom("father"), lv("$Z"), lv("$Y")]));
    make_rule(head, Goal::OperatorGoal(Operator::And(vec![g1, g2])))
}

// add_rules(), count_rules() and format_kb().
#[test]
fn test_add_rules() {
    let rule1 = grandfather_rule();
    let fact1 = make_fact(scomplex(vec![atom("father"), atom("Anakin"), atom("Luke")]));
    let fact2 = make_fact(scomplex(vec![atom("father"), atom("Anakin"), atom("Leia")]));
    let mut kb = KnowledgeBase::new();
    add_rules(&mut kb, vec![rule1, fact1, fact2]);

    let s = "_____ Contents of Knowledge Base _____\n\
        father/2\n\
        \tfather(Anakin, Luke).\n\
        \tfather(Anakin, Leia).\n\
        grandfather/2\n\
        \tgrandfather($X, $Y) :- father($X, $Z), father($Z, $Y).\n\
        ______________________________________";
    assert_eq!(s, format_kb(&kb));

    let c1 = scomplex(vec![atom("father"), lv("$X"), lv("$Y")]);
    assert_eq!(count_rules(&kb, &c1.key()), 2);
}

#[test]
fn test_get_rule() {
    let mut ids = VarIds::new();
    let kb = test_kb();
    let rule = get_rule(&kb, "grandfather/2", 0, &mut ids);
    assert_eq!("grandfather($X_1, $Y_2) :- father($X_1, $Z_3), father($Z_3, $Y_2).",
               rule.to_display_string());
    let rule = get_rule(&kb, "loves/2", 1, &mut ids);
    assert_eq!("loves(Penny, Leonard).", rule.to_display_string());
}

/// The test knowledge base holds its six facts and rules under their keys.
#[test]
fn test_test_kb_counts() {
    let kb = test_kb();
    assert_eq!(count_rules(&kb, "loves/2"), 2);
    assert_eq!(count_rules(&kb, "father/2"), 2);
    assert_eq!(count_rules(&kb, "grandfather/2"), 2);
    assert_eq!(count_rules(&kb, "mother/2"), 0);
}
