use suiron::token::{make_leaf_token, make_branch_token, Token, TokenType};

fn show(t: &Token) -> String {
    t.to_display_string()
}

#[test]
fn test_make_leaf_token() {
    let t1 = make_leaf_token("(");
    let t2 = make_leaf_token("goal1");
    let t3 = make_leaf_token(",");
    let t4 = make_leaf_token("goal2");
    let t5 = make_leaf_token(";");
    let t6 = make_leaf_token("goal3");
    let t7 = make_leaf_token(")");
    let s = format!("{} {} {} {} {} {} {}", show(&t1), show(&t2), show(&t3), show(&t4),
                    show(&t5), show(&t6), show(&t7));
    assert_eq!(s, "LPAREN SUBGOAL(goal1) COMMA SUBGOAL(goal2) \
                   SEMICOLON SUBGOAL(goal3) RPAREN");
}

#[test]
fn test_make_branch_token() {
    let t1 = make_leaf_token("goal1");
    let t2 = make_leaf_token("goal2");
    let t3 = make_leaf_token("goal3");
    let t4 = make_branch_token(TokenType::And, vec![t1, t2, t3]);
    assert_eq!(t4.to_display_string(),
               "AND > SUBGOAL(goal1) SUBGOAL(goal2) SUBGOAL(goal3)");
    let t1 = make_leaf_token("goal1");
    let t2 = make_leaf_token("goal2");
    let t3 = make_leaf_token("goal3");
    let t5 = make_branch_token(TokenType::Or, vec![t1, t2, t3]);
    assert_eq!(t5.to_display_string(),
               "OR > SUBGOAL(goal1) SUBGOAL(goal2) SUBGOAL(goal3)");
}

#[test]
fn test_get_type() {
    let t1 = make_leaf_token("all(destiny)");
    let type1 = t1.get_type();
    assert_eq!(type1, TokenType::Subgoal);
    let t2 = make_branch_token(TokenType::And, vec![t1]);
    let type2 = t2.get_type();
    assert_eq!(type2, TokenType::And);
}

#[test]
fn test_get_token_str() {
    let t1 = make_leaf_token("all(destiny)");
    let s = t1.get_token_str();
    assert_eq!(s, "all(destiny)");
}

#[test]
fn test_number_of_children() {
    let t1 = make_leaf_token("left");
    let t2 = make_leaf_token("right");
    let t3 = make_branch_token(TokenType::And, vec![t1, t2]);
    assert_eq!(2, t3.number_of_children());
}

#[test]
fn test_get_children() {
    let t1 = make_leaf_token("left");
    let t2 = make_leaf_token("right");
    let t3 = make_branch_token(TokenType::And, vec![t1, t2]);
    let s = "[Leaf { token_type: Subgoal, token_str: \"left\" }, \
              Leaf { token_type: Subgoal, token_str: \"right\" }]";
    let s2 = format!("{:?}", t3.get_children());
    assert_eq!(s, s2);
}

#[test]
fn test_leaf_token_is_trimmed_and_typed() {
    let t = make_leaf_token("  ;  ");
    assert_eq!(t.get_type(), TokenType::Semicolon);
    assert_eq!(t.get_token_str(), ";");
    let t = make_leaf_token(" a ; b ");
    assert_eq!(t.get_type(), TokenType::Subgoal);
    assert_eq!(t.get_token_str(), "a ; b");
}

#[test]
fn test_token_type_names() {
    assert_eq!(TokenType::LinkedList.to_display_string(), "LinkedList");
    assert_eq!(TokenType::LinkedList.upper_name(), "LINKEDLIST");
}
