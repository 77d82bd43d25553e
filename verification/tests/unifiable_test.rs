use suiron::unifiable::Unifiable;
use suiron::substitution_set::empty_ss;
use suiron::s_linked_list::make_linked_list;
use suiron::logic_var::{VarMap, VarIds, clear_id, make_logic_var, next_id, get_var_id, set_var_id};

fn atom(s: &str) -> Unifiable { Unifiable::Atom(s.to_string()) }
fn lv(id: usize, name: &str) -> Unifiable { Unifiable::LogicVar { id, name: name.to_string() } }
fn scomplex(terms: Vec<Unifiable>) -> Unifiable { Unifiable::SComplex(terms) }

/// Display texts of unifiable terms.
#[test]
fn test_display_unifiable() {
    assert_eq!("Nil", Unifiable::Nil.to_display_string());
    assert_eq!("$_", Unifiable::Anonymous.to_display_string());
    assert_eq!("Saltwater", atom("Saltwater").to_display_string());
    assert_eq!("3.14159", Unifiable::SFloat("3.14159".to_string()).to_display_string());
    assert_eq!("67", Unifiable::SInteger(67).to_display_string());

    assert_eq!("$X", lv(0, "$X").to_display_string());
    assert_eq!("$X_10", lv(10, "$X").to_display_string());

    let pronoun = scomplex(vec![atom("pronoun"), atom("I"), atom("subject"),
                                atom("first"), atom("singular")]);
    assert_eq!("pronoun(I, subject, first, singular)", pronoun.to_display_string());

    let list1 = make_linked_list(false, vec![Unifiable::SInteger(1),
                                             Unifiable::SInteger(2),
                                             Unifiable::SInteger(3)]);
    assert_eq!(list1.to_display_string(), "[1, 2, 3]");

    let list2 = make_linked_list(true, vec![Unifiable::SInteger(1),
                                            Unifiable::SInteger(2),
                                            Unifiable::SInteger(3),
                                            lv(0, "$X")]);
    assert_eq!(list2.to_display_string(), "[1, 2, 3 | $X]");
}

/// Terms unify with themselves: 3.14159 = 3.14159
#[test]
fn test_unify_with_self() {
    let ss = empty_ss();
    let pi = Unifiable::SFloat("3.14159".to_string());
    let pi2 = Unifiable::SFloat("3.14159".to_string());
    assert!(pi.unify(&pi2, &ss).is_some());
}

/// $X = f(a, b)
#[test]
fn test_unify_with_unbound_var() {
    let ss = empty_ss();
    let c = scomplex(vec![atom("f"), atom("a"), atom("b")]);
    let x = lv(1, "$X");
    assert!(c.unify(&x, &ss).is_some());
}

/// $Y = a, $X = $Y, $X = a
#[test]
fn test_unify_with_bound_vars() {
    let ss = empty_ss();
    let a = atom("a");
    let x = lv(1, "$X");
    let y = lv(2, "$Y");
    let ss = y.unify(&a, &ss).expect("Failed to unify: $Y = a");
    let ss = x.unify(&y, &ss).expect("Failed to unify: $X = $Y");
    assert!(a.unify(&x, &ss).is_some(), "Failed to unify: a with $X -> $Y -> a");
}

/// Variables get fresh IDs, the same name the same ID.
#[test]
fn test_recreate_variables() {
    let mut ids = VarIds::new();
    clear_id(&mut ids);
    let complex1 = scomplex(vec![atom("func"), atom("a"), atom("b"), lv(0, "$W"), lv(0, "$X")]);
    let list1 = make_linked_list(true, vec![atom("c"), atom("d"), lv(0, "$Y"), lv(0, "$Z")]);
    let mut recreated = VarMap::new();
    let complex2 = complex1.recreate_variables(&mut recreated, &mut ids);
    let list2 = list1.recreate_variables(&mut recreated, &mut ids);
    assert_eq!("func(a, b, $W_1, $X_2)", complex2.to_display_string());
    assert_eq!("[c, d, $Y_3 | $Z_4]", list2.to_display_string());
}

/// Variables are replaced by the terms they are bound to.
#[test]
fn test_replace_variables() {
    let ss = empty_ss();
    let complex1 = scomplex(vec![atom("func"), atom("One"), atom("Two"), atom("Three")]);
    let complex2 = scomplex(vec![atom("func"), lv(1, "$X"), lv(2, "$Y"), lv(3, "$Z")]);
    let ss = complex2.unify(&complex1, &ss).unwrap();
    let res = complex2.replace_variables(&*ss);
    assert_eq!("func(One, Two, Three)", res.to_display_string());

    let list1 = make_linked_list(false, vec![atom("Four"), atom("Five"),
                                             Unifiable::SInteger(6),
                                             Unifiable::SFloat("7.1".to_string())]);
    let list2 = make_linked_list(true, vec![lv(4, "$X"), lv(5, "$Y"), lv(6, "$Z")]);
    let ss = list2.unify(&list1, &ss).unwrap();
    let res = list2.replace_variables(&ss);
    assert_eq!("[Four, Five | [6, 7.1]]", res.to_display_string());
}

/// The key of a complex term: functor/arity.
#[test]
fn test_key() {
    let c = scomplex(vec![atom("element"), atom("Yttrium"), Unifiable::SInteger(39)]);
    assert_eq!(c.key(), "element/2");
    let c = scomplex(vec![atom("measure")]);
    assert_eq!(c.key(), "measure/0");
}

/// Unification fails on different constants and on different arities.
#[test]
fn test_unify_failures() {
    let ss = empty_ss();
    assert!(atom("a").unify(&atom("b"), &ss).is_none());
    assert!(Unifiable::SInteger(1).unify(&Unifiable::SInteger(2), &ss).is_none());
    let c1 = scomplex(vec![atom("f"), atom("a")]);
    let c2 = scomplex(vec![atom("f"), atom("a"), atom("b")]);
    assert!(c1.unify(&c2, &ss).is_none());
    // The anonymous variable unifies with anything and binds nothing.
    let ss2 = Unifiable::Anonymous.unify(&c2, &ss).unwrap();
    assert_eq!(ss2.len(), ss.len());
}

/// A successful unification only adds bindings.
#[test]
fn test_unify_extends() {
    let ss = empty_ss();
    let ss = lv(1, "$X").unify(&atom("a"), &ss).unwrap();
    let ss2 = lv(2, "$Y").unify(&atom("b"), &ss).unwrap();
    assert_eq!(ss2[1].as_ref().unwrap().to_display_string(), "a");
    assert_eq!(ss2[2].as_ref().unwrap().to_display_string(), "b");
    // A bound variable unifies with its value only.
    assert!(lv(1, "$X").unify(&atom("b"), &ss2).is_none());
    assert!(lv(1, "$X").unify(&atom("a"), &ss2).is_some());
}

/// A logic variable's name starts with a dollar sign and a letter (any
/// alphabetic character).
#[test]
fn test_make_logic_var() {
    match make_logic_var(" $X ".to_string()).unwrap() {
        Unifiable::LogicVar { id, name } => {
            assert_eq!(id, 0);
            assert_eq!(name, "$X");
        },
        _ => panic!("Should make a logic variable."),
    }
    assert!(make_logic_var("$Ärger".to_string()).is_ok());
    assert_eq!(make_logic_var("$1".to_string()).unwrap_err(),
               "make_logic_var() - Second character must be a letter: $1");
    assert_eq!(make_logic_var("X".to_string()).unwrap_err(),
               "make_logic_var() - Variable must start with $ and a letter: X");
    assert_eq!(make_logic_var("XY".to_string()).unwrap_err(),
               "make_logic_var() - Variable must start with $: XY");
}

/// The counter of variable IDs.
#[test]
fn test_var_ids() {
    let mut ids = VarIds::new();
    assert_eq!(next_id(&mut ids), 1);
    assert_eq!(next_id(&mut ids), 2);
    assert_eq!(get_var_id(&ids), 2);
    set_var_id(&mut ids, 10);
    assert_eq!(next_id(&mut ids), 11);
    clear_id(&mut ids);
    assert_eq!(get_var_id(&ids), 0);
}

/// Unifying anything with the anonymous variable binds nothing.
#[test]
fn test_unify_with_anonymous_binds_nothing() {
    let ss = empty_ss();
    let ss2 = lv(5, "$X").unify(&Unifiable::Anonymous, &ss).unwrap();
    assert_eq!(ss2.len(), ss.len());
    let ss3 = atom("a").unify(&Unifiable::Anonymous, &ss).unwrap();
    assert_eq!(ss3.len(), 0);
    // The variable is still unbound, and takes any value.
    assert!(lv(5, "$X").unify(&atom("b"), &ss2).is_some());
}

/// Ground terms unify exactly when they are the same, either way round,
/// and bind nothing.
#[test]
fn test_unify_ground_terms() {
    let ss = empty_ss();
    let l1 = make_linked_list(false, vec![atom("a"), atom("b")]);
    let l2 = make_linked_list(false, vec![atom("a"), atom("b")]);
    let l3 = make_linked_list(false, vec![atom("a"), atom("c")]);
    assert_eq!(l1.unify(&l2, &ss).unwrap().len(), 0);
    assert!(l1.unify(&l3, &ss).is_none());
    assert!(l3.unify(&l1, &ss).is_none());
    let c1 = scomplex(vec![atom("f"), l1, Unifiable::SInteger(3)]);
    let c2 = scomplex(vec![atom("f"), l2, Unifiable::SInteger(3)]);
    let c3 = scomplex(vec![atom("f"), l3, Unifiable::SInteger(3)]);
    assert_eq!(c1.unify(&c2, &ss).unwrap().len(), 0);
    assert_eq!(c2.unify(&c1, &ss).unwrap().len(), 0);
    assert!(c1.unify(&c3, &ss).is_none());
    assert!(c3.unify(&c1, &ss).is_none());
}

/// Long lists are unified node by node, without a limit on their length.
#[test]
fn test_unify_long_lists() {
    let ss = empty_ss();
    let n = 20000;
    let mut items = Vec::new();
    let mut vars = Vec::new();
    for i in 0..n {
        items.push(Unifiable::SInteger(i));
        vars.push(if i == n - 1 { lv(1, "$Last") } else { Unifiable::Anonymous });
    }
    let l1 = make_linked_list(false, items);
    let l2 = make_linked_list(false, vars);
    let ss = l2.unify(&l1, &ss).unwrap();
    assert_eq!(ss[1].as_ref().unwrap().to_display_string(), (n - 1).to_string());
}

/// Recreating variables keeps the rest of the term: complex terms and
/// lists keep their items, in order, and the tail variable.
#[test]
fn test_recreate_keeps_structure() {
    let mut ids = VarIds::new();
    clear_id(&mut ids);
    let inner = make_linked_list(false, vec![atom("x"), lv(0, "$A")]);
    let tail = make_linked_list(true, vec![atom("a"), lv(0, "$B"), lv(0, "$T")]);
    let t = scomplex(vec![atom("f"), lv(0, "$A"), inner, tail]);
    let r = t.recreate_variables(&mut VarMap::new(), &mut ids);
    assert_eq!(r.to_display_string(), "f($A_1, [x, $A_1], [a, $B_2 | $T_3])");
}

/// Names already in the map keep their IDs; new names get the next IDs,
/// in order of first occurrence.
#[test]
fn test_recreate_ids_in_order() {
    let mut ids = VarIds::new();
    clear_id(&mut ids);
    let mut vars = VarMap::new();
    let first = scomplex(vec![atom("f"), lv(0, "$B")]);
    let first = first.recreate_variables(&mut vars, &mut ids);
    assert_eq!(first.to_display_string(), "f($B_1)");
    let t = scomplex(vec![atom("g"), lv(0, "$C"), lv(0, "$B"), lv(0, "$A"), lv(0, "$C")]);
    let r = t.recreate_variables(&mut vars, &mut ids);
    assert_eq!(r.to_display_string(), "g($C_2, $B_1, $A_3, $C_2)");
    assert_eq!(get_var_id(&ids), 3);
}
