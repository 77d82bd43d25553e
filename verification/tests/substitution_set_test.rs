use suiron::unifiable::Unifiable;
use suiron::substitution_set::{empty_ss, format_ss, is_bound, is_ground_variable, get_binding,
    get_ground_term, get_complex, get_list, get_constant};
use suiron::s_linked_list::make_linked_list;

fn atom(s: &str) -> Unifiable { Unifiable::Atom(s.to_string()) }
fn lv(id: usize, name: &str) -> Unifiable { Unifiable::LogicVar { id, name: name.to_string() } }
fn scomplex(terms: Vec<Unifiable>) -> Unifiable { Unifiable::SComplex(terms) }

#[test]
fn test_format_ss() {
    let ss = empty_ss();
    let s = "----- Substitution Set -----\n\tEmpty\n----------------------------";
    assert_eq!(s, format_ss(&ss));

    let ss = atom("Argon").unify(&lv(1, "$X"), &ss).expect("Cannot bind $X = Argon.");
    let s = "----- Substitution Set -----\n\
             0\tNone\n\
             1\tArgon\n\
             ----------------------------";
    assert_eq!(s, format_ss(&ss));
}

// is_bound(), is_ground_variable(), get_binding(), get_ground_term().
#[test]
fn test_bound_and_ground() {
    let a = atom("Alpha");
    let w = lv(1, "$W");
    let x = lv(2, "$X");
    let y = lv(3, "$Y");
    let z = lv(4, "$Z");
    let ss = empty_ss();
    let ss = x.unify(&w, &ss).expect("Cannot unify $X = $W.");
    let ss = a.unify(&y, &ss).expect("Cannot unify $Y = Alpha.");
    let ss = z.unify(&y, &ss).expect("Cannot unify $Z = $Y.");

    assert!(!is_bound(&w, &ss), "is_bound() - $W should not be bound.");
    assert!(is_bound(&x, &ss), "is_bound() - $X should be bound.");
    assert!(!is_ground_variable(&x, &ss), "is_ground_variable() - $X should not be ground.");
    assert!(is_ground_variable(&z, &ss), "is_ground_variable() - $Z should be ground.");

    let entry = get_binding(&z, &ss).expect("get_binding() - $Z should be bound to $Y.");
    assert_eq!("$Y_3", entry.to_display_string(), "get_binding() - $Z should be bound to $Y.");

    let c = get_ground_term(&z, &ss).expect("$Z has a ground term");
    assert_eq!("Alpha", c.to_display_string(),
               "get_ground_term() - The ground term of $Z should be Alpha.");
}

#[test]
fn test_get_complex() {
    let c1 = scomplex(vec![atom("element"), atom("Argon"), Unifiable::SInteger(18)]);
    let c2 = scomplex(vec![atom("element"), atom("Krypton"), Unifiable::SInteger(36)]);
    let ne = atom("Neon");
    let x = lv(1, "$X");
    let y = lv(2, "$Y");
    let ss = empty_ss();
    let ss = c1.unify(&x, &ss).expect("Cannot bind $X = element(Argon, 18).");
    let ss = y.unify(&x, &ss).expect("Cannot bind $Y = $X.");

    let res1 = get_complex(&c2, &ss).expect("First test - element(Krypton, 36) should be returned.");
    assert_eq!("element(Krypton, 36)", res1.to_display_string(),
               "First test - Must return same complex term.");
    assert!(get_complex(&ne, &ss).is_none(), "Second test - Should return None.");
    let res3 = get_complex(&y, &ss).expect("Third test - Cannot get ground term.");
    assert_eq!("element(Argon, 18)", res3.to_display_string(), "Third test - Should get ground term.");
}

#[test]
fn test_get_list() {
    let l1 = make_linked_list(false, vec![atom("Argon"), atom("Krypton")]);
    let l2 = make_linked_list(false, vec![]);
    let ne = atom("Neon");
    let x = lv(1, "$X");
    let y = lv(2, "$Y");
    let ss = empty_ss();
    let ss = l1.unify(&x, &ss).expect("Cannot bind $X = [Argon, Krypton].");
    let ss = y.unify(&x, &ss).expect("Cannot bind $Y = $X.");

    let res1 = get_list(&l2, &ss).expect("First test - [] should be returned.");
    assert_eq!("[]", res1.to_display_string(), "First test - Must return same list.");
    assert!(get_list(&ne, &ss).is_none(), "Second test - Should return None.");
    let res3 = get_list(&y, &ss).expect("Third test - Cannot get ground term.");
    assert_eq!("[Argon, Krypton]", res3.to_display_string(), "Third test - Should get ground term.");
}

#[test]
fn test_get_constant() {
    let l = make_linked_list(false, vec![atom("Neon")]);
    let x = lv(1, "$X");
    let y = lv(2, "$Y");
    let ss = empty_ss();
    let ss = atom("Argon").unify(&x, &ss).expect("Cannot bind $X = Argon.");
    let ss = y.unify(&x, &ss).expect("Cannot bind $Y = $X.");

    let kr = atom("Krypton");
    let res1 = get_constant(&kr, &ss).expect("First test - Krypton is an atom.");
    assert_eq!("Krypton", res1.to_display_string(), "First test - Must return same atom.");
    assert!(get_constant(&l, &ss).is_none(), "Second test - Should return None.");
    let res3 = get_constant(&y, &ss).expect("Third test - Cannot get ground term (Argon).");
    assert_eq!("Argon", res3.to_display_string(), "Third test - Should get ground term.");
}

/// An unbound variable has no ground term; a variable's binding is
/// reported even when it is another variable.
#[test]
fn test_unbound_variable() {
    let ss = empty_ss();
    let x = lv(1, "$X");
    assert!(get_ground_term(&x, &ss).is_none());
    assert!(get_binding(&x, &ss).is_none());
    assert!(!is_bound(&x, &ss));
    let a = atom("a");
    assert_eq!(get_ground_term(&a, &ss).unwrap().to_display_string(), "a");
}
