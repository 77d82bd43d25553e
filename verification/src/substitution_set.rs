//! The substitution set: the bindings of logic variables, indexed by the
//! variables' ID numbers.
//!
//! Entry `i` of the set holds the term which the variable with ID `i` is
//! bound to, or `None` if that variable is unbound. A variable may be bound
//! to another variable; following such a chain to a term which is not a
//! variable gives the variable's ground term.
use vstd::prelude::*;
use std::rc::Rc;
use crate::unifiable::{Unifiable, Term, term_view, term_text, copy_term};
use crate::text::{append_str, append_chars, chars_to_string, u64_to_chars, nat_digits};

verus! {

/// Bindings of logic variables, indexed by variable ID.
pub type SubstitutionSet = Vec<Option<Rc<Unifiable>>>;

/// The model of one entry.
pub open spec fn binding_view(b: Option<Rc<Unifiable>>) -> Option<Term> {
    match b {
        Some(r) => Some(term_view(*r)),
        None => None,
    }
}

/// The model of a substitution set.
pub open spec fn ss_view(ss: SubstitutionSet) -> Seq<Option<Term>> {
    ss@.map_values(|b: Option<Rc<Unifiable>>| binding_view(b))
}

/// The model of a substitution set, given by reference.
pub open spec fn ss_view_ref(ss: &SubstitutionSet) -> Seq<Option<Term>> {
    ss_view(*ss)
}

/// The binding of the variable with ID `id`, if any.
pub open spec fn bound_at(ss: Seq<Option<Term>>, id: nat) -> Option<Term> {
    if id < ss.len() {
        ss[id as int]
    } else {
        None
    }
}

/// Follows the bindings of logic variables, at most `fuel` times, to a term
/// which is not a variable. An unbound variable has no ground term, and
/// neither has a chain of bindings longer than `fuel`.
pub open spec fn ground_walk(t: Term, ss: Seq<Option<Term>>, fuel: nat) -> Option<Term>
    decreases fuel,
{
    match t {
        Term::LogicVar(id, _) => match bound_at(ss, id) {
            None => None,
            Some(u) => if fuel == 0 {
                None
            } else {
                ground_walk(u, ss, (fuel - 1) as nat)
            },
        },
        _ => Some(t),
    }
}

/// The ground term of `t`: `t` itself if it is not a logic variable,
/// otherwise the term at the end of its chain of bindings. A chain without
/// end (a variable bound, through others, to itself) has none.
pub open spec fn ground_term(t: Term, ss: Seq<Option<Term>>) -> Option<Term> {
    ground_walk(t, ss, ss.len())
}

/// The ground term of `t`, if it is a complex term.
pub open spec fn complex_of(t: Term, ss: Seq<Option<Term>>) -> Option<Term> {
    match ground_term(t, ss) {
        Some(g) => if g is SComplex {
            Some(g)
        } else {
            None
        },
        None => None,
    }
}

/// The ground term of `t`, if it is a list.
pub open spec fn list_of(t: Term, ss: Seq<Option<Term>>) -> Option<Term> {
    match ground_term(t, ss) {
        Some(g) => if g is SLinkedList {
            Some(g)
        } else {
            None
        },
        None => None,
    }
}

/// Is the term a constant: an atom or a number?
pub open spec fn is_constant(t: Term) -> bool {
    t is Atom || t is SFloat || t is SInteger
}

/// The ground term of `t`, if it is a constant.
pub open spec fn constant_of(t: Term, ss: Seq<Option<Term>>) -> Option<Term> {
    match ground_term(t, ss) {
        Some(g) => if is_constant(g) {
            Some(g)
        } else {
            None
        },
        None => None,
    }
}

/// Makes an empty substitution set.
pub fn empty_ss() -> (ss: Rc<SubstitutionSet>)
    ensures
        ss_view(*ss) == Seq::<Option<Term>>::empty(),
{
    let v: SubstitutionSet = Vec::new();
    let r = Rc::new(v);
    assert(ss_view(*r) =~= Seq::<Option<Term>>::empty());
    r
}

/// Copies one entry of a substitution set (the term is shared).
pub fn copy_binding(b: &Option<Rc<Unifiable>>) -> (r: Option<Rc<Unifiable>>)
    ensures
        binding_view(r) == binding_view(*b),
{
    match b {
        Some(t) => Some(Rc::clone(t)),
        None => None,
    }
}

/// Determines whether a logic variable is bound.
pub fn is_bound(term: &Unifiable, ss: &SubstitutionSet) -> (r: bool)
    requires
        term@ is LogicVar,
    ensures
        r == bound_at(ss_view(*ss), term@->LogicVar_0) is Some,
{
    match term {
        Unifiable::LogicVar { id, .. } => {
            if *id >= ss.len() {
                return false;
            }
            match &ss[*id] {
                Some(_) => true,
                None => false,
            }
        },
        _ => false,
    }
}

/// Gets the term which a logic variable is bound to, if any.
pub fn get_binding<'a>(term: &Unifiable, ss: &'a SubstitutionSet) -> (r: Option<&'a Unifiable>)
    requires
        term@ is LogicVar,
    ensures
        match r {
            Some(u) => bound_at(ss_view(*ss), term@->LogicVar_0) == Some(u@),
            None => bound_at(ss_view(*ss), term@->LogicVar_0) is None,
        },
{
    match term {
        Unifiable::LogicVar { id, .. } => {
            if *id >= ss.len() {
                return None;
            }
            match &ss[*id] {
                Some(entry) => Some(&**entry),
                None => None,
            }
        },
        _ => None,
    }
}

/// Gets the ground term of a term: the term itself if it is not a logic
/// variable, otherwise the term which the variable is bound to, following
/// chains of bindings. An unbound variable gives `None`.
pub fn get_ground_term<'a>(term: &'a Unifiable, ss: &'a SubstitutionSet) -> (r: Option<&'a Unifiable>)
    ensures
        match r {
            Some(u) => ground_term(term@, ss_view(*ss)) == Some(u@),
            None => ground_term(term@, ss_view(*ss)) is None,
        },
{
    let ghost ssv = ss_view(*ss);
    let mut t: &Unifiable = term;
    let mut fuel: usize = ss.len();
    loop
        invariant
            ssv == ss_view(*ss),
            fuel <= ssv.len(),
            ground_walk(t@, ssv, fuel as nat) == ground_walk(term@, ssv, ssv.len()),
        decreases fuel,
    {
        match t {
            Unifiable::LogicVar { id, .. } => {
                if *id >= ss.len() {
                    return None;
                }
                match &ss[*id] {
                    None => {
                        return None;
                    },
                    Some(entry) => {
                        if fuel == 0 {
                            return None;
                        }
                        t = &**entry;
                        fuel = fuel - 1;
                    },
                }
            },
            _ => {
                return Some(t);
            },
        }
    }
}

/// Determines whether a logic variable is bound, through a chain of
/// bindings, to a term which is not a variable.
pub fn is_ground_variable(term: &Unifiable, ss: &SubstitutionSet) -> (r: bool)
    requires
        term@ is LogicVar,
    ensures
        r == ground_term(term@, ss_view(*ss)) is Some,
{
    match get_ground_term(term, ss) {
        Some(_) => true,
        None => false,
    }
}

/// Gets the ground term of `term` if it is a complex term.
pub fn get_complex<'a>(term: &'a Unifiable, ss: &'a SubstitutionSet) -> (r: Option<&'a Unifiable>)
    ensures
        match r {
            Some(u) => complex_of(term@, ss_view(*ss)) == Some(u@),
            None => complex_of(term@, ss_view(*ss)) is None,
        },
{
    match get_ground_term(term, ss) {
        Some(g) => match g {
            Unifiable::SComplex(_) => Some(g),
            _ => None,
        },
        None => None,
    }
}

/// Gets the ground term of `term` if it is a list.
pub fn get_list<'a>(term: &'a Unifiable, ss: &'a SubstitutionSet) -> (r: Option<&'a Unifiable>)
    ensures
        match r {
            Some(u) => list_of(term@, ss_view(*ss)) == Some(u@),
            None => list_of(term@, ss_view(*ss)) is None,
        },
{
    match get_ground_term(term, ss) {
        Some(g) => match g {
            Unifiable::SLinkedList { .. } => Some(g),
            _ => None,
        },
        None => None,
    }
}

/// Gets the ground term of `term` if it is a constant (atom or number).
pub fn get_constant<'a>(term: &'a Unifiable, ss: &'a SubstitutionSet) -> (r: Option<&'a Unifiable>)
    ensures
        match r {
            Some(u) => constant_of(term@, ss_view(*ss)) == Some(u@),
            None => constant_of(term@, ss_view(*ss)) is None,
        },
{
    match get_ground_term(term, ss) {
        Some(g) => match g {
            Unifiable::Atom(_) => Some(g),
            Unifiable::SFloat(_) => Some(g),
            Unifiable::SInteger(_) => Some(g),
            _ => None,
        },
        None => None,
    }
}

/// The lines of a substitution set's text, from entry `from` on:
/// the index, a tab, and the bound term or `None`.
pub open spec fn ss_lines(ss: Seq<Option<Term>>, from: int) -> Seq<char>
    decreases ss.len() - from,
{
    if from < 0 || from >= ss.len() {
        Seq::empty()
    } else {
        nat_digits(from as nat) + seq!['\t'] + (match ss[from] {
            Some(t) => term_text(t),
            None => "None"@,
        }) + seq!['\n'] + ss_lines(ss, from + 1)
    }
}

/// The text of a substitution set, as `format_ss` shows it.
pub open spec fn ss_text(ss: Seq<Option<Term>>) -> Seq<char> {
    "----- Substitution Set -----\n"@ + (if ss.len() == 0 {
        "\tEmpty\n"@
    } else {
        ss_lines(ss, 0)
    }) + "----------------------------"@
}

/// Formats a substitution set for display: one line per entry.
pub fn format_ss(ss: &SubstitutionSet) -> (s: String)
    ensures
        s@ == ss_text(ss_view(*ss)),
{
    let ghost ssv = ss_view(*ss);
    let mut out: Vec<char> = Vec::new();
    append_str(&mut out, "----- Substitution Set -----\n");
    let ghost head = out@;
    if ss.len() == 0 {
        append_str(&mut out, "\tEmpty\n");
    } else {
        let mut i: usize = 0;
        while i < ss.len()
            invariant
                ssv == ss_view(*ss),
                i <= ssv.len(),
                out@ + ss_lines(ssv, i as int) == head + ss_lines(ssv, 0),
            decreases ssv.len() - i,
        {
            let ghost before = out@;
            let d = u64_to_chars(i as u64);
            append_chars(&mut out, &d);
            out.push('\t');
            match &ss[i] {
                Some(t) => {
                    let mut tv: Vec<char> = Vec::new();
                    crate::unifiable::push_term_text(&mut tv, &**t);
                    append_chars(&mut out, &tv);
                },
                None => append_str(&mut out, "None"),
            }
            out.push('\n');
            assert(out@ == before + (nat_digits(i as nat) + seq!['\t'] + (match ssv[i as int] {
                Some(t) => term_text(t),
                None => "None"@,
            }) + seq!['\n']));
            assert(out@ + ss_lines(ssv, i + 1) =~= before + ss_lines(ssv, i as int));
            i = i + 1;
        }
        assert(ss_lines(ssv, i as int) == Seq::<char>::empty());
        assert(out@ =~= head + ss_lines(ssv, 0));
    }
    append_str(&mut out, "----------------------------");
    assert(out@ =~= ss_text(ssv));
    chars_to_string(&out)
}

} // verus!
