//! Support for the built-in predicate `print_list`, which prints the terms
//! of lists in a readable, comma separated form.
use vstd::prelude::*;
use crate::unifiable::{Unifiable, Term, term_text, push_term_text, terms_view};
use crate::substitution_set::{SubstitutionSet, ss_view, ground_term, list_of, get_ground_term, get_list};
use crate::text::append_str;

verus! {

/// The steps that the walk over a list may take: far more than any list
/// in memory has nodes.
pub const SLIST_STEPS: u64 = 18446744073709551615;

/// The next place of the walk over a list from the node `s_list`: the
/// next node and its term; a tail variable bound to a list continues
/// with that list and its first term.
pub open spec fn slist_next(s_list: Term, term: Term, ss: Seq<Option<Term>>) -> (Term, Term) {
    match s_list {
        Term::SLinkedList(_, next, _, _) => match *next {
            Term::SLinkedList(t1, _, _, tail_var) => if tail_var && !(*t1 is Anonymous) {
                match list_of(*t1, ss) {
                    Some(l) => (
                        l,
                        match l {
                            Term::SLinkedList(t, _, _, _) => *t,
                            _ => *t1,
                        },
                    ),
                    None => (*next, *t1),
                }
            } else {
                (*next, *t1)
            },
            _ => (*next, term),
        },
        _ => (s_list, term),
    }
}

/// The text of the terms of a list after the place (`s_list`, `term`),
/// in at most `fuel` steps: each term with a ground term is shown after a
/// comma; a Nil term ends the list. The walk also stops at a node which
/// is not a list node.
pub open spec fn slist_walk(s_list: Term, term: Term, ss: Seq<Option<Term>>, fuel: nat) -> Seq<char>
    decreases fuel,
{
    if fuel == 0 || term is Nil || !(s_list is SLinkedList) {
        Seq::empty()
    } else {
        let (s2, t2) = slist_next(s_list, term, ss);
        if t2 is Nil {
            Seq::empty()
        } else {
            (match ground_term(t2, ss) {
                Some(g) => ", "@ + term_text(g),
                None => Seq::empty(),
            }) + slist_walk(s2, t2, ss, (fuel - 1) as nat)
        }
    }
}

/// The text of the terms of a list: the ground terms of its items,
/// separated by commas, following a tail variable bound to a list. For
/// `[Α, Β, Γ, Δ]` it is `Α, Β, Γ, Δ`.
pub open spec fn format_slist_spec(the_list: Term, ss: Seq<Option<Term>>) -> Seq<char> {
    match the_list {
        Term::SLinkedList(t, _, _, _) => (if *t is Nil {
            Seq::empty()
        } else {
            match ground_term(*t, ss) {
                Some(g) => term_text(g),
                None => Seq::empty(),
            }
        }) + slist_walk(the_list, *t, ss, SLIST_STEPS as nat),
        _ => Seq::empty(),
    }
}

/// The next place of the walk (see `slist_next`).
fn next_place<'a>(s_list: &'a Unifiable, term: &'a Unifiable, ss: &'a SubstitutionSet) -> (r: (
    &'a Unifiable,
    &'a Unifiable,
))
    ensures
        (r.0@, r.1@) == slist_next(s_list@, term@, ss_view(*ss)),
{
    match s_list {
        Unifiable::SLinkedList { next, .. } => {
            let n: &Unifiable = &**next;
            assert(s_list@ matches Term::SLinkedList(_, nx, _, _) && *nx == n@);
            match n {
                Unifiable::SLinkedList { term: t1, tail_var, .. } => {
                    let t1: &Unifiable = &**t1;
                    assert(n@ matches Term::SLinkedList(x1, _, _, tv) && *x1 == t1@ && tv == *tail_var);
                    proof {
                        crate::unifiable::lemma_view_kind(*t1);
                    }
                    let anon = match t1 {
                        Unifiable::Anonymous => true,
                        _ => false,
                    };
                    if *tail_var && !anon {
                        match get_list(t1, ss) {
                            Some(l) => {
                                proof {
                                    crate::unifiable::lemma_view_kind(*l);
                                }
                                match l {
                                    Unifiable::SLinkedList { term: t, .. } => (l, &**t),
                                    _ => (l, t1),
                                }
                            },
                            None => (n, t1),
                        }
                    } else {
                        (n, t1)
                    }
                },
                _ => {
                    proof {
                        crate::unifiable::lemma_view_kind(*n);
                    }
                    (n, term)
                },
            }
        },
        _ => (s_list, term),
    }
}

/// Formats the terms of a list for display (see `format_slist_spec`).
pub fn format_slist(the_list: &Unifiable, ss: &SubstitutionSet) -> (s: String)
    ensures
        s@ == format_slist_spec(the_list@, ss_view(*ss)),
{
    let ghost sv = ss_view(*ss);
    let mut out: Vec<char> = Vec::new();
    let first: &Unifiable = match the_list {
        Unifiable::SLinkedList { term, .. } => &**term,
        _ => {
            proof {
                crate::unifiable::lemma_view_kind(*the_list);
            }
            return crate::text::chars_to_string(&out);
        },
    };
    proof {
        crate::unifiable::lemma_view_kind(*first);
    }
    match first {
        Unifiable::Nil => {},
        _ => match get_ground_term(first, ss) {
            Some(g) => push_term_text(&mut out, g),
            None => {},
        },
    }
    let ghost head = out@;
    assert(the_list@ matches Term::SLinkedList(t, _, _, _) && *t == first@);
    let mut s_list: &Unifiable = the_list;
    let mut term: &Unifiable = first;
    let mut fuel: u64 = SLIST_STEPS;
    loop
        invariant
            sv == ss_view(*ss),
            out@ + slist_walk(s_list@, term@, sv, fuel as nat) == head + slist_walk(
                the_list@,
                first@,
                sv,
                SLIST_STEPS as nat,
            ),
        ensures
            out@ == head + slist_walk(the_list@, first@, sv, SLIST_STEPS as nat),
        decreases fuel,
    {
        proof {
            crate::unifiable::lemma_view_kind(*term);
            crate::unifiable::lemma_view_kind(*s_list);
        }
        let is_nil = match term {
            Unifiable::Nil => true,
            _ => false,
        };
        let is_list = match s_list {
            Unifiable::SLinkedList { .. } => true,
            _ => false,
        };
        if fuel == 0 || is_nil || !is_list {
            assert(out@ + Seq::<char>::empty() =~= out@);
            break;
        }
        let (s2, t2) = next_place(s_list, term, ss);
        proof {
            crate::unifiable::lemma_view_kind(*t2);
        }
        let nil2 = match t2 {
            Unifiable::Nil => true,
            _ => false,
        };
        if nil2 {
            assert(out@ + Seq::<char>::empty() =~= out@);
            break;
        }
        let ghost before = out@;
        match get_ground_term(t2, ss) {
            Some(g) => {
                append_str(&mut out, ", ");
                push_term_text(&mut out, g);
            },
            None => {},
        }
        let ghost piece = match ground_term(t2@, sv) {
            Some(g) => ", "@ + term_text(g),
            None => Seq::<char>::empty(),
        };
        assert(out@ =~= before + piece);
        assert(before + (piece + slist_walk(s2@, t2@, sv, (fuel - 1) as nat)) =~= out@ + slist_walk(
            s2@,
            t2@,
            sv,
            (fuel - 1) as nat,
        ));
        s_list = s2;
        term = t2;
        fuel = fuel - 1;
    }
    crate::text::chars_to_string(&out)
}

/// The text that `print_list` prints for its arguments `args[i..]`: a
/// variable stands for its ground term; a list is shown by its terms
/// (see `format_slist_spec`), lists after the first separated by a comma
/// and a new line; any other term by its text; each on its own line.
pub open spec fn print_list_text(args: Seq<Term>, ss: Seq<Option<Term>>, i: int) -> Seq<char>
    decreases args.len() - i,
{
    if i < 0 || i >= args.len() {
        Seq::empty()
    } else {
        let a = args[i];
        let arg = if a is LogicVar {
            match ground_term(a, ss) {
                Some(g) => g,
                None => a,
            }
        } else {
            a
        };
        (if arg is SLinkedList {
            (if i > 0 {
                ",\n"@
            } else {
                Seq::empty()
            }) + match ground_term(arg, ss) {
                Some(t) => format_slist_spec(t, ss) + "\n"@,
                None => term_text(arg) + "\n"@,
            }
        } else {
            term_text(arg) + "\n"@
        }) + print_list_text(args, ss, i + 1)
    }
}

/// Appends what `print_list` prints for its arguments (see
/// `print_list_text`).
pub fn print_list(args: &Vec<Unifiable>, ss: &SubstitutionSet, out: &mut Vec<char>)
    ensures
        final(out)@ == old(out)@ + print_list_text(terms_view(args@), ss_view(*ss), 0),
{
    let ghost av = terms_view(args@);
    let ghost sv = ss_view(*ss);
    let ghost start = out@;
    let mut i: usize = 0;
    while i < args.len()
        invariant
            av == terms_view(args@),
            sv == ss_view(*ss),
            i <= args@.len(),
            out@ + print_list_text(av, sv, i as int) == start + print_list_text(av, sv, 0),
        decreases args@.len() - i,
    {
        let ghost before = out@;
        assert(av[i as int] == args@[i as int]@);
        let a: &Unifiable = &args[i];
        proof {
            crate::unifiable::lemma_view_kind(*a);
        }
        let arg: &Unifiable = match a {
            Unifiable::LogicVar { .. } => match get_ground_term(a, ss) {
                Some(g) => g,
                None => a,
            },
            _ => a,
        };
        proof {
            crate::unifiable::lemma_view_kind(*arg);
        }
        match arg {
            Unifiable::SLinkedList { .. } => {
                if i > 0 {
                    append_str(out, ",\n");
                } else {
                    assert(out@ + Seq::<char>::empty() =~= out@);
                }
                match get_ground_term(arg, ss) {
                    Some(t) => {
                        let s = format_slist(t, ss);
                        append_str(out, s.as_str());
                    },
                    None => push_term_text(out, arg),
                }
                append_str(out, "\n");
            },
            _ => {
                push_term_text(out, arg);
                append_str(out, "\n");
            },
        }
        assert(out@ + print_list_text(av, sv, i + 1) =~= before + print_list_text(av, sv, i as int));
        i = i + 1;
    }
    assert(out@ + print_list_text(av, sv, i as int) =~= out@);
}

} // verus!
