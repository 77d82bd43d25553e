//! The built-in predicates: unify, the comparisons, count, keep,
//! exclude, append, print and nl.
use vstd::prelude::*;
use std::rc::Rc;
use crate::unifiable::{Unifiable, Term, term_view, terms_view, term_text, copy_term, copy_terms,
    is_nil, is_anonymous, lemma_view_kind, push_term_text};
use crate::substitution_set::{SubstitutionSet, ss_view, ss_view_ref, ground_term, list_of, constant_of, bound_at,
    get_ground_term, get_list, get_constant};
use crate::unify::{unify_spec, opt_ss_view, unify_depth, UNIFY_DEPTH};
use crate::s_linked_list::{make_linked_list, mll, spliced_count};
use crate::knowledge_base::{str_lt, lemma_str_lt_total};
use crate::built_in_print::{split_pieces, interleave, strs_view, format_for_print_pred};
use crate::text::{str_to_chars, chars_to_string, append_chars, append_str, chars_eq_str};
use crate::goal::BuiltInPredicate;

verus! {

// ---------------------------------------------------------------------
// Lists

/// The items that `count_terms` counts, from the node with term `head`
/// and next node `slist`: a tail variable bound to a list continues into
/// that list (at most `fuel` times); the count stops at an unbound tail.
pub open spec fn count_walk(head: Term, slist: Term, ss: Seq<Option<Term>>, fuel: nat) -> nat
    decreases fuel, slist,
{
    if head is Nil {
        0
    } else {
        1 + match slist {
            Term::SLinkedList(t, n, _, tv) => if tv && !(*t is Anonymous) {
                match list_of(*t, ss) {
                    Some(Term::SLinkedList(t2, n2, _, _)) => if fuel == 0 {
                        0
                    } else {
                        count_walk(*t2, *n2, ss, (fuel - 1) as nat)
                    },
                    _ => 0,
                }
            } else {
                count_walk(*t, *n, ss, fuel)
            },
            _ => 0,
        }
    }
}

/// What `count_terms` gives: the number of items of a list (following
/// bound tail variables), or 1 for a term which is not a list (or an
/// unbound variable).
pub open spec fn count_spec(u: Term, ss: Seq<Option<Term>>) -> nat {
    let g = if u is LogicVar {
        ground_term(u, ss)
    } else {
        Some(u)
    };
    match g {
        None => 1,
        Some(Term::SLinkedList(t, n, _, _)) => count_walk(*t, *n, ss, ss.len()),
        Some(_) => 1,
    }
}

/// Counts the items of a list, following tail variables which are bound to
/// lists. A term which is not a list counts as 1.
pub fn count_terms(uni: &Unifiable, ss: &SubstitutionSet) -> (r: i64)
    ensures
        r == if count_spec(uni@, ss_view(*ss)) <= i64::MAX {
            count_spec(uni@, ss_view(*ss)) as i64
        } else {
            i64::MAX
        },
{
    let ghost sv = ss_view(*ss);
    proof {
        lemma_view_kind(*uni);
    }
    let u: &Unifiable = match uni {
        Unifiable::LogicVar { .. } => match get_ground_term(uni, ss) {
            Some(g) => g,
            None => {
                return 1;
            },
        },
        _ => uni,
    };
    proof {
        lemma_view_kind(*u);
    }
    match u {
        Unifiable::SLinkedList { term, next, .. } => {
            let mut head: &Unifiable = term;
            let mut slist: &Unifiable = next;
            let mut fuel: usize = ss.len();
            let mut count: i64 = 0;
            let ghost total = count_walk(term@, next@, sv, sv.len());
            assert(count_spec(uni@, sv) == total);
            loop
                invariant
                    count_spec(uni@, sv) == total,
                    sv == ss_view(*ss),
                    fuel <= sv.len(),
                    count as nat + count_walk(head@, slist@, sv, fuel as nat) == total || count == i64::MAX,
                    0 <= count <= i64::MAX,
                    total == count_walk(term@, next@, sv, sv.len()),
                    count == i64::MAX ==> total >= i64::MAX,
                decreases fuel, slist,
            {
                if is_nil(head) {
                    return count;
                }
                let ghost c0 = count;
                if count < i64::MAX {
                    count = count + 1;
                }
                proof {
                    lemma_view_kind(*slist);
                }
                match slist {
                    Unifiable::SLinkedList { term: t, next: n, tail_var: tv, .. } => {
                        if *tv && !is_anonymous(t) {
                            match get_list(t, ss) {
                                Some(l) => {
                                    proof {
                                        lemma_view_kind(*l);
                                    }
                                    match l {
                                        Unifiable::SLinkedList { term: t2, next: n2, .. } => {
                                            if fuel == 0 {
                                                return count;
                                            }
                                            head = t2;
                                            slist = n2;
                                            fuel = fuel - 1;
                                        },
                                        _ => {
                                            return count;
                                        },
                                    }
                                },
                                None => {
                                    return count;
                                },
                            }
                        } else {
                            head = t;
                            slist = n;
                        }
                    },
                    _ => {
                        return count;
                    },
                }
            }
        },
        _ => 1,
    }
}

/// The items that `filter` visits, from the node with term `head` and next
/// node `slist`: like `count_walk`, but an unbound tail variable is itself
/// visited.
pub open spec fn filter_walk(head: Term, slist: Term, ss: Seq<Option<Term>>, fuel: nat) -> Seq<Term>
    decreases fuel, slist,
{
    if head is Nil {
        Seq::empty()
    } else {
        seq![head] + match slist {
            Term::SLinkedList(t, n, _, tv) => if tv && !(*t is Anonymous) {
                match list_of(*t, ss) {
                    Some(Term::SLinkedList(t2, n2, _, _)) => if fuel == 0 {
                        Seq::empty()
                    } else {
                        filter_walk(*t2, *n2, ss, (fuel - 1) as nat)
                    },
                    Some(_) => Seq::empty(),
                    None => filter_walk(*t, *n, ss, fuel),
                }
            } else {
                filter_walk(*t, *n, ss, fuel)
            },
            _ => Seq::empty(),
        }
    }
}

/// The items of `items` which unify with `f` (or, to exclude, which do not).
pub open spec fn filtered(f: Term, items: Seq<Term>, ss: Seq<Option<Term>>, keep: bool) -> Seq<
    Term,
>
    decreases items.len(),
{
    if items.len() == 0 {
        Seq::empty()
    } else if (unify_spec(f, items.last(), ss) is Some) == keep {
        filtered(f, items.drop_last(), ss, keep).push(items.last())
    } else {
        filtered(f, items.drop_last(), ss, keep)
    }
}

/// The list of the items, if their count can be held.
pub open spec fn list_of_items(items: Seq<Term>) -> Option<Term> {
    if items.len() + spliced_count(items) + 2 <= usize::MAX {
        Some(mll(false, items))
    } else {
        None
    }
}

/// What `filter` gives: the list of the items of the ground list which
/// pass the filter; `None` if the term is not (bound to) a list.
pub open spec fn filter_spec(f: Term, u: Term, ss: Seq<Option<Term>>, keep: bool) -> Option<Term> {
    match ground_term(u, ss) {
        Some(Term::SLinkedList(t, n, _, _)) => {
            let items = filtered(f, filter_walk(*t, *n, ss, ss.len()), ss, keep);
            if items.len() + spliced_count(items) + 2 <= usize::MAX {
                Some(mll(false, items))
            } else {
                None
            }
        },
        _ => None,
    }
}

/// Filters a list: keeps the items which unify with the filter term
/// (`keep`), or those which do not (exclude).
pub fn filter(filter_term: &Unifiable, uni: &Unifiable, ss: &Rc<SubstitutionSet>, keep: bool) -> (r:
    Option<Unifiable>)
    ensures
        match r {
            Some(l) => filter_spec(filter_term@, uni@, ss_view(**ss), keep) == Some(l@),
            None => filter_spec(filter_term@, uni@, ss_view(**ss), keep) is None,
        },
{
    let g = match get_ground_term(uni, ss) {
        Some(g) => g,
        None => {
            return None;
        },
    };
    proof {
        lemma_view_kind(*g);
    }
    match g {
        Unifiable::SLinkedList { term, next, .. } => {
            let ghost sv = ss_view_ref(&**ss);
            let ghost all = filter_walk(term@, next@, sv, sv.len());
            assert(filter_spec(filter_term@, uni@, sv, keep) == list_of_items(filtered(filter_term@, all, sv, keep)));
            let mut head: &Unifiable = term;
            let mut slist: &Unifiable = next;
            let mut fuel: usize = ss.len();
            let mut kept: Vec<Unifiable> = Vec::new();
            let ghost mut seen: Seq<Term> = Seq::empty();
            assert(terms_view(kept@) =~= Seq::<Term>::empty());
            assert(seen + all =~= all);
            loop
                invariant
                    filter_spec(filter_term@, uni@, sv, keep) == list_of_items(filtered(filter_term@, all, sv, keep)),
                    sv == ss_view(**ss),
                    fuel <= ss_view(**ss).len(),
                    all == filter_walk(term@, next@, ss_view(**ss), ss_view(**ss).len()),
                    seen + filter_walk(head@, slist@, ss_view(**ss), fuel as nat) == all,
                    terms_view(kept@) == filtered(filter_term@, seen, ss_view(**ss), keep),
                decreases fuel, slist,
            {
                if is_nil(head) {
                    assert(seen + Seq::<Term>::empty() =~= seen);
                    assert(seen =~= all);
                    assert(filter_spec(filter_term@, uni@, sv, keep) == list_of_items(terms_view(kept@)));
                    return finish_list(kept);
                }
                let pass = unify_depth(filter_term, head, ss, UNIFY_DEPTH).is_some();
                let ghost s2 = seen.push(head@);
                assert(s2.drop_last() =~= seen);
                if pass == keep {
                    let c = copy_term(head);
                    let ghost kv = terms_view(kept@);
                    kept.push(c);
                    assert(terms_view(kept@) =~= kv.push(head@));
                }
                proof {
                    seen = s2;
                    lemma_view_kind(*slist);
                }
                match slist {
                    Unifiable::SLinkedList { term: t, next: n, tail_var: tv, .. } => {
                        if *tv && !is_anonymous(t) {
                            match get_list(t, ss) {
                                Some(l) => {
                                    proof {
                                        lemma_view_kind(*l);
                                    }
                                    match l {
                                        Unifiable::SLinkedList { term: t2, next: n2, .. } => {
                                            if fuel == 0 {
                                                assert(seen =~= all);
                                                return finish_list(kept);
                                            }
                                            head = t2;
                                            slist = n2;
                                            fuel = fuel - 1;
                                        },
                                        _ => {
                                            assert(seen =~= all);
                                            return finish_list(kept);
                                        },
                                    }
                                },
                                None => {
                                    head = t;
                                    slist = n;
                                },
                            }
                        } else {
                            head = t;
                            slist = n;
                        }
                    },
                    _ => {
                        assert(seen =~= all);
                        return finish_list(kept);
                    },
                }
            }
        },
        _ => None,
    }
}


/// Makes a list of the items, if their count can be held.
fn finish_list(items: Vec<Unifiable>) -> (r: Option<Unifiable>)
    ensures
        match r {
            Some(l) => terms_view(items@).len() + spliced_count(terms_view(items@)) + 2 <= usize::MAX
                && l@ == mll(false, terms_view(items@)),
            None => !(terms_view(items@).len() + spliced_count(terms_view(items@)) + 2 <= usize::MAX),
        },
{
    if crate::s_linked_list::list_size_ok(&items) {
        Some(make_linked_list(false, items))
    } else {
        None
    }
}


// ---------------------------------------------------------------------
// Comparison

/// The order of two constants.
#[derive(PartialEq, Eq, Structural, Clone, Copy, Debug)]
pub enum Order3 {
    Below,
    Same,
    Above,
}

/// The order of two constants of the same kind: atoms by their text,
/// integers by value. Floats and constants of different kinds are not
/// compared.
pub open spec fn order_of(a: Term, b: Term) -> Option<Order3> {
    match (a, b) {
        (Term::Atom(x), Term::Atom(y)) => Some(
            if x == y {
                Order3::Same
            } else if str_lt(x, y) {
                Order3::Below
            } else {
                Order3::Above
            },
        ),
        (Term::SInteger(i), Term::SInteger(j)) => Some(
            if i == j {
                Order3::Same
            } else if i < j {
                Order3::Below
            } else {
                Order3::Above
            },
        ),
        _ => None,
    }
}

/// Does the order satisfy the comparison predicate of the given name?
pub open spec fn order_passes(name: Seq<char>, o: Order3) -> bool {
    if name == "equal"@ {
        o == Order3::Same
    } else if name == "less_than"@ {
        o == Order3::Below
    } else if name == "less_than_or_equal"@ {
        o == Order3::Below || o == Order3::Same
    } else if name == "greater_than"@ {
        o == Order3::Above
    } else {
        o == Order3::Above || o == Order3::Same
    }
}

/// Is the name that of a comparison predicate?
pub open spec fn is_comparison(name: Seq<char>) -> bool {
    name == "equal"@ || name == "less_than"@ || name == "less_than_or_equal"@ || name
        == "greater_than"@ || name == "greater_than_or_equal"@
}

/// Orders two constants.
fn order_constants(a: &Unifiable, b: &Unifiable) -> (r: Option<Order3>)
    ensures
        r == order_of(a@, b@),
{
    proof {
        lemma_view_kind(*a);
        lemma_view_kind(*b);
    }
    match (a, b) {
        (Unifiable::Atom(x), Unifiable::Atom(y)) => {
            let xc = str_to_chars(x.as_str());
            let yc = str_to_chars(y.as_str());
            if crate::text::chars_eq(&xc, &yc) {
                Some(Order3::Same)
            } else if crate::knowledge_base::text_lt(&xc, &yc) {
                Some(Order3::Below)
            } else {
                Some(Order3::Above)
            }
        },
        (Unifiable::SInteger(i), Unifiable::SInteger(j)) => {
            if *i == *j {
                Some(Order3::Same)
            } else if *i < *j {
                Some(Order3::Below)
            } else {
                Some(Order3::Above)
            }
        },
        _ => None,
    }
}

// ---------------------------------------------------------------------
// Append

/// The items of a list, node by node, up to a node whose term is Nil.
pub open spec fn plain_items(l: Term) -> Seq<Term>
    decreases l,
{
    match l {
        Term::SLinkedList(t, n, _, _) => if *t is Nil {
            Seq::empty()
        } else {
            seq![*t] + plain_items(*n)
        },
        _ => Seq::empty(),
    }
}

/// What `append` gathers from its arguments: the items of lists, other
/// terms as they are (variables by their ground terms), unbound variables
/// left out.
pub open spec fn append_items(ts: Seq<Term>, ss: Seq<Option<Term>>) -> Seq<Term>
    decreases ts.len(),
{
    if ts.len() == 0 {
        Seq::empty()
    } else {
        let t0 = ts.last();
        let t = if t0 is LogicVar {
            match ground_term(t0, ss) {
                Some(g) => g,
                None => t0,
            }
        } else {
            t0
        };
        append_items(ts.drop_last(), ss) + if t is SLinkedList {
            plain_items(t)
        } else if t is LogicVar {
            Seq::empty()
        } else {
            seq![t]
        }
    }
}

/// Appends the items of a list to `out`.
fn push_plain_items(out: &mut Vec<Unifiable>, l: &Unifiable)
    ensures
        terms_view(final(out)@) == terms_view(old(out)@) + plain_items(l@),
    decreases l,
{
    match l {
        Unifiable::SLinkedList { term, next, .. } => {
            if is_nil(term) {
                assert(terms_view(out@) + Seq::<Term>::empty() =~= terms_view(out@));
                return ;
            }
            let ghost before = terms_view(out@);
            out.push(copy_term(term));
            assert(terms_view(out@) =~= before.push(term@));
            push_plain_items(out, next);
            assert(before.push(term@) + plain_items(next@) =~= before + (seq![term@] + plain_items(next@)));
        },
        _ => {
            proof {
                lemma_view_kind(*l);
            }
            assert(terms_view(out@) + Seq::<Term>::empty() =~= terms_view(out@));
        },
    }
}

/// Gathers the items that `append` joins, from the first `n` arguments.
fn gather_append(terms: &Vec<Unifiable>, n: usize, ss: &SubstitutionSet) -> (r: Vec<Unifiable>)
    requires
        n <= terms@.len(),
    ensures
        terms_view(r@) == append_items(terms_view(terms@).take(n as int), ss_view(*ss)),
{
    let ghost tv = terms_view(terms@);
    let mut out: Vec<Unifiable> = Vec::new();
    let mut i: usize = 0;
    assert(terms_view(out@) =~= Seq::<Term>::empty());
    assert(tv.take(0) =~= Seq::<Term>::empty());
    while i < n
        invariant
            tv == terms_view(terms@),
            n <= terms@.len(),
            i <= n,
            terms_view(out@) == append_items(tv.take(i as int), ss_view(*ss)),
        decreases n - i,
    {
        let ghost pre = tv.take(i as int);
        let ghost next = tv.take(i + 1);
        assert(next.drop_last() =~= pre);
        assert(next.last() == terms@[i as int]@);
        let t0 = &terms[i];
        proof {
            lemma_view_kind(*t0);
        }
        let t: &Unifiable = match t0 {
            Unifiable::LogicVar { .. } => match get_ground_term(t0, ss) {
                Some(g) => g,
                None => t0,
            },
            _ => t0,
        };
        proof {
            lemma_view_kind(*t);
        }
        let ghost before = terms_view(out@);
        match t {
            Unifiable::SLinkedList { .. } => {
                push_plain_items(&mut out, t);
            },
            Unifiable::LogicVar { .. } => {
                assert(before + Seq::<Term>::empty() =~= before);
            },
            _ => {
                out.push(copy_term(t));
                assert(terms_view(out@) =~= before + seq![t@]);
            },
        }
        i = i + 1;
    }
    out
}

// ---------------------------------------------------------------------
// Print

/// The text of `print`: the first text is a format in which each `%s` is
/// replaced by the next text in turn.
pub open spec fn print_text(texts: Seq<Seq<char>>) -> Seq<char> {
    if texts.len() == 0 {
        Seq::empty()
    } else {
        split_pieces(texts[0], 0)[0] + interleave(split_pieces(texts[0], 0), texts, 1)
    }
}

/// The text of a term for `print`: that of its ground term, if it has one.
pub open spec fn print_term_text(t: Term, ss: Seq<Option<Term>>) -> Seq<char> {
    match ground_term(t, ss) {
        Some(g) => term_text(g),
        None => term_text(t),
    }
}

/// The texts of the terms for `print`.
pub open spec fn print_texts(ts: Seq<Term>, ss: Seq<Option<Term>>) -> Seq<Seq<char>> {
    ts.map_values(|t: Term| print_term_text(t, ss))
}

// ---------------------------------------------------------------------
// functor

/// The term a built-in predicate works on for an argument: a logic
/// variable with a ground term stands for it.
pub open spec fn resolved(t: Term, ss: Seq<Option<Term>>) -> Term {
    match ground_term(t, ss) {
        Some(g) => g,
        None => t,
    }
}

/// Does a functor match a pattern? A pattern that ends with an asterisk
/// matches every atom that starts with the rest of it; any other pattern
/// matches the atom with the same text.
pub open spec fn atoms_match_spec(functor: Term, pattern: Seq<char>) -> bool {
    match functor {
        Term::Atom(f) => if pattern.len() > 0 && pattern.last() == '*' {
            pattern.drop_last().len() <= f.len() && f.subrange(0, pattern.len() - 1) == pattern.drop_last()
        } else {
            f == pattern
        },
        _ => false,
    }
}

/// What `functor(Term, Functor)` and `functor(Term, Functor, Arity)` give:
/// the first argument must be a complex term; the second matches its
/// functor (an atom, perhaps a pattern with an asterisk) or is unified with
/// it (a variable); the third is unified with the number of its arguments.
pub open spec fn functor_spec(args: Seq<Term>, ss: Seq<Option<Term>>) -> Option<Seq<Option<Term>>> {
    if args.len() < 2 || args.len() > 3 {
        None
    } else {
        match resolved(args[0], ss) {
            Term::SComplex(cs) => if cs.len() == 0 || cs.len() - 1 > i64::MAX {
                None
            } else {
                let functor = cs[0];
                let second = resolved(args[1], ss);
                let ss1 = match second {
                    Term::Atom(pattern) => if atoms_match_spec(functor, pattern) {
                        Some(ss)
                    } else {
                        None
                    },
                    Term::LogicVar(_, _) => unify_spec(second, functor, ss),
                    _ => None,
                };
                if args.len() == 2 {
                    ss1
                } else {
                    match ss1 {
                        Some(s1) => unify_spec(resolved(args[2], ss), Term::SInteger(cs.len() - 1), s1),
                        None => None,
                    }
                }
            },
            _ => None,
        }
    }
}

/// The term an argument stands for (see `resolved`).
fn resolve<'a>(t: &'a Unifiable, ss: &'a SubstitutionSet) -> (r: &'a Unifiable)
    ensures
        r@ == resolved(t@, ss_view(*ss)),
{
    match get_ground_term(t, ss) {
        Some(g) => g,
        None => t,
    }
}

/// Compares a functor with a pattern (see `atoms_match_spec`).
fn atoms_match(functor: &Unifiable, pattern: &String) -> (r: bool)
    ensures
        r == atoms_match_spec(functor@, pattern@),
{
    let f = match functor {
        Unifiable::Atom(f) => f,
        _ => {
            return false;
        },
    };
    let fc = str_to_chars(f.as_str());
    let mut pc = str_to_chars(pattern.as_str());
    let n = pc.len();
    if n > 0 && pc[n - 1] == '*' {
        pc.pop();
        return crate::text::chars_starts_with(&fc, &pc);
    }
    crate::text::chars_eq(&fc, &pc)
}

/// Evaluates the `functor` predicate (see `functor_spec`).
pub fn eval_functor(args: &Vec<Unifiable>, ss: &Rc<SubstitutionSet>) -> (r: Option<Rc<SubstitutionSet>>)
    ensures
        opt_ss_view(r) == functor_spec(terms_view(args@), ss_view(**ss)),
{
    let ghost av = terms_view(args@);
    if args.len() < 2 || args.len() > 3 {
        return None;
    }
    assert(av[0] == args@[0]@);
    assert(av[1] == args@[1]@);
    let first = resolve(&args[0], &**ss);
    proof {
        crate::unifiable::lemma_view_kind(*first);
    }
    let c_terms = match first {
        Unifiable::SComplex(cs) => cs,
        _ => {
            return None;
        },
    };
    proof {
        crate::unifiable::lemma_complex_view(*c_terms);
    }
    let n = c_terms.len();
    if n == 0 || (n - 1) as u64 > 9223372036854775807u64 {
        return None;
    }
    let arity: i64 = (n - 1) as i64;
    let functor = &c_terms[0];
    assert(terms_view(c_terms@)[0] == functor@);
    let second = resolve(&args[1], &**ss);
    proof {
        crate::unifiable::lemma_view_kind(*second);
    }
    let ss1: Option<Rc<SubstitutionSet>> = match second {
        Unifiable::Atom(pattern) => {
            if atoms_match(functor, pattern) {
                Some(Rc::clone(ss))
            } else {
                None
            }
        },
        Unifiable::LogicVar { .. } => unify_depth(second, functor, ss, UNIFY_DEPTH),
        _ => None,
    };
    if args.len() == 2 {
        return ss1;
    }
    assert(av[2] == args@[2]@);
    match ss1 {
        Some(s1) => {
            let third = resolve(&args[2], &**ss);
            let a = Unifiable::SInteger(arity);
            unify_depth(third, &a, &s1, UNIFY_DEPTH)
        },
        None => None,
    }
}

// ---------------------------------------------------------------------
// Evaluation

/// What a built-in predicate gives: the new substitution set (`None` if it
/// fails) and the text it prints. `!` succeeds here; its pruning is done
/// by the solver.
pub open spec fn builtin_spec(name: Seq<char>, terms: Option<Seq<Term>>, ss: Seq<Option<Term>>) -> (
    Option<Seq<Option<Term>>>,
    Seq<char>,
) {
    let args = match terms {
        Some(ts) => ts,
        None => Seq::empty(),
    };
    if name == "!"@ {
        (Some(ss), Seq::empty())
    } else if name == "nl"@ {
        (Some(ss), seq!['\n'])
    } else if name == "print"@ {
        (Some(ss), print_text(print_texts(args, ss)))
    } else if name == "print_list"@ {
        (Some(ss), crate::built_in_print_list::print_list_text(args, ss, 0))
    } else if name == "unify"@ {
        (
            if args.len() >= 2 {
                unify_spec(args[0], args[1], ss)
            } else {
                None
            },
            Seq::empty(),
        )
    } else if is_comparison(name) {
        (
            if args.len() >= 2 {
                match (constant_of(args[0], ss), constant_of(args[1], ss)) {
                    (Some(a), Some(b)) => match order_of(a, b) {
                        Some(o) => if order_passes(name, o) {
                            Some(ss)
                        } else {
                            None
                        },
                        None => None,
                    },
                    _ => None,
                }
            } else {
                None
            },
            Seq::empty(),
        )
    } else if name == "count"@ {
        (
            if args.len() == 2 {
                let c = count_spec(args[0], ss);
                let c2: int = if c <= i64::MAX {
                    c as int
                } else {
                    i64::MAX as int
                };
                unify_spec(args[1], Term::SInteger(c2), ss)
            } else {
                None
            },
            Seq::empty(),
        )
    } else if name == "include"@ || name == "exclude"@ {
        (
            if args.len() == 3 {
                match filter_spec(args[0], args[1], ss, name == "include"@) {
                    Some(l) => unify_spec(args[2], l, ss),
                    None => None,
                }
            } else {
                None
            },
            Seq::empty(),
        )
    } else if name == "functor"@ {
        (functor_spec(args, ss), Seq::empty())
    } else if name == "append"@ {
        (
            if args.len() >= 2 {
                match list_of_items(append_items(args.take(args.len() - 1), ss)) {
                    Some(l) => unify_spec(args.last(), l, ss),
                    None => None,
                }
            } else {
                None
            },
            Seq::empty(),
        )
    } else {
        (None, Seq::empty())
    }
}

/// Evaluates a built-in predicate in the substitution set `ss`: gives the
/// new substitution set, or `None` if the predicate fails, and appends what
/// it prints to `out`.
pub fn eval_builtin(b: &BuiltInPredicate, ss: &Rc<SubstitutionSet>, out: &mut Vec<char>) -> (r: Option<
    Rc<SubstitutionSet>,
>)
    ensures
        ({
            let (res, text) = builtin_spec(
                b.functor@,
                match b.terms {
                    Some(ts) => Some(terms_view(ts@)),
                    None => None,
                },
                ss_view(**ss),
            );
            opt_ss_view(r) == res && final(out)@ == old(out)@ + text
        }),
{
    let empty: Vec<Unifiable> = Vec::new();
    let args: &Vec<Unifiable> = match &b.terms {
        Some(ts) => ts,
        None => &empty,
    };
    assert(terms_view(empty@) =~= Seq::<Term>::empty());
    let ghost av = terms_view(args@);
    let f = str_to_chars(b.functor.as_str());
    proof {
        reveal_strlit("!");
        reveal_strlit("nl");
        reveal_strlit("print");
        reveal_strlit("unify");
        reveal_strlit("equal");
        reveal_strlit("less_than");
        reveal_strlit("less_than_or_equal");
        reveal_strlit("greater_than");
        reveal_strlit("greater_than_or_equal");
        reveal_strlit("count");
        reveal_strlit("include");
        reveal_strlit("exclude");
        reveal_strlit("append");
        reveal_strlit("functor");
        reveal_strlit("print_list");
    }
    if chars_eq_str(&f, "!") {
        assert(out@ + Seq::<char>::empty() =~= out@);
        return Some(Rc::clone(ss));
    }
    if chars_eq_str(&f, "nl") {
        out.push('\n');
        return Some(Rc::clone(ss));
    }
    if chars_eq_str(&f, "print_list") {
        assert(b.functor@ == "print_list"@);
        assert("print_list"@.len() == 10 && "print"@.len() == 5);
        assert(b.functor@ != "print"@);
        crate::built_in_print_list::print_list(args, &**ss, out);
        return Some(Rc::clone(ss));
    }
    if chars_eq_str(&f, "print") {
        let mut texts: Vec<String> = Vec::new();
        let mut i: usize = 0;
        while i < args.len()
            invariant
                av == terms_view(args@),
                i <= args@.len(),
                crate::built_in_print::strs_view(texts@) == print_texts(av, ss_view(**ss)).take(i as int),
            decreases args@.len() - i,
        {
            let mut tv: Vec<char> = Vec::new();
            match get_ground_term(&args[i], ss) {
                Some(g) => push_term_text(&mut tv, g),
                None => push_term_text(&mut tv, &args[i]),
            }
            let ghost before = crate::built_in_print::strs_view(texts@);
            assert(av[i as int] == args@[i as int]@);
            assert(tv@ == print_term_text(av[i as int], ss_view(**ss)));
            let st = chars_to_string(&tv);
            texts.push(st);
            assert(crate::built_in_print::strs_view(texts@) =~= before.push(st@));
            assert(crate::built_in_print::strs_view(texts@) =~= print_texts(av, ss_view(**ss)).take(i + 1));
            i = i + 1;
        }
        assert(print_texts(av, ss_view(**ss)).take(i as int) =~= print_texts(av, ss_view(**ss)));
        if texts.len() > 0 {
            let s = format_for_print_pred(&texts);
            append_str(out, s.as_str());
        } else {
            assert(out@ + Seq::<char>::empty() =~= out@);
        }
        return Some(Rc::clone(ss));
    }
    assert(out@ + Seq::<char>::empty() =~= out@);
    if chars_eq_str(&f, "unify") {
        if args.len() < 2 {
            return None;
        }
        return unify_depth(&args[0], &args[1], ss, UNIFY_DEPTH);
    }
    if chars_eq_str(&f, "equal") || chars_eq_str(&f, "less_than") || chars_eq_str(&f, "less_than_or_equal")
        || chars_eq_str(&f, "greater_than") || chars_eq_str(&f, "greater_than_or_equal") {
        if args.len() < 2 {
            return None;
        }
        let a = match get_constant(&args[0], ss) {
            Some(a) => a,
            None => {
                return None;
            },
        };
        let c = match get_constant(&args[1], ss) {
            Some(c) => c,
            None => {
                return None;
            },
        };
        let o = match order_constants(a, c) {
            Some(o) => o,
            None => {
                return None;
            },
        };
        let pass = if chars_eq_str(&f, "equal") {
            o == Order3::Same
        } else if chars_eq_str(&f, "less_than") {
            o == Order3::Below
        } else if chars_eq_str(&f, "less_than_or_equal") {
            o == Order3::Below || o == Order3::Same
        } else if chars_eq_str(&f, "greater_than") {
            o == Order3::Above
        } else {
            o == Order3::Above || o == Order3::Same
        };
        if pass {
            return Some(Rc::clone(ss));
        }
        return None;
    }
    if chars_eq_str(&f, "count") {
        if args.len() != 2 {
            return None;
        }
        let c = count_terms(&args[0], ss);
        let ct = Unifiable::SInteger(c);
        return unify_depth(&args[1], &ct, ss, UNIFY_DEPTH);
    }
    if chars_eq_str(&f, "include") || chars_eq_str(&f, "exclude") {
        if args.len() != 3 {
            return None;
        }
        let keep = chars_eq_str(&f, "include");
        match filter(&args[0], &args[1], ss, keep) {
            Some(l) => {
                return unify_depth(&args[2], &l, ss, UNIFY_DEPTH);
            },
            None => {
                return None;
            },
        }
    }
    if chars_eq_str(&f, "functor") {
        return eval_functor(args, ss);
    }
    if chars_eq_str(&f, "append") {
        if args.len() < 2 {
            return None;
        }
        let n = args.len() - 1;
        let items = gather_append(args, n, ss);
        match finish_list(items) {
            Some(l) => {
                assert(av.last() == args@[n as int]@);
                return unify_depth(&args[n], &l, ss, UNIFY_DEPTH);
            },
            None => {
                return None;
            },
        }
    }
    None
}

/// The comparison predicates compare two integers by value: `less_than`
/// succeeds exactly when the first is strictly below the second,
/// `less_than_or_equal` when it is below or equal, `greater_than` when it
/// is strictly above, `greater_than_or_equal` when it is above or equal,
/// and `equal` when the two are equal; a comparison that succeeds binds
/// nothing.
pub proof fn law_compare_integers(a: Term, b: Term, i: int, j: int, ss: Seq<Option<Term>>)
    requires
        constant_of(a, ss) == Some(Term::SInteger(i)),
        constant_of(b, ss) == Some(Term::SInteger(j)),
    ensures
        builtin_spec("less_than"@, Some(seq![a, b]), ss).0 == if i < j {
            Some(ss)
        } else {
            None
        },
        builtin_spec("less_than_or_equal"@, Some(seq![a, b]), ss).0 == if i <= j {
            Some(ss)
        } else {
            None
        },
        builtin_spec("greater_than"@, Some(seq![a, b]), ss).0 == if i > j {
            Some(ss)
        } else {
            None
        },
        builtin_spec("greater_than_or_equal"@, Some(seq![a, b]), ss).0 == if i >= j {
            Some(ss)
        } else {
            None
        },
        builtin_spec("equal"@, Some(seq![a, b]), ss).0 == if i == j {
            Some(ss)
        } else {
            None
        },
{
    lemma_builtin_names();
}

/// The comparison predicates compare two atoms by their text: `equal`
/// succeeds exactly when the texts are the same, `less_than` exactly when
/// the first text comes strictly before the second, and `greater_than`
/// exactly when the second comes strictly before the first; of the three,
/// exactly one succeeds, so no atom is less than (or greater than) itself.
/// `less_than_or_equal` is `less_than` or `equal`, `greater_than_or_equal`
/// is `greater_than` or `equal`, and swapping the arguments swaps
/// `less_than` and `greater_than`.
pub proof fn law_compare_atoms(a: Term, b: Term, x: Seq<char>, y: Seq<char>, ss: Seq<Option<Term>>)
    requires
        constant_of(a, ss) == Some(Term::Atom(x)),
        constant_of(b, ss) == Some(Term::Atom(y)),
    ensures
        builtin_spec("equal"@, Some(seq![a, b]), ss).0 is Some <==> x == y,
        builtin_spec("less_than"@, Some(seq![a, b]), ss).0 is Some <==> str_lt(x, y),
        builtin_spec("greater_than"@, Some(seq![a, b]), ss).0 is Some <==> str_lt(y, x),
        x == y ==> builtin_spec("less_than"@, Some(seq![a, b]), ss).0 is None
            && builtin_spec("greater_than"@, Some(seq![a, b]), ss).0 is None,
        (builtin_spec("less_than"@, Some(seq![a, b]), ss).0 is Some) as int + (builtin_spec(
            "equal"@,
            Some(seq![a, b]),
            ss,
        ).0 is Some) as int + (builtin_spec("greater_than"@, Some(seq![a, b]), ss).0 is Some) as int
            == 1,
        builtin_spec("less_than_or_equal"@, Some(seq![a, b]), ss).0 is Some <==> (builtin_spec(
            "less_than"@,
            Some(seq![a, b]),
            ss,
        ).0 is Some || x == y),
        builtin_spec("greater_than_or_equal"@, Some(seq![a, b]), ss).0 is Some <==> (builtin_spec(
            "greater_than"@,
            Some(seq![a, b]),
            ss,
        ).0 is Some || x == y),
        builtin_spec("less_than"@, Some(seq![a, b]), ss).0 is Some <==> builtin_spec(
            "greater_than"@,
            Some(seq![b, a]),
            ss,
        ).0 is Some,
{
    lemma_builtin_names();
    lemma_str_lt_total(x, y);
}

/// The names of the built-in predicates are different texts: their
/// lengths, and first letters where the lengths agree.
proof fn lemma_builtin_names()
    ensures
        "!"@.len() == 1,
        "nl"@.len() == 2,
        "print"@.len() == 5 && "print"@[0] == 'p',
        "print_list"@.len() == 10,
        "unify"@.len() == 5 && "unify"@[0] == 'u',
        "equal"@.len() == 5 && "equal"@[0] == 'e',
        "count"@.len() == 5 && "count"@[0] == 'c',
        "less_than"@.len() == 9,
        "less_than_or_equal"@.len() == 18,
        "greater_than"@.len() == 12,
        "greater_than_or_equal"@.len() == 21,
        "functor"@.len() == 7 && "functor"@[0] == 'f',
        "include"@.len() == 7 && "include"@[0] == 'i',
        "exclude"@.len() == 7 && "exclude"@[0] == 'e',
        "append"@.len() == 6,
{
    reveal_strlit("less_than");
    reveal_strlit("less_than_or_equal");
    reveal_strlit("greater_than");
    reveal_strlit("greater_than_or_equal");
    reveal_strlit("equal");
    reveal_strlit("!");
    reveal_strlit("nl");
    reveal_strlit("print");
    reveal_strlit("print_list");
    reveal_strlit("unify");
    reveal_strlit("functor");
    reveal_strlit("append");
    reveal_strlit("count");
    reveal_strlit("include");
    reveal_strlit("exclude");
}

/// `functor(Term, Pattern)` on a complex term and an atom: a pattern that
/// does not end with an asterisk succeeds exactly when it is the functor's
/// text; a pattern that ends with an asterisk succeeds exactly when the
/// rest of it begins the functor's text. Success binds nothing.
pub proof fn law_functor_pattern(f: Seq<char>, rest: Seq<Term>, p: Seq<char>, ss: Seq<Option<Term>>)
    requires
        rest.len() <= i64::MAX,
    ensures
        (p.len() == 0 || p.last() != '*') ==> (builtin_spec(
            "functor"@,
            Some(seq![Term::SComplex(seq![Term::Atom(f)] + rest), Term::Atom(p)]),
            ss,
        ).0 is Some <==> f == p),
        (p.len() > 0 && p.last() == '*') ==> (builtin_spec(
            "functor"@,
            Some(seq![Term::SComplex(seq![Term::Atom(f)] + rest), Term::Atom(p)]),
            ss,
        ).0 is Some <==> p.drop_last().is_prefix_of(f)),
        builtin_spec(
            "functor"@,
            Some(seq![Term::SComplex(seq![Term::Atom(f)] + rest), Term::Atom(p)]),
            ss,
        ).0 is Some ==> builtin_spec(
            "functor"@,
            Some(seq![Term::SComplex(seq![Term::Atom(f)] + rest), Term::Atom(p)]),
            ss,
        ).0 == Some(ss),
{
    lemma_builtin_names();
    let cs = seq![Term::Atom(f)] + rest;
    assert(cs[0] == Term::Atom(f));
    let args = seq![Term::SComplex(cs), Term::Atom(p)];
    assert(resolved(args[0], ss) == Term::SComplex(cs));
    assert(resolved(args[1], ss) == Term::Atom(p));
    if p.len() > 0 && p.last() == '*' {
        if p.drop_last().is_prefix_of(f) {
            assert(f.subrange(0, p.len() - 1) =~= p.drop_last());
        }
    }
}

/// What `append` gathers, argument by argument: a list gives its items,
/// a variable stands for its ground term (an unbound one gives nothing),
/// and any other term, a complex term among them, is one item, in its
/// place.
pub proof fn law_append_items(front: Seq<Term>, t: Term, ss: Seq<Option<Term>>)
    ensures
        !(t is LogicVar) && t is SLinkedList ==> append_items(front.push(t), ss) == append_items(
            front,
            ss,
        ) + plain_items(t),
        !(t is LogicVar) && !(t is SLinkedList) ==> append_items(front.push(t), ss) == append_items(
            front,
            ss,
        ).push(t),
        t is LogicVar && ground_term(t, ss) is None ==> append_items(front.push(t), ss)
            == append_items(front, ss),
        t is LogicVar && ground_term(t, ss) is Some && !(ground_term(t, ss)->Some_0 is SLinkedList) ==> append_items(
            front.push(t),
            ss,
        ) == append_items(front, ss).push(ground_term(t, ss)->Some_0),
        t is LogicVar && ground_term(t, ss) is Some && ground_term(t, ss)->Some_0 is SLinkedList ==> append_items(
            front.push(t),
            ss,
        ) == append_items(front, ss) + plain_items(ground_term(t, ss)->Some_0),
{
    assert(front.push(t).drop_last() =~= front);
    assert(front.push(t).last() == t);
    if let Some(g) = ground_term(t, ss) {
        lemma_ground_not_var(t, ss);
    }
}

/// A ground term is not a variable.
proof fn lemma_ground_not_var(t: Term, ss: Seq<Option<Term>>)
    requires
        ground_term(t, ss) is Some,
    ensures
        !(ground_term(t, ss)->Some_0 is LogicVar),
{
    lemma_ground_walk_not_var(t, ss, ss.len());
}

proof fn lemma_ground_walk_not_var(t: Term, ss: Seq<Option<Term>>, fuel: nat)
    requires
        crate::substitution_set::ground_walk(t, ss, fuel) is Some,
    ensures
        !(crate::substitution_set::ground_walk(t, ss, fuel)->Some_0 is LogicVar),
    decreases fuel,
{
    if let Term::LogicVar(id, _) = t {
        if let Some(u) = crate::substitution_set::bound_at(ss, id) {
            if fuel > 0 {
                lemma_ground_walk_not_var(u, ss, (fuel - 1) as nat);
            }
        }
    }
}

/// `append(C, L, V)` with a complex term `C`, a list `L` and an unbound
/// variable `V` binds `V` to the list of `C` followed by the items of `L`.
pub proof fn law_append_complex_and_list(
    c: Term,
    l: Term,
    id: nat,
    name: Seq<char>,
    ss: Seq<Option<Term>>,
)
    requires
        c is SComplex,
        l is SLinkedList,
        bound_at(ss, id) is None,
        0 < id < usize::MAX,
        list_of_items(seq![c] + plain_items(l)) is Some,
    ensures
        builtin_spec("append"@, Some(seq![c, l, Term::LogicVar(id, name)]), ss).0 == Some(
            crate::unify::bind(ss, id, list_of_items(seq![c] + plain_items(l))->Some_0),
        ),
{
    lemma_builtin_names();
    let args = seq![c, l, Term::LogicVar(id, name)];
    let front = args.take(2);
    assert(front =~= seq![c].push(l));
    law_append_items(Seq::empty(), c, ss);
    law_append_items(seq![c], l, ss);
    assert(Seq::<Term>::empty().push(c) =~= seq![c]);
    assert(append_items(Seq::empty(), ss) =~= Seq::<Term>::empty());
    assert(Seq::<Term>::empty().push(c) =~= seq![c]);
    assert(append_items(front, ss) =~= seq![c] + plain_items(l));
    let lst = list_of_items(seq![c] + plain_items(l))->Some_0;
    assert(args.last() == Term::LogicVar(id, name));
    crate::unify::law_unify_unbound_var(id, name, lst, ss);
}
/// No node of the list marks a tail variable.
pub open spec fn no_tail_var(l: Term) -> bool
    decreases l,
{
    match l {
        Term::SLinkedList(_, n, _, tv) => !tv && no_tail_var(*n),
        _ => true,
    }
}

/// On a list without a tail variable, `count` and `include`/`exclude`
/// walk exactly the list's items.
proof fn lemma_walks_plain(t: Term, n: Term, c: nat, ss: Seq<Option<Term>>, fuel: nat)
    requires
        no_tail_var(n),
    ensures
        count_walk(t, n, ss, fuel) == plain_items(Term::SLinkedList(Box::new(t), Box::new(n), c, false)).len(),
        filter_walk(t, n, ss, fuel) == plain_items(Term::SLinkedList(Box::new(t), Box::new(n), c, false)),
    decreases n,
{
    let l = Term::SLinkedList(Box::new(t), Box::new(n), c, false);
    if !(t is Nil) {
        assert(plain_items(l) == seq![t] + plain_items(n));
        match n {
            Term::SLinkedList(t2, n2, c2, tv2) => {
                lemma_walks_plain(*t2, *n2, c2, ss, fuel);
                assert(!tv2);
                assert(n == Term::SLinkedList(t2, n2, c2, false));
                assert(count_walk(t, n, ss, fuel) == 1 + count_walk(*t2, *n2, ss, fuel));
                assert(filter_walk(t, n, ss, fuel) == seq![t] + filter_walk(*t2, *n2, ss, fuel));
            },
            _ => {
                assert(plain_items(n) == Seq::<Term>::empty());
                assert(seq![t] + Seq::<Term>::empty() =~= seq![t]);
                assert(count_walk(t, n, ss, fuel) == 1);
                assert(filter_walk(t, n, ss, fuel) == seq![t] + Seq::<Term>::empty());
            },
        }
    }
}

/// `count` gives the number of items of a list without a tail variable,
/// and 1 for a term which is not a list or a variable.
pub proof fn law_count_items(l: Term, ss: Seq<Option<Term>>)
    ensures
        l is SLinkedList && no_tail_var(l) ==> count_spec(l, ss) == plain_items(l).len(),
        !(l is SLinkedList) && !(l is LogicVar) ==> count_spec(l, ss) == 1,
{
    if let Term::SLinkedList(t, n, c, tv) = l {
        if no_tail_var(l) {
            lemma_walks_plain(*t, *n, c, ss, ss.len());
        }
    }
}

/// Filtering keeps the items in their order: `include` keeps exactly the
/// items that unify with the filter term, `exclude` exactly those that do
/// not, so that every item goes to one of the two.
pub proof fn law_filter_partition(f: Term, items: Seq<Term>, ss: Seq<Option<Term>>)
    ensures
        forall|k: int|
            0 <= k < filtered(f, items, ss, true).len() ==> unify_spec(
                f,
                #[trigger] filtered(f, items, ss, true)[k],
                ss,
            ) is Some,
        forall|k: int|
            0 <= k < filtered(f, items, ss, false).len() ==> unify_spec(
                f,
                #[trigger] filtered(f, items, ss, false)[k],
                ss,
            ) is None,
        filtered(f, items, ss, true).len() + filtered(f, items, ss, false).len() == items.len(),
        filtered(f, items, ss, true).to_multiset().add(filtered(f, items, ss, false).to_multiset())
            == items.to_multiset(),
    decreases items.len(),
{
    broadcast use vstd::seq_lib::group_seq_properties;
    if items.len() > 0 {
        law_filter_partition(f, items.drop_last(), ss);
        let x = items.last();
        assert(items =~= items.drop_last().push(x));
        let a = filtered(f, items.drop_last(), ss, true);
        let b = filtered(f, items.drop_last(), ss, false);
        if unify_spec(f, x, ss) is Some {
            assert forall|k: int| 0 <= k < a.push(x).len() implies unify_spec(f, #[trigger] a.push(x)[k], ss) is Some by {
                if k < a.len() {
                    assert(a.push(x)[k] == a[k]);
                }
            }
        } else {
            assert forall|k: int| 0 <= k < b.push(x).len() implies unify_spec(f, #[trigger] b.push(x)[k], ss) is None by {
                if k < b.len() {
                    assert(b.push(x)[k] == b[k]);
                }
            }
        }
    } else {
        assert(items.to_multiset() =~= vstd::multiset::Multiset::empty());
    }
}

/// `include(F, L, V)` and `exclude(F, L, V)` on a list `L` without a tail
/// variable and an unbound variable `V` bind `V` to the list of the items
/// of `L` that unify with `F` (for `include`) or that do not (for
/// `exclude`), in their order.
pub proof fn law_filter_list(
    f: Term,
    l: Term,
    id: nat,
    name: Seq<char>,
    ss: Seq<Option<Term>>,
    keep: bool,
)
    requires
        l is SLinkedList,
        no_tail_var(l),
        bound_at(ss, id) is None,
        0 < id < usize::MAX,
        list_of_items(filtered(f, plain_items(l), ss, keep)) is Some,
    ensures
        builtin_spec(
            if keep {
                "include"@
            } else {
                "exclude"@
            },
            Some(seq![f, l, Term::LogicVar(id, name)]),
            ss,
        ).0 == Some(
            crate::unify::bind(ss, id, list_of_items(filtered(f, plain_items(l), ss, keep))->Some_0),
        ),
{
    lemma_builtin_names();
    reveal_strlit("include");
    reveal_strlit("exclude");
    if let Term::SLinkedList(t, n, c, tv) = l {
        lemma_walks_plain(*t, *n, c, ss, ss.len());
        assert(plain_items(l) == plain_items(Term::SLinkedList(t, n, c, false)));
    }
    let lst = list_of_items(filtered(f, plain_items(l), ss, keep))->Some_0;
    crate::unify::law_unify_unbound_var(id, name, lst, ss);
}

} // verus!
