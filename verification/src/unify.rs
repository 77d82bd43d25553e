//! Unification of terms.
//!
//! Two terms unify if they are identical, if one of them is the anonymous
//! variable, or if a logic variable can be bound so that they become
//! identical. A successful unification gives a new substitution set, which
//! holds the bindings of the old one and possibly new ones; a failed one
//! gives `None`.
//!
//! A built-in function (`add`, `subtract`, `multiply`, `divide`, `join`) is
//! evaluated, and its result is unified with the other term.
use vstd::prelude::*;
use std::rc::Rc;
use crate::unifiable::{Unifiable, Term, term_view, terms_view, term_text, copy_term, eq_term,
    lemma_complex_view, lemma_function_view, lemma_view_kind, is_anonymous, is_nil};
use crate::substitution_set::{SubstitutionSet, ss_view, bound_at, ground_term, copy_binding,
    get_ground_term, binding_view};
use crate::built_in_join::{is_punctuation_spec, is_punctuation};
use crate::text::{chars_to_string, append_chars, str_to_chars};
use crate::variables::term_size;

verus! {

/// How deep unification may go: each step into a term or along a binding
/// counts one (the nodes of a list are walked without counting). Past this
/// depth unification fails; only a variable bound, through others, to a
/// term which holds it again can lead there.
pub const UNIFY_DEPTH: u64 = 1_000_000;

/// The substitution set with the variable `id` bound to `t`; the set is
/// extended with empty entries if it is too short.
pub open spec fn bind(ss: Seq<Option<Term>>, id: nat, t: Term) -> Seq<Option<Term>> {
    let ext = if id < ss.len() {
        ss
    } else {
        ss + Seq::new((id + 1 - ss.len()) as nat, |i: int| None::<Term>)
    };
    ext.update(id as int, Some(t))
}

/// The integer values of the ground terms of `args`, if all are integers.
pub open spec fn int_args(args: Seq<Term>, ss: Seq<Option<Term>>) -> Option<Seq<i64>>
    decreases args.len(),
{
    if args.len() == 0 {
        Some(Seq::empty())
    } else {
        match (int_args(args.drop_last(), ss), ground_term(args.last(), ss)) {
            (Some(ns), Some(Term::SInteger(i))) => if i64::MIN <= i <= i64::MAX {
                Some(ns.push(i as i64))
            } else {
                None
            },
            _ => None,
        }
    }
}

/// The sum of the numbers, if no partial sum overflows.
pub open spec fn sum_of(ns: Seq<i64>) -> Option<i64>
    decreases ns.len(),
{
    if ns.len() == 0 {
        Some(0)
    } else {
        match sum_of(ns.drop_last()) {
            Some(s) => s.checked_add(ns.last()),
            None => None,
        }
    }
}

/// The product of the numbers, if no partial product overflows.
pub open spec fn product_of(ns: Seq<i64>) -> Option<i64>
    decreases ns.len(),
{
    if ns.len() == 0 {
        Some(1)
    } else {
        match product_of(ns.drop_last()) {
            Some(s) => s.checked_mul(ns.last()),
            None => None,
        }
    }
}

/// The first number minus the others, if there is a first number and no
/// step overflows.
pub open spec fn difference_of(ns: Seq<i64>) -> Option<i64>
    decreases ns.len(),
{
    if ns.len() == 0 {
        None
    } else if ns.len() == 1 {
        Some(ns[0])
    } else {
        match difference_of(ns.drop_last()) {
            Some(s) => s.checked_sub(ns.last()),
            None => None,
        }
    }
}

/// The first number divided by each of the others in turn (division
/// truncates toward zero), if there is a first number, no divisor is zero
/// and no step overflows.
pub open spec fn quotient_of(ns: Seq<i64>) -> Option<i64>
    decreases ns.len(),
{
    if ns.len() == 0 {
        None
    } else if ns.len() == 1 {
        Some(ns[0])
    } else {
        match quotient_of(ns.drop_last()) {
            Some(s) => s.checked_div(ns.last()),
            None => None,
        }
    }
}

/// The display texts of the ground terms of `args`, if all have one.
pub open spec fn ground_texts(args: Seq<Term>, ss: Seq<Option<Term>>) -> Option<Seq<Seq<char>>>
    decreases args.len(),
{
    if args.len() == 0 {
        Some(Seq::empty())
    } else {
        match (ground_texts(args.drop_last(), ss), ground_term(args.last(), ss)) {
            (Some(ts), Some(g)) => Some(ts.push(term_text(g))),
            _ => None,
        }
    }
}

/// Words joined with spaces; punctuation (, . ? !) is attached to the
/// word before it.
pub open spec fn join_words(ws: Seq<Seq<char>>) -> Seq<char>
    decreases ws.len(),
{
    if ws.len() == 0 {
        Seq::empty()
    } else if ws.len() == 1 || is_punctuation_spec(ws.last()) {
        join_words(ws.drop_last()) + ws.last()
    } else {
        join_words(ws.drop_last()) + seq![' '] + ws.last()
    }
}

/// The integer result of an arithmetic function as a term.
pub open spec fn int_result(r: Option<i64>) -> Option<Term> {
    match r {
        Some(i) => Some(Term::SInteger(i as int)),
        None => None,
    }
}

/// The result of evaluating a built-in function: join() gives an atom,
/// add(), subtract(), multiply() and divide() give integers. `None` if the
/// function is unknown or cannot be evaluated: an argument without a ground
/// term, an argument which is not an integer, a division by zero or an
/// overflow.
pub open spec fn eval_function(name: Seq<char>, args: Seq<Term>, ss: Seq<Option<Term>>) -> Option<Term> {
    if name == "join"@ {
        match ground_texts(args, ss) {
            Some(ws) => Some(Term::Atom(join_words(ws))),
            None => None,
        }
    } else if name == "add"@ || name == "subtract"@ || name == "multiply"@ || name == "divide"@ {
        match int_args(args, ss) {
            Some(ns) => int_result(
                if name == "add"@ {
                    sum_of(ns)
                } else if name == "subtract"@ {
                    difference_of(ns)
                } else if name == "multiply"@ {
                    product_of(ns)
                } else {
                    quotient_of(ns)
                },
            ),
            None => None,
        }
    } else {
        None
    }
}

/// Unification of `a` with `b` in the substitution set `ss`, going at
/// most `depth` steps deep.
pub open spec fn unify_at(a: Term, b: Term, ss: Seq<Option<Term>>, depth: nat) -> Option<
    Seq<Option<Term>>,
>
    decreases depth, 0int,
{
    if depth == 0 {
        None
    } else if a == b || b is Anonymous {
        Some(ss)
    } else {
        let d = (depth - 1) as nat;
        match a {
            Term::Anonymous => Some(ss),
            Term::Atom(_) | Term::SFloat(_) | Term::SInteger(_) => match b {
                Term::LogicVar(_, _) => unify_at(b, a, ss, d),
                _ => None,
            },
            Term::LogicVar(id, _) => if id == 0 {
                None
            } else {
                match b {
                    Term::SFunction(_, _) => unify_at(b, a, ss, d),
                    _ => match bound_at(ss, id) {
                        Some(v) => unify_at(v, b, ss, d),
                        None => if id < usize::MAX {
                            Some(bind(ss, id, b))
                        } else {
                            None
                        },
                    },
                }
            },
            Term::SComplex(xs) => match b {
                Term::SComplex(ys) => if xs.len() != ys.len() {
                    None
                } else {
                    unify_args(xs, ys, 0, ss, d)
                },
                Term::LogicVar(_, _) => unify_at(b, a, ss, d),
                _ => None,
            },
            Term::SLinkedList(_, _, _, _) => match b {
                Term::SLinkedList(_, _, _, _) => unify_lists(a, b, ss, d),
                Term::LogicVar(_, _) => unify_at(b, a, ss, d),
                _ => None,
            },
            Term::SFunction(name, args) => match eval_function(name, args, ss) {
                Some(r) => unify_at(r, b, ss, d),
                None => None,
            },
            Term::Nil => None,
        }
    }
}

/// Unification of the arguments `xs[i..]` with `ys[i..]`, one pair after
/// the other; pairs where either side is the anonymous variable are skipped.
pub open spec fn unify_args(
    xs: Seq<Term>,
    ys: Seq<Term>,
    i: int,
    ss: Seq<Option<Term>>,
    depth: nat,
) -> Option<Seq<Option<Term>>>
    decreases depth, xs.len() - i,
{
    if i < 0 || i >= xs.len() || i >= ys.len() {
        Some(ss)
    } else if xs[i] is Anonymous || ys[i] is Anonymous {
        unify_args(xs, ys, i + 1, ss, depth)
    } else {
        match unify_at(xs[i], ys[i], ss, depth) {
            Some(s2) => unify_args(xs, ys, i + 1, s2, depth),
            None => None,
        }
    }
}

/// Unification of two lists, node by node. A tail variable unifies with
/// the rest of the other list; two empty nodes end the unification.
pub open spec fn unify_lists(l1: Term, l2: Term, ss: Seq<Option<Term>>, depth: nat) -> Option<
    Seq<Option<Term>>,
>
    decreases depth, term_size(l1),
{
    if depth == 0 {
        None
    } else {
        let d = (depth - 1) as nat;
        match l1 {
            Term::SLinkedList(tt, tn, _, ttv) => match l2 {
                Term::SLinkedList(ot, on, _, otv) => if ttv && otv {
                    if *ot is Anonymous || *tt is Anonymous {
                        Some(ss)
                    } else {
                        unify_at(*tt, *ot, ss, d)
                    }
                } else if ttv {
                    unify_at(*tt, l2, ss, d)
                } else if otv {
                    unify_at(*ot, l1, ss, d)
                } else if *tt is Nil && *ot is Nil {
                    Some(ss)
                } else {
                    match unify_at(*tt, *ot, ss, d) {
                        Some(s2) => unify_lists(*tn, *on, s2, depth),
                        None => None,
                    }
                },
                _ => None,
            },
            _ => None,
        }
    }
}

/// Unification of `a` with `b` in the substitution set `ss`.
pub open spec fn unify_spec(a: Term, b: Term, ss: Seq<Option<Term>>) -> Option<Seq<Option<Term>>> {
    unify_at(a, b, ss, UNIFY_DEPTH as nat)
}

/// The model of an optional substitution set.
pub open spec fn opt_ss_view(r: Option<Rc<SubstitutionSet>>) -> Option<Seq<Option<Term>>> {
    match r {
        Some(s) => Some(ss_view(*s)),
        None => None,
    }
}

/// Copies a substitution set with the variable `id` bound to a copy of `t`.
pub fn bind_var(ss: &SubstitutionSet, id: usize, t: &Unifiable) -> (r: SubstitutionSet)
    requires
        id < usize::MAX,
    ensures
        ss_view(r) == bind(ss_view(*ss), id as nat, t@),
{
    let ghost ssv = ss_view(*ss);
    let mut new_ss: SubstitutionSet = Vec::new();
    let mut i: usize = 0;
    while i < ss.len()
        invariant
            ssv == ss_view(*ss),
            i <= ssv.len(),
            new_ss@.len() == i,
            ss_view(new_ss) == ssv.subrange(0, i as int),
        decreases ssv.len() - i,
    {
        let b = copy_binding(&ss[i]);
        assert(ssv[i as int] == binding_view(ss@[i as int]));
        let ghost prev = new_ss@;
        let ghost prev_view = ss_view(new_ss);
        new_ss.push(b);
        assert(new_ss@ == prev.push(b));
        assert forall|k: int| 0 <= k < i + 1 implies ss_view(new_ss)[k] == ssv[k] by {
            if k < i {
                assert(new_ss@[k] == prev[k]);
                assert(prev_view[k] == binding_view(prev[k]));
                assert(prev_view[k] == ssv[k]);
            }
        }
        assert(ss_view(new_ss) =~= ssv.subrange(0, i + 1));
        i = i + 1;
    }
    let ghost ext = if (id as nat) < ssv.len() {
        ssv
    } else {
        ssv + Seq::new((id + 1 - ssv.len()) as nat, |k: int| None::<Term>)
    };
    while new_ss.len() <= id
        invariant
            ssv.len() <= new_ss@.len(),
            (id as nat) < ssv.len() ==> new_ss@.len() == ssv.len(),
            (id as nat) >= ssv.len() ==> new_ss@.len() <= id + 1,
            id < usize::MAX,
            ss_view(new_ss) == ext.subrange(0, new_ss@.len() as int),
            (id as nat) < ssv.len() ==> ext == ssv,
            (id as nat) >= ssv.len() ==> ext.len() == id + 1,
            ext.subrange(0, ssv.len() as int) == ssv,
            forall|k: int| ssv.len() <= k < ext.len() ==> ext[k] is None,
        decreases id + 1 - new_ss@.len(),
    {
        new_ss.push(None);
        assert(ss_view(new_ss) =~= ext.subrange(0, new_ss@.len() as int));
    }
    assert(ss_view(new_ss) =~= ext);
    let c = copy_term(t);
    new_ss.set(id, Some(Rc::new(c)));
    assert(ss_view(new_ss) =~= ext.update(id as int, Some(t@)));
    new_ss
}

/// The integers of the ground terms of the arguments, if all are integers.
fn get_integers(args: &Vec<Unifiable>, ss: &SubstitutionSet) -> (r: Option<Vec<i64>>)
    ensures
        match r {
            Some(ns) => int_args(terms_view(args@), ss_view(*ss)) == Some(ns@),
            None => int_args(terms_view(args@), ss_view(*ss)) is None,
        },
{
    let ghost av = terms_view(args@);
    let ghost ssv = ss_view(*ss);
    let mut ns: Vec<i64> = Vec::new();
    let mut i: usize = 0;
    while i < args.len()
        invariant
            av == terms_view(args@),
            ssv == ss_view(*ss),
            i <= args@.len(),
            int_args(av.subrange(0, i as int), ssv) == Some(ns@),
        decreases args@.len() - i,
    {
        let ghost pre = av.subrange(0, i as int);
        let ghost next = av.subrange(0, i + 1);
        assert(next.drop_last() =~= pre);
        assert(next.last() == args@[i as int]@);
        match get_ground_term(&args[i], ss) {
            Some(g) => match g {
                Unifiable::SInteger(n) => {
                    ns.push(*n);
                },
                _ => {
                    proof {
                        lemma_view_kind(*g);
                    }
                    assert(int_args(next, ssv) is None);
                    proof {
                        lemma_int_args_prefix_none(av, ssv, i + 1);
                    }
                    return None;
                },
            },
            None => {
                assert(int_args(next, ssv) is None);
                proof {
                    lemma_int_args_prefix_none(av, ssv, i + 1);
                }
                return None;
            },
        }
        i = i + 1;
    }
    assert(av.subrange(0, i as int) =~= av);
    Some(ns)
}

/// If a prefix of the arguments has no integer values, neither have all.
proof fn lemma_int_args_prefix_none(av: Seq<Term>, ss: Seq<Option<Term>>, k: int)
    requires
        0 <= k <= av.len(),
        int_args(av.subrange(0, k), ss) is None,
    ensures
        int_args(av, ss) is None,
    decreases av.len() - k,
{
    if k < av.len() {
        let next = av.subrange(0, k + 1);
        assert(next.drop_last() =~= av.subrange(0, k));
        lemma_int_args_prefix_none(av, ss, k + 1);
    } else {
        assert(av.subrange(0, k) =~= av);
    }
}

/// If a prefix of the arguments has no ground texts, neither have all.
proof fn lemma_ground_texts_prefix_none(av: Seq<Term>, ss: Seq<Option<Term>>, k: int)
    requires
        0 <= k <= av.len(),
        ground_texts(av.subrange(0, k), ss) is None,
    ensures
        ground_texts(av, ss) is None,
    decreases av.len() - k,
{
    if k < av.len() {
        let next = av.subrange(0, k + 1);
        assert(next.drop_last() =~= av.subrange(0, k));
        lemma_ground_texts_prefix_none(av, ss, k + 1);
    } else {
        assert(av.subrange(0, k) =~= av);
    }
}

/// Folds the numbers with an arithmetic function (0 add, 1 subtract,
/// 2 multiply, 3 divide).
fn fold_numbers(ns: &Vec<i64>, op: u8) -> (r: Option<i64>)
    requires
        op < 4,
    ensures
        op == 0 ==> r == sum_of(ns@),
        op == 1 ==> r == difference_of(ns@),
        op == 2 ==> r == product_of(ns@),
        op == 3 ==> r == quotient_of(ns@),
{
    if ns.len() == 0 {
        if op == 0 {
            return Some(0);
        } else if op == 2 {
            return Some(1);
        }
        return None;
    }
    let mut acc: i64 = if op == 0 {
        0
    } else if op == 2 {
        1
    } else {
        ns[0]
    };
    let mut i: usize = if op == 0 || op == 2 {
        0
    } else {
        1
    };
    assert(ns@.subrange(0, 1).drop_last() =~= Seq::<i64>::empty());
    while i < ns.len()
        invariant
            op < 4,
            ns@.len() > 0,
            (op == 0 || op == 2) ==> i <= ns@.len(),
            (op == 1 || op == 3) ==> 1 <= i <= ns@.len(),
            op == 0 ==> sum_of(ns@.subrange(0, i as int)) == Some(acc),
            op == 1 ==> difference_of(ns@.subrange(0, i as int)) == Some(acc),
            op == 2 ==> product_of(ns@.subrange(0, i as int)) == Some(acc),
            op == 3 ==> quotient_of(ns@.subrange(0, i as int)) == Some(acc),
        decreases ns@.len() - i,
    {
        let x = ns[i];
        let ghost next = ns@.subrange(0, i + 1);
        assert(next.drop_last() =~= ns@.subrange(0, i as int));
        assert(next.last() == x);
        let step = if op == 0 {
            acc.checked_add(x)
        } else if op == 1 {
            acc.checked_sub(x)
        } else if op == 2 {
            acc.checked_mul(x)
        } else {
            acc.checked_div(x)
        };
        match step {
            Some(v) => {
                acc = v;
            },
            None => {
                proof {
                    lemma_fold_prefix_none(ns@, op, i + 1);
                }
                return None;
            },
        }
        i = i + 1;
    }
    assert(ns@.subrange(0, i as int) =~= ns@);
    Some(acc)
}

/// The result of folding with the arithmetic function numbered `op`.
pub open spec fn fold_spec(ns: Seq<i64>, op: u8) -> Option<i64> {
    if op == 0 {
        sum_of(ns)
    } else if op == 1 {
        difference_of(ns)
    } else if op == 2 {
        product_of(ns)
    } else {
        quotient_of(ns)
    }
}

/// If a fold fails on a prefix, it fails on the whole sequence.
proof fn lemma_fold_prefix_none(ns: Seq<i64>, op: u8, k: int)
    requires
        1 <= k <= ns.len(),
        fold_spec(ns.subrange(0, k), op) is None,
    ensures
        fold_spec(ns, op) is None,
    decreases ns.len() - k,
{
    if k < ns.len() {
        let next = ns.subrange(0, k + 1);
        assert(next.drop_last() =~= ns.subrange(0, k));
        lemma_fold_prefix_none(ns, op, k + 1);
    } else {
        assert(ns.subrange(0, k) =~= ns);
    }
}

/// Joins the ground terms of the arguments as words.
fn join_arguments(args: &Vec<Unifiable>, ss: &SubstitutionSet) -> (r: Option<Unifiable>)
    ensures
        match r {
            Some(u) => match ground_texts(terms_view(args@), ss_view(*ss)) {
                Some(ws) => u@ == Term::Atom(join_words(ws)),
                None => false,
            },
            None => ground_texts(terms_view(args@), ss_view(*ss)) is None,
        },
{
    let ghost av = terms_view(args@);
    let ghost ssv = ss_view(*ss);
    let ghost mut ws: Seq<Seq<char>> = Seq::empty();
    let mut out: Vec<char> = Vec::new();
    let mut i: usize = 0;
    while i < args.len()
        invariant
            av == terms_view(args@),
            ssv == ss_view(*ss),
            i <= args@.len(),
            ground_texts(av.subrange(0, i as int), ssv) == Some(ws),
            out@ == join_words(ws),
            ws.len() == i,
        decreases args@.len() - i,
    {
        let ghost pre = av.subrange(0, i as int);
        let ghost next = av.subrange(0, i + 1);
        assert(next.drop_last() =~= pre);
        assert(next.last() == args@[i as int]@);
        match get_ground_term(&args[i], ss) {
            Some(g) => {
                let mut tv: Vec<char> = Vec::new();
                crate::unifiable::push_term_text(&mut tv, g);
                assert(tv@ =~= term_text(g@));
                let s = chars_to_string(&tv);
                let p = is_punctuation(s.as_str());
                if i == 0 || p {
                    append_chars(&mut out, &tv);
                } else {
                    out.push(' ');
                    append_chars(&mut out, &tv);
                }
                proof {
                    let ws2 = ws.push(term_text(g@));
                    assert(ws2.drop_last() =~= ws);
                    assert(out@ =~= join_words(ws2));
                    ws = ws2;
                }
            },
            None => {
                proof {
                    lemma_ground_texts_prefix_none(av, ssv, i + 1);
                }
                return None;
            },
        }
        i = i + 1;
    }
    assert(av.subrange(0, i as int) =~= av);
    let s = chars_to_string(&out);
    Some(Unifiable::Atom(s))
}

/// Evaluates a built-in function.
pub fn evaluate_function(name: &String, args: &Vec<Unifiable>, ss: &SubstitutionSet) -> (r: Option<
    Unifiable,
>)
    ensures
        match r {
            Some(u) => eval_function(name@, terms_view(args@), ss_view(*ss)) == Some(u@),
            None => eval_function(name@, terms_view(args@), ss_view(*ss)) is None,
        },
{
    let n = str_to_chars(name.as_str());
    proof {
        reveal_strlit("join");
        reveal_strlit("add");
        reveal_strlit("subtract");
        reveal_strlit("multiply");
        reveal_strlit("divide");
    }
    if crate::text::chars_eq_str(&n, "join") {
        return join_arguments(args, ss);
    }
    let op: u8 = if crate::text::chars_eq_str(&n, "add") {
        0
    } else if crate::text::chars_eq_str(&n, "subtract") {
        1
    } else if crate::text::chars_eq_str(&n, "multiply") {
        2
    } else if crate::text::chars_eq_str(&n, "divide") {
        3
    } else {
        return None;
    };
    match get_integers(args, ss) {
        Some(ns) => match fold_numbers(&ns, op) {
            Some(v) => Some(Unifiable::SInteger(v)),
            None => None,
        },
        None => None,
    }
}

/// Unifies `a` with `b`, going at most `depth` steps deep. A variable with
/// the ID 0 unifies with nothing but itself and the anonymous variable.
pub(crate) fn unify_depth(a: &Unifiable, b: &Unifiable, ss: &Rc<SubstitutionSet>, depth: u64) -> (r: Option<
    Rc<SubstitutionSet>,
>)
    ensures
        opt_ss_view(r) == unify_at(a@, b@, ss_view(**ss), depth as nat),
    decreases depth, 0int,
{
    if depth == 0 {
        return None;
    }
    if eq_term(a, b) || is_anonymous(b) {
        return Some(Rc::clone(ss));
    }
    let d = depth - 1;
    proof {
        lemma_view_kind(*a);
        lemma_view_kind(*b);
    }
    match a {
        Unifiable::Anonymous => Some(Rc::clone(ss)),
        Unifiable::Atom(_) | Unifiable::SFloat(_) | Unifiable::SInteger(_) => match b {
            Unifiable::LogicVar { .. } => unify_depth(b, a, ss, d),
            _ => None,
        },
        Unifiable::LogicVar { id, .. } => {
            if *id == 0 {
                return None;
            }
            if let Unifiable::SFunction { .. } = b {
                return unify_depth(b, a, ss, d);
            }
            if *id < ss.len() {
                if let Some(t) = &ss[*id] {
                    return unify_depth(&**t, b, ss, d);
                }
            }
            if *id == usize::MAX {
                return None;
            }
            let new_ss = bind_var(ss, *id, b);
            Some(Rc::new(new_ss))
        },
        Unifiable::SComplex(xs) => match b {
            Unifiable::SComplex(ys) => {
                proof {
                    lemma_complex_view(*xs);
                    lemma_complex_view(*ys);
                }
                if xs.len() != ys.len() {
                    return None;
                }
                unify_arguments(xs, ys, ss, d)
            },
            Unifiable::LogicVar { .. } => unify_depth(b, a, ss, d),
            _ => None,
        },
        Unifiable::SLinkedList { .. } => match b {
            Unifiable::SLinkedList { .. } => unify_list_nodes(a, b, ss, d),
            Unifiable::LogicVar { .. } => unify_depth(b, a, ss, d),
            _ => None,
        },
        Unifiable::SFunction { name, terms } => {
            proof {
                lemma_function_view(*name, *terms);
            }
            match evaluate_function(name, terms, ss) {
                Some(r) => unify_depth(&r, b, ss, d),
                None => None,
            }
        },
        Unifiable::Nil => None,
    }
}

/// Unifies the arguments of two complex terms, pair by pair.
fn unify_arguments(xs: &Vec<Unifiable>, ys: &Vec<Unifiable>, ss: &Rc<SubstitutionSet>, depth: u64) -> (r:
    Option<Rc<SubstitutionSet>>)
    requires
        xs@.len() == ys@.len(),
    ensures
        opt_ss_view(r) == unify_args(terms_view(xs@), terms_view(ys@), 0, ss_view(**ss), depth as nat),
    decreases depth, xs@.len(),
{
    let ghost xv = terms_view(xs@);
    let ghost yv = terms_view(ys@);
    let mut cur: Rc<SubstitutionSet> = Rc::clone(ss);
    let mut i: usize = 0;
    while i < xs.len()
        invariant
            xv == terms_view(xs@),
            yv == terms_view(ys@),
            xs@.len() == ys@.len(),
            i <= xs@.len(),
            unify_args(xv, yv, i as int, ss_view(*cur), depth as nat) == unify_args(
                xv,
                yv,
                0,
                ss_view(**ss),
                depth as nat,
            ),
        decreases xs@.len() - i,
    {
        assert(xv[i as int] == xs@[i as int]@);
        assert(yv[i as int] == ys@[i as int]@);
        if is_anonymous(&xs[i]) || is_anonymous(&ys[i]) {
            i = i + 1;
            continue;
        }
        match unify_depth(&xs[i], &ys[i], &cur, depth) {
            Some(s2) => {
                cur = s2;
            },
            None => {
                return None;
            },
        }
        i = i + 1;
    }
    Some(cur)
}

/// Unifies two lists, node by node.
fn unify_list_nodes(l1: &Unifiable, l2: &Unifiable, ss: &Rc<SubstitutionSet>, depth: u64) -> (r:
    Option<Rc<SubstitutionSet>>)
    ensures
        opt_ss_view(r) == unify_lists(l1@, l2@, ss_view(**ss), depth as nat),
    decreases depth, 0int,
{
    let mut this_list: &Unifiable = l1;
    let mut other_list: &Unifiable = l2;
    let mut cur: Rc<SubstitutionSet> = Rc::clone(ss);
    if depth == 0 {
        return None;
    }
    let d1 = depth - 1;
    loop
        invariant
            depth > 0,
            d1 == depth - 1,
            unify_lists(this_list@, other_list@, ss_view(*cur), depth as nat) == unify_lists(
                l1@,
                l2@,
                ss_view(**ss),
                depth as nat,
            ),
        decreases term_size(this_list@),
    {
        proof {
            lemma_view_kind(*this_list);
        }
        match this_list {
            Unifiable::SLinkedList { term: tt, next: tn, tail_var: ttv, .. } => match other_list {
                Unifiable::SLinkedList { term: ot, next: on, tail_var: otv, .. } => {
                    if *ttv && *otv {
                        if is_anonymous(ot) || is_anonymous(tt) {
                            return Some(cur);
                        }
                        return unify_depth(tt, ot, &cur, d1);
                    } else if *ttv {
                        return unify_depth(tt, other_list, &cur, d1);
                    } else if *otv {
                        return unify_depth(ot, this_list, &cur, d1);
                    } else if is_nil(tt) && is_nil(ot) {
                        return Some(cur);
                    } else {
                        match unify_depth(tt, ot, &cur, d1) {
                            Some(s2) => {
                                cur = s2;
                            },
                            None => {
                                return None;
                            },
                        }
                        this_list = tn;
                        other_list = on;
                    }
                },
                _ => {
                    return None;
                },
            },
            _ => {
                return None;
            },
        }
    }
}

/// The term holds a logic variable with the ID 0: one that has not been
/// given an ID of its own (as rules in the knowledge base hold them).
pub open spec fn holds_id0(t: Term) -> bool
    decreases t, 1int,
{
    match t {
        Term::LogicVar(id, _) => id == 0,
        Term::SComplex(xs) => some_id0_from(xs, 0),
        Term::SFunction(_, xs) => some_id0_from(xs, 0),
        Term::SLinkedList(a, b, _, _) => holds_id0(*a) || holds_id0(*b),
        _ => false,
    }
}

/// One of the terms `xs[i..]` holds a variable with the ID 0.
pub open spec fn some_id0_from(xs: Seq<Term>, i: int) -> bool
    decreases xs, xs.len() - i,
{
    if i < 0 || i >= xs.len() {
        false
    } else {
        holds_id0(xs[i]) || some_id0_from(xs, i + 1)
    }
}

/// No binding of the substitution set holds a variable with the ID 0.
pub open spec fn bindings_free_of_id0(ss: Seq<Option<Term>>) -> bool {
    forall|i: int| 0 <= i < ss.len() && (#[trigger] ss[i]) is Some ==> !holds_id0(ss[i]->Some_0)
}

impl Unifiable {
    /// Unifies this term with another term in the given substitution set.
    /// Gives the substitution set with the bindings that make the two terms
    /// identical, or `None` if they cannot be unified.
    ///
    /// Every logic variable must have been given an ID of its own (not 0),
    /// in both terms and in the bindings of the set.
    pub fn unify(&self, other: &Unifiable, ss: &Rc<SubstitutionSet>) -> (r: Option<
        Rc<SubstitutionSet>,
    >)
        requires
            !holds_id0(self@),
            !holds_id0(other@),
            bindings_free_of_id0(ss_view(**ss)),
        ensures
            opt_ss_view(r) == unify_spec(self@, other@, ss_view(**ss)),
    {
        unify_depth(self, other, ss, UNIFY_DEPTH)
    }
}

/// `s2` keeps every binding of `s1`, and is at least as long.
pub open spec fn extends(s1: Seq<Option<Term>>, s2: Seq<Option<Term>>) -> bool {
    &&& s1.len() <= s2.len()
    &&& forall|i: int| 0 <= i < s1.len() && (#[trigger] s1[i]) is Some ==> s2[i] == s1[i]
}

/// Every term unifies with itself, and the substitution set is unchanged.
pub proof fn law_unify_self(t: Term, ss: Seq<Option<Term>>)
    ensures
        unify_spec(t, t, ss) == Some(ss),
{
}

/// The anonymous variable unifies with anything, on either side, and
/// binds nothing.
pub proof fn law_unify_anonymous(t: Term, ss: Seq<Option<Term>>)
    ensures
        unify_spec(Term::Anonymous, t, ss) == Some(ss),
        unify_spec(t, Term::Anonymous, ss) == Some(ss),
{
}

/// A variable with the ID 0 has not been given an ID of its own; where
/// the search meets one (`unify` leaves such terms out), it unifies with
/// nothing but itself and the anonymous variable.
pub proof fn law_unify_var_id_0(name: Seq<char>, t: Term, ss: Seq<Option<Term>>)
    requires
        t != Term::LogicVar(0, name),
        !(t is Anonymous),
    ensures
        unify_spec(Term::LogicVar(0, name), t, ss) is None,
{
}

/// An unbound variable unifies with any other term which is not a
/// function, by binding the variable to that term.
pub proof fn law_unify_unbound_var(id: nat, name: Seq<char>, t: Term, ss: Seq<Option<Term>>)
    requires
        bound_at(ss, id) is None,
        0 < id < usize::MAX,
        !(t is SFunction),
        !(t is Anonymous),
        t != Term::LogicVar(id, name),
    ensures
        unify_spec(Term::LogicVar(id, name), t, ss) == Some(bind(ss, id, t)),
{
}

/// A constant, a complex term or a list unifies with an unbound variable
/// on its right, by binding the variable to it.
pub proof fn law_unify_var_on_right(id: nat, name: Seq<char>, t: Term, ss: Seq<Option<Term>>)
    requires
        bound_at(ss, id) is None,
        0 < id < usize::MAX,
        t is Atom || t is SFloat || t is SInteger || t is SComplex || t is SLinkedList,
    ensures
        unify_spec(t, Term::LogicVar(id, name), ss) == Some(bind(ss, id, t)),
{
    let d = (UNIFY_DEPTH - 1) as nat;
    assert(unify_at(Term::LogicVar(id, name), t, ss, d) == Some(bind(ss, id, t)));
}

/// A bound variable unifies with a term (not a function) exactly when the
/// term which it is bound to does.
pub proof fn law_unify_bound_var(
    id: nat,
    name: Seq<char>,
    v: Term,
    t: Term,
    ss: Seq<Option<Term>>,
    depth: nat,
)
    requires
        bound_at(ss, id) == Some(v),
        id > 0,
        !(t is SFunction),
        !(t is Anonymous),
        t != Term::LogicVar(id, name),
    ensures
        unify_at(Term::LogicVar(id, name), t, ss, depth + 1) == unify_at(v, t, ss, depth),
{
}

/// Binding an unbound variable keeps every other binding.
pub proof fn lemma_bind_extends(ss: Seq<Option<Term>>, id: nat, t: Term)
    requires
        bound_at(ss, id) is None,
    ensures
        extends(ss, bind(ss, id, t)),
        bind(ss, id, t).len() == if id < ss.len() { ss.len() } else { id + 1 },
        bind(ss, id, t)[id as int] == Some(t),
{
}

/// `extends` is transitive.
pub proof fn lemma_extends_trans(s1: Seq<Option<Term>>, s2: Seq<Option<Term>>, s3: Seq<Option<Term>>)
    requires
        extends(s1, s2),
        extends(s2, s3),
    ensures
        extends(s1, s3),
{
    assert forall|i: int| 0 <= i < s1.len() && (#[trigger] s1[i]) is Some implies s3[i] == s1[i] by {
        assert(s2[i] == s1[i]);
    }
}

/// A successful unification keeps every binding of the substitution set
/// it started from: bindings are only ever added.
pub proof fn law_unify_extends(a: Term, b: Term, ss: Seq<Option<Term>>, depth: nat)
    ensures
        unify_at(a, b, ss, depth) matches Some(s2) ==> extends(ss, s2),
    decreases depth, 0int,
{
    if depth == 0 || a == b {
    } else {
        let d = (depth - 1) as nat;
        match a {
            Term::Anonymous => {},
            Term::Atom(_) | Term::SFloat(_) | Term::SInteger(_) => {
                if b is LogicVar {
                    law_unify_extends(b, a, ss, d);
                }
            },
            Term::LogicVar(id, _) => {
                if b is SFunction {
                    law_unify_extends(b, a, ss, d);
                } else {
                    match bound_at(ss, id) {
                        Some(v) => law_unify_extends(v, b, ss, d),
                        None => {
                            if id < usize::MAX {
                                lemma_bind_extends(ss, id, b);
                            }
                        },
                    }
                }
            },
            Term::SComplex(xs) => match b {
                Term::SComplex(ys) => {
                    if xs.len() == ys.len() {
                        lemma_args_extend(xs, ys, 0, ss, d);
                    }
                },
                Term::LogicVar(_, _) => law_unify_extends(b, a, ss, d),
                _ => {},
            },
            Term::SLinkedList(_, _, _, _) => match b {
                Term::SLinkedList(_, _, _, _) => lemma_lists_extend(a, b, ss, d),
                Term::LogicVar(_, _) => law_unify_extends(b, a, ss, d),
                _ => {},
            },
            Term::SFunction(name, args) => match eval_function(name, args, ss) {
                Some(r) => law_unify_extends(r, b, ss, d),
                None => {},
            },
            Term::Nil => {},
        }
    }
}

/// Unifying arguments only adds bindings.
proof fn lemma_args_extend(xs: Seq<Term>, ys: Seq<Term>, i: int, ss: Seq<Option<Term>>, depth: nat)
    ensures
        unify_args(xs, ys, i, ss, depth) matches Some(s2) ==> extends(ss, s2),
    decreases depth, xs.len() - i,
{
    if i < 0 || i >= xs.len() || i >= ys.len() {
    } else if xs[i] is Anonymous || ys[i] is Anonymous {
        lemma_args_extend(xs, ys, i + 1, ss, depth);
    } else {
        law_unify_extends(xs[i], ys[i], ss, depth);
        match unify_at(xs[i], ys[i], ss, depth) {
            Some(s2) => {
                lemma_args_extend(xs, ys, i + 1, s2, depth);
                if let Some(s3) = unify_args(xs, ys, i + 1, s2, depth) {
                    lemma_extends_trans(ss, s2, s3);
                }
            },
            None => {},
        }
    }
}

/// Unifying lists only adds bindings.
proof fn lemma_lists_extend(l1: Term, l2: Term, ss: Seq<Option<Term>>, depth: nat)
    ensures
        unify_lists(l1, l2, ss, depth) matches Some(s2) ==> extends(ss, s2),
    decreases depth, term_size(l1),
{
    if depth == 0 {
    } else {
        let d = (depth - 1) as nat;
        match l1 {
            Term::SLinkedList(tt, tn, _, ttv) => match l2 {
                Term::SLinkedList(ot, on, _, otv) => {
                    if ttv && otv {
                        law_unify_extends(*tt, *ot, ss, d);
                    } else if ttv {
                        law_unify_extends(*tt, l2, ss, d);
                    } else if otv {
                        law_unify_extends(*ot, l1, ss, d);
                    } else if *tt is Nil && *ot is Nil {
                    } else {
                        law_unify_extends(*tt, *ot, ss, d);
                        match unify_at(*tt, *ot, ss, d) {
                            Some(s2) => {
                                lemma_lists_extend(*tn, *on, s2, depth);
                                if let Some(s3) = unify_lists(*tn, *on, s2, depth) {
                                    lemma_extends_trans(ss, s2, s3);
                                }
                            },
                            None => {},
                        }
                    }
                },
                _ => {},
            },
            _ => {},
        }
    }
}

/// The count of a list node; 0 for any other term.
pub open spec fn node_count(t: Term) -> nat {
    match t {
        Term::SLinkedList(_, _, count, _) => count,
        _ => 0,
    }
}

/// A ground term: no logic variable, anonymous variable or function
/// anywhere in it. Its lists are built as the list makers build them: no
/// tail variable, a node whose term is Nil ends the list (and counts 0),
/// and every other node counts one more than the node after it.
pub open spec fn is_ground(t: Term) -> bool
    decreases t, 1int,
{
    match t {
        Term::Nil | Term::Atom(_) | Term::SFloat(_) | Term::SInteger(_) => true,
        Term::SComplex(xs) => grounds_from(xs, 0),
        Term::SLinkedList(term, next, count, tail_var) => {
            &&& !tail_var
            &&& (*next is Nil || *next is SLinkedList)
            &&& if *term is Nil {
                *next is Nil && count == 0
            } else {
                count == node_count(*next) + 1 && is_ground(*term) && is_ground(*next)
            }
        },
        _ => false,
    }
}

/// Each of `xs[i..]` is ground.
pub open spec fn grounds_from(xs: Seq<Term>, i: int) -> bool
    decreases xs, xs.len() - i,
{
    if i < 0 || i >= xs.len() {
        true
    } else {
        is_ground(xs[i]) && grounds_from(xs, i + 1)
    }
}

/// Unification of two ground terms binds nothing and succeeds exactly
/// when the two terms are the same; so it does not depend on which term
/// stands on the left.
pub proof fn law_unify_ground(a: Term, b: Term, ss: Seq<Option<Term>>)
    requires
        is_ground(a),
        is_ground(b),
    ensures
        unify_spec(a, b, ss) is Some <==> a == b,
        unify_spec(a, b, ss) matches Some(s) ==> s == ss,
        unify_spec(a, b, ss) == unify_spec(b, a, ss),
{
    lemma_ground_unify(a, b, ss, UNIFY_DEPTH as nat);
    lemma_ground_unify(b, a, ss, UNIFY_DEPTH as nat);
}

/// Ground terms unify only when they are the same, and bind nothing.
proof fn lemma_ground_unify(a: Term, b: Term, ss: Seq<Option<Term>>, depth: nat)
    requires
        is_ground(a),
        is_ground(b),
    ensures
        unify_at(a, b, ss, depth) matches Some(s) ==> a == b && s == ss,
    decreases depth, 0int,
{
    if depth == 0 || a == b {
    } else {
        let d = (depth - 1) as nat;
        match a {
            Term::SComplex(xs) => match b {
                Term::SComplex(ys) => {
                    if xs.len() == ys.len() {
                        lemma_ground_args(xs, ys, 0, ss, d);
                        if unify_args(xs, ys, 0, ss, d) is Some {
                            assert(xs =~= ys);
                        }
                    }
                },
                _ => {},
            },
            Term::SLinkedList(_, _, _, _) => match b {
                Term::SLinkedList(_, _, _, _) => lemma_ground_lists(a, b, ss, d),
                _ => {},
            },
            _ => {},
        }
    }
}

/// Ground arguments unify, from `i` on, only when they are pairwise the
/// same, and bind nothing.
proof fn lemma_ground_args(xs: Seq<Term>, ys: Seq<Term>, i: int, ss: Seq<Option<Term>>, depth: nat)
    requires
        0 <= i,
        xs.len() == ys.len(),
        grounds_from(xs, i),
        grounds_from(ys, i),
    ensures
        unify_args(xs, ys, i, ss, depth) matches Some(s) ==> s == ss && forall|k: int|
            i <= k < xs.len() ==> xs[k] == ys[k],
    decreases depth, xs.len() - i,
{
    if i >= xs.len() {
    } else {
        lemma_ground_unify(xs[i], ys[i], ss, depth);
        lemma_ground_args(xs, ys, i + 1, ss, depth);
        if unify_args(xs, ys, i, ss, depth) is Some {
            assert(is_ground(xs[i]) && is_ground(ys[i]));
            assert(!(xs[i] is Anonymous) && !(ys[i] is Anonymous));
            assert(xs[i] == ys[i]);
            assert forall|k: int| i <= k < xs.len() implies xs[k] == ys[k] by {
                if k != i {
                }
            }
        }
    }
}

/// Ground lists unify only when they are the same, and bind nothing.
proof fn lemma_ground_lists(l1: Term, l2: Term, ss: Seq<Option<Term>>, depth: nat)
    requires
        is_ground(l1),
        is_ground(l2),
    ensures
        unify_lists(l1, l2, ss, depth) matches Some(s) ==> l1 == l2 && s == ss,
    decreases depth, term_size(l1),
{
    if depth == 0 {
    } else {
        let d = (depth - 1) as nat;
        match l1 {
            Term::SLinkedList(tt, tn, _, _) => match l2 {
                Term::SLinkedList(ot, on, _, _) => {
                    if *tt is Nil && *ot is Nil {
                    } else {
                        lemma_ground_unify(*tt, *ot, ss, d);
                        if unify_at(*tt, *ot, ss, d) is Some {
                            lemma_ground_lists(*tn, *on, ss, depth);
                        }
                    }
                },
                _ => {},
            },
            _ => {},
        }
    }
}

/// A punctuation word: `,` `.` `?` or `!`.
pub open spec fn is_punctuation_word(w: Seq<char>) -> bool {
    w == seq![','] || w == seq!['.'] || w == seq!['?'] || w == seq!['!']
}

/// `join` of atoms: a single atom gives its own text; joining one more
/// atom to words already joined attaches a punctuation word (`,` `.` `?`
/// `!`) directly to the text so far, and puts one space before any other
/// word.
pub proof fn law_join_atoms(args: Seq<Term>, w: Seq<char>, ss: Seq<Option<Term>>)
    ensures
        eval_function("join"@, seq![Term::Atom(w)], ss) == Some(Term::Atom(w)),
        args.len() > 0 && eval_function("join"@, args, ss) is Some && is_punctuation_word(w)
            ==> eval_function("join"@, args.push(Term::Atom(w)), ss) == Some(
            Term::Atom(eval_function("join"@, args, ss)->Some_0->Atom_0 + w),
        ),
        args.len() > 0 && eval_function("join"@, args, ss) is Some && !is_punctuation_word(w)
            ==> eval_function("join"@, args.push(Term::Atom(w)), ss) == Some(
            Term::Atom(eval_function("join"@, args, ss)->Some_0->Atom_0 + seq![' '] + w),
        ),
{
    let one = seq![Term::Atom(w)];
    assert(one.drop_last() =~= Seq::<Term>::empty());
    assert(ground_term(Term::Atom(w), ss) == Some(Term::Atom(w)));
    assert(one.last() == Term::Atom(w));
    assert(ground_texts(one.drop_last(), ss) == Some(Seq::<Seq<char>>::empty()));
    assert(term_text(Term::Atom(w)) == w);
    assert(Seq::<Seq<char>>::empty().push(w) =~= seq![w]);
    assert(ground_texts(one, ss) == Some(seq![w]));
    assert(join_words(seq![w]) == w) by {
        assert(seq![w].drop_last() =~= Seq::<Seq<char>>::empty());
        assert(join_words(Seq::<Seq<char>>::empty()) == Seq::<char>::empty());
        assert(seq![w].last() == w);
        assert(Seq::<char>::empty() + w =~= w);
    }
    let more = args.push(Term::Atom(w));
    assert(more.drop_last() =~= args);
    if let Some(ws) = ground_texts(args, ss) {
        lemma_ground_texts_len(args, ss);
        assert(more.last() == Term::Atom(w));
        assert(term_text(Term::Atom(w)) == w);
        assert(ground_texts(more, ss) == Some(ws.push(w)));
        assert(ws.push(w).last() == w);
        assert(ws.push(w).drop_last() =~= ws);
    }
}

proof fn lemma_ground_texts_len(args: Seq<Term>, ss: Seq<Option<Term>>)
    requires
        ground_texts(args, ss) is Some,
    ensures
        ground_texts(args, ss)->Some_0.len() == args.len(),
    decreases args.len(),
{
    if args.len() > 0 {
        lemma_ground_texts_len(args.drop_last(), ss);
    }
}

/// The arithmetic functions on two integers: `add`, `subtract` and
/// `multiply` give the sum, the difference and the product when it fits a
/// 64-bit integer, and nothing otherwise.
pub proof fn law_arithmetic_integers(i: int, j: int, ss: Seq<Option<Term>>)
    requires
        i64::MIN <= i <= i64::MAX,
        i64::MIN <= j <= i64::MAX,
    ensures
        eval_function("add"@, seq![Term::SInteger(i), Term::SInteger(j)], ss) == if i64::MIN <= i + j
            <= i64::MAX {
            Some(Term::SInteger(i + j))
        } else {
            None
        },
        eval_function("subtract"@, seq![Term::SInteger(i), Term::SInteger(j)], ss) == if i64::MIN
            <= i - j <= i64::MAX {
            Some(Term::SInteger(i - j))
        } else {
            None
        },
        eval_function("multiply"@, seq![Term::SInteger(i), Term::SInteger(j)], ss) == if i64::MIN
            <= i * j <= i64::MAX {
            Some(Term::SInteger(i * j))
        } else {
            None
        },
{
    lemma_function_names();
    let args = seq![Term::SInteger(i), Term::SInteger(j)];
    lemma_int_args_two(i, j, ss);
    let ns = seq![i as i64, j as i64];
    let one = seq![i as i64];
    assert(ns.drop_last() =~= one);
    assert(ns.last() == j as i64);
    assert(one.drop_last() =~= Seq::<i64>::empty());
    assert(one.last() == i as i64);
    assert(sum_of(Seq::<i64>::empty()) == Some(0i64));
    assert(product_of(Seq::<i64>::empty()) == Some(1i64));
    assert(sum_of(one) == Some(i as i64));
    assert(product_of(one) == Some(i as i64));
    assert(difference_of(one) == Some(i as i64));
    assert(sum_of(ns) == (i as i64).checked_add(j as i64));
    assert(product_of(ns) == (i as i64).checked_mul(j as i64));
    assert(difference_of(ns) == (i as i64).checked_sub(j as i64));
}

/// `divide` on two integers truncates toward zero: with a divisor other
/// than zero (and not the one overflowing case, the least integer divided
/// by -1) it gives the quotient `q` whose remainder `i - q * j` is smaller
/// than the divisor in size and is zero or has the sign of the dividend;
/// dividing by zero gives nothing.
pub proof fn law_divide_integers(i: int, j: int, ss: Seq<Option<Term>>)
    requires
        i64::MIN <= i <= i64::MAX,
        i64::MIN <= j <= i64::MAX,
    ensures
        j == 0 ==> eval_function("divide"@, seq![Term::SInteger(i), Term::SInteger(j)], ss) is None,
        j != 0 && !(i == i64::MIN && j == -1) ==> eval_function(
            "divide"@,
            seq![Term::SInteger(i), Term::SInteger(j)],
            ss,
        ) is Some,
        eval_function("divide"@, seq![Term::SInteger(i), Term::SInteger(j)], ss) matches Some(
            Term::SInteger(q),
        ) ==> ({
            let r = i - q * j;
            &&& j != 0
            &&& (if r >= 0 { r } else { -r }) < (if j >= 0 { j } else { -j })
            &&& (r == 0 || (r > 0) == (i > 0))
        }),
{
    lemma_function_names();
    lemma_int_args_two(i, j, ss);
    let ns = seq![i as i64, j as i64];
    let one = seq![i as i64];
    assert(ns.drop_last() =~= one);
    assert(ns.last() == j as i64);
    assert(quotient_of(one) == Some(i as i64));
    assert(quotient_of(ns) == (i as i64).checked_div(j as i64));
    if j != 0 {
        lemma_truncated_division(i, j);
    }
}

/// The quotient of dividing `x` by `d`, truncated toward zero.
spec fn truncated_quotient(x: int, d: int) -> int {
    if x == 0 {
        0
    } else if x > 0 && d > 0 {
        x / d
    } else if x < 0 && d < 0 {
        (x * -1) / (d * -1)
    } else if x < 0 {
        ((x * -1) / d) * -1
    } else {
        (x / (d * -1)) * -1
    }
}

spec fn abs_int(x: int) -> int {
    if x >= 0 {
        x
    } else {
        -x
    }
}

/// The quotient of truncating division, and its remainder.
#[verifier::spinoff_prover]
proof fn lemma_truncated_division(x: int, d: int)
    requires
        d != 0,
        i64::MIN <= x <= i64::MAX,
    ensures
        abs_int(x - truncated_quotient(x, d) * d) < abs_int(d),
        x - truncated_quotient(x, d) * d == 0 || (x - truncated_quotient(x, d) * d > 0) == (x > 0),
        abs_int(truncated_quotient(x, d)) <= abs_int(x),
        abs_int(d) >= 2 ==> 2 * abs_int(truncated_quotient(x, d)) <= abs_int(x),
        d == 1 ==> truncated_quotient(x, d) == x,
        d == -1 ==> truncated_quotient(x, d) == -x,
{
    if x > 0 && d > 0 {
        assert(0 <= x % d < d && x == d * (x / d) + x % d && 0 <= x / d <= x && (d >= 2 ==> 2 * (x
            / d) <= x) && (d == 1 ==> x / d == x)) by (nonlinear_arith)
            requires
                x > 0,
                d > 0,
        ;
        assert(x - (x / d) * d == x % d) by (nonlinear_arith)
            requires
                x == d * (x / d) + x % d,
        ;
        assert(truncated_quotient(x, d) == x / d);
    } else if x < 0 && d < 0 {
        let a = -x;
        let b = -d;
        assert(0 <= a % b < b && a == b * (a / b) + a % b && 0 <= a / b <= a && (b >= 2 ==> 2 * (a
            / b) <= a) && (b == 1 ==> a / b == a)) by (nonlinear_arith)
            requires
                a > 0,
                b > 0,
        ;
        assert((x * -1) / (d * -1) == a / b);
        assert(x - (a / b) * d == -(a % b)) by (nonlinear_arith)
            requires
                a == b * (a / b) + a % b,
                a == -x,
                b == -d,
        ;
        assert(truncated_quotient(x, d) == a / b);
    } else if x < 0 {
        let a = -x;
        assert(0 <= a % d < d && a == d * (a / d) + a % d && 0 <= a / d <= a && (d >= 2 ==> 2 * (a
            / d) <= a) && (d == 1 ==> a / d == a)) by (nonlinear_arith)
            requires
                a > 0,
                d > 0,
        ;
        assert((x * -1) / d == a / d);
        assert(x - ((a / d) * -1) * d == -(a % d)) by (nonlinear_arith)
            requires
                a == d * (a / d) + a % d,
                a == -x,
        ;
        assert(truncated_quotient(x, d) == (a / d) * -1);
    } else if x > 0 {
        let b = -d;
        assert(0 <= x % b < b && x == b * (x / b) + x % b && 0 <= x / b <= x && (b >= 2 ==> 2 * (x
            / b) <= x) && (b == 1 ==> x / b == x)) by (nonlinear_arith)
            requires
                x > 0,
                b > 0,
        ;
        assert(x / (d * -1) == x / b);
        assert(x - ((x / b) * -1) * d == x % b) by (nonlinear_arith)
            requires
                x == b * (x / b) + x % b,
                b == -d,
        ;
        assert(truncated_quotient(x, d) == (x / b) * -1);
    } else {
        assert(truncated_quotient(x, d) == 0);
        assert(x - 0 * d == 0);
    }
}

/// The integer arguments of two integer constants.
proof fn lemma_int_args_two(i: int, j: int, ss: Seq<Option<Term>>)
    requires
        i64::MIN <= i <= i64::MAX,
        i64::MIN <= j <= i64::MAX,
    ensures
        int_args(seq![Term::SInteger(i), Term::SInteger(j)], ss) == Some(seq![i as i64, j as i64]),
{
    let args = seq![Term::SInteger(i), Term::SInteger(j)];
    assert(args.drop_last() =~= seq![Term::SInteger(i)]);
    assert(seq![Term::SInteger(i)].drop_last() =~= Seq::<Term>::empty());
    assert(ground_term(Term::SInteger(i), ss) == Some(Term::SInteger(i)));
    assert(ground_term(Term::SInteger(j), ss) == Some(Term::SInteger(j)));
    assert(seq![Term::SInteger(i)].last() == Term::SInteger(i));
    assert(args.last() == Term::SInteger(j));
    assert(int_args(Seq::<Term>::empty(), ss) == Some(Seq::<i64>::empty()));
    assert(int_args(seq![Term::SInteger(i)], ss) == Some(Seq::<i64>::empty().push(i as i64)));
    assert(Seq::<i64>::empty().push(i as i64) =~= seq![i as i64]);
    assert(seq![i as i64].push(j as i64) =~= seq![i as i64, j as i64]);
}

/// The names of the built-in functions are different texts.
proof fn lemma_function_names()
    ensures
        "join"@.len() == 4,
        "add"@.len() == 3,
        "subtract"@.len() == 8,
        "multiply"@.len() == 8 && "multiply"@[0] == 'm',
        "divide"@.len() == 6,
        "subtract"@[0] == 's',
{
    reveal_strlit("join");
    reveal_strlit("add");
    reveal_strlit("subtract");
    reveal_strlit("multiply");
    reveal_strlit("divide");
}

} // verus!
