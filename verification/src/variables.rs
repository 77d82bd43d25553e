//! Recreating and replacing the logic variables of terms.
//!
//! Rules in the knowledge base hold variables with the ID 0. When a rule is
//! used, its variables are recreated with fresh IDs, the same name getting
//! the same ID throughout the rule. To show a solution, the variables of a
//! term are replaced by what they are bound to.
use vstd::prelude::*;
use crate::unifiable::{Unifiable, Term, term_view, terms_view, copy_term, lemma_complex_view,
    lemma_function_view, lemma_view_kind, is_nil};
use crate::logic_var::{VarMap, VarIds, next_id};
use crate::s_linked_list::{make_linked_list, mll, mll_state, spliced_count};
use crate::substitution_set::{SubstitutionSet, ss_view, bound_at};

verus! {

/// The number of nodes of a term.
pub open spec fn term_size(t: Term) -> nat
    decreases t, 0int,
{
    match t {
        Term::SComplex(ts) => 1 + seq_size(ts, 0),
        Term::SFunction(_, ts) => 1 + seq_size(ts, 0),
        Term::SLinkedList(a, b, _, _) => 1 + term_size(*a) + term_size(*b),
        _ => 1,
    }
}

/// The number of nodes of the terms `ts[i..]`.
pub open spec fn seq_size(ts: Seq<Term>, i: int) -> nat
    decreases ts, ts.len() - i,
{
    if i < 0 || i >= ts.len() {
        0
    } else {
        term_size(ts[i]) + seq_size(ts, i + 1)
    }
}

/// Recreation of the variables of `t`: each name in the map `m` keeps its
/// ID; a new name gets the next ID after `last`. Gives the new term, the
/// new map and the last ID given.
pub open spec fn recreate_spec(t: Term, m: Map<Seq<char>, usize>, last: nat) -> (
    Term,
    Map<Seq<char>, usize>,
    nat,
)
    decreases t, 2int,
{
    match t {
        Term::LogicVar(_, name) => if m.contains_key(name) {
            (Term::LogicVar(m[name] as nat, name), m, last)
        } else {
            (Term::LogicVar(last + 1, name), m.insert(name, (last + 1) as usize), last + 1)
        },
        Term::SComplex(ts) => {
            let (ts2, m2, l2) = recreate_seq(ts, 0, m, last);
            (Term::SComplex(ts2), m2, l2)
        },
        Term::SLinkedList(_, _, _, _) => {
            let (ts2, vb, m2, l2) = recreate_list(t, m, last);
            (mll(vb, ts2), m2, l2)
        },
        Term::SFunction(name, ts) => {
            let (ts2, m2, l2) = recreate_seq(ts, 0, m, last);
            (Term::SFunction(name, ts2), m2, l2)
        },
        _ => (t, m, last),
    }
}

/// Recreation of the variables of the terms `ts[i..]`, in order.
pub open spec fn recreate_seq(ts: Seq<Term>, i: int, m: Map<Seq<char>, usize>, last: nat) -> (
    Seq<Term>,
    Map<Seq<char>, usize>,
    nat,
)
    decreases ts, ts.len() - i,
{
    if i < 0 || i >= ts.len() {
        (Seq::empty(), m, last)
    } else {
        let (t2, m2, l2) = recreate_spec(ts[i], m, last);
        let (rest, m3, l3) = recreate_seq(ts, i + 1, m2, l2);
        (seq![t2] + rest, m3, l3)
    }
}

/// Recreation of the variables of the items of a list, node by node:
/// gives the recreated items (up to a node whose next is Nil), whether a
/// tail variable was seen, the new map and the last ID given.
pub open spec fn recreate_list(l: Term, m: Map<Seq<char>, usize>, last: nat) -> (
    Seq<Term>,
    bool,
    Map<Seq<char>, usize>,
    nat,
)
    decreases l, 1int,
{
    match l {
        Term::SLinkedList(t, n, c, tf) => {
            let (t2, m2, l2) = recreate_spec(*t, m, last);
            let vb = c == 1 && tf;
            if *n is Nil {
                (seq![t2], vb, m2, l2)
            } else {
                let (rest, vb2, m3, l3) = recreate_list(*n, m2, l2);
                (seq![t2] + rest, vb || vb2, m3, l3)
            }
        },
        _ => (Seq::empty(), false, m, last),
    }
}

/// Recreation gives at most one new ID per node of the term.
pub proof fn lemma_recreate_ids(t: Term, m: Map<Seq<char>, usize>, last: nat)
    ensures
        last <= recreate_spec(t, m, last).2 <= last + term_size(t),
    decreases t, 2int,
{
    match t {
        Term::SComplex(ts) => lemma_recreate_seq_ids(ts, 0, m, last),
        Term::SFunction(_, ts) => lemma_recreate_seq_ids(ts, 0, m, last),
        Term::SLinkedList(_, _, _, _) => lemma_recreate_list_ids(t, m, last),
        _ => {},
    }
}

pub proof fn lemma_recreate_seq_ids(ts: Seq<Term>, i: int, m: Map<Seq<char>, usize>, last: nat)
    ensures
        last <= recreate_seq(ts, i, m, last).2 <= last + seq_size(ts, i),
        recreate_seq(ts, i, m, last).0.len() == if 0 <= i < ts.len() {
            ts.len() - i
        } else {
            0
        },
    decreases ts, ts.len() - i,
{
    if 0 <= i < ts.len() {
        lemma_recreate_ids(ts[i], m, last);
        let (t2, m2, l2) = recreate_spec(ts[i], m, last);
        lemma_recreate_seq_ids(ts, i + 1, m2, l2);
    }
}

proof fn lemma_recreate_list_ids(l: Term, m: Map<Seq<char>, usize>, last: nat)
    ensures
        last <= recreate_list(l, m, last).3 <= last + term_size(l),
        recreate_list(l, m, last).0.len() <= term_size(l),
    decreases l, 1int,
{
    match l {
        Term::SLinkedList(t, n, c, tf) => {
            lemma_recreate_ids(*t, m, last);
            let (t2, m2, l2) = recreate_spec(*t, m, last);
            if !(*n is Nil) {
                lemma_recreate_list_ids(*n, m2, l2);
            }
        },
        _ => {},
    }
}

/// The count of the last term, if it is a list.
pub open spec fn last_count(ts: Seq<Term>) -> nat {
    if ts.len() > 0 && ts.last() is SLinkedList {
        ts.last()->SLinkedList_2
    } else {
        0
    }
}

/// A recreated list counts no more nodes than the term had.
proof fn lemma_recreate_count(t: Term, m: Map<Seq<char>, usize>, last: nat)
    ensures
        recreate_spec(t, m, last).0 is SLinkedList ==> recreate_spec(t, m, last).0->SLinkedList_2
            <= term_size(t),
    decreases t, 2int,
{
    match t {
        Term::SLinkedList(_, _, _, _) => {
            let (ts2, vb, m2, l2) = recreate_list(t, m, last);
            lemma_recreate_list_bound(t, m, last);
            if ts2.len() > 0 {
                crate::s_linked_list::lemma_mll_count(ts2, vb, 1);
            }
        },
        _ => {},
    }
}

/// The items of a recreated list, and the count of the last one if it is
/// a list, are bounded by the size of the list.
proof fn lemma_recreate_list_bound(l: Term, m: Map<Seq<char>, usize>, last: nat)
    ensures
        recreate_list(l, m, last).0.len() + last_count(recreate_list(l, m, last).0) <= term_size(l),
    decreases l, 1int,
{
    match l {
        Term::SLinkedList(t, n, c, tf) => {
            lemma_recreate_count(*t, m, last);
            let (t2, m2, l2) = recreate_spec(*t, m, last);
            if !(*n is Nil) {
                lemma_recreate_list_bound(*n, m2, l2);
                let (rest, vb2, m3, l3) = recreate_list(*n, m2, l2);
                let all = seq![t2] + rest;
                if rest.len() > 0 {
                    assert(all.last() == rest.last());
                }
            }
        },
        _ => {},
    }
}

/// Recreates the variables of a term.
fn recreate_term(t: &Unifiable, vars: &mut VarMap, ids: &mut VarIds) -> (r: Unifiable)
    requires
        old(ids).last + term_size(t@) + 2 < usize::MAX,
    ensures
        (r@, final(vars).view_map(), final(ids).last as nat) == recreate_spec(
            t@,
            old(vars).view_map(),
            old(ids).last as nat,
        ),
    decreases t, 2int,
{
    proof {
        lemma_view_kind(*t);
    }
    match t {
        Unifiable::LogicVar { name, .. } => {
            match vars.get(name) {
                Some(id) => {
                    assert(vars.view_map().contains_key(name@));
                    Unifiable::LogicVar { id, name: name.clone() }
                },
                None => {
                    assert(!vars.view_map().contains_key(name@));
                    let id = next_id(ids);
                    vars.insert(name.clone(), id);
                    Unifiable::LogicVar { id, name: name.clone() }
                },
            }
        },
        Unifiable::SComplex(ts) => {
            proof {
                lemma_complex_view(*ts);
            }
            let new_terms = recreate_terms(ts, vars, ids);
            proof {
                lemma_complex_view(new_terms);
            }
            Unifiable::SComplex(new_terms)
        },
        Unifiable::SLinkedList { .. } => {
            let ghost m0 = vars.view_map();
            let ghost l0 = ids.last as nat;
            let (items, vbar) = recreate_items(t, vars, ids);
            proof {
                lemma_recreate_list_ids(t@, m0, l0);
                lemma_recreate_list_bound(t@, m0, l0);
                assert(terms_view(items@).len() == items@.len());
            }
            make_linked_list(vbar, items)
        },
        Unifiable::SFunction { name, terms } => {
            proof {
                lemma_function_view(*name, *terms);
            }
            let new_terms = recreate_terms(terms, vars, ids);
            let n2 = name.clone();
            proof {
                lemma_function_view(n2, new_terms);
            }
            Unifiable::SFunction { name: n2, terms: new_terms }
        },
        _ => copy_term(t),
    }
}

/// Recreates the variables of a vector of terms, in order.
fn recreate_terms(ts: &Vec<Unifiable>, vars: &mut VarMap, ids: &mut VarIds) -> (r: Vec<Unifiable>)
    requires
        old(ids).last + seq_size(terms_view(ts@), 0) + 2 < usize::MAX,
    ensures
        (terms_view(r@), final(vars).view_map(), final(ids).last as nat) == recreate_seq(
            terms_view(ts@),
            0,
            old(vars).view_map(),
            old(ids).last as nat,
        ),
    decreases ts, 1int,
{
    let ghost tv = terms_view(ts@);
    let ghost m0 = vars.view_map();
    let ghost l0 = ids.last as nat;
    let mut out: Vec<Unifiable> = Vec::new();
    let mut i: usize = 0;
    proof {
        lemma_recreate_seq_ids(tv, 0, m0, l0);
    }
    while i < ts.len()
        invariant
            tv == terms_view(ts@),
            i <= ts@.len(),
            ids.last + seq_size(tv, i as int) + 2 < usize::MAX,
            ({
                let (rest, mr, lr) = recreate_seq(tv, i as int, vars.view_map(), ids.last as nat);
                recreate_seq(tv, 0, m0, l0) == (terms_view(out@) + rest, mr, lr)
            }),
        decreases ts@.len() - i,
    {
        assert(decreases_to!(ts => ts@[i as int]));
        assert(tv[i as int] == ts@[i as int]@);
        let ghost mi = vars.view_map();
        let ghost li = ids.last as nat;
        proof {
            lemma_recreate_ids(tv[i as int], mi, li);
        }
        let t2 = recreate_term(&ts[i], vars, ids);
        proof {
            lemma_recreate_seq_ids(tv, i + 1, vars.view_map(), ids.last as nat);
        }
        let ghost prev = terms_view(out@);
        out.push(t2);
        assert(terms_view(out@) =~= prev.push(t2@));
        proof {
            let (rest, mr, lr) = recreate_seq(tv, i + 1, vars.view_map(), ids.last as nat);
            assert(prev + recreate_seq(tv, i as int, mi, li).0 =~= terms_view(out@) + rest);
        }
        i = i + 1;
    }
    assert(terms_view(out@) + Seq::<Term>::empty() =~= terms_view(out@));
    out
}

/// Recreates the variables of the items of a list, node by node.
fn recreate_items(l: &Unifiable, vars: &mut VarMap, ids: &mut VarIds) -> (r: (Vec<Unifiable>, bool))
    requires
        old(ids).last + term_size(l@) + 2 < usize::MAX,
    ensures
        ({
            let (ts2, vb, m2, l2) = recreate_list(l@, old(vars).view_map(), old(ids).last as nat);
            terms_view(r.0@) == ts2 && r.1 == vb && final(vars).view_map() == m2 && final(ids).last
                == l2
        }),
    decreases l, 1int,
{
    match l {
        Unifiable::SLinkedList { term, next, count, tail_var } => {
            let ghost m0 = vars.view_map();
            let ghost l0 = ids.last as nat;
            proof {
                lemma_recreate_ids(term@, m0, l0);
            }
            let t2 = recreate_term(term, vars, ids);
            let vb = *count == 1 && *tail_var;
            let mut out: Vec<Unifiable> = Vec::new();
            out.push(t2);
            if is_nil(next) {
                assert(terms_view(out@) =~= seq![t2@]);
                return (out, vb);
            }
            let (rest, vb2) = recreate_items(next, vars, ids);
            let ghost rv = terms_view(rest@);
            let mut rest2 = rest;
            out.append(&mut rest2);
            assert(terms_view(out@) =~= seq![t2@] + rv);
            (out, vb || vb2)
        },
        _ => {
            proof {
                lemma_view_kind(*l);
            }
            (Vec::new(), false)
        },
    }
}

impl Unifiable {
    /// Recreates the logic variables of the term with fresh IDs from the
    /// counter: each variable name gets one ID, kept in `recreated_vars`,
    /// so that every occurrence of a name gets the same ID.
    pub fn recreate_variables(self, recreated_vars: &mut VarMap, ids: &mut VarIds) -> (r: Unifiable)
        requires
            old(ids).last + term_size(self@) + 2 < usize::MAX,
        ensures
            (r@, final(recreated_vars).view_map(), final(ids).last as nat) == recreate_spec(
                self@,
                old(recreated_vars).view_map(),
                old(ids).last as nat,
            ),
    {
        recreate_term(&self, recreated_vars, ids)
    }
}

/// The names of the logic variables of `t`, each occurrence, in the order
/// in which recreation meets them.
pub open spec fn var_names(t: Term) -> Seq<Seq<char>>
    decreases t, 2int,
{
    match t {
        Term::LogicVar(_, name) => seq![name],
        Term::SComplex(ts) => var_names_from(ts, 0),
        Term::SLinkedList(_, _, _, _) => list_var_names(t),
        Term::SFunction(_, ts) => var_names_from(ts, 0),
        _ => Seq::empty(),
    }
}

/// The names of the logic variables of `ts[i..]`, in order.
pub open spec fn var_names_from(ts: Seq<Term>, i: int) -> Seq<Seq<char>>
    decreases ts, ts.len() - i,
{
    if i < 0 || i >= ts.len() {
        Seq::empty()
    } else {
        var_names(ts[i]) + var_names_from(ts, i + 1)
    }
}

/// The names of the logic variables of the items of a list, node by node.
pub open spec fn list_var_names(l: Term) -> Seq<Seq<char>>
    decreases l, 1int,
{
    match l {
        Term::SLinkedList(t, n, _, _) => var_names(*t) + if *n is Nil {
            Seq::empty()
        } else {
            list_var_names(*n)
        },
        _ => Seq::empty(),
    }
}

/// IDs for the names, taken in turn: a name already in the map keeps its
/// ID; a new name gets the ID after the last one given, and goes into the
/// map. Gives the new map and the last ID given.
pub open spec fn assign_ids(names: Seq<Seq<char>>, m: Map<Seq<char>, usize>, last: nat) -> (
    Map<Seq<char>, usize>,
    nat,
)
    decreases names.len(),
{
    if names.len() == 0 {
        (m, last)
    } else if m.contains_key(names[0]) {
        assign_ids(names.drop_first(), m, last)
    } else {
        assign_ids(names.drop_first(), m.insert(names[0], (last + 1) as usize), last + 1)
    }
}

/// Giving IDs to two runs of names, one after the other, is giving IDs to
/// the whole.
proof fn lemma_assign_concat(
    a: Seq<Seq<char>>,
    b: Seq<Seq<char>>,
    m: Map<Seq<char>, usize>,
    last: nat,
)
    ensures
        assign_ids(a + b, m, last) == assign_ids(b, assign_ids(a, m, last).0, assign_ids(a, m, last).1),
    decreases a.len(),
{
    if a.len() == 0 {
        assert(a + b =~= b);
    } else {
        assert((a + b).drop_first() =~= a.drop_first() + b);
        assert((a + b)[0] == a[0]);
        if m.contains_key(a[0]) {
            lemma_assign_concat(a.drop_first(), b, m, last);
        } else {
            lemma_assign_concat(a.drop_first(), b, m.insert(a[0], (last + 1) as usize), last + 1);
        }
    }
}

/// Giving IDs keeps the IDs of the names already in the map, gives an ID
/// to every name, and gives new IDs only after `last`.
pub proof fn lemma_assign_keeps(names: Seq<Seq<char>>, m: Map<Seq<char>, usize>, last: nat)
    requires
        last + names.len() < usize::MAX,
    ensures
        forall|n: Seq<char>| #[trigger] m.contains_key(n) ==> assign_ids(names, m, last).0.contains_key(n)
            && assign_ids(names, m, last).0[n] == m[n],
        forall|k: int| 0 <= k < names.len() ==> assign_ids(names, m, last).0.contains_key(
            #[trigger] names[k],
        ),
        forall|n: Seq<char>| #[trigger] assign_ids(names, m, last).0.contains_key(n) && !m.contains_key(n)
            ==> last < assign_ids(names, m, last).0[n] <= assign_ids(names, m, last).1,
        last <= assign_ids(names, m, last).1 <= last + names.len(),
    decreases names.len(),
{
    if names.len() > 0 {
        let rest = names.drop_first();
        let (m1, l1) = if m.contains_key(names[0]) {
            (m, last)
        } else {
            (m.insert(names[0], (last + 1) as usize), last + 1)
        };
        lemma_assign_keeps(rest, m1, l1);
        assert(assign_ids(names, m, last) == assign_ids(rest, m1, l1));
        assert forall|n: Seq<char>| #[trigger] m.contains_key(n) implies m1.contains_key(n) && m1[n]
            == m[n] by {}
        assert forall|k: int| 0 <= k < names.len() implies assign_ids(names, m, last).0.contains_key(
            #[trigger] names[k],
        ) by {
            if k > 0 {
                assert(names[k] == rest[k - 1]);
            } else {
                assert(m1.contains_key(names[0]));
            }
        }
        assert forall|n: Seq<char>| #[trigger] assign_ids(names, m, last).0.contains_key(n)
            && !m.contains_key(n) implies last < assign_ids(names, m, last).0[n]
            <= assign_ids(names, m, last).1 by {
            if m1.contains_key(n) {
                assert(n == names[0]);
            }
        }
    }
}

/// Recreating the variables of `t` gives its variable names IDs in the
/// order in which they occur: a name already in the map keeps its ID, each
/// new name gets the next ID after the last one given, in order of first
/// occurrence; the last ID given grows by the number of new names.
pub proof fn law_recreate_ids(t: Term, m: Map<Seq<char>, usize>, last: nat)
    ensures
        (recreate_spec(t, m, last).1, recreate_spec(t, m, last).2) == assign_ids(var_names(t), m, last),
    decreases t, 2int,
{
    match t {
        Term::SComplex(ts) => {
            lemma_recreate_seq_names(ts, 0, m, last);
            let (ts2, m2, l2) = recreate_seq(ts, 0, m, last);
            assert(recreate_spec(t, m, last) == (Term::SComplex(ts2), m2, l2));
            assert(var_names(t) == var_names_from(ts, 0));
        },
        Term::SFunction(f, ts) => {
            lemma_recreate_seq_names(ts, 0, m, last);
            let (ts2, m2, l2) = recreate_seq(ts, 0, m, last);
            assert(recreate_spec(t, m, last) == (Term::SFunction(f, ts2), m2, l2));
            assert(var_names(t) == var_names_from(ts, 0));
        },
        Term::SLinkedList(_, _, _, _) => {
            lemma_recreate_list_names(t, m, last);
            let (ts2, vb, m2, l2) = recreate_list(t, m, last);
            assert(recreate_spec(t, m, last) == (mll(vb, ts2), m2, l2));
            assert(var_names(t) == list_var_names(t));
        },
        Term::LogicVar(_, name) => {
            let ns = seq![name];
            assert(ns.drop_first() =~= Seq::<Seq<char>>::empty());
            assert(var_names(t) == ns);
            if m.contains_key(name) {
                assert(assign_ids(ns, m, last) == assign_ids(Seq::<Seq<char>>::empty(), m, last));
            } else {
                assert(assign_ids(ns, m, last) == assign_ids(
                    Seq::<Seq<char>>::empty(),
                    m.insert(name, (last + 1) as usize),
                    last + 1,
                ));
            }
        },
        _ => {
            assert(var_names(t) == Seq::<Seq<char>>::empty());
        },
    }
}

proof fn lemma_recreate_seq_names(ts: Seq<Term>, i: int, m: Map<Seq<char>, usize>, last: nat)
    ensures
        (recreate_seq(ts, i, m, last).1, recreate_seq(ts, i, m, last).2) == assign_ids(
            var_names_from(ts, i),
            m,
            last,
        ),
    decreases ts, ts.len() - i,
{
    if 0 <= i < ts.len() {
        let (t2, m2, l2) = recreate_spec(ts[i], m, last);
        law_recreate_ids(ts[i], m, last);
        lemma_recreate_seq_names(ts, i + 1, m2, l2);
        lemma_assign_concat(var_names(ts[i]), var_names_from(ts, i + 1), m, last);
    }
}

proof fn lemma_recreate_list_names(l: Term, m: Map<Seq<char>, usize>, last: nat)
    ensures
        (recreate_list(l, m, last).2, recreate_list(l, m, last).3) == assign_ids(
            list_var_names(l),
            m,
            last,
        ),
    decreases l, 1int,
{
    match l {
        Term::SLinkedList(t, n, _, _) => {
            let (t2, m2, l2) = recreate_spec(*t, m, last);
            law_recreate_ids(*t, m, last);
            if *n is Nil {
                assert(var_names(*t) + Seq::<Seq<char>>::empty() =~= var_names(*t));
            } else {
                lemma_recreate_list_names(*n, m2, l2);
                lemma_assign_concat(var_names(*t), list_var_names(*n), m, last);
            }
        },
        _ => {},
    }
}

/// Every logic variable of `t` has the ID that the map gives its name.
pub open spec fn ids_from_map(t: Term, m: Map<Seq<char>, usize>) -> bool
    decreases t, 1int,
{
    match t {
        Term::LogicVar(id, name) => m.contains_key(name) && id == m[name] as nat,
        Term::SComplex(xs) => ids_from_map_from(xs, 0, m),
        Term::SFunction(_, xs) => ids_from_map_from(xs, 0, m),
        Term::SLinkedList(a, b, _, _) => ids_from_map(*a, m) && ids_from_map(*b, m),
        _ => true,
    }
}

/// Every logic variable of `xs[i..]` has the ID that the map gives its name.
pub open spec fn ids_from_map_from(xs: Seq<Term>, i: int, m: Map<Seq<char>, usize>) -> bool
    decreases xs, xs.len() - i,
{
    if i < 0 || i >= xs.len() {
        true
    } else {
        ids_from_map(xs[i], m) && ids_from_map_from(xs, i + 1, m)
    }
}

/// `m2` keeps every entry of `m1`.
pub open spec fn keeps_entries(m1: Map<Seq<char>, usize>, m2: Map<Seq<char>, usize>) -> bool {
    forall|n: Seq<char>| #[trigger] m1.contains_key(n) ==> m2.contains_key(n) && m2[n] == m1[n]
}

proof fn lemma_ids_mono(t: Term, m1: Map<Seq<char>, usize>, m2: Map<Seq<char>, usize>)
    requires
        ids_from_map(t, m1),
        keeps_entries(m1, m2),
    ensures
        ids_from_map(t, m2),
    decreases t, 1int,
{
    match t {
        Term::LogicVar(_, name) => {
            assert(m1.contains_key(name));
        },
        Term::SComplex(xs) => lemma_ids_mono_from(xs, 0, m1, m2),
        Term::SFunction(_, xs) => lemma_ids_mono_from(xs, 0, m1, m2),
        Term::SLinkedList(a, b, _, _) => {
            lemma_ids_mono(*a, m1, m2);
            lemma_ids_mono(*b, m1, m2);
        },
        _ => {},
    }
}

proof fn lemma_ids_mono_from(xs: Seq<Term>, i: int, m1: Map<Seq<char>, usize>, m2: Map<Seq<char>, usize>)
    requires
        ids_from_map_from(xs, i, m1),
        keeps_entries(m1, m2),
    ensures
        ids_from_map_from(xs, i, m2),
    decreases xs, xs.len() - i,
{
    if 0 <= i < xs.len() {
        lemma_ids_mono(xs[i], m1, m2);
        lemma_ids_mono_from(xs, i + 1, m1, m2);
    }
}

proof fn lemma_ids_from_shift(x: Term, r: Seq<Term>, j: int, m: Map<Seq<char>, usize>)
    requires
        0 <= j,
    ensures
        ids_from_map_from(seq![x] + r, j + 1, m) == ids_from_map_from(r, j, m),
    decreases r.len() - j,
{
    if j < r.len() {
        assert((seq![x] + r)[j + 1] == r[j]);
        lemma_ids_from_shift(x, r, j + 1, m);
    }
}

/// The list maker puts the items together without changing them.
proof fn lemma_mll_ids(ts: Seq<Term>, vb: bool, i: int, m: Map<Seq<char>, usize>)
    requires
        1 <= i,
        ids_from_map_from(ts, i, m),
    ensures
        ids_from_map(mll_state(ts, vb, i).0, m),
    decreases ts.len() - i,
{
    if i < ts.len() {
        lemma_mll_ids(ts, vb, i + 1, m);
        assert(ids_from_map(ts[i], m));
    } else {
        assert(ids_from_map(Term::Nil, m));
    }
}

/// Recreation only adds to the map.
proof fn lemma_recreate_extends(t: Term, m: Map<Seq<char>, usize>, last: nat)
    ensures
        keeps_entries(m, recreate_spec(t, m, last).1),
    decreases t, 2int,
{
    match t {
        Term::SComplex(ts) => lemma_recreate_seq_extends(ts, 0, m, last),
        Term::SFunction(_, ts) => lemma_recreate_seq_extends(ts, 0, m, last),
        Term::SLinkedList(_, _, _, _) => lemma_recreate_list_extends(t, m, last),
        _ => {},
    }
}

proof fn lemma_recreate_seq_extends(ts: Seq<Term>, i: int, m: Map<Seq<char>, usize>, last: nat)
    ensures
        keeps_entries(m, recreate_seq(ts, i, m, last).1),
    decreases ts, ts.len() - i,
{
    if 0 <= i < ts.len() {
        let (t2, m2, l2) = recreate_spec(ts[i], m, last);
        lemma_recreate_extends(ts[i], m, last);
        lemma_recreate_seq_extends(ts, i + 1, m2, l2);
    }
}

proof fn lemma_recreate_list_extends(l: Term, m: Map<Seq<char>, usize>, last: nat)
    ensures
        keeps_entries(m, recreate_list(l, m, last).2),
    decreases l, 1int,
{
    match l {
        Term::SLinkedList(t, n, _, _) => {
            let (t2, m2, l2) = recreate_spec(*t, m, last);
            lemma_recreate_extends(*t, m, last);
            if !(*n is Nil) {
                lemma_recreate_list_extends(*n, m2, l2);
            }
        },
        _ => {},
    }
}

/// After recreation, every variable of the new term has the ID that the
/// new map gives its name.
pub proof fn law_recreate_uses_map(t: Term, m: Map<Seq<char>, usize>, last: nat)
    requires
        last + term_size(t) < usize::MAX,
    ensures
        ids_from_map(recreate_spec(t, m, last).0, recreate_spec(t, m, last).1),
    decreases t, 2int,
{
    match t {
        Term::SComplex(ts) => lemma_recreate_seq_uses_map(ts, 0, m, last),
        Term::SFunction(_, ts) => lemma_recreate_seq_uses_map(ts, 0, m, last),
        Term::SLinkedList(_, _, _, _) => {
            lemma_recreate_list_uses_map(t, m, last);
            let (ts2, vb, m2, l2) = recreate_list(t, m, last);
            if ts2.len() > 0 {
                lemma_mll_ids(ts2, vb, 1, m2);
                assert(ids_from_map(ts2[0], m2));
            } else {
                assert(ids_from_map(Term::Nil, m2));
            }
        },
        _ => {},
    }
}

proof fn lemma_recreate_seq_uses_map(ts: Seq<Term>, i: int, m: Map<Seq<char>, usize>, last: nat)
    requires
        0 <= i,
        last + seq_size(ts, i) < usize::MAX,
    ensures
        ids_from_map_from(recreate_seq(ts, i, m, last).0, 0, recreate_seq(ts, i, m, last).1),
    decreases ts, ts.len() - i,
{
    if i < ts.len() {
        let (t2, m2, l2) = recreate_spec(ts[i], m, last);
        lemma_recreate_ids(ts[i], m, last);
        law_recreate_uses_map(ts[i], m, last);
        lemma_recreate_seq_uses_map(ts, i + 1, m2, l2);
        lemma_recreate_seq_extends(ts, i + 1, m2, l2);
        let (rest, m3, l3) = recreate_seq(ts, i + 1, m2, l2);
        lemma_ids_mono(t2, m2, m3);
        lemma_ids_from_shift(t2, rest, 0, m3);
        assert((seq![t2] + rest)[0] == t2);
    }
}

proof fn lemma_recreate_list_uses_map(l: Term, m: Map<Seq<char>, usize>, last: nat)
    requires
        last + term_size(l) < usize::MAX,
    ensures
        ids_from_map_from(recreate_list(l, m, last).0, 0, recreate_list(l, m, last).2),
    decreases l, 1int,
{
    match l {
        Term::SLinkedList(t, n, _, _) => {
            let (t2, m2, l2) = recreate_spec(*t, m, last);
            lemma_recreate_ids(*t, m, last);
            law_recreate_uses_map(*t, m, last);
            if *n is Nil {
                assert(ids_from_map_from(seq![t2], 1, m2));
            } else {
                lemma_recreate_list_uses_map(*n, m2, l2);
                lemma_recreate_list_extends(*n, m2, l2);
                let (rest, vb2, m3, l3) = recreate_list(*n, m2, l2);
                lemma_ids_mono(t2, m2, m3);
                lemma_ids_from_shift(t2, rest, 0, m3);
                assert((seq![t2] + rest)[0] == t2);
            }
        },
        _ => {},
    }
}

/// `a` and `b` are the same term but for the IDs of their logic variables.
pub open spec fn same_but_ids(a: Term, b: Term) -> bool
    decreases a, 1int,
{
    match a {
        Term::LogicVar(_, n1) => b is LogicVar && b->LogicVar_1 == n1,
        Term::SComplex(xs) => b is SComplex && same_seq_from(xs, 0, b->SComplex_0),
        Term::SFunction(f, xs) => b is SFunction && b->SFunction_0 == f && same_seq_from(
            xs,
            0,
            b->SFunction_1,
        ),
        Term::SLinkedList(t1, n1, c1, f1) => match b {
            Term::SLinkedList(t2, n2, c2, f2) => c1 == c2 && f1 == f2 && same_but_ids(*t1, *t2)
                && same_but_ids(*n1, *n2),
            _ => false,
        },
        _ => a == b,
    }
}

/// The terms `xs[i..]` are, one by one, the terms `ys` but for the IDs of
/// their logic variables.
pub open spec fn same_seq_from(xs: Seq<Term>, i: int, ys: Seq<Term>) -> bool
    decreases xs, xs.len() - i,
{
    if i < 0 || i >= xs.len() {
        ys.len() == 0
    } else {
        ys.len() > 0 && same_but_ids(xs[i], ys[0]) && same_seq_from(xs, i + 1, ys.drop_first())
    }
}

/// A term whose lists are built as the list maker builds a list that is
/// not empty: every node but the last holds an item (not Nil), the last is
/// the empty node, each node counts one more than the node after it, and
/// only the node before the empty one may mark a tail variable.
pub open spec fn well_built(t: Term) -> bool
    decreases t, 2int,
{
    match t {
        Term::SComplex(xs) => well_built_from(xs, 0),
        Term::SFunction(_, xs) => well_built_from(xs, 0),
        Term::SLinkedList(_, _, _, _) => well_built_chain(t),
        _ => true,
    }
}

/// Each of the terms `xs[i..]` is well built.
pub open spec fn well_built_from(xs: Seq<Term>, i: int) -> bool
    decreases xs, xs.len() - i,
{
    if i < 0 || i >= xs.len() {
        true
    } else {
        well_built(xs[i]) && well_built_from(xs, i + 1)
    }
}

/// The list from the node `l` on is well built and holds at least one item.
pub open spec fn well_built_chain(l: Term) -> bool
    decreases l, 1int,
{
    match l {
        Term::SLinkedList(x, n, c, tf) => {
            &&& !(*x is Nil)
            &&& well_built(*x)
            &&& *n is SLinkedList
            &&& c == (*n)->SLinkedList_2 + 1
            &&& if *(*n)->SLinkedList_0 is Nil {
                *(*n)->SLinkedList_1 is Nil && (*n)->SLinkedList_2 == 0 && !(*n)->SLinkedList_3
            } else {
                !tf && well_built_chain(*n)
            }
        },
        _ => false,
    }
}

/// Recreating the variables of a well-built term keeps the term: only the
/// IDs of its logic variables change.
pub proof fn law_recreate_keeps_structure(t: Term, m: Map<Seq<char>, usize>, last: nat)
    requires
        well_built(t),
    ensures
        same_but_ids(t, recreate_spec(t, m, last).0),
    decreases t, 2int,
{
    match t {
        Term::SComplex(xs) => {
            lemma_recreate_seq_shape(xs, 0, m, last);
            let r = recreate_seq(xs, 0, m, last).0;
            assert(recreate_spec(t, m, last).0 == Term::SComplex(r));
            assert(same_seq_from(xs, 0, r));
            assert(same_but_ids(Term::SComplex(xs), Term::SComplex(r)));
        },
        Term::SFunction(f, xs) => {
            lemma_recreate_seq_shape(xs, 0, m, last);
            assert(recreate_spec(t, m, last).0 == Term::SFunction(f, recreate_seq(xs, 0, m, last).0));
        },
        Term::SLinkedList(x, n, c, tf) => {
            let (ts2, vb, m2, l2) = recreate_list(t, m, last);
            let (x2, mx, lx) = recreate_spec(*x, m, last);
            law_recreate_keeps_structure(*x, m, last);
            assert(ts2 == seq![x2] + recreate_list(*n, mx, lx).0);
            if *(*n)->SLinkedList_0 is Nil {
                assert(recreate_spec(Term::Nil, mx, lx) == (Term::Nil, mx, lx));
                assert(*(*n)->SLinkedList_1 is Nil);
                assert(recreate_list(*n, mx, lx).0 == seq![Term::Nil]);
                assert(ts2 =~= seq![x2, Term::Nil]);
                assert(mll_state(ts2, vb, 2) == (crate::parse_terms::empty_list(), 1nat, vb));
                assert(mll_state(ts2, vb, 1) == (crate::parse_terms::empty_list(), 1nat, vb));
                assert(same_but_ids(Term::Nil, Term::Nil));
                assert(same_but_ids(*n, crate::parse_terms::empty_list()));
                assert(recreate_spec(t, m, last).0 == Term::SLinkedList(
                    Box::new(x2),
                    Box::new(crate::parse_terms::empty_list()),
                    1,
                    vb,
                ));
            } else {
                lemma_recreate_chain_shape(*n, seq![x2], vb, mx, lx);
                assert(ts2 =~= seq![x2] + recreate_list(*n, mx, lx).0);
                let st = mll_state(ts2, vb, 1);
                assert(same_but_ids(*n, st.0));
                assert(recreate_spec(t, m, last).0 == Term::SLinkedList(
                    Box::new(x2),
                    Box::new(st.0),
                    st.1,
                    st.2,
                ));
            }
        },
        Term::LogicVar(id, name) => {
            assert(recreate_spec(t, m, last).0 is LogicVar);
        },
        _ => {
            assert(recreate_spec(t, m, last).0 == t);
        },
    }
}

/// Recreating the variables of well-built terms `xs[i..]` keeps them, one
/// by one.
proof fn lemma_recreate_seq_shape(xs: Seq<Term>, i: int, m: Map<Seq<char>, usize>, last: nat)
    requires
        0 <= i,
        well_built_from(xs, i),
    ensures
        same_seq_from(xs, i, recreate_seq(xs, i, m, last).0),
    decreases xs, xs.len() - i,
{
    if i < xs.len() {
        let (t2, m2, l2) = recreate_spec(xs[i], m, last);
        law_recreate_keeps_structure(xs[i], m, last);
        lemma_recreate_seq_shape(xs, i + 1, m2, l2);
        let (rest, m3, l3) = recreate_seq(xs, i + 1, m2, l2);
        assert((seq![t2] + rest).drop_first() =~= rest);
    }
}

/// The list maker, given the items before the node `l` and the recreated
/// items from `l` on, rebuilds the nodes from `l` on as they were, but for
/// the IDs of the variables.
proof fn lemma_recreate_chain_shape(
    l: Term,
    p: Seq<Term>,
    vb: bool,
    m: Map<Seq<char>, usize>,
    last: nat,
)
    requires
        well_built_chain(l),
        p.len() >= 1,
        vb == recreate_list(l, m, last).1,
    ensures
        ({
            let st = mll_state(p + recreate_list(l, m, last).0, vb, p.len() as int);
            same_but_ids(l, st.0) && st.1 == l->SLinkedList_2 + 1 && !st.2
        }),
    decreases l, 1int,
{
    match l {
        Term::SLinkedList(x, n, c, tf) => {
            let (x2, mx, lx) = recreate_spec(*x, m, last);
            law_recreate_keeps_structure(*x, m, last);
            let i = p.len() as int;
            assert(recreate_list(l, m, last).0 == seq![x2] + recreate_list(*n, mx, lx).0);
            if *(*n)->SLinkedList_0 is Nil {
                let ts = p + recreate_list(l, m, last).0;
                assert(recreate_spec(Term::Nil, mx, lx) == (Term::Nil, mx, lx));
                assert(*(*n)->SLinkedList_1 is Nil);
                assert(recreate_list(*n, mx, lx).0 == seq![Term::Nil]);
                assert(ts =~= p + seq![x2, Term::Nil]);
                assert(ts[i] == x2);
                assert(ts[i + 1] == Term::Nil);
                assert(mll_state(ts, vb, i + 2) == (crate::parse_terms::empty_list(), 1nat, vb));
                assert(mll_state(ts, vb, i + 1) == (crate::parse_terms::empty_list(), 1nat, vb));
                assert(same_but_ids(Term::Nil, Term::Nil));
                assert(same_but_ids(*n, crate::parse_terms::empty_list()));
                let st = mll_state(ts, vb, i);
                assert(st.0 == Term::SLinkedList(
                    Box::new(x2),
                    Box::new(crate::parse_terms::empty_list()),
                    1,
                    vb,
                ));
                assert(same_but_ids(l, st.0));
            } else {
                let rest = recreate_list(*n, mx, lx).0;
                lemma_recreate_chain_shape(*n, p.push(x2), vb, mx, lx);
                let ts = p + recreate_list(l, m, last).0;
                assert(ts =~= p.push(x2) + rest);
                assert(ts[i] == x2);
                lemma_recreate_list_nonempty(*n, mx, lx);
                let nx = mll_state(ts, vb, i + 1);
                assert(same_but_ids(*n, nx.0));
                let st = mll_state(ts, vb, i);
                assert(st.0 == Term::SLinkedList(Box::new(x2), Box::new(nx.0), nx.1, nx.2));
                assert(same_but_ids(l, st.0));
            }
        },
        _ => {},
    }
}

/// The recreated items of a well-built list end with Nil, after at least
/// one item.
proof fn lemma_recreate_list_nonempty(l: Term, m: Map<Seq<char>, usize>, last: nat)
    requires
        well_built_chain(l),
    ensures
        recreate_list(l, m, last).0.len() >= 2,
    decreases l, 1int,
{
    match l {
        Term::SLinkedList(x, n, c, tf) => {
            let (x2, mx, lx) = recreate_spec(*x, m, last);
            if !(*(*n)->SLinkedList_0 is Nil) {
                lemma_recreate_list_nonempty(*n, mx, lx);
            }
        },
        _ => {},
    }
}

/// Replacement of the variables of `t` by the terms they are bound to,
/// following at most `depth` bindings along any path. A variable which is
/// unbound, or past that depth, stays as it is; so does a built-in function.
pub open spec fn replace_at(t: Term, ss: Seq<Option<Term>>, depth: nat) -> Term
    decreases depth, t, 0int,
{
    match t {
        Term::LogicVar(id, _) => match bound_at(ss, id) {
            Some(v) => if depth == 0 {
                t
            } else {
                replace_at(v, ss, (depth - 1) as nat)
            },
            None => t,
        },
        Term::SComplex(ts) => Term::SComplex(replace_seq(ts, 0, ss, depth)),
        Term::SLinkedList(a, b, c, tf) => Term::SLinkedList(
            Box::new(replace_at(*a, ss, depth)),
            Box::new(replace_at(*b, ss, depth)),
            c,
            tf,
        ),
        _ => t,
    }
}

/// Replacement of the variables of the terms `ts[i..]`.
pub open spec fn replace_seq(ts: Seq<Term>, i: int, ss: Seq<Option<Term>>, depth: nat) -> Seq<Term>
    decreases depth, ts, ts.len() - i,
{
    if i < 0 || i >= ts.len() {
        Seq::empty()
    } else {
        seq![replace_at(ts[i], ss, depth)] + replace_seq(ts, i + 1, ss, depth)
    }
}

/// Replacing the variables of `ts[i..]` keeps their number.
pub proof fn lemma_replace_seq_len(ts: Seq<Term>, i: int, ss: Seq<Option<Term>>, depth: nat)
    requires
        0 <= i <= ts.len(),
    ensures
        replace_seq(ts, i, ss, depth).len() == ts.len() - i,
    decreases ts.len() - i,
{
    if i < ts.len() {
        lemma_replace_seq_len(ts, i + 1, ss, depth);
    }
}

/// The replacement that `replace_variables` makes: a chain of bindings
/// longer than the substitution set (which only a variable bound, through
/// others, to a term which holds it again can have) is cut there.
pub open spec fn replace_spec(t: Term, ss: Seq<Option<Term>>) -> Term {
    replace_at(t, ss, ss.len())
}

/// Replaces variables, following at most `depth` bindings along any path.
fn replace_term(t: &Unifiable, ss: &SubstitutionSet, depth: usize) -> (r: Unifiable)
    ensures
        r@ == replace_at(t@, ss_view(*ss), depth as nat),
    decreases depth, t, 0int,
{
    match t {
        Unifiable::LogicVar { id, .. } => {
            if *id < ss.len() {
                if let Some(b) = &ss[*id] {
                    if depth == 0 {
                        return copy_term(t);
                    }
                    return replace_term(&**b, ss, depth - 1);
                }
            }
            copy_term(t)
        },
        Unifiable::SComplex(ts) => {
            proof {
                lemma_complex_view(*ts);
            }
            let r = replace_terms(ts, ss, depth);
            proof {
                lemma_complex_view(r);
            }
            Unifiable::SComplex(r)
        },
        Unifiable::SLinkedList { term, next, count, tail_var } => {
            let a = replace_term(term, ss, depth);
            let b = replace_term(next, ss, depth);
            Unifiable::SLinkedList { term: Box::new(a), next: Box::new(b), count: *count, tail_var: *tail_var }
        },
        _ => copy_term(t),
    }
}

/// Replaces the variables of a vector of terms.
fn replace_terms(ts: &Vec<Unifiable>, ss: &SubstitutionSet, depth: usize) -> (r: Vec<Unifiable>)
    ensures
        terms_view(r@) == replace_seq(terms_view(ts@), 0, ss_view(*ss), depth as nat),
    decreases depth, ts, 1int,
{
    let ghost tv = terms_view(ts@);
    let ghost sv = ss_view(*ss);
    let mut out: Vec<Unifiable> = Vec::new();
    let mut i: usize = 0;
    while i < ts.len()
        invariant
            tv == terms_view(ts@),
            sv == ss_view(*ss),
            i <= ts@.len(),
            terms_view(out@) + replace_seq(tv, i as int, sv, depth as nat) == replace_seq(tv, 0, sv, depth as nat),
        decreases ts@.len() - i,
    {
        assert(decreases_to!(ts => ts@[i as int]));
        assert(tv[i as int] == ts@[i as int]@);
        let r = replace_term(&ts[i], ss, depth);
        let ghost prev = terms_view(out@);
        out.push(r);
        assert(terms_view(out@) =~= prev.push(r@));
        assert(prev + replace_seq(tv, i as int, sv, depth as nat) =~= terms_view(out@) + replace_seq(tv, i + 1, sv, depth as nat));
        i = i + 1;
    }
    assert(terms_view(out@) + replace_seq(tv, i as int, sv, depth as nat) =~= terms_view(out@));
    out
}

impl Unifiable {
    /// Replaces the logic variables of the term with the terms which they
    /// are ultimately bound to, in order to display solutions. Unbound
    /// variables stay as they are.
    pub fn replace_variables(&self, ss: &SubstitutionSet) -> (r: Unifiable)
        ensures
            r@ == replace_spec(self@, ss_view(*ss)),
    {
        replace_term(self, ss, ss.len())
    }
}

/// Recreates the variables of a vector of terms, in order, sharing one map.
pub fn recreate_vars_terms(terms: Vec<Unifiable>, vars: &mut VarMap, ids: &mut VarIds) -> (r: Vec<
    Unifiable,
>)
    requires
        old(ids).last + seq_size(terms_view(terms@), 0) + 2 < usize::MAX,
    ensures
        (terms_view(r@), final(vars).view_map(), final(ids).last as nat) == recreate_seq(
            terms_view(terms@),
            0,
            old(vars).view_map(),
            old(ids).last as nat,
        ),
{
    recreate_terms(&terms, vars, ids)
}


/// The size of a term if it is at most `budget`.
pub fn term_size_upto(t: &Unifiable, budget: usize) -> (r: Option<usize>)
    ensures
        r == if term_size(t@) <= budget {
            Some(term_size(t@) as usize)
        } else {
            None::<usize>
        },
    decreases t, 2int,
{
    match t {
        Unifiable::SComplex(ts) => {
            proof {
                lemma_complex_view(*ts);
            }
            if budget == 0 {
                return None;
            }
            match seq_size_upto(ts, budget - 1) {
                Some(n) => Some(n + 1),
                None => None,
            }
        },
        Unifiable::SFunction { name, terms } => {
            proof {
                lemma_function_view(*name, *terms);
            }
            if budget == 0 {
                return None;
            }
            match seq_size_upto(terms, budget - 1) {
                Some(n) => Some(n + 1),
                None => None,
            }
        },
        Unifiable::SLinkedList { term, next, .. } => {
            if budget == 0 {
                return None;
            }
            match term_size_upto(term, budget - 1) {
                Some(a) => match term_size_upto(next, budget - 1 - a) {
                    Some(b) => Some(1 + a + b),
                    None => None,
                },
                None => None,
            }
        },
        _ => {
            if budget == 0 {
                None
            } else {
                Some(1)
            }
        },
    }
}

/// The total size of the terms if it is at most `budget`.
pub fn seq_size_upto(ts: &Vec<Unifiable>, budget: usize) -> (r: Option<usize>)
    ensures
        r == if seq_size(terms_view(ts@), 0) <= budget {
            Some(seq_size(terms_view(ts@), 0) as usize)
        } else {
            None::<usize>
        },
    decreases ts, 1int,
{
    let ghost tv = terms_view(ts@);
    let mut total: usize = 0;
    let mut i: usize = ts.len();
    while i > 0
        invariant
            tv == terms_view(ts@),
            i <= ts@.len(),
            total <= budget,
            total == seq_size(tv, i as int),
        decreases i,
    {
        assert(decreases_to!(ts => ts@[i - 1]));
        assert(tv[i - 1] == ts@[i - 1]@);
        assert(seq_size(tv, i - 1) == term_size(tv[i - 1]) + seq_size(tv, i as int));
        match term_size_upto(&ts[i - 1], budget - total) {
            Some(n) => {
                total = total + n;
            },
            None => {
                proof {
                    lemma_seq_size_mono(tv, i - 1);
                }
                return None;
            },
        }
        i = i - 1;
    }
    Some(total)
}

/// The total size of a suffix is at most that of the whole.
proof fn lemma_seq_size_mono(ts: Seq<Term>, k: int)
    requires
        0 <= k <= ts.len(),
    ensures
        seq_size(ts, k) <= seq_size(ts, 0),
    decreases k,
{
    if k > 0 {
        lemma_seq_size_mono(ts, k - 1);
    }
}

} // verus!
