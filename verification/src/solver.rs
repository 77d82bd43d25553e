//! The inference engine: a depth-first search for the solutions of a query.
//!
//! The solver holds the goals still to be proven, and a stack of choice
//! points: the rules of a complex goal not yet tried, or the branches of an
//! Or not yet tried. When the goals run out, a solution (a substitution set)
//! is found; when a goal fails, the search backtracks to the latest choice
//! point. When the goal of a choice point of rules or branches has been
//! proven, an end marker among the goals says so. A cut (`!`) removes the
//! choice points of the goals already proven; those of the goals still
//! being proven (whose end markers wait) stay, and so do the guards of
//! `not` goals, so that a failure can still go on to the next rule or
//! branch of such a goal, or make an enclosing `not` succeed; once such a
//! goal has been proven after the cut, its choice point goes too. After a
//! cut, the query gives at most one solution more. The solver works for at
//! most a given number of steps at a time, and can be resumed.
use vstd::prelude::*;
use std::rc::Rc;
use crate::unifiable::{Unifiable, Term, copy_term, key_text, lemma_view_kind, terms_view};
use crate::goal::{Goal, GoalView, OpKind, Operator, BuiltInPredicate, goals_view, copy_goal,
    copy_goals, lemma_goals_seq, goal_size, recreate_goal, goal_size_upto};
use crate::substitution_set::{SubstitutionSet, ss_view, empty_ss};
use crate::unify::{unify_spec, opt_ss_view, unify_depth, UNIFY_DEPTH};
use crate::knowledge_base::{KnowledgeBase, kb_rules, count_rules, get_rule, kb_wf};
use crate::rule::Rule;
use crate::variables::{term_size, recreate_spec, term_size_upto};
use crate::logic_var::VarIds;
use crate::built_ins::{builtin_spec, eval_builtin};
use crate::text::{str_to_chars, chars_eq_str};

verus! {

/// A point where the search can take another way.
pub enum Choice {
    /// The rules of a complex goal, from index `next` on; `rest` holds the
    /// goals after it (the next to prove last).
    Rules {
        goal: Unifiable,
        key: String,
        next: usize,
        count: usize,
        rest: Vec<Goal>,
        ss: Rc<SubstitutionSet>,
        id: i64,
    },
    /// The branches of an Or, from index `next` on.
    Branches {
        branches: Vec<Goal>,
        next: usize,
        rest: Vec<Goal>,
        ss: Rc<SubstitutionSet>,
        id: i64,
    },
    /// The start of the goals of a `not`: reached by backtracking, the
    /// goals have failed, and the `not` succeeds with `rest`.
    NotGuard { rest: Vec<Goal>, ss: Rc<SubstitutionSet> },
}

/// The result of a search.
pub enum Outcome {
    /// A solution: the substitution set of the bindings.
    Solution(Rc<SubstitutionSet>),
    /// There are no more solutions.
    NoMore,
    /// The search used up its steps; it can be resumed.
    OutOfSteps,
}

/// The solver of a query.
pub struct Solver {
    pub query: Goal,
    pub stack: Vec<Choice>,
    /// The goals to prove now (the next one last), and the substitution set.
    pub pending: Option<(Vec<Goal>, Rc<SubstitutionSet>)>,
    pub ids: VarIds,
    pub halted: bool,
    pub cut: bool,
    /// What the predicates `print` and `nl` printed.
    pub output: Vec<char>,
    /// The ID for the next choice point of rules or branches.
    pub next_cp: i64,
    /// The choice points with a smaller ID were there at the last cut.
    pub cut_floor: i64,
}

/// Model of a choice point.
pub enum ChoiceV {
    Rules(Term, Seq<char>, nat, nat, Seq<GoalView>, Seq<Option<Term>>, int),
    Branches(Seq<GoalView>, nat, Seq<GoalView>, Seq<Option<Term>>, int),
    NotGuard(Seq<GoalView>, Seq<Option<Term>>),
}

/// Model of the solver: its query and its search state.
pub struct MachineV {
    pub query: GoalView,
    pub stack: Seq<ChoiceV>,
    pub pending: Option<(Seq<GoalView>, Seq<Option<Term>>)>,
    pub last_id: nat,
    pub halted: bool,
    pub cut: bool,
    pub out: Seq<char>,
    pub next_cp: int,
    pub cut_floor: int,
}

/// Model of an outcome.
pub enum OutcomeV {
    Solution(Seq<Option<Term>>),
    NoMore,
    OutOfSteps,
}

/// The model of a knowledge base's entries.
pub type KbV = Seq<(Seq<char>, Seq<(Term, GoalView)>)>;

pub open spec fn choice_view(c: Choice) -> ChoiceV {
    match c {
        Choice::Rules { goal, key, next, count, rest, ss, id } => ChoiceV::Rules(
            goal@,
            key@,
            next as nat,
            count as nat,
            goals_view(rest@),
            ss_view(*ss),
            id as int,
        ),
        Choice::Branches { branches, next, rest, ss, id } => ChoiceV::Branches(
            goals_view(branches@),
            next as nat,
            goals_view(rest@),
            ss_view(*ss),
            id as int,
        ),
        Choice::NotGuard { rest, ss } => ChoiceV::NotGuard(goals_view(rest@), ss_view(*ss)),
    }
}

pub open spec fn machine_view(s: Solver) -> MachineV {
    MachineV {
        query: s.query@,
        stack: s.stack@.map_values(|c: Choice| choice_view(c)),
        pending: match s.pending {
            Some((gs, ss)) => Some((goals_view(gs@), ss_view(*ss))),
            None => None,
        },
        last_id: s.ids.last as nat,
        halted: s.halted,
        cut: s.cut,
        out: s.output@,
        next_cp: s.next_cp as int,
        cut_floor: s.cut_floor as int,
    }
}

pub open spec fn outcome_view(o: Outcome) -> OutcomeV {
    match o {
        Outcome::Solution(ss) => OutcomeV::Solution(ss_view(*ss)),
        Outcome::NoMore => OutcomeV::NoMore,
        Outcome::OutOfSteps => OutcomeV::OutOfSteps,
    }
}

/// The goal that marks the end of the goals of a `not`: reaching it, they
/// have succeeded, and the `not` fails.
pub open spec fn not_marker_name() -> Seq<char> {
    "$not"@
}

/// The stack without its choice points down to (and with) the latest
/// `not` guard.
pub open spec fn pop_to_guard(st: Seq<ChoiceV>) -> Seq<ChoiceV>
    decreases st.len(),
{
    if st.len() == 0 {
        st
    } else if st.last() is NotGuard {
        st.drop_last()
    } else {
        pop_to_guard(st.drop_last())
    }
}

/// The goal that marks the end of the proof of the goal for which the
/// choice point `id` was taken.
pub open spec fn end_marker_name() -> Seq<char> {
    "$end"@
}

pub open spec fn end_marker(id: int) -> GoalView {
    GoalView::BuiltIn(end_marker_name(), Some(seq![Term::SInteger(id)]))
}

/// The ID that an end marker's terms give.
pub open spec fn marker_id(terms: Option<Seq<Term>>) -> Option<int> {
    match terms {
        Some(ts) => if ts.len() == 1 && ts[0] is SInteger {
            Some(ts[0]->SInteger_0)
        } else {
            None
        },
        None => None,
    }
}

/// The end marker of the choice point `id` waits among the goals.
pub open spec fn marked(gs: Seq<GoalView>, id: int) -> bool {
    exists|k: int| 0 <= k < gs.len() && gs[k] == end_marker(id)
}

/// The goal for which the choice point `id` was taken is still being
/// proven: its end marker waits among the goals to prove now, or among
/// the goals that a `not` guard of the stack goes on with.
pub open spec fn is_open(gs: Seq<GoalView>, all: Seq<ChoiceV>, id: int) -> bool {
    marked(gs, id) || exists|j: int|
        0 <= j < all.len() && (#[trigger] all[j]) is NotGuard && marked(all[j]->NotGuard_0, id)
}

/// A choice point that a cut keeps: a `not` guard, or the choice point of
/// a goal still being proven.
pub open spec fn kept_at_cut(c: ChoiceV, gs: Seq<GoalView>, all: Seq<ChoiceV>) -> bool {
    match c {
        ChoiceV::NotGuard(_, _) => true,
        ChoiceV::Rules(_, _, _, _, _, _, id) => is_open(gs, all, id),
        ChoiceV::Branches(_, _, _, _, id) => is_open(gs, all, id),
    }
}

/// What a cut leaves of the stack `all` (of which `st` is the bottom part),
/// with the goals `gs` to prove after it.
pub open spec fn cut_stack(st: Seq<ChoiceV>, gs: Seq<GoalView>, all: Seq<ChoiceV>) -> Seq<ChoiceV>
    decreases st.len(),
{
    if st.len() == 0 {
        st
    } else if kept_at_cut(st.last(), gs, all) {
        cut_stack(st.drop_last(), gs, all).push(st.last())
    } else {
        cut_stack(st.drop_last(), gs, all)
    }
}

/// The stack without the choice point `id`.
pub open spec fn remove_cp(st: Seq<ChoiceV>, id: int) -> Seq<ChoiceV>
    decreases st.len(),
{
    if st.len() == 0 {
        st
    } else if st.last() matches ChoiceV::Rules(_, _, _, _, _, _, i) && i == id {
        remove_cp(st.drop_last(), id)
    } else if st.last() matches ChoiceV::Branches(_, _, _, _, i) && i == id {
        remove_cp(st.drop_last(), id)
    } else {
        remove_cp(st.drop_last(), id).push(st.last())
    }
}

/// One step of the search: gives the next state, and the outcome if the
/// search stops here.
pub open spec fn step(kb: KbV, m: MachineV) -> (MachineV, Option<OutcomeV>) {
    match m.pending {
        Some((goals, ss)) => if goals.len() == 0 {
            (MachineV { pending: None, halted: m.halted || m.cut, ..m }, Some(OutcomeV::Solution(ss)))
        } else {
            let g = goals.last();
            let rest = goals.drop_last();
            match g {
                GoalView::Nil => (MachineV { pending: Some((rest, ss)), ..m }, None),
                GoalView::Op(k, gs) => if k == OpKind::And || k == OpKind::Time {
                    (MachineV { pending: Some((rest + gs.reverse(), ss)), ..m }, None)
                } else if k == OpKind::Or {
                    if m.next_cp >= i64::MAX {
                        (
                            MachineV { stack: Seq::empty(), halted: true, pending: None, ..m },
                            Some(OutcomeV::NoMore),
                        )
                    } else {
                        (
                            MachineV {
                                stack: m.stack.push(ChoiceV::Branches(gs, 0, rest, ss, m.next_cp)),
                                pending: None,
                                next_cp: m.next_cp + 1,
                                ..m
                            },
                            None,
                        )
                    }
                } else {
                    (
                        MachineV {
                            stack: m.stack.push(ChoiceV::NotGuard(rest, ss)),
                            pending: Some(
                                (
                                    seq![GoalView::BuiltIn(not_marker_name(), None)] + gs.reverse(),
                                    ss,
                                ),
                            ),
                            ..m
                        },
                        None,
                    )
                },
                GoalView::Complex(c) => match c {
                    Term::SComplex(args) => if args.len() > 0 {
                        let key = key_text(args);
                        if m.next_cp >= i64::MAX {
                            (
                                MachineV { stack: Seq::empty(), halted: true, pending: None, ..m },
                                Some(OutcomeV::NoMore),
                            )
                        } else {
                            (
                                MachineV {
                                    stack: m.stack.push(
                                        ChoiceV::Rules(
                                            c,
                                            key,
                                            0,
                                            kb_rules(kb, key).len(),
                                            rest,
                                            ss,
                                            m.next_cp,
                                        ),
                                    ),
                                    pending: None,
                                    next_cp: m.next_cp + 1,
                                    ..m
                                },
                                None,
                            )
                        }
                    } else {
                        (MachineV { pending: None, ..m }, None)
                    },
                    _ => (MachineV { pending: None, ..m }, None),
                },
                GoalView::BuiltIn(name, terms) => if name == not_marker_name() {
                    (MachineV { stack: pop_to_guard(m.stack), pending: None, ..m }, None)
                } else if name == end_marker_name() {
                    (
                        MachineV {
                            stack: match marker_id(terms) {
                                Some(id) => if id < m.cut_floor {
                                    remove_cp(m.stack, id)
                                } else {
                                    m.stack
                                },
                                None => m.stack,
                            },
                            pending: Some((rest, ss)),
                            ..m
                        },
                        None,
                    )
                } else {
                    let (res, text) = builtin_spec(name, terms, ss);
                    if name == "!"@ {
                        (
                            MachineV {
                                stack: cut_stack(m.stack, rest, m.stack),
                                cut: true,
                                cut_floor: m.next_cp,
                                pending: Some((rest, ss)),
                                out: m.out + text,
                                ..m
                            },
                            None,
                        )
                    } else {
                        (
                            MachineV {
                                pending: match res {
                                    Some(ss2) => Some((rest, ss2)),
                                    None => None,
                                },
                                out: m.out + text,
                                ..m
                            },
                            None,
                        )
                    }
                },
            }
        },
        None => if m.stack.len() == 0 {
            (MachineV { halted: true, ..m }, Some(OutcomeV::NoMore))
        } else {
            let below = m.stack.drop_last();
            match m.stack.last() {
                ChoiceV::Rules(c, key, next, count, rest, ss, id) => {
                    let rules = kb_rules(kb, key);
                    if next >= count || next >= rules.len() {
                        (MachineV { stack: below, ..m }, None)
                    } else {
                        let rule = rules[next as int];
                        let st2 = below.push(ChoiceV::Rules(c, key, next + 1, count, rest, ss, id));
                        if m.last_id + term_size(rule.0) + goal_size(rule.1) + 4 >= usize::MAX {
                            (
                                MachineV { stack: Seq::empty(), halted: true, pending: None, ..m },
                                Some(OutcomeV::NoMore),
                            )
                        } else {
                            let (h, m1, l1) = recreate_spec(rule.0, Map::empty(), m.last_id);
                            let (b, m2, l2) = recreate_goal(rule.1, m1, l1);
                            match unify_spec(h, c, ss) {
                                None => (MachineV { stack: st2, ..m }, None),
                                Some(ss2) => (
                                    MachineV {
                                        stack: st2,
                                        last_id: l2,
                                        pending: Some((rest.push(end_marker(id)).push(b), ss2)),
                                        ..m
                                    },
                                    None,
                                ),
                            }
                        }
                    }
                },
                ChoiceV::Branches(gs, next, rest, ss, id) => if next >= gs.len() {
                    (MachineV { stack: below, ..m }, None)
                } else {
                    (
                        MachineV {
                            stack: below.push(ChoiceV::Branches(gs, next + 1, rest, ss, id)),
                            pending: Some((rest.push(end_marker(id)).push(gs[next as int]), ss)),
                            ..m
                        },
                        None,
                    )
                },
                ChoiceV::NotGuard(rest, ss) => (
                    MachineV { stack: below, pending: Some((rest, ss)), ..m },
                    None,
                ),
            }
        },
    }
}

/// The search from state `m` with at most `fuel` steps: gives the final
/// state and the outcome.
pub open spec fn run(kb: KbV, m: MachineV, fuel: nat) -> (MachineV, OutcomeV)
    decreases fuel,
{
    if m.halted {
        (m, OutcomeV::NoMore)
    } else if fuel == 0 {
        (m, OutcomeV::OutOfSteps)
    } else {
        let (m2, o) = step(kb, m);
        match o {
            Some(out) => (m2, out),
            None => run(kb, m2, (fuel - 1) as nat),
        }
    }
}


/// Pushes the goals onto `rest`, the last first, so that the first goal is
/// proven next.
fn push_reversed(rest: &mut Vec<Goal>, gs: Vec<Goal>)
    ensures
        goals_view(final(rest)@) == goals_view(old(rest)@) + goals_view(gs@).reverse(),
{
    let ghost gv = goals_view(gs@);
    let ghost r0 = goals_view(rest@);
    let mut gs = gs;
    while gs.len() > 0
        invariant
            goals_view(rest@) + goals_view(gs@).reverse() == r0 + gv.reverse(),
        decreases gs@.len(),
    {
        let ghost before = goals_view(gs@);
        let ghost rb = goals_view(rest@);
        let g = gs.pop().unwrap();
        assert(goals_view(gs@) =~= before.drop_last());
        rest.push(g);
        assert(goals_view(rest@) =~= rb.push(g@));
        assert(before.reverse() =~= seq![g@] + goals_view(gs@).reverse());
        assert(goals_view(rest@) + goals_view(gs@).reverse() =~= rb + before.reverse());
    }
    assert(goals_view(rest@) + goals_view(gs@).reverse() =~= goals_view(rest@));
}

/// The model of the choice stack.
pub open spec fn stack_view(st: Seq<Choice>) -> Seq<ChoiceV> {
    st.map_values(|c: Choice| choice_view(c))
}

/// The goal that marks the end of the goals of a `not`.
fn not_marker() -> (g: Goal)
    ensures
        g@ == GoalView::BuiltIn(not_marker_name(), None),
{
    Goal::BuiltInGoal(BuiltInPredicate { functor: crate::text::chars_to_string(&str_to_chars("$not")), terms: None })
}

/// The end marker of the choice point `id`.
fn end_marker_goal(id: i64) -> (g: Goal)
    ensures
        g@ == end_marker(id as int),
{
    let mut v: Vec<Unifiable> = Vec::new();
    v.push(Unifiable::SInteger(id));
    assert(terms_view(v@) =~= seq![Term::SInteger(id as int)]);
    Goal::BuiltInGoal(
        BuiltInPredicate { functor: crate::text::chars_to_string(&str_to_chars("$end")), terms: Some(v) },
    )
}

/// The ID of an end marker's terms.
fn marker_id_exec(terms: &Option<Vec<Unifiable>>) -> (r: Option<i64>)
    ensures
        match r {
            Some(i) => marker_id(match terms {
                Some(v) => Some(terms_view(v@)),
                None => None,
            }) == Some(i as int),
            None => marker_id(match terms {
                Some(v) => Some(terms_view(v@)),
                None => None,
            }) is None,
        },
{
    match terms {
        Some(v) => {
            if v.len() != 1 {
                return None;
            }
            proof {
                lemma_view_kind(v@[0]);
            }
            assert(terms_view(v@)[0] == v@[0]@);
            match &v[0] {
                Unifiable::SInteger(x) => Some(*x),
                _ => None,
            }
        },
        None => None,
    }
}

/// Is the goal the end marker of the choice point `id`?
fn is_marker_of(g: &Goal, id: i64) -> (b: bool)
    ensures
        b == (g@ == end_marker(id as int)),
{
    match g {
        Goal::BuiltInGoal(b) => {
            let f = str_to_chars(b.functor.as_str());
            proof {
                reveal_strlit("$end");
            }
            if !chars_eq_str(&f, "$end") {
                return false;
            }
            match marker_id_exec(&b.terms) {
                Some(i) => {
                    if i == id {
                        match &b.terms {
                            Some(v) => {
                                assert(terms_view(v@) =~= seq![Term::SInteger(id as int)]);
                            },
                            None => {},
                        }
                        true
                    } else {
                        false
                    }
                },
                None => false,
            }
        },
        _ => false,
    }
}

/// Does the end marker of the choice point `id` wait among the goals?
fn marked_exec(gs: &Vec<Goal>, id: i64) -> (b: bool)
    ensures
        b == marked(goals_view(gs@), id as int),
{
    let ghost gv = goals_view(gs@);
    let mut k: usize = 0;
    while k < gs.len()
        invariant
            gv == goals_view(gs@),
            k <= gs@.len(),
            forall|j: int| 0 <= j < k ==> gv[j] != end_marker(id as int),
        decreases gs@.len() - k,
    {
        assert(gv[k as int] == gs@[k as int]@);
        if is_marker_of(&gs[k], id) {
            return true;
        }
        k = k + 1;
    }
    false
}

/// Is the goal of the choice point `id` still being proven?
fn is_open_exec(gs: &Vec<Goal>, st: &Vec<Choice>, id: i64) -> (b: bool)
    ensures
        b == is_open(goals_view(gs@), stack_view(st@), id as int),
{
    if marked_exec(gs, id) {
        return true;
    }
    let ghost all = stack_view(st@);
    let mut j: usize = 0;
    while j < st.len()
        invariant
            all == stack_view(st@),
            j <= st@.len(),
            forall|i: int|
                0 <= i < j ==> !((#[trigger] all[i]) is NotGuard && marked(all[i]->NotGuard_0, id as int)),
        decreases st@.len() - j,
    {
        assert(all[j as int] == choice_view(st@[j as int]));
        match &st[j] {
            Choice::NotGuard { rest, .. } => {
                if marked_exec(rest, id) {
                    return true;
                }
            },
            _ => {},
        }
        j = j + 1;
    }
    false
}

/// A copy of a choice point.
fn copy_choice(c: &Choice) -> (r: Choice)
    ensures
        choice_view(r) == choice_view(*c),
{
    match c {
        Choice::Rules { goal, key, next, count, rest, ss, id } => Choice::Rules {
            goal: copy_term(goal),
            key: crate::text::chars_to_string(&str_to_chars(key.as_str())),
            next: *next,
            count: *count,
            rest: copy_goals(rest),
            ss: Rc::clone(ss),
            id: *id,
        },
        Choice::Branches { branches, next, rest, ss, id } => Choice::Branches {
            branches: copy_goals(branches),
            next: *next,
            rest: copy_goals(rest),
            ss: Rc::clone(ss),
            id: *id,
        },
        Choice::NotGuard { rest, ss } => Choice::NotGuard { rest: copy_goals(rest), ss: Rc::clone(ss) },
    }
}

impl Solver {
    /// Removes the choice points that a cut removes (see `cut_stack`).
    fn cut_exec(&mut self, gs: &Vec<Goal>)
        ensures
            final(self).query == old(self).query,
            machine_view(*final(self)) == (MachineV {
                stack: cut_stack(
                    machine_view(*old(self)).stack,
                    goals_view(gs@),
                    machine_view(*old(self)).stack,
                ),
                ..machine_view(*old(self))
            }),
    {
        let ghost m = machine_view(*self);
        let ghost st = m.stack;
        let ghost gv = goals_view(gs@);
        let mut kept: Vec<Choice> = Vec::new();
        let mut i: usize = 0;
        while i < self.stack.len()
            invariant
                m == machine_view(*old(self)),
                *self == *old(self),
                st == stack_view(self.stack@),
                gv == goals_view(gs@),
                i <= self.stack@.len(),
                stack_view(kept@) == cut_stack(st.take(i as int), gv, st),
            decreases self.stack@.len() - i,
        {
            assert(st.take(i + 1).drop_last() =~= st.take(i as int));
            assert(st.take(i + 1).last() == choice_view(self.stack@[i as int]));
            let keep = match &self.stack[i] {
                Choice::NotGuard { .. } => true,
                Choice::Rules { id, .. } => is_open_exec(gs, &self.stack, *id),
                Choice::Branches { id, .. } => is_open_exec(gs, &self.stack, *id),
            };
            if keep {
                let ghost k0 = stack_view(kept@);
                kept.push(copy_choice(&self.stack[i]));
                assert(stack_view(kept@) =~= k0.push(choice_view(self.stack@[i as int])));
            }
            i = i + 1;
        }
        assert(st.take(st.len() as int) =~= st);
        self.stack = kept;
        assert(machine_view(*self) =~= (MachineV { stack: cut_stack(m.stack, gv, m.stack), ..m }));
    }

    /// Removes the choice point `id`.
    fn remove_cp_exec(&mut self, id: i64)
        ensures
            final(self).query == old(self).query,
            machine_view(*final(self)) == (MachineV {
                stack: remove_cp(machine_view(*old(self)).stack, id as int),
                ..machine_view(*old(self))
            }),
    {
        let ghost m = machine_view(*self);
        let ghost st = m.stack;
        let mut kept: Vec<Choice> = Vec::new();
        let mut i: usize = 0;
        while i < self.stack.len()
            invariant
                m == machine_view(*old(self)),
                *self == *old(self),
                st == stack_view(self.stack@),
                i <= self.stack@.len(),
                stack_view(kept@) == remove_cp(st.take(i as int), id as int),
            decreases self.stack@.len() - i,
        {
            assert(st.take(i + 1).drop_last() =~= st.take(i as int));
            assert(st.take(i + 1).last() == choice_view(self.stack@[i as int]));
            let drop = match &self.stack[i] {
                Choice::NotGuard { .. } => false,
                Choice::Rules { id: j, .. } => *j == id,
                Choice::Branches { id: j, .. } => *j == id,
            };
            if !drop {
                let ghost k0 = stack_view(kept@);
                kept.push(copy_choice(&self.stack[i]));
                assert(stack_view(kept@) =~= k0.push(choice_view(self.stack@[i as int])));
            }
            i = i + 1;
        }
        assert(st.take(st.len() as int) =~= st);
        self.stack = kept;
        assert(machine_view(*self) =~= (MachineV { stack: remove_cp(m.stack, id as int), ..m }));
    }

    /// Removes the choice points down to (and with) the latest `not` guard.
    fn pop_to_guard_exec(&mut self)
        ensures
            final(self).query == old(self).query,
            machine_view(*final(self)) == (MachineV {
                stack: pop_to_guard(machine_view(*old(self)).stack),
                ..machine_view(*old(self))
            }),
    {
        let ghost m = machine_view(*self);
        loop
            invariant
                m == machine_view(*old(self)),
                self.query == old(self).query,
                pop_to_guard(stack_view(self.stack@)) == pop_to_guard(m.stack),
                machine_view(*self) == (MachineV { stack: stack_view(self.stack@), ..m }),
            decreases self.stack@.len(),
        {
            let ghost st0 = stack_view(self.stack@);
            match self.stack.pop() {
                None => {
                    assert(st0.len() == 0);
                    assert(machine_view(*self) =~= (MachineV { stack: pop_to_guard(m.stack), ..m }));
                    return ;
                },
                Some(c) => {
                    assert(stack_view(self.stack@) =~= st0.drop_last());
                    assert(choice_view(c) == st0.last());
                    match c {
                        Choice::NotGuard { .. } => {
                            assert(machine_view(*self) =~= (MachineV { stack: pop_to_guard(m.stack), ..m }));
                            return ;
                        },
                        _ => {},
                    }
                },
            }
        }
    }

    /// One step of the search (see `step`).
    #[verifier::rlimit(40)]
    pub(crate) fn step_exec(&mut self, kb: &KnowledgeBase) -> (res: Option<Outcome>)
        ensures
            final(self).query == old(self).query,
            ({
                let (m2, o) = step(kb.view_entries(), machine_view(*old(self)));
                machine_view(*final(self)) == m2 && match res {
                    Some(out) => o == Some(outcome_view(out)),
                    None => o is None,
                }
            }),
    {
        let ghost m = machine_view(*self);
        let ghost kbv = kb.view_entries();
        match self.pending.take() {
            Some((goals, ss)) => {
                let mut goals = goals;
                if goals.len() == 0 {
                    self.halted = self.halted || self.cut;
                    return Some(Outcome::Solution(ss));
                }
                let ghost gv = goals_view(goals@);
                let g = goals.pop().unwrap();
                let mut rest = goals;
                assert(goals_view(rest@) =~= gv.drop_last());
                assert(g@ == gv.last());
                match g {
                    Goal::Nil => {
                        self.pending = Some((rest, ss));
                        None
                    },
                    Goal::OperatorGoal(Operator::And(gs)) | Goal::OperatorGoal(Operator::Time(gs)) => {
                        proof {
                            lemma_goals_seq(gs);
                        }
                        push_reversed(&mut rest, gs);
                        self.pending = Some((rest, ss));
                        None
                    },
                    Goal::OperatorGoal(Operator::Or(gs)) => {
                        proof {
                            lemma_goals_seq(gs);
                        }
                        if self.next_cp == i64::MAX {
                            self.stack.clear();
                            self.halted = true;
                            assert(stack_view(self.stack@) =~= Seq::<ChoiceV>::empty());
                            return Some(Outcome::NoMore);
                        }
                        let id = self.next_cp;
                        let ghost st0 = stack_view(self.stack@);
                        self.stack.push(Choice::Branches { branches: gs, next: 0, rest, ss, id });
                        assert(stack_view(self.stack@) =~= st0.push(choice_view(self.stack@.last())));
                        self.next_cp = id + 1;
                        None
                    },
                    Goal::OperatorGoal(Operator::Not(gs)) => {
                        proof {
                            lemma_goals_seq(gs);
                        }
                        let mut inner: Vec<Goal> = Vec::new();
                        inner.push(not_marker());
                        push_reversed(&mut inner, gs);
                        let ss2 = Rc::clone(&ss);
                        let ghost st0 = stack_view(self.stack@);
                        self.stack.push(Choice::NotGuard { rest, ss });
                        assert(stack_view(self.stack@) =~= st0.push(choice_view(self.stack@.last())));
                        self.pending = Some((inner, ss2));
                        assert(g@ == GoalView::Op(OpKind::Not, goals_view(gs@)));
                        assert(goals_view(inner@) == seq![GoalView::BuiltIn(not_marker_name(), None)] + goals_view(gs@).reverse());
                        None
                    },
                    Goal::ComplexGoal(c) => {
                        proof {
                            lemma_view_kind(c);
                        }
                        let keyed = match &c {
                            Unifiable::SComplex(args) => {
                                proof {
                                    crate::unifiable::lemma_complex_view(*args);
                                }
                                args.len() > 0
                            },
                            _ => false,
                        };
                        if !keyed {
                            return None;
                        }
                        let key = c.key();
                        let count = count_rules(kb, key.as_str());
                        if self.next_cp == i64::MAX {
                            self.stack.clear();
                            self.halted = true;
                            assert(stack_view(self.stack@) =~= Seq::<ChoiceV>::empty());
                            return Some(Outcome::NoMore);
                        }
                        let id = self.next_cp;
                        let ghost st0 = stack_view(self.stack@);
                        self.stack.push(Choice::Rules { goal: c, key, next: 0, count, rest, ss, id });
                        assert(stack_view(self.stack@) =~= st0.push(choice_view(self.stack@.last())));
                        self.next_cp = id + 1;
                        None
                    },
                    Goal::BuiltInGoal(b) => {
                        let f = str_to_chars(b.functor.as_str());
                        proof {
                            reveal_strlit("!");
                            reveal_strlit("$not");
                        }
                        if chars_eq_str(&f, "$not") {
                            self.pop_to_guard_exec();
                            return None;
                        }
                        proof {
                            reveal_strlit("$end");
                        }
                        if chars_eq_str(&f, "$end") {
                            match marker_id_exec(&b.terms) {
                                Some(id) => {
                                    if id < self.cut_floor {
                                        self.remove_cp_exec(id);
                                    }
                                },
                                None => {},
                            }
                            self.pending = Some((rest, ss));
                            return None;
                        }
                        let res = eval_builtin(&b, &ss, &mut self.output);
                        if chars_eq_str(&f, "!") {
                            self.cut_exec(&rest);
                            self.cut = true;
                            self.cut_floor = self.next_cp;
                            self.pending = Some((rest, ss));
                        } else {
                            match res {
                                Some(ss2) => {
                                    self.pending = Some((rest, ss2));
                                },
                                None => {},
                            }
                        }
                        None
                    },
                }
            },
            None => {
                if self.stack.len() == 0 {
                    self.halted = true;
                    return Some(Outcome::NoMore);
                }
                let ghost st0 = stack_view(self.stack@);
                let top = self.stack.pop().unwrap();
                assert(stack_view(self.stack@) =~= st0.drop_last());
                assert(choice_view(top) == st0.last());
                match top {
                    Choice::Rules { goal, key, next, count, rest, ss, id } => {
                        let n = count_rules(kb, key.as_str());
                        if next >= count || next >= n {
                            return None;
                        }
                        if self.ids.last >= usize::MAX - 4 {
                            self.stack.clear();
                            self.halted = true;
                            assert(stack_view(self.stack@) =~= Seq::<ChoiceV>::empty());
                            return Some(Outcome::NoMore);
                        }
                        let budget = usize::MAX - 5 - self.ids.last;
                        match crate::knowledge_base::rule_size_upto(kb, key.as_str(), next, budget) {
                            None => {
                                self.stack.clear();
                                self.halted = true;
                                assert(stack_view(self.stack@) =~= Seq::<ChoiceV>::empty());
                                return Some(Outcome::NoMore);
                            },
                            Some(_) => {},
                        }
                        let mut ids2 = VarIds { last: self.ids.last };
                        let rule = get_rule(kb, key.as_str(), next, &mut ids2);
                        let goal2 = copy_term(&goal);
                        let mut rest2 = copy_goals(&rest);
                        let ss2 = Rc::clone(&ss);
                        let ghost st1 = stack_view(self.stack@);
                        self.stack.push(Choice::Rules { goal: goal2, key, next: next + 1, count, rest, ss: ss2, id });
                        assert(stack_view(self.stack@) =~= st1.push(choice_view(self.stack@.last())));
                        match unify_depth(&rule.head, &goal, &ss, UNIFY_DEPTH) {
                            None => None,
                            Some(ss3) => {
                                self.ids.last = ids2.last;
                                let ghost rv = goals_view(rest2@);
                                rest2.push(end_marker_goal(id));
                                rest2.push(rule.body);
                                assert(goals_view(rest2@) =~= rv.push(end_marker(id as int)).push(rule.body@));
                                self.pending = Some((rest2, ss3));
                                None
                            },
                        }
                    },
                    Choice::Branches { branches, next, rest, ss, id } => {
                        if next >= branches.len() {
                            return None;
                        }
                        let g = copy_goal(&branches[next]);
                        let mut rest2 = copy_goals(&rest);
                        let ghost rv = goals_view(rest2@);
                        rest2.push(end_marker_goal(id));
                        rest2.push(g);
                        assert(goals_view(rest2@) =~= rv.push(end_marker(id as int)).push(g@));
                        let ss2 = Rc::clone(&ss);
                        let ghost st1 = stack_view(self.stack@);
                        self.stack.push(Choice::Branches { branches, next: next + 1, rest, ss, id });
                        assert(stack_view(self.stack@) =~= st1.push(choice_view(self.stack@.last())));
                        self.pending = Some((rest2, ss2));
                        None
                    },
                    Choice::NotGuard { rest, ss } => {
                        self.pending = Some((rest, ss));
                        None
                    },
                }
            },
        }
    }
}

/// Finds the next solution of the solver's query, with at most `fuel`
/// steps (see `run`). The solver keeps its state: called again, it goes on
/// to the next solution.
pub fn next_solution(s: &mut Solver, kb: &KnowledgeBase, fuel: u64) -> (res: Outcome)
    ensures
        ({
            let (m2, o) = run(kb.view_entries(), machine_view(*old(s)), fuel as nat);
            machine_view(*final(s)) == m2 && o == outcome_view(res)
        }),
        final(s).query == old(s).query,
{
    let ghost m0 = machine_view(*s);
    let ghost kbv = kb.view_entries();
    let mut f = fuel;
    loop
        invariant
            kbv == kb.view_entries(),
            m0 == machine_view(*old(s)),
            s.query == old(s).query,
            run(kbv, machine_view(*s), f as nat) == run(kbv, m0, fuel as nat),
        decreases f,
    {
        if s.halted {
            return Outcome::NoMore;
        }
        if f == 0 {
            return Outcome::OutOfSteps;
        }
        match s.step_exec(kb) {
            Some(out) => {
                return out;
            },
            None => {
                f = f - 1;
            },
        }
    }
}



impl Solver {
    /// A solver for a query (a goal), with a counter of variable IDs.
    pub fn new(query: Goal, ids: VarIds) -> (s: Solver)
        ensures
            s.query@ == query@,
            machine_view(s) == (MachineV {
                query: query@,
                stack: Seq::empty(),
                pending: Some((seq![query@], Seq::empty())),
                last_id: ids.last as nat,
                halted: false,
                cut: false,
                out: Seq::empty(),
                next_cp: 0,
                cut_floor: 0,
            }),
    {
        let q = copy_goal(&query);
        let mut goals: Vec<Goal> = Vec::new();
        goals.push(query);
        let s = Solver {
            query: q,
            stack: Vec::new(),
            pending: Some((goals, empty_ss())),
            ids,
            halted: false,
            cut: false,
            output: Vec::new(),
            next_cp: 0,
            cut_floor: 0,
        };
        assert(stack_view(s.stack@) =~= Seq::<ChoiceV>::empty());
        assert(goals_view(goals@) =~= seq![q@]);
        s
    }

    /// Takes what the predicates `print` and `nl` have printed so far.
    pub fn take_output(&mut self) -> (out: String)
        ensures
            out@ == old(self).output@,
            final(self).output@ == Seq::<char>::empty(),
            machine_view(*final(self)) == (MachineV { out: Seq::empty(), ..machine_view(*old(self)) }),
    {
        let s = crate::text::chars_to_string(&self.output);
        self.output = Vec::new();
        s
    }
}

/// Makes the solver (the base solution node) of a query.
pub fn make_base_node(query: Goal, ids: VarIds) -> (s: Solver)
    ensures
        s.query@ == query@,
        machine_view(s) == (MachineV {
            query: query@,
            stack: Seq::empty(),
            pending: Some((seq![query@], Seq::empty())),
            last_id: ids.last as nat,
            halted: false,
            cut: false,
            out: Seq::empty(),
            next_cp: 0,
            cut_floor: 0,
        }),
{
    Solver::new(query, ids)
}


/// A step that gives a solution halts the search when a cut has been met,
/// and keeps the cut.
proof fn lemma_step_solution(kb: KbV, m: MachineV)
    ensures
        step(kb, m).1 matches Some(OutcomeV::Solution(_)) ==> step(kb, m).0.halted == (m.halted
            || m.cut) && step(kb, m).0.cut == m.cut,
        step(kb, m).1 matches Some(OutcomeV::NoMore) ==> step(kb, m).0.halted,
        step(kb, m).1 matches Some(OutcomeV::OutOfSteps) ==> false,
        m.out.is_prefix_of(step(kb, m).0.out),
{
    let m2 = step(kb, m).0;
    assert(m.out.is_prefix_of(m2.out)) by {
        assert(m2.out.subrange(0, m.out.len() as int) =~= m.out);
    }
}

/// Once the search has answered that there are no more solutions, it
/// answers so again, however many steps it is given.
pub proof fn law_no_more_is_final(kb: KbV, m: MachineV, f: nat, g: nat)
    requires
        run(kb, m, f).1 == OutcomeV::NoMore,
    ensures
        run(kb, run(kb, m, f).0, g) == (run(kb, m, f).0, OutcomeV::NoMore),
    decreases f,
{
    if !m.halted && f > 0 {
        lemma_step_solution(kb, m);
        let (m2, o) = step(kb, m);
        if o is None {
            law_no_more_is_final(kb, m2, (f - 1) as nat, g);
        }
    }
}

/// After a cut (`!`), a query has at most the solution being built: once
/// a solution has been found with a cut met, the next search answers that
/// there are no more.
pub proof fn law_cut_stops_backtracking(kb: KbV, m: MachineV, f: nat, g: nat)
    requires
        run(kb, m, f).1 is Solution,
        run(kb, m, f).0.cut,
    ensures
        run(kb, run(kb, m, f).0, g).1 == OutcomeV::NoMore,
    decreases f,
{
    if !m.halted && f > 0 {
        lemma_step_solution(kb, m);
        let (m2, o) = step(kb, m);
        if o is None {
            law_cut_stops_backtracking(kb, m2, (f - 1) as nat, g);
        }
    }
}

/// A search that ran out of steps can be resumed: going on for `b` more
/// steps gives what one search of `a + b` steps gives.
pub proof fn law_resume(kb: KbV, m: MachineV, a: nat, b: nat)
    requires
        run(kb, m, a).1 == OutcomeV::OutOfSteps,
    ensures
        run(kb, run(kb, m, a).0, b) == run(kb, m, a + b),
    decreases a,
{
    if a > 0 && !m.halted {
        let (m2, o) = step(kb, m);
        if o is None {
            law_resume(kb, m2, (a - 1) as nat, b);
            assert((a - 1) as nat + b == (a + b - 1) as nat);
        }
    }
}

/// What the predicates `print` and `nl` have printed is never taken back:
/// a search only adds to it.
pub proof fn law_output_grows(kb: KbV, m: MachineV, f: nat)
    ensures
        m.out.is_prefix_of(run(kb, m, f).0.out),
    decreases f,
{
    if !m.halted && f > 0 {
        lemma_step_solution(kb, m);
        let (m2, o) = step(kb, m);
        if o is None {
            law_output_grows(kb, m2, (f - 1) as nat);
            let m3 = run(kb, m2, (f - 1) as nat).0;
            assert(m3.out.subrange(0, m.out.len() as int) =~= m2.out.subrange(0, m.out.len() as int));
        }
    } else {
        assert(m.out.subrange(0, m.out.len() as int) =~= m.out);
    }
}

/// A built-in predicate other than the cut leaves no choice point: the
/// step that evaluates it keeps the choice stack as it was and goes on
/// with the remaining goals in at most one way, so backtracking never comes
/// back to it, and it gives at most one solution.
pub proof fn law_builtin_no_choice_point(kb: KbV, m: MachineV)
    requires
        m.pending is Some,
        m.pending.unwrap().0.len() > 0,
        m.pending.unwrap().0.last() is BuiltIn,
        m.pending.unwrap().0.last()->BuiltIn_0 != not_marker_name(),
        m.pending.unwrap().0.last()->BuiltIn_0 != end_marker_name(),
        m.pending.unwrap().0.last()->BuiltIn_0 != "!"@,
    ensures
        step(kb, m).0.stack == m.stack,
        step(kb, m).1 is None,
        step(kb, m).0.pending matches Some((gs, _)) ==> gs == m.pending.unwrap().0.drop_last(),
{
}

/// The search never changes the query it answers.
pub proof fn law_query_kept(kb: KbV, m: MachineV, f: nat)
    ensures
        run(kb, m, f).0.query == m.query,
    decreases f,
{
    if !m.halted && f > 0 {
        let (m2, o) = step(kb, m);
        if o is None {
            law_query_kept(kb, m2, (f - 1) as nat);
        }
    }
}

/// A query of one built-in predicate (not the cut) has at most one
/// solution: once the search has given it, the next search (given at
/// least one step) answers that there are no more.
pub proof fn law_builtin_one_solution(kb: KbV, m: MachineV, f: nat, g: nat)
    requires
        m.stack.len() == 0,
        m.pending is Some,
        m.pending.unwrap().0.len() == 1,
        m.pending.unwrap().0[0] is BuiltIn,
        m.pending.unwrap().0[0]->BuiltIn_0 != not_marker_name(),
        m.pending.unwrap().0[0]->BuiltIn_0 != end_marker_name(),
        m.pending.unwrap().0[0]->BuiltIn_0 != "!"@,
        run(kb, m, f).1 is Solution,
        g > 0,
    ensures
        run(kb, run(kb, m, f).0, g).1 == OutcomeV::NoMore,
{
    let goals = m.pending.unwrap().0;
    assert(goals.last() == goals[0]);
    law_builtin_no_choice_point(kb, m);
    let (m1, o1) = step(kb, m);
    assert(m1.stack.len() == 0);
    if m1.pending is Some {
        assert(m1.pending.unwrap().0 =~= Seq::<GoalView>::empty());
    }
    assert(!m.halted && f > 0);
    assert(run(kb, m, f) == run(kb, m1, (f - 1) as nat));
    let (m2, o2) = step(kb, m1);
    if m1.halted {
    } else {
        assert(f - 1 > 0);
        assert(run(kb, m1, (f - 1) as nat) == (m2, o2.unwrap()));
        assert(m2.stack.len() == 0 && m2.pending is None);
        let m3 = run(kb, m, f).0;
        if !m3.halted && g > 0 {
            assert(step(kb, m3).1 == Some(OutcomeV::NoMore));
        }
    }
}

} // verus!
