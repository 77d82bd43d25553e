//! Goals: complex terms to be proven, operators (And, Or, Time, Not) over
//! goals, and built-in predicates such as `print()` or `$X = 7`.
use vstd::prelude::*;
use crate::unifiable::{Unifiable, Term, term_view, terms_view, term_text, copy_term, copy_terms,
    lemma_complex_view, push_term_text, key_text, join_texts};
use crate::text::{append_str, chars_to_string};
use crate::logic_var::{VarMap, VarIds};
use crate::variables::{term_size, seq_size, recreate_spec, recreate_seq, recreate_vars_terms,
    replace_spec};
use crate::substitution_set::{SubstitutionSet, ss_view};

verus! {

/// A built-in predicate: its name and its arguments, if any.
#[derive(Debug, PartialEq)]
pub struct BuiltInPredicate {
    pub functor: String,
    pub terms: Option<Vec<Unifiable>>,
}

/// Logical operators over goals.
#[derive(Debug, PartialEq)]
pub enum Operator {
    And(Vec<Goal>),
    Or(Vec<Goal>),
    Time(Vec<Goal>),
    Not(Vec<Goal>),
}

/// A goal to be proven.
#[derive(Debug, PartialEq)]
pub enum Goal {
    OperatorGoal(Operator),
    BuiltInGoal(BuiltInPredicate),
    /// Must hold a complex term.
    ComplexGoal(Unifiable),
    Nil,
}

/// The kinds of operator.
#[derive(PartialEq, Eq, Structural, Clone, Copy, Debug)]
pub enum OpKind {
    And,
    Or,
    Time,
    Not,
}

/// Mathematical model of a goal.
pub enum GoalView {
    Op(OpKind, Seq<GoalView>),
    BuiltIn(Seq<char>, Option<Seq<Term>>),
    Complex(Term),
    Nil,
}

/// The model of a goal.
pub open spec fn goal_view(g: Goal) -> GoalView
    decreases g, 1int,
{
    match g {
        Goal::OperatorGoal(op) => op_view(op),
        Goal::BuiltInGoal(b) => GoalView::BuiltIn(
            b.functor@,
            match b.terms {
                Some(ts) => Some(terms_view(ts@)),
                None => None,
            },
        ),
        Goal::ComplexGoal(u) => GoalView::Complex(term_view(u)),
        Goal::Nil => GoalView::Nil,
    }
}

/// The model of an operator goal.
pub open spec fn op_view(op: Operator) -> GoalView
    decreases op, 0int,
{
    match op {
        Operator::And(gs) => GoalView::Op(OpKind::And, goals_seq(gs)),
        Operator::Or(gs) => GoalView::Op(OpKind::Or, goals_seq(gs)),
        Operator::Time(gs) => GoalView::Op(OpKind::Time, goals_seq(gs)),
        Operator::Not(gs) => GoalView::Op(OpKind::Not, goals_seq(gs)),
    }
}

/// The models of a vector of goals.
pub open spec fn goals_seq(gs: Vec<Goal>) -> Seq<GoalView>
    decreases gs, 0int,
{
    Seq::new(
        gs@.len(),
        |i: int|
            if 0 <= i < gs@.len() {
                goal_view(gs@[i])
            } else {
                GoalView::Nil
            },
    )
}

/// The models of a sequence of goals.
pub open spec fn goals_view(gs: Seq<Goal>) -> Seq<GoalView> {
    gs.map_values(|g: Goal| goal_view(g))
}

pub proof fn lemma_goals_seq(gs: Vec<Goal>)
    ensures
        goals_seq(gs) == goals_view(gs@),
{
    assert(goals_seq(gs) =~= goals_view(gs@));
}

impl View for Goal {
    type V = GoalView;

    open spec fn view(&self) -> GoalView {
        goal_view(*self)
    }
}

impl Operator {
    /// The kind of the operator.
    pub fn kind(&self) -> (k: OpKind)
        ensures
            op_view(*self) matches GoalView::Op(k2, _) && k == k2,
    {
        match self {
            Operator::And(_) => OpKind::And,
            Operator::Or(_) => OpKind::Or,
            Operator::Time(_) => OpKind::Time,
            Operator::Not(_) => OpKind::Not,
        }
    }

    /// The operands of the operator.
    pub fn operands(&self) -> (gs: &Vec<Goal>)
        ensures
            op_view(*self) matches GoalView::Op(_, s) && s == goals_view(gs@),
    {
        match self {
            Operator::And(gs) => {
                proof {
                    lemma_goals_seq(*gs);
                }
                gs
            },
            Operator::Or(gs) => {
                proof {
                    lemma_goals_seq(*gs);
                }
                gs
            },
            Operator::Time(gs) => {
                proof {
                    lemma_goals_seq(*gs);
                }
                gs
            },
            Operator::Not(gs) => {
                proof {
                    lemma_goals_seq(*gs);
                }
                gs
            },
        }
    }

    /// The number of operands.
    pub fn len(&self) -> (n: usize)
        ensures
            op_view(*self) matches GoalView::Op(_, s) && n == s.len(),
    {
        self.operands().len()
    }

    /// A copy of the operand at `index`.
    pub fn get_subgoal(&self, index: usize) -> (g: Goal)
        requires
            op_view(*self) matches GoalView::Op(_, s) && index < s.len(),
        ensures
            op_view(*self) matches GoalView::Op(_, s) && g@ == s[index as int],
    {
        let gs = self.operands();
        copy_goal(&gs[index])
    }

    /// Splits the operands of an And or Or operator into the first goal and
    /// an operator of the same kind over the others.
    pub fn split_head_tail(&self) -> (r: (Goal, Operator))
        requires
            op_view(*self) matches GoalView::Op(k, s) && (k == OpKind::And || k == OpKind::Or) && s.len()
                > 0,
        ensures
            op_view(*self) matches GoalView::Op(k, s) && r.0@ == s[0] && op_view(r.1) == GoalView::Op(
                k,
                s.drop_first(),
            ),
    {
        let k = self.kind();
        let gs = self.operands();
        let head = copy_goal(&gs[0]);
        let mut rest: Vec<Goal> = Vec::new();
        let mut i: usize = 1;
        while i < gs.len()
            invariant
                1 <= i <= gs@.len(),
                goals_view(rest@) == goals_view(gs@).subrange(1, i as int),
            decreases gs@.len() - i,
        {
            let g = copy_goal(&gs[i]);
            let ghost prev = goals_view(rest@);
            rest.push(g);
            assert(goals_view(rest@) =~= prev.push(g@));
            assert(goals_view(gs@).subrange(1, i + 1) =~= goals_view(gs@).subrange(1, i as int).push(
                gs@[i as int]@,
            ));
            i = i + 1;
        }
        assert(goals_view(gs@).subrange(1, i as int) =~= goals_view(gs@).drop_first());
        proof {
            lemma_goals_seq(rest);
        }
        let tail = match k {
            OpKind::And => Operator::And(rest),
            _ => Operator::Or(rest),
        };
        (head, tail)
    }
}

/// Copies a goal.
pub fn copy_goal(g: &Goal) -> (r: Goal)
    ensures
        r@ == g@,
    decreases g, 1int,
{
    match g {
        Goal::OperatorGoal(op) => Goal::OperatorGoal(copy_operator(op)),
        Goal::BuiltInGoal(b) => Goal::BuiltInGoal(
            BuiltInPredicate {
                functor: b.functor.clone(),
                terms: match &b.terms {
                    Some(ts) => Some(copy_terms(ts)),
                    None => None,
                },
            },
        ),
        Goal::ComplexGoal(u) => Goal::ComplexGoal(copy_term(u)),
        Goal::Nil => Goal::Nil,
    }
}

/// Copies an operator.
pub fn copy_operator(op: &Operator) -> (r: Operator)
    ensures
        op_view(r) == op_view(*op),
    decreases op, 0int,
{
    match op {
        Operator::And(gs) => {
            let c = copy_goals(gs);
            proof {
                lemma_goals_seq(c);
                lemma_goals_seq(*gs);
            }
            Operator::And(c)
        },
        Operator::Or(gs) => {
            let c = copy_goals(gs);
            proof {
                lemma_goals_seq(c);
                lemma_goals_seq(*gs);
            }
            Operator::Or(c)
        },
        Operator::Time(gs) => {
            let c = copy_goals(gs);
            proof {
                lemma_goals_seq(c);
                lemma_goals_seq(*gs);
            }
            Operator::Time(c)
        },
        Operator::Not(gs) => {
            let c = copy_goals(gs);
            proof {
                lemma_goals_seq(c);
                lemma_goals_seq(*gs);
            }
            Operator::Not(c)
        },
    }
}

/// Copies a vector of goals.
pub fn copy_goals(gs: &Vec<Goal>) -> (r: Vec<Goal>)
    ensures
        goals_view(r@) == goals_view(gs@),
    decreases gs, 2int,
{
    let mut r: Vec<Goal> = Vec::new();
    let mut i: usize = 0;
    while i < gs.len()
        invariant
            i <= gs@.len(),
            r@.len() == i,
            forall|k: int| 0 <= k < i ==> goal_view(#[trigger] r@[k]) == goal_view(gs@[k]),
        decreases gs@.len() - i,
    {
        assert(decreases_to!(gs => gs@[i as int]));
        let c = copy_goal(&gs[i]);
        r.push(c);
        i = i + 1;
    }
    assert(goals_view(r@) =~= goals_view(gs@));
    r
}

// ---------------------------------------------------------------------
// Display

/// The texts of the terms, separated by a comma and a space.
pub open spec fn terms_text(ts: Seq<Term>) -> Seq<char> {
    join_texts(ts.map_values(|t: Term| term_text(t)), ", "@)
}

/// The texts of the goals.
pub open spec fn goal_texts(gs: Seq<GoalView>) -> Seq<Seq<char>>
    decreases gs, 0int,
{
    Seq::new(
        gs.len(),
        |i: int|
            if 0 <= i < gs.len() {
                goal_text(gs[i])
            } else {
                Seq::empty()
            },
    )
}

/// The text of a built-in predicate: `name(arg, arg)`, `left = right` for
/// unify, or the name alone when it has no arguments.
pub open spec fn builtin_text(name: Seq<char>, terms: Option<Seq<Term>>) -> Seq<char> {
    match terms {
        Some(ts) => if name == "unify"@ && ts.len() >= 2 {
            term_text(ts[0]) + " = "@ + term_text(ts[1])
        } else {
            name + seq!['('] + terms_text(ts) + seq![')']
        },
        None => name,
    }
}

/// The display text of a goal: operands of And separated by commas, of Or
/// by semicolons; Time shows its goal, Not shows `not(goal)`.
pub open spec fn goal_text(g: GoalView) -> Seq<char>
    decreases g, 1int,
{
    match g {
        GoalView::Op(k, gs) => match k {
            OpKind::And => join_texts(goal_texts(gs), ", "@),
            OpKind::Or => join_texts(goal_texts(gs), "; "@),
            OpKind::Time => join_texts(goal_texts(gs), ", "@),
            OpKind::Not => "not("@ + join_texts(goal_texts(gs), ", "@) + seq![')'],
        },
        GoalView::BuiltIn(name, terms) => builtin_text(name, terms),
        GoalView::Complex(t) => term_text(t),
        GoalView::Nil => "Nil"@,
    }
}

/// Joining one more text.
pub proof fn lemma_join_take(ts: Seq<Seq<char>>, sep: Seq<char>, i: int)
    requires
        0 <= i < ts.len(),
    ensures
        join_texts(ts.take(i + 1), sep) == if i == 0 {
            ts[0]
        } else {
            join_texts(ts.take(i), sep) + sep + ts[i]
        },
{
    assert(ts.take(i + 1).drop_last() =~= ts.take(i));
    assert(ts.take(i + 1).last() == ts[i]);
    if i == 0 {
        assert(ts.take(1)[0] == ts[0]);
    }
}

/// Appends the texts of the terms, separated by a comma and a space.
fn push_terms_text(out: &mut Vec<char>, terms: &Vec<Unifiable>)
    ensures
        final(out)@ == old(out)@ + terms_text(terms_view(terms@)),
{
    let ghost texts = terms_view(terms@).map_values(|t: Term| term_text(t));
    let ghost start = out@;
    let n = terms.len();
    let mut i: usize = 0;
    while i < n
        invariant
            n == terms@.len(),
            texts == terms_view(terms@).map_values(|t: Term| term_text(t)),
            i <= n,
            out@ == start + join_texts(texts.take(i as int), ", "@),
        decreases n - i,
    {
        if i > 0 {
            append_str(out, ", ");
        }
        push_term_text(out, &terms[i]);
        assert(texts[i as int] == term_text(terms@[i as int]@));
        proof {
            lemma_join_take(texts, ", "@, i as int);
        }
        assert(out@ =~= start + join_texts(texts.take(i + 1), ", "@));
        i = i + 1;
    }
    assert(texts.take(n as int) =~= texts);
}

/// Formats a built-in predicate with its arguments: `name(arg, arg)`.
pub fn format_built_in(name: &str, terms: &Vec<Unifiable>) -> (s: String)
    ensures
        s@ == name@ + seq!['('] + terms_text(terms_view(terms@)) + seq![')'],
{
    let mut out: Vec<char> = Vec::new();
    append_str(&mut out, name);
    out.push('(');
    push_terms_text(&mut out, terms);
    out.push(')');
    chars_to_string(&out)
}

/// Appends the display text of a goal.
pub fn push_goal_text(out: &mut Vec<char>, g: &Goal)
    ensures
        final(out)@ == old(out)@ + goal_text(g@),
    decreases g, 1int,
{
    match g {
        Goal::OperatorGoal(Operator::And(gs)) => {
            proof {
                lemma_goals_seq(*gs);
            }
            push_goals_text(out, gs, ", ");
        },
        Goal::OperatorGoal(Operator::Or(gs)) => {
            proof {
                lemma_goals_seq(*gs);
            }
            push_goals_text(out, gs, "; ");
        },
        Goal::OperatorGoal(Operator::Time(gs)) => {
            proof {
                lemma_goals_seq(*gs);
            }
            push_goals_text(out, gs, ", ");
        },
        Goal::OperatorGoal(Operator::Not(gs)) => {
            proof {
                lemma_goals_seq(*gs);
            }
            append_str(out, "not(");
            push_goals_text(out, gs, ", ");
            out.push(')');
        },
        Goal::BuiltInGoal(b) => {
            proof {
                reveal_strlit("unify");
            }
            match &b.terms {
                Some(ts) => {
                    let f = crate::text::str_to_chars(b.functor.as_str());
                    if crate::text::chars_eq_str(&f, "unify") && ts.len() >= 2 {
                        push_term_text(out, &ts[0]);
                        append_str(out, " = ");
                        push_term_text(out, &ts[1]);
                    } else {
                        append_str(out, b.functor.as_str());
                        out.push('(');
                        push_terms_text(out, ts);
                        out.push(')');
                    }
                },
                None => append_str(out, b.functor.as_str()),
            }
        },
        Goal::ComplexGoal(u) => push_term_text(out, u),
        Goal::Nil => append_str(out, "Nil"),
    }
}

/// Appends the texts of the goals, separated by `sep`.
fn push_goals_text(out: &mut Vec<char>, gs: &Vec<Goal>, sep: &str)
    ensures
        final(out)@ == old(out)@ + join_texts(goal_texts(goals_view(gs@)), sep@),
    decreases gs, 2int,
{
    let ghost texts = goal_texts(goals_view(gs@));
    let ghost start = out@;
    let n = gs.len();
    let mut i: usize = 0;
    while i < n
        invariant
            n == gs@.len(),
            texts == goal_texts(goals_view(gs@)),
            texts.len() == n,
            i <= n,
            out@ == start + join_texts(texts.take(i as int), sep@),
        decreases n - i,
    {
        assert(decreases_to!(gs => gs@[i as int]));
        if i > 0 {
            append_str(out, sep);
        }
        push_goal_text(out, &gs[i]);
        assert(texts[i as int] == goal_text(gs@[i as int]@));
        proof {
            lemma_join_take(texts, sep@, i as int);
        }
        assert(out@ =~= start + join_texts(texts.take(i + 1), sep@));
        i = i + 1;
    }
    assert(texts.take(n as int) =~= texts);
}

impl Goal {
    /// The display text of the goal.
    pub fn to_display_string(&self) -> (s: String)
        ensures
            s@ == goal_text(self@),
    {
        let mut out: Vec<char> = Vec::new();
        push_goal_text(&mut out, self);
        chars_to_string(&out)
    }
}

impl BuiltInPredicate {
    /// Makes a built-in predicate.
    pub fn new(functor: String, terms: Option<Vec<Unifiable>>) -> (b: BuiltInPredicate)
        ensures
            b.functor == functor,
            b.terms == terms,
    {
        BuiltInPredicate { functor, terms }
    }

    /// The display text of the predicate.
    pub fn to_display_string(&self) -> (s: String)
        ensures
            s@ == builtin_text(
                self.functor@,
                match self.terms {
                    Some(ts) => Some(terms_view(ts@)),
                    None => None,
                },
            ),
    {
        let g = Goal::BuiltInGoal(
            BuiltInPredicate {
                functor: self.functor.clone(),
                terms: match &self.terms {
                    Some(ts) => Some(copy_terms(ts)),
                    None => None,
                },
            },
        );
        g.to_display_string()
    }
}

// ---------------------------------------------------------------------
// Variables

/// The number of nodes of a goal.
pub open spec fn goal_size(g: GoalView) -> nat
    decreases g, 1int,
{
    match g {
        GoalView::Op(_, gs) => 1 + goals_size(gs, 0),
        GoalView::BuiltIn(_, Some(ts)) => 1 + seq_size(ts, 0),
        GoalView::Complex(t) => term_size(t),
        _ => 1,
    }
}

/// The number of nodes of the goals `gs[i..]`.
pub open spec fn goals_size(gs: Seq<GoalView>, i: int) -> nat
    decreases gs, gs.len() - i,
{
    if i < 0 || i >= gs.len() {
        0
    } else {
        goal_size(gs[i]) + goals_size(gs, i + 1)
    }
}

/// Recreation of the variables of a goal (see `recreate_spec`).
pub open spec fn recreate_goal(g: GoalView, m: Map<Seq<char>, usize>, last: nat) -> (
    GoalView,
    Map<Seq<char>, usize>,
    nat,
)
    decreases g, 1int,
{
    match g {
        GoalView::Op(k, gs) => {
            let (gs2, m2, l2) = recreate_goals(gs, 0, m, last);
            (GoalView::Op(k, gs2), m2, l2)
        },
        GoalView::BuiltIn(name, Some(ts)) => {
            let (ts2, m2, l2) = recreate_seq(ts, 0, m, last);
            (GoalView::BuiltIn(name, Some(ts2)), m2, l2)
        },
        GoalView::Complex(t) => {
            let (t2, m2, l2) = recreate_spec(t, m, last);
            (GoalView::Complex(t2), m2, l2)
        },
        _ => (g, m, last),
    }
}

/// Recreation of the variables of the goals `gs[i..]`, in order.
pub open spec fn recreate_goals(gs: Seq<GoalView>, i: int, m: Map<Seq<char>, usize>, last: nat) -> (
    Seq<GoalView>,
    Map<Seq<char>, usize>,
    nat,
)
    decreases gs, gs.len() - i,
{
    if i < 0 || i >= gs.len() {
        (Seq::empty(), m, last)
    } else {
        let (g2, m2, l2) = recreate_goal(gs[i], m, last);
        let (rest, m3, l3) = recreate_goals(gs, i + 1, m2, l2);
        (seq![g2] + rest, m3, l3)
    }
}

/// Recreation gives at most one new ID per node of the goal.
pub proof fn lemma_recreate_goal_ids(g: GoalView, m: Map<Seq<char>, usize>, last: nat)
    ensures
        last <= recreate_goal(g, m, last).2 <= last + goal_size(g),
    decreases g, 1int,
{
    match g {
        GoalView::Op(_, gs) => lemma_recreate_goals_ids(gs, 0, m, last),
        GoalView::BuiltIn(_, Some(ts)) => crate::variables::lemma_recreate_seq_ids(ts, 0, m, last),
        GoalView::Complex(t) => crate::variables::lemma_recreate_ids(t, m, last),
        _ => {},
    }
}

proof fn lemma_recreate_goals_ids(gs: Seq<GoalView>, i: int, m: Map<Seq<char>, usize>, last: nat)
    ensures
        last <= recreate_goals(gs, i, m, last).2 <= last + goals_size(gs, i),
    decreases gs, gs.len() - i,
{
    if 0 <= i < gs.len() {
        lemma_recreate_goal_ids(gs[i], m, last);
        let (g2, m2, l2) = recreate_goal(gs[i], m, last);
        lemma_recreate_goals_ids(gs, i + 1, m2, l2);
    }
}

/// Recreates the variables of a goal.
fn recreate_goal_ref(g: &Goal, vars: &mut VarMap, ids: &mut VarIds) -> (r: Goal)
    requires
        old(ids).last + goal_size(g@) + 2 < usize::MAX,
    ensures
        (r@, final(vars).view_map(), final(ids).last as nat) == recreate_goal(
            g@,
            old(vars).view_map(),
            old(ids).last as nat,
        ),
    decreases g, 1int,
{
    match g {
        Goal::OperatorGoal(Operator::And(gs)) => {
            proof {
                lemma_goals_seq(*gs);
            }
            let r = recreate_goals_ref(gs, vars, ids);
            proof {
                lemma_goals_seq(r);
            }
            Goal::OperatorGoal(Operator::And(r))
        },
        Goal::OperatorGoal(Operator::Or(gs)) => {
            proof {
                lemma_goals_seq(*gs);
            }
            let r = recreate_goals_ref(gs, vars, ids);
            proof {
                lemma_goals_seq(r);
            }
            Goal::OperatorGoal(Operator::Or(r))
        },
        Goal::OperatorGoal(Operator::Time(gs)) => {
            proof {
                lemma_goals_seq(*gs);
            }
            let r = recreate_goals_ref(gs, vars, ids);
            proof {
                lemma_goals_seq(r);
            }
            Goal::OperatorGoal(Operator::Time(r))
        },
        Goal::OperatorGoal(Operator::Not(gs)) => {
            proof {
                lemma_goals_seq(*gs);
            }
            let r = recreate_goals_ref(gs, vars, ids);
            proof {
                lemma_goals_seq(r);
            }
            Goal::OperatorGoal(Operator::Not(r))
        },
        Goal::BuiltInGoal(b) => {
            match &b.terms {
                Some(ts) => {
                    let t2 = recreate_vars_terms(copy_terms(ts), vars, ids);
                    Goal::BuiltInGoal(BuiltInPredicate { functor: b.functor.clone(), terms: Some(t2) })
                },
                None => Goal::BuiltInGoal(BuiltInPredicate { functor: b.functor.clone(), terms: None }),
            }
        },
        Goal::ComplexGoal(u) => Goal::ComplexGoal(copy_term(u).recreate_variables(vars, ids)),
        Goal::Nil => Goal::Nil,
    }
}

/// Recreates the variables of a vector of goals, in order.
fn recreate_goals_ref(gs: &Vec<Goal>, vars: &mut VarMap, ids: &mut VarIds) -> (r: Vec<Goal>)
    requires
        old(ids).last + goals_size(goals_view(gs@), 0) + 2 < usize::MAX,
    ensures
        (goals_view(r@), final(vars).view_map(), final(ids).last as nat) == recreate_goals(
            goals_view(gs@),
            0,
            old(vars).view_map(),
            old(ids).last as nat,
        ),
    decreases gs, 2int,
{
    let ghost gv = goals_view(gs@);
    let ghost m0 = vars.view_map();
    let ghost l0 = ids.last as nat;
    let mut out: Vec<Goal> = Vec::new();
    let mut i: usize = 0;
    proof {
        lemma_recreate_goals_ids(gv, 0, m0, l0);
    }
    while i < gs.len()
        invariant
            gv == goals_view(gs@),
            i <= gs@.len(),
            ids.last + goals_size(gv, i as int) + 2 < usize::MAX,
            ({
                let (rest, mr, lr) = recreate_goals(gv, i as int, vars.view_map(), ids.last as nat);
                recreate_goals(gv, 0, m0, l0) == (goals_view(out@) + rest, mr, lr)
            }),
        decreases gs@.len() - i,
    {
        assert(decreases_to!(gs => gs@[i as int]));
        assert(gv[i as int] == gs@[i as int]@);
        let ghost mi = vars.view_map();
        let ghost li = ids.last as nat;
        proof {
            lemma_recreate_goal_ids(gv[i as int], mi, li);
        }
        let g2 = recreate_goal_ref(&gs[i], vars, ids);
        proof {
            lemma_recreate_goals_ids(gv, i + 1, vars.view_map(), ids.last as nat);
        }
        let ghost prev = goals_view(out@);
        out.push(g2);
        assert(goals_view(out@) =~= prev.push(g2@));
        proof {
            let (rest, mr, lr) = recreate_goals(gv, i + 1, vars.view_map(), ids.last as nat);
            assert(prev + recreate_goals(gv, i as int, mi, li).0 =~= goals_view(out@) + rest);
        }
        i = i + 1;
    }
    assert(goals_view(out@) + Seq::<GoalView>::empty() =~= goals_view(out@));
    out
}

impl Goal {
    /// Recreates the logic variables of the goal with fresh IDs (see
    /// `Unifiable::recreate_variables`).
    pub fn recreate_variables(self, vars: &mut VarMap, ids: &mut VarIds) -> (r: Goal)
        requires
            old(ids).last + goal_size(self@) + 2 < usize::MAX,
        ensures
            (r@, final(vars).view_map(), final(ids).last as nat) == recreate_goal(
                self@,
                old(vars).view_map(),
                old(ids).last as nat,
            ),
    {
        recreate_goal_ref(&self, vars, ids)
    }

    /// Replaces the variables of a complex goal by what they are bound to.
    pub fn replace_variables(&self, ss: &SubstitutionSet) -> (r: Unifiable)
        requires
            self@ is Complex,
        ensures
            self@ matches GoalView::Complex(t) && r@ == replace_spec(t, ss_view(*ss)),
    {
        match self {
            Goal::ComplexGoal(u) => u.replace_variables(ss),
            _ => Unifiable::Nil,
        }
    }

    /// The key (functor/arity) of a complex goal, eg. `loves/2`.
    pub fn key(&self) -> (k: String)
        requires
            self@ matches GoalView::Complex(t) && t matches Term::SComplex(args) && args.len() > 0,
        ensures
            self@ matches GoalView::Complex(Term::SComplex(args)) && k@ == key_text(args),
    {
        match self {
            Goal::ComplexGoal(u) => u.key(),
            _ => String::new(),
        }
    }
}

impl Operator {
    /// Recreates the logic variables of the operands.
    pub fn recreate_variables(self, vars: &mut VarMap, ids: &mut VarIds) -> (r: Operator)
        requires
            old(ids).last + goal_size(op_view(self)) + 2 < usize::MAX,
        ensures
            (op_view(r), final(vars).view_map(), final(ids).last as nat) == recreate_goal(
                op_view(self),
                old(vars).view_map(),
                old(ids).last as nat,
            ),
    {
        let g = recreate_goal_ref(&Goal::OperatorGoal(self), vars, ids);
        match g {
            Goal::OperatorGoal(op) => op,
            _ => {
                proof {
                    assert(false);
                }
                Operator::And(Vec::new())
            },
        }
    }
}

impl BuiltInPredicate {
    /// Recreates the logic variables of the arguments.
    pub fn recreate_variables(self, vars: &mut VarMap, ids: &mut VarIds) -> (r: BuiltInPredicate)
        requires
            old(ids).last + goal_size(Goal::BuiltInGoal(self)@) + 2 < usize::MAX,
        ensures
            (Goal::BuiltInGoal(r)@, final(vars).view_map(), final(ids).last as nat) == recreate_goal(
                Goal::BuiltInGoal(self)@,
                old(vars).view_map(),
                old(ids).last as nat,
            ),
    {
        let g = recreate_goal_ref(&Goal::BuiltInGoal(self), vars, ids);
        match g {
            Goal::BuiltInGoal(b) => b,
            _ => {
                proof {
                    assert(false);
                }
                BuiltInPredicate { functor: String::new(), terms: None }
            },
        }
    }
}

/// Recreates the logic variables of a vector of goals, sharing one map.
pub fn recreate_vars_goals(goals: Vec<Goal>, vars: &mut VarMap, ids: &mut VarIds) -> (r: Vec<Goal>)
    requires
        old(ids).last + goals_size(goals_view(goals@), 0) + 2 < usize::MAX,
    ensures
        (goals_view(r@), final(vars).view_map(), final(ids).last as nat) == recreate_goals(
            goals_view(goals@),
            0,
            old(vars).view_map(),
            old(ids).last as nat,
        ),
{
    recreate_goals_ref(&goals, vars, ids)
}


/// The size of a goal if it is at most `budget`.
pub fn goal_size_upto(g: &Goal, budget: usize) -> (r: Option<usize>)
    ensures
        r == if goal_size(g@) <= budget {
            Some(goal_size(g@) as usize)
        } else {
            None::<usize>
        },
    decreases g, 1int,
{
    match g {
        Goal::OperatorGoal(Operator::And(gs)) | Goal::OperatorGoal(Operator::Or(gs))
        | Goal::OperatorGoal(Operator::Time(gs)) | Goal::OperatorGoal(Operator::Not(gs)) => {
            proof {
                lemma_goals_seq(*gs);
            }
            if budget == 0 {
                return None;
            }
            match goals_size_upto(gs, budget - 1) {
                Some(n) => Some(n + 1),
                None => None,
            }
        },
        Goal::BuiltInGoal(b) => {
            if budget == 0 {
                return None;
            }
            match &b.terms {
                Some(ts) => match crate::variables::seq_size_upto(ts, budget - 1) {
                    Some(n) => Some(n + 1),
                    None => None,
                },
                None => Some(1),
            }
        },
        Goal::ComplexGoal(u) => crate::variables::term_size_upto(u, budget),
        Goal::Nil => {
            if budget == 0 {
                None
            } else {
                Some(1)
            }
        },
    }
}

/// The total size of the goals if it is at most `budget`.
pub fn goals_size_upto(gs: &Vec<Goal>, budget: usize) -> (r: Option<usize>)
    ensures
        r == if goals_size(goals_view(gs@), 0) <= budget {
            Some(goals_size(goals_view(gs@), 0) as usize)
        } else {
            None::<usize>
        },
    decreases gs, 2int,
{
    let ghost gv = goals_view(gs@);
    let mut total: usize = 0;
    let mut i: usize = gs.len();
    while i > 0
        invariant
            gv == goals_view(gs@),
            i <= gs@.len(),
            total <= budget,
            total == goals_size(gv, i as int),
        decreases i,
    {
        assert(decreases_to!(gs => gs@[i - 1]));
        assert(gv[i - 1] == gs@[i - 1]@);
        assert(goals_size(gv, i - 1) == goal_size(gv[i - 1]) + goals_size(gv, i as int));
        match goal_size_upto(&gs[i - 1], budget - total) {
            Some(n) => {
                total = total + n;
            },
            None => {
                proof {
                    lemma_goals_size_mono(gv, i - 1);
                }
                return None;
            },
        }
        i = i - 1;
    }
    Some(total)
}

proof fn lemma_goals_size_mono(gs: Seq<GoalView>, k: int)
    requires
        0 <= k <= gs.len(),
    ensures
        goals_size(gs, k) <= goals_size(gs, 0),
    decreases k,
{
    if k > 0 {
        lemma_goals_size_mono(gs, k - 1);
    }
}
} // verus!
