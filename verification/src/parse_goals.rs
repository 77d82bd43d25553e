//! Utilities for parsing goals and queries.
use vstd::prelude::*;
use crate::text::{chars_to_string, sub_chars, str_to_chars, trim_chars, trim, lemma_trim_len,
    chars_eq_str};
use crate::tokenizer::message;
use crate::unifiable::{Unifiable, Term, terms_view, lemma_complex_view};
use crate::goal::{Goal, GoalView, OpKind, Operator, BuiltInPredicate, goals_view};
use crate::infix::{Infix, scan_infix, check_infix};
use crate::parse_terms::{left_and_right_spec, functor_terms_spec, parse_arguments_spec,
    lemma_parentheses_spec, parse_functor_terms, parse_arguments};

pub use crate::parse_terms::get_left_and_right;

verus! {

/// The number of occurrences of `c` in `s`.
pub open spec fn count_char(s: Seq<char>, c: char) -> nat
    decreases s.len(),
{
    if s.len() == 0 {
        0
    } else {
        count_char(s.drop_last(), c) + if s.last() == c {
            1nat
        } else {
            0nat
        }
    }
}

/// The greatest index `j < to` with `s[j] == c`, or -1.
pub open spec fn last_index_before(s: Seq<char>, to: int, c: char) -> int
    decreases to,
{
    if to <= 0 {
        -1
    } else if s[to - 1] == c {
        to - 1
    } else {
        last_index_before(s, to - 1, c)
    }
}

pub proof fn lemma_last_index_before(s: Seq<char>, to: int, c: char)
    requires
        to <= s.len(),
    ensures
        last_index_before(s, to, c) == -1 || (0 <= last_index_before(s, to, c) < to
            && s[last_index_before(s, to, c)] == c),
    decreases to,
{
    if to > 0 && s[to - 1] != c {
        lemma_last_index_before(s, to - 1, c);
    }
}

/// What `indices_of_parentheses` gives: an error for unbalanced or
/// misplaced parentheses, else the indices of the first `(` and the last `)`.
pub open spec fn parentheses_spec(s: Seq<char>) -> Result<Option<(int, int)>, Seq<char>> {
    let left = crate::infix::next_index_of(s, 0, '(');
    let right = last_index_before(s, s.len() as int, ')');
    if count_char(s, '(') != count_char(s, ')') {
        Err("indices_of_parentheses() - Unbalanced parentheses: "@ + s)
    } else if right < left {
        Err("indices_of_parentheses() - Invalid parentheses: "@ + s)
    } else if left == -1 {
        Ok(None)
    } else {
        Ok(Some((left, right)))
    }
}

/// The model of the result of `indices_of_parentheses`.
pub open spec fn parentheses_result_view(r: Result<Option<(usize, usize)>, String>) -> Result<
    Option<(int, int)>,
    Seq<char>,
> {
    match r {
        Ok(None) => Ok(None),
        Ok(Some((a, b))) => Ok(Some((a as int, b as int))),
        Err(e) => Err(e@),
    }
}

/// Determines the indices of the first left parenthesis and the last right
/// parenthesis in a goal, eg. (5, 15) for `parse($In, $Out)`, or None when
/// there are no parentheses. Unbalanced or misplaced parentheses give an error.
pub fn indices_of_parentheses(goal: &Vec<char>) -> (r: Result<Option<(usize, usize)>, String>)
    ensures
        parentheses_result_view(r) == parentheses_spec(goal@),
        r matches Ok(Some((a, b))) ==> a < b < goal@.len(),
{
    let mut left: Option<usize> = None;
    let mut right: Option<usize> = None;
    let mut count_left: usize = 0;
    let mut count_right: usize = 0;
    let n = goal.len();
    let mut i: usize = 0;
    while i < n
        invariant
            n == goal@.len(),
            i <= n,
            count_left == count_char(goal@.subrange(0, i as int), '('),
            count_right == count_char(goal@.subrange(0, i as int), ')'),
            count_left <= i,
            count_right <= i,
            match left {
                None => forall|k: int| 0 <= k < i ==> goal@[k] != '(',
                Some(l) => l < i && l as int == crate::infix::next_index_of(goal@, 0, '('),
            },
            match left {
                None => crate::infix::next_index_of(goal@, 0, '(') == crate::infix::next_index_of(
                    goal@,
                    i as int,
                    '(',
                ),
                Some(_) => true,
            },
            match right {
                None => last_index_before(goal@, i as int, ')') == -1,
                Some(r) => r < i && r as int == last_index_before(goal@, i as int, ')'),
            },
        decreases n - i,
    {
        let ch = goal[i];
        assert(goal@.subrange(0, i + 1).drop_last() =~= goal@.subrange(0, i as int));
        if ch == '(' {
            if left.is_none() {
                left = Some(i);
            }
            count_left = count_left + 1;
        } else if ch == ')' {
            right = Some(i);
            count_right = count_right + 1;
        }
        i = i + 1;
    }
    assert(goal@.subrange(0, n as int) =~= goal@);
    proof {
        crate::infix::lemma_next_index_of(goal@, 0, '(');
        lemma_last_index_before(goal@, n as int, ')');
    }
    if count_left != count_right {
        return Err(message("indices_of_parentheses() - Unbalanced parentheses: ", goal));
    }
    match (left, right) {
        (None, None) => Ok(None),
        (None, Some(_)) => Ok(None),
        (Some(l), None) => Err(message("indices_of_parentheses() - Invalid parentheses: ", goal)),
        (Some(l), Some(r)) => {
            if r < l {
                Err(message("indices_of_parentheses() - Invalid parentheses: ", goal))
            } else {
                assert(goal@[l as int] == '(');
                assert(goal@[r as int] == ')');
                Ok(Some((l, r)))
            }
        },
    }
}

/// Splits a complex term `functor(terms)` at the given parenthesis indices
/// into its functor string and its terms string.
pub fn split_complex_term(complex: &Vec<char>, index1: usize, index2: usize) -> (r: (String, String))
    requires
        index1 < index2 <= complex@.len(),
    ensures
        r.0@ == complex@.subrange(0, index1 as int),
        r.1@ == complex@.subrange(index1 + 1, index2 as int),
{
    let f = sub_chars(complex, 0, index1);
    let t = sub_chars(complex, index1 + 1, index2);
    (chars_to_string(&f), chars_to_string(&t))
}


/// Is the name that of a built-in predicate without arguments?
pub open spec fn is_no_arg_predicate(f: Seq<char>) -> bool {
    f == "fail"@ || f == "nl"@ || f == "!"@
}

/// Is the name that of a built-in predicate with arguments?
pub open spec fn is_arg_predicate(f: Seq<char>) -> bool {
    f == "print"@ || f == "append"@ || f == "functor"@ || f == "include"@ || f == "exclude"@ || f
        == "print_list"@ || f == "unify"@ || f == "equal"@ || f == "less_than"@ || f
        == "less_than_or_equal"@ || f == "greater_than"@ || f == "greater_than_or_equal"@ || f
        == "count"@
}

/// The goal that `make_goal` makes of a functor and its arguments: a
/// built-in predicate (arguments are ignored for `fail`, `nl` and `!`) or
/// a complex goal.
pub open spec fn make_goal_spec(functor: Seq<char>, args: Seq<Term>) -> GoalView {
    if is_no_arg_predicate(functor) {
        GoalView::BuiltIn(functor, None)
    } else if is_arg_predicate(functor) {
        GoalView::BuiltIn(functor, Some(args))
    } else {
        GoalView::Complex(Term::SComplex(seq![Term::Atom(functor)] + args))
    }
}

/// The name of the built-in predicate of a comparison infix.
pub open spec fn infix_predicate(inf: Infix) -> Option<Seq<char>> {
    match inf {
        Infix::Unify => Some("unify"@),
        Infix::Equal => Some("equal"@),
        Infix::LessThan => Some("less_than"@),
        Infix::LessThanOrEqual => Some("less_than_or_equal"@),
        Infix::GreaterThan => Some("greater_than"@),
        Infix::GreaterThanOrEqual => Some("greater_than_or_equal"@),
        _ => None,
    }
}

/// What `parse_subgoal` gives for a text.
pub open spec fn parse_subgoal_spec(s0: Seq<char>) -> Result<GoalView, Seq<char>>
    decreases s0.len(),
{
    let s = trim(s0);
    proof {
        lemma_trim_len(s0);
        lemma_parentheses_spec(s);
    }
    let (inf, index) = scan_infix(s, 0, '#', false);
    if s.len() == 0 {
        Err("parse_subgoal() - Empty string."@)
    } else if s == "!"@ || s == "fail"@ || s == "nl"@ {
        Ok(GoalView::BuiltIn(s, None))
    } else if inf != Infix::NoInfix && 0 <= index && index + 2 <= s.len() {
        match left_and_right_spec(s, index, 2) {
            Err(e) => Err(e),
            Ok((l, r)) => match infix_predicate(inf) {
                Some(name) => Ok(GoalView::BuiltIn(name, Some(seq![l, r]))),
                None => Err("parse_subgoal() - Invalid syntax: "@ + s),
            },
        }
    } else {
        match parentheses_spec(s) {
            Err(e) => Err(e),
            Ok(None) => match functor_terms_spec(s, Seq::empty()) {
                Ok(c) => Ok(GoalView::Complex(c)),
                Err(e) => Err(e + s0),
            },
            Ok(Some((l, r))) => {
                let functor = s.subrange(0, l);
                let args = s.subrange(l + 1, r);
                if functor == "time"@ || functor == "not"@ {
                    match parse_subgoal_spec(args) {
                        Err(e) => Err(e),
                        Ok(sg) => Ok(
                            GoalView::Op(
                                if functor == "time"@ {
                                    OpKind::Time
                                } else {
                                    OpKind::Not
                                },
                                seq![sg],
                            ),
                        ),
                    }
                } else {
                    match parse_arguments_spec(args) {
                        Err(e) => Err(e),
                        Ok(ts) => Ok(make_goal_spec(functor, ts)),
                    }
                }
            },
        }
    }
}

/// The model of a goal result.
pub open spec fn goal_result_view(r: Result<Goal, String>) -> Result<GoalView, Seq<char>> {
    match r {
        Ok(g) => Ok(g@),
        Err(e) => Err(e@),
    }
}

/// Makes a built-in predicate goal or a complex goal from a functor and
/// its arguments.
pub fn make_goal(functor: &str, args: Vec<Unifiable>) -> (g: Goal)
    ensures
        g@ == make_goal_spec(functor@, terms_view(args@)),
{
    let f = str_to_chars(functor);
    proof {
        reveal_strlit("fail");
        reveal_strlit("nl");
        reveal_strlit("!");
    }
    if chars_eq_str(&f, "fail") || chars_eq_str(&f, "nl") || chars_eq_str(&f, "!") {
        return Goal::BuiltInGoal(BuiltInPredicate { functor: chars_to_string(&f), terms: None });
    }
    if chars_eq_str(&f, "print") || chars_eq_str(&f, "append") || chars_eq_str(&f, "functor")
        || chars_eq_str(&f, "include") || chars_eq_str(&f, "exclude") || chars_eq_str(&f, "print_list")
        || chars_eq_str(&f, "unify") || chars_eq_str(&f, "equal") || chars_eq_str(&f, "less_than")
        || chars_eq_str(&f, "less_than_or_equal") || chars_eq_str(&f, "greater_than")
        || chars_eq_str(&f, "greater_than_or_equal") || chars_eq_str(&f, "count") {
        return Goal::BuiltInGoal(BuiltInPredicate { functor: chars_to_string(&f), terms: Some(args) });
    }
    let mut unifiables: Vec<Unifiable> = Vec::new();
    unifiables.push(Unifiable::Atom(chars_to_string(&f)));
    let ghost av = terms_view(args@);
    let mut a = args;
    unifiables.append(&mut a);
    proof {
        lemma_complex_view(unifiables);
        assert(terms_view(unifiables@) =~= seq![Term::Atom(functor@)] + av);
    }
    Goal::ComplexGoal(Unifiable::SComplex(unifiables))
}

/// Makes a goal from a functor alone: a built-in predicate for `fail`,
/// `nl` and `!`, otherwise a complex goal.
pub fn make_goal_no_args(functor: &str) -> (g: Goal)
    ensures
        g@ == make_goal_spec(functor@, Seq::empty()),
{
    let v: Vec<Unifiable> = Vec::new();
    assert(terms_view(v@) =~= Seq::<Term>::empty());
    make_goal(functor, v)
}

/// Parses a subgoal: a built-in predicate (`!`, `fail`, `nl`, a comparison
/// such as `$X < 7`, `print(...)`), `time(goal)`, `not(goal)`, or a
/// complex term.
pub fn parse_subgoal(to_parse: &str) -> (r: Result<Goal, String>)
    ensures
        goal_result_view(r) == parse_subgoal_spec(to_parse@),
    decreases to_parse@.len(),
{
    let v = str_to_chars(to_parse);
    let chrs = trim_chars(&v);
    let s = chars_to_string(&chrs);
    proof {
        lemma_trim_len(to_parse@);
        lemma_parentheses_spec(chrs@);
        reveal_strlit("!");
        reveal_strlit("fail");
        reveal_strlit("nl");
        reveal_strlit("time");
        reveal_strlit("not");
        reveal_strlit("");
    }
    let (inf, index) = check_infix(&chrs);
    if chrs.len() == 0 {
        return Err(chars_to_string(&str_to_chars("parse_subgoal() - Empty string.")));
    }
    if chars_eq_str(&chrs, "!") || chars_eq_str(&chrs, "fail") || chars_eq_str(&chrs, "nl") {
        return Ok(Goal::BuiltInGoal(BuiltInPredicate { functor: s, terms: None }));
    }
    let not_none = match inf {
        Infix::NoInfix => false,
        _ => true,
    };
    if not_none && index <= chrs.len() && chrs.len() - index >= 2 {
        let n = chrs.len();
        match get_left_and_right(copy_chars(&chrs), index, 2) {
            Err(e) => {
                return Err(e);
            },
            Ok((l, r)) => {
                let name = match inf {
                    Infix::Unify => "unify",
                    Infix::Equal => "equal",
                    Infix::LessThan => "less_than",
                    Infix::LessThanOrEqual => "less_than_or_equal",
                    Infix::GreaterThan => "greater_than",
                    Infix::GreaterThanOrEqual => "greater_than_or_equal",
                    _ => {
                        return Err(message("parse_subgoal() - Invalid syntax: ", &chrs));
                    },
                };
                let mut terms: Vec<Unifiable> = Vec::new();
                terms.push(l);
                terms.push(r);
                assert(terms_view(terms@) =~= seq![terms@[0]@, terms@[1]@]);
                return Ok(
                    Goal::BuiltInGoal(
                        BuiltInPredicate {
                            functor: chars_to_string(&str_to_chars(name)),
                            terms: Some(terms),
                        },
                    ),
                );
            },
        }
    }
    match indices_of_parentheses(&chrs) {
        Err(e) => Err(e),
        Ok(None) => match parse_functor_terms(s.as_str(), "") {
            Ok(c) => Ok(Goal::ComplexGoal(c)),
            Err(e) => {
                let mut m = str_to_chars(e.as_str());
                crate::text::append_str(&mut m, to_parse);
                Err(chars_to_string(&m))
            },
        },
        Ok(Some((left, right))) => {
            let (functor_str, args_str) = split_complex_term(&chrs, left, right);
            let fc = str_to_chars(functor_str.as_str());
            if chars_eq_str(&fc, "time") || chars_eq_str(&fc, "not") {
                let is_time = chars_eq_str(&fc, "time");
                match parse_subgoal(args_str.as_str()) {
                    Err(e) => Err(e),
                    Ok(sg) => {
                        let mut gs: Vec<Goal> = Vec::new();
                        gs.push(sg);
                        proof {
                            crate::goal::lemma_goals_seq(gs);
                            assert(goals_view(gs@) =~= seq![gs@[0]@]);
                        }
                        if is_time {
                            Ok(Goal::OperatorGoal(Operator::Time(gs)))
                        } else {
                            Ok(Goal::OperatorGoal(Operator::Not(gs)))
                        }
                    },
                }
            } else {
                match parse_arguments(args_str.as_str()) {
                    Err(e) => Err(e),
                    Ok(args) => Ok(make_goal(functor_str.as_str(), args)),
                }
            }
        },
    }
}

/// Copies a vector of characters.
fn copy_chars(v: &Vec<char>) -> (r: Vec<char>)
    ensures
        r@ == v@,
{
    sub_chars(v, 0, v.len())
}

/// Parsing a comparison `A op B`: where the scan finds an infix at `k`,
/// the goal is the built-in predicate named after the operator's
/// characters, with the terms on its left and on its right as its two
/// arguments: `=` gives `unify`, `==` gives `equal`, `<` gives
/// `less_than`, `<=` gives `less_than_or_equal`, `>` gives `greater_than`,
/// and `>=` gives `greater_than_or_equal`.
pub proof fn law_parse_comparison(s0: Seq<char>, l: Term, r: Term)
    ensures
        ({
            let s = trim(s0);
            let k = scan_infix(s, 0, '#', false).1;
            let ok = scan_infix(s, 0, '#', false).0 != Infix::NoInfix && left_and_right_spec(s, k, 2)
                == Ok::<(Term, Term), Seq<char>>((l, r));
            let goal = |name: Seq<char>|
                Ok::<GoalView, Seq<char>>(GoalView::BuiltIn(name, Some(seq![l, r])));
            &&& ok && s[k] == '=' && s[k + 1] == ' ' ==> parse_subgoal_spec(s0) == goal("unify"@)
            &&& ok && s[k] == '=' && s[k + 1] == '=' ==> parse_subgoal_spec(s0) == goal("equal"@)
            &&& ok && s[k] == '<' && s[k + 1] == ' ' ==> parse_subgoal_spec(s0) == goal("less_than"@)
            &&& ok && s[k] == '<' && s[k + 1] == '=' ==> parse_subgoal_spec(s0) == goal(
                "less_than_or_equal"@,
            )
            &&& ok && s[k] == '>' && s[k + 1] == ' ' ==> parse_subgoal_spec(s0) == goal(
                "greater_than"@,
            )
            &&& ok && s[k] == '>' && s[k + 1] == '=' ==> parse_subgoal_spec(s0) == goal(
                "greater_than_or_equal"@,
            )
        }),
{
    let s = trim(s0);
    let (inf, k) = scan_infix(s, 0, '#', false);
    crate::infix::lemma_scan_comparison_found(s, 0, '#');
    if inf != Infix::NoInfix {
        reveal_strlit("!");
        reveal_strlit("fail");
        reveal_strlit("nl");
        assert(s != "!"@ && s != "fail"@ && s != "nl"@) by {
            assert(s[k - 1] == ' ');
            if s == "fail"@ {
                assert(s.len() == 4);
            }
        }
        assert(s.len() > 0);
    }
}

} // verus!
