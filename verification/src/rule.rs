//! Facts and rules: `head :- body.`
use vstd::prelude::*;
use crate::unifiable::{Unifiable, Term, term_text, copy_term, push_term_text, key_text};
use crate::goal::{Goal, GoalView, goal_text, copy_goal, push_goal_text, goal_size, recreate_goal};
use crate::text::{str_to_chars, trim_chars, chars_to_string, append_str, append_chars, trim, sub_chars};
use crate::parse_goals::{parse_subgoal, parse_subgoal_spec};
use crate::parse_terms::{parse_complex, parse_complex_spec};
use crate::tokenizer::{generate_goal, generate_goal_spec};
use crate::logic_var::{VarMap, VarIds};
use crate::variables::{term_size, recreate_spec};

verus! {

/// The index of the first neck operator `:-` in `s`, or -1.
pub open spec fn neck_index(s: Seq<char>, from: int) -> int
    decreases s.len() - from,
{
    if from < 0 || from + 1 >= s.len() {
        -1
    } else if s[from] == ':' && s[from + 1] == '-' {
        from
    } else {
        neck_index(s, from + 1)
    }
}

/// Finds the index of the neck operator (`:-`) in a vector of characters.
pub fn index_of_neck(chrs: &[char]) -> (r: Option<usize>)
    ensures
        match r {
            Some(i) => i as int == neck_index(chrs@, 0) && i + 1 < chrs@.len(),
            None => neck_index(chrs@, 0) == -1,
        },
{
    let mut previous_colon = false;
    let mut i: usize = 0;
    while i < chrs.len()
        invariant
            i <= chrs@.len(),
            previous_colon == (i > 0 && chrs@[i - 1] == ':'),
            i > 0 ==> neck_index(chrs@, 0) == neck_index(chrs@, i - 1),
            i == 0 ==> neck_index(chrs@, 0) == neck_index(chrs@, 0),
        decreases chrs@.len() - i,
    {
        let ch = chrs[i];
        if ch == '-' && previous_colon {
            return Some(i - 1);
        }
        previous_colon = ch == ':';
        i = i + 1;
    }
    proof {
        if i > 0 {
            assert(neck_index(chrs@, i - 1) == -1);
        }
    }
    None
}


/// A fact or a rule: `head.` or `head :- body.` A fact's body is Nil.
#[derive(Debug, PartialEq)]
pub struct Rule {
    /// Must be a complex term.
    pub head: Unifiable,
    pub body: Goal,
}

/// The model of a rule: its head and its body.
pub open spec fn rule_view(r: Rule) -> (Term, GoalView) {
    (r.head@, r.body@)
}

impl View for Rule {
    type V = (Term, GoalView);

    open spec fn view(&self) -> (Term, GoalView) {
        rule_view(*self)
    }
}

/// The display text of a rule: `head.` for a fact, else `head :- body.`
pub open spec fn rule_text(r: (Term, GoalView)) -> Seq<char> {
    if r.1 is Nil {
        term_text(r.0) + seq!['.']
    } else {
        term_text(r.0) + " :- "@ + goal_text(r.1) + seq!['.']
    }
}

/// Does the rule's head have a functor (so that it has a key)?
pub open spec fn rule_keyed(r: (Term, GoalView)) -> bool {
    r.0 matches Term::SComplex(args) && args.len() > 0
}

/// The key of a rule: the key of its head.
pub open spec fn rule_key(r: (Term, GoalView)) -> Seq<char> {
    match r.0 {
        Term::SComplex(args) => key_text(args),
        _ => Seq::empty(),
    }
}

/// The error message of `parse_rule`.
pub open spec fn pr_error(err: Seq<char>, bad: Seq<char>) -> Seq<char> {
    "parse_rule() - "@ + err + ": >"@ + bad + seq!['<']
}

/// What `parse_rule` gives for a text.
pub open spec fn parse_rule_spec(s0: Seq<char>) -> Result<(Term, GoalView), Seq<char>> {
    let s = trim(s0);
    let c = if s.len() >= 4 && s.last() == '.' {
        s.drop_last()
    } else {
        s
    };
    let index = neck_index(c, 0);
    if s.len() < 4 {
        Err(pr_error("Invalid string."@, s))
    } else if index >= 0 && index + 2 <= c.len() {
        let body = c.subrange(index + 2, c.len() as int);
        if neck_index(body, 0) >= 0 {
            Err(pr_error("Invalid rule."@, s))
        } else {
            match parse_subgoal_spec(c.subrange(0, index)) {
                Err(e) => Err(e),
                Ok(GoalView::Complex(h)) => match generate_goal_spec(body) {
                    Ok(b) => Ok((h, b)),
                    Err(e) => Err(e),
                },
                Ok(_) => Err(pr_error("Head of rule must be complex term."@, s)),
            }
        }
    } else {
        match parse_complex_spec(c) {
            Ok(f) => Ok((f, GoalView::Nil)),
            Err(e) => Err(e),
        }
    }
}

/// A rule that parses has a complex head with a functor, so it has a key.
pub proof fn lemma_parsed_rule_keyed(s: Seq<char>)
    ensures
        parse_rule_spec(s) matches Ok(r) ==> rule_keyed(r),
{
    let t = trim(s);
    let c = if t.len() >= 4 && t.last() == '.' {
        t.drop_last()
    } else {
        t
    };
    let index = neck_index(c, 0);
    if index >= 0 && index + 2 <= c.len() {
        let head = c.subrange(0, index);
        assert(parse_subgoal_spec(head) matches Ok(GoalView::Complex(h)) ==> h matches Term::SComplex(ts) && ts.len() > 0);
    } else {
        crate::s_complex::lemma_parse_complex_kind(c);
    }
}

/// The model of a rule result.
pub open spec fn rule_result_view(r: Result<Rule, String>) -> Result<(Term, GoalView), Seq<char>> {
    match r {
        Ok(rule) => Ok(rule@),
        Err(e) => Err(e@),
    }
}

/// Makes an error message for `parse_rule`.
fn pr_message(err: &str, bad: &[char]) -> (m: String)
    ensures
        m@ == pr_error(err@, bad@),
{
    let mut v: Vec<char> = Vec::new();
    append_str(&mut v, "parse_rule() - ");
    append_str(&mut v, err);
    append_str(&mut v, ": >");
    append_chars(&mut v, bad);
    v.push('<');
    chars_to_string(&v)
}

/// Parses a fact or a rule, eg. `male(Harold).` or
/// `father($X, $Y) :- parent($X, $Y), male($X).` The final period is
/// optional.
pub fn parse_rule(to_parse: &str) -> (r: Result<Rule, String>)
    ensures
        rule_result_view(r) == parse_rule_spec(to_parse@),
{
    let v = str_to_chars(to_parse);
    let s = trim_chars(&v);
    let length = s.len();
    if length < 4 {
        return Err(pr_message("Invalid string.", &s));
    }
    let c = if s[length - 1] == '.' {
        sub_chars(&s, 0, length - 1)
    } else {
        sub_chars(&s, 0, length)
    };
    assert(s@.subrange(0, length as int) =~= s@);
    assert(s@.drop_last() =~= s@.subrange(0, length - 1));
    match index_of_neck(&c) {
        Some(index) => {
            let head_chrs = sub_chars(&c, 0, index);
            let body_chrs = sub_chars(&c, index + 2, c.len());
            if let Some(_) = index_of_neck(&body_chrs) {
                return Err(pr_message("Invalid rule.", &s));
            }
            match parse_subgoal(chars_to_string(&head_chrs).as_str()) {
                Err(e) => Err(e),
                Ok(Goal::ComplexGoal(h)) => {
                    match generate_goal(chars_to_string(&body_chrs).as_str()) {
                        Ok(body) => Ok(Rule { head: h, body }),
                        Err(e) => Err(e),
                    }
                },
                Ok(_) => Err(pr_message("Head of rule must be complex term.", &s)),
            }
        },
        None => {
            match parse_complex(chars_to_string(&c).as_str()) {
                Ok(f) => Ok(Rule { head: f, body: Goal::Nil }),
                Err(e) => Err(e),
            }
        },
    }
}

/// Makes a rule from a head and a body.
pub fn make_rule(head: Unifiable, body: Goal) -> (r: Rule)
    ensures
        r@ == (head@, body@),
{
    Rule { head, body }
}

/// Makes a fact: a rule whose body is Nil.
pub fn make_fact(head: Unifiable) -> (r: Rule)
    ensures
        r@ == (head@, GoalView::Nil),
{
    Rule { head, body: Goal::Nil }
}

impl Rule {
    /// The key of the rule's head, eg. `father/2`.
    pub fn key(&self) -> (k: String)
        requires
            rule_keyed(self@),
        ensures
            k@ == rule_key(self@),
    {
        self.head.key()
    }

    /// A copy of the head.
    pub fn get_head(&self) -> (h: Unifiable)
        ensures
            h@ == self.head@,
    {
        copy_term(&self.head)
    }

    /// A copy of the body.
    pub fn get_body(&self) -> (b: Goal)
        ensures
            b@ == self.body@,
    {
        copy_goal(&self.body)
    }

    /// A copy of the rule.
    pub fn copy(&self) -> (r: Rule)
        ensures
            r@ == self@,
    {
        Rule { head: copy_term(&self.head), body: copy_goal(&self.body) }
    }

    /// The display text of the rule.
    pub fn to_display_string(&self) -> (s: String)
        ensures
            s@ == rule_text(self@),
    {
        let mut out: Vec<char> = Vec::new();
        push_term_text(&mut out, &self.head);
        match &self.body {
            Goal::Nil => {},
            b => {
                append_str(&mut out, " :- ");
                push_goal_text(&mut out, b);
            },
        }
        out.push('.');
        chars_to_string(&out)
    }

    /// Recreates the logic variables of the head and the body with fresh
    /// IDs, one map for both.
    pub fn recreate_variables(self, recreated_vars: &mut VarMap, ids: &mut VarIds) -> (r: Rule)
        requires
            old(ids).last + term_size(self.head@) + goal_size(self.body@) + 4 < usize::MAX,
        ensures
            ({
                let (h, m1, l1) = recreate_spec(
                    self.head@,
                    old(recreated_vars).view_map(),
                    old(ids).last as nat,
                );
                let (b, m2, l2) = recreate_goal(self.body@, m1, l1);
                r@ == (h, b) && final(recreated_vars).view_map() == m2 && final(ids).last == l2
            }),
    {
        proof {
            crate::variables::lemma_recreate_ids(self.head@, recreated_vars.view_map(), ids.last as nat);
        }
        let head = self.head.recreate_variables(recreated_vars, ids);
        let body = self.body.recreate_variables(recreated_vars, ids);
        Rule { head, body }
    }
}
} // verus!
