//! Functions to support complex terms, such as `element(Argon, 18)`.
use vstd::prelude::*;
use crate::text::{str_to_chars, chars_to_string, append_str};
use crate::unifiable::{Unifiable, Term, terms_view, lemma_complex_view};
use crate::goal::{Goal, GoalView};
use crate::logic_var::{VarMap, VarIds, clear_id};
use crate::variables::{seq_size, recreate_seq, recreate_vars_terms, seq_size_upto};
use crate::parse_terms::{parse_complex_spec, term_result_view};

pub use crate::parse_terms::{parse_complex, parse_functor_terms};

verus! {

/// The error that `validate_complex` reports for a string, if any.
pub open spec fn validate_complex_spec(s: Seq<char>, chrs: Seq<char>) -> Option<Seq<char>> {
    if chrs.len() == 0 {
        Some("Parsing error - Length of string is 0."@)
    } else if chrs.len() > 1000 {
        Some("Parsing error - String is too long.\n"@ + s)
    } else if chrs[0] == '$' || chrs[0] == '(' {
        Some("Parsing error - First character is invalid: "@ + s)
    } else {
        None
    }
}

/// Validates the string to be parsed: it must not be empty or longer than
/// 1000 characters, and must not begin with a dollar sign or a parenthesis.
pub fn validate_complex(to_parse: &str, chrs: &Vec<char>) -> (r: Option<String>)
    ensures
        match r {
            Some(m) => validate_complex_spec(to_parse@, chrs@) == Some(m@),
            None => validate_complex_spec(to_parse@, chrs@) is None,
        },
{
    let length = chrs.len();
    let reason = if length == 0 {
        let m = str_to_chars("Parsing error - Length of string is 0.");
        return Some(chars_to_string(&m));
    } else if length > 1000 {
        "Parsing error - String is too long.\n"
    } else if chrs[0] == '$' || chrs[0] == '(' {
        "Parsing error - First character is invalid: "
    } else {
        return None;
    };
    let mut m = str_to_chars(reason);
    append_str(&mut m, to_parse);
    Some(chars_to_string(&m))
}


/// Makes a complex term from its functor (an atom) and its arguments.
pub fn make_complex(terms: Vec<Unifiable>) -> (c: Unifiable)
    requires
        terms@.len() > 0,
        terms@[0]@ is Atom,
    ensures
        c@ == Term::SComplex(terms_view(terms@)),
{
    proof {
        lemma_complex_view(terms);
    }
    Unifiable::SComplex(terms)
}

/// The query that `make_query` makes of the terms: their variables
/// recreated with IDs from 1 on.
pub open spec fn query_spec(ts: Seq<Term>) -> GoalView {
    GoalView::Complex(Term::SComplex(recreate_seq(ts, 0, Map::empty(), 0).0))
}

/// Makes a query from the functor and the arguments of a complex term. The
/// counter of variable IDs is reset, and the variables of the query are
/// recreated with IDs from 1 on.
pub fn make_query(terms: Vec<Unifiable>, ids: &mut VarIds) -> (g: Goal)
    requires
        terms@.len() > 0,
        terms@[0]@ is Atom,
        seq_size(terms_view(terms@), 0) + 2 < usize::MAX,
    ensures
        g@ == query_spec(terms_view(terms@)),
        final(ids).last == recreate_seq(terms_view(terms@), 0, Map::empty(), 0).2,
{
    clear_id(ids);
    let mut vars = VarMap::new();
    assert(vars.view_map() =~= Map::<Seq<char>, usize>::empty());
    let ghost tv = terms_view(terms@);
    let new_terms = recreate_vars_terms(terms, &mut vars, ids);
    proof {
        crate::variables::lemma_recreate_seq_ids(tv, 0, Map::empty(), 0);
        let (t2, m2, l2) = crate::variables::recreate_spec(tv[0], Map::empty(), 0);
        assert(t2 == tv[0]);
        let (rest, m3, l3) = recreate_seq(tv, 1, m2, l2);
        assert(recreate_seq(tv, 0, Map::empty(), 0).0 == seq![t2] + rest);
        assert((seq![t2] + rest)[0] == t2);
        assert(terms_view(new_terms@)[0] == new_terms@[0]@);
    }
    let c = make_complex(new_terms);
    Goal::ComplexGoal(c)
}

/// What `parse_query` gives for a text: the complex term (a final period is
/// dropped) made into a query; a query too large to number its variables is
/// refused.
pub open spec fn parse_query_spec(s: Seq<char>) -> Result<GoalView, Seq<char>> {
    let s2 = if s.last() == '.' {
        s.drop_last()
    } else {
        s
    };
    match parse_complex_spec(s2) {
        Ok(Term::SComplex(ts)) => if seq_size(ts, 0) + 2 < usize::MAX {
            Ok(query_spec(ts))
        } else {
            Err("parse_query() - Query is too large."@)
        },
        Ok(_) => Err(Seq::empty()),
        Err(e) => Err(e),
    }
}

/// Parses a query, eg. `loves($X, $Y).`, resetting the counter of
/// variable IDs.
pub fn parse_query(to_parse: &str, ids: &mut VarIds) -> (r: Result<Goal, String>)
    requires
        to_parse@.len() > 0,
    ensures
        crate::parse_goals::goal_result_view(r) == parse_query_spec(to_parse@),
{
    let mut v = str_to_chars(to_parse);
    let n = v.len();
    if v[n - 1] == '.' {
        v.pop();
    }
    assert(v@ == if to_parse@.last() == '.' { to_parse@.drop_last() } else { to_parse@ });
    let s2 = chars_to_string(&v);
    match parse_complex(s2.as_str()) {
        Ok(q) => {
            proof {
                lemma_parse_complex_kind(s2@);
            }
            match q {
                Unifiable::SComplex(terms) => {
                    proof {
                        lemma_complex_view(terms);
                    }
                    match seq_size_upto(&terms, usize::MAX - 3) {
                        Some(_) => Ok(make_query(terms, ids)),
                        None => Err(chars_to_string(&str_to_chars("parse_query() - Query is too large."))),
                    }
                },
                _ => {
                    proof {
                        crate::unifiable::lemma_view_kind(q);
                    }
                    Err(String::new())
                },
            }
        },
        Err(e) => Err(e),
    }
}

/// `parse_complex` gives complex terms whose first term is an atom.
pub proof fn lemma_parse_complex_kind(s: Seq<char>)
    ensures
        parse_complex_spec(s) matches Ok(t) ==> t matches Term::SComplex(ts) && ts.len() > 0
            && ts[0] is Atom,
{
    let t = crate::text::trim(s);
    crate::parse_terms::lemma_parentheses_spec(t);
}
} // verus!
