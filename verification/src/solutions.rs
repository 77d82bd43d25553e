//! Searching for solutions and showing them: `name = value` for each
//! variable of the query.
use vstd::prelude::*;
use crate::unifiable::{Unifiable, Term, join_texts, term_text, push_term_text, lemma_complex_view};
use crate::goal::{Goal, GoalView};
use crate::variables::replace_spec;
use crate::text::{append_str, chars_to_string, str_to_chars};
use crate::solver::{Solver, Outcome, OutcomeV, MachineV, KbV, machine_view, run, step};
use crate::knowledge_base::KnowledgeBase;
use crate::substitution_set::ss_view;
use crate::rule_reader::strings_view;

verus! {

/// The pieces `name = value` of a solution, for the arguments `1..i` of
/// the query: each argument which is a logic variable gives its name and
/// the text of the result's argument at the same place.
pub open spec fn solution_pieces(q: Seq<Term>, r: Seq<Term>, i: int) -> Seq<Seq<char>>
    decreases i,
{
    if i <= 1 {
        Seq::empty()
    } else {
        let prev = solution_pieces(q, r, i - 1);
        match q[i - 1] {
            Term::LogicVar(_, name) => prev.push(name + " = "@ + term_text(r[i - 1])),
            _ => prev,
        }
    }
}

/// Every variable argument of the query has a counterpart in the result.
pub open spec fn result_covers(q: GoalView, r: Term) -> bool {
    match (q, r) {
        (GoalView::Complex(Term::SComplex(qs)), Term::SComplex(rs)) => forall|i: int|
            1 <= i < qs.len() && (#[trigger] qs[i]) is LogicVar ==> i < rs.len(),
        _ => true,
    }
}

/// What `format_solution` gives: the pieces separated by commas, or
/// nothing unless the query and the result are both complex terms.
pub open spec fn format_solution_spec(q: GoalView, r: Term) -> Seq<char> {
    match (q, r) {
        (GoalView::Complex(Term::SComplex(qs)), Term::SComplex(rs)) => join_texts(
            solution_pieces(qs, rs, qs.len() as int),
            ", "@,
        ),
        _ => Seq::empty(),
    }
}

/// Formats the result of a query: for each logic variable among the
/// query's arguments, its name and the corresponding term of the result.
/// For the query `loves(Leonard, $Whom)` and the result
/// `loves(Leonard, Penny)`, it gives `$Whom = Penny`.
pub fn format_solution(query: &Goal, result: &Unifiable) -> (s: String)
    requires
        result_covers(query@, result@),
    ensures
        s@ == format_solution_spec(query@, result@),
{
    let mut out: Vec<char> = Vec::new();
    proof {
        crate::unifiable::lemma_view_kind(*result);
    }
    if let Goal::ComplexGoal(qu) = query {
        proof {
            crate::unifiable::lemma_view_kind(*qu);
        }
        if let (Unifiable::SComplex(q_terms), Unifiable::SComplex(r_terms)) = (qu, result) {
            proof {
                lemma_complex_view(*q_terms);
                lemma_complex_view(*r_terms);
            }
            let ghost qs = crate::unifiable::terms_view(q_terms@);
            let ghost rs = crate::unifiable::terms_view(r_terms@);
            let mut first = true;
            let mut i: usize = 1;
            while i < q_terms.len()
                invariant
                    qs == crate::unifiable::terms_view(q_terms@),
                    rs == crate::unifiable::terms_view(r_terms@),
                    query@ == GoalView::Complex(Term::SComplex(qs)),
                    result@ == Term::SComplex(rs),
                    result_covers(query@, result@),
                    1 <= i,
                    i <= q_terms@.len() || i == 1,
                    first <==> solution_pieces(qs, rs, i as int).len() == 0,
                    out@ == join_texts(solution_pieces(qs, rs, i as int), ", "@),
                decreases q_terms@.len() - i,
            {
                let ghost prev = solution_pieces(qs, rs, i as int);
                assert(qs[i as int] == q_terms@[i as int]@);
                match &q_terms[i] {
                    Unifiable::LogicVar { name, .. } => {
                        assert(qs[i as int] is LogicVar);
                        assert(rs[i as int] == r_terms@[i as int]@);
                        let ghost piece = name@ + " = "@ + term_text(rs[i as int]);
                        let ghost next = prev.push(piece);
                        assert(next.drop_last() =~= prev);
                        if !first {
                            append_str(&mut out, ", ");
                        }
                        let ghost before = out@;
                        append_str(&mut out, name.as_str());
                        append_str(&mut out, " = ");
                        push_term_text(&mut out, &r_terms[i]);
                        assert(out@ =~= before + piece);
                        first = false;
                        assert(out@ =~= join_texts(next, ", "@));
                    },
                    _ => {},
                }
                i = i + 1;
            }
            assert(qs.len() == q_terms@.len());
            if q_terms.len() == 0 {
                assert(solution_pieces(qs, rs, 0) =~= Seq::<Seq<char>>::empty());
                assert(solution_pieces(qs, rs, 1) =~= Seq::<Seq<char>>::empty());
            }
            assert(solution_pieces(qs, rs, i as int) == solution_pieces(qs, rs, qs.len() as int));
        }
    }
    chars_to_string(&out)
}

/// The term of a complex query (Nil for other goals).
pub open spec fn query_term(q: GoalView) -> Term {
    match q {
        GoalView::Complex(t) => t,
        _ => Term::Nil,
    }
}

/// The text of a solution of the query: its variables with their values.
pub open spec fn solution_text(q: GoalView, ss: Seq<Option<Term>>) -> Seq<char> {
    format_solution_spec(q, replace_spec(query_term(q), ss))
}

/// What the search for one solution gives to show: the solution, or
/// `No more.`; nothing when the steps ran out.
pub open spec fn solve_spec(q: GoalView, o: OutcomeV) -> Option<Seq<char>> {
    match o {
        OutcomeV::Solution(ss) => Some(solution_text(q, ss)),
        OutcomeV::NoMore => Some("No more."@),
        OutcomeV::OutOfSteps => None,
    }
}

/// The result of a complex query after replacement covers its variables.
proof fn lemma_result_covers(q: GoalView, ss: Seq<Option<Term>>)
    requires
        q is Complex,
    ensures
        result_covers(q, replace_spec(query_term(q), ss)),
{
    match query_term(q) {
        Term::SComplex(qs) => {
            crate::variables::lemma_replace_seq_len(qs, 0, ss, ss.len());
        },
        _ => {},
    }
}

/// Formats a solution of the solver's query.
fn format_result(sn: &Solver, ss: &crate::substitution_set::SubstitutionSet) -> (s: String)
    requires
        sn.query@ is Complex,
    ensures
        s@ == solution_text(sn.query@, ss_view(*ss)),
{
    let result = sn.query.replace_variables(ss);
    proof {
        lemma_result_covers(sn.query@, ss_view(*ss));
    }
    format_solution(&sn.query, &result)
}

/// Finds the next solution of the solver's query, with at most `fuel`
/// steps, and gives it as text (see `format_solution`), or `No more.` when
/// there are no more solutions. Gives `None` when the steps ran out; the
/// search can then be resumed.
pub fn solve(sn: &mut Solver, kb: &KnowledgeBase, fuel: u64) -> (r: Option<String>)
    requires
        old(sn).query@ is Complex || !(run(kb.view_entries(), machine_view(*old(sn)), fuel as nat).1 is Solution),
    ensures
        final(sn).query == old(sn).query,
        machine_view(*final(sn)) == run(kb.view_entries(), machine_view(*old(sn)), fuel as nat).0,
        match r {
            Some(t) => solve_spec(old(sn).query@, run(kb.view_entries(), machine_view(*old(sn)), fuel as nat).1) == Some(t@),
            None => solve_spec(old(sn).query@, run(kb.view_entries(), machine_view(*old(sn)), fuel as nat).1) is None,
        },
{
    let ghost o = run(kb.view_entries(), machine_view(*sn), fuel as nat).1;
    match crate::solver::next_solution(sn, kb, fuel) {
        Outcome::Solution(ss) => {
            assert(o == OutcomeV::Solution(ss_view(*ss)));
            Some(format_result(sn, &*ss))
        },
        Outcome::NoMore => {
            proof {
                reveal_strlit("No more.");
            }
            Some(chars_to_string(&str_to_chars("No more.")))
        },
        Outcome::OutOfSteps => None,
    }
}

/// All the solutions that the search finds from state `m` in at most
/// `fuel` steps, in order, and the state after them. It ends when there
/// are no more solutions or the steps run out.
pub open spec fn run_all(kb: KbV, m: MachineV, fuel: nat) -> (MachineV, Seq<Seq<Option<Term>>>)
    decreases fuel,
{
    if m.halted || fuel == 0 {
        (m, Seq::empty())
    } else {
        let (m2, o) = step(kb, m);
        match o {
            Some(OutcomeV::Solution(ss)) => {
                let (m3, rest) = run_all(kb, m2, (fuel - 1) as nat);
                (m3, seq![ss] + rest)
            },
            Some(_) => (m2, Seq::empty()),
            None => run_all(kb, m2, (fuel - 1) as nat),
        }
    }
}

/// The texts of solutions of a query.
pub open spec fn solution_texts(q: GoalView, sols: Seq<Seq<Option<Term>>>) -> Seq<Seq<char>> {
    sols.map_values(|ss: Seq<Option<Term>>| solution_text(q, ss))
}

/// Finds all the solutions of the solver's query, with at most `fuel`
/// steps in all, and gives them as text (see `format_solution`). The
/// search has ended when the solver is halted afterwards; otherwise the
/// steps ran out.
pub fn solve_all(sn: &mut Solver, kb: &KnowledgeBase, fuel: u64) -> (r: Vec<String>)
    requires
        old(sn).query@ is Complex || run_all(kb.view_entries(), machine_view(*old(sn)), fuel as nat).1.len() == 0,
    ensures
        final(sn).query == old(sn).query,
        machine_view(*final(sn)) == run_all(kb.view_entries(), machine_view(*old(sn)), fuel as nat).0,
        strings_view(r@) == solution_texts(
            old(sn).query@,
            run_all(kb.view_entries(), machine_view(*old(sn)), fuel as nat).1,
        ),
{
    let ghost kbv = kb.view_entries();
    let ghost m0 = machine_view(*sn);
    let ghost q = sn.query@;
    let mut results: Vec<String> = Vec::new();
    let mut f = fuel;
    loop
        invariant
            kbv == kb.view_entries(),
            m0 == machine_view(*old(sn)),
            q == old(sn).query@,
            sn.query == old(sn).query,
            q is Complex || run_all(kbv, machine_view(*sn), f as nat).1.len() == 0,
            run_all(kbv, machine_view(*sn), f as nat).0 == run_all(kbv, m0, fuel as nat).0,
            strings_view(results@) + solution_texts(q, run_all(kbv, machine_view(*sn), f as nat).1)
                == solution_texts(q, run_all(kbv, m0, fuel as nat).1),
        decreases f,
    {
        let ghost before = machine_view(*sn);
        if sn.halted || f == 0 {
            assert(strings_view(results@) =~= solution_texts(q, run_all(kbv, m0, fuel as nat).1));
            return results;
        }
        match sn.step_exec(kb) {
            Some(Outcome::Solution(ss)) => {
                let ghost rest = run_all(kbv, machine_view(*sn), (f - 1) as nat).1;
                assert(run_all(kbv, before, f as nat).1 == seq![ss_view(*ss)] + rest);
                let t = format_result(sn, &*ss);
                let ghost rv = strings_view(results@);
                results.push(t);
                assert(strings_view(results@) =~= rv.push(t@));
                assert(solution_texts(q, seq![ss_view(*ss)] + rest) =~= seq![t@] + solution_texts(q, rest));
                assert(strings_view(results@) + solution_texts(q, rest) =~= rv + solution_texts(q, seq![ss_view(*ss)] + rest));
                f = f - 1;
            },
            Some(_) => {
                assert(strings_view(results@) =~= solution_texts(q, run_all(kbv, m0, fuel as nat).1));
                return results;
            },
            None => {
                f = f - 1;
            },
        }
    }
}


/// The message for a query whose search took longer than its time limit,
/// in milliseconds.
pub fn timeout_message(milliseconds: u64) -> (s: String)
    ensures
        s@ == "Query timed out after "@ + crate::text::nat_digits(milliseconds as nat) + " milliseconds."@,
{
    let mut v = str_to_chars("Query timed out after ");
    let d = crate::text::u64_to_chars(milliseconds);
    crate::text::append_chars(&mut v, &d);
    append_str(&mut v, " milliseconds.");
    chars_to_string(&v)
}
} // verus!
