//! Unifiable terms: atoms, numbers, logic variables, complex terms, lists
//! and built-in functions.
//!
//! Two terms can unify if they are identical, or if one of them is an
//! unbound logic variable. A floating point number is held as its decimal
//! text (eg. `3.14159`); the text is what is compared and shown.
use vstd::prelude::*;
use crate::text::{chars_to_string, append_chars, append_str, i64_to_chars, u64_to_chars,
    int_digits, nat_digits};

verus! {

#[derive(Debug, PartialEq)]
pub enum Unifiable {
    /// In a linked list, Nil indicates that a node has no next node.
    Nil,
    /// The anonymous variable, $_, unifies with anything.
    Anonymous,
    /// A string constant.
    Atom(String),
    /// A floating point number, held as its decimal text.
    SFloat(String),
    /// 64-bit integer.
    SInteger(i64),
    /// Logic variables have an ID number, which indexes the substitution set.
    LogicVar { id: usize, name: String },
    /// Complex (compound) term, eg. symptom(flu, $Symp): the functor and the arguments.
    SComplex(Vec<Unifiable>),
    /// A node of a linked list: the node's term, the next node (a list node
    /// or Nil), the number of nodes, and whether the term is a tail variable.
    SLinkedList { term: Box<Unifiable>, next: Box<Unifiable>, count: usize, tail_var: bool },
    /// A built-in function such as add() or join(), with its arguments.
    SFunction { name: String, terms: Vec<Unifiable> },
}

/// Mathematical model of a term.
pub enum Term {
    Nil,
    Anonymous,
    Atom(Seq<char>),
    SFloat(Seq<char>),
    SInteger(int),
    LogicVar(nat, Seq<char>),
    SComplex(Seq<Term>),
    SLinkedList(Box<Term>, Box<Term>, nat, bool),
    SFunction(Seq<char>, Seq<Term>),
}

/// The model of a term.
pub open spec fn term_view(u: Unifiable) -> Term
    decreases u,
{
    match u {
        Unifiable::Nil => Term::Nil,
        Unifiable::Anonymous => Term::Anonymous,
        Unifiable::Atom(s) => Term::Atom(s@),
        Unifiable::SFloat(s) => Term::SFloat(s@),
        Unifiable::SInteger(i) => Term::SInteger(i as int),
        Unifiable::LogicVar { id, name } => Term::LogicVar(id as nat, name@),
        Unifiable::SComplex(ts) => Term::SComplex(
            Seq::new(
                ts@.len(),
                |i: int|
                    if 0 <= i < ts@.len() {
                        term_view(ts@[i])
                    } else {
                        Term::Nil
                    },
            ),
        ),
        Unifiable::SLinkedList { term, next, count, tail_var } => Term::SLinkedList(
            Box::new(term_view(*term)),
            Box::new(term_view(*next)),
            count as nat,
            tail_var,
        ),
        Unifiable::SFunction { name, terms } => Term::SFunction(
            name@,
            Seq::new(
                terms@.len(),
                |i: int|
                    if 0 <= i < terms@.len() {
                        term_view(terms@[i])
                    } else {
                        Term::Nil
                    },
            ),
        ),
    }
}

/// The model of a sequence of terms.
pub open spec fn terms_view(ts: Seq<Unifiable>) -> Seq<Term> {
    ts.map_values(|t: Unifiable| term_view(t))
}

impl View for Unifiable {
    type V = Term;

    open spec fn view(&self) -> Term {
        term_view(*self)
    }
}

pub proof fn lemma_complex_view(ts: Vec<Unifiable>)
    ensures
        term_view(Unifiable::SComplex(ts)) == Term::SComplex(terms_view(ts@)),
{
    assert(term_view(Unifiable::SComplex(ts)) matches Term::SComplex(s) && s =~= terms_view(ts@));
}

pub proof fn lemma_function_view(name: String, ts: Vec<Unifiable>)
    ensures
        term_view(Unifiable::SFunction { name, terms: ts }) == Term::SFunction(
            name@,
            terms_view(ts@),
        ),
{
    assert(term_view(Unifiable::SFunction { name, terms: ts }) matches Term::SFunction(_, s)
        && s =~= terms_view(ts@));
}

/// Copies a term, giving a term with the same model.
pub fn copy_term(t: &Unifiable) -> (r: Unifiable)
    ensures
        r@ == t@,
    decreases t,
{
    match t {
        Unifiable::Nil => Unifiable::Nil,
        Unifiable::Anonymous => Unifiable::Anonymous,
        Unifiable::Atom(s) => Unifiable::Atom(s.clone()),
        Unifiable::SFloat(s) => Unifiable::SFloat(s.clone()),
        Unifiable::SInteger(i) => Unifiable::SInteger(*i),
        Unifiable::LogicVar { id, name } => Unifiable::LogicVar { id: *id, name: name.clone() },
        Unifiable::SComplex(ts) => {
            let cs = copy_terms(ts);
            proof {
                lemma_complex_view(cs);
                lemma_complex_view(*ts);
            }
            Unifiable::SComplex(cs)
        },
        Unifiable::SLinkedList { term, next, count, tail_var } => {
            let t2 = copy_term(term);
            let n2 = copy_term(next);
            Unifiable::SLinkedList {
                term: Box::new(t2),
                next: Box::new(n2),
                count: *count,
                tail_var: *tail_var,
            }
        },
        Unifiable::SFunction { name, terms } => {
            let cs = copy_terms(terms);
            let n = name.clone();
            proof {
                lemma_function_view(n, cs);
                lemma_function_view(*name, *terms);
            }
            Unifiable::SFunction { name: n, terms: cs }
        },
    }
}

/// Copies a vector of terms, element by element.
pub fn copy_terms(ts: &Vec<Unifiable>) -> (r: Vec<Unifiable>)
    ensures
        terms_view(r@) == terms_view(ts@),
    decreases ts,
{
    let mut r: Vec<Unifiable> = Vec::new();
    let mut i: usize = 0;
    while i < ts.len()
        invariant
            i <= ts@.len(),
            r@.len() == i,
            forall|k: int| 0 <= k < i ==> term_view(#[trigger] r@[k]) == term_view(ts@[k]),
        decreases ts@.len() - i,
    {
        assert(decreases_to!(ts => ts@[i as int]));
        let c = copy_term(&ts[i]);
        r.push(c);
        i = i + 1;
    }
    assert(terms_view(r@) =~= terms_view(ts@));
    r
}

impl Clone for Unifiable {
    fn clone(&self) -> (r: Self)
        ensures
            r@ == self@,
    {
        copy_term(self)
    }
}

/// A term and its model are of the same kind.
pub proof fn lemma_view_kind(t: Unifiable)
    ensures
        (t is Nil) <==> (t@ is Nil),
        (t is Anonymous) <==> (t@ is Anonymous),
        (t is Atom) <==> (t@ is Atom),
        (t is SFloat) <==> (t@ is SFloat),
        (t is SInteger) <==> (t@ is SInteger),
        (t is LogicVar) <==> (t@ is LogicVar),
        (t is SComplex) <==> (t@ is SComplex),
        (t is SLinkedList) <==> (t@ is SLinkedList),
        (t is SFunction) <==> (t@ is SFunction),
{
    match t {
        Unifiable::Nil => {},
        Unifiable::Anonymous => {},
        Unifiable::Atom(_) => {},
        Unifiable::SFloat(_) => {},
        Unifiable::SInteger(_) => {},
        Unifiable::LogicVar { .. } => {},
        Unifiable::SComplex(_) => {},
        Unifiable::SLinkedList { .. } => {},
        Unifiable::SFunction { .. } => {},
    }
}

/// Are two terms equal (the same model)?
pub fn eq_term(a: &Unifiable, b: &Unifiable) -> (r: bool)
    ensures
        r == (a@ == b@),
    decreases a,
{
    proof {
        lemma_view_kind(*a);
        lemma_view_kind(*b);
    }
    match a {
        Unifiable::Nil => match b {
            Unifiable::Nil => true,
            _ => false,
        },
        Unifiable::Anonymous => match b {
            Unifiable::Anonymous => true,
            _ => false,
        },
        Unifiable::Atom(x) => match b {
            Unifiable::Atom(y) => *x == *y,
            _ => false,
        },
        Unifiable::SFloat(x) => match b {
            Unifiable::SFloat(y) => *x == *y,
            _ => false,
        },
        Unifiable::SInteger(x) => match b {
            Unifiable::SInteger(y) => *x == *y,
            _ => false,
        },
        Unifiable::LogicVar { id: i1, name: n1 } => match b {
            Unifiable::LogicVar { id: i2, name: n2 } => *i1 == *i2 && *n1 == *n2,
            _ => false,
        },
        Unifiable::SComplex(x) => match b {
            Unifiable::SComplex(y) => {
                proof {
                    lemma_complex_view(*x);
                    lemma_complex_view(*y);
                }
                eq_terms(x, y)
            },
            _ => false,
        },
        Unifiable::SLinkedList { term: t1, next: n1, count: c1, tail_var: v1 } => match b {
            Unifiable::SLinkedList { term: t2, next: n2, count: c2, tail_var: v2 } => {
                *c1 == *c2 && *v1 == *v2 && eq_term(t1, t2) && eq_term(n1, n2)
            },
            _ => false,
        },
        Unifiable::SFunction { name: n1, terms: x } => match b {
            Unifiable::SFunction { name: n2, terms: y } => {
                proof {
                    lemma_function_view(*n1, *x);
                    lemma_function_view(*n2, *y);
                }
                *n1 == *n2 && eq_terms(x, y)
            },
            _ => false,
        },
    }
}

/// Are two vectors of terms equal, element by element?
pub fn eq_terms(a: &Vec<Unifiable>, b: &Vec<Unifiable>) -> (r: bool)
    ensures
        r == (terms_view(a@) == terms_view(b@)),
    decreases a,
{
    if a.len() != b.len() {
        proof {
            assert(terms_view(a@).len() != terms_view(b@).len());
        }
        return false;
    }
    let mut i: usize = 0;
    while i < a.len()
        invariant
            a@.len() == b@.len(),
            i <= a@.len(),
            forall|k: int| 0 <= k < i ==> term_view(#[trigger] a@[k]) == term_view(b@[k]),
        decreases a@.len() - i,
    {
        assert(decreases_to!(a => a@[i as int]));
        if !eq_term(&a[i], &b[i]) {
            assert(terms_view(a@)[i as int] != terms_view(b@)[i as int]);
            return false;
        }
        i = i + 1;
    }
    assert(terms_view(a@) =~= terms_view(b@));
    true
}

/// Is the term Nil?
pub fn is_nil(t: &Unifiable) -> (r: bool)
    ensures
        r == (t@ is Nil),
{
    match t {
        Unifiable::Nil => true,
        _ => false,
    }
}

/// Is the term the anonymous variable?
pub fn is_anonymous(t: &Unifiable) -> (r: bool)
    ensures
        r == (t@ is Anonymous),
{
    match t {
        Unifiable::Anonymous => true,
        _ => false,
    }
}

/// The items separated by `sep`.
pub open spec fn join_texts(ts: Seq<Seq<char>>, sep: Seq<char>) -> Seq<char>
    decreases ts.len(),
{
    if ts.len() == 0 {
        Seq::empty()
    } else if ts.len() == 1 {
        ts[0]
    } else {
        join_texts(ts.drop_last(), sep) + sep + ts.last()
    }
}

/// Display text of a logic variable: its name, and its ID after an
/// underscore unless the ID is 0.
pub open spec fn var_text(id: nat, name: Seq<char>) -> Seq<char> {
    if id == 0 {
        name
    } else {
        name + seq!['_'] + nat_digits(id)
    }
}

/// Display text of a term, as Suiron shows it:
/// `Nil`, `$_`, atoms and numbers as they are, `$X_2`, `f(a, b)`,
/// `[a, b | $T]`, `add(1, 2)`.
pub open spec fn term_text(t: Term) -> Seq<char>
    decreases t, 2int,
{
    match t {
        Term::Nil => "Nil"@,
        Term::Anonymous => "$_"@,
        Term::Atom(s) => s,
        Term::SFloat(s) => s,
        Term::SInteger(i) => int_digits(i),
        Term::LogicVar(id, name) => var_text(id, name),
        Term::SComplex(args) => if args.len() == 0 {
            seq![')']
        } else {
            term_text(args[0]) + seq!['('] + args_text(args, 1) + seq![')']
        },
        Term::SLinkedList(term, next, _, tail_var) => seq!['['] + list_text(t, true) + seq![']'],
        Term::SFunction(name, args) => name + seq!['('] + args_text(args, 0) + seq![')'],
    }
}

/// The texts of `args[from..]`, separated by commas.
pub open spec fn args_text(args: Seq<Term>, from: int) -> Seq<char>
    decreases args, args.len() - from,
{
    if from < 0 || from >= args.len() {
        Seq::empty()
    } else if from == args.len() - 1 {
        term_text(args[from])
    } else {
        term_text(args[from]) + ", "@ + args_text(args, from + 1)
    }
}

/// The inside of a list's display text, from the node `t` on. A node whose
/// term is Nil ends the list; a tail variable is preceded by a bar.
pub open spec fn list_text(t: Term, first: bool) -> Seq<char>
    decreases t, 1int,
{
    match t {
        Term::SLinkedList(term, next, _, tail_var) => if *term is Nil {
            Seq::empty()
        } else {
            (if first {
                Seq::empty()
            } else if tail_var {
                " | "@
            } else {
                ", "@
            }) + term_text(*term) + list_text(*next, false)
        },
        _ => Seq::empty(),
    }
}

impl Unifiable {
    /// Display text of the term.
    pub fn to_display_string(&self) -> (s: String)
        ensures
            s@ == term_text(self@),
    {
        let mut out: Vec<char> = Vec::new();
        push_term_text(&mut out, self);
        chars_to_string(&out)
    }
}

/// Appends the display text of a term.
pub fn push_term_text(out: &mut Vec<char>, t: &Unifiable)
    ensures
        final(out)@ == old(out)@ + term_text(t@),
    decreases t, 2int,
{
    match t {
        Unifiable::Nil => append_str(out, "Nil"),
        Unifiable::Anonymous => append_str(out, "$_"),
        Unifiable::Atom(s) => append_str(out, s.as_str()),
        Unifiable::SFloat(s) => append_str(out, s.as_str()),
        Unifiable::SInteger(i) => {
            let d = i64_to_chars(*i);
            append_chars(out, &d);
        },
        Unifiable::LogicVar { id, name } => {
            append_str(out, name.as_str());
            if *id != 0 {
                out.push('_');
                let d = u64_to_chars(*id as u64);
                append_chars(out, &d);
            }
            assert(final(out)@ =~= old(out)@ + var_text(*id as nat, name@));
        },
        Unifiable::SComplex(args) => {
            proof {
                lemma_complex_view(*args);
            }
            if args.len() == 0 {
                out.push(')');
                assert(final(out)@ =~= old(out)@ + seq![')']);
            } else {
                assert(decreases_to!(args => args@[0]));
                push_term_text(out, &args[0]);
                out.push('(');
                push_args_text(out, args, 1);
                out.push(')');
                assert(final(out)@ =~= old(out)@ + term_text(t@));
            }
        },
        Unifiable::SLinkedList { .. } => {
            out.push('[');
            push_list_text(out, t, true);
            out.push(']');
            assert(final(out)@ =~= old(out)@ + term_text(t@));
        },
        Unifiable::SFunction { name, terms } => {
            proof {
                lemma_function_view(*name, *terms);
            }
            append_str(out, name.as_str());
            out.push('(');
            push_args_text(out, terms, 0);
            out.push(')');
            assert(final(out)@ =~= old(out)@ + term_text(t@));
        },
    }
}

/// Appends the texts of `args[from..]`, separated by commas.
pub fn push_args_text(out: &mut Vec<char>, args: &Vec<Unifiable>, from: usize)
    ensures
        final(out)@ == old(out)@ + args_text(terms_view(args@), from as int),
    decreases args, args@.len() - from,
{
    let ghost av = terms_view(args@);
    if from >= args.len() {
        return ;
    }
    assert(av[from as int] == args@[from as int]@);
    assert(decreases_to!(args => args@[from as int]));
    push_term_text(out, &args[from]);
    if from < args.len() - 1 {
        append_str(out, ", ");
        push_args_text(out, args, from + 1);
        assert(final(out)@ =~= old(out)@ + args_text(av, from as int));
    }
}

/// Appends the inside of a list's display text, from the node `t` on.
pub fn push_list_text(out: &mut Vec<char>, t: &Unifiable, first: bool)
    ensures
        final(out)@ == old(out)@ + list_text(t@, first),
    decreases t, 1int,
{
    match t {
        Unifiable::SLinkedList { term, next, tail_var, .. } => {
            if is_nil(term) {
                return ;
            }
            if !first {
                if *tail_var {
                    append_str(out, " | ");
                } else {
                    append_str(out, ", ");
                }
            }
            push_term_text(out, term);
            push_list_text(out, next, false);
            assert(final(out)@ =~= old(out)@ + list_text(t@, first));
        },
        _ => {},
    }
}

/// The predicate name (key) of a complex term: functor text, a slash and
/// the arity, eg. `loves/2`.
pub open spec fn key_text(args: Seq<Term>) -> Seq<char> {
    term_text(args[0]) + seq!['/'] + nat_digits((args.len() - 1) as nat)
}

impl Unifiable {
    /// Is this a complex term with a functor?
    pub open spec fn is_keyed(&self) -> bool {
        self@ matches Term::SComplex(args) && args.len() > 0
    }

    /// Creates a key (functor/arity) for indexing into a knowledge base,
    /// eg. `loves/2` for `loves(Chandler, Monica)`.
    pub fn key(&self) -> (k: String)
        requires
            self.is_keyed(),
        ensures
            self@ matches Term::SComplex(args) && k@ == key_text(args),
    {
        match self {
            Unifiable::SComplex(terms) => {
                proof {
                    lemma_complex_view(*terms);
                }
                let mut out: Vec<char> = Vec::new();
                push_term_text(&mut out, &terms[0]);
                out.push('/');
                let d = u64_to_chars((terms.len() - 1) as u64);
                append_chars(&mut out, &d);
                chars_to_string(&out)
            },
            _ => {
                proof {
                    assert(false);
                }
                String::new()
            },
        }
    }
}

} // verus!
