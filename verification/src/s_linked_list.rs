//! Suiron lists, such as `[a, b, c]` and `[$H | $T]`.
use vstd::prelude::*;
use crate::unifiable::{Unifiable, Term, term_view, terms_view, is_nil};
use crate::parse_terms::{empty_list, lemma_empty_list_view};

pub use crate::parse_terms::parse_linked_list;

verus! {

/// Is `s[index]` the character `ch`, not escaped by a preceding backslash?
pub open spec fn equal_escape_spec(s: Seq<char>, index: int, ch: char) -> bool {
    s[index] == ch && !(index > 0 && s[index - 1] == '\\')
}

/// Compares a character of a vector with the given character; a character
/// preceded by a backslash is escaped and does not match.
pub fn equal_escape(vec_chars: &Vec<char>, index: usize, ch: char) -> (b: bool)
    requires
        index < vec_chars@.len(),
    ensures
        b == equal_escape_spec(vec_chars@, index as int, ch),
{
    if vec_chars[index] == ch {
        if index > 0 {
            if vec_chars[index - 1] == '\\' {
                return false;
            }
        }
        return true;
    }
    false
}


/// The state of `make_linked_list` after the items from index `i` to the
/// end have been linked, last first: (the list so far, its count, whether
/// the next item is a tail variable). The last item, if it is a list, is
/// spliced in as the tail (an empty list leaves no tail); a last item Nil
/// is left out.
pub open spec fn mll_state(ts: Seq<Term>, vbar: bool, i: int) -> (Term, nat, bool)
    decreases ts.len() - i,
{
    if i < 1 || i >= ts.len() {
        (empty_list(), 1, vbar)
    } else {
        let (tail, num, tv) = mll_state(ts, vbar, i + 1);
        let node = ts[i];
        if i == ts.len() - 1 && node is SLinkedList {
            if *node->SLinkedList_0 is Nil {
                (Term::Nil, num, false)
            } else {
                (node, node->SLinkedList_2 + 1, false)
            }
        } else if i == ts.len() - 1 && node is Nil {
            (tail, num, tv)
        } else {
            (Term::SLinkedList(Box::new(node), Box::new(tail), num, tv), num + 1, false)
        }
    }
}

/// The list that `make_linked_list` makes from the items: the empty list
/// for no items; with `vbar`, the last item is a tail variable.
pub open spec fn mll(vbar: bool, ts: Seq<Term>) -> Term {
    if ts.len() == 0 {
        empty_list()
    } else {
        let (tail, num, tv) = mll_state(ts, vbar, 1);
        Term::SLinkedList(Box::new(ts[0]), Box::new(tail), num, tv)
    }
}

/// The count of the spliced last item, if it is a list.
pub open spec fn spliced_count(ts: Seq<Term>) -> nat {
    if ts.len() > 1 && ts.last() is SLinkedList {
        ts.last()->SLinkedList_2
    } else {
        0
    }
}

pub proof fn lemma_mll_count(ts: Seq<Term>, vbar: bool, i: int)
    requires
        1 <= i <= ts.len(),
    ensures
        mll_state(ts, vbar, i).1 <= 1 + (ts.len() - i) + spliced_count(ts),
    decreases ts.len() - i,
{
    if i < ts.len() {
        lemma_mll_count(ts, vbar, i + 1);
    }
}

/// Makes a linked list from a vector of terms, eg. `[a, b, c]`, or with
/// `vbar`, `[a, b | $T]`, where the last term is the tail variable.
pub fn make_linked_list(vbar: bool, terms: Vec<Unifiable>) -> (r: Unifiable)
    requires
        terms@.len() + spliced_count(terms_view(terms@)) + 2 <= usize::MAX,
    ensures
        r@ == mll(vbar, terms_view(terms@)),
{
    let ghost tv0 = terms_view(terms@);
    let mut terms = terms;
    let n = terms.len();
    let mut tail = Unifiable::SLinkedList {
        term: Box::new(Unifiable::Nil),
        next: Box::new(Unifiable::Nil),
        count: 0,
        tail_var: false,
    };
    proof {
        lemma_empty_list_view();
    }
    if n == 0 {
        return tail;
    }
    let mut tail_var = vbar;
    let mut num: usize = 1;
    let last_index = n - 1;
    let mut i = last_index;
    while i > 0
        invariant
            n == tv0.len(),
            n > 0,
            last_index == n - 1,
            i <= last_index,
            terms@.len() == i + 1,
            terms_view(terms@) == tv0.subrange(0, i + 1),
            (tail@, num as nat, tail_var) == mll_state(tv0, vbar, i + 1),
            n + spliced_count(tv0) + 2 <= usize::MAX,
        decreases i,
    {
        proof {
            lemma_mll_count(tv0, vbar, i + 1);
        }
        let ghost before = terms_view(terms@);
        let node = match terms.pop() {
            Some(t) => t,
            None => {
                proof {
                    assert(false);
                }
                Unifiable::Nil
            },
        };
        assert(before[i as int] == tv0[i as int]);
        assert(terms_view(terms@) =~= tv0.subrange(0, i as int));
        assert(node@ == tv0[i as int]);
        proof {
            crate::unifiable::lemma_view_kind(node);
        }
        if i == last_index {
            match node {
                Unifiable::SLinkedList { term, next, count, tail_var: tf } => {
                    if is_nil(&term) {
                        tail = Unifiable::Nil;
                    } else {
                        tail = Unifiable::SLinkedList { term, next, count, tail_var: tf };
                        num = count + 1;
                    }
                    tail_var = false;
                    i = i - 1;
                    continue;
                },
                Unifiable::Nil => {
                    i = i - 1;
                    continue;
                },
                _ => {
                    tail = Unifiable::SLinkedList {
                        term: Box::new(node),
                        next: Box::new(tail),
                        count: num,
                        tail_var,
                    };
                },
            }
        } else {
            tail = Unifiable::SLinkedList {
                term: Box::new(node),
                next: Box::new(tail),
                count: num,
                tail_var,
            };
        }
        num = num + 1;
        tail_var = false;
        i = i - 1;
    }
    let ghost before = terms_view(terms@);
    assert(before[0] == tv0[0]);
    let first = match terms.pop() {
        Some(t) => t,
        None => {
            proof {
                assert(false);
            }
            Unifiable::Nil
        },
    };
    assert(first@ == tv0[0]);
    Unifiable::SLinkedList { term: Box::new(first), next: Box::new(tail), count: num, tail_var }
}

/// Can `make_linked_list` count the items: their number, with the count of
/// a last item which is a list, leaves room.
pub fn list_size_ok(terms: &Vec<Unifiable>) -> (r: bool)
    ensures
        r == (terms@.len() + spliced_count(terms_view(terms@)) + 2 <= usize::MAX),
{
    let n = terms.len();
    if n > usize::MAX - 2 {
        return false;
    }
    if n > 1 {
        assert(terms_view(terms@).last() == terms@[n - 1]@);
        proof {
            crate::unifiable::lemma_view_kind(terms@[n - 1]);
        }
        match &terms[n - 1] {
            Unifiable::SLinkedList { count, .. } => {
                return *count <= usize::MAX - 2 - n;
            },
            _ => {},
        }
    }
    true
}
} // verus!
