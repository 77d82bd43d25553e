//! Functions for parsing unifiable terms and lists of terms.
use vstd::prelude::*;
use crate::text::{str_to_chars, chars_to_string, append_str, append_chars, trim, trim_chars, lemma_trim_len, is_white_space};
use crate::unifiable::{Term, Unifiable, terms_view, term_view};
use crate::infix::{Infix, scan_infix};
use crate::logic_var::mlv_check;
use crate::s_complex::validate_complex_spec;
use crate::parse_goals::parentheses_spec;
use crate::s_linked_list::equal_escape_spec;

pub use crate::infix::check_arithmetic_infix;

verus! {

/// The error message of `check_quotes` for the given text.
pub open spec fn quotes_error(s: Seq<char>, count: nat) -> Option<Seq<char>> {
    if count == 0 {
        None
    } else if count != 2 {
        Some("check_quotes() - Unmatched quotes: "@ + s)
    } else if s[0] != '"' {
        Some("check_quotes() - Text before opening quote: "@ + s)
    } else if s.last() != '"' {
        Some("check_quotes() - Text after closing quote: "@ + s)
    } else {
        None
    }
}

/// Checks validity of double quote marks in a string, given the number of
/// double quotes previously counted in it. An argument in quotes must begin
/// and end with the quote marks, and there must be two of them.
pub fn check_quotes(to_check: &str, count: usize) -> (r: Option<String>)
    requires
        count == 2 ==> to_check@.len() > 0,
    ensures
        match r {
            Some(m) => quotes_error(to_check@, count as nat) == Some(m@),
            None => quotes_error(to_check@, count as nat) is None,
        },
{
    if count == 0 {
        return None;
    }
    let chrs = str_to_chars(to_check);
    let reason = if count != 2 {
        "check_quotes() - Unmatched quotes: "
    } else if chrs[0] != '"' {
        "check_quotes() - Text before opening quote: "
    } else if chrs[chrs.len() - 1] != '"' {
        "check_quotes() - Text after closing quote: "
    } else {
        return None;
    };
    let mut m = str_to_chars(reason);
    append_str(&mut m, to_check);
    Some(chars_to_string(&m))
}


// ---------------------------------------------------------------------
// Numbers

/// Is the character a decimal digit?
pub open spec fn is_digit(c: char) -> bool {
    '0' <= c && c <= '9'
}

/// Are all characters decimal digits?
pub open spec fn all_digits(s: Seq<char>) -> bool {
    forall|k: int| 0 <= k < s.len() ==> is_digit(#[trigger] s[k])
}

/// The value of a string of decimal digits.
pub open spec fn digits_value(s: Seq<char>) -> nat
    decreases s.len(),
{
    if s.len() == 0 {
        0
    } else {
        digits_value(s.drop_last()) * 10 + ((s.last() as nat) - ('0' as nat)) as nat
    }
}

/// The text without a leading sign (+ or -).
pub open spec fn unsigned_part(s: Seq<char>) -> Seq<char> {
    if s.len() > 0 && (s[0] == '+' || s[0] == '-') {
        s.drop_first()
    } else {
        s
    }
}

/// The integer which `str::parse::<i64>` reads from the text: an optional
/// sign and one or more digits, within the range of `i64`.
pub open spec fn i64_text_value(s: Seq<char>) -> Option<i64> {
    let body = unsigned_part(s);
    if body.len() == 0 || !all_digits(body) {
        None
    } else {
        let v: int = if s[0] == '-' {
            -(digits_value(body) as int)
        } else {
            digits_value(body) as int
        };
        if i64::MIN <= v <= i64::MAX {
            Some(v as i64)
        } else {
            None
        }
    }
}

/// The index of the first `e` or `E`, or -1.
pub open spec fn exponent_index(s: Seq<char>, from: int) -> int
    decreases s.len() - from,
{
    if from < 0 || from >= s.len() {
        -1
    } else if s[from] == 'e' || s[from] == 'E' {
        from
    } else {
        exponent_index(s, from + 1)
    }
}

/// Digits with at most one decimal point, and at least one digit.
pub open spec fn mantissa_ok(m: Seq<char>) -> bool {
    &&& forall|k: int| 0 <= k < m.len() ==> is_digit(#[trigger] m[k]) || m[k] == '.'
    &&& crate::parse_goals::count_char(m, '.') <= 1
    &&& exists|k: int| 0 <= k < m.len() && is_digit(#[trigger] m[k])
}

/// ASCII lower case of a character.
pub open spec fn ascii_lower(c: char) -> char {
    if 'A' <= c && c <= 'Z' {
        ((c as u32) + 32) as char
    } else {
        c
    }
}

/// Does the text read `inf`, `infinity` or `nan`, ignoring ASCII case?
pub open spec fn is_special_float(b: Seq<char>) -> bool {
    let l = b.map_values(|c: char| ascii_lower(c));
    l == "inf"@ || l == "infinity"@ || l == "nan"@
}

/// Does `str::parse::<f64>` accept the text? An optional sign, then
/// `inf`, `infinity` or `nan`, or a decimal number: digits with at most one
/// point (at least one digit) and an optional exponent (`e`, an optional
/// sign and digits).
pub open spec fn is_float_text(s: Seq<char>) -> bool {
    let b = unsigned_part(s);
    let e = exponent_index(b, 0);
    if is_special_float(b) {
        true
    } else if e < 0 {
        mantissa_ok(b)
    } else {
        let x = unsigned_part(b.subrange(e + 1, b.len() as int));
        mantissa_ok(b.subrange(0, e)) && x.len() > 0 && all_digits(x)
    }
}

// ---------------------------------------------------------------------
// Terms

/// The empty list: a node without term or next node.
pub open spec fn empty_list() -> Term {
    Term::SLinkedList(Box::new(Term::Nil), Box::new(Term::Nil), 0, false)
}

/// A list node put in front of a list.
pub open spec fn link_front_spec(t: Term, tail: bool, list: Term) -> Term {
    Term::SLinkedList(Box::new(t), Box::new(list), list->SLinkedList_2 + 1, tail)
}

/// The error message of `make_term`.
pub open spec fn mt_error(err: Seq<char>, bad: Seq<char>) -> Seq<char> {
    "make_term() - "@ + err + ": "@ + bad
}

/// The error message of `parse_linked_list`.
pub open spec fn pll_error(err: Seq<char>, bad: Seq<char>) -> Seq<char> {
    "parse_linked_list() - "@ + err + ": "@ + bad
}

/// The name of the built-in function of an arithmetic infix.
pub open spec fn infix_function(inf: Infix) -> Seq<char> {
    match inf {
        Infix::Plus => "add"@,
        Infix::Minus => "subtract"@,
        Infix::Multiply => "multiply"@,
        _ => "divide"@,
    }
}

/// Is the infix one of `+ - * /`?
pub open spec fn is_arithmetic(inf: Infix) -> bool {
    inf == Infix::Plus || inf == Infix::Minus || inf == Infix::Multiply || inf == Infix::Divide
}

/// Does the text start with the name of a built-in function (the four
/// arithmetic functions and `join`) and a parenthesis?
pub open spec fn starts_arithmetic(s: Seq<char>) -> bool {
    has_prefix(s, "add("@) || has_prefix(s, "subtract("@) || has_prefix(s, "multiply("@)
        || has_prefix(s, "divide("@) || has_prefix(s, "join("@)
}

/// Does `s` start with `p`?
pub open spec fn has_prefix(s: Seq<char>, p: Seq<char>) -> bool {
    p.len() <= s.len() && s.subrange(0, p.len() as int) == p
}

/// Flags of a text for `make_term`: (has a digit, has another character,
/// has a period); backslashes are ignored.
pub open spec fn term_flags(s: Seq<char>) -> (bool, bool, bool)
    decreases s.len(),
{
    if s.len() == 0 {
        (false, false, false)
    } else {
        let (d, n, p) = term_flags(s.drop_last());
        let c = s.last();
        if c == '\\' {
            (d, n, p)
        } else if is_digit(c) {
            (true, n, p)
        } else if c == '.' {
            (d, n, true)
        } else {
            (d, true, p)
        }
    }
}

/// The text with its escapes resolved: a backslash stands for the
/// character after it (one at the very end stays as it is).
pub open spec fn unescape(s: Seq<char>) -> Seq<char>
    decreases s.len(),
{
    if s.len() == 0 {
        s
    } else if s[0] == '\\' && s.len() >= 2 {
        seq![s[1]] + unescape(s.subrange(2, s.len() as int))
    } else {
        seq![s[0]] + unescape(s.drop_first())
    }
}

/// Resolving escapes never makes a text longer.
pub proof fn lemma_unescape_len(s: Seq<char>)
    ensures
        unescape(s).len() <= s.len(),
    decreases s.len(),
{
    if s.len() > 0 {
        if s[0] == '\\' && s.len() >= 2 {
            lemma_unescape_len(s.subrange(2, s.len() as int));
        } else {
            lemma_unescape_len(s.drop_first());
        }
    }
}

/// Resolves the escapes of a text (see `unescape`).
pub fn unescape_chars(v: &Vec<char>) -> (r: Vec<char>)
    ensures
        r@ == unescape(v@),
{
    let mut out: Vec<char> = Vec::new();
    let mut i: usize = 0;
    let n = v.len();
    assert(v@.subrange(0, n as int) =~= v@);
    assert(out@ + unescape(v@) =~= unescape(v@));
    while i < n
        invariant
            n == v@.len(),
            i <= n,
            out@ + unescape(v@.subrange(i as int, n as int)) == unescape(v@),
        decreases n - i,
    {
        let ghost rest = v@.subrange(i as int, n as int);
        if v[i] == '\\' && i + 1 < n {
            assert(rest.subrange(2, rest.len() as int) =~= v@.subrange(i + 2, n as int));
            out.push(v[i + 1]);
            assert(out@ + unescape(v@.subrange(i + 2, n as int)) =~= out@.drop_last() + unescape(rest));
            i = i + 2;
        } else {
            assert(rest.drop_first() =~= v@.subrange(i + 1, n as int));
            out.push(v[i]);
            assert(out@ + unescape(v@.subrange(i + 1, n as int)) =~= out@.drop_last() + unescape(rest));
            i = i + 1;
        }
    }
    assert(unescape(v@.subrange(n as int, n as int)) =~= Seq::<char>::empty());
    assert(out@ + Seq::<char>::empty() =~= out@);
    out
}

/// What `parse_term` gives for a text: a term or an error message.
pub open spec fn parse_term_spec(s0: Seq<char>) -> Result<Term, Seq<char>>
    decreases s0.len(), 3int, 0int,
{
    let s = trim(s0);
    proof {
        lemma_trim_len(s0);
    }
    let (inf, index) = scan_infix(s, 0, '#', true);
    if is_arithmetic(inf) && 0 <= index < s.len() {
        match left_and_right_spec(s, index, 1) {
            Ok((l, r)) => Ok(Term::SFunction(infix_function(inf), seq![l, r])),
            Err(e) => Err(e),
        }
    } else {
        let (d, n, p) = term_flags(s);
        proof {
            lemma_unescape_len(s);
        }
        make_term_spec(unescape(s), d, n, p)
    }
}

/// What `get_left_and_right` gives: the terms before and after the infix
/// of length `size` at `index`.
pub open spec fn left_and_right_spec(s: Seq<char>, index: int, size: int) -> Result<
    (Term, Term),
    Seq<char>,
>
    decreases s.len(), 2int, 0int,
{
    if 0 <= index && 0 < size && index + size <= s.len() {
        match parse_term_spec(s.subrange(0, index)) {
            Ok(l) => match parse_term_spec(s.subrange(index + size, s.len() as int)) {
                Ok(r) => Ok((l, r)),
                Err(e) => Err(e),
            },
            Err(e) => Err(e),
        }
    } else {
        Err(Seq::empty())
    }
}

/// What `make_term` gives for a text and its flags.
pub open spec fn make_term_spec(s0: Seq<char>, d: bool, n: bool, p: bool) -> Result<Term, Seq<char>>
    decreases s0.len(), 2int, 0int,
{
    let s = trim(s0);
    proof {
        lemma_trim_len(s0);
    }
    if s.len() == 0 {
        Err(mt_error("Length of term is 0"@, s))
    } else if s[0] == '$' {
        if s == "$_"@ {
            Ok(Term::Anonymous)
        } else if mlv_check(trim(s)) is None {
            Ok(Term::LogicVar(0, trim(s)))
        } else {
            Ok(Term::Atom(s))
        }
    } else if s.len() >= 2 && s[0] == '"' {
        if s.last() == '"' {
            if s.len() == 2 {
                Err(mt_error("Invalid term. Length is 0"@, s))
            } else {
                Ok(Term::Atom(s.subrange(1, s.len() - 1)))
            }
        } else {
            Err(mt_error("Invalid term. Unmatched quote mark"@, s))
        }
    } else if s.len() >= 2 && s[0] == '[' && s.last() == ']' {
        parse_linked_list_spec(s)
    } else if s.len() >= 2 && s[0] != '(' && s.last() == ')' {
        if starts_arithmetic(s) {
            parse_function_spec(s)
        } else {
            parse_complex_spec(s)
        }
    } else if d && !n {
        if p {
            if is_float_text(s) {
                Ok(Term::SFloat(s))
            } else {
                Ok(Term::Atom(s))
            }
        } else {
            match i64_text_value(s) {
                Some(v) => Ok(Term::SInteger(v as int)),
                None => Ok(Term::Atom(s)),
            }
        }
    } else {
        Ok(Term::Atom(s))
    }
}

/// What `parse_functor_terms` gives: a complex term with the (trimmed)
/// functor as an atom, followed by the parsed arguments.
pub open spec fn functor_terms_spec(functor: Seq<char>, terms: Seq<char>) -> Result<Term, Seq<char>>
    decreases terms.len(), 6int, 0int,
{
    if terms.len() == 0 {
        Ok(Term::SComplex(seq![Term::Atom(trim(functor))]))
    } else {
        match parse_arguments_spec(terms) {
            Ok(ts) => Ok(Term::SComplex(seq![Term::Atom(trim(functor))] + ts)),
            Err(e) => Err(e),
        }
    }
}

/// What `parse_complex` gives for a text.
pub open spec fn parse_complex_spec(s0: Seq<char>) -> Result<Term, Seq<char>>
    decreases s0.len(), 1int, 0int,
{
    let s = trim(s0);
    proof {
        lemma_trim_len(s0);
        lemma_parentheses_spec(s);
    }
    match validate_complex_spec(s, s) {
        Some(m) => Err(m),
        None => match parentheses_spec(s) {
            Err(e) => Err(e),
            Ok(Some((l, r))) => match functor_terms_spec(s.subrange(0, l), s.subrange(l + 1, r)) {
                Ok(c) => Ok(c),
                Err(e) => Err(e + s0),
            },
            Ok(None) => match functor_terms_spec(s, Seq::empty()) {
                Ok(c) => Ok(c),
                Err(e) => Err(e + seq![' '] + s0),
            },
        },
    }
}

/// What `parse_function` gives for a text.
pub open spec fn parse_function_spec(s0: Seq<char>) -> Result<Term, Seq<char>>
    decreases s0.len(), 1int, 0int,
{
    let s = trim(s0);
    proof {
        lemma_trim_len(s0);
        lemma_parentheses_spec(s);
    }
    match validate_complex_spec(s, s) {
        Some(m) => Err(m),
        None => match parentheses_spec(s) {
            Err(e) => Err(e),
            Ok(Some((l, r))) => if r == l + 1 {
                Err("parse_function - No arguments: "@ + s)
            } else {
                match parse_arguments_spec(s.subrange(l + 1, r)) {
                    Ok(ts) => Ok(Term::SFunction(s.subrange(0, l), ts)),
                    Err(e) => Err(e + s),
                }
            },
            Ok(None) => Err("parse_function() - Invalid function: "@ + s),
        },
    }
}

/// What `parse_arguments` gives for a text: the terms separated by commas.
pub open spec fn parse_arguments_spec(s0: Seq<char>) -> Result<Seq<Term>, Seq<char>>
    decreases s0.len(), 5int, 0int,
{
    let c = trim(s0);
    proof {
        lemma_trim_len(s0);
    }
    if c.len() == 0 {
        Err("parse_arguments() - Empty argument list: "@)
    } else if c[0] == ',' {
        Err("parse_arguments() - Missing first argument: "@)
    } else if c.last() == ',' && c[c.len() - 2] != '\\' {
        Err("parse_arguments() - Missing last argument: "@)
    } else {
        args_scan(c, 0, false, false, false, false, 0, 0, 0, Seq::empty(), Seq::empty(), 0)
    }
}

/// The term of one argument, after its quotes are checked.
pub open spec fn argument_term_spec(arg: Seq<char>, nq: int, d: bool, n: bool, p: bool) -> Result<
    Term,
    Seq<char>,
>
    decreases arg.len(), 3int, 0int,
{
    let s2 = trim(arg);
    proof {
        lemma_trim_len(arg);
    }
    match quotes_error(s2, nq as nat) {
        Some(e) => Err(e),
        None => make_term_spec(s2, d, n, p),
    }
}

/// Scans the characters of an argument list from index `i`: `d`, `n`, `p`
/// are the flags of the current argument, `oq` tells whether a quote is
/// open, `nq` counts quote marks, `rd` and `sd` are the depths of
/// parentheses and brackets, `arg` is the current argument, `terms` the
/// terms so far, `start` the index where the current argument began.
pub open spec fn args_scan(
    c: Seq<char>,
    i: int,
    d: bool,
    n: bool,
    p: bool,
    oq: bool,
    nq: int,
    rd: int,
    sd: int,
    arg: Seq<char>,
    terms: Seq<Term>,
    start: int,
) -> Result<Seq<Term>, Seq<char>>
    decreases c.len(), 4int, c.len() - i,
{
    if i < 0 || i >= c.len() {
        let r1 = if start < c.len() {
            if arg.len() <= c.len() {
                match argument_term_spec(arg, nq, d, n, p) {
                    Ok(t) => Ok(terms.push(t)),
                    Err(e) => Err(e),
                }
            } else {
                Err(Seq::empty())
            }
        } else {
            Ok(terms)
        };
        match r1 {
            Err(e) => Err(e),
            Ok(ts) => if rd != 0 {
                Err("parse_arguments() - Unmatched parentheses: "@)
            } else if sd != 0 {
                Err("parse_arguments() - Unmatched brackets: "@)
            } else {
                Ok(ts)
            },
        }
    } else {
        let ch = c[i];
        if oq {
            args_scan(c, i + 1, d, n, p, ch != '"', if ch == '"' { nq + 1 } else { nq }, rd, sd, arg.push(ch), terms, start)
        } else if ch == '[' {
            args_scan(c, i + 1, d, n, p, oq, nq, rd, sd + 1, arg.push(ch), terms, start)
        } else if ch == ']' {
            args_scan(c, i + 1, d, n, p, oq, nq, rd, sd - 1, arg.push(ch), terms, start)
        } else if ch == '(' {
            args_scan(c, i + 1, d, n, p, oq, nq, rd + 1, sd, arg.push(ch), terms, start)
        } else if ch == ')' {
            args_scan(c, i + 1, d, n, p, oq, nq, rd - 1, sd, arg.push(ch), terms, start)
        } else if rd == 0 && sd == 0 {
            if ch == ',' {
                if arg.len() <= c.len() {
                    match argument_term_spec(arg, nq, d, n, p) {
                        Ok(t) => args_scan(c, i + 1, false, false, false, oq, 0, rd, sd, Seq::empty(), terms.push(t), i + 1),
                        Err(e) => Err(e),
                    }
                } else {
                    Err(Seq::empty())
                }
            } else if is_digit(ch) {
                args_scan(c, i + 1, true, n, p, oq, nq, rd, sd, arg.push(ch), terms, start)
            } else if ch == '.' {
                args_scan(c, i + 1, d, n, true, oq, nq, rd, sd, arg.push(ch), terms, start)
            } else if ch == '\\' {
                if i + 1 < c.len() {
                    args_scan(c, i + 2, d, n, p, oq, nq, rd, sd, arg.push(c[i + 1]), terms, start)
                } else {
                    args_scan(c, i + 1, d, n, p, oq, nq, rd, sd, arg.push(ch), terms, start)
                }
            } else if ch == '"' {
                args_scan(c, i + 1, d, n, p, true, nq + 1, rd, sd, arg.push(ch), terms, start)
            } else {
                args_scan(c, i + 1, d, n || ch > ' ', p, oq, nq, rd, sd, arg.push(ch), terms, start)
            }
        } else {
            args_scan(c, i + 1, d, n, p, oq, nq, rd, sd, arg.push(ch), terms, start)
        }
    }
}

/// What `parse_linked_list` gives for a text such as `[a, b | $T]`.
pub open spec fn parse_linked_list_spec(s0: Seq<char>) -> Result<Term, Seq<char>>
    decreases s0.len(), 1int, 0int,
{
    let s = trim(s0);
    proof {
        lemma_trim_len(s0);
    }
    if s.len() < 2 {
        Err(pll_error("String is too short"@, s))
    } else if s[0] != '[' {
        Err(pll_error("Missing opening bracket ["@, s))
    } else if s.last() != ']' {
        Err(pll_error("Missing closing bracket ]"@, s))
    } else if s.len() == 2 {
        Ok(empty_list())
    } else {
        let a = s.subrange(1, s.len() - 1);
        list_scan(a, s, a.len() - 1, false, 0, 0, 0, false, a.len() as int, empty_list())
    }
}

/// The term of one list item (a text between commas), if it is not empty
/// and its quotes are right.
pub open spec fn list_item_spec(a: Seq<char>, s: Seq<char>, from: int, to: int, nq: int) -> Result<
    Term,
    Seq<char>,
>
    decreases a.len(), 3int, 1int,
{
    if 0 <= from <= to <= a.len() {
        let s2 = trim(a.subrange(from, to));
        proof {
            lemma_trim_len(a.subrange(from, to));
        }
        if s2.len() == 0 {
            Err(pll_error("Missing argument"@, s))
        } else {
            match quotes_error(s2, nq as nat) {
                Some(e) => Err(e),
                None => parse_term_spec(s2),
            }
        }
    } else {
        Err(Seq::empty())
    }
}

/// Scans the inside `a` of a list text `s` backwards from index `i`:
/// `oq` tells whether a quote is open, `nq` counts quote marks, `rd` and
/// `sd` are the depths of parentheses and brackets, `vbar` tells whether a
/// vertical bar was seen, `end` is the index where the current item ends,
/// and `list` holds the items after it.
pub open spec fn list_scan(
    a: Seq<char>,
    s: Seq<char>,
    i: int,
    oq: bool,
    nq: int,
    rd: int,
    sd: int,
    vbar: bool,
    end: int,
    list: Term,
) -> Result<Term, Seq<char>>
    decreases a.len(), 4int, i + 1,
{
    if i < 0 || i >= a.len() {
        Err(Seq::empty())
    } else {
        let ee = |ch: char| equal_escape_spec(a, i, ch);
        // the state after index i
        let step: Result<(bool, int, int, int, bool, int, Term), Seq<char>> = if oq {
            if ee('"') {
                Ok((false, nq + 1, rd, sd, vbar, end, list))
            } else {
                Ok((oq, nq, rd, sd, vbar, end, list))
            }
        } else if ee(']') {
            Ok((oq, nq, rd, sd + 1, vbar, end, list))
        } else if ee('[') {
            Ok((oq, nq, rd, sd - 1, vbar, end, list))
        } else if ee(')') {
            Ok((oq, nq, rd + 1, sd, vbar, end, list))
        } else if ee('(') {
            Ok((oq, nq, rd - 1, sd, vbar, end, list))
        } else if rd == 0 && sd == 0 {
            if ee('"') {
                Ok((true, nq + 1, rd, sd, vbar, end, list))
            } else if ee(',') {
                match list_item_spec(a, s, i + 1, end, nq) {
                    Ok(t) => Ok((oq, 0, rd, sd, vbar, i, link_front_spec(t, false, list))),
                    Err(e) => Err(e),
                }
            } else if ee('|') {
                if vbar {
                    Err(pll_error("Too many vertical bars"@, s))
                } else if !(0 <= i + 1 <= end <= a.len()) {
                    Err(Seq::empty())
                } else {
                    let ts = trim(a.subrange(i + 1, end));
                    if ts.len() == 0 {
                        Err(pll_error("Missing argument"@, s))
                    } else if mlv_check(trim(ts)) is Some {
                        Err(pll_error("Require variable after vertical bar"@, s))
                    } else {
                        Ok((oq, nq, rd, sd, true, i, link_front_spec(Term::LogicVar(0, trim(ts)), true, list)))
                    }
                }
            } else {
                Ok((oq, nq, rd, sd, vbar, end, list))
            }
        } else {
            Ok((oq, nq, rd, sd, vbar, end, list))
        };
        match step {
            Err(e) => Err(e),
            Ok((oq2, nq2, rd2, sd2, vbar2, end2, list2)) => if i == 0 {
                match list_item_spec(a, s, 0, end2, nq2) {
                    Ok(t) => Ok(link_front_spec(t, false, list2)),
                    Err(e) => Err(e),
                }
            } else {
                list_scan(a, s, i - 1, oq2, nq2, rd2, sd2, vbar2, end2, list2)
            },
        }
    }
}

/// The indices that `indices_of_parentheses` gives are in order and within
/// the text.
pub proof fn lemma_parentheses_spec(s: Seq<char>)
    ensures
        parentheses_spec(s) matches Ok(Some((l, r))) ==> 0 <= l < r < s.len(),
{
    crate::infix::lemma_next_index_of(s, 0, '(');
    crate::parse_goals::lemma_last_index_before(s, s.len() as int, ')');
}


/// A longer prefix of digits has at least the value of a shorter one.
proof fn lemma_digits_value_mono(s: Seq<char>, k: int)
    requires
        0 <= k <= s.len(),
    ensures
        digits_value(s.subrange(0, k)) <= digits_value(s),
    decreases s.len() - k,
{
    if k < s.len() {
        lemma_digits_value_mono(s, k + 1);
        let t = s.subrange(0, k + 1);
        assert(t.drop_last() =~= s.subrange(0, k));
    } else {
        assert(s.subrange(0, k) =~= s);
    }
}

/// Reads an `i64` from the text as `str::parse::<i64>` does: an optional
/// sign and one or more digits, within range.
pub fn parse_i64(s: &Vec<char>) -> (r: Option<i64>)
    ensures
        r == i64_text_value(s@),
{
    let n = s.len();
    if n == 0 {
        return None;
    }
    let neg = s[0] == '-';
    let start: usize = if s[0] == '+' || s[0] == '-' {
        1
    } else {
        0
    };
    let ghost body = unsigned_part(s@);
    assert(body =~= s@.subrange(start as int, n as int));
    if start >= n {
        return None;
    }
    let mut v: u128 = 0;
    let mut i: usize = start;
    while i < n
        invariant
            start <= i <= n,
            n == s@.len(),
            body == unsigned_part(s@),
            body == s@.subrange(start as int, n as int),
            v == digits_value(body.subrange(0, i - start)),
            v <= 0x8000_0000_0000_0000u128,
            forall|k: int| 0 <= k < i - start ==> is_digit(#[trigger] body[k]),
        decreases n - i,
    {
        let c = s[i];
        if !(c >= '0' && c <= '9') {
            assert(!is_digit(body[i - start]));
            assert(!all_digits(body));
            return None;
        }
        let ghost pre = body.subrange(0, i - start);
        let ghost next = body.subrange(0, i - start + 1);
        assert(next.drop_last() =~= pre);
        assert(next.last() == c);
        let dgt = (c as u32 - '0' as u32) as u128;
        assert(dgt == ((c as nat) - ('0' as nat)) as nat);
        v = v * 10 + dgt;
        assert(v == digits_value(next));
        if v > 0x8000_0000_0000_0000u128 {
            proof {
                lemma_digits_value_mono(body, i - start + 1);
                assert(digits_value(body) > 0x8000_0000_0000_0000u128);
            }
            return None;
        }
        i = i + 1;
    }
    assert(body.subrange(0, n - start) =~= body);
    assert(all_digits(body));
    if neg {
        if v == 0x8000_0000_0000_0000u128 {
            return Some(i64::MIN);
        }
        let m = v as i64;
        Some(-m)
    } else {
        if v > 0x7fff_ffff_ffff_ffffu128 {
            return None;
        }
        Some(v as i64)
    }
}

/// Are all characters of `s[from..to]` digits or periods, with at most
/// one period and at least one digit?
fn mantissa_check(s: &Vec<char>, from: usize, to: usize) -> (r: bool)
    requires
        from <= to <= s@.len(),
    ensures
        r == mantissa_ok(s@.subrange(from as int, to as int)),
{
    let ghost m = s@.subrange(from as int, to as int);
    let mut points: usize = 0;
    let mut digit = false;
    let mut i: usize = from;
    while i < to
        invariant
            from <= i <= to,
            to <= s@.len(),
            m == s@.subrange(from as int, to as int),
            points as nat == crate::parse_goals::count_char(m.subrange(0, i - from), '.'),
            points <= 1,
            forall|k: int| 0 <= k < i - from ==> is_digit(#[trigger] m[k]) || m[k] == '.',
            digit <==> exists|k: int| 0 <= k < i - from && is_digit(#[trigger] m[k]),
        decreases to - i,
    {
        let c = s[i];
        let ghost pre = m.subrange(0, i - from);
        let ghost next = m.subrange(0, i - from + 1);
        assert(next.drop_last() =~= pre);
        assert(m[i - from] == c);
        if c >= '0' && c <= '9' {
            digit = true;
        } else if c == '.' {
            if points == 1 {
                proof {
                    lemma_count_prefix(m, i - from + 1, '.');
                }
                return false;
            }
            points = points + 1;
        } else {
            return false;
        }
        i = i + 1;
    }
    assert(m.subrange(0, i - from) =~= m);
    digit
}

/// A prefix has no more occurrences of a character than the whole.
proof fn lemma_count_prefix(s: Seq<char>, k: int, c: char)
    requires
        0 <= k <= s.len(),
    ensures
        crate::parse_goals::count_char(s.subrange(0, k), c) <= crate::parse_goals::count_char(s, c),
    decreases s.len() - k,
{
    if k < s.len() {
        lemma_count_prefix(s, k + 1, c);
        assert(s.subrange(0, k + 1).drop_last() =~= s.subrange(0, k));
    } else {
        assert(s.subrange(0, k) =~= s);
    }
}

/// Does `s[from..]`, in ASCII lower case, read `word`?
fn lower_equals(s: &Vec<char>, from: usize, word: &str) -> (r: bool)
    requires
        from <= s@.len(),
    ensures
        r == (s@.subrange(from as int, s@.len() as int).map_values(|c: char| ascii_lower(c)) == word@),
{
    let w = str_to_chars(word);
    let ghost l = s@.subrange(from as int, s@.len() as int).map_values(|c: char| ascii_lower(c));
    if s.len() - from != w.len() {
        return false;
    }
    let mut i: usize = 0;
    let mut j: usize = from;
    while i < w.len()
        invariant
            from <= s@.len(),
            from + w@.len() == s@.len(),
            j == from + i,
            w@ == word@,
            l == s@.subrange(from as int, s@.len() as int).map_values(|c: char| ascii_lower(c)),
            i <= w@.len(),
            forall|k: int| 0 <= k < i ==> l[k] == w@[k],
        decreases w@.len() - i,
    {
        let c = s[j];
        let lc = if c >= 'A' && c <= 'Z' {
            ((c as u32) + 32) as u8 as char
        } else {
            c
        };
        assert(l[i as int] == ascii_lower(c));
        if lc != w[i] {
            return false;
        }
        assert(j < s@.len());
        assert(s@.len() == s.len());
        i = i + 1;
        j = j + 1;
    }
    assert(l =~= w@);
    true
}

/// Does `str::parse::<f64>` accept the text?
pub fn is_float_chars(s: &Vec<char>) -> (r: bool)
    ensures
        r == is_float_text(s@),
{
    let n = s.len();
    let start: usize = if n > 0 && (s[0] == '+' || s[0] == '-') {
        1
    } else {
        0
    };
    let ghost b = unsigned_part(s@);
    assert(b =~= s@.subrange(start as int, n as int));
    if lower_equals(s, start, "inf") || lower_equals(s, start, "infinity") || lower_equals(s, start, "nan") {
        return true;
    }
    let mut e: usize = start;
    while e < n && s[e] != 'e' && s[e] != 'E'
        invariant
            start <= e <= n,
            n == s@.len(),
            b == s@.subrange(start as int, n as int),
            exponent_index(b, 0) == exponent_index(b, e - start),
        decreases n - e,
    {
        e = e + 1;
    }
    if e == n {
        assert(exponent_index(b, e - start) == -1);
        return mantissa_check(s, start, n);
    }
    assert(exponent_index(b, 0) == e - start);
    assert(b.subrange(0, e - start) =~= s@.subrange(start as int, e as int));
    let m = mantissa_check(s, start, e);
    if !m {
        return false;
    }
    let ghost xs = b.subrange(e - start + 1, b.len() as int);
    assert(xs =~= s@.subrange(e + 1, n as int));
    let mut k: usize = e + 1;
    if k < n && (s[k] == '+' || s[k] == '-') {
        k = k + 1;
    }
    let ghost x = unsigned_part(xs);
    assert(x =~= s@.subrange(k as int, n as int));
    assert(is_float_text(s@) == (x.len() > 0 && all_digits(x)));
    if k >= n {
        return false;
    }
    let mut j: usize = k;
    while j < n
        invariant
            k <= j <= n,
            n == s@.len(),
            x == s@.subrange(k as int, n as int),
            x.len() > 0,
            is_float_text(s@) == all_digits(x),
            forall|q: int| 0 <= q < j - k ==> is_digit(#[trigger] x[q]),
        decreases n - j,
    {
        if !(s[j] >= '0' && s[j] <= '9') {
            assert(!is_digit(x[j - k]));
            assert(!all_digits(x));
            return false;
        }
        j = j + 1;
    }
    true
}

/// The model of a parse result.
pub open spec fn term_result_view(r: Result<Unifiable, String>) -> Result<Term, Seq<char>> {
    match r {
        Ok(u) => Ok(u@),
        Err(e) => Err(e@),
    }
}

/// The model of the result of `parse_arguments`.
pub open spec fn terms_result_view(r: Result<Vec<Unifiable>, String>) -> Result<Seq<Term>, Seq<char>> {
    match r {
        Ok(v) => Ok(terms_view(v@)),
        Err(e) => Err(e@),
    }
}

/// The model of the result of `get_left_and_right`.
pub open spec fn pair_result_view(r: Result<(Unifiable, Unifiable), String>) -> Result<
    (Term, Term),
    Seq<char>,
> {
    match r {
        Ok((a, b)) => Ok((a@, b@)),
        Err(e) => Err(e@),
    }
}

/// An error message: `a`, `b`, a colon and a space, then `c`.
pub fn text3(a: &str, b: &str, c: &[char]) -> (m: String)
    ensures
        m@ == a@ + b@ + ": "@ + c@,
{
    let mut v: Vec<char> = Vec::new();
    append_str(&mut v, a);
    append_str(&mut v, b);
    append_str(&mut v, ": ");
    append_chars(&mut v, c);
    chars_to_string(&v)
}

/// A text with a character which is not whitespace does not trim to nothing.
pub proof fn lemma_trim_nonempty(s: Seq<char>, k: int)
    requires
        0 <= k < s.len(),
        !is_white_space(s[k]),
    ensures
        trim(s).len() > 0,
{
    lemma_trim_front_keeps(s, k);
    let f = crate::text::trim_front(s);
    let j = f.len() - (s.len() - k);
    lemma_trim_back_keeps(f, j);
}

proof fn lemma_trim_front_keeps(s: Seq<char>, k: int)
    requires
        0 <= k < s.len(),
        !is_white_space(s[k]),
    ensures
        crate::text::trim_front(s).len() >= s.len() - k,
        crate::text::trim_front(s)[crate::text::trim_front(s).len() - (s.len() - k)] == s[k],
    decreases s.len(),
{
    if s.len() > 0 && is_white_space(s[0]) {
        assert(k > 0);
        assert(s.drop_first()[k - 1] == s[k]);
        lemma_trim_front_keeps(s.drop_first(), k - 1);
    }
}

proof fn lemma_trim_back_keeps(f: Seq<char>, j: int)
    requires
        0 <= j < f.len(),
        !is_white_space(f[j]),
    ensures
        crate::text::trim_back(f).len() > j,
    decreases f.len(),
{
    if f.len() > 0 && is_white_space(f.last()) {
        assert(j < f.len() - 1);
        assert(f.drop_last()[j] == f[j]);
        lemma_trim_back_keeps(f.drop_last(), j);
    }
}

/// The model of the empty list.
pub proof fn lemma_empty_list_view()
    ensures
        (Unifiable::SLinkedList {
            term: Box::new(Unifiable::Nil),
            next: Box::new(Unifiable::Nil),
            count: 0,
            tail_var: false,
        })@ == empty_list(),
{
    assert(term_view(Unifiable::Nil) == Term::Nil);
}

/// Puts a new node in front of a list.
fn link_front(new_term: Unifiable, tail: bool, list: Unifiable) -> (r: Unifiable)
    requires
        list@ is SLinkedList,
        list@->SLinkedList_2 < usize::MAX,
    ensures
        r@ == link_front_spec(new_term@, tail, list@),
{
    match list {
        Unifiable::SLinkedList { count, .. } => {
            let c = count;
            proof {
                crate::unifiable::lemma_view_kind(list);
            }
            Unifiable::SLinkedList {
                term: Box::new(new_term),
                next: Box::new(list),
                count: c + 1,
                tail_var: tail,
            }
        },
        _ => {
            proof {
                crate::unifiable::lemma_view_kind(list);
            }
            list
        },
    }
}

/// Makes a term from a string, given flags which tell whether the string
/// has digits, other characters, and a period. Quoted text gives an atom;
/// `[...]` a list; `name(...)` a complex term or a built-in function; a
/// number an integer or a float; `$X` a logic variable; `$_` the anonymous
/// variable; anything else an atom.
fn make_term(to_parse: &str, has_digit: bool, has_non_digit: bool, has_period: bool) -> (r: Result<
    Unifiable,
    String,
>)
    ensures
        term_result_view(r) == make_term_spec(to_parse@, has_digit, has_non_digit, has_period),
    decreases to_parse@.len(), 2int, 0int,
{
    let v = str_to_chars(to_parse);
    let t = trim_chars(&v);
    let s = chars_to_string(&t);
    proof {
        lemma_trim_len(to_parse@);
        reveal_strlit("$_");
    }
    let n = t.len();
    if n == 0 {
        return Err(text3("make_term() - ", "Length of term is 0", &t));
    }
    if t[0] == '$' {
        if n == 2 && t[1] == '_' {
            assert(t@ =~= "$_"@);
            return Ok(Unifiable::Anonymous);
        }
        assert(t@ != "$_"@);
        let name = chars_to_string(&t);
        match crate::logic_var::make_logic_var(name) {
            Ok(var) => {
                return Ok(var);
            },
            Err(_) => {
                return Ok(Unifiable::Atom(s));
            },
        }
    }
    if n >= 2 {
        let first = t[0];
        let last = t[n - 1];
        if first == '"' {
            if last == '"' {
                if n == 2 {
                    return Err(text3("make_term() - ", "Invalid term. Length is 0", &t));
                }
                let inner = crate::text::sub_chars(&t, 1, n - 1);
                return Ok(Unifiable::Atom(chars_to_string(&inner)));
            } else {
                return Err(text3("make_term() - ", "Invalid term. Unmatched quote mark", &t));
            }
        } else if first == '[' && last == ']' {
            return parse_linked_list(s.as_str());
        } else if first != '(' && last == ')' {
            let a1 = str_to_chars("add(");
            let a2 = str_to_chars("subtract(");
            let a3 = str_to_chars("multiply(");
            let a4 = str_to_chars("divide(");
            let a5 = str_to_chars("join(");
            if crate::text::chars_starts_with(&t, &a1) || crate::text::chars_starts_with(&t, &a2)
                || crate::text::chars_starts_with(&t, &a3) || crate::text::chars_starts_with(&t, &a4)
                || crate::text::chars_starts_with(&t, &a5) {
                return parse_function(s.as_str());
            }
            return parse_complex(s.as_str());
        }
    }
    if has_digit && !has_non_digit {
        if has_period {
            if is_float_chars(&t) {
                return Ok(Unifiable::SFloat(s));
            }
            return Ok(Unifiable::Atom(s));
        } else {
            match parse_i64(&t) {
                Some(i) => {
                    return Ok(Unifiable::SInteger(i));
                },
                None => {
                    return Ok(Unifiable::Atom(s));
                },
            }
        }
    }
    Ok(Unifiable::Atom(s))
}

/// Parses a string into a term. An arithmetic infix (`$X + 1`, with
/// spaces around the operator) gives the built-in function of the infix
/// applied to both sides.
pub fn parse_term(to_parse: &str) -> (r: Result<Unifiable, String>)
    ensures
        term_result_view(r) == parse_term_spec(to_parse@),
    decreases to_parse@.len(), 3int, 0int,
{
    let v = str_to_chars(to_parse);
    let t = trim_chars(&v);
    proof {
        lemma_trim_len(to_parse@);
    }
    let (inf, index) = check_arithmetic_infix(&t);
    let is_arith = match inf {
        Infix::Plus | Infix::Minus | Infix::Multiply | Infix::Divide => true,
        _ => false,
    };
    if is_arith && index < t.len() {
        let name = match inf {
            Infix::Plus => "add",
            Infix::Minus => "subtract",
            Infix::Multiply => "multiply",
            _ => "divide",
        };
        let fname = chars_to_string(&str_to_chars(name));
        let tl = t.len();
        match get_left_and_right(t, index, 1) {
            Ok((l, r)) => {
                let mut terms: Vec<Unifiable> = Vec::new();
                terms.push(l);
                terms.push(r);
                proof {
                    crate::unifiable::lemma_function_view(fname, terms);
                    assert(terms_view(terms@) =~= seq![terms@[0]@, terms@[1]@]);
                }
                return Ok(Unifiable::SFunction { name: fname, terms });
            },
            Err(e) => {
                return Err(e);
            },
        }
    }
    let mut d = false;
    let mut nd = false;
    let mut p = false;
    let mut i: usize = 0;
    while i < t.len()
        invariant
            i <= t@.len(),
            (d, nd, p) == term_flags(t@.subrange(0, i as int)),
        decreases t@.len() - i,
    {
        let ch = t[i];
        assert(t@.subrange(0, i + 1).drop_last() =~= t@.subrange(0, i as int));
        if ch != '\\' {
            if ch >= '0' && ch <= '9' {
                d = true;
            } else if ch == '.' {
                p = true;
            } else {
                nd = true;
            }
        }
        i = i + 1;
    }
    assert(t@.subrange(0, i as int) =~= t@);
    let u = unescape_chars(&t);
    proof {
        lemma_unescape_len(t@);
    }
    let s = chars_to_string(&u);
    make_term(s.as_str(), d, nd, p)
}

/// Parses the text before and after an infix of `size` characters at
/// `index` into two terms.
pub fn get_left_and_right(chrs: Vec<char>, index: usize, size: usize) -> (r: Result<
    (Unifiable, Unifiable),
    String,
>)
    requires
        0 < size,
        index + size <= chrs@.len(),
    ensures
        pair_result_view(r) == left_and_right_spec(chrs@, index as int, size as int),
    decreases chrs@.len(), 2int, 0int,
{
    assert(chrs@.len() == chrs.len());
    let a1 = crate::text::sub_chars(&chrs, 0, index);
    let a2 = crate::text::sub_chars(&chrs, index + size, chrs.len());
    let s1 = chars_to_string(&a1);
    let s2 = chars_to_string(&a2);
    let t1 = match parse_term(s1.as_str()) {
        Ok(t) => t,
        Err(e) => {
            return Err(e);
        },
    };
    let t2 = match parse_term(s2.as_str()) {
        Ok(t) => t,
        Err(e) => {
            return Err(e);
        },
    };
    Ok((t1, t2))
}

/// Makes a complex term from a functor and the text of its arguments.
/// With no arguments text, the complex term has the functor alone.
pub fn parse_functor_terms(functor: &str, terms: &str) -> (r: Result<Unifiable, String>)
    ensures
        term_result_view(r) == functor_terms_spec(functor@, terms@),
    decreases terms@.len(), 6int, 0int,
{
    let f = crate::text::trim_str(functor);
    let mut new_terms: Vec<Unifiable> = Vec::new();
    new_terms.push(Unifiable::Atom(f));
    if terms.unicode_len() == 0 {
        proof {
            crate::unifiable::lemma_complex_view(new_terms);
            assert(terms_view(new_terms@) =~= seq![Term::Atom(trim(functor@))]);
        }
        return Ok(Unifiable::SComplex(new_terms));
    }
    match parse_arguments(terms) {
        Ok(ts) => {
            let ghost tv = terms_view(ts@);
            let ghost first = terms_view(new_terms@);
            let mut ts2 = ts;
            new_terms.append(&mut ts2);
            proof {
                crate::unifiable::lemma_complex_view(new_terms);
                assert(terms_view(new_terms@) =~= seq![Term::Atom(trim(functor@))] + tv);
            }
            Ok(Unifiable::SComplex(new_terms))
        },
        Err(e) => Err(e),
    }
}

/// Parses a complex term, eg. `symptom(flu, $Symp)`. A string without
/// parentheses gives a complex term with a functor alone.
pub fn parse_complex(to_parse: &str) -> (r: Result<Unifiable, String>)
    ensures
        term_result_view(r) == parse_complex_spec(to_parse@),
    decreases to_parse@.len(), 1int, 0int,
{
    let v = str_to_chars(to_parse);
    let t = trim_chars(&v);
    let s = chars_to_string(&t);
    proof {
        lemma_trim_len(to_parse@);
        lemma_parentheses_spec(t@);
        reveal_strlit("");
    }
    match crate::s_complex::validate_complex(s.as_str(), &t) {
        Some(m) => {
            return Err(m);
        },
        None => {},
    }
    match crate::parse_goals::indices_of_parentheses(&t) {
        Err(e) => Err(e),
        Ok(Some((left, right))) => {
            let (functor, args) = crate::parse_goals::split_complex_term(&t, left, right);
            match parse_functor_terms(functor.as_str(), args.as_str()) {
                Ok(c) => Ok(c),
                Err(e) => {
                    let mut m = str_to_chars(e.as_str());
                    append_str(&mut m, to_parse);
                    Err(chars_to_string(&m))
                },
            }
        },
        Ok(None) => {
            match parse_functor_terms(s.as_str(), "") {
                Ok(c) => Ok(c),
                Err(e) => {
                    let mut m = str_to_chars(e.as_str());
                    m.push(' ');
                    append_str(&mut m, to_parse);
                    Err(chars_to_string(&m))
                },
            }
        },
    }
}

/// Parses a built-in function, eg. `add(5, 6, 7)`.
pub fn parse_function(to_parse: &str) -> (r: Result<Unifiable, String>)
    ensures
        term_result_view(r) == parse_function_spec(to_parse@),
    decreases to_parse@.len(), 1int, 0int,
{
    let v = str_to_chars(to_parse);
    let t = trim_chars(&v);
    let s = chars_to_string(&t);
    proof {
        lemma_trim_len(to_parse@);
        lemma_parentheses_spec(t@);
    }
    match crate::s_complex::validate_complex(s.as_str(), &t) {
        Some(m) => {
            return Err(m);
        },
        None => {},
    }
    match crate::parse_goals::indices_of_parentheses(&t) {
        Err(e) => Err(e),
        Ok(Some((left, right))) => {
            let (name, args) = crate::parse_goals::split_complex_term(&t, left, right);
            if right == left + 1 {
                return Err(crate::tokenizer::message("parse_function - No arguments: ", &t));
            }
            match parse_arguments(args.as_str()) {
                Ok(terms) => {
                    proof {
                        crate::unifiable::lemma_function_view(name, terms);
                    }
                    Ok(Unifiable::SFunction { name, terms })
                },
                Err(e) => {
                    let mut m = str_to_chars(e.as_str());
                    append_chars(&mut m, &t);
                    Err(chars_to_string(&m))
                },
            }
        },
        Ok(None) => Err(crate::tokenizer::message("parse_function() - Invalid function: ", &t)),
    }
}

/// Makes the term of one argument, after checking its quotes.
fn argument_term(arg: &Vec<char>, nq: usize, d: bool, n: bool, p: bool) -> (r: Result<Unifiable, String>)
    requires
        nq > 0 ==> exists|k: int| 0 <= k < arg@.len() && arg@[k] == '"',
    ensures
        term_result_view(r) == argument_term_spec(arg@, nq as int, d, n, p),
    decreases arg@.len(), 3int, 0int,
{
    let t = trim_chars(arg);
    proof {
        lemma_trim_len(arg@);
        if nq > 0 {
            let k = choose|k: int| 0 <= k < arg@.len() && arg@[k] == '"';
            lemma_trim_nonempty(arg@, k);
        }
    }
    let s2 = chars_to_string(&t);
    match check_quotes(s2.as_str(), nq) {
        Some(e) => {
            return Err(e);
        },
        None => {},
    }
    make_term(s2.as_str(), d, n, p)
}

/// Parses a comma separated list of arguments into a vector of terms,
/// eg. `"Sophie", "Matthew", $X` gives three terms. Commas inside quotes,
/// parentheses and brackets do not separate; a backslash escapes the next
/// character.
pub fn parse_arguments(to_parse: &str) -> (r: Result<Vec<Unifiable>, String>)
    ensures
        terms_result_view(r) == parse_arguments_spec(to_parse@),
    decreases to_parse@.len(), 5int, 0int,
{
    let v = str_to_chars(to_parse);
    let c = trim_chars(&v);
    proof {
        lemma_trim_len(to_parse@);
    }
    let n = c.len();
    if n == 0 {
        return Err(chars_to_string(&str_to_chars("parse_arguments() - Empty argument list: ")));
    }
    if c[0] == ',' {
        return Err(chars_to_string(&str_to_chars("parse_arguments() - Missing first argument: ")));
    }
    if c[n - 1] == ',' {
        if c[n - 2] != '\\' {
            return Err(chars_to_string(&str_to_chars("parse_arguments() - Missing last argument: ")));
        }
    }
    let mut d = false;
    let mut nd = false;
    let mut p = false;
    let mut oq = false;
    let mut nq: usize = 0;
    let mut rd: i128 = 0;
    let mut sd: i128 = 0;
    let mut arg: Vec<char> = Vec::new();
    let mut term_list: Vec<Unifiable> = Vec::new();
    let mut start: usize = 0;
    let mut i: usize = 0;
    assert(terms_view(term_list@) =~= Seq::<Term>::empty());
    assert(parse_arguments_spec(to_parse@) == args_scan(c@, 0, false, false, false, false, 0, 0, 0, Seq::empty(), Seq::empty(), 0));
    while i < n
        invariant
            parse_arguments_spec(to_parse@) == args_scan(c@, 0, false, false, false, false, 0, 0, 0, Seq::empty(), Seq::empty(), 0),
            n == c@.len(),
            n <= to_parse@.len(),
            i <= n,
            start <= n,
            arg@.len() <= i,
            nq <= i,
            -(i as int) <= rd <= i,
            -(i as int) <= sd <= i,
            nq > 0 ==> exists|k: int| 0 <= k < arg@.len() && arg@[k] == '"',
            args_scan(c@, i as int, d, nd, p, oq, nq as int, rd as int, sd as int, arg@, terms_view(term_list@), start as int)
                == args_scan(c@, 0, false, false, false, false, 0, 0, 0, Seq::empty(), Seq::empty(), 0),
        decreases n - i,
    {
        let ch = c[i];
        let ghost arg0 = arg@;
        let ghost nq0 = nq;
        if oq {
            arg.push(ch);
            if ch == '"' {
                oq = false;
                nq = nq + 1;
            }
            assert(arg@[arg0.len() as int] == ch);
        } else if ch == '[' {
            arg.push(ch);
            sd = sd + 1;
        } else if ch == ']' {
            arg.push(ch);
            sd = sd - 1;
        } else if ch == '(' {
            arg.push(ch);
            rd = rd + 1;
        } else if ch == ')' {
            arg.push(ch);
            rd = rd - 1;
        } else if rd == 0 && sd == 0 {
            if ch == ',' {
                let ghost tv = terms_view(term_list@);
                match argument_term(&arg, nq, d, nd, p) {
                    Err(e) => {
                        return Err(e);
                    },
                    Ok(term) => {
                        term_list.push(term);
                        assert(terms_view(term_list@) =~= tv.push(term@));
                        arg = Vec::new();
                        d = false;
                        nd = false;
                        p = false;
                        nq = 0;
                        start = i + 1;
                    },
                }
            } else if ch >= '0' && ch <= '9' {
                arg.push(ch);
                d = true;
            } else if ch == '.' {
                arg.push(ch);
                p = true;
            } else if ch == '\\' {
                if i + 1 < n {
                    i = i + 1;
                    arg.push(c[i]);
                } else {
                    arg.push(ch);
                }
            } else if ch == '"' {
                arg.push(ch);
                oq = true;
                nq = nq + 1;
                assert(arg@[arg0.len() as int] == '"');
            } else {
                arg.push(ch);
                if ch > ' ' {
                    nd = true;
                }
            }
        } else {
            arg.push(ch);
        }
        proof {
            if nq0 > 0 && nq > 0 && arg@.len() > arg0.len() {
                let k = choose|k: int| 0 <= k < arg0.len() && arg0[k] == '"';
                assert(arg@[k] == arg0[k]);
            }
        }
        i = i + 1;
    }
    if start < n {
        let ghost tv = terms_view(term_list@);
        match argument_term(&arg, nq, d, nd, p) {
            Err(e) => {
                return Err(e);
            },
            Ok(term) => {
                term_list.push(term);
                assert(terms_view(term_list@) =~= tv.push(term@));
            },
        }
    }
    if rd != 0 {
        return Err(chars_to_string(&str_to_chars("parse_arguments() - Unmatched parentheses: ")));
    }
    if sd != 0 {
        return Err(chars_to_string(&str_to_chars("parse_arguments() - Unmatched brackets: ")));
    }
    Ok(term_list)
}

/// Parses one item of a list text (between commas).
fn list_item(a: &Vec<char>, s: &Vec<char>, from: usize, to: usize, nq: usize) -> (r: Result<
    Unifiable,
    String,
>)
    requires
        from <= to <= a@.len(),
    ensures
        term_result_view(r) == list_item_spec(a@, s@, from as int, to as int, nq as int),
    decreases a@.len(), 3int, 1int,
{
    let sub = crate::text::sub_chars(a, from, to);
    let t = trim_chars(&sub);
    proof {
        lemma_trim_len(sub@);
    }
    if t.len() == 0 {
        return Err(text3("parse_linked_list() - ", "Missing argument", s));
    }
    let s2 = chars_to_string(&t);
    match check_quotes(s2.as_str(), nq) {
        Some(e) => {
            return Err(e);
        },
        None => {},
    }
    parse_term(s2.as_str())
}

/// Parses a list, eg. `[a, b, c]` or `[$Head | $Tail]`, into a linked list.
/// An item after a vertical bar must be a logic variable (the tail).
pub fn parse_linked_list(to_parse: &str) -> (r: Result<Unifiable, String>)
    ensures
        term_result_view(r) == parse_linked_list_spec(to_parse@),
    decreases to_parse@.len(), 1int, 0int,
{
    let v = str_to_chars(to_parse);
    let s = trim_chars(&v);
    proof {
        lemma_trim_len(to_parse@);
    }
    let len = s.len();
    if len < 2 {
        return Err(text3("parse_linked_list() - ", "String is too short", &s));
    }
    if s[0] != '[' {
        return Err(text3("parse_linked_list() - ", "Missing opening bracket [", &s));
    }
    if s[len - 1] != ']' {
        return Err(text3("parse_linked_list() - ", "Missing closing bracket ]", &s));
    }
    let mut list = Unifiable::SLinkedList {
        term: Box::new(Unifiable::Nil),
        next: Box::new(Unifiable::Nil),
        count: 0,
        tail_var: false,
    };
    proof {
        lemma_empty_list_view();
    }
    if len == 2 {
        return Ok(list);
    }
    let a = crate::text::sub_chars(&s, 1, len - 1);
    let la = a.len();
    let mut vbar = false;
    let mut end_index: usize = la;
    let mut oq = false;
    let mut nq: usize = 0;
    let mut rd: i128 = 0;
    let mut sd: i128 = 0;
    let mut i: usize = la - 1;
    proof {
        lemma_empty_list_view();
    }
    assert(a@ == s@.subrange(1, s@.len() - 1));
    assert(parse_linked_list_spec(to_parse@) == list_scan(a@, s@, la - 1, false, 0, 0, 0, false, la as int, empty_list()));
    loop
        invariant
            parse_linked_list_spec(to_parse@) == list_scan(a@, s@, la - 1, false, 0, 0, 0, false, la as int, empty_list()),
            la == a@.len(),
            la > 0,
            la < to_parse@.len(),
            i < la,
            i < end_index <= la,
            nq <= la - i - 1,
            -(la - i - 1) <= rd <= la - i - 1,
            -(la - i - 1) <= sd <= la - i - 1,
            list@ is SLinkedList,
            list@->SLinkedList_2 <= la - i - 1,
            list_scan(a@, s@, i as int, oq, nq as int, rd as int, sd as int, vbar, end_index as int, list@)
                == list_scan(a@, s@, la - 1, false, 0, 0, 0, false, la as int, empty_list()),
        decreases i,
    {
        if oq {
            if crate::s_linked_list::equal_escape(&a, i, '"') {
                oq = false;
                nq = nq + 1;
            }
        } else if crate::s_linked_list::equal_escape(&a, i, ']') {
            sd = sd + 1;
        } else if crate::s_linked_list::equal_escape(&a, i, '[') {
            sd = sd - 1;
        } else if crate::s_linked_list::equal_escape(&a, i, ')') {
            rd = rd + 1;
        } else if crate::s_linked_list::equal_escape(&a, i, '(') {
            rd = rd - 1;
        } else if rd == 0 && sd == 0 {
            if crate::s_linked_list::equal_escape(&a, i, '"') {
                oq = true;
                nq = nq + 1;
            } else if crate::s_linked_list::equal_escape(&a, i, ',') {
                match list_item(&a, &s, i + 1, end_index, nq) {
                    Ok(term) => {
                        list = link_front(term, false, list);
                        end_index = i;
                    },
                    Err(e) => {
                        return Err(e);
                    },
                }
                nq = 0;
            } else if crate::s_linked_list::equal_escape(&a, i, '|') {
                if vbar {
                    return Err(text3("parse_linked_list() - ", "Too many vertical bars", &s));
                }
                let sub = crate::text::sub_chars(&a, i + 1, end_index);
                let ts = trim_chars(&sub);
                if ts.len() == 0 {
                    return Err(text3("parse_linked_list() - ", "Missing argument", &s));
                }
                match crate::logic_var::make_logic_var(chars_to_string(&ts)) {
                    Err(_) => {
                        return Err(
                            text3("parse_linked_list() - ", "Require variable after vertical bar", &s),
                        );
                    },
                    Ok(var) => {
                        list = link_front(var, true, list);
                    },
                }
                vbar = true;
                end_index = i;
            }
        }
        if i == 0 {
            match list_item(&a, &s, 0, end_index, nq) {
                Ok(term) => {
                    return Ok(link_front(term, false, list));
                },
                Err(e) => {
                    return Err(e);
                },
            }
        }
        i = i - 1;
    }
}
} // verus!
