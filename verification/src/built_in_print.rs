//! Support for the built-in predicate print().
use vstd::prelude::*;
use crate::text::{chars_to_string, append_str};

verus! {

/// Does `"%s"` occur in `s` at index `i`?
pub open spec fn specifier_at(s: Seq<char>, i: int) -> bool {
    0 <= i && i + 1 < s.len() && s[i] == '%' && s[i + 1] == 's'
}

/// The first occurrence of `"%s"` at or after `from`, or -1.
pub open spec fn next_specifier(s: Seq<char>, from: int) -> int
    decreases s.len() - from,
{
    if from < 0 || from + 1 >= s.len() {
        -1
    } else if specifier_at(s, from) {
        from
    } else {
        next_specifier(s, from + 1)
    }
}

/// The pieces of `s[from..]` between the format specifiers `%s`
/// (what `str::split("%s")` gives).
pub open spec fn split_pieces(s: Seq<char>, from: int) -> Seq<Seq<char>>
    decreases s.len() - from,
{
    let p = next_specifier(s, from);
    proof {
        if from >= 0 {
            lemma_next_specifier(s, from);
        }
    }
    if from < 0 || p < from {
        seq![s.subrange(from, s.len() as int)]
    } else {
        seq![s.subrange(from, p)] + split_pieces(s, p + 2)
    }
}

/// The output of print: the pieces of the format string, with the other
/// strings put in place of the specifiers, in turn, from index `k` on;
/// leftover strings or pieces follow.
pub open spec fn interleave(pieces: Seq<Seq<char>>, strs: Seq<Seq<char>>, k: int) -> Seq<char>
    decreases (if pieces.len() > strs.len() {
        pieces.len()
    } else {
        strs.len()
    }) - k,
{
    if k < 0 || (k >= pieces.len() && k >= strs.len()) {
        Seq::empty()
    } else {
        (if k < strs.len() {
            strs[k]
        } else {
            Seq::empty()
        }) + (if k < pieces.len() {
            pieces[k]
        } else {
            Seq::empty()
        }) + interleave(pieces, strs, k + 1)
    }
}

pub open spec fn strs_view(v: Seq<String>) -> Seq<Seq<char>> {
    v.map_values(|s: String| s@)
}

pub proof fn lemma_next_specifier(s: Seq<char>, from: int)
    requires
        0 <= from,
    ensures
        next_specifier(s, from) == -1 || (from <= next_specifier(s, from) && specifier_at(
            s,
            next_specifier(s, from),
        )),
    decreases s.len() - from,
{
    if from + 1 < s.len() && !specifier_at(s, from) {
        lemma_next_specifier(s, from + 1);
    }
}

fn split_specifiers(s: &Vec<char>) -> (r: Vec<Vec<char>>)
    ensures
        r@.map_values(|v: Vec<char>| v@) == split_pieces(s@, 0),
{
    let mut pieces: Vec<Vec<char>> = Vec::new();
    let mut cur: Vec<char> = Vec::new();
    let mut from: usize = 0;
    let mut i: usize = 0;
    let n = s.len();
    while i < n
        invariant
            n == s@.len(),
            from <= i <= n,
            cur@ == s@.subrange(from as int, i as int),
            split_pieces(s@, 0) == pieces@.map_values(|v: Vec<char>| v@) + split_pieces(
                s@,
                from as int,
            ),
            next_specifier(s@, from as int) == next_specifier(s@, i as int),
        decreases n - i,
    {
        if i + 1 < n && s[i] == '%' && s[i + 1] == 's' {
            proof {
                lemma_next_specifier(s@, (i + 2) as int);
            }
            let ghost old_pieces = pieces@.map_values(|v: Vec<char>| v@);
            pieces.push(cur);
            assert(pieces@.map_values(|v: Vec<char>| v@) =~= old_pieces.push(
                s@.subrange(from as int, i as int),
            ));
            assert(split_pieces(s@, from as int) == seq![s@.subrange(from as int, i as int)]
                + split_pieces(s@, i + 2));
            assert(old_pieces.push(s@.subrange(from as int, i as int)) + split_pieces(s@, i + 2)
                =~= old_pieces + (seq![s@.subrange(from as int, i as int)] + split_pieces(
                s@,
                i + 2,
            )));
            cur = Vec::new();
            i = i + 2;
            from = i;
            assert(cur@ =~= s@.subrange(from as int, i as int));
        } else {
            cur.push(s[i]);
            i = i + 1;
            assert(cur@ =~= s@.subrange(from as int, i as int));
        }
    }
    let ghost old_pieces = pieces@.map_values(|v: Vec<char>| v@);
    assert(next_specifier(s@, n as int) == -1);
    pieces.push(cur);
    assert(pieces@.map_values(|v: Vec<char>| v@) =~= old_pieces.push(
        s@.subrange(from as int, n as int),
    ));
    assert(old_pieces.push(s@.subrange(from as int, n as int)) =~= old_pieces + seq![
        s@.subrange(from as int, n as int)]);
    pieces
}

/// Formats strings for the print predicate: the first string is the format
/// string, and each `%s` in it is replaced by the next string in turn.
pub fn format_for_print_pred(the_strings: &Vec<String>) -> (r: String)
    requires
        the_strings@.len() > 0,
    ensures
        r@ == split_pieces(the_strings@[0]@, 0)[0] + interleave(
            split_pieces(the_strings@[0]@, 0),
            strs_view(the_strings@),
            1,
        ),
{
    let fmt = crate::text::str_to_chars(the_strings[0].as_str());
    let split = split_specifiers(&fmt);
    let ghost pieces = split@.map_values(|v: Vec<char>| v@);
    let ghost strs = strs_view(the_strings@);
    proof {
        reveal_with_fuel(split_pieces, 1);
    }
    assert(pieces.len() > 0);
    let mut out: Vec<char> = Vec::new();
    crate::text::append_chars(&mut out, &split[0]);
    let ghost head = out@;
    let mut k: usize = 1;
    let split_length = split.len();
    let num_of_strings = the_strings.len();
    while k < split_length || k < num_of_strings
        invariant
            split_length == pieces.len(),
            num_of_strings == strs.len(),
            strs == strs_view(the_strings@),
            pieces == split@.map_values(|v: Vec<char>| v@),
            1 <= k,
            head == pieces[0],
            head + interleave(pieces, strs, 1) == out@ + interleave(pieces, strs, k as int),
        decreases (if split_length > num_of_strings {
            split_length
        } else {
            num_of_strings
        }) - k,
    {
        let ghost before = out@;
        if k < num_of_strings {
            append_str(&mut out, the_strings[k].as_str());
        }
        if k < split_length {
            crate::text::append_chars(&mut out, &split[k]);
        }
        assert(out@ =~= before + ((if k < strs.len() {
            strs[k as int]
        } else {
            Seq::empty()
        }) + (if k < pieces.len() {
            pieces[k as int]
        } else {
            Seq::empty()
        })));
        k = k + 1;
    }
    assert(interleave(pieces, strs, k as int) == Seq::<char>::empty());
    assert(out@ =~= head + interleave(pieces, strs, 1));
    chars_to_string(&out)
}

/// The `k`-th text of `xs`, or the empty text past its end.
pub open spec fn nth_or_empty(xs: Seq<Seq<char>>, k: int) -> Seq<char> {
    if 0 <= k < xs.len() {
        xs[k]
    } else {
        Seq::empty()
    }
}

/// For `k` from 0 below `n`: the `k`-th piece, then the `k`-th string
/// (either empty past its end), one after the other.
pub open spec fn alternate(pieces: Seq<Seq<char>>, strs: Seq<Seq<char>>, n: int) -> Seq<char>
    decreases n,
{
    if n <= 0 {
        Seq::empty()
    } else {
        alternate(pieces, strs, n - 1) + nth_or_empty(pieces, n - 1) + nth_or_empty(strs, n - 1)
    }
}

/// The texts `xs[k..]`, one after the other.
pub open spec fn concat_from(xs: Seq<Seq<char>>, k: int) -> Seq<char>
    decreases xs.len() - k,
{
    if k < 0 || k >= xs.len() {
        Seq::empty()
    } else {
        xs[k] + concat_from(xs, k + 1)
    }
}

/// What print writes for the strings `v` (`v[0]` the format string): the
/// format string split at each `%s` into pieces, and the piece of index `k`
/// followed by the string `v[k + 1]`, for each `k` below the larger of the
/// two counts; with no `%s` in the format string, all the strings one after
/// the other.
pub proof fn law_print_format(v: Seq<Seq<char>>)
    requires
        v.len() > 0,
    ensures
        split_pieces(v[0], 0)[0] + interleave(split_pieces(v[0], 0), v, 1) == alternate(
            split_pieces(v[0], 0),
            v.drop_first(),
            if split_pieces(v[0], 0).len() > v.len() - 1 {
                split_pieces(v[0], 0).len() as int
            } else {
                v.len() - 1
            },
        ),
        next_specifier(v[0], 0) == -1 ==> split_pieces(v[0], 0)[0] + interleave(
            split_pieces(v[0], 0),
            v,
            1,
        ) == concat_from(v, 0),
{
    let p = split_pieces(v[0], 0);
    let s = v.drop_first();
    let n = if p.len() > v.len() - 1 {
        p.len() as int
    } else {
        v.len() - 1
    };
    assert(p.len() >= 1);
    lemma_alternate(p, v, n);
    if next_specifier(v[0], 0) == -1 {
        assert(p == seq![v[0].subrange(0, v[0].len() as int)]);
        assert(v[0].subrange(0, v[0].len() as int) =~= v[0]);
        assert(p =~= seq![v[0]]);
        assert(concat_from(v, 0) == v[0] + concat_from(v, 1));
        lemma_interleave_one(p, v, 1);
    }
}

/// The output of print, split after the first `n` pieces and strings.
proof fn lemma_alternate(p: Seq<Seq<char>>, v: Seq<Seq<char>>, n: int)
    requires
        p.len() >= 1,
        v.len() >= 1,
        0 <= n,
    ensures
        p[0] + interleave(p, v, 1) == alternate(p, v.drop_first(), n) + nth_or_empty(p, n)
            + interleave(p, v, n + 1),
    decreases n,
{
    let s = v.drop_first();
    if n == 0 {
        assert(alternate(p, s, 0) + nth_or_empty(p, 0) + interleave(p, v, 1) =~= p[0]
            + interleave(p, v, 1));
    } else {
        lemma_alternate(p, v, n - 1);
        let a = alternate(p, s, n - 1);
        if n >= p.len() && n >= v.len() {
            assert(interleave(p, v, n) =~= Seq::<char>::empty());
            assert(nth_or_empty(s, n - 1) =~= Seq::<char>::empty());
            assert(a + nth_or_empty(p, n - 1) + interleave(p, v, n) =~= a + nth_or_empty(p, n - 1)
                + nth_or_empty(s, n - 1) + nth_or_empty(p, n) + interleave(p, v, n + 1));
        } else {
            assert(nth_or_empty(s, n - 1) == (if n < v.len() {
                v[n]
            } else {
                Seq::<char>::empty()
            }));
            assert(a + nth_or_empty(p, n - 1) + interleave(p, v, n) =~= a + nth_or_empty(p, n - 1)
                + nth_or_empty(s, n - 1) + nth_or_empty(p, n) + interleave(p, v, n + 1));
        }
    }
}

/// With a single piece, print writes the strings after the format string
/// one after the other.
proof fn lemma_interleave_one(p: Seq<Seq<char>>, v: Seq<Seq<char>>, k: int)
    requires
        p.len() == 1,
        k >= 1,
    ensures
        interleave(p, v, k) == concat_from(v, k),
    decreases v.len() - k,
{
    if k < v.len() {
        lemma_interleave_one(p, v, k + 1);
        assert(interleave(p, v, k) =~= v[k] + concat_from(v, k + 1));
    }
}

} // verus!
