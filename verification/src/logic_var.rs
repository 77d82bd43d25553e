//! Logic variables: their names, and the counter which gives them unique
//! ID numbers.
//!
//! A logic variable is written as a dollar sign followed by a letter and
//! possibly more characters, eg. `$X` or `$Name`. Variables made by the
//! parser have the ID 0; when a rule is taken from the knowledge base, its
//! variables are recreated with fresh IDs from a [`VarIds`] counter.
use vstd::prelude::*;
use crate::unifiable::{Unifiable, Term};
use crate::text::{trim, str_to_chars, trim_chars, chars_to_string, append_str, append_chars};

verus! {

/// The counter which gives logic variables their ID numbers.
/// The first ID given is 1.
pub struct VarIds {
    pub last: usize,
}

impl VarIds {
    /// A counter which has given no ID yet.
    pub fn new() -> (ids: VarIds)
        ensures
            ids.last == 0,
    {
        VarIds { last: 0 }
    }
}

/// Increments the counter and gives its new value: a fresh variable ID.
pub fn next_id(ids: &mut VarIds) -> (id: usize)
    requires
        old(ids).last < usize::MAX,
    ensures
        id == old(ids).last + 1,
        final(ids).last == id,
{
    ids.last = ids.last + 1;
    ids.last
}

/// The last ID given.
pub fn get_var_id(ids: &VarIds) -> (id: usize)
    ensures
        id == ids.last,
{
    ids.last
}

/// Sets the counter, so that the next ID given is `id + 1`.
pub fn set_var_id(ids: &mut VarIds, id: usize)
    ensures
        final(ids).last == id,
{
    ids.last = id;
}

/// Resets the counter, so that the next ID given is 1.
pub fn clear_id(ids: &mut VarIds)
    ensures
        final(ids).last == 0,
{
    ids.last = 0;
}

/// Map of variable names to the IDs they were recreated with.
/// A name occurs at most once.
pub struct VarMap {
    pub entries: Vec<(String, usize)>,
}

/// The ID which `name` maps to among `entries`, if any.
pub open spec fn var_lookup(entries: Seq<(String, usize)>, name: Seq<char>) -> Option<usize>
    decreases entries.len(),
{
    if entries.len() == 0 {
        None
    } else if entries.last().0@ == name {
        Some(entries.last().1)
    } else {
        var_lookup(entries.drop_last(), name)
    }
}

impl VarMap {
    /// An empty map.
    pub fn new() -> (m: VarMap)
        ensures
            m.entries@.len() == 0,
    {
        VarMap { entries: Vec::new() }
    }

    /// The ID which `name` maps to, if any.
    pub open spec fn lookup(&self, name: Seq<char>) -> Option<usize> {
        var_lookup(self.entries@, name)
    }

    /// The map of names to IDs.
    pub open spec fn view_map(&self) -> Map<Seq<char>, usize> {
        Map::new(|n: Seq<char>| self.lookup(n) is Some, |n: Seq<char>| self.lookup(n)->Some_0)
    }

    /// Gets the ID which `name` maps to.
    pub fn get(&self, name: &String) -> (r: Option<usize>)
        ensures
            r == self.lookup(name@),
    {
        let mut i: usize = self.entries.len();
        assert(self.entries@.subrange(0, i as int) =~= self.entries@);
        while i > 0
            invariant
                i <= self.entries@.len(),
                var_lookup(self.entries@.subrange(0, i as int), name@) == self.lookup(name@),
            decreases i,
        {
            let ghost pre = self.entries@.subrange(0, i as int);
            assert(pre.drop_last() =~= self.entries@.subrange(0, i - 1));
            if self.entries[i - 1].0 == *name {
                return Some(self.entries[i - 1].1);
            }
            i = i - 1;
        }
        None
    }

    /// Maps `name` to `id`.
    pub fn insert(&mut self, name: String, id: usize)
        ensures
            final(self).view_map() == old(self).view_map().insert(name@, id),
            forall|n: Seq<char>|
                #![trigger final(self).lookup(n)]
                final(self).lookup(n) == if n == name@ {
                    Some(id)
                } else {
                    old(self).lookup(n)
                },
    {
        let ghost nm = name@;
        self.entries.push((name, id));
        assert forall|n: Seq<char>| #![trigger self.lookup(n)]
            self.lookup(n) == if n == nm { Some(id) } else { old(self).lookup(n) } by {
            assert(self.entries@.drop_last() =~= old(self).entries@);
        }
        assert(self.view_map() =~= old(self).view_map().insert(nm, id));
    }
}

/// Whether a character outside ASCII has the Unicode Alphabetic property,
/// as `char::is_alphabetic` decides it.
pub uninterp spec fn unicode_alphabetic(c: char) -> bool;

/// An ASCII letter: `A` to `Z` or `a` to `z`.
pub open spec fn ascii_letter(c: char) -> bool {
    ('A' <= c && c <= 'Z') || ('a' <= c && c <= 'z')
}

/// Whether a character is alphabetic: among ASCII characters exactly the
/// letters `A` to `Z` and `a` to `z`; beyond ASCII, the characters with the
/// Unicode Alphabetic property.
pub open spec fn char_alphabetic(c: char) -> bool {
    if (c as u32) < 128 {
        ascii_letter(c)
    } else {
        unicode_alphabetic(c)
    }
}

/// `char::is_alphabetic`: whether the character has the Unicode Alphabetic
/// property. The contract states that among ASCII characters these are
/// exactly the letters `A` to `Z` and `a` to `z` (in the Unicode tables the
/// property holds of no other ASCII character); beyond ASCII it names the
/// result, which rests on the Unicode tables and is not written out.
#[verifier::external_body]
fn is_alphabetic(c: char) -> (b: bool)
    ensures
        b == (if (c as u32) < 128 {
            ('A' <= c && c <= 'Z') || ('a' <= c && c <= 'z')
        } else {
            unicode_alphabetic(c)
        }),
{
    c.is_alphabetic()
}

/// The error message of `make_logic_var`.
pub open spec fn mlv_error_text(err: Seq<char>, bad: Seq<char>) -> Seq<char> {
    "make_logic_var() - "@ + err + ": "@ + bad
}

/// The error of `make_logic_var` for a trimmed name, if any.
pub open spec fn mlv_check(t: Seq<char>) -> Option<Seq<char>> {
    if t.len() < 2 {
        Some(mlv_error_text("Variable must start with $ and a letter"@, t))
    } else if t[0] != '$' {
        Some(mlv_error_text("Variable must start with $"@, t))
    } else if !char_alphabetic(t[1]) {
        Some(mlv_error_text("Second character must be a letter"@, t))
    } else {
        None
    }
}

/// Makes an error message for `make_logic_var`.
pub fn mlv_error(err: &str, bad: &str) -> (s: String)
    ensures
        s@ == mlv_error_text(err@, bad@),
{
    let mut out: Vec<char> = Vec::new();
    append_str(&mut out, "make_logic_var() - ");
    append_str(&mut out, err);
    append_str(&mut out, ": ");
    append_str(&mut out, bad);
    chars_to_string(&out)
}

/// Makes a logic variable (with ID 0) from its name, eg. `$X`. The name is
/// trimmed; it must start with a dollar sign and a letter.
pub fn make_logic_var(name: String) -> (r: Result<Unifiable, String>)
    ensures
        match r {
            Ok(u) => mlv_check(trim(name@)) is None && u@ == Term::LogicVar(0, trim(name@)),
            Err(e) => mlv_check(trim(name@)) == Some(e@),
        },
{
    let v = str_to_chars(name.as_str());
    let t = trim_chars(&v);
    let ts = chars_to_string(&t);
    proof {
        reveal_strlit("Variable must start with $ and a letter");
        reveal_strlit("Variable must start with $");
        reveal_strlit("Second character must be a letter");
    }
    if t.len() < 2 {
        return Err(mlv_error("Variable must start with $ and a letter", ts.as_str()));
    }
    if t[0] != '$' {
        return Err(mlv_error("Variable must start with $", ts.as_str()));
    }
    if !is_alphabetic(t[1]) {
        return Err(mlv_error("Second character must be a letter", ts.as_str()));
    }
    Ok(Unifiable::LogicVar { id: 0, name: ts })
}

} // verus!
