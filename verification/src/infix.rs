//! Infixes for built-in predicates and functions, and the scanners that find them.
use vstd::prelude::*;

verus! {

#[derive(Debug, Clone, Copy, PartialEq, Eq, Structural)]
pub enum Infix {
    NoInfix,
    /// = Unification operator.
    Unify,
    /// == Equal. No unification. Simply compares.
    Equal,
    /// &gt;
    GreaterThan,
    /// &lt;
    LessThan,
    /// &gt;=
    GreaterThanOrEqual,
    /// &lt;=
    LessThanOrEqual,
    /// &plus;
    Plus,
    /// &minus;
    Minus,
    /// &#42;
    Multiply,
    /// &#47;
    Divide,
}

/// The smallest index `j >= from` with `s[j] == c`, or -1 if there is none.
pub open spec fn next_index_of(s: Seq<char>, from: int, c: char) -> int
    decreases s.len() - from,
{
    if from < 0 || from >= s.len() {
        -1
    } else if s[from] == c {
        from
    } else {
        next_index_of(s, from + 1, c)
    }
}

/// The index of the `)` at or after `j` that closes a parenthesis, when
/// `depth` parentheses opened since it are still open (-1 if there is
/// none): nested parentheses are counted.
pub open spec fn close_paren(s: Seq<char>, j: int, depth: nat) -> int
    decreases s.len() - j,
{
    if j < 0 || j >= s.len() {
        -1
    } else if s[j] == ')' {
        if depth == 0 {
            j
        } else {
            close_paren(s, j + 1, (depth - 1) as nat)
        }
    } else if s[j] == '(' {
        close_paren(s, j + 1, depth + 1)
    } else {
        close_paren(s, j + 1, depth)
    }
}

pub proof fn lemma_close_paren(s: Seq<char>, j: int, depth: nat)
    requires
        0 <= j,
    ensures
        close_paren(s, j, depth) == -1 || (j <= close_paren(s, j, depth) < s.len() && s[close_paren(
            s,
            j,
            depth,
        )] == ')'),
    decreases s.len() - j,
{
    if j < s.len() {
        if s[j] == ')' {
            if depth > 0 {
                lemma_close_paren(s, j + 1, (depth - 1) as nat);
            }
        } else if s[j] == '(' {
            lemma_close_paren(s, j + 1, depth + 1);
        } else {
            lemma_close_paren(s, j + 1, depth);
        }
    }
}

/// Where the scan continues after position `i`: past the closing quote, or
/// past the matching closing parenthesis, when `i` opens a quoted or
/// parenthesised stretch that is closed.
pub open spec fn skip_to(s: Seq<char>, i: int) -> int {
    if s[i] == '"' && next_index_of(s, i + 1, '"') >= 0 {
        next_index_of(s, i + 1, '"')
    } else if s[i] == '(' && close_paren(s, i + 1, 0) >= 0 {
        close_paren(s, i + 1, 0)
    } else {
        i
    }
}

/// The comparison infix (if any) that begins at `i`, given that the scan
/// stands at `i` after a space, with `i < len - 2`.
pub open spec fn comparison_at(s: Seq<char>, i: int) -> Option<Infix> {
    let len = s.len();
    let c1 = s[i];
    let c2 = s[i + 1];
    if c1 == '<' {
        if c2 == '=' {
            if i >= len - 3 {
                Some(Infix::NoInfix)
            } else if s[i + 2] == ' ' {
                Some(Infix::LessThanOrEqual)
            } else {
                Option::None
            }
        } else if c2 == ' ' {
            Some(Infix::LessThan)
        } else {
            Option::None
        }
    } else if c1 == '>' {
        if c2 == '=' {
            if i >= len - 3 {
                Some(Infix::NoInfix)
            } else if s[i + 2] == ' ' {
                Some(Infix::GreaterThanOrEqual)
            } else {
                Option::None
            }
        } else if c2 == ' ' {
            Some(Infix::GreaterThan)
        } else {
            Option::None
        }
    } else if c1 == '=' {
        if c2 == '=' {
            if i >= len - 3 {
                Some(Infix::NoInfix)
            } else if s[i + 2] == ' ' {
                Some(Infix::Equal)
            } else {
                Option::None
            }
        } else if c2 == ' ' {
            Some(Infix::Unify)
        } else {
            Option::None
        }
    } else {
        Option::None
    }
}

/// The arithmetic infix (if any) that begins at `i`: the operator followed by a space.
pub open spec fn arithmetic_at(s: Seq<char>, i: int) -> Option<Infix> {
    if s[i + 1] != ' ' {
        Option::None
    } else if s[i] == '+' {
        Some(Infix::Plus)
    } else if s[i] == '-' {
        Some(Infix::Minus)
    } else if s[i] == '*' {
        Some(Infix::Multiply)
    } else if s[i] == '/' {
        Some(Infix::Divide)
    } else {
        Option::None
    }
}

/// The scan of `check_infix` (`arith` false) and `check_arithmetic_infix`
/// (`arith` true) from position `i`, where `prev` is the previous character
/// at the top level.
///
/// Text between double quotes and between matching parentheses is skipped. An infix
/// must follow a space at the top level and must be followed by a space; an
/// infix too close to the end of the text ends the scan with `(None, 0)`.
pub open spec fn scan_infix(s: Seq<char>, i: int, prev: char, arith: bool) -> (Infix, int)
    decreases s.len() - i,
{
    if i < 0 || i >= s.len() {
        (Infix::NoInfix, 0)
    } else if s[i] == '"' || s[i] == '(' {
        proof {
            lemma_next_index_of(s, i + 1, '"');
            lemma_close_paren(s, i + 1, 0);
        }
        scan_infix(s, skip_to(s, i) + 1, s[i], arith)
    } else if prev != ' ' {
        scan_infix(s, i + 1, s[i], arith)
    } else if i >= s.len() - 2 {
        (Infix::NoInfix, 0)
    } else {
        let found = if arith {
            arithmetic_at(s, i)
        } else {
            comparison_at(s, i)
        };
        match found {
            Some(Infix::NoInfix) => (Infix::NoInfix, 0),
            Some(inf) => (inf, i),
            Option::None => scan_infix(s, i + 1, s[i], arith),
        }
    }
}

pub proof fn lemma_next_index_of(s: Seq<char>, from: int, c: char)
    requires
        0 <= from,
    ensures
        next_index_of(s, from, c) == -1 || (from <= next_index_of(s, from, c) < s.len() && s[next_index_of(s, from, c)] == c),
        forall|k: int|
            from <= k < s.len() && (next_index_of(s, from, c) == -1 || k < next_index_of(s, from, c))
                ==> s[k] != c,
    decreases s.len() - from,
{
    if from < s.len() && s[from] != c {
        lemma_next_index_of(s, from + 1, c);
    }
}

/// Finds the first index `j >= from` with `chrs[j] == c`.
pub fn find_char(chrs: &Vec<char>, from: usize, c: char) -> (r: Option<usize>)
    requires
        from <= chrs@.len(),
    ensures
        match r {
            Some(j) => j as int == next_index_of(chrs@, from as int, c) && from <= j < chrs@.len(),
            None => next_index_of(chrs@, from as int, c) == -1,
        },
{
    let mut j = from;
    while j < chrs.len()
        invariant
            from <= j <= chrs@.len(),
            next_index_of(chrs@, from as int, c) == next_index_of(chrs@, j as int, c),
        decreases chrs@.len() - j,
    {
        if chrs[j] == c {
            return Some(j);
        }
        j = j + 1;
    }
    None
}

/// Finds the `)` that closes the parenthesis before `from` (see
/// `close_paren`).
pub fn find_close_paren(chrs: &Vec<char>, from: usize) -> (r: Option<usize>)
    requires
        from <= chrs@.len(),
    ensures
        match r {
            Some(j) => j as int == close_paren(chrs@, from as int, 0) && from <= j < chrs@.len(),
            None => close_paren(chrs@, from as int, 0) == -1,
        },
{
    let mut depth: usize = 0;
    let mut j = from;
    while j < chrs.len()
        invariant
            from <= j <= chrs@.len(),
            depth <= j - from,
            close_paren(chrs@, from as int, 0) == close_paren(chrs@, j as int, depth as nat),
        decreases chrs@.len() - j,
    {
        let c = chrs[j];
        if c == ')' {
            if depth == 0 {
                return Some(j);
            }
            depth = depth - 1;
        } else if c == '(' {
            depth = depth + 1;
        }
        j = j + 1;
    }
    None
}

fn exec_comparison_at(chrs: &Vec<char>, i: usize) -> (r: Option<Infix>)
    requires
        i + 2 < chrs.len(),
    ensures
        r == comparison_at(chrs@, i as int),
{
    let length = chrs.len();
    let c1 = chrs[i];
    let c2 = chrs[i + 1];
    if c1 == '<' || c1 == '>' || c1 == '=' {
        if c2 == '=' {
            if i >= length - 3 {
                return Some(Infix::NoInfix);
            }
            if chrs[i + 2] == ' ' {
                return Some(
                    if c1 == '<' {
                        Infix::LessThanOrEqual
                    } else if c1 == '>' {
                        Infix::GreaterThanOrEqual
                    } else {
                        Infix::Equal
                    },
                );
            }
            None
        } else if c2 == ' ' {
            Some(
                if c1 == '<' {
                    Infix::LessThan
                } else if c1 == '>' {
                    Infix::GreaterThan
                } else {
                    Infix::Unify
                },
            )
        } else {
            None
        }
    } else {
        None
    }
}

fn exec_arithmetic_at(chrs: &Vec<char>, i: usize) -> (r: Option<Infix>)
    requires
        i + 1 < chrs.len(),
    ensures
        r == arithmetic_at(chrs@, i as int),
{
    if chrs[i + 1] != ' ' {
        None
    } else if chrs[i] == '+' {
        Some(Infix::Plus)
    } else if chrs[i] == '-' {
        Some(Infix::Minus)
    } else if chrs[i] == '*' {
        Some(Infix::Multiply)
    } else if chrs[i] == '/' {
        Some(Infix::Divide)
    } else {
        None
    }
}

fn scan(chrs: &Vec<char>, arith: bool) -> (r: (Infix, usize))
    ensures
        (r.0, r.1 as int) == scan_infix(chrs@, 0, '#', arith),
{
    let length = chrs.len();
    let mut prev = '#';
    let mut i: usize = 0;
    while i < length
        invariant
            length == chrs@.len(),
            i <= length,
            scan_infix(chrs@, 0, '#', arith) == scan_infix(chrs@, i as int, prev, arith),
            prev == ' ' ==> i > 0,
        decreases length - i,
    {
        let c1 = chrs[i];
        if c1 == '"' || c1 == '(' {
            let found = if c1 == '"' {
                find_char(chrs, i + 1, '"')
            } else {
                find_close_paren(chrs, i + 1)
            };
            proof {
                lemma_next_index_of(chrs@, i + 1, '"');
                lemma_close_paren(chrs@, i + 1, 0);
            }
            match found {
                Some(j) => {
                    i = j;
                },
                None => {},
            }
            prev = c1;
            i = i + 1;
        } else if prev != ' ' {
            prev = c1;
            i = i + 1;
        } else {
            if i >= length - 2 {
                return (Infix::NoInfix, 0);
            }
            let found = if arith {
                exec_arithmetic_at(chrs, i)
            } else {
                exec_comparison_at(chrs, i)
            };
            match found {
                Some(Infix::NoInfix) => {
                    return (Infix::NoInfix, 0);
                },
                Some(inf) => {
                    return (inf, i);
                },
                None => {},
            }
            prev = c1;
            i = i + 1;
        }
    }
    (Infix::NoInfix, 0)
}

/// Determines whether a string contains an infix: `=`, `==`, `<`, `<=`, `>`, `>=`.
///
/// Returns the type and index of the infix, or `(Infix::NoInfix, 0)`.
/// An infix must be preceded and followed by a space; text between
/// double quotes and between parentheses is ignored.
pub fn check_infix(chrs: &Vec<char>) -> (r: (Infix, usize))
    ensures
        (r.0, r.1 as int) == scan_infix(chrs@, 0, '#', false),
{
    scan(chrs, false)
}

/// Determines whether a string contains an arithmetic infix: `+ - * /`.
///
/// Returns the type and index of the infix, or `(Infix::NoInfix, 0)`.
/// An infix must be preceded and followed by a space; text between
/// double quotes and between parentheses is ignored.
pub fn check_arithmetic_infix(chrs: &Vec<char>) -> (r: (Infix, usize))
    ensures
        (r.0, r.1 as int) == scan_infix(chrs@, 0, '#', true),
{
    scan(chrs, true)
}

impl Infix {
    /// The symbol of the infix (`None` for no infix).
    pub fn to_display_string(&self) -> (s: String)
        ensures
            s@ == infix_text(*self),
    {
        let t = match self {
            Infix::NoInfix => "None",
            Infix::Unify => "=",
            Infix::Equal => "==",
            Infix::GreaterThan => ">",
            Infix::LessThan => "<",
            Infix::GreaterThanOrEqual => ">=",
            Infix::LessThanOrEqual => "<=",
            Infix::Plus => "+",
            Infix::Minus => "-",
            Infix::Multiply => "*",
            Infix::Divide => "/",
        };
        let v = crate::text::str_to_chars(t);
        crate::text::chars_to_string(&v)
    }
}

/// The symbol by which an infix is shown.
pub open spec fn infix_text(i: Infix) -> Seq<char> {
    match i {
        Infix::NoInfix => "None"@,
        Infix::Unify => "="@,
        Infix::Equal => "=="@,
        Infix::GreaterThan => ">"@,
        Infix::LessThan => "<"@,
        Infix::GreaterThanOrEqual => ">="@,
        Infix::LessThanOrEqual => "<="@,
        Infix::Plus => "+"@,
        Infix::Minus => "-"@,
        Infix::Multiply => "*"@,
        Infix::Divide => "/"@,
    }
}

/// The infix that stands at `k`, where the scan stands on `k`: `k`
/// follows a space, leaves room for the operator and the space after it,
/// and the operator stands there (`Some(NoInfix)` for a two-character
/// comparison too near the end of the text).
pub open spec fn infix_found(s: Seq<char>, k: int, arith: bool) -> Option<Infix> {
    if 1 <= k < s.len() - 2 && s[k - 1] == ' ' {
        if arith {
            arithmetic_at(s, k)
        } else {
            comparison_at(s, k)
        }
    } else {
        Option::None
    }
}

/// The position after `i` that the scan looks at: past a closed quoted or
/// parenthesised stretch that opens at `i`, else the next one.
pub open spec fn next_top(s: Seq<char>, i: int) -> int {
    if 0 <= i < s.len() && (s[i] == '"' || s[i] == '(') {
        skip_to(s, i) + 1
    } else {
        i + 1
    }
}

/// From position `i` on, the scan stands on position `k`: `k` lies outside
/// every closed quoted or parenthesised stretch (nested parentheses
/// counted) that starts at or after `i`.
pub open spec fn visits(s: Seq<char>, i: int, k: int) -> bool
    decreases s.len() - i,
{
    if i < 0 || i > k || k >= s.len() {
        false
    } else if i == k {
        true
    } else {
        proof {
            lemma_next_index_of(s, i + 1, '"');
            lemma_close_paren(s, i + 1, 0);
        }
        visits(s, next_top(s, i), k)
    }
}

/// The scan finds the infix at the least position outside quoted and
/// parenthesised stretches where one stands (`(NoInfix, 0)` when that one
/// is a two-character comparison too near the end), and `(NoInfix, 0)`
/// when there is none.
pub proof fn law_infix_least_index(s: Seq<char>, arith: bool)
    ensures
        (forall|k: int| #[trigger] visits(s, 0, k) ==> infix_found(s, k, arith) is None) ==> scan_infix(
            s,
            0,
            '#',
            arith,
        ) == (Infix::NoInfix, 0int),
        forall|k: int|
            #[trigger] visits(s, 0, k) && infix_found(s, k, arith) is Some && (forall|j: int|
                j < k && #[trigger] visits(s, 0, j) ==> infix_found(s, j, arith) is None) ==> scan_infix(
                s,
                0,
                '#',
                arith,
            ) == if infix_found(s, k, arith) == Some(Infix::NoInfix) {
                (Infix::NoInfix, 0int)
            } else {
                (infix_found(s, k, arith)->Some_0, k)
            },
{
    lemma_scan_visits(s, 0, '#', arith);
}

proof fn lemma_scan_visits(s: Seq<char>, i: int, prev: char, arith: bool)
    requires
        0 <= i <= s.len(),
        prev == ' ' <==> (i >= 1 && s[i - 1] == ' '),
    ensures
        (forall|k: int| #[trigger] visits(s, i, k) ==> infix_found(s, k, arith) is None) ==> scan_infix(
            s,
            i,
            prev,
            arith,
        ) == (Infix::NoInfix, 0int),
        forall|k: int|
            #[trigger] visits(s, i, k) && infix_found(s, k, arith) is Some && (forall|j: int|
                j < k && #[trigger] visits(s, i, j) ==> infix_found(s, j, arith) is None) ==> scan_infix(
                s,
                i,
                prev,
                arith,
            ) == if infix_found(s, k, arith) == Some(Infix::NoInfix) {
                (Infix::NoInfix, 0int)
            } else {
                (infix_found(s, k, arith)->Some_0, k)
            },
    decreases s.len() - i,
{
    if i < s.len() {
        lemma_next_index_of(s, i + 1, '"');
        lemma_close_paren(s, i + 1, 0);
        let n = next_top(s, i);
        assert(i < n <= s.len());
        assert(visits(s, i, i));
        assert forall|k: int| i < k implies visits(s, i, k) == visits(s, n, k) by {}
        if s[i] == '"' || s[i] == '(' {
            assert(n >= 1 && s[n - 1] != ' ');
            lemma_scan_visits(s, n, s[i], arith);
            assert(infix_found(s, i, arith) is None);
        } else {
            lemma_scan_visits(s, n, s[i], arith);
            if prev != ' ' {
                assert(infix_found(s, i, arith) is None);
            } else if i >= s.len() - 2 {
                assert forall|k: int| #[trigger] visits(s, i, k) implies infix_found(s, k, arith) is None by {}
            } else {
                assert(infix_found(s, i, arith) == if arith {
                    arithmetic_at(s, i)
                } else {
                    comparison_at(s, i)
                });
            }
        }
        assert forall|k: int|
            #[trigger] visits(s, i, k) && infix_found(s, k, arith) is Some && (forall|j: int|
                j < k && #[trigger] visits(s, i, j) ==> infix_found(s, j, arith) is None) implies scan_infix(
                s,
                i,
                prev,
                arith,
            ) == if infix_found(s, k, arith) == Some(Infix::NoInfix) {
                (Infix::NoInfix, 0int)
            } else {
                (infix_found(s, k, arith)->Some_0, k)
            } by {
            if k > i {
                assert(infix_found(s, i, arith) is None);
                assert forall|j: int| j < k && #[trigger] visits(s, n, j) implies infix_found(
                    s,
                    j,
                    arith,
                ) is None by {
                    assert(visits(s, i, j));
                }
            }
        }
        if forall|k: int| #[trigger] visits(s, i, k) ==> infix_found(s, k, arith) is None {
            assert forall|k: int| #[trigger] visits(s, n, k) implies infix_found(s, k, arith) is None by {
                assert(visits(s, i, k));
            }
        }
    }
}

/// When the scan of `check_infix` finds a comparison infix at `k`, the
/// infix stands there after a space: `comparison_at` gives it.
pub proof fn lemma_scan_comparison_found(s: Seq<char>, i: int, prev: char)
    requires
        0 <= i <= s.len(),
        prev == ' ' ==> i >= 1 && s[i - 1] == ' ',
    ensures
        scan_infix(s, i, prev, false).0 != Infix::NoInfix ==> ({
            let k = scan_infix(s, i, prev, false).1;
            &&& 1 <= k && k + 2 < s.len()
            &&& s[k - 1] == ' '
            &&& comparison_at(s, k) == Some(scan_infix(s, i, prev, false).0)
        }),
    decreases s.len() - i,
{
    if i < s.len() {
        lemma_next_index_of(s, i + 1, '"');
        lemma_close_paren(s, i + 1, 0);
        if s[i] == '"' || s[i] == '(' {
            lemma_scan_comparison_found(s, skip_to(s, i) + 1, s[i]);
        } else {
            lemma_scan_comparison_found(s, i + 1, s[i]);
        }
    }
}

} // verus!
