//! Preparation of Suiron source text: comments are stripped, line ends are
//! checked, and the text is divided into facts and rules.
//!
//! Reading the file itself happens outside the library; these functions
//! work on the text that was read.
use vstd::prelude::*;
use crate::text::{
    str_to_chars, trim_chars, chars_to_string, trim, sub_chars, append_chars, append_str,
    u64_to_chars, nat_digits,
};
use crate::goal::GoalView;
use crate::unifiable::Term;
use crate::rule::{parse_rule, parse_rule_spec, rule_key, lemma_parsed_rule_keyed};
use crate::knowledge_base::{KnowledgeBase, add_rule, kb_rules, kb_wf, keyed_rules};

verus! {

/// The comment scan of a line from position `i`: the index where a comment
/// starts (`#`, `%` or `//` outside parentheses and brackets), if any.
pub open spec fn comment_start(s: Seq<char>, i: int, round: int, square: int, prev: char) -> Option<
    int,
>
    decreases s.len() - i,
{
    if i < 0 || i >= s.len() {
        None
    } else {
        let ch = s[i];
        if ch == '(' {
            comment_start(s, i + 1, round + 1, square, ch)
        } else if ch == '[' {
            comment_start(s, i + 1, round, square + 1, ch)
        } else if ch == ')' {
            comment_start(s, i + 1, round - 1, square, ch)
        } else if ch == ']' {
            comment_start(s, i + 1, round, square - 1, ch)
        } else if round == 0 && square == 0 && (ch == '#' || ch == '%') {
            Some(i)
        } else if round == 0 && square == 0 && ch == '/' && prev == '/' {
            Some(i - 1)
        } else {
            comment_start(s, i + 1, round, square, ch)
        }
    }
}

/// A line without its comment, trimmed.
pub open spec fn strip_comments_spec(s: Seq<char>) -> Seq<char> {
    match comment_start(s, 0, 0, 0, 'x') {
        Some(k) => trim(s.subrange(0, k)),
        None => trim(s),
    }
}

/// Strips comments from a line (delimiters `%`, `#` and `//`), unless the
/// delimiters occur within parentheses or brackets; the result is trimmed.
pub fn strip_comments(line: &str) -> (r: String)
    requires
        line@.len() <= i64::MAX,
    ensures
        r@ == strip_comments_spec(line@),
{
    let chrs = str_to_chars(line);
    let mut previous = 'x';
    let mut round_depth: i64 = 0;
    let mut square_depth: i64 = 0;
    let mut i: usize = 0;
    let n = chrs.len();
    while i < n
        invariant
            n == chrs@.len(),
            chrs@ == line@,
            n <= i64::MAX,
            i <= n,
            -(i as int) <= round_depth <= i,
            -(i as int) <= square_depth <= i,
            i == 0 ==> previous == 'x',
            comment_start(chrs@, 0, 0, 0, 'x') == comment_start(
                chrs@,
                i as int,
                round_depth as int,
                square_depth as int,
                previous,
            ),
        decreases n - i,
    {
        let ch = chrs[i];
        if ch == '(' {
            round_depth = round_depth + 1;
        } else if ch == '[' {
            square_depth = square_depth + 1;
        } else if ch == ')' {
            round_depth = round_depth - 1;
        } else if ch == ']' {
            square_depth = square_depth - 1;
        } else if round_depth == 0 && square_depth == 0 {
            if ch == '#' || ch == '%' {
                let t = sub_chars(&chrs, 0, i);
                let t = trim_chars(&t);
                return chars_to_string(&t);
            } else if ch == '/' && previous == '/' {
                let t = sub_chars(&chrs, 0, i - 1);
                let t = trim_chars(&t);
                return chars_to_string(&t);
            }
        }
        previous = ch;
        i = i + 1;
    }
    let t = trim_chars(&chrs);
    chars_to_string(&t)
}

/// Characters a line may end with: dash, comma, period, equal sign, semicolon.
pub open spec fn is_valid_last_char(c: char) -> bool {
    c == '-' || c == ',' || c == '.' || c == '=' || c == ';'
}

/// The error for a line that ends with an invalid character.
pub open spec fn last_char_error(line: Seq<char>, num: nat) -> Option<Seq<char>> {
    if line.len() > 0 && !is_valid_last_char(line.last()) {
        Some("Check end of line "@ + nat_digits(num) + ": "@ + line)
    } else {
        None
    }
}

/// Checks that a line ends with a valid character (dash, comma, semicolon,
/// period or equal sign). Returns an error message or None.
pub fn check_last_char(line: &str, num: usize) -> (r: Option<String>)
    ensures
        match r {
            Some(m) => last_char_error(line@, num as nat) == Some(m@),
            None => last_char_error(line@, num as nat) is None,
        },
{
    let chrs = str_to_chars(line);
    let length = chrs.len();
    if length > 0 {
        let last = chrs[length - 1];
        if last != '-' && last != ',' && last != '.' && last != '=' && last != ';' {
            let mut m: Vec<char> = Vec::new();
            append_str(&mut m, "Check end of line ");
            let d = u64_to_chars(num as u64);
            append_chars(&mut m, &d);
            append_str(&mut m, ": ");
            append_chars(&mut m, &chrs);
            return Some(chars_to_string(&m));
        }
    }
    None
}

/// The number of characters of an error line that are shown: up to and
/// including the first period, if it comes within the first 101
/// characters, otherwise at most 100 characters.
pub open spec fn error_line_cut(s: Seq<char>) -> int {
    let p = crate::infix::next_index_of(s, 0, '.');
    if 0 <= p <= 100 {
        p + 1
    } else if s.len() < 100 {
        s.len() as int
    } else {
        100
    }
}

/// Trims a line at the first period or at 100 characters.
pub fn trim_error_line(chrs: &Vec<char>) -> (r: String)
    ensures
        r@ == chrs@.subrange(0, error_line_cut(chrs@)),
{
    proof {
        crate::infix::lemma_next_index_of(chrs@, 0, '.');
    }
    let mut index: usize = 0;
    while index < chrs.len() && index < 100
        invariant
            index <= chrs@.len(),
            index <= 100,
            forall|k: int| 0 <= k < index ==> chrs@[k] != '.',
            crate::infix::next_index_of(chrs@, 0, '.') == crate::infix::next_index_of(
                chrs@,
                index as int,
                '.',
            ),
        decreases chrs@.len() - index,
    {
        if chrs[index] == '.' {
            let t = sub_chars(chrs, 0, index + 1);
            return chars_to_string(&t);
        }
        index = index + 1;
    }
    if index < chrs.len() && chrs[index] == '.' {
        let t = sub_chars(chrs, 0, index + 1);
        return chars_to_string(&t);
    }
    proof {
        crate::infix::lemma_next_index_of(chrs@, index as int, '.');
        if index < chrs@.len() {
            assert(crate::infix::next_index_of(chrs@, index as int, '.')
                == crate::infix::next_index_of(chrs@, index + 1, '.'));
            crate::infix::lemma_next_index_of(chrs@, index + 1, '.');
        }
    }
    let t = sub_chars(chrs, 0, index);
    chars_to_string(&t)
}

/// The message for unmatched parentheses or brackets, if the depths are not 0.
pub open spec fn unmatched_bracket_spec(line: Seq<char>, round: int, square: int) -> Option<
    Seq<char>,
> {
    if round == 0 && square == 0 {
        None
    } else {
        let msg = if round > 0 {
            "Unmatched parenthesis: ("@
        } else if round < 0 {
            "Unmatched parenthesis: )"@
        } else if square > 0 {
            "Unmatched bracket: ["@
        } else {
            "Unmatched bracket: ]"@
        };
        let msg2 = if line.len() == 0 {
            "Check start of file."@
        } else {
            "Check: "@ + line.subrange(0, error_line_cut(line))
        };
        Some(msg + seq!['\n'] + msg2)
    }
}

/// Produces an error message for an unmatched parenthesis or bracket,
/// or None when both depths are 0.
pub fn unmatched_bracket(error_line: &str, round_depth: i64, square_depth: i64) -> (r: Option<
    String,
>)
    ensures
        match r {
            Some(m) => unmatched_bracket_spec(error_line@, round_depth as int, square_depth as int)
                == Some(m@),
            None => unmatched_bracket_spec(
                error_line@,
                round_depth as int,
                square_depth as int,
            ) is None,
        },
{
    if round_depth == 0 && square_depth == 0 {
        return None;
    }
    let msg = if round_depth > 0 {
        "Unmatched parenthesis: ("
    } else if round_depth < 0 {
        "Unmatched parenthesis: )"
    } else if square_depth > 0 {
        "Unmatched bracket: ["
    } else {
        "Unmatched bracket: ]"
    };
    let chrs = str_to_chars(error_line);
    let mut m: Vec<char> = Vec::new();
    append_str(&mut m, msg);
    m.push('\n');
    if chrs.len() == 0 {
        append_str(&mut m, "Check start of file.");
    } else {
        append_str(&mut m, "Check: ");
        let t = trim_error_line(&chrs);
        append_str(&mut m, t.as_str());
    }
    Some(chars_to_string(&m))
}

/// The scan of `separate_rules` from position `i`: `cur` is the text of the
/// rule being read; a period outside parentheses, brackets and quotes ends it.
pub open spec fn separate_scan(
    s: Seq<char>,
    i: int,
    cur: Seq<char>,
    rules: Seq<Seq<char>>,
    round: int,
    square: int,
    quotes: int,
) -> Result<Seq<Seq<char>>, Seq<char>>
    decreases s.len() - i,
{
    if i < 0 || i >= s.len() {
        match unmatched_bracket_spec(cur, round, square) {
            Some(m) => Err(m),
            None => Ok(rules),
        }
    } else {
        let ch = s[i];
        let cur2 = cur.push(ch);
        if ch == '.' && round == 0 && square == 0 && quotes % 2 == 0 {
            separate_scan(s, i + 1, Seq::empty(), rules.push(cur2), round, square, quotes)
        } else if ch == '(' {
            separate_scan(s, i + 1, cur2, rules, round + 1, square, quotes)
        } else if ch == '[' {
            separate_scan(s, i + 1, cur2, rules, round, square + 1, quotes)
        } else if ch == ')' {
            separate_scan(s, i + 1, cur2, rules, round - 1, square, quotes)
        } else if ch == ']' {
            separate_scan(s, i + 1, cur2, rules, round, square - 1, quotes)
        } else if ch == '"' {
            separate_scan(s, i + 1, cur2, rules, round, square, quotes + 1)
        } else {
            separate_scan(s, i + 1, cur2, rules, round, square, quotes)
        }
    }
}

/// The model of a vector of strings.
pub open spec fn strings_view(v: Seq<String>) -> Seq<Seq<char>> {
    v.map_values(|s: String| s@)
}

/// The model of a result that holds strings or an error message.
pub open spec fn strings_result_view(r: Result<Vec<String>, String>) -> Result<
    Seq<Seq<char>>,
    Seq<char>,
> {
    match r {
        Ok(v) => Ok(strings_view(v@)),
        Err(e) => Err(e@),
    }
}

/// Divides a text into facts and rules; each ends with a period that is
/// outside parentheses, brackets and quotes. Unmatched parentheses or
/// brackets give an error message.
pub fn separate_rules(text: &str) -> (r: Result<Vec<String>, String>)
    requires
        text@.len() <= i64::MAX,
    ensures
        strings_result_view(r) == separate_scan(text@, 0, Seq::empty(), Seq::empty(), 0, 0, 0),
{
    let chrs = str_to_chars(text);
    let mut rule_str: Vec<char> = Vec::new();
    let mut rules: Vec<String> = Vec::new();
    let mut round_depth: i64 = 0;
    let mut square_depth: i64 = 0;
    let mut num_quotes: i64 = 0;
    let n = chrs.len();
    let mut i: usize = 0;
    assert(strings_view(rules@) =~= Seq::<Seq<char>>::empty());
    while i < n
        invariant
            n == chrs@.len(),
            n <= i64::MAX,
            i <= n,
            -(i as int) <= round_depth <= i,
            -(i as int) <= square_depth <= i,
            0 <= num_quotes <= i,
            separate_scan(chrs@, 0, Seq::empty(), Seq::empty(), 0, 0, 0) == separate_scan(
                chrs@,
                i as int,
                rule_str@,
                strings_view(rules@),
                round_depth as int,
                square_depth as int,
                num_quotes as int,
            ),
        decreases n - i,
    {
        let ch = chrs[i];
        rule_str.push(ch);
        if ch == '.' && round_depth == 0 && square_depth == 0 && num_quotes % 2 == 0 {
            let ghost old_rules = strings_view(rules@);
            rules.push(chars_to_string(&rule_str));
            assert(strings_view(rules@) =~= old_rules.push(rule_str@));
            rule_str = Vec::new();
        } else if ch == '(' {
            round_depth = round_depth + 1;
        } else if ch == '[' {
            square_depth = square_depth + 1;
        } else if ch == ')' {
            round_depth = round_depth - 1;
        } else if ch == ']' {
            square_depth = square_depth - 1;
        } else if ch == '"' {
            num_quotes = num_quotes + 1;
        }
        i = i + 1;
    }
    let rest = chars_to_string(&rule_str);
    match unmatched_bracket(rest.as_str(), round_depth, square_depth) {
        Some(m) => Err(m),
        None => Ok(rules),
    }
}

/// The concatenation of the lines with their comments stripped, from line
/// `i` on, appended to `acc`; the first line that ends badly gives an error.
/// Lines are numbered from 1.
pub open spec fn join_lines(lines: Seq<Seq<char>>, i: int, acc: Seq<char>) -> Result<
    Seq<char>,
    Seq<char>,
>
    decreases lines.len() - i,
{
    if i < 0 || i >= lines.len() {
        Ok(acc)
    } else {
        let l = strip_comments_spec(lines[i]);
        if l.len() > 0 {
            match last_char_error(l, (i + 1) as nat) {
                Some(m) => Err(m),
                None => join_lines(lines, i + 1, acc + l),
            }
        } else {
            join_lines(lines, i + 1, acc)
        }
    }
}

/// What `read_facts_and_rules` gives for the lines of a source file.
pub open spec fn facts_and_rules_spec(lines: Seq<Seq<char>>) -> Result<Seq<Seq<char>>, Seq<char>> {
    match join_lines(lines, 0, Seq::empty()) {
        Err(m) => Err(m),
        Ok(long) => separate_scan(long, 0, Seq::empty(), Seq::empty(), 0, 0, 0),
    }
}

/// The first `n` lines, comments stripped, one after the other.
pub open spec fn stripped_concat(lines: Seq<Seq<char>>, n: int) -> Seq<char>
    decreases n,
{
    if n <= 0 || n > lines.len() {
        Seq::empty()
    } else {
        stripped_concat(lines, n - 1) + strip_comments_spec(lines[n - 1])
    }
}

/// The line at index `k` (numbered `k + 1`) ends with a character that
/// no line may end with, once its comment is stripped.
pub open spec fn ends_badly(lines: Seq<Seq<char>>, k: int) -> bool {
    last_char_error(strip_comments_spec(lines[k]), (k + 1) as nat) is Some
}

/// When no line ends badly, the facts and rules of a source file are those
/// that `separate_rules` finds in the concatenation of its lines, comments
/// stripped; otherwise the first line that ends badly gives the error.
pub proof fn law_facts_and_rules(lines: Seq<Seq<char>>)
    ensures
        (forall|k: int| 0 <= k < lines.len() ==> !ends_badly(lines, k)) ==> facts_and_rules_spec(
            lines,
        ) == separate_scan(
            stripped_concat(lines, lines.len() as int),
            0,
            Seq::empty(),
            Seq::empty(),
            0,
            0,
            0,
        ),
        forall|k: int|
            0 <= k < lines.len() && #[trigger] ends_badly(lines, k) && (forall|j: int|
                0 <= j < k ==> !ends_badly(lines, j)) ==> facts_and_rules_spec(lines) == Err::<
                Seq<Seq<char>>,
                Seq<char>,
            >(last_char_error(strip_comments_spec(lines[k]), (k + 1) as nat)->Some_0),
{
    lemma_join_lines(lines, 0);
}

/// Joining the lines from `i` on, after the first `i` have been joined,
/// gives all of them joined, or the error of the first line from `i` on
/// that ends badly.
proof fn lemma_join_lines(lines: Seq<Seq<char>>, i: int)
    requires
        0 <= i <= lines.len(),
    ensures
        (forall|k: int| i <= k < lines.len() ==> !ends_badly(lines, k)) ==> join_lines(
            lines,
            i,
            stripped_concat(lines, i),
        ) == Ok::<Seq<char>, Seq<char>>(stripped_concat(lines, lines.len() as int)),
        forall|k: int|
            i <= k < lines.len() && #[trigger] ends_badly(lines, k) && (forall|j: int|
                i <= j < k ==> !ends_badly(lines, j)) ==> join_lines(
                lines,
                i,
                stripped_concat(lines, i),
            ) == Err::<Seq<char>, Seq<char>>(
                last_char_error(strip_comments_spec(lines[k]), (k + 1) as nat)->Some_0,
            ),
    decreases lines.len() - i,
{
    if i < lines.len() {
        lemma_join_lines(lines, i + 1);
        let l = strip_comments_spec(lines[i]);
        assert(stripped_concat(lines, i + 1) == stripped_concat(lines, i) + l);
        if l.len() == 0 {
            assert(stripped_concat(lines, i) + l =~= stripped_concat(lines, i));
        }
        assert forall|k: int|
            i <= k < lines.len() && #[trigger] ends_badly(lines, k) && (forall|j: int|
                i <= j < k ==> !ends_badly(lines, j)) implies join_lines(
                lines,
                i,
                stripped_concat(lines, i),
            ) == Err::<Seq<char>, Seq<char>>(
                last_char_error(strip_comments_spec(lines[k]), (k + 1) as nat)->Some_0,
            ) by {
            if k > i {
                assert(!ends_badly(lines, i));
            }
        }
        if forall|k: int| i <= k < lines.len() ==> !ends_badly(lines, k) {
            assert(!ends_badly(lines, i));
        }
    } else {
        assert(lines.len() as int == i);
    }
}

/// Prepares the lines of a Suiron source file: strips comments, checks
/// line ends, and divides the text into facts and rules.
///
/// The lines are those of the file, in order (an unreadable line counts as
/// an empty line). The combined text must fit the 32-bit depth counters.
pub fn read_facts_and_rules(lines: &Vec<String>) -> (r: Result<Vec<String>, String>)
    requires
        forall|k: int| 0 <= k < lines@.len() ==> (#[trigger] lines@[k])@.len() <= i64::MAX,
        lines@.len() < usize::MAX,
    ensures
        match facts_and_rules_spec(strings_view(lines@)) {
            Ok(rs) => match r {
                Ok(v) => strings_view(v@) == rs,
                Err(_) => false,
            },
            Err(m) => match r {
                Ok(_) => false,
                Err(e) => e@ == m,
            },
        } || (r is Err && (join_lines(strings_view(lines@), 0, Seq::empty()) matches Ok(long)
            && long.len() > i64::MAX)),
{
    let ghost ls = strings_view(lines@);
    let mut long_line: Vec<char> = Vec::new();
    let mut i: usize = 0;
    while i < lines.len()
        invariant
            i <= lines@.len(),
            lines@.len() < usize::MAX,
            ls == strings_view(lines@),
            forall|k: int| 0 <= k < lines@.len() ==> (#[trigger] lines@[k])@.len() <= i64::MAX,
            join_lines(ls, 0, Seq::empty()) == join_lines(ls, i as int, long_line@),
        decreases lines@.len() - i,
    {
        assert(ls[i as int] == lines@[i as int]@);
        let line = strip_comments(lines[i].as_str());
        if line.as_str().unicode_len() > 0 {
            match check_last_char(line.as_str(), i + 1) {
                Some(m) => {
                    return Err(m);
                },
                None => {},
            }
            let lc = str_to_chars(line.as_str());
            append_chars(&mut long_line, &lc);
        }
        i = i + 1;
    }
    if long_line.len() as u64 > 9223372036854775807u64 {
        let e = str_to_chars("Source text is too long.");
        return Err(chars_to_string(&e));
    }
    let text = chars_to_string(&long_line);
    separate_rules(text.as_str())
}

/// Produces a parsing error message, which includes the previous line.
pub fn load_parse_error(err: String, previous_line: String) -> (r: String)
    ensures
        previous_line@.len() == 0 ==> r@ == err@ + " Check start of file."@,
        previous_line@.len() > 0 ==> r@ == err@ + " Error occurs after: "@ + previous_line@,
{
    let mut m = str_to_chars(err.as_str());
    if previous_line.as_str().unicode_len() == 0 {
        append_str(&mut m, " Check start of file.");
    } else {
        append_str(&mut m, " Error occurs after: ");
        append_str(&mut m, previous_line.as_str());
    }
    chars_to_string(&m)
}


/// The message of `load_parse_error`.
pub open spec fn load_error_text(err: Seq<char>, previous: Seq<char>) -> Seq<char> {
    if previous.len() == 0 {
        err + " Check start of file."@
    } else {
        err + " Error occurs after: "@ + previous
    }
}

/// Loading the facts and rules `texts[i..]`, after the text `previous`:
/// the rules parsed, in order, up to the first that does not parse, and
/// the error message for that one.
#[verifier::opaque]
pub open spec fn load_rules_spec(texts: Seq<Seq<char>>, i: int, previous: Seq<char>) -> (
    Seq<(Term, GoalView)>,
    Option<Seq<char>>,
)
    decreases texts.len() - i,
{
    if i < 0 || i >= texts.len() {
        (Seq::empty(), None)
    } else {
        match parse_rule_spec(texts[i]) {
            Ok(r) => {
                let (rs, e) = load_rules_spec(texts, i + 1, texts[i]);
                (seq![r] + rs, e)
            },
            Err(m) => (Seq::empty(), Some(load_error_text(m, previous))),
        }
    }
}

/// What `parse_rule` gives for a text, kept folded while loading.
#[verifier::opaque]
pub open spec fn parsed_text(s: Seq<char>) -> Result<(Term, GoalView), Seq<char>> {
    parse_rule_spec(s)
}

/// Parses one text of a source file as a fact or rule.
pub(crate) fn parse_text(t: &String) -> (r: Result<crate::rule::Rule, String>)
    ensures
        crate::rule::rule_result_view(r) == parsed_text(t@),
        r matches Ok(x) ==> crate::rule::rule_keyed(x@),
{
    proof {
        reveal(parsed_text);
        lemma_parsed_rule_keyed(t@);
    }
    parse_rule(t.as_str())
}

/// Loading at the end of the texts adds nothing.
pub proof fn lemma_load_end(texts: Seq<Seq<char>>, i: int, previous: Seq<char>)
    requires
        i >= texts.len(),
    ensures
        load_rules_spec(texts, i, previous) == (Seq::<(Term, GoalView)>::empty(), None::<Seq<char>>),
{
    reveal(load_rules_spec);
    reveal(parsed_text);
}

/// Loading a text that parses adds its rule in front of the rest.
pub proof fn lemma_load_ok(texts: Seq<Seq<char>>, i: int, previous: Seq<char>, r: (Term, GoalView))
    requires
        0 <= i < texts.len(),
        parsed_text(texts[i]) == Ok::<(Term, GoalView), Seq<char>>(r),
    ensures
        load_rules_spec(texts, i, previous) == (
            seq![r] + load_rules_spec(texts, i + 1, texts[i]).0,
            load_rules_spec(texts, i + 1, texts[i]).1,
        ),
{
    reveal(load_rules_spec);
    reveal(parsed_text);
}

/// Loading stops at a text that does not parse.
pub proof fn lemma_load_err(texts: Seq<Seq<char>>, i: int, previous: Seq<char>, m: Seq<char>)
    requires
        0 <= i < texts.len(),
        parsed_text(texts[i]) == Err::<(Term, GoalView), Seq<char>>(m),
    ensures
        load_rules_spec(texts, i, previous) == (
            Seq::<(Term, GoalView)>::empty(),
            Some(load_error_text(m, previous)),
        ),
{
    reveal(load_rules_spec);
    reveal(parsed_text);
}

/// The rules of a knowledge base before loading, with those still to load,
/// are those it started with and all that the load adds.
pub open spec fn load_progress(
    now: Seq<(Seq<char>, Seq<(Term, GoalView)>)>,
    todo: Seq<(Term, GoalView)>,
    start: Seq<(Seq<char>, Seq<(Term, GoalView)>)>,
    all: Seq<(Term, GoalView)>,
) -> bool {
    forall|k: Seq<char>|
        #![trigger kb_rules(now, k)]
        kb_rules(now, k) + keyed_rules(todo, k) == kb_rules(start, k) + keyed_rules(all, k)
}

/// Adding the first rule still to load keeps the progress.
proof fn lemma_load_progress(
    before: Seq<(Seq<char>, Seq<(Term, GoalView)>)>,
    after: Seq<(Seq<char>, Seq<(Term, GoalView)>)>,
    r: (Term, GoalView),
    rest: Seq<(Term, GoalView)>,
    start: Seq<(Seq<char>, Seq<(Term, GoalView)>)>,
    all: Seq<(Term, GoalView)>,
)
    requires
        load_progress(before, seq![r] + rest, start, all),
        forall|k: Seq<char>|
            #![trigger kb_rules(after, k)]
            kb_rules(after, k) == if k == rule_key(r) {
                kb_rules(before, k).push(r)
            } else {
                kb_rules(before, k)
            },
    ensures
        load_progress(after, rest, start, all),
{
    assert forall|k: Seq<char>| #![trigger kb_rules(after, k)]
        kb_rules(after, k) + keyed_rules(rest, k) == kb_rules(start, k) + keyed_rules(all, k) by {
        lemma_keyed_rules_front(r, rest, k);
        assert(kb_rules(before, k) + keyed_rules(seq![r] + rest, k) == kb_rules(start, k)
            + keyed_rules(all, k));
        if rule_key(r) == k {
            assert(kb_rules(before, k).push(r) + keyed_rules(rest, k) =~= kb_rules(before, k) + (
            seq![r] + keyed_rules(rest, k)));
        }
    }
}

/// Progress with nothing left to load: all has been added.
proof fn lemma_load_done(
    now: Seq<(Seq<char>, Seq<(Term, GoalView)>)>,
    start: Seq<(Seq<char>, Seq<(Term, GoalView)>)>,
    all: Seq<(Term, GoalView)>,
)
    requires
        load_progress(now, Seq::empty(), start, all),
    ensures
        forall|k: Seq<char>|
            #![trigger kb_rules(now, k)]
            kb_rules(now, k) == kb_rules(start, k) + keyed_rules(all, k),
{
    assert forall|k: Seq<char>| #![trigger kb_rules(now, k)]
        kb_rules(now, k) == kb_rules(start, k) + keyed_rules(all, k) by {
        assert(keyed_rules(Seq::<(Term, GoalView)>::empty(), k) =~= Seq::<(Term, GoalView)>::empty());
        assert(kb_rules(now, k) + keyed_rules(Seq::<(Term, GoalView)>::empty(), k) =~= kb_rules(now, k));
    }
}

/// Loads a knowledge base with the facts and rules of the lines of a
/// source file (see `read_facts_and_rules`): each is parsed and added in
/// order. Gives the error message of the first that fails, naming the text
/// after which it occurs; the rules before it stay added.
pub fn load_kb_from_lines(kb: &mut KnowledgeBase, lines: &Vec<String>) -> (r: Option<String>)
    requires
        kb_wf(old(kb).view_entries()),
        forall|k: int| 0 <= k < lines@.len() ==> (#[trigger] lines@[k])@.len() <= i64::MAX,
        lines@.len() < usize::MAX,
    ensures
        kb_wf(final(kb).view_entries()),
        match facts_and_rules_spec(strings_view(lines@)) {
            Ok(texts) => {
                &&& forall|k: Seq<char>|
                    #![trigger kb_rules(final(kb).view_entries(), k)]
                    kb_rules(final(kb).view_entries(), k) == kb_rules(old(kb).view_entries(), k)
                        + keyed_rules(load_rules_spec(texts, 0, Seq::empty()).0, k)
                &&& match r {
                    Some(m) => load_rules_spec(texts, 0, Seq::empty()).1 == Some(m@),
                    None => load_rules_spec(texts, 0, Seq::empty()).1 is None,
                }
            },
            Err(m) => r matches Some(x) && x@ == m && final(kb).view_entries() == old(
                kb,
            ).view_entries(),
        } || (r is Some && final(kb).view_entries() == old(kb).view_entries() && (join_lines(
            strings_view(lines@),
            0,
            Seq::empty(),
        ) matches Ok(long) && long.len() > i64::MAX)),
{
    let texts = match read_facts_and_rules(lines) {
        Ok(t) => t,
        Err(m) => {
            return Some(m);
        },
    };
    let ghost tv = strings_view(texts@);
    let ghost es0 = kb.view_entries();
    let ghost total = load_rules_spec(tv, 0, Seq::empty());
    let mut previous = String::new();
    let mut i: usize = 0;
    while i < texts.len()
        invariant
            tv == strings_view(texts@),
            facts_and_rules_spec(strings_view(lines@)) == Ok::<Seq<Seq<char>>, Seq<char>>(tv),
            es0 == old(kb).view_entries(),
            i <= texts@.len(),
            kb_wf(kb.view_entries()),
            total == load_rules_spec(tv, 0, Seq::empty()),
            total.1 == load_rules_spec(tv, i as int, previous@).1,
            load_progress(kb.view_entries(), load_rules_spec(tv, i as int, previous@).0, es0, total.0),
        decreases texts@.len() - i,
    {
        assert(tv[i as int] == texts@[i as int]@);
        match parse_text(&texts[i]) {
            Ok(rule) => {
                let ghost rv = rule@;
                proof {
                    lemma_load_ok(tv, i as int, previous@, rv);
                }
                let ghost rest = load_rules_spec(tv, i + 1, tv[i as int]).0;
                let ghost es_before = kb.view_entries();
                add_rule(kb, rule);
                proof {
                    lemma_load_progress(es_before, kb.view_entries(), rv, rest, es0, total.0);
                }
                previous = texts[i].clone();
                assert(previous@ == tv[i as int]);
                i = i + 1;
            },
            Err(m) => {
                proof {
                    lemma_load_err(tv, i as int, previous@, m@);
                    lemma_load_done(kb.view_entries(), es0, total.0);
                }
                let e = load_parse_error(m, previous);
                return Some(e);
            },
        }
    }
    proof {
        lemma_load_end(tv, i as int, previous@);
        lemma_load_done(kb.view_entries(), es0, total.0);
    }
    None
}

/// The rules with a key, of a sequence with one rule in front.
proof fn lemma_keyed_rules_front(r: (Term, GoalView), rs: Seq<(Term, GoalView)>, k: Seq<char>)
    ensures
        keyed_rules(seq![r] + rs, k) == if rule_key(r) == k {
            seq![r] + keyed_rules(rs, k)
        } else {
            keyed_rules(rs, k)
        },
    decreases rs.len(),
{
    if rs.len() == 0 {
        assert(seq![r] + rs =~= seq![r]);
        assert(seq![r].drop_last() =~= Seq::<(Term, GoalView)>::empty());
        assert(keyed_rules(Seq::<(Term, GoalView)>::empty(), k) =~= Seq::<(Term, GoalView)>::empty());
        if rule_key(r) == k {
            assert(Seq::<(Term, GoalView)>::empty().push(r) =~= seq![r] + Seq::<(Term, GoalView)>::empty());
        }
    } else {
        lemma_keyed_rules_front(r, rs.drop_last(), k);
        assert((seq![r] + rs).drop_last() =~= seq![r] + rs.drop_last());
        assert((seq![r] + rs).last() == rs.last());
        if rule_key(r) == k {
            assert((seq![r] + keyed_rules(rs.drop_last(), k)).push(rs.last()) =~= seq![r]
                + keyed_rules(rs.drop_last(), k).push(rs.last()));
        }
    }
}
} // verus!
