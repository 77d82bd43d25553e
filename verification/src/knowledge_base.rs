//! The knowledge base: facts and rules, indexed by the key (functor/arity)
//! of their heads, eg. `loves/2`. The keys are kept in sorted order.
use vstd::prelude::*;
use crate::unifiable::Term;
use crate::goal::{GoalView, goal_size, recreate_goal};
use crate::rule::{Rule, rule_view, rule_text, rule_key, rule_keyed};
use crate::text::{str_to_chars, chars_to_string, append_str, append_chars};
use crate::logic_var::{VarMap, VarIds};
use crate::variables::{term_size, recreate_spec};

verus! {

/// Facts and rules, grouped by key; keys in ascending order.
pub struct KnowledgeBase {
    pub entries: Vec<(String, Vec<Rule>)>,
}

/// The model of a rule list.
pub open spec fn rules_view(rs: Seq<Rule>) -> Seq<(Term, GoalView)> {
    rs.map_values(|r: Rule| rule_view(r))
}

/// The model of the entries: each key with its rules.
pub open spec fn entries_view(es: Seq<(String, Vec<Rule>)>) -> Seq<(Seq<char>, Seq<(Term, GoalView)>)> {
    es.map_values(|e: (String, Vec<Rule>)| (e.0@, rules_view(e.1@)))
}

/// Lexicographic order of texts (by character).
pub open spec fn str_lt(a: Seq<char>, b: Seq<char>) -> bool
    decreases a.len(),
{
    if a.len() == 0 {
        b.len() > 0
    } else if b.len() == 0 {
        false
    } else if a[0] != b[0] {
        a[0] < b[0]
    } else {
        str_lt(a.drop_first(), b.drop_first())
    }
}

/// Two texts are equal or one precedes the other.
pub proof fn lemma_str_lt_total(a: Seq<char>, b: Seq<char>)
    ensures
        str_lt(a, b) || a == b || str_lt(b, a),
        !(str_lt(a, b) && str_lt(b, a)),
        !str_lt(a, a),
    decreases a.len(),
{
    if a.len() > 0 && b.len() > 0 && a[0] == b[0] {
        lemma_str_lt_total(a.drop_first(), b.drop_first());
        if a.drop_first() == b.drop_first() {
            assert forall|i: int| 0 <= i < a.len() implies a[i] == b[i] by {
                if i > 0 {
                    assert(a[i] == a.drop_first()[i - 1]);
                    assert(b[i] == b.drop_first()[i - 1]);
                }
            }
            assert(a =~= b);
        }
    } else if a.len() == 0 && b.len() == 0 {
        assert(a =~= b);
    }
    if a.len() > 0 {
        lemma_str_lt_total(a.drop_first(), a.drop_first());
    }
}

/// A well-formed knowledge base: keys in strictly ascending order, each
/// with at least one rule, and every rule filed under its own key.
pub open spec fn kb_wf(es: Seq<(Seq<char>, Seq<(Term, GoalView)>)>) -> bool {
    &&& forall|i: int| 0 <= i < es.len() - 1 ==> str_lt(#[trigger] es[i].0, es[i + 1].0)
    &&& forall|i: int| 0 <= i < es.len() ==> (#[trigger] es[i]).1.len() > 0
    &&& forall|i: int, j: int|
        0 <= i < es.len() && 0 <= j < es[i].1.len() ==> rule_keyed(#[trigger] es[i].1[j])
            && rule_key(es[i].1[j]) == es[i].0
}

/// The rules filed under `key` (none if it is absent).
pub open spec fn kb_rules(es: Seq<(Seq<char>, Seq<(Term, GoalView)>)>, key: Seq<char>) -> Seq<
    (Term, GoalView),
>
    decreases es.len(),
{
    if es.len() == 0 {
        Seq::empty()
    } else if es[0].0 == key {
        es[0].1
    } else {
        kb_rules(es.drop_first(), key)
    }
}

impl KnowledgeBase {
    /// The model of the knowledge base.
    pub open spec fn view_entries(&self) -> Seq<(Seq<char>, Seq<(Term, GoalView)>)> {
        entries_view(self.entries@)
    }

    /// An empty knowledge base.
    pub fn new() -> (kb: KnowledgeBase)
        ensures
            kb.view_entries().len() == 0,
            kb_wf(kb.view_entries()),
    {
        KnowledgeBase { entries: Vec::new() }
    }
}

/// Compares two texts: is `a` before `b`?
pub fn text_lt(a: &Vec<char>, b: &Vec<char>) -> (r: bool)
    ensures
        r == str_lt(a@, b@),
{
    let mut i: usize = 0;
    assert(a@.subrange(0, a@.len() as int) =~= a@);
    assert(b@.subrange(0, b@.len() as int) =~= b@);
    while i < a.len() && i < b.len() && a[i] == b[i]
        invariant
            i <= a@.len(),
            i <= b@.len(),
            str_lt(a@, b@) == str_lt(a@.subrange(i as int, a@.len() as int), b@.subrange(i as int, b@.len() as int)),
        decreases a@.len() - i,
    {
        let ghost sa = a@.subrange(i as int, a@.len() as int);
        let ghost sb = b@.subrange(i as int, b@.len() as int);
        assert(sa.drop_first() =~= a@.subrange(i + 1, a@.len() as int));
        assert(sb.drop_first() =~= b@.subrange(i + 1, b@.len() as int));
        i = i + 1;
    }
    let ghost sa = a@.subrange(i as int, a@.len() as int);
    let ghost sb = b@.subrange(i as int, b@.len() as int);
    if i == a.len() {
        return i < b.len();
    }
    if i == b.len() {
        return false;
    }
    assert(sa[0] == a@[i as int] && sb[0] == b@[i as int]);
    a[i] < b[i]
}

/// The rules under `key` at entry `k` and after, if no earlier entry has it.
proof fn lemma_kb_rules_at(es: Seq<(Seq<char>, Seq<(Term, GoalView)>)>, key: Seq<char>, k: int)
    requires
        0 <= k <= es.len(),
        forall|i: int| 0 <= i < k ==> es[i].0 != key,
    ensures
        kb_rules(es, key) == kb_rules(es.subrange(k, es.len() as int), key),
    decreases k,
{
    if k > 0 {
        assert(es.drop_first().subrange(k - 1, es.drop_first().len() as int) =~= es.subrange(k, es.len() as int));
        lemma_kb_rules_at(es.drop_first(), key, k - 1);
    } else {
        assert(es.subrange(0, es.len() as int) =~= es);
    }
}

/// Adds one fact or rule to the knowledge base, under the key of its head.
pub fn add_rule(kb: &mut KnowledgeBase, rule: Rule)
    requires
        kb_wf(old(kb).view_entries()),
        rule_keyed(rule@),
    ensures
        kb_wf(final(kb).view_entries()),
        forall|k: Seq<char>|
            #![trigger kb_rules(final(kb).view_entries(), k)]
            kb_rules(final(kb).view_entries(), k) == if k == rule_key(rule@) {
                kb_rules(old(kb).view_entries(), k).push(rule@)
            } else {
                kb_rules(old(kb).view_entries(), k)
            },
{
    let key = rule.key();
    let kc = str_to_chars(key.as_str());
    let ghost es = kb.view_entries();
    let n = kb.entries.len();
    let mut j: usize = 0;
    while j < n
        invariant
            n == kb.entries@.len(),
            es == kb.view_entries(),
            j <= n,
            kc@ == rule_key(rule@),
            forall|i: int| 0 <= i < j ==> str_lt(#[trigger] es[i].0, kc@),
        ensures
            j <= n,
            forall|i: int| 0 <= i < j ==> str_lt(#[trigger] es[i].0, kc@),
            j < n ==> !str_lt(es[j as int].0, kc@),
        decreases n - j,
    {
        let ec = str_to_chars(kb.entries[j].0.as_str());
        assert(es[j as int].0 == kb.entries@[j as int].0@);
        if !text_lt(&ec, &kc) {
            break;
        }
        j = j + 1;
    }
    proof {
        assert forall|i: int| 0 <= i < j implies es[i].0 != kc@ by {
            lemma_str_lt_total(es[i].0, kc@);
        }
        lemma_kb_rules_at(es, kc@, j as int);
    }
    let same = if j < n {
        let ec = str_to_chars(kb.entries[j].0.as_str());
        crate::text::chars_eq(&ec, &kc)
    } else {
        false
    };
    if same {
        let ghost rv = rule@;
        let mut entry = kb.entries.remove(j);
        entry.1.push(rule);
        kb.entries.insert(j, entry);
        proof {
            let es2 = kb.view_entries();
            assert(es2.len() == es.len());
            assert forall|i: int| 0 <= i < es.len() && i != j implies es2[i] == es[i] by {
                assert(kb.entries@[i] == old(kb).entries@[i]);
            }
            assert(es2[j as int].0 == es[j as int].0);
            assert(es2[j as int].1 =~= es[j as int].1.push(rv));
            assert forall|k: Seq<char>| #![trigger kb_rules(es2, k)]
                kb_rules(es2, k) == if k == kc@ { kb_rules(es, k).push(rv) } else { kb_rules(es, k) } by {
                if k == kc@ {
                    lemma_kb_rules_at(es2, k, j as int);
                } else {
                    lemma_kb_rules_prefix_same(es, es2, k, j as int);
                }
            }
        }
    } else {
        let ghost rv = rule@;
        let mut rules: Vec<Rule> = Vec::new();
        rules.push(rule);
        kb.entries.insert(j, (key, rules));
        proof {
            let es2 = kb.view_entries();
            if j < n {
                lemma_str_lt_total(es[j as int].0, kc@);
            }
            assert forall|i: int| 0 <= i < es2.len() implies es2[i] == es.insert(j as int, (kc@, seq![rv]))[i] by {
                if i < j {
                    assert(kb.entries@[i] == old(kb).entries@[i]);
                } else if i > j {
                    assert(kb.entries@[i] == old(kb).entries@[i - 1]);
                } else {
                    assert(rules_view(kb.entries@[i].1@) =~= seq![rv]);
                }
            }
            assert(es2 =~= es.insert(j as int, (kc@, seq![rv])));
            assert forall|k: Seq<char>| #![trigger kb_rules(es2, k)]
                kb_rules(es2, k) == if k == kc@ { kb_rules(es, k).push(rv) } else { kb_rules(es, k) } by {
                if k == kc@ {
                    lemma_kb_rules_at(es2, k, j as int);
                    if j < n {
                        lemma_kb_rules_absent(es, k, j as int);
                    } else {
                        assert(es.subrange(j as int, es.len() as int) =~= Seq::<(Seq<char>, Seq<(Term, GoalView)>)>::empty());
                    }
                } else {
                    lemma_kb_rules_insert_other(es, k, j as int, (kc@, seq![rv]));
                }
            }
        }
    }
}

/// Entries that differ only at index `j`, whose keys are the same and not
/// `k`, give the same rules for `k`.
proof fn lemma_kb_rules_prefix_same(
    es: Seq<(Seq<char>, Seq<(Term, GoalView)>)>,
    es2: Seq<(Seq<char>, Seq<(Term, GoalView)>)>,
    k: Seq<char>,
    j: int,
)
    requires
        0 <= j < es.len(),
        es.len() == es2.len(),
        forall|i: int| 0 <= i < es.len() && i != j ==> es2[i] == es[i],
        es2[j].0 == es[j].0,
        es[j].0 != k,
    ensures
        kb_rules(es2, k) == kb_rules(es, k),
    decreases es.len(),
{
    if j > 0 {
        lemma_kb_rules_prefix_same(es.drop_first(), es2.drop_first(), k, j - 1);
    } else {
        assert(es.drop_first() =~= es2.drop_first());
    }
}

/// A key after index `j` in sorted entries, where the key at `j` is
/// greater, is absent from `es[j..]`.
proof fn lemma_kb_rules_absent(es: Seq<(Seq<char>, Seq<(Term, GoalView)>)>, k: Seq<char>, j: int)
    requires
        0 <= j < es.len(),
        str_lt(k, es[j].0),
        forall|i: int| 0 <= i < es.len() - 1 ==> str_lt(#[trigger] es[i].0, es[i + 1].0),
    ensures
        kb_rules(es.subrange(j, es.len() as int), k) == Seq::<(Term, GoalView)>::empty(),
    decreases es.len() - j,
{
    let rest = es.subrange(j, es.len() as int);
    lemma_str_lt_total(k, es[j].0);
    assert(rest[0] == es[j]);
    assert(rest[0].0 != k);
    if j + 1 < es.len() {
        lemma_str_lt_trans(k, es[j].0, es[j + 1].0);
        lemma_kb_rules_absent(es, k, j + 1);
        assert(rest.drop_first() =~= es.subrange(j + 1, es.len() as int));
        assert(kb_rules(rest, k) == kb_rules(rest.drop_first(), k));
    } else {
        assert(rest.drop_first() =~= Seq::<(Seq<char>, Seq<(Term, GoalView)>)>::empty());
        assert(kb_rules(rest, k) == kb_rules(rest.drop_first(), k));
    }
}

/// The order of texts is transitive.
pub proof fn lemma_str_lt_trans(a: Seq<char>, b: Seq<char>, c: Seq<char>)
    requires
        str_lt(a, b),
        str_lt(b, c),
    ensures
        str_lt(a, c),
    decreases a.len(),
{
    if a.len() > 0 && b.len() > 0 && c.len() > 0 && a[0] == b[0] && b[0] == c[0] {
        lemma_str_lt_trans(a.drop_first(), b.drop_first(), c.drop_first());
    }
}

/// Inserting an entry with another key keeps the rules of `k`.
proof fn lemma_kb_rules_insert_other(
    es: Seq<(Seq<char>, Seq<(Term, GoalView)>)>,
    k: Seq<char>,
    j: int,
    e: (Seq<char>, Seq<(Term, GoalView)>),
)
    requires
        0 <= j <= es.len(),
        e.0 != k,
    ensures
        kb_rules(es.insert(j, e), k) == kb_rules(es, k),
    decreases es.len(),
{
    if j > 0 {
        assert(es.insert(j, e).drop_first() =~= es.drop_first().insert(j - 1, e));
        lemma_kb_rules_insert_other(es.drop_first(), k, j - 1, e);
    } else {
        assert(es.insert(0, e).drop_first() =~= es);
    }
}


/// The rules among `rs` with the key `k`, in order.
pub open spec fn keyed_rules(rs: Seq<(Term, GoalView)>, k: Seq<char>) -> Seq<(Term, GoalView)>
    decreases rs.len(),
{
    if rs.len() == 0 {
        Seq::empty()
    } else if rule_key(rs.last()) == k {
        keyed_rules(rs.drop_last(), k).push(rs.last())
    } else {
        keyed_rules(rs.drop_last(), k)
    }
}

/// Adds facts and rules to the knowledge base, each under its key, in order.
pub fn add_rules(kb: &mut KnowledgeBase, rules: Vec<Rule>)
    requires
        kb_wf(old(kb).view_entries()),
        forall|i: int| 0 <= i < rules@.len() ==> rule_keyed(#[trigger] rules@[i]@),
    ensures
        kb_wf(final(kb).view_entries()),
        forall|k: Seq<char>|
            #![trigger kb_rules(final(kb).view_entries(), k)]
            kb_rules(final(kb).view_entries(), k) == kb_rules(old(kb).view_entries(), k)
                + keyed_rules(rules_view(rules@), k),
{
    let ghost rv = rules_view(rules@);
    let ghost es0 = kb.view_entries();
    let mut rules = rules;
    let mut pending: Vec<Rule> = Vec::new();
    // reverse, so that rules come out in order with pop
    while rules.len() > 0
        invariant
            rules_view(rules@) + rules_view(pending@).reverse() == rv,
            forall|i: int| 0 <= i < rules@.len() ==> rule_keyed(#[trigger] rules@[i]@),
            forall|i: int| 0 <= i < pending@.len() ==> rule_keyed(#[trigger] pending@[i]@),
        decreases rules@.len(),
    {
        let ghost before = rules_view(rules@);
        let ghost pb = rules_view(pending@);
        let r = rules.pop().unwrap();
        pending.push(r);
        assert(rules_view(rules@) =~= before.drop_last());
        assert(rules_view(pending@) =~= pb.push(r@));
        assert(rules_view(pending@).reverse() =~= seq![r@] + pb.reverse());
        assert(before =~= before.drop_last().push(r@));
    }
    assert(rules_view(pending@).reverse() =~= rv);
    let ghost mut done: Seq<(Term, GoalView)> = Seq::empty();
    while pending.len() > 0
        invariant
            kb_wf(kb.view_entries()),
            done + rules_view(pending@).reverse() == rv,
            forall|i: int| 0 <= i < pending@.len() ==> rule_keyed(#[trigger] pending@[i]@),
            forall|k: Seq<char>|
                #![trigger kb_rules(kb.view_entries(), k)]
                kb_rules(kb.view_entries(), k) == kb_rules(es0, k) + keyed_rules(done, k),
        decreases pending@.len(),
    {
        let ghost pb = rules_view(pending@);
        let r = pending.pop().unwrap();
        let ghost r_v = r@;
        assert(rules_view(pending@) =~= pb.drop_last());
        assert(pb.reverse() =~= seq![r_v] + pb.drop_last().reverse());
        let ghost es_before = kb.view_entries();
        add_rule(kb, r);
        proof {
            let d2 = done.push(r_v);
            assert(d2.drop_last() =~= done);
            assert forall|k: Seq<char>| #![trigger kb_rules(kb.view_entries(), k)]
                kb_rules(kb.view_entries(), k) == kb_rules(es0, k) + keyed_rules(d2, k) by {
                assert(kb_rules(es_before, k) == kb_rules(es0, k) + keyed_rules(done, k));
                if rule_key(r_v) == k {
                    assert(kb_rules(es0, k) + keyed_rules(done, k).push(r_v) =~= (kb_rules(es0, k) + keyed_rules(done, k)).push(r_v));
                }
            }
            assert(d2 + rules_view(pending@).reverse() =~= done + pb.reverse());
            done = d2;
        }
    }
    assert(done =~= rv);
}

/// The number of facts and rules under a key (eg. `loves/2`).
pub fn count_rules(kb: &KnowledgeBase, predicate_name: &str) -> (n: usize)
    ensures
        n == kb_rules(kb.view_entries(), predicate_name@).len(),
{
    match find_entry(kb, predicate_name) {
        Some(j) => kb.entries[j].1.len(),
        None => 0,
    }
}

/// The index of the entry with the given key, if any.
fn find_entry(kb: &KnowledgeBase, key: &str) -> (r: Option<usize>)
    ensures
        match r {
            Some(j) => j < kb.entries@.len() && kb_rules(kb.view_entries(), key@) == kb.view_entries()[j as int].1,
            None => kb_rules(kb.view_entries(), key@) == Seq::<(Term, GoalView)>::empty(),
        },
{
    let ghost es = kb.view_entries();
    let kc = str_to_chars(key);
    let mut j: usize = 0;
    while j < kb.entries.len()
        invariant
            es == kb.view_entries(),
            j <= kb.entries@.len(),
            kc@ == key@,
            forall|i: int| 0 <= i < j ==> es[i].0 != key@,
        decreases kb.entries@.len() - j,
    {
        let ec = str_to_chars(kb.entries[j].0.as_str());
        assert(es[j as int].0 == kb.entries@[j as int].0@);
        if crate::text::chars_eq(&ec, &kc) {
            proof {
                lemma_kb_rules_at(es, key@, j as int);
                let rest = es.subrange(j as int, es.len() as int);
                assert(rest[0] == es[j as int]);
            }
            return Some(j);
        }
        j = j + 1;
    }
    proof {
        lemma_kb_rules_at(es, key@, j as int);
        assert(es.subrange(j as int, es.len() as int) =~= Seq::<(Seq<char>, Seq<(Term, GoalView)>)>::empty());
    }
    None
}

/// Gets the fact or rule at `index` under a key, with its logic variables
/// recreated with fresh IDs.
pub fn get_rule(kb: &KnowledgeBase, predicate_name: &str, index: usize, ids: &mut VarIds) -> (r: Rule)
    requires
        index < kb_rules(kb.view_entries(), predicate_name@).len(),
        old(ids).last + term_size(kb_rules(kb.view_entries(), predicate_name@)[index as int].0)
            + goal_size(kb_rules(kb.view_entries(), predicate_name@)[index as int].1) + 4 < usize::MAX,
    ensures
        ({
            let rule = kb_rules(kb.view_entries(), predicate_name@)[index as int];
            let (h, m1, l1) = recreate_spec(rule.0, Map::empty(), old(ids).last as nat);
            let (b, m2, l2) = recreate_goal(rule.1, m1, l1);
            r@ == (h, b) && final(ids).last == l2
        }),
{
    let j = match find_entry(kb, predicate_name) {
        Some(j) => j,
        None => {
            proof {
                assert(false);
            }
            0
        },
    };
    let rules = &kb.entries[j].1;
    assert(kb.view_entries()[j as int].1 == rules_view(rules@));
    let rule = rules[index].copy();
    let mut vars = VarMap::new();
    assert(vars.view_map() =~= Map::<Seq<char>, usize>::empty());
    rule.recreate_variables(&mut vars, ids)
}

/// The lines of the rules, each after a tab.
pub open spec fn rules_lines(rs: Seq<(Term, GoalView)>) -> Seq<char>
    decreases rs.len(),
{
    if rs.len() == 0 {
        Seq::empty()
    } else {
        rules_lines(rs.drop_last()) + seq!['\t'] + rule_text(rs.last()) + seq!['\n']
    }
}

/// The lines of the entries: each key, then its rules.
pub open spec fn entries_lines(es: Seq<(Seq<char>, Seq<(Term, GoalView)>)>) -> Seq<char>
    decreases es.len(),
{
    if es.len() == 0 {
        Seq::empty()
    } else {
        entries_lines(es.drop_last()) + es.last().0 + seq!['\n'] + rules_lines(es.last().1)
    }
}

/// The text that `format_kb` gives.
pub open spec fn kb_text(es: Seq<(Seq<char>, Seq<(Term, GoalView)>)>) -> Seq<char> {
    "_____ Contents of Knowledge Base _____\n"@ + entries_lines(es)
        + "______________________________________"@
}

/// Formats the contents of the knowledge base for display, key by key in
/// ascending order.
pub fn format_kb(kb: &KnowledgeBase) -> (s: String)
    ensures
        s@ == kb_text(kb.view_entries()),
{
    let ghost es = kb.view_entries();
    let mut out: Vec<char> = Vec::new();
    append_str(&mut out, "_____ Contents of Knowledge Base _____\n");
    let ghost head = out@;
    let mut i: usize = 0;
    while i < kb.entries.len()
        invariant
            es == kb.view_entries(),
            i <= es.len(),
            out@ == head + entries_lines(es.take(i as int)),
        decreases es.len() - i,
    {
        let ghost before = out@;
        append_str(&mut out, kb.entries[i].0.as_str());
        out.push('\n');
        let rules = &kb.entries[i].1;
        let ghost rv = rules_view(rules@);
        assert(es[i as int] == (kb.entries@[i as int].0@, rv));
        let ghost mid = out@;
        let mut k: usize = 0;
        while k < rules.len()
            invariant
                rv == rules_view(rules@),
                k <= rv.len(),
                out@ == mid + rules_lines(rv.take(k as int)),
            decreases rv.len() - k,
        {
            out.push('\t');
            let t = rules[k].to_display_string();
            append_str(&mut out, t.as_str());
            out.push('\n');
            assert(rv.take(k + 1).drop_last() =~= rv.take(k as int));
            assert(rv.take(k + 1).last() == rules@[k as int]@);
            k = k + 1;
        }
        assert(rv.take(k as int) =~= rv);
        assert(es.take(i + 1).drop_last() =~= es.take(i as int));
        assert(es.take(i + 1).last() == es[i as int]);
        i = i + 1;
    }
    assert(es.take(i as int) =~= es);
    append_str(&mut out, "______________________________________");
    chars_to_string(&out)
}

/// The size (head and body) of the rule at `index` under a key, if it is
/// at most `budget`.
pub fn rule_size_upto(kb: &KnowledgeBase, key: &str, index: usize, budget: usize) -> (r: Option<usize>)
    requires
        index < kb_rules(kb.view_entries(), key@).len(),
    ensures
        ({
            let rule = kb_rules(kb.view_entries(), key@)[index as int];
            r == if term_size(rule.0) + goal_size(rule.1) <= budget {
                Some((term_size(rule.0) + goal_size(rule.1)) as usize)
            } else {
                None::<usize>
            }
        }),
{
    let j = match find_entry(kb, key) {
        Some(j) => j,
        None => {
            proof {
                assert(false);
            }
            0
        },
    };
    let rules = &kb.entries[j].1;
    assert(kb.view_entries()[j as int].1 == rules_view(rules@));
    let rule = &rules[index];
    match crate::variables::term_size_upto(&rule.head, budget) {
        Some(a) => match crate::goal::goal_size_upto(&rule.body, budget - a) {
            Some(b) => Some(a + b),
            None => None,
        },
        None => None,
    }
}

/// Well-formed entries without their first are well formed.
proof fn lemma_wf_drop_first(es: Seq<(Seq<char>, Seq<(Term, GoalView)>)>)
    requires
        kb_wf(es),
        es.len() > 0,
    ensures
        kb_wf(es.drop_first()),
{
    let d = es.drop_first();
    assert forall|i: int| 0 <= i < d.len() - 1 implies str_lt(#[trigger] d[i].0, d[i + 1].0) by {
        assert(d[i] == es[i + 1] && d[i + 1] == es[i + 2]);
    }
    assert forall|i: int| 0 <= i < d.len() implies (#[trigger] d[i]).1.len() > 0 by {
        assert(d[i] == es[i + 1]);
    }
    assert forall|i: int, j: int| 0 <= i < d.len() && 0 <= j < d[i].1.len() implies rule_keyed(
        #[trigger] d[i].1[j],
    ) && rule_key(d[i].1[j]) == d[i].0 by {
        assert(d[i] == es[i + 1]);
    }
}

/// In sorted entries, an earlier key is less than a later one.
proof fn lemma_sorted_lt(es: Seq<(Seq<char>, Seq<(Term, GoalView)>)>, i: int, j: int)
    requires
        0 <= i < j < es.len(),
        forall|m: int| 0 <= m < es.len() - 1 ==> str_lt(#[trigger] es[m].0, es[m + 1].0),
    ensures
        str_lt(es[i].0, es[j].0),
    decreases j - i,
{
    if j > i + 1 {
        lemma_sorted_lt(es, i, j - 1);
        lemma_str_lt_trans(es[i].0, es[j - 1].0, es[j].0);
    }
}

/// Removing the entry at `j` from well-formed entries leaves them well
/// formed, without the rules of its key, and with those of every other key.
proof fn lemma_kb_remove(es: Seq<(Seq<char>, Seq<(Term, GoalView)>)>, j: int, k: Seq<char>)
    requires
        kb_wf(es),
        0 <= j < es.len(),
    ensures
        kb_wf(es.remove(j)),
        kb_rules(es.remove(j), k) == if k == es[j].0 {
            Seq::<(Term, GoalView)>::empty()
        } else {
            kb_rules(es, k)
        },
    decreases es.len(),
{
    let r = es.remove(j);
    assert forall|i: int| 0 <= i < r.len() - 1 implies str_lt(#[trigger] r[i].0, r[i + 1].0) by {
        if i + 1 < j {
            assert(r[i] == es[i] && r[i + 1] == es[i + 1]);
        } else if i + 1 == j {
            assert(r[i] == es[i] && r[i + 1] == es[i + 2]);
            lemma_str_lt_trans(es[i].0, es[i + 1].0, es[i + 2].0);
        } else {
            assert(r[i] == es[i + 1] && r[i + 1] == es[i + 2]);
        }
    }
    assert forall|i: int| 0 <= i < r.len() implies (#[trigger] r[i]).1.len() > 0 by {
        if i < j {
            assert(r[i] == es[i]);
        } else {
            assert(r[i] == es[i + 1]);
        }
    }
    assert forall|i: int, m: int| 0 <= i < r.len() && 0 <= m < r[i].1.len() implies rule_keyed(
        #[trigger] r[i].1[m],
    ) && rule_key(r[i].1[m]) == r[i].0 by {
        if i < j {
            assert(r[i] == es[i]);
        } else {
            assert(r[i] == es[i + 1]);
        }
    }
    if j == 0 {
        assert(r =~= es.drop_first());
        if k == es[0].0 {
            if es.len() > 1 {
                lemma_kb_rules_absent(es, k, 1);
                assert(es.subrange(1, es.len() as int) =~= es.drop_first());
            } else {
                assert(r =~= Seq::<(Seq<char>, Seq<(Term, GoalView)>)>::empty());
            }
        }
    } else {
        lemma_wf_drop_first(es);
        lemma_kb_remove(es.drop_first(), j - 1, k);
        assert(r[0] == es[0]);
        assert(r.drop_first() =~= es.drop_first().remove(j - 1));
        if es[0].0 == k && k == es[j].0 {
            lemma_sorted_lt(es, 0, j);
            lemma_str_lt_total(k, k);
        }
    }
}

/// Removes all the facts and rules under a key (eg. `word/2`).
pub fn remove_rules(kb: &mut KnowledgeBase, key: &str)
    requires
        kb_wf(old(kb).view_entries()),
    ensures
        kb_wf(final(kb).view_entries()),
        forall|k: Seq<char>|
            #![trigger kb_rules(final(kb).view_entries(), k)]
            kb_rules(final(kb).view_entries(), k) == if k == key@ {
                Seq::<(Term, GoalView)>::empty()
            } else {
                kb_rules(old(kb).view_entries(), k)
            },
{
    let ghost es0 = kb.view_entries();
    let kc = str_to_chars(key);
    let mut j: usize = 0;
    while j < kb.entries.len()
        invariant
            es0 == kb.view_entries(),
            es0 == old(kb).view_entries(),
            kb_wf(es0),
            j <= kb.entries@.len(),
            kc@ == key@,
            forall|i: int| 0 <= i < j ==> es0[i].0 != key@,
        decreases kb.entries@.len() - j,
    {
        let ec = str_to_chars(kb.entries[j].0.as_str());
        assert(es0[j as int].0 == kb.entries@[j as int].0@);
        if crate::text::chars_eq(&ec, &kc) {
            let ghost e = kb.entries@;
            kb.entries.remove(j);
            proof {
                assert(entries_view(kb.entries@) =~= es0.remove(j as int));
                assert forall|k: Seq<char>| #![trigger kb_rules(kb.view_entries(), k)]
                    kb_rules(kb.view_entries(), k) == if k == key@ {
                        Seq::<(Term, GoalView)>::empty()
                    } else {
                        kb_rules(es0, k)
                    } by {
                    lemma_kb_remove(es0, j as int, k);
                }
                lemma_kb_remove(es0, j as int, key@);
            }
            return;
        }
        j = j + 1;
    }
    proof {
        lemma_kb_rules_at(es0, key@, es0.len() as int);
        assert(es0.subrange(es0.len() as int, es0.len() as int) =~= Seq::<(Seq<char>, Seq<(Term, GoalView)>)>::empty());
    }
}

/// A term of three terms, such as `loves(Leonard, Penny)`.
fn triple(a: crate::unifiable::Unifiable, b: crate::unifiable::Unifiable, c: crate::unifiable::Unifiable) -> (u: crate::unifiable::Unifiable)
    ensures
        u@ == Term::SComplex(seq![a@, b@, c@]),
{
    let v = vec![a, b, c];
    proof {
        crate::unifiable::lemma_complex_view(v);
        assert(crate::unifiable::terms_view(v@) =~= seq![a@, b@, c@]);
    }
    crate::unifiable::Unifiable::SComplex(v)
}

/// An atom with the given text.
fn atom_of(s: &str) -> (u: crate::unifiable::Unifiable)
    ensures
        u@ == Term::Atom(s@),
{
    crate::unifiable::Unifiable::Atom(chars_to_string(&str_to_chars(s)))
}

/// A logic variable of the knowledge base (ID 0) with the given name.
fn var_of(s: &str) -> (u: crate::unifiable::Unifiable)
    ensures
        u@ == Term::LogicVar(0, s@),
{
    crate::unifiable::Unifiable::LogicVar { id: 0, name: chars_to_string(&str_to_chars(s)) }
}

/// The term `f(a, b)` of atoms or variables, as a model.
pub open spec fn term3(f: Term, a: Term, b: Term) -> Term {
    Term::SComplex(seq![f, a, b])
}

/// The facts and rules of the test knowledge base, in order:
/// `loves(Leonard, Penny)`, `loves(Penny, Leonard)`,
/// `father(Alfred, Edward)`, `father(Edward, Aethelstan)`,
/// `grandfather($X, $Y) :- father($X, $Z), father($Z, $Y)` and
/// `grandfather($X, $Y) :- father($X, $Z), mother($Z, $Y)`.
pub open spec fn test_rules() -> Seq<(Term, GoalView)> {
    let a = |s: Seq<char>| Term::Atom(s);
    let x = Term::LogicVar(0, "$X"@);
    let y = Term::LogicVar(0, "$Y"@);
    let z = Term::LogicVar(0, "$Z"@);
    seq![
        (term3(a("loves"@), a("Leonard"@), a("Penny"@)), GoalView::Nil),
        (term3(a("loves"@), a("Penny"@), a("Leonard"@)), GoalView::Nil),
        (term3(a("father"@), a("Alfred"@), a("Edward"@)), GoalView::Nil),
        (term3(a("father"@), a("Edward"@), a("Aethelstan"@)), GoalView::Nil),
        (
            term3(a("grandfather"@), x, y),
            GoalView::Op(
                crate::goal::OpKind::And,
                seq![
                    GoalView::Complex(term3(a("father"@), x, z)),
                    GoalView::Complex(term3(a("father"@), z, y)),
                ],
            ),
        ),
        (
            term3(a("grandfather"@), x, y),
            GoalView::Op(
                crate::goal::OpKind::And,
                seq![
                    GoalView::Complex(term3(a("father"@), x, z)),
                    GoalView::Complex(term3(a("mother"@), z, y)),
                ],
            ),
        ),
    ]
}

/// The goal `f(a, b), g(c, d)`.
fn and_of(g1: crate::unifiable::Unifiable, g2: crate::unifiable::Unifiable) -> (g: crate::goal::Goal)
    ensures
        g@ == GoalView::Op(crate::goal::OpKind::And, seq![GoalView::Complex(g1@), GoalView::Complex(g2@)]),
{
    let v = vec![crate::goal::Goal::ComplexGoal(g1), crate::goal::Goal::ComplexGoal(g2)];
    proof {
        crate::goal::lemma_goals_seq(v);
        assert(crate::goal::goals_view(v@) =~= seq![GoalView::Complex(g1@), GoalView::Complex(g2@)]);
    }
    crate::goal::Goal::OperatorGoal(crate::goal::Operator::And(v))
}

/// A small knowledge base for tests and examples: see `test_rules`.
pub fn test_kb() -> (kb: KnowledgeBase)
    ensures
        kb_wf(kb.view_entries()),
        forall|k: Seq<char>|
            #![trigger kb_rules(kb.view_entries(), k)]
            kb_rules(kb.view_entries(), k) == keyed_rules(test_rules(), k),
{
    let fact1 = Rule { head: triple(atom_of("loves"), atom_of("Leonard"), atom_of("Penny")), body: crate::goal::Goal::Nil };
    let fact2 = Rule { head: triple(atom_of("loves"), atom_of("Penny"), atom_of("Leonard")), body: crate::goal::Goal::Nil };
    let fact3 = Rule { head: triple(atom_of("father"), atom_of("Alfred"), atom_of("Edward")), body: crate::goal::Goal::Nil };
    let fact4 = Rule { head: triple(atom_of("father"), atom_of("Edward"), atom_of("Aethelstan")), body: crate::goal::Goal::Nil };
    let rule1 = Rule {
        head: triple(atom_of("grandfather"), var_of("$X"), var_of("$Y")),
        body: and_of(
            triple(atom_of("father"), var_of("$X"), var_of("$Z")),
            triple(atom_of("father"), var_of("$Z"), var_of("$Y")),
        ),
    };
    let rule2 = Rule {
        head: triple(atom_of("grandfather"), var_of("$X"), var_of("$Y")),
        body: and_of(
            triple(atom_of("father"), var_of("$X"), var_of("$Z")),
            triple(atom_of("mother"), var_of("$Z"), var_of("$Y")),
        ),
    };
    let rules = vec![fact1, fact2, fact3, fact4, rule1, rule2];
    assert(rules_view(rules@) =~= test_rules());
    let mut kb = KnowledgeBase::new();
    add_rules(&mut kb, rules);
    assert forall|k: Seq<char>| #![trigger kb_rules(kb.view_entries(), k)]
        kb_rules(kb.view_entries(), k) == keyed_rules(test_rules(), k) by {
        assert(kb_rules(Seq::<(Seq<char>, Seq<(Term, GoalView)>)>::empty(), k) =~= Seq::<(Term, GoalView)>::empty());
        assert(Seq::<(Term, GoalView)>::empty() + keyed_rules(test_rules(), k) =~= keyed_rules(test_rules(), k));
    }
    kb
}
} // verus!
