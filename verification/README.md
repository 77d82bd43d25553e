# suiron

Suiron is a small inference engine in the manner of Prolog: a parser for
facts, rules and queries, a knowledge base, unification, and a
depth-first solver with backtracking, `or`, `not`, cut and built-in
predicates (`print`, `print_list`, `nl`, comparisons, `count`, `append`,
`include`, `exclude`, `functor`, `fail`) and functions (`add`,
`subtract`, `multiply`, `divide`, `join`).

The library in `src/` is written in Verus: each function carries a
contract over a mathematical model of its data (terms, goals, substitution
sets, the knowledge base, the solver's search state), and Verus proves the
code against it.

- `text`, `parse_stack`, `token`, `infix`, `tokenizer`, `parse_terms`,
  `parse_goals`, `s_complex`, `s_linked_list`, `rule`, `rule_reader`:
  reading source text into terms, goals, facts and rules.
- `unifiable`, `substitution_set`, `unify`, `logic_var`, `variables`,
  `goal`: terms and goals, their display, unification and the renaming of
  variables.
- `knowledge_base`: facts and rules filed by predicate name.
- `built_ins`, `built_in_print`, `built_in_print_list`, `built_in_join`:
  the built-in predicates.
- `solver`, `solutions`: the search, one step at a time, within a budget
  of steps, and the display of solutions.
- `sentence`, `part_of_speech`, `grammar_demo`: the grammar demonstration,
  which turns English sentences into word facts.

`app/` holds the programs around the library: the `query` prompt, which
loads a source file and answers queries within a time limit, the grammar
demonstration (`--demo`) and a benchmark (`--benchmark`).
