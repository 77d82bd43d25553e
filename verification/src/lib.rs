use vstd::prelude::*;

pub mod text;
pub mod parse_stack;
pub mod token;
pub mod infix;
pub mod tokenizer;
pub mod rule_reader;
pub mod parse_goals;
pub mod parse_terms;
pub mod s_complex;
pub mod s_linked_list;
pub mod rule;
pub mod built_in_print;
pub mod built_in_join;
pub mod unifiable;
pub mod substitution_set;
pub mod unify;
pub mod logic_var;
pub mod variables;
pub mod goal;
pub mod knowledge_base;
pub mod built_ins;
pub mod solver;
pub mod solutions;
pub mod sentence;
pub mod part_of_speech;
pub mod grammar_demo;
pub mod built_in_print_list;
