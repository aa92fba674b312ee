//! Resolution of the nested control structure of a flat sequence of
//! structured control instructions: which begin matches which else or end,
//! and where a branch or a return leads.

mod block_stack;
mod instr;

pub use block_stack::{
    after_else, all_ordered, branch_dest, else_scope, ends_ok, if_scope, innermost,
    lemma_begin_end_entries, lemma_branch_to_innermost, lemma_if_else_end, lemma_if_scope,
    resolve, scope_ordered, BlockStack, BlockStackElement, BranchTarget,
};
pub use instr::{
    begins, closes, delta, depth, is_match, lemma_match_unique, lemma_unbalanced, opens,
    well_nested, Idx, Instr, Label,
};
