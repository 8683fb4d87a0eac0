pub mod dead_code_elimination;
pub mod name_anonymous_functions;
pub mod prune_maybe_throws;
pub mod optimize_for_ssr;
pub mod outline_functions;
pub mod outline_jsx;
pub mod merge_consecutive_blocks;
pub mod optimize_props_method_calls;
pub mod inline_iife;
pub mod constant_propagation;
pub mod prune_temporary_lvalues;
