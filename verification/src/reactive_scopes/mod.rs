pub mod scope_dependency_utils;
pub mod align_scopes;
pub mod flatten_loops;
pub mod derive_minimal_dependencies;
pub mod codegen;
pub mod cache_slots;
pub mod reactive_tree;
pub mod stabilize_block_ids;
pub mod promote_temporaries;
pub mod inline_load_locals;
pub mod rename_variables;
pub mod prune_unused;
pub mod prune_non_escaping;
pub mod always_invalidating;
pub mod merge_scopes;
pub mod scope_membership;
pub mod scope_terminals;
pub mod build_reactive;
