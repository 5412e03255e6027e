//! Revsets: a small language that selects commits of a repository.
//!
//! [`parse`] turns the text of a revset into a [`RevsetExpression`], and
//! [`evaluate_expression`] turns an expression into a [`Revset`], the commits
//! of a repository that it stands for. [`resolve_symbol`] says which commit a
//! symbol names.

pub mod commit;
pub mod evaluation_properties;
pub mod expression;
pub mod form_properties;
pub mod grammar;
pub mod graph;
pub mod hexadecimal;
pub mod index;
pub mod locality;
pub mod model_properties;
pub mod parsed_properties;
pub mod positions;
pub mod repo;
pub mod resolution_properties;
pub mod resolve;
pub mod revset;
pub mod selection_properties;
pub mod syntax_properties;
pub mod text;

pub use crate::commit::{Commit, CommitId, CommitRecord, Store, StoreError};
pub use crate::expression::{parse, RevsetExpression, RevsetParseError};
pub use crate::grammar::{Pair, RevsetParser, Rule};
pub use crate::index::{Index, IndexEntry, RevWalk};
pub use crate::repo::{Evolution, GitRef, RepoRef, RepoView};
pub use crate::resolve::{resolve_symbol, RevsetError};
pub use crate::revset::{
    evaluate_expression, is_evaluable, non_obsolete_heads, EvaluatedRevset, Revset,
};
