//! The composed public query and mutation surface.
use vstd::prelude::*;

use crate::catalogue::{CatalogueRoot, SourceRoot};
use crate::library::LibraryMutationRoot;

verus! {

/// The query surface: provider metadata and catalogue queries.
#[derive(Default)]
pub struct QueryRoot(pub SourceRoot, pub CatalogueRoot);

/// The mutation surface: library and read-state mutations.
#[derive(Default)]
pub struct MutationRoot(pub LibraryMutationRoot);

} // verus!
