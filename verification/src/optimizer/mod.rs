//! Query planning: operators are rewritten so that less has to be read, kept
//! and joined.

pub mod congruence;
pub mod duplicates;
pub mod equivalence;
pub mod filter_laws;
pub mod join_laws;
pub mod keys_told;
pub mod origins;
pub mod project_laws;
pub mod laws;
pub mod projections;
pub mod reading;
pub mod reorder;
pub mod replacement;
pub mod reorder_laws;
pub mod rules;
pub mod scores;
pub mod sort_laws;

use vstd::prelude::*;

use crate::catalog::db_context::DbContext;
use crate::error::DbError;
use crate::optimizer::rules::optimize_op;
use crate::query::Query;

verus! {

/// How deep rewriting is nested at most.
pub const MAX_DEPTH: u32 = 0xFFFF_FFFF;

/// The rewritten query, or what is wrong with a name in it.
pub fn optimize_query(query: &Query, ctx: &DbContext) -> (r: Result<Query, DbError>)
    ensures
        match rules::optimized(query.root@, ctx.tables(), MAX_DEPTH as nat) {
            Ok(root) => r matches Ok(q) && q.root@ == root,
            Err(e) => r matches Err(f) && f == e,
        },
{
    let root = optimize_op(&query.root, ctx, MAX_DEPTH)?;
    Ok(Query { root })
}

} // verus!
