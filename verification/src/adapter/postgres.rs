//! What the PostgreSQL adapter decides without talking to the database.

use vstd::prelude::*;

verus! {

/// The adapter between compiled queries and a PostgreSQL connection.
pub struct PostgresAdapter;

impl PostgresAdapter {
    /// The parameters to bind to a prepared statement: those that the caller
    /// wrote by position, then those that compiling the query collected, each
    /// group in its own order.
    pub fn prepare_params<T: Copy>(ext_params: &[T], ctx_params: &[T]) -> (final_params: Vec<T>)
        ensures
            final_params@ == ext_params@ + ctx_params@,
    {
        let mut final_params: Vec<T> = Vec::new();
        let mut i: usize = 0;
        while i < ext_params.len()
            invariant
                i <= ext_params.len(),
                final_params@ == ext_params@.take(i as int),
            decreases ext_params.len() - i,
        {
            final_params.push(ext_params[i]);
            assert(ext_params@.take(i + 1) =~= ext_params@.take(i as int).push(ext_params@[i as int]));
            i += 1;
        }
        assert(ext_params@.take(i as int) =~= ext_params@);
        let mut k: usize = 0;
        while k < ctx_params.len()
            invariant
                k <= ctx_params.len(),
                final_params@ == ext_params@ + ctx_params@.take(k as int),
            decreases ctx_params.len() - k,
        {
            final_params.push(ctx_params[k]);
            assert(ctx_params@.take(k + 1) =~= ctx_params@.take(k as int).push(ctx_params@[k as int]));
            assert(final_params@ =~= ext_params@ + ctx_params@.take(k + 1));
            k += 1;
        }
        assert(ctx_params@.take(k as int) =~= ctx_params@);
        final_params
    }
}

} // verus!
