//! Task lines embedded in free-form text buffers, kept in sync with a store.
//!
//! The crate has three parts: a line codec that maps a buffer line to a
//! structured task and back byte-exactly, a tag normalizer that canonicalizes
//! comma-delimited tag lists, and a buffer reconciler that walks a sequence of
//! lines and creates, updates, reloads or drops each one against a store whose
//! ids stay contiguous across deletions.
use vstd::prelude::*;

pub mod chars;
pub mod dal;
pub mod handle_buffer;
pub mod models;
pub mod tags;
pub mod vim_todo;

verus! {

/// Errors that abort a whole reconciliation batch.
#[derive(Clone, Copy, Debug, PartialEq, Eq, Structural)]
pub enum TodoError {
    /// A new task's text matches a stored record that is not yet done.
    DuplicateActiveTask,
    /// A line marked for deletion was met while reloading from the store.
    ToDeleteInRead,
}

/// Explicit configuration handed to the store's owner; replaces any
/// process-wide singleton.
pub struct Config {
    pub db_url: String,
}

/// The sum of two numbers plus one hundred, rendered in decimal.
pub fn sum_as_string2(a: usize, b: usize) -> (r: String)
    requires
        a + b + 100 <= usize::MAX,
    ensures
        r@ == crate::chars::dec_str((a + b + 100) as nat),
{
    crate::chars::u64_to_dec((a + b + 100) as u64)
}

} // verus!
