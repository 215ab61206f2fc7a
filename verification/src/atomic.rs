//! The current-locale cell: a process-wide slot that many threads read
//! while one replaces it, without locking and without torn values.

use vstd::prelude::*;

verus! {

/// A thread-safe holder of the current locale string.
///
/// The string lives behind an atomically swapped reference-counted
/// pointer: a read returns some value that was stored at some point,
/// whole, even while another thread is storing a new one. Nothing more is
/// promised of a shared cell; callers pass the value they read onward.
///
/// Relies on arc_swap's `ArcSwapAny` over `std::sync::Arc<String>`.
#[verifier::external_body]
pub struct AtomicStr {
    cell: arc_swap::ArcSwapAny<std::sync::Arc<String>>,
}

impl AtomicStr {
    /// A new cell holding `value`. Relies on arc_swap's `ArcSwapAny::new`.
    #[verifier::external_body]
    pub fn new(value: &str) -> AtomicStr {
        AtomicStr { cell: arc_swap::ArcSwapAny::new(std::sync::Arc::new(value.to_string())) }
    }

    /// Atomically installs a new value; concurrent reads see the old or
    /// the new string, never a mixture. Relies on `ArcSwapAny::store`.
    #[verifier::external_body]
    pub fn replace(&self, value: &str) {
        self.cell.store(std::sync::Arc::new(value.to_string()));
    }

    /// The string the cell held at some point during the call. Relies on
    /// `ArcSwapAny::load_full`.
    #[verifier::external_body]
    pub fn get(&self) -> String {
        self.cell.load_full().as_ref().clone()
    }
}

/// Sets the current locale in the given cell.
pub fn set_locale(cell: &AtomicStr, loc: &str) {
    cell.replace(loc);
}

/// Reads the current locale from the given cell: some value that was set
/// at some point.
pub fn locale(cell: &AtomicStr) -> String {
    cell.get()
}

} // verus!
