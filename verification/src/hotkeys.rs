//! What the front end is told after the global shortcuts are re-bound.
//! Registering a shortcut with the operating system is the caller's work;
//! this module turns its outcome into the per-key report.

use vstd::prelude::*;

verus! {

/// The result of binding one key. `ok` also holds for a key that was
/// deliberately cleared; a failure carries its reason.
#[derive(Debug, PartialEq, Eq)]
pub struct KeyOutcome {
    pub ok: bool,
    /// The accelerator that was tried; `None` when the key was cleared.
    pub accelerator: Option<String>,
    pub error: Option<String>,
}

/// One outcome per key.
#[derive(Debug, PartialEq, Eq)]
pub struct ApplyResult {
    pub toggle: KeyOutcome,
    pub quick_add: KeyOutcome,
}

/// The report for one key re-bound to `new`. `registered` is what
/// registering `new` gave (it is not consulted when `new` is `None`).
pub open spec fn spec_outcome(new: Option<String>, registered: Result<(), String>) -> KeyOutcome {
    match new {
        None => KeyOutcome { ok: true, accelerator: None, error: None },
        Some(n) => match registered {
            Ok(()) => KeyOutcome { ok: true, accelerator: Some(n), error: None },
            Err(e) => KeyOutcome { ok: false, accelerator: Some(n), error: Some(e) },
        },
    }
}

/// See `spec_outcome`.
pub fn key_outcome(new: &Option<String>, registered: Result<(), String>) -> (o: KeyOutcome)
    ensures
        o == spec_outcome(*new, registered),
{
    match new {
        None => KeyOutcome { ok: true, accelerator: None, error: None },
        Some(n) => match registered {
            Ok(()) => KeyOutcome { ok: true, accelerator: Some(n.clone()), error: None },
            Err(e) => KeyOutcome { ok: false, accelerator: Some(n.clone()), error: Some(e) },
        },
    }
}

/// Whether the old binding must be registered again: the new one failed
/// and there was an old one to fall back to.
pub fn needs_rollback(old: &Option<String>, new: &Option<String>, registered: &Result<(), String>) -> (b: bool)
    ensures
        b == (old is Some && new is Some && registered is Err),
{
    old.is_some() && new.is_some() && registered.is_err()
}

} // verus!
