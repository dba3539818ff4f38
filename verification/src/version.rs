//! Versioned single-slot snapshot handoff: a producer publishes an immutable
//! value under a write lock; a consumer periodically pulls the latest and
//! pointer-compares against its last observation to detect new snapshots.
//! What the slot holds at any moment depends on other threads, so the shared
//! reads and writes promise nothing of their values; the reconciliation logic
//! around them is verified for every value they may hand back.

use vstd::prelude::*;
use std::sync::Arc;
use std::sync::RwLock;

verus! {

#[verifier::external_type_specification]
#[verifier::external_body]
#[verifier::reject_recursive_types(T)]
pub struct ExRwLock<T: ?Sized>(RwLock<T>);

/// The shared single slot: the latest published snapshot, if any.
pub type Version<T> = Arc<RwLock<Option<Arc<T>>>>;

/// Relies on std's Arc::clone: another handle to the same slot, and so the
/// same value in the verifier's value semantics for Arc.
#[verifier::external_body]
fn clone_version<T>(v: &Version<T>) -> (r: Version<T>)
    ensures
        r == *v,
{
    Arc::clone(v)
}

/// Relies on std's RwLock::read: a clone of the currently published value.
/// The value depends on what other threads have published, so nothing is
/// promised of it; a poisoned lock is read through rather than unwrapped.
#[verifier::external_body]
fn read_version<T>(latest: &Version<T>) -> (r: Option<Arc<T>>) {
    match latest.read() {
        Ok(guard) => guard.clone(),
        Err(poisoned) => poisoned.into_inner().clone(),
    }
}

/// Relies on std's RwLock::write: replaces the published value. The effect
/// lives in the shared slot, which no verified value models.
#[verifier::external_body]
fn write_version<T>(latest: &Version<T>, value: Option<Arc<T>>) {
    match latest.write() {
        Ok(mut guard) => {
            *guard = value;
        },
        Err(poisoned) => {
            *poisoned.into_inner() = value;
        },
    }
}

/// Relies on std's Arc::ptr_eq: true only when both handles share one
/// allocation, in which case they carry the same value.
#[verifier::external_body]
fn arc_ptr_eq<T>(a: &Arc<T>, b: &Arc<T>) -> (r: bool)
    ensures
        r ==> a == b,
{
    Arc::ptr_eq(a, b)
}

/// The producing side of the slot.
#[verifier::reject_recursive_types(T)]
pub struct Publisher<T: Clone> {
    pub latest: Version<T>,
}

impl<T: Clone> Publisher<T> {
    pub fn new(latest: &Version<T>) -> (p: Publisher<T>)
        ensures
            p.latest == *latest,
    {
        Publisher { latest: clone_version(latest) }
    }

    /// Publishes a clone of `t` as the new snapshot.
    pub fn publish(&mut self, t: &T)
        ensures
            final(self).latest == old(self).latest,
    {
        let publish = t.clone();
        let publish = Arc::new(publish);
        write_version(&self.latest, Some(publish));
    }
}

/// The consuming side: keeps the last observed snapshot.
#[verifier::reject_recursive_types(T)]
pub struct Local<T> {
    pub local: Option<Arc<T>>,
    pub latest: Version<T>,
}

impl<T: Clone> Local<T> {
    pub fn new(latest: &Version<T>) -> (l: Local<T>)
        ensures
            l.local.is_none(),
            l.latest == *latest,
    {
        Local { local: None, latest: clone_version(latest) }
    }

    /// Pulls the latest snapshot and reports whether the local observation
    /// changed. A pull that hands back the allocation already held is no
    /// change, so the local value is kept exactly when the answer is false;
    /// starting from no observation, the answer is true exactly when a
    /// snapshot was installed, and the observation is only cleared when one
    /// was held.
    pub fn update(&mut self) -> (r: bool)
        ensures
            final(self).latest == old(self).latest,
            !r ==> final(self).local == old(self).local,
            old(self).local.is_none() ==> r == final(self).local.is_some(),
            r && final(self).local.is_none() ==> old(self).local.is_some(),
    {
        let observed = read_version(&self.latest);
        match observed {
            Some(p) => {
                let fresh = match &self.local {
                    Some(l) => !arc_ptr_eq(&p, l),
                    None => true,
                };
                if fresh {
                    self.local = Some(p);
                    true
                } else {
                    false
                }
            },
            None => {
                match &self.local {
                    Some(_) => {
                        self.local = None;
                        true
                    },
                    None => false,
                }
            },
        }
    }
}

} // verus!
