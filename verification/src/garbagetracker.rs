use vstd::prelude::*;

verus! {

/// Counts the references held on one shared object; a protected object is never
/// counted and never reported as unreferenced.
#[derive(Debug)]
pub struct ReferenceTracker {
    protected: bool,
    ref_count: usize,
}

/// What a [`ReferenceTracker`] reports about its object.
#[derive(Debug, Clone, Copy, PartialEq, Eq, Structural)]
pub enum ReferenceStatus {
    Protected,
    Fine(usize),
    Zero,
}

impl ReferenceTracker {
    /// Whether the tracked object is protected.
    pub closed spec fn is_protected(&self) -> bool {
        self.protected
    }

    /// The number of references currently counted.
    pub closed spec fn count(&self) -> nat {
        self.ref_count as nat
    }

    /// The status that a tracker with this protection and count reports.
    pub open spec fn status_of(protected: bool, count: nat) -> ReferenceStatus {
        if protected {
            ReferenceStatus::Protected
        } else if count == 0 {
            ReferenceStatus::Zero
        } else {
            ReferenceStatus::Fine(count as usize)
        }
    }

    /// The count always fits a `usize`.
    pub proof fn lemma_count_fits(&self)
        ensures
            self.count() <= usize::MAX,
    {
    }

    pub fn new(protected: bool) -> (r: Self)
        ensures
            r.is_protected() == protected,
            r.count() == 0,
    {
        Self { protected, ref_count: 0 }
    }

    /// Adds `delta` references (removes them when `delta` is negative).
    ///
    /// A protected tracker ignores the change. Removing more references than are
    /// held fails and leaves the count as it was. Adding always reports
    /// `Fine` with the new count, even when that count is zero; removing down to
    /// zero reports `Zero`.
    pub fn modify_ref(&mut self, delta: isize) -> (r: Result<ReferenceStatus, &str>)
        requires
            !old(self).is_protected() ==> delta != isize::MIN,
            !old(self).is_protected() && delta >= 0 ==> old(self).count() + delta
                <= usize::MAX,
        ensures
            final(self).is_protected() == old(self).is_protected(),
            old(self).is_protected() ==> r == Ok::<ReferenceStatus, &str>(
                ReferenceStatus::Protected,
            ) && final(self).count() == old(self).count(),
            !old(self).is_protected() && delta < 0 && old(self).count() < -delta ==> r == Err::<
                ReferenceStatus,
                &str,
            >("Attempted to remove more references than instance has.") && final(self).count() == old(
                self,
            ).count(),
            !old(self).is_protected() && delta < 0 && old(self).count() >= -delta ==> {
                &&& final(self).count() == old(self).count() + delta
                &&& r == Ok::<ReferenceStatus, &str>(
                    if final(self).count() == 0 {
                        ReferenceStatus::Zero
                    } else {
                        ReferenceStatus::Fine(final(self).count() as usize)
                    },
                )
            },
            !old(self).is_protected() && delta >= 0 ==> {
                &&& final(self).count() == old(self).count() + delta
                &&& r == Ok::<ReferenceStatus, &str>(
                    ReferenceStatus::Fine(final(self).count() as usize),
                )
            },
    {
        if self.protected {
            Result::Ok(ReferenceStatus::Protected)
        } else if delta < 0 {
            let magnitude: usize = (-delta) as usize;
            match self.ref_count.checked_sub(magnitude) {
                Some(zero) if zero == 0 => {
                    self.ref_count = 0;
                    Result::Ok(ReferenceStatus::Zero)
                },
                Some(new_ref) => {
                    self.ref_count = new_ref;
                    Result::Ok(ReferenceStatus::Fine(self.ref_count))
                },
                None => { Result::Err("Attempted to remove more references than instance has.") },
            }
        } else {
            self.ref_count += delta as usize;
            Result::Ok(ReferenceStatus::Fine(self.ref_count))
        }
    }

    /// The status of the tracked object.
    pub fn get_status(&self) -> (r: ReferenceStatus)
        ensures
            r == Self::status_of(self.is_protected(), self.count()),
    {
        if self.protected {
            ReferenceStatus::Protected
        } else if self.ref_count == 0 {
            ReferenceStatus::Zero
        } else {
            ReferenceStatus::Fine(self.ref_count)
        }
    }
}

} // verus!
