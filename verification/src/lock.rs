//! The guard against two applications to one target directory at a time.

use vstd::prelude::*;
use crate::apply::{apply, apply_spec, fully_applied, reports_of, ApplyReport};
use crate::bytes::{bytes_eq, copy_bytes, lines_of};
use crate::change::PatchFile;
use crate::filter::Filter;
use crate::snapshot::Snapshot;

verus! {

/// Why a patch was not applied at all.
#[derive(Clone, Copy, Debug, PartialEq, Eq, Structural)]
pub enum ApplyError {
    /// Another application to the same target directory is under way.
    TargetBusy,
}

/// The target directories to which a patch is being applied.
#[derive(Debug)]
pub struct TargetLocks {
    held: Vec<Vec<u8>>,
}

impl View for TargetLocks {
    type V = Set<Seq<u8>>;

    closed spec fn view(&self) -> Set<Seq<u8>> {
        Set::new(|t: Seq<u8>| lines_of(self.held@).contains(t))
    }
}

/// What an attempt to lock `target` makes of the locks, and whether it
/// succeeds: it does if and only if the target is not locked.
pub open spec fn acquire_spec(held: Set<Seq<u8>>, target: Seq<u8>) -> (Set<Seq<u8>>, bool) {
    if held.contains(target) {
        (held, false)
    } else {
        (held.insert(target), true)
    }
}

/// Of two attempts to lock a target that was free, with no release between
/// them, the first succeeds and the second fails.
pub proof fn lemma_one_of_two_acquires(held: Set<Seq<u8>>, target: Seq<u8>)
    requires
        !held.contains(target),
    ensures
        acquire_spec(held, target).1,
        !acquire_spec(acquire_spec(held, target).0, target).1,
{
}

impl TargetLocks {
    /// No target is locked.
    pub fn new() -> (locks: TargetLocks)
        ensures
            locks@ == Set::<Seq<u8>>::empty(),
    {
        let locks = TargetLocks { held: Vec::new() };
        assert(locks@ =~= Set::<Seq<u8>>::empty());
        locks
    }

    /// Whether the target is locked.
    pub fn is_held(&self, target: &Vec<u8>) -> (yes: bool)
        ensures
            yes == self@.contains(target@),
    {
        let mut i: usize = 0;
        while i < self.held.len()
            invariant
                i <= self.held@.len(),
                forall|j: int| 0 <= j < i ==> lines_of(self.held@)[j] != target@,
            decreases self.held@.len() - i,
        {
            if bytes_eq(&self.held[i], target) {
                assert(lines_of(self.held@)[i as int] == target@);
                return true;
            }
            i += 1;
        }
        false
    }

    /// Locks the target, or fails with `TargetBusy` if it is locked already.
    pub fn acquire(&mut self, target: &Vec<u8>) -> (locked: Result<(), ApplyError>)
        ensures
            (final(self)@, locked is Ok) == acquire_spec(old(self)@, target@),
            locked matches Err(e) ==> e == ApplyError::TargetBusy,
    {
        if self.is_held(target) {
            return Err(ApplyError::TargetBusy);
        }
        let ghost before = lines_of(self.held@);
        self.held.push(copy_bytes(target));
        proof {
            let after = lines_of(self.held@);
            assert(after =~= before.push(target@));
            assert forall|t: Seq<u8>| after.contains(t) <==> (before.contains(t) || t
                == target@) by {
                if before.contains(t) {
                    let i = choose|i: int| 0 <= i < before.len() && before[i] == t;
                    assert(after[i] == t);
                }
                if t == target@ {
                    assert(after[after.len() - 1] == t);
                }
                if after.contains(t) {
                    let i = choose|i: int| 0 <= i < after.len() && after[i] == t;
                    if i < before.len() {
                        assert(before[i] == t);
                    }
                }
            }
            assert(final(self)@ =~= old(self)@.insert(target@));
        }
        Ok(())
    }

    /// Unlocks the target.
    pub fn release(&mut self, target: &Vec<u8>)
        ensures
            final(self)@ == old(self)@.remove(target@),
    {
        let ghost before = lines_of(self.held@);
        let mut kept: Vec<Vec<u8>> = Vec::new();
        let mut i: usize = 0;
        while i < self.held.len()
            invariant
                before == lines_of(self.held@),
                i <= self.held@.len(),
                forall|t: Seq<u8>|
                    lines_of(kept@).contains(t) <==> (before.subrange(0, i as int).contains(t)
                        && t != target@),
            decreases self.held@.len() - i,
        {
            let ghost had = lines_of(kept@);
            let ghost seen = before.subrange(0, i as int);
            let ghost next = before.subrange(0, i + 1);
            let keep = !bytes_eq(&self.held[i], target);
            if keep {
                kept.push(copy_bytes(&self.held[i]));
            }
            proof {
                let now = lines_of(kept@);
                let line = before[i as int];
                assert(next =~= seen.push(line));
                if keep {
                    assert(now =~= had.push(line));
                } else {
                    assert(now =~= had);
                }
                assert forall|t: Seq<u8>| now.contains(t) <==> (next.contains(t) && t
                    != target@) by {
                    if had.contains(t) {
                        let k = choose|k: int| 0 <= k < had.len() && had[k] == t;
                        assert(now[k] == t);
                    }
                    if seen.contains(t) {
                        let k = choose|k: int| 0 <= k < seen.len() && seen[k] == t;
                        assert(next[k] == t);
                    }
                    if now.contains(t) {
                        let k = choose|k: int| 0 <= k < now.len() && now[k] == t;
                        if k < had.len() {
                            assert(had[k] == t);
                        } else {
                            assert(t == line);
                            assert(next[i as int] == t);
                        }
                    }
                    if next.contains(t) && t != target@ {
                        let k = choose|k: int| 0 <= k < next.len() && next[k] == t;
                        if k < i {
                            assert(seen[k] == t);
                        } else {
                            assert(now[now.len() - 1] == t);
                        }
                    }
                }
            }
            i += 1;
        }
        assert(before.subrange(0, before.len() as int) =~= before);
        self.held = kept;
        assert(final(self)@ =~= old(self)@.remove(target@));
    }
}

/// Applies the patch to a copy of `target`, which is the tree in the
/// directory `target_dir`, unless a patch is being applied to that directory
/// already: then nothing is done and the call fails with `TargetBusy`. The
/// directory is locked while the patch is applied and free again afterwards.
pub fn apply_locked(
    locks: &mut TargetLocks,
    target_dir: &Vec<u8>,
    patch: &PatchFile,
    target: &Snapshot,
    filter: &Filter,
) -> (done: Result<(Snapshot, ApplyReport), ApplyError>)
    ensures
        final(locks)@ == old(locks)@,
        match done {
            Ok((tree, report)) => {
                &&& !old(locks)@.contains(target_dir@)
                &&& tree@ == apply_spec(target@, patch@.changes, filter@).tree
                &&& reports_of(report.files@) == apply_spec(target@, patch@.changes, filter@).files
                &&& report.fully_applied == fully_applied(reports_of(report.files@))
            },
            Err(e) => e == ApplyError::TargetBusy && old(locks)@.contains(target_dir@),
        },
{
    match locks.acquire(target_dir) {
        Err(e) => Err(e),
        Ok(()) => {
            let done = apply(patch, target, filter);
            locks.release(target_dir);
            assert(final(locks)@ =~= old(locks)@);
            Ok(done)
        },
    }
}

} // verus!
