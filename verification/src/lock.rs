//! The lock state machine: a signed counter encoding "free / N readers /
//! 1 writer".
//!
//! State `0` is unlocked, `k > 0` means `k` concurrent read guards are
//! outstanding, and `-1` means exactly one write guard is outstanding.  The
//! state never goes below `-1`.  This module gives the mathematical model of
//! the transitions; [`crate::channel::Channel`] implements them on its lock
//! word.

use vstd::prelude::*;

verus! {

/// One transition of the lock state machine.
pub enum LockOp {
    AcquireRead,
    ReleaseRead,
    AcquireWrite,
    ReleaseWrite,
}

/// Every reachable lock state is at least `-1`.
pub open spec fn valid_state(s: int) -> bool {
    s >= -1
}

/// No guard is outstanding.
pub open spec fn unlocked(s: int) -> bool {
    s == 0
}

/// Exactly one write guard is outstanding.
pub open spec fn writer_held(s: int) -> bool {
    s == -1
}

/// At least one read guard is outstanding.
pub open spec fn readers_held(s: int) -> bool {
    s > 0
}

/// A read acquisition succeeds exactly on non-negative states.
pub open spec fn can_read(s: int) -> bool {
    s >= 0
}

/// A write acquisition succeeds exactly on the unlocked state.
pub open spec fn can_write(s: int) -> bool {
    s == 0
}

/// The transition relation: `Some(next)` when `op` is permitted in state `s`,
/// `None` when the attempt fails (or, for the blocking variants, waits) and
/// leaves the state untouched.  An attempt never partially acquires.
pub open spec fn lock_apply(s: int, op: LockOp) -> Option<int> {
    match op {
        LockOp::AcquireRead => if can_read(s) {
            Some(s + 1)
        } else {
            None
        },
        LockOp::ReleaseRead => if readers_held(s) {
            Some(s - 1)
        } else {
            None
        },
        LockOp::AcquireWrite => if can_write(s) {
            Some(-1)
        } else {
            None
        },
        LockOp::ReleaseWrite => if writer_held(s) {
            Some(0)
        } else {
            None
        },
    }
}

/// Runs a sequence of transitions from `s`; `None` as soon as one is refused.
pub open spec fn lock_run(s: int, ops: Seq<LockOp>) -> Option<int>
    decreases ops.len(),
{
    if ops.len() == 0 {
        Some(s)
    } else {
        match lock_apply(s, ops[0]) {
            Some(next) => lock_run(next, ops.drop_first()),
            None => None,
        }
    }
}

/// Permitted transitions preserve validity of the state.
pub proof fn lemma_apply_preserves_valid(s: int, op: LockOp)
    requires
        valid_state(s),
        lock_apply(s, op) is Some,
    ensures
        valid_state(lock_apply(s, op)->Some_0),
{
}

/// Mutual exclusion: while a writer holds the lock, neither a read nor a
/// write acquisition can succeed, and the only permitted transition is the
/// writer's own release.
pub proof fn lemma_writer_excludes(s: int)
    requires
        writer_held(s),
    ensures
        lock_apply(s, LockOp::AcquireRead) is None,
        lock_apply(s, LockOp::AcquireWrite) is None,
        lock_apply(s, LockOp::ReleaseRead) is None,
        lock_apply(s, LockOp::ReleaseWrite) == Some(0int),
{
}

/// Readers exclude the writer: while any read guard is outstanding a write
/// acquisition fails, yet further read acquisitions succeed.
pub proof fn lemma_readers_exclude_writer(s: int)
    requires
        readers_held(s),
    ensures
        lock_apply(s, LockOp::AcquireWrite) is None,
        lock_apply(s, LockOp::AcquireRead) == Some(s + 1),
{
}

/// Shared access: from the unlocked state, `n` read acquisitions all succeed
/// and leave the state at `n`.
pub proof fn lemma_readers_share(n: nat)
    ensures
        lock_run(0, Seq::new(n, |i: int| LockOp::AcquireRead)) == Some(n as int),
    decreases n,
{
    let ops = Seq::new(n, |i: int| LockOp::AcquireRead);
    if n == 0 {
        assert(ops.len() == 0);
    } else {
        let rest = Seq::new((n - 1) as nat, |i: int| LockOp::AcquireRead);
        lemma_reads_from(1, (n - 1) as nat);
        assert(ops.drop_first() =~= rest);
    }
}

/// From a state of `k` readers, `n` further read acquisitions succeed and
/// reach `k + n`.
pub proof fn lemma_reads_from(k: int, n: nat)
    requires
        k >= 0,
    ensures
        lock_run(k, Seq::new(n, |i: int| LockOp::AcquireRead)) == Some(k + n),
    decreases n,
{
    let ops = Seq::new(n, |i: int| LockOp::AcquireRead);
    if n > 0 {
        let rest = Seq::new((n - 1) as nat, |i: int| LockOp::AcquireRead);
        lemma_reads_from(k + 1, (n - 1) as nat);
        assert(ops.drop_first() =~= rest);
    }
}

/// The state returns to unlocked after all readers release: from `n`
/// outstanding readers, `n` read releases succeed and reach `0`.
pub proof fn lemma_readers_release(n: nat)
    ensures
        lock_run(n as int, Seq::new(n, |i: int| LockOp::ReleaseRead)) == Some(0int),
    decreases n,
{
    let ops = Seq::new(n, |i: int| LockOp::ReleaseRead);
    if n > 0 {
        let rest = Seq::new((n - 1) as nat, |i: int| LockOp::ReleaseRead);
        lemma_readers_release((n - 1) as nat);
        assert(ops.drop_first() =~= rest);
    }
}

/// Running a concatenation runs the two halves in turn.
pub proof fn lemma_lock_run_append(s: int, a: Seq<LockOp>, b: Seq<LockOp>)
    ensures
        lock_run(s, a + b) == (match lock_run(s, a) {
            Some(m) => lock_run(m, b),
            None => None,
        }),
    decreases a.len(),
{
    if a.len() == 0 {
        assert(a + b =~= b);
    } else {
        assert((a + b)[0] == a[0]);
        match lock_apply(s, a[0]) {
            Some(next) => {
                lemma_lock_run_append(next, a.drop_first(), b);
                assert((a + b).drop_first() =~= a.drop_first() + b);
            },
            None => {},
        }
    }
}

/// Shared access balances out: from the unlocked state, `n` read
/// acquisitions followed by `n` read releases all succeed and return the
/// lock to the unlocked state.
pub proof fn lemma_readers_balance(n: nat)
    ensures
        lock_run(
            0,
            Seq::new(n, |i: int| LockOp::AcquireRead) + Seq::new(n, |i: int| LockOp::ReleaseRead),
        ) == Some(0int),
{
    lemma_readers_share(n);
    lemma_readers_release(n);
    lemma_lock_run_append(
        0,
        Seq::new(n, |i: int| LockOp::AcquireRead),
        Seq::new(n, |i: int| LockOp::ReleaseRead),
    );
}

} // verus!
