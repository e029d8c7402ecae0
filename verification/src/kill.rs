//! The termination engine: target filtering, self-protection, signal
//! dispatch, and per-PID outcome accounting.

use vstd::prelude::*;

use crate::model::{KillError, KillReport, SignalKind};

verus! {

broadcast use vstd::seq_lib::group_seq_lib_default, vstd::seq::group_seq_axioms;

/// The input order with every repeated PID dropped after its first occurrence.
pub open spec fn dedup_spec(s: Seq<i32>) -> Seq<i32>
    decreases s.len(),
{
    if s.len() == 0 {
        Seq::empty()
    } else {
        let prefix = dedup_spec(s.drop_last());
        if s.drop_last().contains(s.last()) {
            prefix
        } else {
            prefix.push(s.last())
        }
    }
}

/// Deduplication keeps exactly the elements of its input.
pub proof fn lemma_dedup_same_elements(s: Seq<i32>, p: i32)
    ensures
        dedup_spec(s).contains(p) <==> s.contains(p),
    decreases s.len(),
{
    broadcast use vstd::seq_lib::group_seq_properties;

    if s.len() > 0 {
        let t = s.drop_last();
        lemma_dedup_same_elements(t, p);
        assert(s =~= t.push(s.last()));
    }
}

/// Deduplication never leaves two equal elements behind.
pub proof fn lemma_dedup_no_duplicates(s: Seq<i32>)
    ensures
        dedup_spec(s).no_duplicates(),
    decreases s.len(),
{
    if s.len() > 0 {
        let t = s.drop_last();
        lemma_dedup_no_duplicates(t);
        if !t.contains(s.last()) {
            assert forall|i: int, j: int|
                0 <= i < j < dedup_spec(s).len() implies dedup_spec(s)[i] != dedup_spec(s)[j] by {
                if j == dedup_spec(s).len() - 1 {
                    lemma_dedup_same_elements(t, dedup_spec(s)[i]);
                }
            }
        }
    }
}

fn contains_i32(v: &Vec<i32>, x: i32) -> (r: bool)
    ensures
        r == v@.contains(x),
{
    let mut i: usize = 0;
    while i < v.len()
        invariant
            i <= v@.len(),
            forall|j: int| 0 <= j < i ==> v@[j] != x,
        decreases v@.len() - i,
    {
        if v[i] == x {
            return true;
        }
        i += 1;
    }
    false
}

/// Drops every PID already seen earlier in the list, keeping first
/// occurrences in their original relative order.
pub fn dedupe_pids(pids: Vec<i32>) -> (r: Vec<i32>)
    ensures
        r@ == dedup_spec(pids@),
        r@.no_duplicates(),
        forall|p: i32| r@.contains(p) <==> pids@.contains(p),
{
    let mut deduped: Vec<i32> = Vec::new();
    let mut i: usize = 0;
    while i < pids.len()
        invariant
            i <= pids@.len(),
            deduped@ == dedup_spec(pids@.take(i as int)),
            forall|p: i32| deduped@.contains(p) <==> pids@.take(i as int).contains(p),
        decreases pids@.len() - i,
    {
        let pid = pids[i];
        proof {
            assert(pids@.take(i + 1).drop_last() =~= pids@.take(i as int));
            assert(pids@.take(i + 1).last() == pids@[i as int]);
        }
        if !contains_i32(&deduped, pid) {
            deduped.push(pid);
        }
        proof {
            assert forall|p: i32|
                deduped@.contains(p) <==> pids@.take(i + 1).contains(p) by {
                lemma_dedup_same_elements(pids@.take(i + 1), p);
            }
        }
        i += 1;
    }
    proof {
        assert(pids@.take(pids@.len() as int) =~= pids@);
        lemma_dedup_no_duplicates(pids@);
        assert forall|p: i32| deduped@.contains(p) <==> pids@.contains(p) by {
            lemma_dedup_same_elements(pids@, p);
        }
    }
    deduped
}

/// An explicit force flag selects the strong, immediate signal; its absence
/// selects the graceful termination request.
pub fn resolve_signal(force: Option<bool>) -> (r: SignalKind)
    ensures
        r == SignalKind::Forceful <==> force == Some(true),
{
    match force {
        Some(true) => SignalKind::Forceful,
        _ => SignalKind::Graceful,
    }
}

/// The per-target filter: a PID is attempted only if it is positive and not
/// the engine's own process.
pub open spec fn eligible_pred(self_pid: i32) -> spec_fn(i32) -> bool {
    |p: i32| p > 0 && p != self_pid
}

/// The targets that survive the per-target filter: positive PIDs other than
/// the engine's own process.
pub open spec fn eligible_targets(targets: Seq<i32>, self_pid: i32) -> Seq<i32> {
    targets.filter(eligible_pred(self_pid))
}

/// The PIDs of a failure list, in order.
pub open spec fn failed_pids(failed: Seq<KillError>) -> Seq<i32> {
    failed.map_values(|f: KillError| f.pid)
}

/// Relies on nix::unistd::getpid, which returns the identifier of the calling
/// process; POSIX guarantees it succeeds and that process identifiers are
/// positive.
#[verifier::external_body]
fn current_pid() -> (r: i32)
    ensures
        r > 0,
{
    nix::unistd::getpid().as_raw()
}

/// Relies on nix::sys::signal::kill to deliver the chosen signal to the given
/// PID; the error case carries the OS-provided error text. Whether delivery
/// succeeds depends on the live process table, so nothing is promised of the
/// outcome.
#[verifier::external_body]
fn send_signal(pid: i32, signal: SignalKind) -> (r: Result<(), String>)
{
    let sig = match signal {
        SignalKind::Graceful => nix::sys::signal::Signal::SIGTERM,
        SignalKind::Forceful => nix::sys::signal::Signal::SIGKILL,
    };
    nix::sys::signal::kill(nix::unistd::Pid::from_raw(pid), sig).map_err(|e| e.to_string())
}

/// Signals every eligible target exactly once on behalf of the process whose
/// identifier is `self_pid`, and accounts for every attempt: each eligible
/// target lands in either the killed list or the failure list, silently
/// filtered targets land in neither, and nothing else appears anywhere.
pub fn perform_kill_on(targets: &Vec<i32>, matched: usize, signal: SignalKind, self_pid: i32) -> (r:
    KillReport)
    ensures
        r.matched == matched,
        r.attempted == eligible_targets(targets@, self_pid).len(),
        r.attempted == r.killed@.len() + r.failed@.len(),
        r.killed@.to_multiset().add(failed_pids(r.failed@).to_multiset())
            == eligible_targets(targets@, self_pid).to_multiset(),
        forall|i: int| 0 <= i < r.killed@.len()
            ==> r.killed@[i] > 0 && r.killed@[i] != self_pid && targets@.contains(r.killed@[i]),
        forall|i: int| 0 <= i < r.failed@.len()
            ==> r.failed@[i].pid > 0 && r.failed@[i].pid != self_pid && targets@.contains(
            r.failed@[i].pid),
{
    let mut attempted: usize = 0;
    let mut killed: Vec<i32> = Vec::new();
    let mut failed: Vec<KillError> = Vec::new();

    proof {
        broadcast use vstd::multiset::group_multiset_axioms;
        reveal(Seq::filter);
        assert(targets@.take(0) =~= Seq::<i32>::empty());
        assert(eligible_targets(targets@.take(0), self_pid) =~= Seq::<i32>::empty());
        assert(failed_pids(failed@) =~= Seq::<i32>::empty());
        killed@.to_multiset_ensures();
        Seq::<i32>::empty().to_multiset_ensures();
        vstd::seq_lib::lemma_multiset_commutative(killed@, failed_pids(failed@));
        vstd::multiset::lemma_multiset_empty_len(killed@.to_multiset().add(
            failed_pids(failed@).to_multiset(),
        ));
        vstd::multiset::lemma_multiset_empty_len(Seq::<i32>::empty().to_multiset());
    }
    let mut i: usize = 0;
    while i < targets.len()
        invariant
            i <= targets@.len(),
            attempted == eligible_targets(targets@.take(i as int), self_pid).len(),
            attempted == killed@.len() + failed@.len(),
            killed@.to_multiset().add(failed_pids(failed@).to_multiset())
                == eligible_targets(targets@.take(i as int), self_pid).to_multiset(),
            forall|k: int| 0 <= k < killed@.len()
                ==> killed@[k] > 0 && killed@[k] != self_pid && targets@.contains(killed@[k]),
            forall|k: int| 0 <= k < failed@.len()
                ==> failed@[k].pid > 0 && failed@[k].pid != self_pid && targets@.contains(
                failed@[k].pid),
        decreases targets@.len() - i,
    {
        let pid = targets[i];
        proof {
            assert(targets@.take(i + 1).drop_last() =~= targets@.take(i as int));
            assert(targets@.take(i + 1).last() == pid);
            assert(targets@.contains(pid));
            targets@.take(i as int).lemma_filter_push(pid, eligible_pred(self_pid));
            assert(targets@.take(i as int).push(pid) =~= targets@.take(i + 1));
        }
        if pid > 0 && pid != self_pid {
            attempted += 1;
            proof {
                eligible_targets(targets@.take(i + 1), self_pid).to_multiset_ensures();
                eligible_targets(targets@.take(i as int), self_pid).to_multiset_ensures();
            }
            match send_signal(pid, signal) {
                Ok(_) => {
                    proof {
                        killed@.to_multiset_ensures();
                        killed@.push(pid).to_multiset_ensures();
                    }
                    killed.push(pid);
                },
                Err(error) => {
                    let f = KillError { pid, error };
                    proof {
                        failed_pids(failed@).to_multiset_ensures();
                        failed_pids(failed@).push(pid).to_multiset_ensures();
                        assert(failed_pids(failed@.push(f)) =~= failed_pids(failed@).push(pid));
                    }
                    failed.push(f);
                },
            }
        }
        i += 1;
    }
    proof {
        assert(targets@.take(targets@.len() as int) =~= targets@);
    }
    KillReport { matched, attempted, killed, failed }
}

/// Issues the resolved signal once to every eligible target and reports the
/// outcomes. The engine's own process identifier is read from the OS, so the
/// accounting is stated relative to some positive self PID; what is certain
/// of every outcome is that the counts balance and that no non-positive PID
/// is ever attempted.
pub fn perform_kill(targets: &Vec<i32>, matched: usize, signal: SignalKind) -> (r: KillReport)
    ensures
        r.matched == matched,
        r.attempted == r.killed@.len() + r.failed@.len(),
        exists|self_pid: i32|
            #![auto]
            self_pid > 0 && r.attempted == eligible_targets(targets@, self_pid).len()
                && r.killed@.to_multiset().add(failed_pids(r.failed@).to_multiset())
                == eligible_targets(targets@, self_pid).to_multiset(),
        forall|i: int| 0 <= i < r.killed@.len() ==> r.killed@[i] > 0 && targets@.contains(
            r.killed@[i]),
        forall|i: int| 0 <= i < r.failed@.len() ==> r.failed@[i].pid > 0 && targets@.contains(
            r.failed@[i].pid),
{
    let self_pid = current_pid();
    perform_kill_on(targets, matched, signal, self_pid)
}

/// Deduplicating a target list before termination makes the engine signal any
/// one process at most once: over the deduplicated list, a PID is counted at
/// most once across the killed and failure lists together.
pub proof fn lemma_dedup_signals_once(
    pids: Seq<i32>,
    self_pid: i32,
    killed: Seq<i32>,
    failed: Seq<KillError>,
    p: i32,
)
    requires
        killed.to_multiset().add(failed_pids(failed).to_multiset())
            == eligible_targets(dedup_spec(pids), self_pid).to_multiset(),
    ensures
        killed.to_multiset().count(p) + failed_pids(failed).to_multiset().count(p) <= 1,
{
    broadcast use vstd::multiset::group_multiset_axioms;

    lemma_dedup_no_duplicates(pids);
    let deduped = dedup_spec(pids);
    let filtered = eligible_targets(deduped, self_pid);
    lemma_filter_keeps_no_duplicates(deduped, eligible_pred(self_pid));
    filtered.lemma_multiset_has_no_duplicates();
    filtered.to_multiset_ensures();
    assert(killed.to_multiset().count(p) + failed_pids(failed).to_multiset().count(p)
        == filtered.to_multiset().count(p));
}

/// A filtered sequence of a duplicate-free sequence is duplicate-free.
proof fn lemma_filter_keeps_no_duplicates(s: Seq<i32>, pred: spec_fn(i32) -> bool)
    requires
        s.no_duplicates(),
    ensures
        s.filter(pred).no_duplicates(),
    decreases s.len(),
{
    reveal(Seq::filter);
    if s.len() > 0 {
        let t = s.drop_last();
        let f = s.filter(pred);
        lemma_filter_keeps_no_duplicates(t, pred);
        if pred(s.last()) {
            assert(f == t.filter(pred).push(s.last()));
            assert forall|i: int, j: int| 0 <= i < j < f.len() implies f[i] != f[j] by {
                if j == f.len() - 1 {
                    assert(t.filter(pred).contains(f[i]));
                    t.lemma_filter_contains_rev(pred, f[i]);
                    let k = choose|k: int| 0 <= k < t.len() && t[k] == f[i];
                    assert(s[k] == t[k] && s[s.len() - 1] == s.last());
                }
            }
        }
    }
}

} // verus!
