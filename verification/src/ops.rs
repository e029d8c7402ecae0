//! The five operations the library exposes: snapshot, details, port listing,
//! kill by PID and kill by query.

use vstd::prelude::*;
use vstd::string::*;

use crate::hierarchy::{build_child_map, child_map_spec, collect_descendants, descendants_of,
    index_view};
use crate::kill::{dedup_spec, dedupe_pids, eligible_targets, failed_pids, perform_kill,
    resolve_signal};
use crate::model::{CommandCapture, KillError, KillReport, PortInfo, ProcError, ProcessDetails,
    ProcessInfo, ProcessSnapshot};
use crate::ports::{collect_ports, count_open_file_handles, dedup_ports, parsed_ports, sorted_ports};
use crate::snapshot::{collect_processes, info_view_of_raw, path_to_string, process_to_info,
    raw_processes, sorted_procs, ProcView, RawProcess};
use crate::text::{ascii_lower, contains_sub, lower_seq, str_contains, trim_class,
    trim_class_spec, CharClass};

verus! {

broadcast use vstd::seq::group_seq_axioms, vstd::seq_lib::group_seq_lib_default,
    vstd::string::group_string_axioms;

/// Produces the full sorted process list with its capture timestamp and
/// count; fails exactly when the clock reading failed.
pub fn get_process_snapshot(clock_ms: Result<u128, String>) -> (r: Result<
    ProcessSnapshot,
    ProcError,
>)
    ensures
        match r {
            Ok(s) => clock_ms matches Ok(t) && s.collected_at_epoch_ms == t && s.process_count
                == s.processes@.len() && sorted_procs(
                s.processes@.map_values(|p: ProcessInfo| p@),
            ),
            Err(e) => clock_ms matches Err(m) && e == ProcError::Clock(m),
        },
{
    let processes = collect_processes();
    match clock_ms {
        Err(m) => Err(ProcError::Clock(m)),
        Ok(t) => Ok(
            ProcessSnapshot {
                collected_at_epoch_ms: t,
                process_count: processes.len(),
                processes,
            },
        ),
    }
}

fn find_raw_by_pid(raw: &Vec<RawProcess>, pid: i32) -> (r: Option<usize>)
    ensures
        match r {
            Some(i) => i < raw@.len() && info_view_of_raw(raw@[i as int]).pid == pid,
            None => forall|i: int|
                0 <= i < raw@.len() ==> info_view_of_raw(#[trigger] raw@[i]).pid != pid,
        },
{
    let mut i: usize = 0;
    while i < raw.len()
        invariant
            i <= raw@.len(),
            forall|j: int| 0 <= j < i ==> info_view_of_raw(#[trigger] raw@[j]).pid != pid,
        decreases raw@.len() - i,
    {
        let candidate: i32 = #[verifier::truncate] (raw[i].pid as i32);
        if candidate == pid {
            return Some(i);
        }
        i += 1;
    }
    None
}

/// Looks one PID up in a fresh scan and augments it with the secondary
/// probes: a failed file-handle probe yields an absent count, not an error.
pub fn get_process_details(pid: i32, handle_probe: Option<CommandCapture>) -> (r: Result<
    ProcessDetails,
    ProcError,
>)
    ensures
        pid <= 0 ==> r == Err::<ProcessDetails, ProcError>(ProcError::InvalidPid),
        match r {
            Err(ProcError::InvalidPid) => pid <= 0,
            Err(ProcError::NotFound(p)) => p == pid && pid > 0,
            Err(_) => false,
            Ok(d) => pid > 0 && d.process@.pid == pid && (match handle_probe {
                Some(c) => c.success || d.open_file_handles is None,
                None => d.open_file_handles is None,
            }),
        },
{
    if pid <= 0 {
        return Err(ProcError::InvalidPid);
    }
    let raw = raw_processes();
    match find_raw_by_pid(&raw, pid) {
        None => Err(ProcError::NotFound(pid)),
        Some(i) => {
            let process = process_to_info(&raw[i]);
            let open_file_handles = count_open_file_handles(&handle_probe);
            Ok(
                ProcessDetails {
                    process,
                    open_file_handles,
                    cwd: path_to_string(raw[i].cwd.as_str()),
                    root: path_to_string(raw[i].root.as_str()),
                },
            )
        },
    }
}

/// Lists the open ports from the captured output of the socket-listing
/// utility: parsed, deduplicated by the composite key, and sorted.
pub fn list_open_ports(capture: Result<CommandCapture, String>) -> (r: Result<
    Vec<PortInfo>,
    ProcError,
>)
    ensures
        match r {
            Ok(ports) => capture matches Ok(c) && c.success && sorted_ports(
                ports@.map_values(|p: PortInfo| p@),
            ) && ports@.map_values(|p: PortInfo| p@).to_multiset() == dedup_ports(
                parsed_ports(c.stdout@),
            ).to_multiset(),
            Err(e) => match capture {
                Ok(c) => !c.success && e == ProcError::ToolStatus(c.code),
                Err(msg) => e == ProcError::ToolSpawn(msg),
            },
        },
{
    collect_ports(capture)
}

/// The PIDs a kill-by-PID request targets: the root's post-order descendant
/// expansion when children are included, then the root itself.
pub open spec fn pid_targets(procs: Seq<ProcessInfo>, pid: i32, with_children: Option<bool>) -> Seq<
    i32,
> {
    let cm = child_map_spec(procs);
    (if with_children != Some(false) {
        descendants_of(cm, pid, cm.dom().len())
    } else {
        Seq::empty()
    }).push(pid)
}

/// Kill by PID against a given process list: rejects a non-positive PID,
/// fails when the PID is absent from the list, and otherwise expands,
/// deduplicates and signals the target set with a matched-root count of one.
pub fn kill_pid_in(
    processes: &Vec<ProcessInfo>,
    pid: i32,
    include_children: Option<bool>,
    force: Option<bool>,
) -> (r: Result<KillReport, ProcError>)
    ensures
        pid <= 0 ==> r == Err::<KillReport, ProcError>(ProcError::InvalidPid),
        match r {
            Err(ProcError::InvalidPid) => pid <= 0,
            Err(ProcError::NotFound(p)) => p == pid && pid > 0 && forall|i: int|
                0 <= i < processes@.len() ==> (#[trigger] processes@[i]).pid != pid,
            Err(_) => false,
            Ok(rep) => pid > 0 && (exists|i: int|
                0 <= i < processes@.len() && (#[trigger] processes@[i]).pid == pid) && rep.matched
                == 1 && rep.attempted == rep.killed@.len() + rep.failed@.len() && (forall|k: int|
                0 <= k < rep.killed@.len() ==> rep.killed@[k] > 0) && (forall|k: int|
                0 <= k < rep.failed@.len() ==> rep.failed@[k].pid > 0) && exists|self_pid: i32|
                {
                    &&& self_pid > 0
                    &&& rep.attempted == (#[trigger] eligible_targets(
                        dedup_spec(pid_targets(processes@, pid, include_children)),
                        self_pid,
                    )).len()
                    &&& rep.killed@.to_multiset().add(failed_pids(rep.failed@).to_multiset())
                        == eligible_targets(
                        dedup_spec(pid_targets(processes@, pid, include_children)),
                        self_pid,
                    ).to_multiset()
                },
        },
{
    if pid <= 0 {
        return Err(ProcError::InvalidPid);
    }
    let mut found = false;
    let mut i: usize = 0;
    while i < processes.len()
        invariant
            i <= processes@.len(),
            found <==> exists|j: int|
                0 <= j < i && (#[trigger] processes@[j]).pid == pid,
        decreases processes@.len() - i,
    {
        if processes[i].pid == pid {
            found = true;
        }
        i += 1;
    }
    if !found {
        return Err(ProcError::NotFound(pid));
    }
    let child_map = build_child_map(processes);
    let with_children = match include_children {
        Some(b) => b,
        None => true,
    };
    let mut targets: Vec<i32> = Vec::new();
    if with_children {
        collect_descendants(pid, &child_map, &mut targets);
    }
    targets.push(pid);
    proof {
        assert(index_view(child_map@).dom() =~= child_map@.dom());
        assert(with_children == (include_children != Some(false)));
        assert(targets@ == pid_targets(processes@, pid, include_children));
    }
    let deduped = dedupe_pids(targets);
    let report = perform_kill(&deduped, 1, resolve_signal(force));
    Ok(report)
}

/// Kill by PID against a fresh scan of the live process table.
pub fn kill_process(pid: i32, include_children: Option<bool>, force: Option<bool>) -> (r: Result<
    KillReport,
    ProcError,
>)
    ensures
        pid <= 0 ==> r == Err::<KillReport, ProcError>(ProcError::InvalidPid),
        match r {
            Err(ProcError::InvalidPid) => pid <= 0,
            Err(ProcError::NotFound(p)) => p == pid && pid > 0,
            Err(_) => false,
            Ok(rep) => pid > 0 && rep.matched == 1 && rep.attempted == rep.killed@.len()
                + rep.failed@.len() && (forall|k: int|
                0 <= k < rep.killed@.len() ==> rep.killed@[k] > 0) && (forall|k: int|
                0 <= k < rep.failed@.len() ==> rep.failed@[k].pid > 0),
        },
{
    let processes = collect_processes();
    kill_pid_in(&processes, pid, include_children, force)
}

/// The query, trimmed of surrounding whitespace and lowercased.
pub open spec fn normalized_query(q: Seq<char>) -> Seq<char> {
    lower_seq(trim_class_spec(CharClass::Space, q))
}

/// Whether a process matches a normalized query: a case-insensitive
/// substring match against its name or its full command line.
pub open spec fn query_matches(p: ProcView, nq: Seq<char>) -> bool {
    contains_sub(lower_seq(p.name), nq) || contains_sub(lower_seq(p.cmd), nq)
}

/// The matching predicate over records.
pub open spec fn match_pred(nq: Seq<char>) -> spec_fn(ProcessInfo) -> bool {
    |p: ProcessInfo| query_matches(p@, nq)
}

/// The PIDs of the processes a normalized query matches, in list order.
pub open spec fn matched_pids(procs: Seq<ProcessInfo>, nq: Seq<char>) -> Seq<i32> {
    procs.filter(match_pred(nq)).map_values(|p: ProcessInfo| p.pid)
}

/// The merged target list of a set of matched roots, each root's descendant
/// expansion (when children are included) followed by the root itself.
pub open spec fn targets_of_roots(
    cm: Map<i32, Seq<i32>>,
    roots: Seq<i32>,
    with_children: bool,
    fuel: nat,
) -> Seq<i32>
    decreases roots.len(),
{
    if roots.len() == 0 {
        Seq::empty()
    } else {
        targets_of_roots(cm, roots.drop_last(), with_children, fuel) + (if with_children {
            descendants_of(cm, roots.last(), fuel)
        } else {
            Seq::empty()
        }).push(roots.last())
    }
}

/// The full target list of a kill-by-query request.
pub open spec fn query_targets(
    procs: Seq<ProcessInfo>,
    q: Seq<char>,
    with_children: Option<bool>,
) -> Seq<i32> {
    let cm = child_map_spec(procs);
    targets_of_roots(
        cm,
        matched_pids(procs, normalized_query(q)),
        with_children != Some(false),
        cm.dom().len(),
    )
}

/// Kill by query against a given process list: rejects an empty or
/// whitespace-only query; zero matches is a success with an all-zero report;
/// otherwise every matched root contributes its expansion, the merged set is
/// deduplicated, and the matched count is the number of matching roots.
pub fn kill_matching_in(
    processes: &Vec<ProcessInfo>,
    query: &str,
    include_children: Option<bool>,
    force: Option<bool>,
) -> (r: Result<KillReport, ProcError>)
    ensures
        normalized_query(query@).len() == 0 <==> r == Err::<KillReport, ProcError>(
            ProcError::EmptyQuery,
        ),
        match r {
            Err(e) => e == ProcError::EmptyQuery,
            Ok(rep) => {
                let nq = normalized_query(query@);
                let roots = matched_pids(processes@, nq);
                &&& rep.matched == roots.len()
                &&& (roots.len() == 0 ==> rep.attempted == 0 && rep.killed@ == Seq::<i32>::empty()
                    && rep.failed@ == Seq::<KillError>::empty())
                &&& rep.attempted == rep.killed@.len() + rep.failed@.len()
                &&& (forall|k: int| 0 <= k < rep.killed@.len() ==> rep.killed@[k] > 0)
                &&& (forall|k: int| 0 <= k < rep.failed@.len() ==> rep.failed@[k].pid > 0)
                &&& (roots.len() > 0 ==> exists|self_pid: i32|
                    {
                        &&& self_pid > 0
                        &&& rep.attempted == (#[trigger] eligible_targets(
                            dedup_spec(
                                query_targets(processes@, query@, include_children),
                            ),
                            self_pid,
                        )).len()
                        &&& rep.killed@.to_multiset().add(failed_pids(rep.failed@).to_multiset())
                            == eligible_targets(
                            dedup_spec(
                                query_targets(processes@, query@, include_children),
                            ),
                            self_pid,
                        ).to_multiset()
                    })
            },
        },
{
    let trimmed = trim_class(query, CharClass::Space);
    let nq = ascii_lower(trimmed);
    if nq.as_str().is_empty() {
        return Err(ProcError::EmptyQuery);
    }
    let ghost nqs = normalized_query(query@);
    let mut roots: Vec<i32> = Vec::new();
    proof {
        assert(processes@.take(0).filter(match_pred(nqs)) =~= Seq::<ProcessInfo>::empty())
            by {
            reveal(Seq::filter);
        }
        assert(roots@ =~= matched_pids(processes@.take(0), nqs));
    }
    let mut i: usize = 0;
    while i < processes.len()
        invariant
            i <= processes@.len(),
            nqs == normalized_query(query@),
            nq@ == nqs,
            roots@ == matched_pids(processes@.take(i as int), nqs),
        decreases processes@.len() - i,
    {
        let p = &processes[i];
        let name_l = ascii_lower(p.name.as_str());
        let cmd_l = ascii_lower(p.cmd.as_str());
        let is_match = str_contains(name_l.as_str(), nq.as_str()) || str_contains(
            cmd_l.as_str(),
            nq.as_str(),
        );
        proof {
            assert(is_match == query_matches(processes@[i as int]@, nqs));
            assert(processes@.take(i as int).push(processes@[i as int]) =~= processes@.take(
                i + 1,
            ));
            processes@.take(i as int).lemma_filter_push(processes@[i as int], match_pred(nqs));
        }
        if is_match {
            roots.push(p.pid);
        }
        proof {
            assert(roots@ =~= matched_pids(processes@.take(i + 1), nqs));
        }
        i += 1;
    }
    proof {
        assert(processes@.take(processes@.len() as int) =~= processes@);
    }
    if roots.len() == 0 {
        let killed: Vec<i32> = Vec::new();
        let failed: Vec<KillError> = Vec::new();
        return Ok(KillReport { matched: 0, attempted: 0, killed, failed });
    }
    let child_map = build_child_map(processes);
    let with_children = match include_children {
        Some(b) => b,
        None => true,
    };
    let ghost cm = child_map_spec(processes@);
    let ghost fuel = cm.dom().len();
    proof {
        assert(index_view(child_map@).dom() =~= child_map@.dom());
    }
    let mut targets: Vec<i32> = Vec::new();
    proof {
        assert(targets@ =~= targets_of_roots(cm, roots@.take(0), with_children, fuel));
    }
    let mut j: usize = 0;
    while j < roots.len()
        invariant
            j <= roots@.len(),
            cm == child_map_spec(processes@),
            fuel == cm.dom().len(),
            index_view(child_map@) == cm,
            child_map@.dom().len() == fuel,
            targets@ == targets_of_roots(cm, roots@.take(j as int), with_children, fuel),
        decreases roots@.len() - j,
    {
        let root = roots[j];
        let ghost before = targets@;
        if with_children {
            collect_descendants(root, &child_map, &mut targets);
        }
        targets.push(root);
        proof {
            assert(roots@.take(j + 1).drop_last() =~= roots@.take(j as int));
            assert(roots@.take(j + 1).last() == root);
            let expansion = if with_children {
                descendants_of(cm, root, fuel)
            } else {
                Seq::<i32>::empty()
            };
            assert(targets@ =~= before + expansion.push(root));
            assert(targets@ =~= targets_of_roots(cm, roots@.take(j + 1), with_children, fuel));
        }
        j += 1;
    }
    proof {
        assert(roots@.take(roots@.len() as int) =~= roots@);
        assert(with_children == (include_children != Some(false)));
        assert(targets@ == query_targets(processes@, query@, include_children));
    }
    let deduped = dedupe_pids(targets);
    let report = perform_kill(&deduped, roots.len(), resolve_signal(force));
    Ok(report)
}

/// Kill by query against a fresh scan of the live process table.
pub fn kill_matching_processes(
    query: String,
    include_children: Option<bool>,
    force: Option<bool>,
) -> (r: Result<KillReport, ProcError>)
    ensures
        normalized_query(query@).len() == 0 <==> r == Err::<KillReport, ProcError>(
            ProcError::EmptyQuery,
        ),
        match r {
            Err(e) => e == ProcError::EmptyQuery,
            Ok(rep) => rep.attempted == rep.killed@.len() + rep.failed@.len() && (forall|k: int|
                0 <= k < rep.killed@.len() ==> rep.killed@[k] > 0) && (forall|k: int|
                0 <= k < rep.failed@.len() ==> rep.failed@[k].pid > 0),
        },
{
    let processes = collect_processes();
    kill_matching_in(&processes, query.as_str(), include_children, force)
}

} // verus!
