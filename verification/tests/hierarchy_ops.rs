use procscope::hierarchy::{build_child_map, collect_descendants};
use procscope::model::{ProcError, ProcessInfo};
use procscope::ops::{kill_matching_in, kill_pid_in};

const BOGUS_ROOT: i32 = 1_999_999_997;
const BOGUS_A: i32 = 1_999_999_998;
const BOGUS_B: i32 = 1_999_999_999;

fn proc_entry(pid: i32, parent: Option<i32>, name: &str, cmd: &str) -> ProcessInfo {
    ProcessInfo {
        pid,
        parent_pid: parent,
        name: name.to_string(),
        exe: None,
        cmd: cmd.to_string(),
        status: "Run".to_string(),
        cpu_bits: 0,
        memory_bytes: 0,
        virtual_memory_bytes: 0,
        read_bytes: 0,
        written_bytes: 0,
        run_time_seconds: 0,
    }
}

fn chain() -> Vec<ProcessInfo> {
    vec![
        proc_entry(BOGUS_ROOT, None, "rootproc", "rootproc --serve"),
        proc_entry(BOGUS_A, Some(BOGUS_ROOT), "childa", "childa"),
        proc_entry(BOGUS_B, Some(BOGUS_A), "childb", "childb"),
    ]
}

#[test]
fn descendants_come_out_in_post_order() {
    let procs = chain();
    let map = build_child_map(&procs);
    let mut out = Vec::new();
    collect_descendants(BOGUS_ROOT, &map, &mut out);
    assert_eq!(out, vec![BOGUS_B, BOGUS_A]);
}

#[test]
fn descendants_of_absent_pid_are_empty() {
    let procs = chain();
    let map = build_child_map(&procs);
    let mut out = Vec::new();
    collect_descendants(12345, &map, &mut out);
    assert!(out.is_empty());
}

#[test]
fn sibling_subtrees_keep_list_order() {
    let procs = vec![
        proc_entry(1_999_999_990, None, "r", "r"),
        proc_entry(1_999_999_991, Some(1_999_999_990), "s1", "s1"),
        proc_entry(1_999_999_992, Some(1_999_999_990), "s2", "s2"),
        proc_entry(1_999_999_993, Some(1_999_999_991), "s1kid", "s1kid"),
    ];
    let map = build_child_map(&procs);
    let mut out = Vec::new();
    collect_descendants(1_999_999_990, &map, &mut out);
    assert_eq!(out, vec![1_999_999_993, 1_999_999_991, 1_999_999_992]);
}

#[test]
fn kill_pid_rejects_nonpositive_pid() {
    let procs = chain();
    assert_eq!(kill_pid_in(&procs, 0, None, None), Err(ProcError::InvalidPid));
    assert_eq!(kill_pid_in(&procs, -7, None, None), Err(ProcError::InvalidPid));
}

#[test]
fn kill_pid_absent_from_scan_is_not_found() {
    let procs = chain();
    let r = kill_pid_in(&procs, 123456, None, None);
    assert_eq!(r, Err(ProcError::NotFound(123456)));
}

#[test]
fn kill_pid_expands_tree_and_signals_each_target_once() {
    let procs = chain();
    let rep = kill_pid_in(&procs, BOGUS_ROOT, None, None).expect("should report");
    assert_eq!(rep.matched, 1);
    assert_eq!(rep.attempted, 3);
    assert_eq!(rep.attempted, rep.killed.len() + rep.failed.len());
    // No such processes exist, so every delivery fails, in post-order with
    // the root last.
    assert!(rep.killed.is_empty());
    let failed_pids: Vec<i32> = rep.failed.iter().map(|f| f.pid).collect();
    assert_eq!(failed_pids, vec![BOGUS_B, BOGUS_A, BOGUS_ROOT]);
}

#[test]
fn kill_pid_without_children_signals_only_the_root() {
    let procs = chain();
    let rep = kill_pid_in(&procs, BOGUS_ROOT, Some(false), None).expect("should report");
    assert_eq!(rep.attempted, 1);
    let failed_pids: Vec<i32> = rep.failed.iter().map(|f| f.pid).collect();
    assert_eq!(failed_pids, vec![BOGUS_ROOT]);
}

#[test]
fn kill_query_rejects_empty_and_whitespace_queries() {
    let procs = chain();
    assert_eq!(kill_matching_in(&procs, "", None, None), Err(ProcError::EmptyQuery));
    assert_eq!(kill_matching_in(&procs, "   \t ", None, None), Err(ProcError::EmptyQuery));
}

#[test]
fn kill_query_with_no_matches_is_an_all_zero_report() {
    let procs = chain();
    let rep = kill_matching_in(&procs, "no-such-name-anywhere", None, None).expect("should report");
    assert_eq!(rep.matched, 0);
    assert_eq!(rep.attempted, 0);
    assert!(rep.killed.is_empty());
    assert!(rep.failed.is_empty());
}

#[test]
fn kill_query_matches_case_insensitively_on_name_and_command() {
    let mut procs = chain();
    procs.push(proc_entry(1_999_999_996, None, "FireFox", "FireFox --profile x"));
    let rep = kill_matching_in(&procs, "  fireFOX ", None, None).expect("should report");
    assert_eq!(rep.matched, 1);
    assert_eq!(rep.attempted, 1);
    let failed_pids: Vec<i32> = rep.failed.iter().map(|f| f.pid).collect();
    assert_eq!(failed_pids, vec![1_999_999_996]);
}

#[test]
fn kill_query_never_signals_the_host_process() {
    let own = nix::unistd::getpid().as_raw();
    let procs = vec![proc_entry(own, None, "host-shield-check", "host-shield-check")];
    let rep = kill_matching_in(&procs, "host-shield-check", None, None).expect("should report");
    assert_eq!(rep.matched, 1);
    assert_eq!(rep.attempted, 0);
    assert!(rep.killed.is_empty());
    assert!(rep.failed.is_empty());
}

#[test]
fn kill_query_merges_and_dedupes_targets_across_roots() {
    // childa matches both by name and as a descendant of rootproc.
    let procs = chain();
    let rep = kill_matching_in(&procs, "child", None, None).expect("should report");
    // Roots: childa and childb; childb is also childa's descendant.
    assert_eq!(rep.matched, 2);
    assert_eq!(rep.attempted, 2);
    let mut failed_pids: Vec<i32> = rep.failed.iter().map(|f| f.pid).collect();
    failed_pids.sort();
    assert_eq!(failed_pids, vec![BOGUS_A, BOGUS_B]);
}
