use procscope::model::ProcError;
use procscope::ops::{get_process_details, get_process_snapshot};
use procscope::snapshot::{collect_processes, normalize_processes, path_to_string,
    process_to_info, RawProcess};

fn raw(pid: u32, cpu: f32, memory_kb: u64) -> RawProcess {
    RawProcess {
        pid,
        parent: None,
        name: format!("proc{pid}"),
        exe: String::new(),
        cmd: vec!["cmd".to_string(), "--flag".to_string()],
        status: "Run".to_string(),
        cpu_bits: cpu.to_bits(),
        memory_kb,
        virtual_memory_kb: 2 * memory_kb,
        read_bytes: 10,
        written_bytes: 20,
        run_time_seconds: 30,
        cwd: "/tmp".to_string(),
        root: "/".to_string(),
    }
}

#[test]
fn empty_path_is_absent_not_empty_string() {
    assert_eq!(path_to_string(""), None);
    assert_eq!(path_to_string("/usr/bin/x"), Some("/usr/bin/x".to_string()));
}

#[test]
fn normalizer_converts_units_and_joins_arguments() {
    let r = raw(42, 1.5, 5);
    let info = process_to_info(&r);
    assert_eq!(info.pid, 42);
    assert_eq!(info.parent_pid, None);
    assert_eq!(info.exe, None);
    assert_eq!(info.cmd, "cmd --flag");
    assert_eq!(info.memory_bytes, 5 * 1024);
    assert_eq!(info.virtual_memory_bytes, 10 * 1024);
    assert_eq!(info.cpu_bits, 1.5f32.to_bits());
    assert_eq!(info.run_time_seconds, 30);
}

#[test]
fn normalizer_saturates_kilobyte_conversion() {
    let r = raw(7, 0.0, u64::MAX / 2);
    let info = process_to_info(&r);
    assert_eq!(info.memory_bytes, u64::MAX);
}

#[test]
fn normalizer_keeps_nonempty_exe() {
    let mut r = raw(9, 0.0, 1);
    r.exe = "/bin/true".to_string();
    let info = process_to_info(&r);
    assert_eq!(info.exe, Some("/bin/true".to_string()));
}

#[test]
fn process_list_sorts_by_cpu_then_memory_then_pid() {
    let input = vec![raw(3, 1.0, 100), raw(2, 5.0, 10), raw(5, 1.0, 200), raw(1, 1.0, 100)];
    let out = normalize_processes(&input);
    let pids: Vec<i32> = out.iter().map(|p| p.pid).collect();
    // cpu 5.0 first; among cpu 1.0 the larger memory first; equal memory by
    // ascending pid.
    assert_eq!(pids, vec![2, 5, 1, 3]);
}

#[test]
fn live_process_list_is_sorted_and_nonempty() {
    let procs = collect_processes();
    assert!(!procs.is_empty());
    for w in procs.windows(2) {
        let (a, b) = (&w[0], &w[1]);
        let le = if a.cpu_bits != b.cpu_bits {
            a.cpu_bits > b.cpu_bits
        } else if a.memory_bytes != b.memory_bytes {
            a.memory_bytes > b.memory_bytes
        } else {
            a.pid <= b.pid
        };
        assert!(le);
    }
}

#[test]
fn snapshot_carries_timestamp_and_count() {
    let s = get_process_snapshot(Ok(1234567)).expect("should succeed");
    assert_eq!(s.collected_at_epoch_ms, 1234567);
    assert_eq!(s.process_count, s.processes.len());
    assert!(s.process_count > 0);
}

#[test]
fn snapshot_surfaces_clock_failure() {
    let r = get_process_snapshot(Err("went backwards".to_string()));
    assert!(matches!(r, Err(ProcError::Clock(m)) if m == "went backwards"));
}

#[test]
fn details_reject_nonpositive_pid() {
    assert!(matches!(get_process_details(0, None), Err(ProcError::InvalidPid)));
    assert!(matches!(get_process_details(-2, None), Err(ProcError::InvalidPid)));
}

#[test]
fn details_of_absent_pid_are_not_found() {
    let r = get_process_details(1_999_999_999, None);
    assert_eq!(r.err(), Some(ProcError::NotFound(1_999_999_999)));
}

#[test]
fn details_with_failed_probe_still_succeed_without_handle_count() {
    let own = nix::unistd::getpid().as_raw();
    let d = get_process_details(own, None).expect("own process should be found");
    assert_eq!(d.process.pid, own);
    assert_eq!(d.open_file_handles, None);
}
