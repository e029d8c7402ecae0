//! The snapshot source and process normalizer: a fresh read of the OS
//! process table, each record normalized to plain values and the list sorted
//! by resource use.

use sysinfo::{PidExt, ProcessExt, SystemExt};
use vstd::prelude::*;
use vstd::string::*;

use crate::model::ProcessInfo;
use crate::text::{join_from, join_sp};

verus! {

broadcast use vstd::seq::group_seq_axioms, vstd::seq_lib::group_seq_lib_default,
    vstd::string::group_string_axioms;

/// One process exactly as the OS capability hands it over, as plain values.
/// Memory figures are in kilobytes; an absent path is the empty string;
/// `cpu_bits` is the bit pattern of the non-negative CPU percentage, which
/// orders as the value.
pub struct RawProcess {
    pub pid: u32,
    pub parent: Option<u32>,
    pub name: String,
    pub exe: String,
    pub cmd: Vec<String>,
    pub status: String,
    pub cpu_bits: u32,
    pub memory_kb: u64,
    pub virtual_memory_kb: u64,
    pub read_bytes: u64,
    pub written_bytes: u64,
    pub run_time_seconds: u64,
    pub cwd: String,
    pub root: String,
}

/// A process record as mathematics: every textual field a character sequence.
pub struct ProcView {
    pub pid: i32,
    pub parent_pid: Option<i32>,
    pub name: Seq<char>,
    pub exe: Option<Seq<char>>,
    pub cmd: Seq<char>,
    pub status: Seq<char>,
    pub cpu_bits: u32,
    pub memory_bytes: u64,
    pub virtual_memory_bytes: u64,
    pub read_bytes: u64,
    pub written_bytes: u64,
    pub run_time_seconds: u64,
}

impl View for ProcessInfo {
    type V = ProcView;

    open spec fn view(&self) -> ProcView {
        ProcView {
            pid: self.pid,
            parent_pid: self.parent_pid,
            name: self.name@,
            exe: match self.exe {
                Some(s) => Some(s@),
                None => None,
            },
            cmd: self.cmd@,
            status: self.status@,
            cpu_bits: self.cpu_bits,
            memory_bytes: self.memory_bytes,
            virtual_memory_bytes: self.virtual_memory_bytes,
            read_bytes: self.read_bytes,
            written_bytes: self.written_bytes,
            run_time_seconds: self.run_time_seconds,
        }
    }
}

/// Multiplication by 1024 that tops out instead of wrapping.
pub open spec fn sat_kb_to_bytes(kb: u64) -> u64 {
    if kb * 1024 > u64::MAX {
        u64::MAX
    } else {
        (kb * 1024) as u64
    }
}

/// The canonical record a raw OS process normalizes to: the PID narrowed to
/// a signed integer, the empty path treated as absent, the argument list
/// joined with single spaces, and kilobyte figures converted to bytes with
/// saturation.
pub open spec fn info_view_of_raw(raw: RawProcess) -> ProcView {
    ProcView {
        pid: raw.pid as i32,
        parent_pid: match raw.parent {
            Some(p) => Some(p as i32),
            None => None,
        },
        name: raw.name@,
        exe: if raw.exe@.len() == 0 {
            None
        } else {
            Some(raw.exe@)
        },
        cmd: join_sp(raw.cmd.deep_view()),
        status: raw.status@,
        cpu_bits: raw.cpu_bits,
        memory_bytes: sat_kb_to_bytes(raw.memory_kb),
        virtual_memory_bytes: sat_kb_to_bytes(raw.virtual_memory_kb),
        read_bytes: raw.read_bytes,
        written_bytes: raw.written_bytes,
        run_time_seconds: raw.run_time_seconds,
    }
}

#[verifier::external_type_specification]
#[verifier::external_body]
pub struct ExSysinfoProcess(sysinfo::Process);

/// Relies on sysinfo::Process's accessors: they hand out the process's
/// parent, name, paths, arguments, status, CPU percentage, kilobyte memory
/// figures, cumulative disk counters and run time, here converted one for
/// one to plain values. They reflect the machine's state, so nothing is
/// promised of the result.
#[verifier::external_body]
fn process_raw(pid: u32, p: &sysinfo::Process) -> (r: RawProcess)
{
    RawProcess {
        pid, parent: p.parent().map(|q| q.as_u32()),
        name: p.name().to_string(), exe: p.exe().display().to_string(),
        cmd: p.cmd().to_vec(), status: format!("{:?}", p.status()),
        cpu_bits: p.cpu_usage().to_bits(),
        memory_kb: p.memory(), virtual_memory_kb: p.virtual_memory(),
        read_bytes: p.disk_usage().total_read_bytes,
        written_bytes: p.disk_usage().total_written_bytes,
        run_time_seconds: p.run_time(),
        cwd: p.cwd().display().to_string(), root: p.root().display().to_string(),
    }
}

/// Relies on sysinfo::System: `new_all` followed by `refresh_all` reads the
/// whole live process table afresh and `processes` hands every process out.
/// The result depends on the machine's state, so nothing is promised of it.
#[verifier::external_body]
pub fn raw_processes() -> (r: Vec<RawProcess>)
{
    let mut system = sysinfo::System::new_all();
    system.refresh_all();
    system.processes().iter().map(|(pid, p)| process_raw(pid.as_u32(), p)).collect()
}

/// An empty path means no path; anything else is kept as it stands.
pub fn path_to_string(path: &str) -> (r: Option<String>)
    ensures
        match r {
            Some(s) => path@.len() > 0 && s@ == path@,
            None => path@.len() == 0,
        },
{
    if path.is_empty() {
        None
    } else {
        Some(path.to_owned())
    }
}

fn kb_to_bytes(kb: u64) -> (r: u64)
    ensures
        r == sat_kb_to_bytes(kb),
{
    if kb > u64::MAX / 1024 {
        proof {
            assert(kb * 1024 > u64::MAX) by (nonlinear_arith)
                requires
                    kb > u64::MAX / 1024,
            ;
        }
        u64::MAX
    } else {
        proof {
            assert(kb * 1024 <= u64::MAX) by (nonlinear_arith)
                requires
                    kb <= u64::MAX / 1024,
            ;
        }
        kb * 1024
    }
}

/// Normalizes one raw OS record into the canonical shape.
pub fn process_to_info(raw: &RawProcess) -> (r: ProcessInfo)
    ensures
        r@ == info_view_of_raw(*raw),
{
    let cmd = join_from(&raw.cmd, 0);
    proof {
        assert(raw.cmd.deep_view().skip(0) =~= raw.cmd.deep_view());
    }
    ProcessInfo {
        pid: #[verifier::truncate] (raw.pid as i32),
        parent_pid: match raw.parent {
            Some(p) => Some(#[verifier::truncate] (p as i32)),
            None => None,
        },
        name: raw.name.clone(),
        exe: path_to_string(raw.exe.as_str()),
        cmd,
        status: raw.status.clone(),
        cpu_bits: raw.cpu_bits,
        memory_bytes: kb_to_bytes(raw.memory_kb),
        virtual_memory_bytes: kb_to_bytes(raw.virtual_memory_kb),
        read_bytes: raw.read_bytes,
        written_bytes: raw.written_bytes,
        run_time_seconds: raw.run_time_seconds,
    }
}

/// The list's order: descending CPU, ties by descending memory, then
/// ascending PID, so the most resource-hungry processes come first.
pub open spec fn proc_le(a: ProcView, b: ProcView) -> bool {
    if a.cpu_bits != b.cpu_bits {
        a.cpu_bits > b.cpu_bits
    } else if a.memory_bytes != b.memory_bytes {
        a.memory_bytes > b.memory_bytes
    } else {
        a.pid <= b.pid
    }
}

/// Whether the view sequence is sorted by the list's order.
pub open spec fn sorted_procs(s: Seq<ProcView>) -> bool {
    forall|i: int, j: int| 0 <= i < j < s.len() ==> proc_le(#[trigger] s[i], #[trigger] s[j])
}

fn proc_le_exec(a: &ProcessInfo, b: &ProcessInfo) -> (r: bool)
    ensures
        r == proc_le(a@, b@),
{
    if a.cpu_bits != b.cpu_bits {
        a.cpu_bits > b.cpu_bits
    } else if a.memory_bytes != b.memory_bytes {
        a.memory_bytes > b.memory_bytes
    } else {
        a.pid <= b.pid
    }
}

fn sorted_insert_pos_proc(v: &Vec<ProcessInfo>, x: &ProcessInfo) -> (r: usize)
    ensures
        r <= v@.len(),
        forall|k: int| 0 <= k < r ==> proc_le(#[trigger] v@[k]@, x@),
        r == v@.len() || !proc_le(v@[r as int]@, x@),
{
    let mut i: usize = 0;
    while i < v.len()
        invariant
            i <= v@.len(),
            forall|k: int| 0 <= k < i ==> proc_le(#[trigger] v@[k]@, x@),
        decreases v@.len() - i,
    {
        if !proc_le_exec(&v[i], x) {
            return i;
        }
        i += 1;
    }
    i
}

proof fn lemma_sorted_insert_proc(s: Seq<ProcView>, pos: int, x: ProcView)
    requires
        sorted_procs(s),
        0 <= pos <= s.len(),
        forall|k: int| 0 <= k < pos ==> proc_le(#[trigger] s[k], x),
        pos == s.len() || !proc_le(s[pos], x),
    ensures
        sorted_procs(s.insert(pos, x)),
{
    let t = s.insert(pos, x);
    s.insert_ensures(pos, x);
    assert forall|i: int, j: int| 0 <= i < j < t.len() implies proc_le(t[i], t[j]) by {}
}

/// Normalizes every raw record and sorts the result: descending CPU, ties by
/// descending memory, then ascending PID. The output holds exactly the
/// normalizations of the input records.
pub fn normalize_processes(raw: &Vec<RawProcess>) -> (r: Vec<ProcessInfo>)
    ensures
        sorted_procs(r@.map_values(|p: ProcessInfo| p@)),
        r@.map_values(|p: ProcessInfo| p@).to_multiset() == raw@.map_values(
            |w: RawProcess| info_view_of_raw(w),
        ).to_multiset(),
{
    broadcast use vstd::seq_lib::group_to_multiset_ensures;

    let ghost vw = |p: ProcessInfo| p@;
    let ghost rw = |w: RawProcess| info_view_of_raw(w);
    let mut out: Vec<ProcessInfo> = Vec::new();
    proof {
        assert(raw@.take(0).map_values(rw) =~= Seq::<ProcView>::empty());
        assert(out@.map_values(vw) =~= Seq::<ProcView>::empty());
    }
    let mut i: usize = 0;
    while i < raw.len()
        invariant
            i <= raw@.len(),
            vw == (|p: ProcessInfo| p@),
            rw == (|w: RawProcess| info_view_of_raw(w)),
            sorted_procs(out@.map_values(vw)),
            out@.map_values(vw).to_multiset() == raw@.take(i as int).map_values(rw).to_multiset(),
        decreases raw@.len() - i,
    {
        let x = process_to_info(&raw[i]);
        proof {
            assert(x@ == info_view_of_raw(raw@[i as int]));
            assert(raw@.take(i + 1).map_values(rw) =~= raw@.take(i as int).map_values(rw).push(
                x@,
            ));
            vstd::seq_lib::to_multiset_build(raw@.take(i as int).map_values(rw), x@);
        }
        let ghost old_out = out@;
        let pos = sorted_insert_pos_proc(&out, &x);
        proof {
            let s = old_out.map_values(vw);
            assert(forall|k: int| 0 <= k < s.len() ==> #[trigger] s[k] == old_out[k]@);
            lemma_sorted_insert_proc(s, pos as int, x@);
        }
        out.insert(pos, x);
        proof {
            let s = old_out.map_values(vw);
            assert(out@.map_values(vw) =~= s.insert(pos as int, x@));
            vstd::seq_lib::to_multiset_insert(s, pos as int, x@);
            assert(out@.map_values(vw).to_multiset() == raw@.take(i + 1).map_values(
                rw,
            ).to_multiset());
        }
        i += 1;
    }
    proof {
        assert(raw@.take(raw@.len() as int) =~= raw@);
    }
    out
}

/// Reads the whole process table afresh and hands it back normalized and
/// sorted: descending CPU, ties by descending memory, then ascending PID.
pub fn collect_processes() -> (r: Vec<ProcessInfo>)
    ensures
        sorted_procs(r@.map_values(|p: ProcessInfo| p@)),
{
    let raw = raw_processes();
    normalize_processes(&raw)
}

} // verus!
