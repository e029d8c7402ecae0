//! The data shapes that every operation produces or consumes.

use vstd::prelude::*;

verus! {

/// One process as reported by the most recent snapshot.
///
/// `cpu_bits` holds the IEEE-754 bit pattern of the instantaneous CPU
/// percentage. The readings the snapshot source yields are non-negative, and
/// for non-negative values the bit pattern orders exactly as the value does,
/// so comparing `cpu_bits` as integers compares the percentages.
#[derive(Debug, PartialEq, Eq)]
pub struct ProcessInfo {
    pub pid: i32,
    pub parent_pid: Option<i32>,
    pub name: String,
    pub exe: Option<String>,
    pub cmd: String,
    pub status: String,
    pub cpu_bits: u32,
    pub memory_bytes: u64,
    pub virtual_memory_bytes: u64,
    pub read_bytes: u64,
    pub written_bytes: u64,
    pub run_time_seconds: u64,
}

/// A full process list with the moment it was captured.
#[derive(Debug)]
pub struct ProcessSnapshot {
    pub collected_at_epoch_ms: u128,
    pub process_count: usize,
    pub processes: Vec<ProcessInfo>,
}

/// One process augmented with the results of the secondary probes.
#[derive(Debug)]
pub struct ProcessDetails {
    pub process: ProcessInfo,
    pub open_file_handles: Option<u32>,
    pub cwd: Option<String>,
    pub root: Option<String>,
}

/// One listening or open socket, normalized from a line of utility output.
#[derive(Debug, PartialEq, Eq)]
pub struct PortInfo {
    pub protocol: String,
    pub local_address: String,
    pub port: u16,
    pub state: Option<String>,
    pub pid: Option<i32>,
    pub process_name: Option<String>,
}

fn clone_opt_string(o: &Option<String>) -> (r: Option<String>)
    ensures
        r == *o,
{
    match o {
        Some(s) => Some(s.clone()),
        None => None,
    }
}

impl Clone for ProcessInfo {
    /// An exact copy, field for field.
    fn clone(&self) -> (r: Self)
        ensures
            r == *self,
    {
        ProcessInfo {
            pid: self.pid,
            parent_pid: self.parent_pid,
            name: self.name.clone(),
            exe: clone_opt_string(&self.exe),
            cmd: self.cmd.clone(),
            status: self.status.clone(),
            cpu_bits: self.cpu_bits,
            memory_bytes: self.memory_bytes,
            virtual_memory_bytes: self.virtual_memory_bytes,
            read_bytes: self.read_bytes,
            written_bytes: self.written_bytes,
            run_time_seconds: self.run_time_seconds,
        }
    }
}

impl Clone for PortInfo {
    /// An exact copy, field for field.
    fn clone(&self) -> (r: Self)
        ensures
            r == *self,
    {
        PortInfo {
            protocol: self.protocol.clone(),
            local_address: self.local_address.clone(),
            port: self.port,
            state: clone_opt_string(&self.state),
            pid: self.pid,
            process_name: clone_opt_string(&self.process_name),
        }
    }
}

/// One target whose signal delivery failed, with the OS-provided text.
#[derive(Debug, Clone, PartialEq, Eq)]
pub struct KillError {
    pub pid: i32,
    pub error: String,
}

/// The per-PID outcome accounting of one termination request.
#[derive(Debug, PartialEq, Eq)]
pub struct KillReport {
    pub matched: usize,
    pub attempted: usize,
    pub killed: Vec<i32>,
    pub failed: Vec<KillError>,
}

/// Why an operation was refused or could not complete.
#[derive(Debug, Clone, PartialEq, Eq)]
pub enum ProcError {
    /// The caller passed a PID that is not a positive integer.
    InvalidPid,
    /// The caller passed an empty or whitespace-only query.
    EmptyQuery,
    /// The PID was absent from a fresh scan of the process table.
    NotFound(i32),
    /// The external inspection utility could not be started.
    ToolSpawn(String),
    /// The external inspection utility exited with a nonzero status.
    ToolStatus(Option<i32>),
    /// The system clock could not be read.
    Clock(String),
}

/// What an external command invocation handed back: whether it exited
/// successfully, its exit code if any, and its captured standard output.
#[derive(Debug, Clone)]
pub struct CommandCapture {
    pub success: bool,
    pub code: Option<i32>,
    pub stdout: String,
}

/// Which termination signal a request resolves to.
#[derive(Debug, Clone, Copy, PartialEq, Eq, Structural)]
pub enum SignalKind {
    /// A request the target may handle and clean up after.
    Graceful,
    /// An immediate termination the OS enforces.
    Forceful,
}

} // verus!
