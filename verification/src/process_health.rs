//! Observation-only local process health.
//!
//! This module deliberately reports operating-system evidence separately from
//! session readiness. A process being present is useful diagnostic metadata,
//! but it does not establish that a particular session is working or waiting
//! for the user. Enumerating processes is the application's part; the
//! observer classifies what an enumeration found.

use vstd::prelude::*;

use crate::order::{keep_where, lemma_keep_where};
use crate::text::{ascii_lower, ascii_lower_char, chars_of, push_char, str_equal, trim, trim_str};

verus! {

#[derive(Clone, Copy, Debug, PartialEq, Eq, Structural)]
pub enum Evidence {
    /// The process snapshot was read successfully.
    Available,
    /// The process snapshot could not be read at all.
    Unavailable,
    /// The snapshot was only partially readable.
    Degraded,
}

#[derive(Clone, Copy, Debug, PartialEq, Eq, Structural)]
pub enum Presence {
    Running,
    NotRunning,
    Unknown,
}

#[derive(Clone, Copy, Debug, PartialEq, Eq, Structural)]
pub enum Activity {
    /// No supported activity signal is available.
    Unknown,
}

#[derive(Debug, PartialEq, Eq)]
pub struct ProcessInfo {
    pub process_id: u32,
    pub executable: String,
}

impl Clone for ProcessInfo {
    fn clone(&self) -> (copy: Self)
        ensures
            copy == *self,
    {
        ProcessInfo { process_id: self.process_id, executable: self.executable.clone() }
    }
}

#[derive(Debug, PartialEq, Eq)]
pub struct ProcessHealth {
    pub evidence: Evidence,
    pub presence: Presence,
    pub activity: Activity,
    pub processes: Vec<ProcessInfo>,
}

/// Presence as the evidence supports it: unknown without a snapshot,
/// otherwise whether any matching process was seen.
pub open spec fn presence_of(evidence: Evidence, process_count: nat) -> Presence {
    match evidence {
        Evidence::Unavailable => Presence::Unknown,
        _ => if process_count == 0 {
            Presence::NotRunning
        } else {
            Presence::Running
        },
    }
}

impl ProcessHealth {
    pub fn from_snapshot(evidence: Evidence, processes: Vec<ProcessInfo>) -> (health: Self)
        ensures
            health.evidence == evidence,
            health.presence == presence_of(evidence, processes@.len()),
            health.activity == Activity::Unknown,
            health.processes == processes,
    {
        let presence = match evidence {
            Evidence::Unavailable => Presence::Unknown,
            _ => if processes.len() == 0 {
                Presence::NotRunning
            } else {
                Presence::Running
            },
        };
        ProcessHealth { evidence, presence, activity: Activity::Unknown, processes }
    }
}

/// What one enumeration of the system's processes produced.
#[derive(Debug, PartialEq, Eq)]
pub enum ProcessSnapshot {
    /// No snapshot could be taken.
    Unavailable,
    /// A snapshot was taken but its first entry could not be read.
    Unreadable,
    /// The entries read, in enumeration order, and whether enumeration
    /// reached the normal end of the snapshot.
    Listed { entries: Vec<ProcessInfo>, complete: bool },
}

/// ASCII letters lowered, every other character kept.
pub open spec fn lowered(s: Seq<char>) -> Seq<char> {
    s.map_values(|c: char| ascii_lower(c))
}

/// An executable name as the observer compares it.
pub open spec fn normalized_name(s: Seq<char>) -> Seq<char> {
    lowered(trim(s))
}

pub open spec fn nonempty_name() -> spec_fn(Seq<char>) -> bool {
    |s: Seq<char>| s.len() > 0
}

/// Whether a process's executable is one of `names`, ignoring ASCII case.
pub open spec fn is_watched(names: Seq<Seq<char>>, process: ProcessInfo) -> bool {
    names.contains(lowered(process.executable@))
}

pub open spec fn watched_by(names: Seq<Seq<char>>) -> spec_fn(ProcessInfo) -> bool {
    |p: ProcessInfo| is_watched(names, p)
}

/// A copy of `s` with ASCII letters lowered.
pub fn to_ascii_lowercase(s: &str) -> (lower: String)
    ensures
        lower@ == lowered(s@),
{
    let chars = chars_of(s);
    let mut lower = String::new();
    let mut i: usize = 0;
    while i < chars.len()
        invariant
            i <= chars@.len(),
            chars@ == s@,
            lower@ == lowered(chars@.take(i as int)),
        decreases chars.len() - i,
    {
        push_char(&mut lower, ascii_lower_char(chars[i]));
        proof {
            assert(lowered(chars@.take(i + 1)) =~= lowered(chars@.take(i as int)).push(
                ascii_lower(chars@[i as int]),
            ));
        }
        i = i + 1;
    }
    proof {
        assert(chars@.take(chars@.len() as int) =~= chars@);
    }
    lower
}

#[derive(Debug, PartialEq, Eq)]
pub struct ProcessObserver {
    executable_names: Vec<String>,
}

impl Clone for ProcessObserver {
    fn clone(&self) -> (copy: Self)
        ensures
            copy.names() == self.names(),
    {
        ProcessObserver { executable_names: crate::text::copy_strings(&self.executable_names) }
    }
}

impl ProcessObserver {
    /// The normalized executable names observed.
    pub closed spec fn names(self) -> Seq<Seq<char>> {
        self.executable_names@.map_values(|s: String| s@)
    }

    /// Observe the default local process name of the agent.
    pub fn codex() -> (observer: Self)
        ensures
            observer.names() == seq!["codex.exe"@],
    {
        let mut names: Vec<String> = Vec::new();
        names.push("codex.exe".to_owned());
        let observer = ProcessObserver { executable_names: names };
        proof {
            assert(observer.names() =~= seq!["codex.exe"@]);
        }
        observer
    }

    /// Observe a caller-provided set of executable names: each is trimmed and
    /// lowered, and names left empty are dropped.
    pub fn for_executables(names: &[&str]) -> (observer: Self)
        ensures
            observer.names() == keep_where(
                names@.map_values(|n: &str| normalized_name(n@)),
                nonempty_name(),
            ),
    {
        let ghost all = names@.map_values(|n: &str| normalized_name(n@));
        let mut kept: Vec<String> = Vec::new();
        let mut i: usize = 0;
        while i < names.len()
            invariant
                i <= names@.len(),
                all == names@.map_values(|n: &str| normalized_name(n@)),
                kept@.map_values(|s: String| s@) == keep_where(all.take(i as int), nonempty_name()),
            decreases names.len() - i,
        {
            proof {
                assert(all.take(i + 1).drop_last() =~= all.take(i as int));
                assert(all.take(i + 1).last() == normalized_name(names@[i as int]@));
            }
            let trimmed = trim_str(names[i]);
            let name = to_ascii_lowercase(trimmed.as_str());
            if name.as_str().unicode_len() > 0 {
                let ghost before = kept@;
                kept.push(name);
                proof {
                    assert(kept@.map_values(|s: String| s@) =~= before.map_values(|s: String| s@).push(
                        name@,
                    ));
                }
            }
            i = i + 1;
        }
        proof {
            assert(all.take(all.len() as int) =~= all);
        }
        ProcessObserver { executable_names: kept }
    }

    pub fn executable_names(&self) -> (names: &[String])
        ensures
            names@.map_values(|s: String| s@) == self.names(),
    {
        self.executable_names.as_slice()
    }

    fn watches(&self, executable: &str) -> (watched: bool)
        ensures
            watched == self.names().contains(lowered(executable@)),
    {
        let lower = to_ascii_lowercase(executable);
        let mut i: usize = 0;
        while i < self.executable_names.len()
            invariant
                i <= self.executable_names@.len(),
                lower@ == lowered(executable@),
                forall|j: int| 0 <= j < i ==> self.names()[j] != lower@,
            decreases self.executable_names.len() - i,
        {
            if str_equal(self.executable_names[i].as_str(), lower.as_str()) {
                proof {
                    assert(self.names()[i as int] == lower@);
                    assert(self.names().contains(lower@));
                }
                return true;
            }
            i = i + 1;
        }
        false
    }

    /// Classifies one best-effort enumeration: the matching processes are
    /// kept in enumeration order, and evidence is degraded when enumeration
    /// stopped before the normal end of the snapshot.
    ///
    /// Observation only reads process metadata. It does not open, signal,
    /// terminate, inject into, or communicate with any process.
    pub fn observe(&self, snapshot: ProcessSnapshot) -> (health: ProcessHealth)
        ensures
            match snapshot {
                ProcessSnapshot::Unavailable => health.evidence == Evidence::Unavailable
                    && health.processes@.len() == 0,
                ProcessSnapshot::Unreadable => health.evidence == Evidence::Degraded
                    && health.processes@.len() == 0,
                ProcessSnapshot::Listed { entries, complete } => health.evidence == (if complete {
                    Evidence::Available
                } else {
                    Evidence::Degraded
                }) && health.processes@ == keep_where(entries@, watched_by(self.names())),
            },
            health.presence == presence_of(health.evidence, health.processes@.len()),
            health.activity == Activity::Unknown,
    {
        match snapshot {
            ProcessSnapshot::Unavailable => ProcessHealth::from_snapshot(
                Evidence::Unavailable,
                Vec::new(),
            ),
            ProcessSnapshot::Unreadable => ProcessHealth::from_snapshot(
                Evidence::Degraded,
                Vec::new(),
            ),
            ProcessSnapshot::Listed { entries, complete } => {
                let ghost all = entries@;
                let mut processes: Vec<ProcessInfo> = Vec::new();
                let mut rest = entries;
                let ghost mut consumed: int = 0;
                proof {
                    assert(all.skip(0) =~= all);
                    assert(all.take(0) =~= Seq::<ProcessInfo>::empty());
                }
                while rest.len() > 0
                    invariant
                        0 <= consumed <= all.len(),
                        rest@ == all.skip(consumed),
                        processes@ == keep_where(all.take(consumed), watched_by(self.names())),
                    decreases rest.len(),
                {
                    let process = rest.remove(0);
                    proof {
                        assert(process == all[consumed]);
                        assert(rest@ =~= all.skip(consumed + 1));
                        assert(all.take(consumed + 1).drop_last() =~= all.take(consumed));
                        assert(all.take(consumed + 1).last() == process);
                    }
                    if self.watches(process.executable.as_str()) {
                        processes.push(process);
                    }
                    proof {
                        consumed = consumed + 1;
                    }
                }
                proof {
                    assert(all.take(consumed) =~= all);
                }
                let evidence = if complete {
                    Evidence::Available
                } else {
                    Evidence::Degraded
                };
                ProcessHealth::from_snapshot(evidence, processes)
            },
        }
    }
}

} // verus!
