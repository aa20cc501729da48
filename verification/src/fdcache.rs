//! Whether a file that is held open may still be served.
//!
//! A daemon holds files open. Bytes are read through the held file only when its own
//! status is what it was when it was opened and the path still names that very file,
//! unchanged; else the file is opened anew.

use vstd::prelude::*;

verus! {

/// When a file was last changed.
#[derive(Clone, Copy, Debug, PartialEq, Eq, Structural)]
pub struct Mtime {
    pub secs: i64,
    pub nanos: u32,
}

/// What was noted when a file was opened.
#[derive(Clone, Copy, Debug, PartialEq, Eq, Structural)]
pub struct Stamp {
    pub len: u64,
    pub modified: Mtime,
    pub dev: u64,
    pub ino: u64,
}

/// The status of a file; the time is missing where it cannot be told.
#[derive(Clone, Copy, Debug, PartialEq, Eq, Structural)]
pub struct FileStat {
    pub len: u64,
    pub modified: Option<Mtime>,
    pub dev: u64,
    pub ino: u64,
}

/// How to read a file.
#[derive(Clone, Copy, Debug, PartialEq, Eq, Structural)]
pub enum ReadPlan {
    /// Through the held file.
    Held,
    /// Open it anew and hold that.
    Reopen,
    /// Open and read it once, holding nothing.
    Plain,
}

/// The held file is as it was when opened.
pub open spec fn held_unchanged(held: Stamp, fd: FileStat) -> bool {
    fd.len == held.len && fd.modified == Some(held.modified)
}

/// How to read a file, given what was noted on opening, the status of the held file
/// and the status of what the path names now.
pub open spec fn read_plan(held: Option<Stamp>, fd: Option<FileStat>, live: Option<FileStat>) -> ReadPlan {
    match (held, fd) {
        (Some(h), Some(f)) => if !held_unchanged(h, f) {
            ReadPlan::Reopen
        } else {
            match live {
                None => ReadPlan::Plain,
                Some(l) => if l.dev != f.dev || l.ino != f.ino {
                    ReadPlan::Reopen
                } else {
                    match l.modified {
                        None => ReadPlan::Plain,
                        Some(t) => if l.len == h.len && t == h.modified {
                            ReadPlan::Held
                        } else {
                            ReadPlan::Reopen
                        },
                    }
                },
            }
        },
        _ => ReadPlan::Reopen,
    }
}

/// Whether the status of what the path names is needed to decide.
pub fn needs_live(held: Option<Stamp>, fd: Option<FileStat>) -> (b: bool)
    ensures
        !b ==> forall|live: Option<FileStat>| read_plan(held, fd, live) == ReadPlan::Reopen,
        b ==> read_plan(held, fd, None) == ReadPlan::Plain,
{
    match (held, fd) {
        (Some(h), Some(f)) => match f.modified {
            Some(t) => f.len == h.len && t == h.modified,
            None => false,
        },
        _ => false,
    }
}

/// Decide how to read a file.
pub fn plan_read(held: Option<Stamp>, fd: Option<FileStat>, live: Option<FileStat>) -> (p: ReadPlan)
    ensures
        p == read_plan(held, fd, live),
{
    if !needs_live(held, fd) {
        return ReadPlan::Reopen;
    }
    match (held, fd, live) {
        (Some(h), Some(f), Some(l)) => {
            if l.dev != f.dev || l.ino != f.ino {
                return ReadPlan::Reopen;
            }
            match l.modified {
                None => ReadPlan::Plain,
                Some(t) => {
                    if l.len == h.len && t == h.modified {
                        ReadPlan::Held
                    } else {
                        ReadPlan::Reopen
                    }
                },
            }
        },
        _ => ReadPlan::Plain,
    }
}

/// A change is never served stale: the held file is read only when the path names
/// that very file, and length and time are those noted when it was opened.
pub proof fn law_no_stale_read(held: Option<Stamp>, fd: Option<FileStat>, live: Option<FileStat>)
    ensures
        read_plan(held, fd, live) == ReadPlan::Held ==> held is Some && fd is Some && live is Some && live->Some_0.dev
            == fd->Some_0.dev && live->Some_0.ino == fd->Some_0.ino && live->Some_0.len == held->Some_0.len
            && live->Some_0.modified == Some(held->Some_0.modified) && held_unchanged(held->Some_0, fd->Some_0),
{
}

/// What is noted of a file with this status; nothing where the time cannot be told.
pub open spec fn noted(stat: FileStat) -> Option<Stamp> {
    match stat.modified {
        Some(modified) => Some(Stamp { len: stat.len, modified, dev: stat.dev, ino: stat.ino }),
        None => None,
    }
}

/// Note a file on opening it.
pub fn stamp_of(stat: FileStat) -> (s: Option<Stamp>)
    ensures
        s == noted(stat),
{
    match stat.modified {
        Some(modified) => Some(Stamp { len: stat.len, modified, dev: stat.dev, ino: stat.ino }),
        None => None,
    }
}

/// Whether a newly opened file replaces the held one: not when another worker has
/// opened the same state of the same file meanwhile.
pub fn replaces_held(held: Option<Stamp>, fresh: Stamp) -> (b: bool)
    ensures
        b == (held != Some(fresh)),
{
    match held {
        Some(h) => !(h.len == fresh.len && h.modified == fresh.modified && h.dev == fresh.dev && h.ino == fresh.ino),
        None => true,
    }
}

/// What is held once a file was opened anew, where `before` was held by then.
pub open spec fn held_after(before: Option<Stamp>, fresh: Stamp) -> Stamp {
    if before != Some(fresh) {
        fresh
    } else {
        before->Some_0
    }
}

/// A file opened anew is the one that is read, however much the one that was held
/// resembles it: what is held then has its device, inode, length and time.
pub proof fn law_reopened_file_is_read(before: Option<Stamp>, fresh: Stamp)
    ensures
        held_after(before, fresh) == fresh,
{
}

/// The file that a read goes to: device, inode and length. `stat` is the status of what
/// the path names, `before` what is held when a file opened anew is to be held.
pub open spec fn read_from(held: Option<Stamp>, fd: Option<FileStat>, stat: FileStat, before: Option<Stamp>) -> (
    u64,
    u64,
    u64,
) {
    match (read_plan(held, fd, Some(stat)), fd, noted(stat)) {
        (ReadPlan::Held, Some(f), _) => (f.dev, f.ino, f.len),
        (ReadPlan::Reopen, _, Some(fresh)) => {
            let kept = held_after(before, fresh);
            (kept.dev, kept.ino, kept.len)
        },
        _ => (stat.dev, stat.ino, stat.len),
    }
}

/// A read through held files goes to the very file that the path names, as a read
/// without them does, whatever was held: a file that was edited or renamed into place
/// is never answered from the one before it.
pub proof fn law_held_files_change_no_read(
    held: Option<Stamp>,
    fd: Option<FileStat>,
    stat: FileStat,
    before: Option<Stamp>,
)
    ensures
        read_from(held, fd, stat, before) == (stat.dev, stat.ino, stat.len),
{
}

/// Whether a failed read is tried once more: only when the held file was closed
/// meanwhile, and only once.
pub fn retries_read(was_closed: bool, retried: bool) -> (b: bool)
    ensures
        b == (was_closed && !retried),
{
    was_closed && !retried
}

/// How many files a daemon wants open: those of its index and some to spare.
pub open spec fn wanted_limit(want_files: int) -> int {
    if want_files + 128 > u64::MAX {
        u64::MAX as int
    } else {
        want_files + 128
    }
}

/// The soft and hard limits on open files to ask for, or nothing when the soft limit
/// already suffices. A hard limit is never lowered.
pub fn plan_limit(want_files: usize, soft: u64, hard: u64) -> (plan: Option<(u64, u64)>)
    ensures
        plan is Some <==> soft < wanted_limit(want_files as int),
        plan matches Some((cur, max)) ==> cur == wanted_limit(want_files as int) && max == (if hard > cur {
            hard
        } else {
            cur
        }),
{
    let want: u64 = (want_files as u64).saturating_add(128);
    if soft >= want {
        return None;
    }
    Some((
        want,
        if hard > want {
            hard
        } else {
            want
        },
    ))
}

/// A held file is read if nothing changed, so that holding it is worth while: the same file,
/// length and time, at the path and in hand.
pub proof fn law_unchanged_file_is_read_from_hand(h: Stamp, f: FileStat, l: FileStat)
    ensures
        read_plan(Some(h), Some(f), Some(l)) == ReadPlan::Held <==> f.len == h.len && f.modified == Some(h.modified)
            && l.dev == f.dev && l.ino == f.ino && l.len == h.len && l.modified == Some(h.modified),
        read_plan(None, Some(f), Some(l)) == ReadPlan::Reopen,
        read_plan(Some(h), None, Some(l)) == ReadPlan::Reopen,
{
}

/// A daemon wants a file open for each of its index and 128 more, as far as numbers go.
pub proof fn law_some_files_to_spare_are_wanted(n: u64)
    ensures
        n <= u64::MAX - 128 ==> wanted_limit(n as int) == n + 128,
        n > u64::MAX - 128 ==> wanted_limit(n as int) == u64::MAX,
{
}

} // verus!
