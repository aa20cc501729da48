//! The note that a daemon leaves beside its index, and whether to believe it.

use crate::text::{char_views, chars_of, decimal, parse_number, push_number, split_words, words, written_number};
use vstd::prelude::*;

verus! {

/// What a daemon notes about itself.
#[derive(Clone, Copy, Debug, PartialEq, Eq, Structural)]
pub struct ServerInfo {
    pub pid: u32,
    pub port: u16,
    /// When the process was started; 0 where unknown.
    pub starttime: u64,
}

/// What a note is worth.
#[derive(Clone, Copy, Debug, PartialEq, Eq, Structural)]
pub enum SidecarVerdict {
    /// A daemon may listen on this port.
    Live(u16),
    /// The process is gone.
    NotRunning,
    /// The process id belongs to another process by now.
    Reused,
}

/// What a note is worth: it names a port, its process runs, and, where the start
/// time was noted, it is still the same process.
pub open spec fn sidecar_verdict(info: ServerInfo, alive: bool, current: Option<u64>) -> SidecarVerdict {
    if info.port == 0 || !alive {
        SidecarVerdict::NotRunning
    } else if info.starttime != 0 && current != Some(info.starttime) {
        SidecarVerdict::Reused
    } else {
        SidecarVerdict::Live(info.port)
    }
}

/// Whether a process runs, from what came of signalling it: one that may not be
/// signalled does, and no process has the id 0.
pub fn process_runs(pid: u32, signalled: bool, forbidden: bool) -> (b: bool)
    ensures
        b == (pid != 0 && (signalled || forbidden)),
{
    pid != 0 && (signalled || forbidden)
}

/// Judge a note. `alive` tells whether the process runs, `current` when it was
/// started.
pub fn judge_sidecar(info: ServerInfo, alive: bool, current: Option<u64>) -> (v: SidecarVerdict)
    ensures
        v == sidecar_verdict(info, alive, current),
{
    if info.port == 0 || !alive {
        return SidecarVerdict::NotRunning;
    }
    if info.starttime != 0 {
        let same: bool = match current {
            Some(t) => t == info.starttime,
            None => false,
        };
        if !same {
            return SidecarVerdict::Reused;
        }
    }
    SidecarVerdict::Live(info.port)
}

/// A dead daemon's note never diverts a query, and neither does one whose process id
/// was taken over.
pub proof fn law_stale_note_is_not_followed(info: ServerInfo, alive: bool, current: Option<u64>, port: u16)
    ensures
        sidecar_verdict(info, alive, current) == SidecarVerdict::Live(port) ==> alive && port == info.port && port != 0
            && (info.starttime == 0 || current == Some(info.starttime)),
{
}

/// Where the note for an index lies.
pub fn serve_info_path(idx_path: &str) -> (path: String)
    ensures
        path@ == idx_path@ + ".serve.json"@,
{
    let mut path: String = idx_path.to_owned();
    path.append(".serve.json");
    path
}

/// The message about a note that is not followed.
pub open spec fn stale_message_of(path: Seq<char>, pid: u32, why: Seq<char>) -> Seq<char> {
    "nkg: stale serve file "@ + path + " (pid "@ + decimal(pid as nat) + " "@ + why
        + "); falling back to cold index load"@
}

/// The message about a note that is not followed, or nothing when it is.
pub fn stale_message(path: &str, pid: u32, v: SidecarVerdict) -> (msg: Option<String>)
    ensures
        match v {
            SidecarVerdict::Live(_) => msg is None,
            SidecarVerdict::NotRunning => msg matches Some(s) && s@ == stale_message_of(path@, pid, "not running"@),
            SidecarVerdict::Reused => msg matches Some(s) && s@ == stale_message_of(path@, pid, "reused"@),
        },
{
    let why: &str = match v {
        SidecarVerdict::Live(_) => return None,
        SidecarVerdict::NotRunning => "not running",
        SidecarVerdict::Reused => "reused",
    };
    let mut s: String = "nkg: stale serve file ".to_owned();
    s.append(path);
    s.append(" (pid ");
    push_number(&mut s, pid as u64);
    s.append(" ");
    s.append(why);
    s.append("); falling back to cold index load");
    Some(s)
}

/// What to do about the daemon that may be registered for an index.
pub enum ProbePlan {
    /// None is registered: search locally, silently.
    Absent,
    /// The note is stale: say so, and search locally.
    Stale(String),
    /// Ask on this port.
    Ask(u16),
}

/// Decide what to do about a note at `path`: `note` is what it says, nothing where it is
/// missing or cannot be read, and `alive` and `current` tell of the process it names.
pub fn plan_probe(path: &str, note: Option<ServerInfo>, alive: bool, current: Option<u64>) -> (plan: ProbePlan)
    ensures
        plan is Absent <==> note is None,
        plan matches ProbePlan::Ask(port) ==> note matches Some(info) && sidecar_verdict(info, alive, current)
            == SidecarVerdict::Live(port),
        plan matches ProbePlan::Stale(s) ==> note matches Some(info) && (match sidecar_verdict(info, alive, current) {
            SidecarVerdict::Live(_) => false,
            SidecarVerdict::NotRunning => s@ == stale_message_of(path@, info.pid, "not running"@),
            SidecarVerdict::Reused => s@ == stale_message_of(path@, info.pid, "reused"@),
        }),
{
    match note {
        None => ProbePlan::Absent,
        Some(info) => {
            let v: SidecarVerdict = judge_sidecar(info, alive, current);
            match v {
                SidecarVerdict::Live(port) => ProbePlan::Ask(port),
                _ => match stale_message(path, info.pid, v) {
                    Some(s) => ProbePlan::Stale(s),
                    None => ProbePlan::Absent,
                },
            }
        },
    }
}

/// Position of the last `)`.
pub open spec fn last_paren(s: Seq<char>) -> Option<int>
    decreases s.len(),
{
    if s.len() == 0 {
        None
    } else if s.last() == ')' {
        Some(s.len() - 1)
    } else {
        last_paren(s.drop_last())
    }
}

/// The start time in a process status line: the twentieth word after the command
/// name, which stands in parentheses and may hold any character.
pub open spec fn starttime_in(stat: Seq<char>) -> Option<nat> {
    match last_paren(stat) {
        None => None,
        Some(i) => {
            let fields = words(stat.skip(i + 1));
            if fields.len() > 19 {
                written_number(fields[19], u64::MAX as nat)
            } else {
                None
            }
        },
    }
}

/// Read the start time from a process status line.
pub fn parse_starttime(stat: &str) -> (res: Option<u64>)
    ensures
        match res {
            Some(n) => starttime_in(stat@) == Some(n as nat),
            None => starttime_in(stat@) is None,
        },
{
    let chars: Vec<char> = chars_of(stat);
    let size: usize = chars.len();
    let mut n: usize = size;
    assert(chars@.take(n as int) =~= chars@);
    while n > 0 && chars[n - 1] != ')'
        invariant
            n <= chars@.len(),
            chars@ == stat@,
            last_paren(chars@.take(n as int)) == last_paren(stat@),
        decreases n,
    {
        assert(chars@.take(n as int).drop_last() =~= chars@.take(n - 1));
        n = n - 1;
    }
    if n == 0 {
        return None;
    }
    let rest: &[char] = &chars[n..size];
    assert(rest@ =~= stat@.skip(n as int));
    let fields: Vec<Vec<char>> = split_words(rest);
    assert(char_views(fields@).len() == fields@.len());
    if fields.len() <= 19 {
        return None;
    }
    assert(words(rest@)[19] == fields@[19]@);
    parse_number(&fields[19], u64::MAX)
}

/// A note is followed exactly if its process runs, was started when the note says, and the
/// note names a port.
pub proof fn law_live_note_is_followed(info: ServerInfo, alive: bool, current: Option<u64>)
    ensures
        sidecar_verdict(info, alive, current) is Live <==> info.port != 0 && alive && (info.starttime == 0 || current
            == Some(info.starttime)),
        sidecar_verdict(info, alive, current) is Live ==> sidecar_verdict(info, alive, current) == SidecarVerdict::Live(
            info.port,
        ),
        sidecar_verdict(info, alive, current) is NotRunning <==> info.port == 0 || !alive,
{
}

/// The start time of a process is the twentieth word behind the last `)` of its status, so a
/// command name may hold anything.
pub proof fn law_start_time_stands_behind_the_name(front: Seq<char>, rest: Seq<char>)
    requires
        forall|k: int| 0 <= k < rest.len() ==> #[trigger] rest[k] != ')',
    ensures
        starttime_in(front.push(')') + rest) == (if words(rest).len() >= 20 {
            written_number(words(rest)[19], u64::MAX as nat)
        } else {
            None
        }),
        starttime_in(rest) is None,
{
    let all = front.push(')') + rest;
    lemma_last_paren(all, front.len() as int, rest.len());
    assert(all.skip(front.len() as int + 1) =~= rest);
    lemma_no_paren(rest);
}

proof fn lemma_last_paren(s: Seq<char>, i: int, n: nat)
    requires
        0 <= i < s.len(),
        s[i] == ')',
        n == s.len() - 1 - i,
        forall|k: int| i < k < s.len() ==> #[trigger] s[k] != ')',
    ensures
        last_paren(s) == Some(i),
    decreases n,
{
    if n > 0 {
        assert(s.last() == s[s.len() - 1]);
        lemma_last_paren(s.drop_last(), i, (n - 1) as nat);
    }
}

proof fn lemma_no_paren(s: Seq<char>)
    requires
        forall|k: int| 0 <= k < s.len() ==> #[trigger] s[k] != ')',
    ensures
        last_paren(s) is None,
    decreases s.len(),
{
    if s.len() > 0 {
        assert(s.last() == s[s.len() - 1]);
        lemma_no_paren(s.drop_last());
    }
}

} // verus!
