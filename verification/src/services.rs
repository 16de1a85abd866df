//! Services: their runtime state and the decisions taken when one is started, stopped or
//! exits. The process work itself (fork, exec, signals) is done by the caller.
use vstd::prelude::*;

use crate::sockets::{Socket, repeated_name_list};
use crate::text::{join_with, split_chars, split_on, to_chars};
use crate::units::{PidEntry, ServiceConfig, Unit, UnitSpecialized, table_wf};
use crate::shutdown::{id_known, index_of_id};

verus! {

/// Where a service is in its life.
#[derive(PartialEq, Eq, Structural, Clone, Copy, Debug)]
pub enum ServiceStatus {
    NeverRan,
    Starting,
    Running,
    Stopped,
}

/// Bookkeeping about the runs of a service.
pub struct ServiceRuntimeInfo {
    /// How often the service was restarted.
    pub restarted: u64,
    /// When the current run started (milliseconds on a monotonic clock), if it runs.
    pub up_since: Option<u64>,
}

/// A service unit and its runtime state.
pub struct Service {
    pub pid: Option<i32>,
    pub process_group: Option<i32>,
    pub service_config: Option<ServiceConfig>,
    pub status: ServiceStatus,
    /// The names of the socket units whose file descriptors this service gets.
    pub socket_names: Vec<String>,
    /// The `STATUS=` messages the service sent, oldest first.
    pub status_msgs: Vec<String>,
    pub runtime_info: ServiceRuntimeInfo,
    /// Whether the service has sent `READY=1`.
    pub signaled_ready: bool,
    /// Notification text received but not yet ended by a newline.
    pub notifications_buffer: String,
    pub stdout_dup: Option<(i32, i32)>,
    pub stderr_dup: Option<(i32, i32)>,
}

/// What starting a service came to.
#[derive(PartialEq, Eq, Structural, Clone, Copy, Debug)]
pub enum StartResult {
    Started,
    WaitingForSocket,
}

/// The pid table: which process id belongs to which unit. No pid occurs twice.
pub type PidTable = Vec<(i32, PidEntry)>;

/// No pid occurs twice in `t`.
pub open spec fn pids_unique(t: Seq<(i32, PidEntry)>) -> bool {
    forall|a: int, b: int| 0 <= a < t.len() && 0 <= b < t.len() && #[trigger] t[a].0 == #[trigger] t[b].0 ==> a == b
}

/// What `t` holds for `pid`.
pub open spec fn pid_lookup(t: Seq<(i32, PidEntry)>, pid: i32) -> Option<PidEntry> {
    if exists|k: int| 0 <= k < t.len() && #[trigger] t[k].0 == pid {
        Some(t[choose|k: int| 0 <= k < t.len() && #[trigger] t[k].0 == pid].1)
    } else {
        None
    }
}

proof fn lemma_pid_lookup_at(t: Seq<(i32, PidEntry)>, k: int)
    requires
        pids_unique(t),
        0 <= k < t.len(),
    ensures
        pid_lookup(t, t[k].0) == Some(t[k].1),
{
    let c = choose|c: int| 0 <= c < t.len() && #[trigger] t[c].0 == t[k].0;
    assert(c == k);
}

/// The position of `pid` in `t`, if it is there.
fn pid_position(t: &PidTable, pid: i32) -> (res: Option<usize>)
    requires
        pids_unique(t@),
    ensures
        match res {
            Some(k) => k < t@.len() && t@[k as int].0 == pid && pid_lookup(t@, pid) == Some(t@[k as int].1),
            None => pid_lookup(t@, pid) is None,
        },
{
    let mut k: usize = 0;
    while k < t.len()
        invariant
            k <= t@.len(),
            pids_unique(t@),
            forall|m: int| 0 <= m < k ==> t@[m].0 != pid,
        decreases t.len() - k,
    {
        if t[k].0 == pid {
            proof {
                lemma_pid_lookup_at(t@, k as int);
            }
            return Some(k);
        }
        k = k + 1;
    }
    None
}

/// What the pid table holds for `pid`.
pub fn pid_table_get(t: &PidTable, pid: i32) -> (res: Option<PidEntry>)
    requires
        pids_unique(t@),
    ensures
        res == pid_lookup(t@, pid),
{
    match pid_position(t, pid) {
        Some(k) => Some(t[k].1),
        None => None,
    }
}

/// Forgets `pid`.
pub fn pid_table_remove(t: &mut PidTable, pid: i32)
    requires
        pids_unique(old(t)@),
    ensures
        pids_unique(final(t)@),
        pid_lookup(final(t)@, pid) is None,
        forall|p: i32| p != pid ==> #[trigger] pid_lookup(final(t)@, p) == pid_lookup(old(t)@, p),
{
    let ghost before = t@;
    match pid_position(t, pid) {
        Some(k) => {
            t.remove(k);
            proof {
                assert forall|p: i32| p != pid implies #[trigger] pid_lookup(t@, p) == pid_lookup(before, p) by {
                    if exists|m: int| 0 <= m < before.len() && #[trigger] before[m].0 == p {
                        let m = choose|m: int| 0 <= m < before.len() && #[trigger] before[m].0 == p;
                        lemma_pid_lookup_at(before, m);
                        let m2 = if m < k { m } else { m - 1 };
                        assert(t@[m2] == before[m]);
                        lemma_pid_lookup_at(t@, m2);
                    } else {
                        if exists|m: int| 0 <= m < t@.len() && #[trigger] t@[m].0 == p {
                            let m = choose|m: int| 0 <= m < t@.len() && #[trigger] t@[m].0 == p;
                            let m2 = if m < k { m } else { m + 1 };
                            assert(before[m2] == t@[m]);
                        }
                    }
                }
                if exists|m: int| 0 <= m < t@.len() && #[trigger] t@[m].0 == pid {
                    let m = choose|m: int| 0 <= m < t@.len() && #[trigger] t@[m].0 == pid;
                    let m2 = if m < k { m } else { m + 1 };
                    assert(before[m2] == t@[m]);
                }
            }
        },
        None => {},
    }
}

/// Records that `pid` belongs to `entry`, in place of what was recorded for it.
pub fn pid_table_insert(t: &mut PidTable, pid: i32, entry: PidEntry)
    requires
        pids_unique(old(t)@),
    ensures
        pids_unique(final(t)@),
        pid_lookup(final(t)@, pid) == Some(entry),
        forall|p: i32| p != pid ==> #[trigger] pid_lookup(final(t)@, p) == pid_lookup(old(t)@, p),
{
    let ghost before = t@;
    pid_table_remove(t, pid);
    let ghost mid = t@;
    t.push((pid, entry));
    proof {
        assert(pid_lookup(mid, pid) is None);
        assert forall|m: int| 0 <= m < mid.len() implies mid[m].0 != pid by {
            if mid[m].0 == pid {
                assert(exists|c: int| 0 <= c < mid.len() && #[trigger] mid[c].0 == pid);
            }
        }
        assert(pids_unique(t@)) by {
            assert forall|a: int, b: int| 0 <= a < t@.len() && 0 <= b < t@.len() && #[trigger] t@[a].0 == #[trigger] t@[b].0 implies a == b by {
                if a < mid.len() && b < mid.len() {
                    assert(mid[a].0 == mid[b].0);
                } else if a < mid.len() {
                    assert(mid[a].0 != pid);
                } else if b < mid.len() {
                    assert(mid[b].0 != pid);
                }
            }
        }
        lemma_pid_lookup_at(t@, mid.len() as int);
        assert forall|p: i32| p != pid implies #[trigger] pid_lookup(t@, p) == pid_lookup(before, p) by {
            assert(pid_lookup(mid, p) == pid_lookup(before, p));
            if exists|m: int| 0 <= m < mid.len() && #[trigger] mid[m].0 == p {
                let m = choose|m: int| 0 <= m < mid.len() && #[trigger] mid[m].0 == p;
                lemma_pid_lookup_at(mid, m);
                assert(t@[m] == mid[m]);
                lemma_pid_lookup_at(t@, m);
            } else {
                if exists|m: int| 0 <= m < t@.len() && #[trigger] t@[m].0 == p {
                    let m = choose|m: int| 0 <= m < t@.len() && #[trigger] t@[m].0 == p;
                    if m < mid.len() {
                        assert(mid[m].0 == p);
                    }
                }
            }
        }
    }
}

/// The words of a command line: the pieces between single spaces.
pub fn split_command(cmd: &String) -> (res: Vec<String>)
    ensures
        res@.len() == split_on(cmd@, ' ').len(),
        forall|k: int| 0 <= k < res@.len() ==> #[trigger] res@[k]@ == split_on(cmd@, ' ')[k],
{
    let chars = to_chars(cmd.as_str());
    split_chars(&chars, ' ')
}

/// How a child process ended: killed by a signal (its number) or exited with a code.
#[derive(PartialEq, Eq, Structural, Clone, Copy, Debug)]
pub enum ChildTermination {
    Signal(i32),
    Exit(i32),
}

impl ChildTermination {
    /// Only an exit with code 0 is a success.
    pub fn success(&self) -> (res: bool)
        ensures
            res == (*self == ChildTermination::Exit(0)),
    {
        match self {
            ChildTermination::Signal(_) => false,
            ChildTermination::Exit(code) => *code == 0,
        }
    }
}

/// The words of the stop command of unit `u`, if it is a service with a non-empty `ExecStop=`.
pub open spec fn stop_command(u: Unit) -> Option<Seq<Seq<char>>> {
    match u.specialized {
        UnitSpecialized::Service(s) => match s.service_config {
            Some(c) => if c.stop@.len() > 0 {
                Some(split_on(c.stop@, ' '))
            } else {
                None
            },
            None => None,
        },
        _ => None,
    }
}

/// `u` once its service is killed: stopped, without main process or process group.
pub open spec fn killed(u: Unit) -> Unit {
    match u.specialized {
        UnitSpecialized::Service(s) => Unit {
            specialized: UnitSpecialized::Service(
                Service { status: ServiceStatus::Stopped, pid: None, process_group: None, ..s },
            ),
            ..u
        },
        _ => u,
    }
}

/// The main process of unit `u`, if it is a running service.
pub open spec fn main_pid(u: Unit) -> Option<i32> {
    match u.specialized {
        UnitSpecialized::Service(s) => s.pid,
        _ => None,
    }
}

pub open spec fn words_view(v: Seq<String>) -> Seq<Seq<char>> {
    v.map_values(|s: String| s@)
}

/// The stop command of `u` (see `stop_command`).
fn stop_words(u: &Unit) -> (res: Option<Vec<String>>)
    ensures
        match res {
            Some(w) => stop_command(*u) == Some(words_view(w@)),
            None => stop_command(*u) is None,
        },
{
    match &u.specialized {
        UnitSpecialized::Service(s) => match &s.service_config {
            Some(c) => {
                let chars = to_chars(c.stop.as_str());
                if chars.len() == 0 {
                    return None;
                }
                let w = split_command(&c.stop);
                proof {
                    assert(words_view(w@) =~= split_on(c.stop@, ' '));
                }
                Some(w)
            },
            None => None,
        },
        _ => None,
    }
}

/// The process group of unit `u`, if it is a service that has one.
pub open spec fn process_group_of(u: Unit) -> Option<i32> {
    match u.specialized {
        UnitSpecialized::Service(s) => s.process_group,
        _ => None,
    }
}

/// The process group that killing the unit with id `id` sends `SIGKILL` to: that of the
/// service, where it has one (see `process_group_of`). `kill_service` forgets it.
pub fn process_group_to_kill(id: u64, units: &Vec<Unit>) -> (res: Option<i32>)
    requires
        id_known(units@, id),
    ensures
        exists|k: int| 0 <= k < units@.len() && #[trigger] units@[k].id == id && res == process_group_of(units@[k]),
{
    let k = index_of_id(units, id);
    match &units[k].specialized {
        UnitSpecialized::Service(s) => s.process_group,
        _ => None,
    }
}

/// Kills the service with id `id`: it counts as stopped, its main process is forgotten
/// (also in the pid table), and the words of its stop command, if it has one, are
/// returned for the caller to run. Units that are no services are left as they are.
pub fn kill_service(id: u64, units: &mut Vec<Unit>, pid_table: &mut PidTable) -> (res: Option<Vec<String>>)
    requires
        table_wf(old(units)@),
        id_known(old(units)@, id),
        pids_unique(old(pid_table)@),
    ensures
        final(units)@.len() == old(units)@.len(),
        forall|k: int| 0 <= k < old(units)@.len() ==> #[trigger] final(units)@[k] == if old(units)@[k].id == id {
            killed(old(units)@[k])
        } else {
            old(units)@[k]
        },
        final(units)@ == kill_one(old(units)@, id),
        table_wf(final(units)@),
        pids_unique(final(pid_table)@),
        forall|p: i32| #[trigger] pid_lookup(final(pid_table)@, p) == if exists|k: int| 0 <= k < old(units)@.len() && old(units)@[k].id == id && #[trigger] main_pid(old(units)@[k]) == Some(p) {
            None
        } else {
            pid_lookup(old(pid_table)@, p)
        },
        match res {
            Some(w) => exists|k: int| 0 <= k < old(units)@.len() && #[trigger] old(units)@[k].id == id && stop_command(old(units)@[k]) == Some(words_view(w@)),
            None => exists|k: int| 0 <= k < old(units)@.len() && #[trigger] old(units)@[k].id == id && stop_command(old(units)@[k]) is None,
        },
{
    let k = index_of_id(units, id);
    let ghost before = units@;
    let ghost pt_before = pid_table@;
    let cmd = stop_words(&units[k]);
    let mut u = units.remove(k);
    match &mut u.specialized {
        UnitSpecialized::Service(srvc) => {
            match srvc.pid {
                Some(p) => pid_table_remove(pid_table, p),
                None => {},
            }
            srvc.status = ServiceStatus::Stopped;
            srvc.pid = None;
            srvc.process_group = None;
        },
        _ => {},
    }
    units.insert(k, u);
    proof {
        assert(units@[k as int] == killed(before[k as int]));
        assert forall|m: int| 0 <= m < before.len() implies #[trigger] units@[m] == if before[m].id == id {
            killed(before[m])
        } else {
            before[m]
        } by {
            if m != k {
                assert(units@[m] == before[m]);
                if before[m].id == id {
                    assert(m == k as int);
                }
            }
        }
        assert forall|p: i32| #[trigger] pid_lookup(pid_table@, p) == if exists|m: int| 0 <= m < before.len() && before[m].id == id && #[trigger] main_pid(before[m]) == Some(p) {
            None
        } else {
            pid_lookup(pt_before, p)
        } by {
            if exists|m: int| 0 <= m < before.len() && before[m].id == id && #[trigger] main_pid(before[m]) == Some(p) {
                let m = choose|m: int| 0 <= m < before.len() && before[m].id == id && #[trigger] main_pid(before[m]) == Some(p);
                assert(m == k as int);
            } else {
                assert(main_pid(before[k as int]) != Some(p));
            }
        }
        assert(units@ =~= kill_one(before, id));
    }
    cmd
}

/// The unit of `units` with id `id`.
pub open spec fn unit_with_id(units: Seq<Unit>, id: u64) -> Unit {
    units[choose|k: int| 0 <= k < units.len() && #[trigger] units[k].id == id]
}

/// The stop commands of the units with the ids `ids`, in that order, for those that have one.
pub open spec fn stop_commands(units: Seq<Unit>, ids: Seq<u64>) -> Seq<Seq<Seq<char>>>
    decreases ids.len(),
{
    if ids.len() == 0 {
        Seq::empty()
    } else {
        let rest = stop_commands(units, ids.drop_last());
        match stop_command(unit_with_id(units, ids.last())) {
            Some(w) => rest.push(w),
            None => rest,
        }
    }
}

proof fn lemma_unit_with_id(units: Seq<Unit>, k: int)
    requires
        table_wf(units),
        0 <= k < units.len(),
    ensures
        unit_with_id(units, units[k].id) == units[k],
{
    let c = choose|c: int| 0 <= c < units.len() && #[trigger] units[c].id == units[k].id;
    assert(c == k);
}

/// The table `units` once the service with id `id` is killed (what `kill_service` does to it).
pub open spec fn kill_one(units: Seq<Unit>, id: u64) -> Seq<Unit> {
    units.map_values(|u: Unit| if u.id == id { killed(u) } else { u })
}

/// The table `units` once the services with the ids `ids` are killed one by one, in order.
pub open spec fn kill_each(units: Seq<Unit>, ids: Seq<u64>) -> Seq<Unit>
    decreases ids.len(),
{
    if ids.len() == 0 {
        units
    } else {
        kill_one(kill_each(units, ids.drop_last()), ids.last())
    }
}

/// Killing several services at once (what `kill_services` does to the table) is killing
/// them one by one in turn (what `kill_service` does each time), whatever the order and
/// repetitions of the ids; and killing a unit leaves its stop command as it was.
pub proof fn lemma_kill_services_in_turn(units: Seq<Unit>, ids: Seq<u64>)
    ensures
        kill_each(units, ids) == units.map_values(|u: Unit| if ids.contains(u.id) { killed(u) } else { u }),
        forall|k: int| 0 <= k < units.len() ==> stop_command(#[trigger] kill_each(units, ids)[k]) == stop_command(units[k]),
    decreases ids.len(),
{
    let all = units.map_values(|u: Unit| if ids.contains(u.id) { killed(u) } else { u });
    if ids.len() == 0 {
        assert(kill_each(units, ids) =~= all);
    } else {
        let rest = ids.drop_last();
        let x = ids.last();
        lemma_kill_services_in_turn(units, rest);
        let before = kill_each(units, rest);
        assert forall|m: int| 0 <= m < units.len() implies #[trigger] kill_one(before, x)[m] == all[m] by {
            assert(before[m] == if rest.contains(units[m].id) { killed(units[m]) } else { units[m] });
            assert(ids =~= rest.push(x));
            if units[m].id == x {
                assert(ids[ids.len() - 1] == x);
            }
            if rest.contains(units[m].id) {
                let c = choose|c: int| 0 <= c < rest.len() && rest[c] == units[m].id;
                assert(ids[c] == units[m].id);
            }
            if ids.contains(units[m].id) && units[m].id != x {
                let c = choose|c: int| 0 <= c < ids.len() && ids[c] == units[m].id;
                assert(c < rest.len());
                assert(rest[c] == units[m].id);
            }
        }
        assert(kill_one(before, x) =~= all);
    }
}

/// Kills the services with the ids `ids`, in order (see `kill_service`), and returns the
/// words of their stop commands, in the same order, for the caller to run.
pub fn kill_services(ids: &Vec<u64>, units: &mut Vec<Unit>, pid_table: &mut PidTable) -> (res: Vec<Vec<String>>)
    requires
        table_wf(old(units)@),
        forall|i: int| 0 <= i < ids@.len() ==> id_known(old(units)@, #[trigger] ids@[i]),
        pids_unique(old(pid_table)@),
    ensures
        final(units)@.len() == old(units)@.len(),
        forall|k: int| 0 <= k < old(units)@.len() ==> #[trigger] final(units)@[k] == if ids@.contains(old(units)@[k].id) {
            killed(old(units)@[k])
        } else {
            old(units)@[k]
        },
        final(units)@ == kill_each(old(units)@, ids@),
        table_wf(final(units)@),
        pids_unique(final(pid_table)@),
        forall|p: i32| #[trigger] pid_lookup(final(pid_table)@, p) == if exists|k: int| 0 <= k < old(units)@.len() && ids@.contains(old(units)@[k].id) && #[trigger] main_pid(old(units)@[k]) == Some(p) {
            None
        } else {
            pid_lookup(old(pid_table)@, p)
        },
        res@.map_values(|w: Vec<String>| words_view(w@)) == stop_commands(old(units)@, ids@),
{
    let ghost u0 = units@;
    let ghost p0 = pid_table@;
    let mut res: Vec<Vec<String>> = Vec::new();
    let mut i: usize = 0;
    proof {
        assert(ids@.take(0) =~= Seq::<u64>::empty());
        assert(res@.map_values(|w: Vec<String>| words_view(w@)) =~= stop_commands(u0, ids@.take(0)));
    }
    while i < ids.len()
        invariant
            i <= ids@.len(),
            table_wf(u0),
            forall|j: int| 0 <= j < ids@.len() ==> id_known(u0, #[trigger] ids@[j]),
            units@.len() == u0.len(),
            table_wf(units@),
            forall|k: int| 0 <= k < u0.len() ==> #[trigger] units@[k] == if ids@.take(i as int).contains(u0[k].id) {
                killed(u0[k])
            } else {
                u0[k]
            },
            pids_unique(pid_table@),
            forall|p: i32| #[trigger] pid_lookup(pid_table@, p) == if exists|k: int| 0 <= k < u0.len() && ids@.take(i as int).contains(u0[k].id) && #[trigger] main_pid(u0[k]) == Some(p) {
                None
            } else {
                pid_lookup(p0, p)
            },
            res@.map_values(|w: Vec<String>| words_view(w@)) == stop_commands(u0, ids@.take(i as int)),
        decreases ids.len() - i,
    {
        let id = ids[i];
        let ghost uprev = units@;
        let ghost pprev = pid_table@;
        let ghost before_res = res@.map_values(|w: Vec<String>| words_view(w@));
        proof {
            let c = choose|c: int| 0 <= c < u0.len() && #[trigger] u0[c].id == id;
            assert(units@[c].id == id);
        }
        let cmd = kill_service(id, units, pid_table);
        proof {
            let t = ids@.take(i + 1);
            assert(t.drop_last() =~= ids@.take(i as int));
            assert(t.last() == id);
            assert forall|x: u64| t.contains(x) <==> (ids@.take(i as int).contains(x) || x == id) by {
                if t.contains(x) {
                    let j = choose|j: int| 0 <= j < t.len() && t[j] == x;
                    if j < i {
                        assert(ids@.take(i as int)[j] == x);
                    }
                }
                if ids@.take(i as int).contains(x) {
                    let j = choose|j: int| 0 <= j < i && ids@.take(i as int)[j] == x;
                    assert(t[j] == x);
                }
                if x == id {
                    assert(t[i as int] == x);
                }
            }
            let c = choose|c: int| 0 <= c < u0.len() && #[trigger] u0[c].id == id;
            lemma_unit_with_id(u0, c);
            assert(unit_with_id(u0, id) == u0[c]);
            assert(stop_command(uprev[c]) == stop_command(u0[c]));
            assert forall|k: int| 0 <= k < u0.len() implies #[trigger] units@[k] == if t.contains(u0[k].id) {
                killed(u0[k])
            } else {
                u0[k]
            } by {
                if u0[k].id == id {
                    assert(k == c);
                }
            }
            assert forall|p: i32| #[trigger] pid_lookup(pid_table@, p) == if exists|k: int| 0 <= k < u0.len() && t.contains(u0[k].id) && #[trigger] main_pid(u0[k]) == Some(p) {
                None
            } else {
                pid_lookup(p0, p)
            } by {
                let now = exists|k: int| 0 <= k < uprev.len() && uprev[k].id == id && #[trigger] main_pid(uprev[k]) == Some(p);
                let was = exists|k: int| 0 <= k < u0.len() && ids@.take(i as int).contains(u0[k].id) && #[trigger] main_pid(u0[k]) == Some(p);
                let will = exists|k: int| 0 <= k < u0.len() && t.contains(u0[k].id) && #[trigger] main_pid(u0[k]) == Some(p);
                if now {
                    let k = choose|k: int| 0 <= k < uprev.len() && uprev[k].id == id && #[trigger] main_pid(uprev[k]) == Some(p);
                    assert(k == c);
                    if ids@.take(i as int).contains(u0[c].id) {
                        assert(main_pid(uprev[c]) is None);
                    }
                    assert(main_pid(u0[c]) == Some(p));
                    assert(will);
                }
                if will {
                    let k = choose|k: int| 0 <= k < u0.len() && t.contains(u0[k].id) && #[trigger] main_pid(u0[k]) == Some(p);
                    if !ids@.take(i as int).contains(u0[k].id) {
                        assert(u0[k].id == id);
                        assert(k == c);
                        assert(uprev[c] == u0[c]);
                        assert(now);
                    } else {
                        assert(was);
                    }
                }
                if was {
                    assert(will);
                }
            }
        }
        match cmd {
            Some(w) => {
                res.push(w);
                proof {
                    assert(res@.map_values(|w: Vec<String>| words_view(w@)) =~= before_res.push(words_view(w@)));
                }
            },
            None => {},
        }
        i = i + 1;
    }
    proof {
        assert(ids@.take(ids@.len() as int) =~= ids@);
        lemma_kill_services_in_turn(u0, ids@);
        assert(units@ =~= kill_each(u0, ids@));
    }
    res
}

/// What is needed to start a service's main process.
pub struct StartPlan {
    /// The words of its `ExecStart=` line.
    pub argv: Vec<String>,
    /// Whether it is started with the file descriptors of its sockets.
    pub pass_sockets: bool,
}

/// The arguments that the words `words` of an `ExecStart=` line give the program: the words
/// after the first that are not empty.
pub open spec fn program_args(words: Seq<Seq<char>>) -> Seq<Seq<char>> {
    words.drop_first().filter(|w: Seq<char>| w.len() > 0)
}

/// The program and its arguments from the words `argv` of an `ExecStart=` line (see
/// `program_args`).
pub fn program_and_args(argv: &Vec<String>) -> (res: (String, Vec<String>))
    requires
        argv@.len() > 0,
    ensures
        res.0@ == argv@[0]@,
        words_view(res.1@) == program_args(words_view(argv@)),
{
    let ghost ws = words_view(argv@).drop_first();
    let ghost pred = |w: Seq<char>| w.len() > 0;
    let mut args: Vec<String> = Vec::new();
    let mut i: usize = 1;
    proof {
        reveal(Seq::filter);
        assert(ws.take(0) =~= Seq::<Seq<char>>::empty());
        assert(words_view(args@) =~= Seq::<Seq<char>>::empty());
    }
    while i < argv.len()
        invariant
            1 <= i <= argv@.len(),
            ws == words_view(argv@).drop_first(),
            pred == (|w: Seq<char>| w.len() > 0),
            words_view(args@) == ws.take(i - 1).filter(pred),
        decreases argv.len() - i,
    {
        let ghost before = args@;
        proof {
            reveal(Seq::filter);
            assert(ws.take(i as int).drop_last() =~= ws.take(i - 1));
            assert(ws.take(i as int).last() == argv@[i as int]@);
        }
        if argv[i].unicode_len() > 0 {
            args.push(argv[i].clone());
            proof {
                assert(words_view(args@) =~= words_view(before).push(argv@[i as int]@));
            }
        }
        i = i + 1;
    }
    proof {
        assert(ws.take(argv@.len() - 1) =~= ws);
    }
    (argv[0].clone(), args)
}

/// `a` and `b` agree on everything but the status.
pub open spec fn same_but_status(a: Service, b: Service) -> bool {
    a == Service { status: a.status, ..b }
}

/// The decimal notation of the integer `n`, with `-` before a negative one.
pub open spec fn int_text(n: int) -> Seq<char> {
    if n < 0 {
        "-"@ + crate::text::decimal_text((-n) as nat)
    } else {
        crate::text::decimal_text(n as nat)
    }
}

/// The decimal notation of `n` (see `int_text`).
fn i32_text(n: i32) -> (res: String)
    ensures
        res@ == int_text(n as int),
{
    if n < 0 {
        let m = (-(n as i64)) as u64;
        let d = crate::text::u64_to_decimal(m);
        proof {
            reveal_strlit("-");
        }
        crate::text::concat_strs("-", d.as_str())
    } else {
        crate::text::u64_to_decimal(n as u64)
    }
}

/// Why the service `s` named `name` cannot be started: it has a main process (`Service
/// <name> has already a pid Pid(<pid>)`) or, failing that, a process group (`... has
/// already a pgid Pid(<group>)`); none where it has neither.
pub open spec fn already_running_message(name: Seq<char>, s: Service) -> Option<Seq<char>> {
    match s.pid {
        Some(p) => Some("Service "@ + name + " has already a pid Pid("@ + int_text(p as int) + ")"@),
        None => match s.process_group {
            Some(g) => Some("Service "@ + name + " has already a pgid Pid("@ + int_text(g as int) + ")"@),
            None => None,
        },
    }
}

/// Marks the service `name` as starting and says how to start it: with the words of its
/// `ExecStart=` line, and with its sockets' file descriptors where it has socket names. A
/// service without `[Service]` section gets no plan. A service that still has a main
/// process or a process group is refused and left as it is (see
/// `already_running_message`).
pub fn start_service(srvc: &mut Service, name: &String) -> (res: Result<Option<StartPlan>, String>)
    ensures
        match already_running_message(name@, *old(srvc)) {
            Some(m) => res matches Err(e) && e@ == m && *final(srvc) == *old(srvc),
            None => {
                &&& final(srvc).status == ServiceStatus::Starting
                &&& same_but_status(*final(srvc), *old(srvc))
                &&& res matches Ok(r) && match r {
                    Some(plan) => old(srvc).service_config matches Some(c) && words_view(plan.argv@) == split_on(c.exec_cmd@, ' ')
                        && plan.pass_sockets == (old(srvc).socket_names@.len() > 0),
                    None => old(srvc).service_config is None,
                }
            },
        },
{
    proof {
        reveal_strlit("Service ");
        reveal_strlit(" has already a pid Pid(");
        reveal_strlit(" has already a pgid Pid(");
        reveal_strlit(")");
    }
    match srvc.pid {
        Some(p) => {
            let t = i32_text(p);
            let a = crate::text::concat_strs("Service ", name.as_str());
            let b = crate::text::concat_strs(a.as_str(), " has already a pid Pid(");
            let c = crate::text::concat_strs(b.as_str(), t.as_str());
            return Err(crate::text::concat_strs(c.as_str(), ")"));
        },
        None => {},
    }
    match srvc.process_group {
        Some(g) => {
            let t = i32_text(g);
            let a = crate::text::concat_strs("Service ", name.as_str());
            let b = crate::text::concat_strs(a.as_str(), " has already a pgid Pid(");
            let c = crate::text::concat_strs(b.as_str(), t.as_str());
            return Err(crate::text::concat_strs(c.as_str(), ")"));
        },
        None => {},
    }
    srvc.status = ServiceStatus::Starting;
    match &srvc.service_config {
        Some(conf) => {
            let argv = split_command(&conf.exec_cmd);
            proof {
                assert(words_view(argv@) =~= split_on(conf.exec_cmd@, ' '));
            }
            Ok(Some(StartPlan { argv, pass_sockets: srvc.socket_names.len() > 0 }))
        },
        None => Ok(None),
    }
}

/// Records that the service with id `id` now runs as process `pid`, which leads its own
/// process group: the group is kept as `-pid`, the number that signals the whole group.
pub fn after_fork_parent(srvc: &mut Service, id: u64, pid: i32, pid_table: &mut PidTable)
    requires
        pids_unique(old(pid_table)@),
        i32::MIN < pid,
    ensures
        *final(srvc) == (Service {
            pid: Some(pid),
            process_group: Some(-pid as i32),
            status: ServiceStatus::Running,
            ..*old(srvc)
        }),
        pids_unique(final(pid_table)@),
        pid_lookup(final(pid_table)@, pid) == Some(PidEntry::Service(id)),
        forall|p: i32| p != pid ==> #[trigger] pid_lookup(final(pid_table)@, p) == pid_lookup(old(pid_table)@, p),
{
    srvc.pid = Some(pid);
    srvc.process_group = Some(-pid);
    srvc.status = ServiceStatus::Running;
    pid_table_insert(pid_table, pid, PidEntry::Service(id));
}

/// Starts the unit with id `id` if it is a service (see `start_service`, which may refuse
/// it); other units are left as they are.
pub fn start_unit(id: u64, units: &mut Vec<Unit>) -> (res: Result<Option<StartPlan>, String>)
    requires
        table_wf(old(units)@),
        id_known(old(units)@, id),
    ensures
        final(units)@.len() == old(units)@.len(),
        table_wf(final(units)@),
        forall|k: int| 0 <= k < old(units)@.len() && #[trigger] old(units)@[k].id != id ==> final(units)@[k] == old(units)@[k],
        exists|k: int| 0 <= k < old(units)@.len() && #[trigger] old(units)@[k].id == id && match old(units)@[k].specialized {
            UnitSpecialized::Service(s) => match already_running_message(old(units)@[k].conf.spec_name(), s) {
                Some(m) => final(units)@[k] == old(units)@[k] && (res matches Err(e) && e@ == m),
                None => final(units)@[k] == (Unit {
                    specialized: UnitSpecialized::Service(Service { status: ServiceStatus::Starting, ..s }),
                    ..old(units)@[k]
                }) && (res matches Ok(r) && match r {
                    Some(plan) => s.service_config matches Some(c) && words_view(plan.argv@) == split_on(c.exec_cmd@, ' ')
                        && plan.pass_sockets == (s.socket_names@.len() > 0),
                    None => s.service_config is None,
                }),
            },
            _ => final(units)@[k] == old(units)@[k] && (res matches Ok(r) && r is None),
        },
{
    let k = index_of_id(units, id);
    let ghost before = units@;
    proof {
        assert(before[k as int].conf.has_file_name());
    }
    let name = units[k].conf.name();
    let mut u = units.remove(k);
    let plan = match &mut u.specialized {
        UnitSpecialized::Service(srvc) => start_service(srvc, &name),
        _ => Ok(None),
    };
    units.insert(k, u);
    proof {
        assert forall|m: int| 0 <= m < before.len() && #[trigger] before[m].id != id implies units@[m] == before[m] by {
            assert(m != k as int);
        }
        assert(before[k as int].id == id);
    }
    plan
}

/// Restarts the service with id `id`: kills it (see `kill_service`), then starts it again
/// (see `start_service`). Returns the words of its stop command, if any, and how to start it.
pub fn restart_service(id: u64, units: &mut Vec<Unit>, pid_table: &mut PidTable) -> (res: (Option<Vec<String>>, Option<StartPlan>))
    requires
        table_wf(old(units)@),
        id_known(old(units)@, id),
        pids_unique(old(pid_table)@),
    ensures
        final(units)@.len() == old(units)@.len(),
        table_wf(final(units)@),
        pids_unique(final(pid_table)@),
        forall|k: int| 0 <= k < old(units)@.len() && #[trigger] old(units)@[k].id != id ==> final(units)@[k] == old(units)@[k],
        forall|k: int| 0 <= k < old(units)@.len() && #[trigger] old(units)@[k].id == id ==> {
            &&& (match res.0 {
                Some(w) => stop_command(old(units)@[k]) == Some(words_view(w@)),
                None => stop_command(old(units)@[k]) is None,
            })
            &&& match old(units)@[k].specialized {
                UnitSpecialized::Service(s) => {
                    &&& final(units)@[k] == (Unit {
                        specialized: UnitSpecialized::Service(
                            Service { status: ServiceStatus::Starting, pid: None, process_group: None, ..s },
                        ),
                        ..old(units)@[k]
                    })
                    &&& match res.1 {
                        Some(plan) => s.service_config matches Some(c) && words_view(plan.argv@) == split_on(c.exec_cmd@, ' ')
                            && plan.pass_sockets == (s.socket_names@.len() > 0),
                        None => s.service_config is None,
                    }
                    &&& forall|p: i32| #[trigger] pid_lookup(final(pid_table)@, p) == if s.pid == Some(p) {
                        None
                    } else {
                        pid_lookup(old(pid_table)@, p)
                    }
                },
                _ => final(units)@[k] == old(units)@[k] && res.1 is None && forall|p: i32| #[trigger] pid_lookup(final(pid_table)@, p) == pid_lookup(old(pid_table)@, p),
            }
        },
{
    let ghost u0 = units@;
    let ghost p0 = pid_table@;
    let stop = kill_service(id, units, pid_table);
    proof {
        let c = choose|c: int| 0 <= c < u0.len() && #[trigger] u0[c].id == id;
        assert(units@[c].id == id);
    }
    let ghost mid = units@;
    let ghost p1 = pid_table@;
    let started = start_unit(id, units);
    proof {
        let c = choose|c: int| 0 <= c < u0.len() && #[trigger] u0[c].id == id;
        assert(mid[c] == killed(u0[c]));
        assert(mid[c].id == id);
        if let UnitSpecialized::Service(s) = mid[c].specialized {
            assert(already_running_message(mid[c].conf.spec_name(), s) is None);
        }
        let k2 = choose|k2: int| 0 <= k2 < mid.len() && #[trigger] mid[k2].id == id && match mid[k2].specialized {
            UnitSpecialized::Service(s) => match already_running_message(mid[k2].conf.spec_name(), s) {
                Some(m) => units@[k2] == mid[k2] && (started matches Err(e) && e@ == m),
                None => units@[k2] == (Unit {
                    specialized: UnitSpecialized::Service(Service { status: ServiceStatus::Starting, ..s }),
                    ..mid[k2]
                }) && (started matches Ok(r) && match r {
                    Some(pl) => s.service_config matches Some(cf) && words_view(pl.argv@) == split_on(cf.exec_cmd@, ' ')
                        && pl.pass_sockets == (s.socket_names@.len() > 0),
                    None => s.service_config is None,
                }),
            },
            _ => units@[k2] == mid[k2] && (started matches Ok(r) && r is None),
        };
        assert(k2 == c);
    }
    let plan = match started {
        Ok(p) => p,
        Err(_) => None,
    };
    proof {
        let c = choose|c: int| 0 <= c < u0.len() && #[trigger] u0[c].id == id;
        assert forall|k: int| 0 <= k < u0.len() && #[trigger] u0[k].id != id implies units@[k] == u0[k] by {
            assert(mid[k] == u0[k]);
            assert(mid[k].id != id);
        }
        let k3 = choose|k3: int| 0 <= k3 < u0.len() && #[trigger] u0[k3].id == id && match stop {
            Some(w) => stop_command(u0[k3]) == Some(words_view(w@)),
            None => stop_command(u0[k3]) is None,
        };
        assert(k3 == c);
        assert forall|k: int| 0 <= k < u0.len() && #[trigger] u0[k].id == id implies k == c by {}
        match u0[c].specialized {
            UnitSpecialized::Service(s) => {
                let ks = Service { status: ServiceStatus::Stopped, pid: None, process_group: None, ..s };
                assert(mid[c].specialized == UnitSpecialized::Service(ks));
                assert(units@[c] == (Unit {
                    specialized: UnitSpecialized::Service(
                        Service { status: ServiceStatus::Starting, pid: None, process_group: None, ..s },
                    ),
                    ..u0[c]
                }));
                assert forall|p: i32| #[trigger] pid_lookup(pid_table@, p) == if s.pid == Some(p) {
                    None
                } else {
                    pid_lookup(p0, p)
                } by {
                    if s.pid == Some(p) {
                        assert(main_pid(u0[c]) == Some(p));
                    } else {
                        if exists|k: int| 0 <= k < u0.len() && u0[k].id == id && #[trigger] main_pid(u0[k]) == Some(p) {
                            let k = choose|k: int| 0 <= k < u0.len() && u0[k].id == id && #[trigger] main_pid(u0[k]) == Some(p);
                            assert(k == c);
                        }
                    }
                }
            },
            _ => {
                assert forall|p: i32| #[trigger] pid_lookup(pid_table@, p) == pid_lookup(p0, p) by {
                    if exists|k: int| 0 <= k < u0.len() && u0[k].id == id && #[trigger] main_pid(u0[k]) == Some(p) {
                        let k = choose|k: int| 0 <= k < u0.len() && u0[k].id == id && #[trigger] main_pid(u0[k]) == Some(p);
                        assert(k == c);
                    }
                }
            },
        }
    }
    (stop, plan)
}

/// What is to be done after a child process exited.
pub enum ExitOutcome {
    /// The process was no main process of a service: nothing to do.
    Ignored,
    /// The service stopped and has no `[Service]` section: nothing more to do.
    Stopped,
    /// The service is to be kept alive: start it again.
    Restart(u64),
    /// The service stopped for good: the units that require it, directly or through
    /// others, are to be killed.
    KillRequiredBy(Vec<u64>),
}

/// The `[Service]` settings of unit `u`, if it is a service that has them.
pub open spec fn service_config_of(u: Unit) -> Option<ServiceConfig> {
    match u.specialized {
        UnitSpecialized::Service(s) => s.service_config,
        _ => None,
    }
}

/// `u` with its service counted as stopped.
pub open spec fn exited(u: Unit) -> Unit {
    match u.specialized {
        UnitSpecialized::Service(s) => Unit {
            specialized: UnitSpecialized::Service(Service { status: ServiceStatus::Stopped, ..s }),
            ..u
        },
        _ => u,
    }
}

/// Every service id in the pid table is the id of a unit of `units`.
pub open spec fn pid_ids_known(units: Seq<Unit>, t: Seq<(i32, PidEntry)>) -> bool {
    forall|k: int| 0 <= k < t.len() ==> (#[trigger] t[k].1 matches PidEntry::Service(id) ==> id_known(units, id))
}

/// Whether the pid table `t` can be used with the unit table `units`: no pid twice, and
/// every service id in it that of a unit (see `pids_unique` and `pid_ids_known`).
pub fn pid_table_consistent(units: &Vec<Unit>, t: &PidTable) -> (res: bool)
    ensures
        res == (pids_unique(t@) && pid_ids_known(units@, t@)),
{
    let mut a: usize = 0;
    while a < t.len()
        invariant
            a <= t@.len(),
            forall|x: int, y: int| 0 <= x < a && 0 <= y < t@.len() && #[trigger] t@[x].0 == #[trigger] t@[y].0 ==> x == y,
            forall|x: int| 0 <= x < a ==> (#[trigger] t@[x].1 matches PidEntry::Service(id) ==> id_known(units@, id)),
        decreases t.len() - a,
    {
        match t[a].1 {
            PidEntry::Service(id) => {
                if !crate::shutdown::has_unit_id(units, id) {
                    return false;
                }
            },
            PidEntry::Stop(_) => {},
        }
        let mut b: usize = 0;
        while b < t.len()
            invariant
                a < t@.len(),
                b <= t@.len(),
                forall|x: int, y: int| 0 <= x < a && 0 <= y < t@.len() && #[trigger] t@[x].0 == #[trigger] t@[y].0 ==> x == y,
                forall|y: int| 0 <= y < b && t@[a as int].0 == #[trigger] t@[y].0 ==> a == y,
            decreases t.len() - b,
        {
            if b != a && t[a].0 == t[b].0 {
                return false;
            }
            b = b + 1;
        }
        a = a + 1;
    }
    true
}

/// Handles the exit of process `pid`. A pid the table does not know is ignored; that of a
/// stop command is forgotten. That of a service's main process is forgotten and the
/// service counts as stopped; then, if it has `[Service]` settings, it is started again
/// where it is to be kept alive, and otherwise the units that require it, directly or
/// through others, are to be killed (see `dependants_closure`).
pub fn service_exit_handler(pid: i32, units: &mut Vec<Unit>, pid_table: &mut PidTable) -> (res: ExitOutcome)
    requires
        table_wf(old(units)@),
        pids_unique(old(pid_table)@),
        pid_ids_known(old(units)@, old(pid_table)@),
    ensures
        final(units)@.len() == old(units)@.len(),
        table_wf(final(units)@),
        pids_unique(final(pid_table)@),
        forall|p: i32| p != pid ==> #[trigger] pid_lookup(final(pid_table)@, p) == pid_lookup(old(pid_table)@, p),
        match pid_lookup(old(pid_table)@, pid) {
            Some(PidEntry::Service(id)) => exists|k: int| 0 <= k < old(units)@.len() && #[trigger] old(units)@[k].id == id && {
                &&& forall|m: int| 0 <= m < old(units)@.len() ==> #[trigger] final(units)@[m] == if m == k {
                    exited(old(units)@[m])
                } else {
                    old(units)@[m]
                }
                &&& match old(units)@[k].specialized {
                    UnitSpecialized::Service(_) => {
                        &&& pid_lookup(final(pid_table)@, pid) is None
                        &&& match service_config_of(old(units)@[k]) {
                            None => res is Stopped,
                            Some(c) => if c.keep_alive {
                                res == ExitOutcome::Restart(id)
                            } else {
                                res matches ExitOutcome::KillRequiredBy(ids)
                                    && dependants_closure(old(units)@, old(units)@[k].install.required_by@, ids@)
                            },
                        }
                    },
                    _ => res is Ignored && pid_lookup(final(pid_table)@, pid) == pid_lookup(old(pid_table)@, pid),
                }
            },
            Some(PidEntry::Stop(_)) => res is Ignored && final(units)@ == old(units)@ && pid_lookup(final(pid_table)@, pid) is None,
            None => res is Ignored && final(units)@ == old(units)@ && final(pid_table)@ == old(pid_table)@,
        },
{
    let ghost u0 = units@;
    let entry = pid_table_get(pid_table, pid);
    let id = match entry {
        None => {
            return ExitOutcome::Ignored;
        },
        Some(PidEntry::Stop(_)) => {
            pid_table_remove(pid_table, pid);
            return ExitOutcome::Ignored;
        },
        Some(PidEntry::Service(id)) => id,
    };
    proof {
        let c = choose|c: int| 0 <= c < pid_table@.len() && #[trigger] pid_table@[c].0 == pid;
        assert(pid_table@[c].1 == PidEntry::Service(id));
        assert(id_known(u0, id));
    }
    let k = index_of_id(units, id);
    let is_service = match &units[k].specialized {
        UnitSpecialized::Service(_) => true,
        _ => false,
    };
    if !is_service {
        proof {
            assert forall|m: int| 0 <= m < u0.len() implies #[trigger] units@[m] == if m == k {
                exited(u0[m])
            } else {
                u0[m]
            } by {}
        }
        return ExitOutcome::Ignored;
    }
    let to_kill = dependants_to_kill(units, &units[k].install.required_by);
    pid_table_remove(pid_table, pid);
    let mut u = units.remove(k);
    let outcome = match &mut u.specialized {
        UnitSpecialized::Service(srvc) => {
            srvc.status = ServiceStatus::Stopped;
            match &srvc.service_config {
                None => ExitOutcome::Stopped,
                Some(conf) => if conf.keep_alive {
                    ExitOutcome::Restart(id)
                } else {
                    ExitOutcome::KillRequiredBy(to_kill)
                },
            }
        },
        _ => ExitOutcome::Ignored,
    };
    units.insert(k, u);
    proof {
        assert forall|m: int| 0 <= m < u0.len() implies #[trigger] units@[m] == if m == k {
            exited(u0[m])
        } else {
            u0[m]
        } by {}
    }
    outcome
}

/// The ids of the units that require the unit with id `id`.
pub open spec fn required_by_ids(units: Seq<Unit>, id: u64) -> Seq<u64> {
    unit_with_id(units, id).install.required_by@
}

/// `res` lists, without repetition, exactly the units that require one of the units `start`
/// directly or through others: each known id of `start` is in it, so is each known id
/// that requires a unit in it, and each of its ids is one of `start` or requires a unit
/// listed before it.
pub open spec fn dependants_closure(units: Seq<Unit>, start: Seq<u64>, res: Seq<u64>) -> bool {
    &&& res.no_duplicates()
    &&& forall|i: int| 0 <= i < res.len() ==> id_known(units, #[trigger] res[i])
    &&& forall|i: int| 0 <= i < res.len() ==> start.contains(#[trigger] res[i])
        || exists|j: int| 0 <= j < i && required_by_ids(units, res[j]).contains(res[i])
    &&& forall|x: u64| #[trigger] start.contains(x) && id_known(units, x) ==> res.contains(x)
    &&& forall|i: int, x: u64| 0 <= i < res.len() && #[trigger] required_by_ids(units, res[i]).contains(x)
        && id_known(units, x) ==> res.contains(x)
}

/// A sequence of distinct numbers from 0 to `n` has at most `n` elements.
proof fn lemma_distinct_below(s: Seq<int>, n: int)
    requires
        s.no_duplicates(),
        0 <= n,
        forall|i: int| 0 <= i < s.len() ==> 0 <= #[trigger] s[i] < n,
    ensures
        s.len() <= n,
{
    s.unique_seq_to_set();
    vstd::set_lib::lemma_int_range(0, n);
    assert(s.to_set().subset_of(vstd::set_lib::set_int_range(0, n)));
    vstd::set_lib::lemma_len_subset(s.to_set(), vstd::set_lib::set_int_range(0, n));
}

/// Marking position `p` as visited and appending it to `order` keeps `visited` saying which
/// positions `order` holds.
proof fn lemma_visit(vis0: Seq<bool>, ord0: Seq<usize>, p: usize, n: int)
    requires
        vis0.len() == n,
        p < n,
        forall|r: int| 0 <= r < n ==> (#[trigger] vis0[r] <==> exists|a: int| 0 <= a < ord0.len() && ord0[a] == r),
    ensures
        forall|r: int| 0 <= r < n ==> (#[trigger] vis0.update(p as int, true)[r] <==> exists|a: int|
            0 <= a < ord0.push(p).len() && ord0.push(p)[a] == r),
{
    let ord = ord0.push(p);
    assert forall|r: int| 0 <= r < n implies (#[trigger] vis0.update(p as int, true)[r] <==> exists|a: int|
        0 <= a < ord.len() && ord[a] == r) by {
        if r == p as int {
            assert(ord[ord0.len() as int] == p);
        } else {
            if vis0[r] {
                let a = choose|a: int| 0 <= a < ord0.len() && ord0[a] == r;
                assert(ord[a] == r);
            }
            if exists|a: int| 0 <= a < ord.len() && ord[a] == r {
                let a = choose|a: int| 0 <= a < ord.len() && ord[a] == r;
                assert(a < ord0.len());
                assert(ord0[a] == r);
            }
        }
    }
}

/// The units to stop once the units `start` are gone: those that require one of them,
/// directly or through others (see `dependants_closure`), in the order they are found.
pub fn dependants_to_kill(units: &Vec<Unit>, start: &Vec<u64>) -> (res: Vec<u64>)
    requires
        table_wf(units@),
    ensures
        dependants_closure(units@, start@, res@),
{
    let n = units.len();
    let mut visited: Vec<bool> = Vec::new();
    let mut q: usize = 0;
    while q < n
        invariant
            q <= n,
            n == units@.len(),
            visited@.len() == q,
            forall|r: int| 0 <= r < q ==> !#[trigger] visited@[r],
        decreases n - q,
    {
        visited.push(false);
        q = q + 1;
    }
    let mut order: Vec<usize> = Vec::new();
    let mut res: Vec<u64> = Vec::new();
    let mut i: usize = 0;
    while i < start.len()
        invariant
            i <= start@.len(),
            n == units@.len(),
            table_wf(units@),
            visited@.len() == n,
            order@.len() == res@.len(),
            forall|a: int| 0 <= a < order@.len() ==> (#[trigger] order@[a]) < n && units@[order@[a] as int].id == res@[a],
            forall|r: int| 0 <= r < n ==> (#[trigger] visited@[r] <==> exists|a: int| 0 <= a < order@.len() && order@[a] == r),
            res@.no_duplicates(),
            forall|a: int| 0 <= a < res@.len() ==> start@.contains(#[trigger] res@[a]),
            forall|x: u64| #[trigger] start@.take(i as int).contains(x) && id_known(units@, x) ==> res@.contains(x),
        decreases start.len() - i,
    {
        let x = start[i];
        let ghost res_top = res@;
        proof {
            assert(start@.take(i + 1) =~= start@.take(i as int).push(x));
        }
        if crate::shutdown::has_unit_id(units, x) {
            let p = index_of_id(units, x);
            if !visited[p] {
                proof {
                    assert forall|a: int| 0 <= a < res@.len() implies res@[a] != x by {
                        if res@[a] == x {
                            assert(units@[order@[a] as int].id == units@[p as int].id);
                            assert(order@[a] == p);
                        }
                    }
                }
                let ghost vis0 = visited@;
                let ghost ord0 = order@;
                let ghost res0 = res@;
                visited.set(p, true);
                order.push(p);
                res.push(x);
                proof {
                    lemma_visit(vis0, ord0, p, n as int);
                    assert(res@.last() == x);
                    assert(res@.contains(x));
                    assert forall|y: u64| res0.contains(y) implies res@.contains(y) by {
                        let k = choose|k: int| 0 <= k < res0.len() && res0[k] == y;
                        assert(res@[k] == y);
                    }
                }
            } else {
                proof {
                    let a = choose|a: int| 0 <= a < order@.len() && order@[a] == p;
                    assert(res@[a] == x);
                    assert(res@.contains(x));
                }
            }
        }
        proof {
            assert forall|y: u64| #[trigger] start@.take(i + 1).contains(y) && id_known(units@, y) implies res@.contains(y) by {
                let t = start@.take(i + 1);
                let k = choose|k: int| 0 <= k < t.len() && t[k] == y;
                if k < i {
                    assert(start@.take(i as int)[k] == y);
                    assert(start@.take(i as int).contains(y));
                    assert(res_top.contains(y));
                    let m = choose|m: int| 0 <= m < res_top.len() && res_top[m] == y;
                    assert(res@[m] == y);
                } else {
                    assert(y == x);
                }
            }
        }
        i = i + 1;
    }
    proof {
        assert(start@.take(start@.len() as int) =~= start@);
    }
    let mut head: usize = 0;
    while head < order.len()
        invariant
            head <= order@.len(),
            n == units@.len(),
            table_wf(units@),
            visited@.len() == n,
            order@.len() == res@.len(),
            forall|a: int| 0 <= a < order@.len() ==> (#[trigger] order@[a]) < n && units@[order@[a] as int].id == res@[a],
            forall|r: int| 0 <= r < n ==> (#[trigger] visited@[r] <==> exists|a: int| 0 <= a < order@.len() && order@[a] == r),
            res@.no_duplicates(),
            forall|a: int| 0 <= a < res@.len() ==> start@.contains(#[trigger] res@[a])
                || exists|b: int| 0 <= b < a && required_by_ids(units@, res@[b]).contains(res@[a]),
            forall|x: u64| #[trigger] start@.contains(x) && id_known(units@, x) ==> res@.contains(x),
            forall|a: int, x: u64| 0 <= a < head && #[trigger] required_by_ids(units@, res@[a]).contains(x)
                && id_known(units@, x) ==> res@.contains(x),
        decreases n - order@.len(), order@.len() - head,
    {
        let p = order[head];
        let ghost cur = res@[head as int];
        proof {
            lemma_unit_with_id(units@, p as int);
        }
        let deps = &units[p].install.required_by;
        let ghost order0 = order@.len();
        let mut j: usize = 0;
        while j < deps.len()
            invariant
                head < order@.len(),
                order0 <= order@.len(),
                j <= deps@.len(),
                n == units@.len(),
                table_wf(units@),
                p == order@[head as int],
                cur == res@[head as int],
                deps@ == required_by_ids(units@, cur),
                visited@.len() == n,
                order@.len() == res@.len(),
                forall|a: int| 0 <= a < order@.len() ==> (#[trigger] order@[a]) < n && units@[order@[a] as int].id == res@[a],
                forall|r: int| 0 <= r < n ==> (#[trigger] visited@[r] <==> exists|a: int| 0 <= a < order@.len() && order@[a] == r),
                res@.no_duplicates(),
                forall|a: int| 0 <= a < res@.len() ==> start@.contains(#[trigger] res@[a])
                    || exists|b: int| 0 <= b < a && required_by_ids(units@, res@[b]).contains(res@[a]),
                forall|x: u64| #[trigger] start@.contains(x) && id_known(units@, x) ==> res@.contains(x),
                forall|a: int, x: u64| 0 <= a < head && #[trigger] required_by_ids(units@, res@[a]).contains(x)
                    && id_known(units@, x) ==> res@.contains(x),
                forall|x: u64| #[trigger] deps@.take(j as int).contains(x) && id_known(units@, x) ==> res@.contains(x),
            decreases deps.len() - j,
        {
            let x = deps[j];
            let ghost res_top = res@;
            proof {
                assert(deps@.take(j + 1) =~= deps@.take(j as int).push(x));
            }
            if crate::shutdown::has_unit_id(units, x) {
                let r = index_of_id(units, x);
                if !visited[r] {
                    proof {
                        assert forall|a: int| 0 <= a < res@.len() implies res@[a] != x by {
                            if res@[a] == x {
                                assert(units@[order@[a] as int].id == units@[r as int].id);
                                assert(order@[a] == r);
                            }
                        }
                        let ord = order@.map_values(|v: usize| v as int);
                        assert forall|a: int, b: int| 0 <= a < ord.len() && 0 <= b < ord.len() && a != b implies ord[a] != ord[b] by {
                            assert(res@[a] != res@[b]);
                        }
                        assert(ord.no_duplicates());
                        lemma_distinct_below(ord, n as int);
                        if order@.len() == n {
                            assert forall|c: int| 0 <= c < n implies ord.to_set().contains(c) by {
                                assert(ord.to_set().len() == n) by { ord.unique_seq_to_set(); }
                                vstd::set_lib::lemma_int_range(0, n as int);
                                assert(ord.to_set().subset_of(vstd::set_lib::set_int_range(0, n as int)));
                                if !ord.to_set().contains(c) {
                                    vstd::set_lib::lemma_len_subset(ord.to_set(), vstd::set_lib::set_int_range(0, n as int).remove(c));
                                }
                            }
                            assert(ord.to_set().contains(r as int));
                            let a = choose|a: int| 0 <= a < ord.len() && ord[a] == r as int;
                            assert(visited@[r as int]);
                        }
                    }
                    let ghost vis0 = visited@;
                    let ghost ord0 = order@;
                    let ghost res0 = res@;
                    visited.set(r, true);
                    order.push(r);
                    res.push(x);
                    proof {
                        lemma_visit(vis0, ord0, r, n as int);
                        assert(res@.last() == x);
                        assert(res@.contains(x));
                        assert forall|y: u64| res0.contains(y) implies res@.contains(y) by {
                            let k = choose|k: int| 0 <= k < res0.len() && res0[k] == y;
                            assert(res@[k] == y);
                        }
                        assert(required_by_ids(units@, res@[head as int]).contains(x));
                    }
                } else {
                    proof {
                        let a = choose|a: int| 0 <= a < order@.len() && order@[a] == r;
                        assert(res@[a] == x);
                        assert(res@.contains(x));
                    }
                }
            }
            proof {
                assert forall|y: u64| #[trigger] deps@.take(j + 1).contains(y) && id_known(units@, y) implies res@.contains(y) by {
                    let t = deps@.take(j + 1);
                    let k = choose|k: int| 0 <= k < t.len() && t[k] == y;
                    if k < j {
                        assert(deps@.take(j as int)[k] == y);
                        assert(deps@.take(j as int).contains(y));
                        assert(res_top.contains(y));
                        let m = choose|m: int| 0 <= m < res_top.len() && res_top[m] == y;
                        assert(res@[m] == y);
                    } else {
                        assert(y == x);
                    }
                }
                assert forall|a: int| 0 <= a < res@.len() implies start@.contains(#[trigger] res@[a])
                    || exists|b: int| 0 <= b < a && required_by_ids(units@, res@[b]).contains(res@[a]) by {
                    if a < res_top.len() {
                        assert(res@[a] == res_top[a]);
                        if !start@.contains(res_top[a]) {
                            let b = choose|b: int| 0 <= b < a && required_by_ids(units@, res_top[b]).contains(res_top[a]);
                            assert(res@[b] == res_top[b]);
                        }
                    } else {
                        assert(res@[head as int] == cur);
                        assert(required_by_ids(units@, res@[head as int]).contains(res@[a]));
                    }
                }
            }
            j = j + 1;
        }
        proof {
            assert(deps@.take(deps@.len() as int) =~= deps@);
            let ord = order@.map_values(|v: usize| v as int);
            assert forall|a: int, b: int| 0 <= a < ord.len() && 0 <= b < ord.len() && a != b implies ord[a] != ord[b] by {
                assert(res@[a] != res@[b]);
            }
            lemma_distinct_below(ord, n as int);
        }
        head = head + 1;
    }
    proof {
        assert forall|a: int| 0 <= a < res@.len() implies id_known(units@, #[trigger] res@[a]) by {
            assert(units@[order@[a] as int].id == res@[a]);
        }
    }
    res
}

// ---------------------------------------------------------------------------------------
// Handing socket file descriptors to a service

/// The first socket unit of `sockets` named `name`.
pub open spec fn socket_named(sockets: Seq<Socket>, name: Seq<char>) -> Socket
    decreases sockets.len(),
{
    if sockets.len() == 0 {
        arbitrary()
    } else if sockets[0].name@ == name {
        sockets[0]
    } else {
        socket_named(sockets.drop_first(), name)
    }
}

/// Some socket unit of `sockets` is named `name`.
pub open spec fn has_socket(sockets: Seq<Socket>, name: Seq<char>) -> bool {
    exists|k: int| 0 <= k < sockets.len() && #[trigger] sockets[k].name@ == name
}

/// The file descriptors of the sockets of the socket units named `names`, in order.
pub open spec fn passed_fds(sockets: Seq<Socket>, names: Seq<Seq<char>>) -> Seq<i32>
    decreases names.len(),
{
    if names.len() == 0 {
        Seq::empty()
    } else {
        let s = socket_named(sockets, names.last());
        passed_fds(sockets, names.drop_last()) + s.sockets@.map_values(|c: crate::sockets::SocketConfig| c.fd->0)
    }
}

/// The value of `LISTEN_FDNAMES` for a service with the socket names `names`: the name
/// lists of the named socket units, separated by `:`.
pub open spec fn fd_names_of(sockets: Seq<Socket>, names: Seq<Seq<char>>) -> Seq<char> {
    join_with(
        names.map_values(|n: Seq<char>| repeated_name_list(socket_named(sockets, n).name@, socket_named(sockets, n).sockets@.len())),
        seq![':'],
    )
}

/// What each descriptor number refers to after the (from, to) duplications `moves`, done
/// in order, where `f` gives what each referred to before: each makes `to` refer to what
/// `from` refers to at that moment.
pub open spec fn after_moves(f: spec_fn(int) -> int, moves: Seq<(i32, i32)>) -> spec_fn(int) -> int
    decreases moves.len(),
{
    if moves.len() == 0 {
        f
    } else {
        let g = after_moves(f, moves.drop_last());
        let m = moves.last();
        |x: int| if x == m.1 as int { g(m.0 as int) } else { g(x) }
    }
}

/// The highest of the descriptors `fds`, or 2 where none is higher.
pub open spec fn max_fd(fds: Seq<i32>) -> int
    decreases fds.len(),
{
    if fds.len() == 0 {
        2
    } else {
        let m = max_fd(fds.drop_last());
        if fds.last() > m {
            fds.last() as int
        } else {
            m
        }
    }
}

/// The first descriptor number above all of `fds` and above all the places 3, 4, ... they
/// go to: from there on the descriptors wait while the places are filled.
pub open spec fn scratch_base(fds: Seq<i32>) -> int {
    let m = max_fd(fds);
    (if m > fds.len() + 2 { m } else { fds.len() + 2int }) + 1
}

/// The scratch descriptors that the moves of `fds` use all fit in an `i32`.
pub open spec fn moves_fit(fds: Seq<i32>) -> bool {
    scratch_base(fds) + fds.len() <= i32::MAX + 1
}

/// The duplications that put the descriptors `fds` at 3, 4, ... in order, also where one
/// of them already sits where another is to go: first each goes to its scratch place
/// `scratch_base + i`, then from there to `3 + i`.
pub open spec fn move_plan(fds: Seq<i32>) -> Seq<(i32, i32)> {
    let b = scratch_base(fds);
    Seq::new(fds.len(), |i: int| (fds[i], (b + i) as i32)) + Seq::new(fds.len(), |i: int| ((b + i) as i32, (3 + i) as i32))
}

/// The scratch descriptors of `move_plan`, to close once all moves are done.
pub open spec fn scratch_fds(fds: Seq<i32>) -> Seq<i32> {
    Seq::new(fds.len(), |i: int| (scratch_base(fds) + i) as i32)
}

/// Moving to `dst0`, `dst0 + 1`, ... what `srcs` gives for 0, 1, ..., where no source lies
/// among the destinations, fills each destination with what its source held before.
proof fn lemma_moves_to_range(f: spec_fn(int) -> int, pre: Seq<(i32, i32)>, moves: Seq<(i32, i32)>, srcs: spec_fn(int) -> int, dst0: int)
    requires
        forall|i: int| 0 <= i < moves.len() ==> (#[trigger] moves[i]).0 as int == srcs(i) && moves[i].1 as int == dst0 + i,
        forall|i: int| 0 <= i < moves.len() ==> !(dst0 <= #[trigger] srcs(i) < dst0 + moves.len()),
    ensures
        forall|x: int| #[trigger] after_moves(f, pre + moves)(x) == if dst0 <= x < dst0 + moves.len() {
            after_moves(f, pre)(srcs(x - dst0))
        } else {
            after_moves(f, pre)(x)
        },
    decreases moves.len(),
{
    if moves.len() == 0 {
        assert(pre + moves =~= pre);
    } else {
        let n = moves.len() - 1;
        let rest = moves.drop_last();
        assert forall|i: int| 0 <= i < rest.len() implies !(dst0 <= #[trigger] srcs(i) < dst0 + rest.len()) by {
            assert(moves[i] == rest[i]);
        }
        lemma_moves_to_range(f, pre, rest, srcs, dst0);
        assert((pre + moves).drop_last() =~= pre + rest);
        assert((pre + moves).last() == moves[n]);
        assert(moves[n].0 as int == srcs(n));
        assert(!(dst0 <= srcs(n) < dst0 + moves.len()));
        let g = after_moves(f, pre + rest);
        assert forall|x: int| #[trigger] after_moves(f, pre + moves)(x) == if dst0 <= x < dst0 + moves.len() {
            after_moves(f, pre)(srcs(x - dst0))
        } else {
            after_moves(f, pre)(x)
        } by {
            assert(after_moves(f, pre + moves)(x) == if x == moves[n].1 as int { g(moves[n].0 as int) } else { g(x) });
            assert(g(srcs(n)) == after_moves(f, pre)(srcs(n)));
        }
    }
}

/// After the moves of `move_plan`, each `3 + i` refers to what `fds[i]` referred to, and
/// standard input, output and error are untouched.
pub proof fn lemma_move_plan(f: spec_fn(int) -> int, fds: Seq<i32>)
    requires
        moves_fit(fds),
    ensures
        forall|i: int| 0 <= i < fds.len() ==> #[trigger] after_moves(f, move_plan(fds))(3 + i) == f(fds[i] as int),
        forall|x: int| x < 3 ==> #[trigger] after_moves(f, move_plan(fds))(x) == f(x),
{
    let b = scratch_base(fds);
    let n = fds.len() as int;
    let p1 = Seq::new(fds.len(), |i: int| (fds[i], (b + i) as i32));
    let p2 = Seq::new(fds.len(), |i: int| ((b + i) as i32, (3 + i) as i32));
    lemma_max_fd(fds);
    let s1 = |i: int| fds[i] as int;
    let s2 = |i: int| b + i;
    assert forall|i: int| 0 <= i < p1.len() implies (#[trigger] p1[i]).0 as int == s1(i) && p1[i].1 as int == b + i by {}
    assert forall|i: int| 0 <= i < p1.len() implies !(b <= #[trigger] s1(i) < b + p1.len()) by {
        assert(fds[i] <= max_fd(fds));
    }
    lemma_moves_to_range(f, Seq::empty(), p1, s1, b);
    assert(Seq::<(i32, i32)>::empty() + p1 =~= p1);
    assert(after_moves(f, Seq::<(i32, i32)>::empty()) == f);
    assert forall|i: int| 0 <= i < p2.len() implies (#[trigger] p2[i]).0 as int == s2(i) && p2[i].1 as int == 3 + i by {}
    assert forall|i: int| 0 <= i < p2.len() implies !(3 <= #[trigger] s2(i) < 3 + p2.len()) by {}
    lemma_moves_to_range(f, p1, p2, s2, 3);
    assert(move_plan(fds) == p1 + p2);
    assert forall|i: int| 0 <= i < fds.len() implies #[trigger] after_moves(f, move_plan(fds))(3 + i) == f(fds[i] as int) by {
        assert(after_moves(f, p1 + p2)(3 + i) == after_moves(f, p1)(s2(i)));
        assert(after_moves(f, p1)(b + i) == f(s1(i)));
    }
    assert forall|x: int| x < 3 implies #[trigger] after_moves(f, move_plan(fds))(x) == f(x) by {
        assert(after_moves(f, p1 + p2)(x) == after_moves(f, p1)(x));
    }
}

/// Every descriptor of `fds` is at most `max_fd(fds)`.
proof fn lemma_max_fd(fds: Seq<i32>)
    ensures
        forall|i: int| 0 <= i < fds.len() ==> fds[i] <= #[trigger] max_fd(fds),
        max_fd(fds) >= 2,
    decreases fds.len(),
{
    if fds.len() > 0 {
        lemma_max_fd(fds.drop_last());
        assert forall|i: int| 0 <= i < fds.len() implies fds[i] <= #[trigger] max_fd(fds) by {
            if i < fds.len() - 1 {
                assert(fds[i] == fds.drop_last()[i]);
            }
        }
    }
}

/// The duplications that put the descriptors `fds` at 3, 4, ... (see `move_plan`), and
/// the scratch descriptors they leave to close. Each `3 + i` then refers to what `fds[i]`
/// referred to, whatever the numbers of `fds` are.
pub fn fd_moves(fds: &Vec<i32>) -> (res: (Vec<(i32, i32)>, Vec<i32>))
    requires
        moves_fit(fds@),
    ensures
        res.0@ == move_plan(fds@),
        res.1@ == scratch_fds(fds@),
        forall|f: spec_fn(int) -> int, i: int| 0 <= i < fds@.len() ==> #[trigger] after_moves(f, res.0@)(3 + i) == f(fds@[i] as int),
{
    let ghost v = fds@;
    let mut m: i32 = 2;
    let mut i: usize = 0;
    while i < fds.len()
        invariant
            i <= v.len(),
            v == fds@,
            m == max_fd(v.take(i as int)),
        decreases fds.len() - i,
    {
        proof {
            assert(v.take(i + 1).drop_last() =~= v.take(i as int));
        }
        if fds[i] > m {
            m = fds[i];
        }
        i = i + 1;
    }
    proof {
        assert(v.take(v.len() as int) =~= v);
    }
    let n = fds.len();
    let b: i32 = if (m as i64) > (n as i64) + 2 { m + 1 } else { (n + 3) as i32 };
    let mut moves: Vec<(i32, i32)> = Vec::new();
    let mut scratch: Vec<i32> = Vec::new();
    let mut j: usize = 0;
    while j < n
        invariant
            j <= n,
            n == v.len(),
            v == fds@,
            b == scratch_base(v),
            moves_fit(v),
            moves@ == Seq::new(j as nat, |k: int| (v[k], (b + k) as i32)),
            scratch@ == Seq::new(j as nat, |k: int| (b + k) as i32),
        decreases n - j,
    {
        let t = b + j as i32;
        moves.push((fds[j], t));
        scratch.push(t);
        proof {
            assert(moves@ =~= Seq::new((j + 1) as nat, |k: int| (v[k], (b + k) as i32)));
            assert(scratch@ =~= Seq::new((j + 1) as nat, |k: int| (b + k) as i32));
        }
        j = j + 1;
    }
    let ghost p1 = moves@;
    let mut j: usize = 0;
    while j < n
        invariant
            j <= n,
            n == v.len(),
            b == scratch_base(v),
            moves_fit(v),
            p1 == Seq::new(n as nat, |k: int| (v[k], (b + k) as i32)),
            moves@ == p1 + Seq::new(j as nat, |k: int| ((b + k) as i32, (3 + k) as i32)),
        decreases n - j,
    {
        moves.push((b + j as i32, 3 + j as i32));
        proof {
            assert(moves@ =~= p1 + Seq::new((j + 1) as nat, |k: int| ((b + k) as i32, (3 + k) as i32)));
        }
        j = j + 1;
    }
    proof {
        assert(moves@ =~= move_plan(v));
        assert(scratch@ =~= scratch_fds(v));
        assert forall|f: spec_fn(int) -> int, i: int| 0 <= i < v.len() implies #[trigger] after_moves(f, moves@)(3 + i) == f(v[i] as int) by {
            lemma_move_plan(f, v);
        }
    }
    (moves, scratch)
}

/// The socket units named `names` exist, have at least one socket each, and every socket
/// is open.
pub open spec fn sockets_open(sockets: Seq<Socket>, names: Seq<Seq<char>>) -> bool {
    &&& forall|i: int| 0 <= i < names.len() ==> has_socket(sockets, #[trigger] names[i])
    &&& forall|i: int| 0 <= i < names.len() ==> (#[trigger] socket_named(sockets, names[i])).sockets@.len() > 0
    &&& forall|i: int, j: int| 0 <= i < names.len() && 0 <= j < socket_named(sockets, names[i]).sockets@.len()
        ==> (#[trigger] socket_named(sockets, names[i]).sockets@[j]).fd is Some
}

/// The sockets of the socket units named `names` can be handed over: they are open (see
/// `sockets_open`) and the descriptor numbers their moves use fit (see `moves_fit`).
pub open spec fn fds_passable(sockets: Seq<Socket>, names: Seq<Seq<char>>) -> bool {
    &&& sockets_open(sockets, names)
    &&& moves_fit(passed_fds(sockets, names))
}

/// The environment and file descriptor moves with which a service gets its sockets.
pub struct FdPassingPlan {
    /// The value of `LISTEN_FDS`: how many file descriptors are handed over.
    pub listen_fds: usize,
    /// The value of `LISTEN_FDNAMES`.
    pub fd_names: String,
    /// The (from, to) duplications, in order, that put the descriptors at 3, 4, ...
    pub dups: Vec<(i32, i32)>,
    /// The scratch descriptors the duplications use, to close once they are done.
    pub scratch: Vec<i32>,
}

/// The first socket unit of `sockets` named `name`, by position.
fn find_socket(sockets: &Vec<Socket>, name: &String) -> (res: usize)
    requires
        has_socket(sockets@, name@),
    ensures
        res < sockets@.len(),
        sockets@[res as int] == socket_named(sockets@, name@),
{
    let mut k: usize = 0;
    proof {
        assert(sockets@.subrange(0, sockets@.len() as int) =~= sockets@);
    }
    while k < sockets.len()
        invariant
            k <= sockets@.len(),
            has_socket(sockets@, name@),
            forall|m: int| 0 <= m < k ==> sockets@[m].name@ != name@,
            socket_named(sockets@, name@) == socket_named(sockets@.subrange(k as int, sockets@.len() as int), name@),
        decreases sockets.len() - k,
    {
        if sockets[k].name == *name {
            return k;
        }
        proof {
            let rest = sockets@.subrange(k as int, sockets@.len() as int);
            assert(rest.drop_first() =~= sockets@.subrange(k + 1, sockets@.len() as int));
        }
        k = k + 1;
    }
    proof {
        let m = choose|m: int| 0 <= m < sockets@.len() && #[trigger] sockets@[m].name@ == name@;
        assert(sockets@[m].name@ != name@);
    }
    0
}

/// The descriptors of the sockets of the socket units named `names`, in order (see
/// `passed_fds`).
fn passed_fd_list(names: &Vec<String>, sockets: &Vec<Socket>) -> (res: Vec<i32>)
    requires
        sockets_open(sockets@, words_view(names@)),
    ensures
        res@ == passed_fds(sockets@, words_view(names@)),
{
    let ghost ns = words_view(names@);
    let mut res: Vec<i32> = Vec::new();
    let mut i: usize = 0;
    proof {
        assert(ns.take(0) =~= Seq::<Seq<char>>::empty());
    }
    while i < names.len()
        invariant
            i <= names@.len(),
            ns == words_view(names@),
            sockets_open(sockets@, ns),
            res@ == passed_fds(sockets@, ns.take(i as int)),
        decreases names.len() - i,
    {
        proof {
            assert(ns[i as int] == names@[i as int]@);
            assert(has_socket(sockets@, ns[i as int]));
        }
        let k = find_socket(sockets, &names[i]);
        let sock = &sockets[k];
        let ghost prev = res@;
        let ghost t = ns.take(i + 1);
        proof {
            assert(t.drop_last() =~= ns.take(i as int));
            assert(t.last() == ns[i as int]);
        }
        let mut j: usize = 0;
        while j < sock.sockets.len()
            invariant
                j <= sock.sockets@.len(),
                0 <= i < ns.len(),
                ns == words_view(names@),
                *sock == socket_named(sockets@, ns[i as int]),
                sockets_open(sockets@, ns),
                res@ == prev + sock.sockets@.take(j as int).map_values(|c: crate::sockets::SocketConfig| c.fd->0),
            decreases sock.sockets.len() - j,
        {
            proof {
                assert(socket_named(sockets@, ns[i as int]).sockets@[j as int].fd is Some);
            }
            let fd = match sock.sockets[j].fd {
                Some(fd) => fd,
                None => 0,
            };
            let ghost before = res@;
            res.push(fd);
            proof {
                assert(res@ =~= prev + sock.sockets@.take(j + 1).map_values(|c: crate::sockets::SocketConfig| c.fd->0));
            }
            j = j + 1;
        }
        proof {
            assert(sock.sockets@.take(sock.sockets@.len() as int) =~= sock.sockets@);
            assert(passed_fds(sockets@, t) =~= prev + sock.sockets@.map_values(|c: crate::sockets::SocketConfig| c.fd->0));
        }
        i = i + 1;
    }
    proof {
        assert(ns.take(names@.len() as int) =~= ns);
    }
    res
}

/// How a service with the socket names `names` gets the file descriptors of those socket
/// units: their number, their names for `LISTEN_FDNAMES`, and the duplications that put
/// them at 3, 4, ... in order (see `fd_moves`): after them each `3 + i` refers to the
/// `i`-th socket, also where a socket already sat at a place that another goes to.
pub fn fd_passing_plan(names: &Vec<String>, sockets: &Vec<Socket>) -> (res: FdPassingPlan)
    requires
        fds_passable(sockets@, words_view(names@)),
    ensures
        res.listen_fds == passed_fds(sockets@, words_view(names@)).len(),
        res.fd_names@ == fd_names_of(sockets@, words_view(names@)),
        res.dups@ == move_plan(passed_fds(sockets@, words_view(names@))),
        res.scratch@ == scratch_fds(passed_fds(sockets@, words_view(names@))),
        forall|f: spec_fn(int) -> int, i: int| 0 <= i < res.listen_fds ==> #[trigger] after_moves(f, res.dups@)(3 + i)
            == f(passed_fds(sockets@, words_view(names@))[i] as int),
{
    let ghost ns = words_view(names@);
    let mut count: usize = 0;
    let mut fd_names = String::new();
    let mut i: usize = 0;
    proof {
        assert(ns.take(0) =~= Seq::<Seq<char>>::empty());
    }
    while i < names.len()
        invariant
            i <= names@.len(),
            ns == words_view(names@),
            fds_passable(sockets@, ns),
            count == passed_fds(sockets@, ns.take(i as int)).len(),
            fd_names@ == fd_names_of(sockets@, ns.take(i as int)),
            passed_fds(sockets@, ns.take(i as int)).len() <= passed_fds(sockets@, ns).len(),
        decreases names.len() - i,
    {
        proof {
            assert(ns[i as int] == names@[i as int]@);
            assert(has_socket(sockets@, ns[i as int]));
        }
        let k = find_socket(sockets, &names[i]);
        let sock = &sockets[k];
        let ghost prev_fds = passed_fds(sockets@, ns.take(i as int));
        let ghost t = ns.take(i + 1);
        proof {
            assert(t.drop_last() =~= ns.take(i as int));
            assert(t.last() == ns[i as int]);
            lemma_passed_fds_prefix(sockets@, ns, i + 1);
            assert(passed_fds(sockets@, t) =~= prev_fds + sock.sockets@.map_values(|c: crate::sockets::SocketConfig| c.fd->0));
        }
        let list = sock.build_name_list();
        if i > 0 {
            crate::text::push_char(&mut fd_names, ':');
        }
        let lc = to_chars(list.as_str());
        let mut q: usize = 0;
        let ghost before_names = fd_names@;
        while q < lc.len()
            invariant
                q <= lc@.len(),
                fd_names@ == before_names + lc@.take(q as int),
            decreases lc.len() - q,
        {
            crate::text::push_char(&mut fd_names, lc[q]);
            proof {
                assert(before_names + lc@.take(q + 1) =~= (before_names + lc@.take(q as int)).push(lc@[q as int]));
            }
            q = q + 1;
        }
        count = count + sock.sockets.len();
        proof {
            assert(lc@.take(lc@.len() as int) =~= lc@);
            let names_t = t.map_values(|n: Seq<char>| repeated_name_list(socket_named(sockets@, n).name@, socket_named(sockets@, n).sockets@.len()));
            assert(names_t.drop_last() =~= ns.take(i as int).map_values(|n: Seq<char>| repeated_name_list(socket_named(sockets@, n).name@, socket_named(sockets@, n).sockets@.len())));
            if i == 0 {
                assert(names_t.len() == 1);
            }
        }
        i = i + 1;
    }
    proof {
        assert(ns.take(names@.len() as int) =~= ns);
    }
    let fds = passed_fd_list(names, sockets);
    let (dups, scratch) = fd_moves(&fds);
    FdPassingPlan { listen_fds: count, fd_names, dups, scratch }
}

/// The names of `names` that some socket unit of `sockets` has, in order: a service is
/// handed the sockets of those only.
pub open spec fn known_names(sockets: Seq<Socket>, names: Seq<Seq<char>>) -> Seq<Seq<char>> {
    names.filter(|n: Seq<char>| has_socket(sockets, n))
}

/// The socket names of `names` that name a socket unit of `sockets` (see `known_names`).
pub fn known_socket_names(names: &Vec<String>, sockets: &Vec<Socket>) -> (res: Vec<String>)
    ensures
        words_view(res@) == known_names(sockets@, words_view(names@)),
{
    let ghost ns = words_view(names@);
    let ghost pred = |n: Seq<char>| has_socket(sockets@, n);
    let mut res: Vec<String> = Vec::new();
    let mut i: usize = 0;
    proof {
        reveal(Seq::filter);
        assert(ns.take(0) =~= Seq::<Seq<char>>::empty());
        assert(words_view(res@) =~= Seq::<Seq<char>>::empty());
    }
    while i < names.len()
        invariant
            i <= names@.len(),
            ns == words_view(names@),
            pred == (|n: Seq<char>| has_socket(sockets@, n)),
            words_view(res@) == ns.take(i as int).filter(pred),
        decreases names.len() - i,
    {
        let ghost before = res@;
        proof {
            reveal(Seq::filter);
            assert(ns.take(i + 1).drop_last() =~= ns.take(i as int));
            assert(ns.take(i + 1).last() == names@[i as int]@);
        }
        if has_socket_named(sockets, &names[i]) {
            res.push(names[i].clone());
            proof {
                assert(words_view(res@) =~= words_view(before).push(names@[i as int]@));
            }
        }
        i = i + 1;
    }
    proof {
        assert(ns.take(names@.len() as int) =~= ns);
    }
    res
}

/// The open file descriptors of the sockets `cs`, in order.
pub open spec fn open_fds(cs: Seq<crate::sockets::SocketConfig>) -> Seq<i32>
    decreases cs.len(),
{
    if cs.len() == 0 {
        Seq::empty()
    } else {
        let rest = open_fds(cs.drop_last());
        match cs.last().fd {
            Some(fd) => rest.push(fd),
            None => rest,
        }
    }
}

/// The open file descriptors of the socket units of `sockets` whose name is not among
/// `names`, unit after unit: a started service must not keep them.
pub open spec fn foreign_fds(sockets: Seq<Socket>, names: Seq<Seq<char>>) -> Seq<i32>
    decreases sockets.len(),
{
    if sockets.len() == 0 {
        Seq::empty()
    } else {
        let rest = foreign_fds(sockets.drop_last(), names);
        if names.contains(sockets.last().name@) {
            rest
        } else {
            rest + open_fds(sockets.last().sockets@)
        }
    }
}

/// Whether `name` is among `names`.
fn among(names: &Vec<String>, name: &String) -> (res: bool)
    ensures
        res == words_view(names@).contains(name@),
{
    let mut j: usize = 0;
    while j < names.len()
        invariant
            j <= names@.len(),
            forall|m: int| 0 <= m < j ==> names@[m]@ != name@,
        decreases names.len() - j,
    {
        if names[j] == *name {
            proof {
                assert(words_view(names@)[j as int] == name@);
            }
            return true;
        }
        j = j + 1;
    }
    proof {
        if words_view(names@).contains(name@) {
            let m = choose|m: int| 0 <= m < words_view(names@).len() && words_view(names@)[m] == name@;
            assert(names@[m]@ == name@);
        }
    }
    false
}

/// The file descriptors that the process of a service with the socket names `names`
/// closes before it runs the program: those of the other socket units (see `foreign_fds`).
pub fn fds_to_close(names: &Vec<String>, sockets: &Vec<Socket>) -> (res: Vec<i32>)
    ensures
        res@ == foreign_fds(sockets@, words_view(names@)),
{
    let ghost ns = words_view(names@);
    let mut res: Vec<i32> = Vec::new();
    let mut k: usize = 0;
    proof {
        assert(sockets@.take(0) =~= Seq::<Socket>::empty());
    }
    while k < sockets.len()
        invariant
            k <= sockets@.len(),
            ns == words_view(names@),
            res@ == foreign_fds(sockets@.take(k as int), ns),
        decreases sockets.len() - k,
    {
        let ghost before = res@;
        proof {
            assert(sockets@.take(k + 1).drop_last() =~= sockets@.take(k as int));
            assert(sockets@.take(k + 1).last() == sockets@[k as int]);
        }
        let sock = &sockets[k];
        if !among(names, &sock.name) {
            let mut j: usize = 0;
            proof {
                assert(sock.sockets@.take(0) =~= Seq::<crate::sockets::SocketConfig>::empty());
            }
            while j < sock.sockets.len()
                invariant
                    j <= sock.sockets@.len(),
                    res@ == before + open_fds(sock.sockets@.take(j as int)),
                decreases sock.sockets.len() - j,
            {
                proof {
                    assert(sock.sockets@.take(j + 1).drop_last() =~= sock.sockets@.take(j as int));
                    assert(sock.sockets@.take(j + 1).last() == sock.sockets@[j as int]);
                }
                match sock.sockets[j].fd {
                    Some(fd) => {
                        res.push(fd);
                        proof {
                            assert(before + open_fds(sock.sockets@.take(j + 1)) =~= (before + open_fds(sock.sockets@.take(j as int))).push(fd));
                        }
                    },
                    None => {},
                }
                j = j + 1;
            }
            proof {
                assert(sock.sockets@.take(sock.sockets@.len() as int) =~= sock.sockets@);
            }
        }
        k = k + 1;
    }
    proof {
        assert(sockets@.take(sockets@.len() as int) =~= sockets@);
    }
    res
}

/// Whether some socket unit of `sockets` is named `name`.
fn has_socket_named(sockets: &Vec<Socket>, name: &String) -> (res: bool)
    ensures
        res == has_socket(sockets@, name@),
{
    let mut k: usize = 0;
    while k < sockets.len()
        invariant
            k <= sockets@.len(),
            forall|m: int| 0 <= m < k ==> sockets@[m].name@ != name@,
        decreases sockets.len() - k,
    {
        if sockets[k].name == *name {
            return true;
        }
        k = k + 1;
    }
    false
}

/// Whether a service with the socket names `names` can be handed its sockets (see
/// `fds_passable`): each named socket unit exists, has sockets, all of them open, and the
/// descriptors fit from 3 on.
pub fn sockets_passable(names: &Vec<String>, sockets: &Vec<Socket>) -> (res: bool)
    ensures
        res == fds_passable(sockets@, words_view(names@)),
{
    let ghost ns = words_view(names@);
    let mut count: u64 = 0;
    let mut i: usize = 0;
    proof {
        assert(ns.take(0) =~= Seq::<Seq<char>>::empty());
    }
    while i < names.len()
        invariant
            i <= names@.len(),
            ns == words_view(names@),
            forall|m: int| 0 <= m < i ==> has_socket(sockets@, #[trigger] ns[m]),
            forall|m: int| 0 <= m < i ==> (#[trigger] socket_named(sockets@, ns[m])).sockets@.len() > 0,
            forall|m: int, j: int| 0 <= m < i && 0 <= j < socket_named(sockets@, ns[m]).sockets@.len()
                ==> (#[trigger] socket_named(sockets@, ns[m]).sockets@[j]).fd is Some,
            count == passed_fds(sockets@, ns.take(i as int)).len(),
            count + 3 <= i32::MAX,
        decreases names.len() - i,
    {
        proof {
            assert(ns[i as int] == names@[i as int]@);
        }
        if !has_socket_named(sockets, &names[i]) {
            return false;
        }
        let k = find_socket(sockets, &names[i]);
        let sock = &sockets[k];
        if sock.sockets.len() == 0 {
            return false;
        }
        let mut j: usize = 0;
        while j < sock.sockets.len()
            invariant
                j <= sock.sockets@.len(),
                i < ns.len(),
                ns == words_view(names@),
                *sock == socket_named(sockets@, ns[i as int]),
                forall|x: int| 0 <= x < j ==> (#[trigger] sock.sockets@[x]).fd is Some,
            decreases sock.sockets.len() - j,
        {
            if sock.sockets[j].fd.is_none() {
                proof {
                    assert(socket_named(sockets@, ns[i as int]).sockets@[j as int].fd is None);
                }
                return false;
            }
            j = j + 1;
        }
        let ghost t = ns.take(i + 1);
        proof {
            assert(t.drop_last() =~= ns.take(i as int));
            assert(t.last() == ns[i as int]);
            lemma_passed_fds_prefix(sockets@, ns, i + 1);
        }
        if sock.sockets.len() as u64 > 2147483644 - count {
            return false;
        }
        count = count + sock.sockets.len() as u64;
        i = i + 1;
    }
    proof {
        assert(ns.take(names@.len() as int) =~= ns);
    }
    let fds = passed_fd_list(names, sockets);
    fds_fit(&fds)
}

/// Whether the scratch descriptors of the moves of `fds` fit (see `moves_fit`).
fn fds_fit(fds: &Vec<i32>) -> (res: bool)
    ensures
        res == moves_fit(fds@),
{
    let ghost v = fds@;
    let mut m: i32 = 2;
    let mut i: usize = 0;
    while i < fds.len()
        invariant
            i <= v.len(),
            v == fds@,
            m == max_fd(v.take(i as int)),
        decreases fds.len() - i,
    {
        proof {
            assert(v.take(i + 1).drop_last() =~= v.take(i as int));
        }
        if fds[i] > m {
            m = fds[i];
        }
        i = i + 1;
    }
    proof {
        assert(v.take(v.len() as int) =~= v);
    }
    let n = fds.len() as i128;
    let b: i128 = if (m as i128) > n + 2 { m as i128 + 1 } else { n + 3 };
    b + n <= 2147483648
}

proof fn lemma_passed_fds_prefix(sockets: Seq<Socket>, names: Seq<Seq<char>>, i: int)
    requires
        0 <= i <= names.len(),
    ensures
        passed_fds(sockets, names.take(i)).len() <= passed_fds(sockets, names).len(),
    decreases names.len() - i,
{
    if i < names.len() {
        lemma_passed_fds_prefix(sockets, names, i + 1);
        assert(names.take(i + 1).drop_last() =~= names.take(i));
    } else {
        assert(names.take(i) =~= names);
    }
}

/// The ids of the units that are ordered after no unit, in table order: those started first.
pub open spec fn roots(units: Seq<Unit>) -> Seq<u64>
    decreases units.len(),
{
    if units.len() == 0 {
        Seq::empty()
    } else {
        let rest = roots(units.drop_last());
        if units.last().install.after@.len() == 0 {
            rest.push(units.last().id)
        } else {
            rest
        }
    }
}

/// The ids of the units that are ordered after no unit: where starting begins.
pub fn root_services(units: &Vec<Unit>) -> (res: Vec<u64>)
    ensures
        res@ == roots(units@),
{
    let mut res: Vec<u64> = Vec::new();
    let mut k: usize = 0;
    proof {
        assert(units@.take(0) =~= Seq::<Unit>::empty());
    }
    while k < units.len()
        invariant
            k <= units@.len(),
            res@ == roots(units@.take(k as int)),
        decreases units.len() - k,
    {
        proof {
            assert(units@.take(k + 1).drop_last() =~= units@.take(k as int));
            assert(units@.take(k + 1).last() == units@[k as int]);
        }
        if units[k].install.after.len() == 0 {
            res.push(units[k].id);
        }
        k = k + 1;
    }
    proof {
        assert(units@.take(units@.len() as int) =~= units@);
    }
    res
}

} // verus!
