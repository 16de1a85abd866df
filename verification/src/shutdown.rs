//! The order in which units are stopped when the service manager shuts down: a unit is
//! stopped only once no started unit that it is ordered before remains.
use vstd::prelude::*;

use crate::cgroups::{join, join_path};
use crate::services::ServiceStatus;
use crate::sockets::SocketConfig;
use crate::units::{table_wf, Unit, UnitSpecialized};

verus! {

/// `id` is the id of a unit of `units`.
pub open spec fn id_known(units: Seq<Unit>, id: u64) -> bool {
    exists|j: int| 0 <= j < units.len() && #[trigger] units[j].id == id
}

/// Every id in a `before` list of `units` is the id of a unit of `units`.
pub open spec fn before_ids_known(units: Seq<Unit>) -> bool {
    forall|k: int, b: int| 0 <= k < units.len() && 0 <= b < units[k].install.before@.len() ==> id_known(
        units,
        #[trigger] units[k].install.before@[b],
    )
}

/// Whether `id` is the id of a unit of `units`.
pub fn has_unit_id(units: &Vec<Unit>, id: u64) -> (res: bool)
    ensures
        res == id_known(units@, id),
{
    let mut j: usize = 0;
    while j < units.len()
        invariant
            j <= units@.len(),
            forall|m: int| 0 <= m < j ==> units@[m].id != id,
        decreases units.len() - j,
    {
        if units[j].id == id {
            return true;
        }
        j = j + 1;
    }
    false
}

/// Whether every id in a `before` list of `units` is that of a unit (see `before_ids_known`).
pub fn before_ids_are_known(units: &Vec<Unit>) -> (res: bool)
    ensures
        res == before_ids_known(units@),
{
    let mut k: usize = 0;
    while k < units.len()
        invariant
            k <= units@.len(),
            forall|x: int, b: int| 0 <= x < k && 0 <= b < units@[x].install.before@.len() ==> id_known(
                units@,
                #[trigger] units@[x].install.before@[b],
            ),
        decreases units.len() - k,
    {
        let before = &units[k].install.before;
        let mut b: usize = 0;
        while b < before.len()
            invariant
                b <= before@.len(),
                k < units@.len(),
                *before == units@[k as int].install.before,
                forall|x: int, c: int| 0 <= x < k && 0 <= c < units@[x].install.before@.len() ==> id_known(
                    units@,
                    #[trigger] units@[x].install.before@[c],
                ),
                forall|c: int| 0 <= c < b ==> id_known(units@, #[trigger] units@[k as int].install.before@[c]),
            decreases before.len() - b,
        {
            if !has_unit_id(units, before[b]) {
                return false;
            }
            b = b + 1;
        }
        k = k + 1;
    }
    true
}

/// Unit `k` is started and none of the units it is ordered before is still started.
pub open spec fn can_stop(units: Seq<Unit>, started: Seq<bool>, k: int) -> bool {
    &&& started[k]
    &&& forall|j: int| 0 <= j < units.len() && units[k].install.before@.contains(#[trigger] units[j].id) ==> !started[j]
}

/// The position of the unit with id `id` in `units`.
pub fn index_of_id(units: &Vec<Unit>, id: u64) -> (res: usize)
    requires
        id_known(units@, id),
    ensures
        res < units@.len(),
        units@[res as int].id == id,
{
    let mut j: usize = 0;
    while j < units.len()
        invariant
            j <= units@.len(),
            exists|m: int| 0 <= m < units@.len() && #[trigger] units@[m].id == id,
            forall|m: int| 0 <= m < j ==> units@[m].id != id,
        decreases units.len() - j,
    {
        if units[j].id == id {
            return j;
        }
        j = j + 1;
    }
    proof {
        let m = choose|m: int| 0 <= m < units@.len() && #[trigger] units@[m].id == id;
        assert(units@[m].id != id);
    }
    0
}

/// Whether unit `k` can be stopped now (see `can_stop`).
fn can_stop_now(units: &Vec<Unit>, started: &Vec<bool>, k: usize) -> (res: bool)
    requires
        table_wf(units@),
        before_ids_known(units@),
        started@.len() == units@.len(),
        k < units@.len(),
    ensures
        res == can_stop(units@, started@, k as int),
{
    if !started[k] {
        return false;
    }
    let before = &units[k].install.before;
    let mut b: usize = 0;
    while b < before.len()
        invariant
            b <= before@.len(),
            k < units@.len(),
            before@ == units@[k as int].install.before@,
            table_wf(units@),
            before_ids_known(units@),
            started@.len() == units@.len(),
            forall|m: int, j: int|
                #![trigger before@[m], units@[j]]
                0 <= m < b && 0 <= j < units@.len() && units@[j].id == before@[m] ==> !started@[j],
        decreases before.len() - b,
    {
        proof {
            assert(id_known(units@, units@[k as int].install.before@[b as int]));
        }
        let j = index_of_id(units, before[b]);
        if started[j] {
            proof {
                assert(units@[k as int].install.before@.contains(units@[j as int].id)) by {
                    assert(before@[b as int] == units@[j as int].id);
                }
            }
            return false;
        }
        proof {
            assert forall|m: int, j2: int|
                #![trigger before@[m], units@[j2]]
                0 <= m < b + 1 && 0 <= j2 < units@.len() && units@[j2].id == before@[m] implies !started@[j2] by {
                if m == b {
                    assert(units@[j2].id == units@[j as int].id);
                }
            }
        }
        b = b + 1;
    }
    proof {
        assert forall|j: int| 0 <= j < units@.len() && units@[k as int].install.before@.contains(#[trigger] units@[j].id) implies !started@[j] by {
            let m = choose|m: int| 0 <= m < before@.len() && before@[m] == units@[j].id;
            assert(units@[j].id == before@[m]);
            assert(before@[m] == units@[j].id);
        }
    }
    true
}

/// A started unit that can be stopped now: none of the units it is ordered before is
/// still started. `None` where no started unit can be stopped.
pub fn get_next_service_to_shutdown(units: &Vec<Unit>, started: &Vec<bool>) -> (res: Option<u64>)
    requires
        table_wf(units@),
        before_ids_known(units@),
        started@.len() == units@.len(),
    ensures
        match res {
            Some(id) => exists|k: int| 0 <= k < units@.len() && #[trigger] units@[k].id == id && can_stop(units@, started@, k),
            None => forall|k: int| 0 <= k < units@.len() ==> !#[trigger] can_stop(units@, started@, k),
        },
{
    let mut k: usize = 0;
    while k < units.len()
        invariant
            k <= units@.len(),
            table_wf(units@),
            before_ids_known(units@),
            started@.len() == units@.len(),
            forall|m: int| 0 <= m < k ==> !#[trigger] can_stop(units@, started@, m),
        decreases units.len() - k,
    {
        if can_stop_now(units, started, k) {
            return Some(units[k].id);
        }
        k = k + 1;
    }
    None
}

/// The number of `true`s in `s`.
pub open spec fn count_true(s: Seq<bool>) -> nat
    decreases s.len(),
{
    if s.len() == 0 {
        0
    } else {
        count_true(s.drop_last()) + if s.last() {
            1nat
        } else {
            0nat
        }
    }
}

proof fn lemma_count_true_clear(s: Seq<bool>, k: int)
    requires
        0 <= k < s.len(),
        s[k],
    ensures
        count_true(s.update(k, false)) + 1 == count_true(s),
    decreases s.len(),
{
    if k < s.len() - 1 {
        lemma_count_true_clear(s.drop_last(), k);
        assert(s.update(k, false).drop_last() =~= s.drop_last().update(k, false));
    } else {
        assert(s.update(k, false).drop_last() =~= s.drop_last());
    }
}

/// The ids in `order` are those of the units of `units` that were started in `started0`
/// and are no longer started in `started`.
pub open spec fn stopped_in_order(units: Seq<Unit>, started0: Seq<bool>, started: Seq<bool>, order: Seq<u64>) -> bool {
    &&& forall|k: int| 0 <= k < units.len() ==> #[trigger] started[k] == (started0[k] && !order.contains(units[k].id))
    &&& forall|a: int| #![trigger order[a]] 0 <= a < order.len() ==> exists|k: int| 0 <= k < units.len() && #[trigger] units[k].id == order[a] && started0[k]
    &&& forall|a: int, b: int| 0 <= a < b < order.len() ==> #[trigger] order[a] != #[trigger] order[b]
}

/// When the unit at position `a` of `order` is stopped, every unit it is ordered before
/// that was started has been stopped already.
pub open spec fn dependents_stopped_first(units: Seq<Unit>, started0: Seq<bool>, order: Seq<u64>) -> bool {
    forall|a: int, k: int, j: int|
        #![trigger order[a], units[k], units[j]]
        0 <= a < order.len() && 0 <= k < units.len() && 0 <= j < units.len() && units[k].id == order[a]
            && units[k].install.before@.contains(units[j].id) && started0[j] ==> order.take(a).contains(units[j].id)
}

/// The order in which the started units are stopped at shutdown: again and again a unit
/// that can be stopped now (see `get_next_service_to_shutdown`) is chosen and counted as
/// stopped, until none is left. A unit is stopped only after every started unit it is
/// ordered before; the units still started at the end each wait on another one.
pub fn shutdown_order(units: &Vec<Unit>, started: Vec<bool>) -> (res: (Vec<u64>, Vec<bool>))
    requires
        table_wf(units@),
        before_ids_known(units@),
        started@.len() == units@.len(),
    ensures
        res.1@.len() == units@.len(),
        stopped_in_order(units@, started@, res.1@, res.0@),
        dependents_stopped_first(units@, started@, res.0@),
        forall|k: int| 0 <= k < units@.len() ==> !#[trigger] can_stop(units@, res.1@, k),
{
    let ghost started0 = started@;
    let mut now = started;
    let mut order: Vec<u64> = Vec::new();
    proof {
        assert forall|k: int| 0 <= k < units@.len() implies #[trigger] now@[k] == (started0[k] && !order@.contains(units@[k].id)) by {
        }
    }
    loop
        invariant
            table_wf(units@),
            before_ids_known(units@),
            now@.len() == units@.len(),
            started0.len() == units@.len(),
            started0 == started@,
            stopped_in_order(units@, started0, now@, order@),
            dependents_stopped_first(units@, started0, order@),
        decreases count_true(now@),
    {
        match get_next_service_to_shutdown(units, &now) {
            None => {
                return (order, now);
            },
            Some(id) => {
                let k = index_of_id(units, id);
                let ghost old_now = now@;
                let ghost old_order = order@;
                proof {
                    let k2 = choose|k2: int| 0 <= k2 < units@.len() && #[trigger] units@[k2].id == id && can_stop(units@, old_now, k2);
                    assert(k2 == k as int);
                    lemma_count_true_clear(now@, k as int);
                    assert(!old_order.contains(id));
                }
                now.set(k, false);
                order.push(id);
                proof {
                    assert forall|m: int| 0 <= m < units@.len() implies #[trigger] now@[m] == (started0[m] && !order@.contains(units@[m].id)) by {
                        if order@.contains(units@[m].id) && !old_order.contains(units@[m].id) {
                            let c = choose|c: int| 0 <= c < order@.len() && order@[c] == units@[m].id;
                            if c < old_order.len() {
                                assert(old_order[c] == units@[m].id);
                            }
                            assert(units@[m].id == id);
                            assert(m == k as int);
                        }
                        if old_order.contains(units@[m].id) {
                            let c = choose|c: int| 0 <= c < old_order.len() && old_order[c] == units@[m].id;
                            assert(order@[c] == units@[m].id);
                        }
                        if m == k as int {
                            assert(order@[order@.len() - 1] == id);
                        }
                    }
                    assert forall|a: int| #![trigger order@[a]] 0 <= a < order@.len() implies exists|m: int| 0 <= m < units@.len() && #[trigger] units@[m].id == order@[a] && started0[m] by {
                        if a == order@.len() - 1 {
                            assert(units@[k as int].id == order@[a] && started0[k as int]);
                        } else {
                            assert(order@[a] == old_order[a]);
                        }
                    }
                    assert forall|a: int, b: int| 0 <= a < b < order@.len() implies #[trigger] order@[a] != #[trigger] order@[b] by {
                        if b == order@.len() - 1 {
                            assert(order@[a] == old_order[a]);
                            assert(old_order.contains(old_order[a]));
                        } else {
                            assert(order@[a] == old_order[a] && order@[b] == old_order[b]);
                        }
                    }
                    assert forall|a: int, m: int, j: int|
                        #![trigger order@[a], units@[m], units@[j]]
                        0 <= a < order@.len() && 0 <= m < units@.len() && 0 <= j < units@.len() && units@[m].id == order@[a]
                            && units@[m].install.before@.contains(units@[j].id) && started0[j]
                        implies order@.take(a).contains(units@[j].id) by {
                        if a == order@.len() - 1 {
                            assert(m == k as int);
                            assert(!old_now[j]);
                            assert(order@.take(a) =~= old_order);
                        } else {
                            assert(order@.take(a) =~= old_order.take(a));
                        }
                    }
                }
            },
        }
    }
}

/// Unit `u` counts as started when the manager shuts down: a service that is starting or
/// running.
pub open spec fn is_started(u: Unit) -> bool {
    match u.specialized {
        UnitSpecialized::Service(s) => s.status == ServiceStatus::Starting || s.status == ServiceStatus::Running,
        _ => false,
    }
}

/// For each unit of `units`, whether it counts as started (see `is_started`).
pub fn started_units(units: &Vec<Unit>) -> (res: Vec<bool>)
    ensures
        res@.len() == units@.len(),
        forall|i: int| 0 <= i < units@.len() ==> #[trigger] res@[i] == is_started(units@[i]),
        forall|i: int| 0 <= i < units@.len() ==> (#[trigger] res@[i] <==> (units@[i].specialized matches UnitSpecialized::Service(s)
            && !(s.status is NeverRan) && !(s.status is Stopped))),
{
    let mut res: Vec<bool> = Vec::new();
    let mut i: usize = 0;
    while i < units.len()
        invariant
            i <= units@.len(),
            res@.len() == i,
            forall|j: int| 0 <= j < i ==> #[trigger] res@[j] == is_started(units@[j]),
        decreases units.len() - i,
    {
        let started = match &units[i].specialized {
            UnitSpecialized::Service(s) => s.status == ServiceStatus::Starting || s.status == ServiceStatus::Running,
            _ => false,
        };
        res.push(started);
        i = i + 1;
    }
    res
}

/// One step of shutting the service manager down.
pub enum ShutdownStep {
    /// Kill the service with this id: `SIGKILL` to its process group, then `kill_service`,
    /// and remove its notification socket.
    StopService(u64),
    /// Close the open descriptor of the socket at this position of the socket unit with
    /// this id, and remove the file of a unix socket or a named pipe.
    CloseSocket(u64, usize),
    /// Remove the control socket at this path.
    RemoveControlSocket(String),
}

/// The sockets at the positions of `cs` whose descriptor is open, of the socket unit `id`,
/// to close, in order.
pub open spec fn close_steps(id: u64, cs: Seq<SocketConfig>) -> Seq<ShutdownStep>
    decreases cs.len(),
{
    if cs.len() == 0 {
        Seq::empty()
    } else {
        let rest = close_steps(id, cs.drop_last());
        if cs.last().fd is Some {
            rest.push(ShutdownStep::CloseSocket(id, (cs.len() - 1) as usize))
        } else {
            rest
        }
    }
}

/// The open sockets of the socket units of `units`, in the order of the table, to close.
pub open spec fn socket_close_steps(units: Seq<Unit>) -> Seq<ShutdownStep>
    decreases units.len(),
{
    if units.len() == 0 {
        Seq::empty()
    } else {
        let u = units.last();
        socket_close_steps(units.drop_last()) + match u.specialized {
            UnitSpecialized::Socket(s) => close_steps(u.id, s.sockets@),
            _ => Seq::empty(),
        }
    }
}

/// The steps of shutting down: the services of `stop_order` are stopped in that order (see
/// `shutdown_order`), then the open sockets of all socket units are closed, and last the
/// control socket `control.socket` in `notification_sockets_dir` is removed.
pub fn shutdown_steps(stop_order: &Vec<u64>, units: &Vec<Unit>, notification_sockets_dir: &String) -> (res: Vec<ShutdownStep>)
    ensures
        res@.len() == stop_order@.len() + socket_close_steps(units@).len() + 1,
        res@.take(res@.len() - 1) == stop_order@.map_values(|id: u64| ShutdownStep::StopService(id)) + socket_close_steps(units@),
        res@.last() matches ShutdownStep::RemoveControlSocket(p) && p@ == join_path(notification_sockets_dir@, "control.socket"@),
{
    let mut res: Vec<ShutdownStep> = Vec::new();
    let ghost stops = stop_order@.map_values(|id: u64| ShutdownStep::StopService(id));
    let mut i: usize = 0;
    while i < stop_order.len()
        invariant
            i <= stop_order@.len(),
            stops == stop_order@.map_values(|id: u64| ShutdownStep::StopService(id)),
            res@ == stops.take(i as int),
        decreases stop_order.len() - i,
    {
        res.push(ShutdownStep::StopService(stop_order[i]));
        proof {
            assert(res@ =~= stops.take(i + 1));
        }
        i = i + 1;
    }
    proof {
        assert(stops.take(stop_order@.len() as int) =~= stops);
    }
    let mut k: usize = 0;
    while k < units.len()
        invariant
            k <= units@.len(),
            res@ == stops + socket_close_steps(units@.take(k as int)),
        decreases units.len() - k,
    {
        let ghost before = res@;
        proof {
            assert(units@.take(k + 1).drop_last() =~= units@.take(k as int));
            assert(units@.take(k + 1).last() == units@[k as int]);
        }
        match &units[k].specialized {
            UnitSpecialized::Socket(sock) => {
                let id = units[k].id;
                let mut j: usize = 0;
                while j < sock.sockets.len()
                    invariant
                        j <= sock.sockets@.len(),
                        res@ == before + close_steps(id, sock.sockets@.take(j as int)),
                    decreases sock.sockets.len() - j,
                {
                    proof {
                        assert(sock.sockets@.take(j + 1).drop_last() =~= sock.sockets@.take(j as int));
                        assert(sock.sockets@.take(j + 1).last() == sock.sockets@[j as int]);
                    }
                    if sock.sockets[j].fd.is_some() {
                        res.push(ShutdownStep::CloseSocket(id, j));
                        proof {
                            assert(res@ =~= before + close_steps(id, sock.sockets@.take(j + 1)));
                        }
                    }
                    j = j + 1;
                }
                proof {
                    assert(sock.sockets@.take(sock.sockets@.len() as int) =~= sock.sockets@);
                    assert(res@ =~= stops + socket_close_steps(units@.take(k + 1)));
                }
            },
            _ => {
                proof {
                    assert(res@ =~= stops + socket_close_steps(units@.take(k + 1)));
                }
            },
        }
        k = k + 1;
    }
    proof {
        assert(units@.take(units@.len() as int) =~= units@);
    }
    let ghost body = res@;
    res.push(ShutdownStep::RemoveControlSocket(join(notification_sockets_dir, "control.socket")));
    proof {
        assert(res@.take(res@.len() - 1) =~= body);
    }
    res
}

/// The file of a socket that closing it removes: the path of a unix socket or of a named
/// pipe; none for a network socket.
pub open spec fn socket_file(c: crate::sockets::SpecializedSocketConfig) -> Option<Seq<char>> {
    match c {
        crate::sockets::SpecializedSocketConfig::UnixSocket(crate::sockets::UnixSocketConfig::Stream(p)) => Some(p@),
        crate::sockets::SpecializedSocketConfig::UnixSocket(crate::sockets::UnixSocketConfig::Sequential(p)) => Some(p@),
        crate::sockets::SpecializedSocketConfig::UnixSocket(crate::sockets::UnixSocketConfig::Datagram(p)) => Some(p@),
        crate::sockets::SpecializedSocketConfig::Fifo(f) => Some(f.path@),
        _ => None,
    }
}

/// Closes, in the unit table, the socket at position `i` of the socket unit with id `id`:
/// its descriptor is forgotten, and the descriptor and the file to remove (see
/// `socket_file`) are returned for the caller to close and remove. Where that socket is
/// not open, or the unit is no socket unit or has no such position, nothing changes and
/// nothing is returned.
pub fn close_socket_at(id: u64, i: usize, units: &mut Vec<Unit>) -> (res: Option<(i32, Option<String>)>)
    requires
        table_wf(old(units)@),
        id_known(old(units)@, id),
    ensures
        final(units)@.len() == old(units)@.len(),
        table_wf(final(units)@),
        forall|k: int| 0 <= k < old(units)@.len() && #[trigger] old(units)@[k].id != id ==> final(units)@[k] == old(units)@[k],
        exists|k: int| 0 <= k < old(units)@.len() && #[trigger] old(units)@[k].id == id && match old(units)@[k].specialized {
            UnitSpecialized::Socket(s) if i < s.sockets@.len() && s.sockets@[i as int].fd is Some => {
                &&& final(units)@[k].id == old(units)@[k].id
                &&& final(units)@[k].conf == old(units)@[k].conf
                &&& final(units)@[k].install == old(units)@[k].install
                &&& final(units)@[k].specialized matches UnitSpecialized::Socket(s2) && s2.name == s.name && s2.services == s.services
                    && s2.activated == s.activated
                    && s2.sockets@ == s.sockets@.update(i as int, SocketConfig { fd: None, ..s.sockets@[i as int] })
                &&& res matches Some((fd, file)) && Some(fd) == s.sockets@[i as int].fd && match file {
                    Some(p) => socket_file(s.sockets@[i as int].specialized) == Some(p@),
                    None => socket_file(s.sockets@[i as int].specialized) is None,
                }
            },
            _ => final(units)@[k] == old(units)@[k] && res is None,
        },
{
    let k = index_of_id(units, id);
    let ghost before = units@;
    let open = match &units[k].specialized {
        UnitSpecialized::Socket(s) => i < s.sockets.len() && s.sockets[i].fd.is_some(),
        _ => false,
    };
    if !open {
        return None;
    }
    let mut u = units.remove(k);
    let mut res: Option<(i32, Option<String>)> = None;
    match &mut u.specialized {
        UnitSpecialized::Socket(s) => {
            let mut c = s.sockets.remove(i);
            let fd = match c.fd {
                Some(fd) => fd,
                None => 0,
            };
            let file = match &c.specialized {
                crate::sockets::SpecializedSocketConfig::UnixSocket(crate::sockets::UnixSocketConfig::Stream(p)) => Some(p.clone()),
                crate::sockets::SpecializedSocketConfig::UnixSocket(crate::sockets::UnixSocketConfig::Sequential(p)) => Some(p.clone()),
                crate::sockets::SpecializedSocketConfig::UnixSocket(crate::sockets::UnixSocketConfig::Datagram(p)) => Some(p.clone()),
                crate::sockets::SpecializedSocketConfig::Fifo(f) => Some(f.path.clone()),
                _ => None,
            };
            c.fd = None;
            s.sockets.insert(i, c);
            res = Some((fd, file));
        },
        _ => {},
    }
    units.insert(k, u);
    proof {
        assert forall|m: int| 0 <= m < before.len() && #[trigger] before[m].id != id implies units@[m] == before[m] by {
            assert(m != k as int);
        }
        assert(before[k as int].id == id);
        if let UnitSpecialized::Socket(s) = before[k as int].specialized {
            if let UnitSpecialized::Socket(s2) = units@[k as int].specialized {
                assert(s2.sockets@ =~= s.sockets@.update(i as int, SocketConfig { fd: None, ..s.sockets@[i as int] }));
            }
        }
    }
    res
}

/// At shutdown only services that are on their way up or running count as started: a
/// service that never ran (such as one still waiting for socket activation) or that has
/// stopped is not stopped again, and a unit that is no service is never stopped.
pub proof fn law_only_live_services_count_as_started(u: Unit)
    ensures
        is_started(u) ==> u.specialized is Service,
        u.specialized matches UnitSpecialized::Service(s) ==> (is_started(u) <==> !(s.status is NeverRan)
            && !(s.status is Stopped)),
{
}

/// Unit `u` is a service that is starting or running.
pub open spec fn live_service(u: Unit) -> bool {
    u.specialized matches UnitSpecialized::Service(s) && (s.status is Starting || s.status is Running)
}

/// Every unit that the shutdown order stops, when it starts from what `started_units`
/// gives, is a service that is starting or running: no service that never ran or already
/// stopped is stopped at shutdown.
pub proof fn law_shutdown_stops_only_live_services(units: Seq<Unit>, started: Seq<bool>, left: Seq<bool>, order: Seq<u64>)
    requires
        table_wf(units),
        started.len() == units.len(),
        forall|i: int| 0 <= i < units.len() ==> #[trigger] started[i] == is_started(units[i]),
        stopped_in_order(units, started, left, order),
    ensures
        forall|k: int| 0 <= k < units.len() && #[trigger] order.contains(units[k].id) ==> live_service(units[k]),
{
    assert forall|k: int| 0 <= k < units.len() && #[trigger] order.contains(units[k].id) implies live_service(units[k]) by {
        let a = choose|a: int| 0 <= a < order.len() && order[a] == units[k].id;
        let j = choose|j: int| 0 <= j < units.len() && #[trigger] units[j].id == order[a] && started[j];
        assert(units[j].id == units[k].id);
        assert(j == k);
        assert(is_started(units[k]));
    }
}

} // verus!
