//! Socket activation: which socket descriptors are watched, which socket units activity
//! woke up, and which service such a socket unit starts. Watching itself (`select`) is
//! done by the caller.
use vstd::prelude::*;

use crate::services::{unit_with_id, ServiceStatus};
use crate::shutdown::{id_known, index_of_id};
use crate::units::{table_wf, Unit, UnitSpecialized};

verus! {

/// The unit with id `id` is a socket unit whose sockets have not started their service yet.
pub open spec fn waiting_socket(units: Seq<Unit>, id: u64) -> bool {
    match unit_with_id(units, id).specialized {
        UnitSpecialized::Socket(s) => !s.activated,
        _ => false,
    }
}

/// The descriptors of `fd_ids` (descriptor, socket unit id) whose unit is a waiting socket
/// unit, in order.
pub open spec fn watched_fds(fd_ids: Seq<(i32, u64)>, units: Seq<Unit>) -> Seq<i32>
    decreases fd_ids.len(),
{
    if fd_ids.len() == 0 {
        Seq::empty()
    } else {
        let rest = watched_fds(fd_ids.drop_last(), units);
        if waiting_socket(units, fd_ids.last().1) {
            rest.push(fd_ids.last().0)
        } else {
            rest
        }
    }
}

/// Every unit id of `fd_ids` is that of a unit of `units`.
pub open spec fn fd_ids_known(fd_ids: Seq<(i32, u64)>, units: Seq<Unit>) -> bool {
    forall|k: int| 0 <= k < fd_ids.len() ==> id_known(units, #[trigger] fd_ids[k].1)
}

proof fn lemma_unit_with_id(units: Seq<Unit>, id: u64, k: int)
    requires
        table_wf(units),
        0 <= k < units.len(),
        units[k].id == id,
    ensures
        unit_with_id(units, id) == units[k],
{
    let c = choose|m: int| 0 <= m < units.len() && #[trigger] units[m].id == id;
    assert(units[c].id == units[k].id);
}

/// The descriptors to watch for activity: those of `fd_ids` (the descriptor store's
/// descriptor and socket unit pairs) whose socket unit has not started its service yet.
pub fn sockets_to_watch(fd_ids: &Vec<(i32, u64)>, units: &Vec<Unit>) -> (res: Vec<i32>)
    requires
        table_wf(units@),
        fd_ids_known(fd_ids@, units@),
    ensures
        res@ == watched_fds(fd_ids@, units@),
{
    let mut out: Vec<i32> = Vec::new();
    let mut i: usize = 0;
    while i < fd_ids.len()
        invariant
            i <= fd_ids@.len(),
            table_wf(units@),
            fd_ids_known(fd_ids@, units@),
            out@ == watched_fds(fd_ids@.take(i as int), units@),
        decreases fd_ids.len() - i,
    {
        proof {
            assert(fd_ids@.take(i + 1).drop_last() =~= fd_ids@.take(i as int));
            assert(fd_ids@.take(i + 1).last() == fd_ids@[i as int]);
            assert(id_known(units@, fd_ids@[i as int].1));
        }
        let (fd, id) = fd_ids[i];
        let k = index_of_id(units, id);
        proof {
            lemma_unit_with_id(units@, id, k as int);
        }
        match &units[k].specialized {
            UnitSpecialized::Socket(s) => {
                if !s.activated {
                    out.push(fd);
                }
            },
            _ => {},
        }
        i = i + 1;
    }
    proof {
        assert(fd_ids@.take(fd_ids@.len() as int) =~= fd_ids@);
    }
    out
}

/// The descriptors of a socket unit that is not waiting (it has started its service, see
/// `activate_socket`) are not watched: leaving its entries out of `fd_ids` watches the same
/// descriptors.
pub proof fn law_activated_sockets_are_not_watched(fd_ids: Seq<(i32, u64)>, units: Seq<Unit>, id: u64)
    requires
        !waiting_socket(units, id),
    ensures
        watched_fds(fd_ids, units) == watched_fds(fd_ids.filter(|p: (i32, u64)| p.1 != id), units),
    decreases fd_ids.len(),
{
    reveal(Seq::filter);
    if fd_ids.len() > 0 {
        let pred = |p: (i32, u64)| p.1 != id;
        law_activated_sockets_are_not_watched(fd_ids.drop_last(), units, id);
        let sub = fd_ids.drop_last().filter(pred);
        if pred(fd_ids.last()) {
            assert(fd_ids.filter(pred) == sub.push(fd_ids.last()));
            assert(sub.push(fd_ids.last()).drop_last() =~= sub);
        } else {
            assert(fd_ids.filter(pred) == sub);
        }
    }
}

/// The unit ids of the entries of `fd_ids` whose descriptor is among `ready`, in order.
pub open spec fn ready_ids(fd_ids: Seq<(i32, u64)>, ready: Seq<i32>) -> Seq<u64>
    decreases fd_ids.len(),
{
    if fd_ids.len() == 0 {
        Seq::empty()
    } else {
        let rest = ready_ids(fd_ids.drop_last(), ready);
        if ready.contains(fd_ids.last().0) {
            rest.push(fd_ids.last().1)
        } else {
            rest
        }
    }
}

fn contains_fd(v: &Vec<i32>, x: i32) -> (res: bool)
    ensures
        res == v@.contains(x),
{
    let mut i: usize = 0;
    while i < v.len()
        invariant
            i <= v@.len(),
            forall|m: int| 0 <= m < i ==> v@[m] != x,
        decreases v.len() - i,
    {
        if v[i] == x {
            return true;
        }
        i = i + 1;
    }
    false
}

/// The socket units that a wake-up of the watch found active: none where the event fd
/// woke it (that only interrupts the wait), else those of `fd_ids` whose descriptor is
/// among the `ready` ones, in the order of `fd_ids`.
pub fn activated_sockets(fd_ids: &Vec<(i32, u64)>, ready: &Vec<i32>, eventfd_ready: bool) -> (res: Vec<u64>)
    ensures
        res@ == if eventfd_ready {
            Seq::<u64>::empty()
        } else {
            ready_ids(fd_ids@, ready@)
        },
{
    let mut out: Vec<u64> = Vec::new();
    if eventfd_ready {
        return out;
    }
    let mut i: usize = 0;
    while i < fd_ids.len()
        invariant
            i <= fd_ids@.len(),
            out@ == ready_ids(fd_ids@.take(i as int), ready@),
        decreases fd_ids.len() - i,
    {
        proof {
            assert(fd_ids@.take(i + 1).drop_last() =~= fd_ids@.take(i as int));
            assert(fd_ids@.take(i + 1).last() == fd_ids@[i as int]);
        }
        let (fd, id) = fd_ids[i];
        if contains_fd(ready, fd) {
            out.push(id);
        }
        i = i + 1;
    }
    proof {
        assert(fd_ids@.take(fd_ids@.len() as int) =~= fd_ids@);
    }
    out
}

/// Unit `u` is a service that gets the sockets named `name`.
pub open spec fn serves(u: Unit, name: Seq<char>) -> bool {
    match u.specialized {
        UnitSpecialized::Service(s) => exists|j: int| 0 <= j < s.socket_names@.len() && #[trigger] s.socket_names@[j]@ == name,
        _ => false,
    }
}

/// The position of the first of the first `n` units of `units` that serves `name`.
pub open spec fn first_server(units: Seq<Unit>, name: Seq<char>, n: int) -> Option<int>
    decreases n,
{
    if n <= 0 {
        None
    } else {
        match first_server(units, name, n - 1) {
            Some(k) => Some(k),
            None => if serves(units[n - 1], name) {
                Some(n - 1)
            } else {
                None
            },
        }
    }
}

proof fn lemma_first_server_stays(units: Seq<Unit>, name: Seq<char>, m: int, n: int)
    requires
        0 <= m <= n,
        first_server(units, name, m) is Some,
    ensures
        first_server(units, name, n) == first_server(units, name, m),
    decreases n - m,
{
    if m < n {
        lemma_first_server_stays(units, name, m, n - 1);
    }
}

proof fn lemma_first_server_bounds(units: Seq<Unit>, name: Seq<char>, n: int)
    ensures
        first_server(units, name, n) matches Some(k) ==> 0 <= k < n && serves(units[k], name),
    decreases n,
{
    if n > 0 {
        lemma_first_server_bounds(units, name, n - 1);
    }
}

fn lists_name(names: &Vec<String>, name: &String) -> (res: bool)
    ensures
        res == exists|j: int| 0 <= j < names@.len() && #[trigger] names@[j]@ == name@,
{
    let mut j: usize = 0;
    while j < names.len()
        invariant
            j <= names@.len(),
            forall|m: int| 0 <= m < j ==> names@[m]@ != name@,
        decreases names.len() - j,
    {
        if names[j] == *name {
            return true;
        }
        j = j + 1;
    }
    false
}

/// The position of the service that the sockets named `name` start: the first service
/// unit of `units` that gets them.
pub fn find_service_for_socket(units: &Vec<Unit>, name: &String) -> (res: Option<usize>)
    ensures
        match first_server(units@, name@, units@.len() as int) {
            Some(k) => res matches Some(r) && r as int == k,
            None => res is None,
        },
{
    let mut k: usize = 0;
    while k < units.len()
        invariant
            k <= units@.len(),
            first_server(units@, name@, k as int) is None,
        decreases units.len() - k,
    {
        let found = match &units[k].specialized {
            UnitSpecialized::Service(s) => lists_name(&s.socket_names, name),
            _ => false,
        };
        if found {
            proof {
                assert(first_server(units@, name@, k + 1) == Some(k as int));
                lemma_first_server_stays(units@, name@, k + 1, units@.len() as int);
            }
            return Some(k);
        }
        k = k + 1;
    }
    None
}

/// The position of the service that activity on the socket unit with id `socket_id`
/// starts: the first service that gets its sockets, where that service has not been
/// started yet; none where the unit is no socket unit, no service gets its sockets, or
/// the service was started before.
pub open spec fn activation_target(units: Seq<Unit>, socket_id: u64) -> Option<int> {
    match unit_with_id(units, socket_id).specialized {
        UnitSpecialized::Socket(s) => match first_server(units, s.name@, units.len() as int) {
            Some(k) => if units[k].specialized matches UnitSpecialized::Service(srvc) && srvc.status == ServiceStatus::NeverRan {
                Some(k)
            } else {
                None
            },
            None => None,
        },
        _ => None,
    }
}

/// Socket activity starts only a service that has never run, one still waiting for its
/// socket: a service that is starting, running or has stopped is left alone, and what is
/// started is always a service.
pub proof fn law_activation_starts_only_waiting_services(units: Seq<Unit>, socket_id: u64)
    ensures
        activation_target(units, socket_id) matches Some(k) ==> 0 <= k < units.len()
            && (units[k].specialized matches UnitSpecialized::Service(s) && s.status is NeverRan),
{
    if let UnitSpecialized::Socket(s) = unit_with_id(units, socket_id).specialized {
        lemma_first_server_bounds(units, s.name@, units.len() as int);
    }
}

/// Activity on the socket unit with id `socket_id`: marks the unit activated (its
/// descriptors are no longer watched) and returns the id of the service to start, if any
/// (see `activation_target`). Other units are left as they are.
pub fn activate_socket(units: &mut Vec<Unit>, socket_id: u64) -> (res: Option<u64>)
    requires
        table_wf(old(units)@),
        id_known(old(units)@, socket_id),
    ensures
        final(units)@.len() == old(units)@.len(),
        table_wf(final(units)@),
        forall|k: int| 0 <= k < old(units)@.len() && #[trigger] old(units)@[k].id != socket_id ==> final(units)@[k] == old(units)@[k],
        forall|k: int| 0 <= k < old(units)@.len() && #[trigger] old(units)@[k].id == socket_id ==> final(units)@[k] == match old(units)@[k].specialized {
            UnitSpecialized::Socket(s) => Unit { specialized: UnitSpecialized::Socket(crate::sockets::Socket { activated: true, ..s }), ..old(units)@[k] },
            _ => old(units)@[k],
        },
        res == match activation_target(old(units)@, socket_id) {
            Some(k) => Some(old(units)@[k].id),
            None => None,
        },
        res matches Some(id) ==> exists|k: int| 0 <= k < old(units)@.len() && #[trigger] old(units)@[k].id == id
            && (old(units)@[k].specialized matches UnitSpecialized::Service(s) && s.status is NeverRan),
        !waiting_socket(final(units)@, socket_id),
        forall|id: u64| id != socket_id && id_known(old(units)@, id) ==> #[trigger] waiting_socket(final(units)@, id) == waiting_socket(old(units)@, id),
{
    let ghost before = units@;
    proof {
        law_activation_starts_only_waiting_services(before, socket_id);
    }
    let k = index_of_id(units, socket_id);
    proof {
        lemma_unit_with_id(before, socket_id, k as int);
        assert forall|m: int| 0 <= m < before.len() && #[trigger] before[m].id == socket_id implies m == k as int by {
            assert(before[m].id == before[k as int].id);
        }
    }
    let name = match &units[k].specialized {
        UnitSpecialized::Socket(s) => s.name.clone(),
        _ => {
            return None;
        },
    };
    let target = find_service_for_socket(units, &name);
    proof {
        lemma_first_server_bounds(before, name@, before.len() as int);
        assert(before[k as int].specialized matches UnitSpecialized::Socket(s) && s.name@ == name@);
    }
    let res = match target {
        Some(t) => match &units[t].specialized {
            UnitSpecialized::Service(srvc) => if srvc.status == ServiceStatus::NeverRan {
                Some(units[t].id)
            } else {
                None
            },
            _ => None,
        },
        None => None,
    };
    let mut u = units.remove(k);
    match &mut u.specialized {
        UnitSpecialized::Socket(s) => {
            s.activated = true;
        },
        _ => {},
    }
    units.insert(k, u);
    proof {
        assert forall|m: int| 0 <= m < before.len() && #[trigger] before[m].id != socket_id implies units@[m] == before[m] by {
            assert(m != k as int);
        }
        assert forall|a: int, b: int|
            0 <= a < units@.len() && 0 <= b < units@.len() && #[trigger] units@[a].id == #[trigger] units@[b].id implies a == b by {
            assert(units@[a].id == before[a].id);
            assert(units@[b].id == before[b].id);
        }
        assert forall|m: int| 0 <= m < units@.len() implies (#[trigger] units@[m]).conf.has_file_name() by {
            assert(units@[m].conf == before[m].conf);
        }
        lemma_unit_with_id(units@, socket_id, k as int);
        assert forall|id: u64| id != socket_id && id_known(before, id) implies #[trigger] waiting_socket(units@, id) == waiting_socket(before, id) by {
            let j = choose|j: int| 0 <= j < before.len() && #[trigger] before[j].id == id;
            lemma_unit_with_id(before, id, j);
            assert(units@[j] == before[j]);
            lemma_unit_with_id(units@, id, j);
        }
    }
    res
}

} // verus!
