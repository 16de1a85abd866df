use rustysd::services::{Service, ServiceRuntimeInfo, ServiceStatus};
use rustysd::shutdown::{close_socket_at, get_next_service_to_shutdown, shutdown_order, shutdown_steps, started_units, ShutdownStep};
use rustysd::startup::startup_order;
use rustysd::unit_parser::{parse_file, parse_service, parse_target};
use rustysd::units::{
    add_implicit_before_after, dedup_ids, fill_dependencies, find_sock_with_name, get_sockets_by_name, Install, Unit,
    UnitConfig, UnitSpecialized,
};
use rustysd::sockets::{Socket, SocketConfig, SocketKind, SpecializedSocketConfig, UnixSocketConfig};
use rustysd::services::dependants_to_kill;

fn conf(path: &str) -> UnitConfig {
    UnitConfig { filepath: path.to_owned(), wants: vec![], requires: vec![], before: vec![], after: vec![] }
}

fn service_unit(id: u64, text: &str, path: &str) -> Unit {
    let file = parse_file(text);
    parse_service(&file, &path.to_owned(), id)
}

fn sorted(v: &Vec<u64>) -> Vec<u64> {
    let mut v = v.clone();
    v.sort();
    v
}

fn socket_unit(id: u64, path: &str, name: &str) -> Unit {
    Unit {
        id,
        conf: conf(path),
        specialized: UnitSpecialized::Socket(Socket { name: name.to_owned(), sockets: vec![], services: vec![], activated: false }),
        install: Install { wants: vec![], requires: vec![], wanted_by: vec![], required_by: vec![], before: vec![], after: vec![], install_config: None },
    }
}

#[test]
fn unit_names_from_paths() {
    assert_eq!(conf("/path/to/unitfile.service").name(), "unitfile");
    assert_eq!(conf("/path/to/a.b.socket").name(), "a.b");
    assert_eq!(conf("relative.target").name(), "relative");
    assert_eq!(conf("/path/to/noext").name(), "");
    assert_eq!(conf("/path/to/dir.service/").name(), "dir");
    assert_eq!(conf("/path/to/x.service/.").name(), "x");
}

#[test]
fn dedup_removes_every_repeat() {
    let mut v = vec![1, 1, 2, 2, 2, 1, 3, 3];
    dedup_ids(&mut v);
    assert_eq!(v, vec![1, 2, 3]);
    let mut again = v.clone();
    dedup_ids(&mut again);
    assert_eq!(again, v);
    let mut spread = vec![2, 3, 2];
    dedup_ids(&mut spread);
    assert_eq!(spread, vec![2, 3]);
    let mut empty: Vec<u64> = vec![];
    dedup_ids(&mut empty);
    assert!(empty.is_empty());
}

#[test]
fn ordering_is_filled_from_both_ends() {
    let mut units = vec![
        service_unit(1, "[Unit]\nBefore = 2\n[Install]\nRequiredBy = 2\n", "/path/to/1.service"),
        service_unit(2, "[Unit]\nAfter = 1\n[Install]\nRequiredBy = 3\n", "/path/to/2.service"),
        service_unit(3, "[Unit]\nAfter = 1\nAfter = 2\n", "/path/to/3.service"),
    ];
    fill_dependencies(&mut units);
    for u in units.iter_mut() {
        u.dedup_dependencies();
    }
    let (u1, u2, u3) = (&units[0].install, &units[1].install, &units[2].install);
    assert!(u1.after.is_empty());
    assert_eq!(sorted(&u1.before), vec![2, 3]);
    assert_eq!(u2.before, vec![3]);
    assert_eq!(u2.after, vec![1]);
    assert!(u3.before.is_empty());
    assert_eq!(sorted(&u3.after), vec![1, 2]);
    assert_eq!(u1.required_by, vec![2]);
    assert_eq!(u2.requires, vec![1]);
    assert_eq!(u2.required_by, vec![3]);
    assert_eq!(u3.requires, vec![2]);
}

#[test]
fn wants_and_wanted_by_are_symmetric() {
    let mut units = vec![
        service_unit(7, "[Unit]\nWants = b\n", "/x/a.service"),
        service_unit(8, "[Unit]\n[Install]\nWantedBy = c\n", "/x/b.service"),
        service_unit(9, "[Unit]\n", "/x/c.service"),
    ];
    fill_dependencies(&mut units);
    assert_eq!(units[0].install.wants, vec![8]);
    assert_eq!(sorted(&units[1].install.wanted_by), vec![7, 9]);
    assert_eq!(units[2].install.wants, vec![8]);
    assert!(units[2].install.wanted_by.is_empty());
}

#[test]
fn socket_lookup_by_name() {
    let units = vec![
        socket_unit(1, "/s/a.socket", "alpha"),
        socket_unit(2, "/s/b.socket", "beta"),
        socket_unit(3, "/s/c.socket", "beta"),
    ];
    assert_eq!(find_sock_with_name(&"alpha".to_owned(), &units).unwrap().name, "alpha");
    assert!(find_sock_with_name(&"beta".to_owned(), &units).is_none());
    assert!(find_sock_with_name(&"gamma".to_owned(), &units).is_none());
    let by_name = get_sockets_by_name(&units);
    assert_eq!(by_name.entries.len(), 2);
    assert!(by_name.get(&"alpha".to_owned()).is_some());
    assert!(by_name.get(&"beta".to_owned()).is_some());
}

fn ordered(id: u64, before: Vec<u64>) -> Unit {
    let mut u = socket_unit(id, &format!("/o/{}.target", id), "x");
    u.install.before = before;
    u
}

#[test]
fn shutdown_stops_dependents_first() {
    // 1 before 2 before 3: 3 must be stopped first, then 2, then 1
    let units = vec![ordered(1, vec![2]), ordered(2, vec![3]), ordered(3, vec![])];
    assert_eq!(get_next_service_to_shutdown(&units, &vec![true, true, true]), Some(3));
    assert_eq!(get_next_service_to_shutdown(&units, &vec![true, false, false]), Some(1));
    assert_eq!(get_next_service_to_shutdown(&units, &vec![false, false, false]), None);
    let (order, left) = shutdown_order(&units, vec![true, true, true]);
    assert_eq!(order, vec![3, 2, 1]);
    assert_eq!(left, vec![false, false, false]);
    let (order, _) = shutdown_order(&units, vec![true, false, true]);
    assert_eq!(order, vec![1, 3]);
}

#[test]
fn shutdown_leaves_circles_running() {
    let units = vec![ordered(1, vec![2]), ordered(2, vec![1]), ordered(3, vec![])];
    let (order, left) = shutdown_order(&units, vec![true, true, true]);
    assert_eq!(order, vec![3]);
    assert_eq!(left, vec![true, true, false]);
}

#[test]
fn parsed_service_starts_never_ran() {
    let u = service_unit(4, "[Service]\nExecStart = /bin/x\n", "/p/x.service");
    match u.specialized {
        UnitSpecialized::Service(Service { status, runtime_info: ServiceRuntimeInfo { restarted, up_since }, .. }) => {
            assert_eq!(status, ServiceStatus::NeverRan);
            assert_eq!(restarted, 0);
            assert!(up_since.is_none());
        }
        _ => panic!("not a service"),
    }
}

#[test]
fn running_and_starting_services_count_as_started() {
    let mut units = vec![
        service_unit(1, "[Service]\nExecStart = /bin/a\n", "/u/a.service"),
        service_unit(2, "[Service]\nExecStart = /bin/b\n", "/u/b.service"),
        service_unit(3, "[Service]\nExecStart = /bin/c\n", "/u/c.service"),
        socket_unit(4, "/u/d.socket", "d"),
    ];
    let statuses = [ServiceStatus::Running, ServiceStatus::Stopped, ServiceStatus::Starting];
    for (u, st) in units.iter_mut().zip(statuses.iter()) {
        if let UnitSpecialized::Service(s) = &mut u.specialized {
            s.status = *st;
        }
    }
    assert_eq!(started_units(&units), vec![true, false, true, false]);
}

#[test]
fn startup_follows_the_before_relation() {
    let mut units = vec![
        service_unit(1, "[Unit]\nBefore = b\n", "/u/a.service"),
        service_unit(2, "[Unit]\nAfter = a\nBefore = c\n", "/u/b.service"),
        service_unit(3, "[Unit]\nAfter = b\n", "/u/c.service"),
        service_unit(4, "[Unit]\nAfter = d\n", "/u/d.service"),
        service_unit(5, "[Unit]\n", "/u/e.service"),
    ];
    fill_dependencies(&mut units);
    assert_eq!(startup_order(&units), vec![1, 5, 2, 3]);
}

fn listening(path: &str, fd: Option<i32>) -> SocketConfig {
    SocketConfig {
        kind: SocketKind::Stream(path.to_owned()),
        specialized: SpecializedSocketConfig::UnixSocket(UnixSocketConfig::Stream(path.to_owned())),
        fd,
    }
}

#[test]
fn shutdown_stops_services_then_closes_sockets_then_removes_the_control_socket() {
    let mut sock = socket_unit(7, "/p/s.socket", "s");
    if let UnitSpecialized::Socket(s) = &mut sock.specialized {
        s.sockets = vec![listening("/run/a", Some(5)), listening("/run/b", None), listening("/run/c", Some(9))];
    }
    let units = vec![service_unit(1, "[Service]\nExecStart = /bin/a\n", "/p/a.service"), sock];
    let steps = shutdown_steps(&vec![1], &units, &"/run/rsd".to_owned());
    assert_eq!(steps.len(), 4);
    assert!(matches!(steps[0], ShutdownStep::StopService(1)));
    assert!(matches!(steps[1], ShutdownStep::CloseSocket(7, 0)));
    assert!(matches!(steps[2], ShutdownStep::CloseSocket(7, 2)));
    assert!(matches!(&steps[3], ShutdownStep::RemoveControlSocket(p) if p == "/run/rsd/control.socket"));
    let none = shutdown_steps(&vec![], &vec![], &"./notifications/".to_owned());
    assert!(matches!(&none[..], [ShutdownStep::RemoveControlSocket(p)] if p == "./notifications/control.socket"));
}

#[test]
fn units_requiring_a_dead_unit_are_found_through_others() {
    let mut units = vec![
        service_unit(1, "[Service]\nExecStart = /bin/a\n[Install]\nRequiredBy = b\n", "/p/a.service"),
        service_unit(2, "[Service]\nExecStart = /bin/b\n[Install]\nRequiredBy = c\n", "/p/b.service"),
        service_unit(3, "[Service]\nExecStart = /bin/c\n[Install]\nRequiredBy = a\n", "/p/c.service"),
        service_unit(4, "[Service]\nExecStart = /bin/d\n", "/p/d.service"),
    ];
    fill_dependencies(&mut units);
    assert_eq!(dependants_to_kill(&units, &vec![2]), vec![2, 3, 1]);
    assert_eq!(dependants_to_kill(&units, &vec![4, 99, 4]), vec![4]);
    assert_eq!(dependants_to_kill(&units, &vec![]), Vec::<u64>::new());
}

#[test]
fn closing_a_socket_forgets_its_descriptor() {
    let mut sock = socket_unit(7, "/p/s.socket", "s");
    if let UnitSpecialized::Socket(s) = &mut sock.specialized {
        s.sockets = vec![listening("/run/a", Some(5)), listening("/run/b", None)];
    }
    let mut units = vec![service_unit(1, "[Service]\nExecStart = /bin/a\n", "/p/a.service"), sock];
    assert_eq!(close_socket_at(7, 0, &mut units), Some((5, Some("/run/a".to_owned()))));
    match &units[1].specialized {
        UnitSpecialized::Socket(s) => {
            assert_eq!(s.sockets.len(), 2);
            assert!(s.sockets[0].fd.is_none());
        }
        _ => panic!("should stay a socket unit"),
    }
    assert_eq!(close_socket_at(7, 0, &mut units), None);
    assert_eq!(close_socket_at(7, 1, &mut units), None);
    assert_eq!(close_socket_at(7, 5, &mut units), None);
    assert_eq!(close_socket_at(1, 0, &mut units), None);
}

#[test]
fn mod_test_unit_ordering() {
    let target1_str = format!(
        "
    [Unit]
    Description = {}
    Before = {}
    
    [Install]
    RequiredBy = {}
    ",
        "Target", "2.target", "2.target",
    );

    let parsed_file = parse_file(&target1_str);
    let target1_unit = parse_target(&parsed_file, &"/path/to/1.target".to_owned(), 1);

    let target2_str = format!(
        "
    [Unit]
    Description = {}
    After = {}

    [Install]
    RequiredBy = {}
    ",
        "Target", "1.target", "3.target",
    );

    let parsed_file = parse_file(&target2_str);
    let target2_unit = parse_target(&parsed_file, &"/path/to/2.target".to_owned(), 2);

    let target3_str = format!(
        "
    [Unit]
    Description = {}
    After = {}
    
    ",
        "Target", "1.target"
    );

    let parsed_file = parse_file(&target3_str);
    let target3_unit = parse_target(&parsed_file, &"/path/to/3.target".to_owned(), 3);

    let id1 = target1_unit.id;
    let id2 = target2_unit.id;
    let id3 = target3_unit.id;
    let mut unit_table = vec![target1_unit, target2_unit, target3_unit];

    fill_dependencies(&mut unit_table);
    add_implicit_before_after(&mut unit_table);
    unit_table.iter_mut().for_each(|unit| unit.dedup_dependencies());

    let get = |id: u64| unit_table.iter().find(|u| u.id == id).unwrap();

    // before/after 1.target
    assert!(get(id1).install.after.is_empty());
    assert!(get(id1).install.before.len() == 2);
    assert!(get(id1).install.before.contains(&id2));
    assert!(get(id1).install.before.contains(&id3));

    // before/after 2.target
    assert_eq!(get(id2).install.before.len(), 1);
    assert!(get(id2).install.before.contains(&id3));
    assert_eq!(get(id2).install.after.len(), 1);
    assert!(get(id2).install.after.contains(&id1));

    // before/after 3.target
    assert!(get(id3).install.before.is_empty());
    assert!(get(id3).install.after.len() == 2);
    assert!(get(id3).install.after.contains(&id2));
    assert!(get(id3).install.after.contains(&id1));
}

#[test]
fn ordering_test_unit_ordering() {
    let target1_str = format!(
        "
    [Unit]
    Description = {}
    Before = {}
    
    [Install]
    RequiredBy = {}
    ",
        "Target", "2.target", "2.target",
    );

    let parsed_file = parse_file(&target1_str);
    let target1_unit = parse_target(&parsed_file, &"/path/to/1.target".to_owned(), 1);

    let target2_str = format!(
        "
    [Unit]
    Description = {}
    After = {}

    [Install]
    RequiredBy = {}
    ",
        "Target", "1.target", "3.target",
    );

    let parsed_file = parse_file(&target2_str);
    let target2_unit = parse_target(&parsed_file, &"/path/to/2.target".to_owned(), 2);

    let target3_str = format!(
        "
    [Unit]
    Description = {}
    After = {}
    After = {}
    
    ",
        "Target", "1.target", "2.target"
    );

    let parsed_file = parse_file(&target3_str);
    let target3_unit = parse_target(&parsed_file, &"/path/to/3.target".to_owned(), 3);

    let id1 = target1_unit.id;
    let id2 = target2_unit.id;
    let id3 = target3_unit.id;
    let mut unit_table = vec![target1_unit, target2_unit, target3_unit];

    fill_dependencies(&mut unit_table);
    unit_table.iter_mut().for_each(|unit| unit.dedup_dependencies());

    let get = |id: u64| unit_table.iter().find(|u| u.id == id).unwrap();

    // before/after 1.target
    assert!(get(id1).install.after.is_empty());
    assert!(get(id1).install.before.len() == 2);
    assert!(get(id1).install.before.contains(&id2));
    assert!(get(id1).install.before.contains(&id3));

    // before/after 2.target
    assert_eq!(get(id2).install.before.len(), 1);
    assert!(get(id2).install.before.contains(&id3));
    assert_eq!(get(id2).install.after.len(), 1);
    assert!(get(id2).install.after.contains(&id1));

    // before/after 3.target
    assert!(get(id3).install.before.is_empty());
    assert!(get(id3).install.after.len() == 2);
    assert!(get(id3).install.after.contains(&id2));
    assert!(get(id3).install.after.contains(&id1));
}
