use rustysd::notification_handler::{handle_notification_message, handle_notifications_from_buffer, notification_socket_path};
use rustysd::services::{
    after_fork_parent, fd_moves, fd_passing_plan, kill_service, process_group_to_kill, sockets_passable, kill_services, pid_table_get,
    pid_table_insert, pid_table_remove, restart_service, root_services, service_exit_handler,
    split_command, start_service, ChildTermination, ExitOutcome, PidTable, ServiceStatus,
};
use rustysd::sockets::{Socket, SocketConfig, SocketKind, SpecializedSocketConfig, UnixSocketConfig};
use rustysd::unit_parser::{parse_file, parse_service};
use rustysd::units::{PidEntry, Unit, UnitSpecialized};

fn service_unit(id: u64, text: &str, path: &str) -> Unit {
    let file = parse_file(text);
    parse_service(&file, &path.to_owned(), id)
}

fn srvc(u: &Unit) -> &rustysd::services::Service {
    match &u.specialized {
        UnitSpecialized::Service(s) => s,
        _ => panic!("not a service"),
    }
}

fn srvc_mut(u: &mut Unit) -> &mut rustysd::services::Service {
    match &mut u.specialized {
        UnitSpecialized::Service(s) => s,
        _ => panic!("not a service"),
    }
}

#[test]
fn child_termination_success() {
    assert!(ChildTermination::Exit(0).success());
    assert!(!ChildTermination::Exit(1).success());
    assert!(!ChildTermination::Signal(9).success());
}

#[test]
fn pid_table_reads_back_writes() {
    let mut t: PidTable = Vec::new();
    pid_table_insert(&mut t, 10, PidEntry::Service(1));
    pid_table_insert(&mut t, 11, PidEntry::Stop(1));
    pid_table_insert(&mut t, 10, PidEntry::Service(2));
    assert_eq!(t.len(), 2);
    assert_eq!(pid_table_get(&t, 10), Some(PidEntry::Service(2)));
    assert_eq!(pid_table_get(&t, 11), Some(PidEntry::Stop(1)));
    pid_table_remove(&mut t, 10);
    assert_eq!(pid_table_get(&t, 10), None);
    assert_eq!(pid_table_get(&t, 11), Some(PidEntry::Stop(1)));
}

#[test]
fn command_words() {
    assert_eq!(split_command(&"/bin/prog a  b".to_owned()), vec!["/bin/prog", "a", "", "b"]);
    assert_eq!(split_command(&"".to_owned()), vec![""]);
}

#[test]
fn start_and_record_pid() {
    let mut u = service_unit(5, "[Service]\nExecStart = /bin/prog --flag\nSockets = s1\n", "/p/prog.service");
    srvc_mut(&mut u).socket_names = vec!["s1".to_owned()];
    let plan = start_service(srvc_mut(&mut u), &"prog".to_owned()).unwrap().unwrap();
    assert_eq!(plan.argv, vec!["/bin/prog".to_owned(), "--flag".to_owned()]);
    assert!(plan.pass_sockets);
    assert_eq!(srvc(&u).status, ServiceStatus::Starting);
    let mut t: PidTable = Vec::new();
    after_fork_parent(srvc_mut(&mut u), 5, 1234, &mut t);
    assert_eq!(srvc(&u).pid, Some(1234));
    assert_eq!(srvc(&u).process_group, Some(-1234));
    assert_eq!(srvc(&u).status, ServiceStatus::Running);
    assert_eq!(pid_table_get(&t, 1234), Some(PidEntry::Service(5)));
    let mut bare = service_unit(6, "[Unit]\n", "/p/bare.service");
    assert!(start_service(srvc_mut(&mut bare), &"bare".to_owned()).unwrap().is_none());
    assert_eq!(start_service(srvc_mut(&mut u), &"prog".to_owned()).err(), Some("Service prog has already a pid Pid(1234)".to_owned()));
    srvc_mut(&mut u).pid = None;
    assert_eq!(start_service(srvc_mut(&mut u), &"prog".to_owned()).err(), Some("Service prog has already a pgid Pid(-1234)".to_owned()));
    assert_eq!(srvc(&u).status, ServiceStatus::Running);
}

#[test]
fn killing_runs_stop_commands() {
    let mut units = vec![
        service_unit(1, "[Service]\nExecStart = /bin/a\nExecStop = /bin/stop-a now\n", "/p/a.service"),
        service_unit(2, "[Service]\nExecStart = /bin/b\n", "/p/b.service"),
    ];
    let mut t: PidTable = Vec::new();
    after_fork_parent(srvc_mut(&mut units[0]), 1, 100, &mut t);
    after_fork_parent(srvc_mut(&mut units[1]), 2, 200, &mut t);
    assert_eq!(process_group_to_kill(1, &units), Some(-100));
    let cmd = kill_service(1, &mut units, &mut t);
    assert_eq!(process_group_to_kill(1, &units), None);
    assert_eq!(srvc(&units[0]).process_group, None);
    assert_eq!(cmd, Some(vec!["/bin/stop-a".to_owned(), "now".to_owned()]));
    assert_eq!(srvc(&units[0]).status, ServiceStatus::Stopped);
    assert_eq!(srvc(&units[0]).pid, None);
    assert_eq!(pid_table_get(&t, 100), None);
    assert_eq!(pid_table_get(&t, 200), Some(PidEntry::Service(2)));
    let cmds = kill_services(&vec![2, 1], &mut units, &mut t);
    assert_eq!(cmds, vec![vec!["/bin/stop-a".to_owned(), "now".to_owned()]]);
    assert_eq!(srvc(&units[1]).status, ServiceStatus::Stopped);
    assert!(t.is_empty());
}

#[test]
fn restart_kills_then_starts() {
    let mut units = vec![service_unit(1, "[Service]\nExecStart = /bin/a x\nExecStop = /bin/halt\n", "/p/a.service")];
    let mut t: PidTable = Vec::new();
    after_fork_parent(srvc_mut(&mut units[0]), 1, 77, &mut t);
    let (stop, plan) = restart_service(1, &mut units, &mut t);
    assert_eq!(stop, Some(vec!["/bin/halt".to_owned()]));
    assert_eq!(plan.unwrap().argv, vec!["/bin/a".to_owned(), "x".to_owned()]);
    assert_eq!(srvc(&units[0]).status, ServiceStatus::Starting);
    assert_eq!(srvc(&units[0]).pid, None);
    assert_eq!(pid_table_get(&t, 77), None);
}

#[test]
fn exit_of_kept_alive_service_restarts_it() {
    let mut units = vec![service_unit(1, "[Service]\nExecStart = /bin/a\nKeep_Alive = TRUE\n", "/p/a.service")];
    let mut t: PidTable = Vec::new();
    after_fork_parent(srvc_mut(&mut units[0]), 1, 50, &mut t);
    match service_exit_handler(50, &mut units, &mut t) {
        ExitOutcome::Restart(id) => assert_eq!(id, 1),
        _ => panic!("should restart"),
    }
    assert_eq!(srvc(&units[0]).status, ServiceStatus::Stopped);
    assert_eq!(pid_table_get(&t, 50), None);
}

#[test]
fn exit_of_needed_service_kills_dependents() {
    let mut units = vec![
        service_unit(1, "[Service]\nExecStart = /bin/a\n[Install]\nRequiredBy = b\n", "/p/a.service"),
        service_unit(2, "[Service]\nExecStart = /bin/b\n", "/p/b.service"),
    ];
    rustysd::units::fill_dependencies(&mut units);
    let mut t: PidTable = Vec::new();
    after_fork_parent(srvc_mut(&mut units[0]), 1, 60, &mut t);
    match service_exit_handler(60, &mut units, &mut t) {
        ExitOutcome::KillRequiredBy(ids) => assert_eq!(ids, vec![2]),
        _ => panic!("should kill the services that require it"),
    }
    assert!(matches!(service_exit_handler(999, &mut units, &mut t), ExitOutcome::Ignored));
    pid_table_insert(&mut t, 61, PidEntry::Stop(1));
    assert!(matches!(service_exit_handler(61, &mut units, &mut t), ExitOutcome::Ignored));
    assert_eq!(pid_table_get(&t, 61), None);
}

#[test]
fn exit_without_service_section_just_stops() {
    let mut units = vec![service_unit(3, "[Unit]\n", "/p/c.service")];
    let mut t: PidTable = Vec::new();
    pid_table_insert(&mut t, 70, PidEntry::Service(3));
    assert!(matches!(service_exit_handler(70, &mut units, &mut t), ExitOutcome::Stopped));
    assert_eq!(srvc(&units[0]).status, ServiceStatus::Stopped);
}

#[test]
fn roots_have_no_after() {
    let mut units = vec![
        service_unit(1, "[Unit]\nBefore = b\n", "/p/a.service"),
        service_unit(2, "[Unit]\n", "/p/b.service"),
        service_unit(3, "[Unit]\n", "/p/c.service"),
    ];
    rustysd::units::fill_dependencies(&mut units);
    assert_eq!(root_services(&units), vec![1, 3]);
}

fn sock_conf(path: &str, fd: i32) -> SocketConfig {
    SocketConfig {
        kind: SocketKind::Stream(path.to_owned()),
        specialized: SpecializedSocketConfig::UnixSocket(UnixSocketConfig::Stream(path.to_owned())),
        fd: Some(fd),
    }
}

#[test]
fn file_descriptors_for_a_service() {
    let sockets = vec![
        Socket { name: "web".to_owned(), sockets: vec![sock_conf("/a", 10), sock_conf("/b", 4)], services: vec![], activated: false },
        Socket { name: "ctl".to_owned(), sockets: vec![sock_conf("/c", 3)], services: vec![], activated: false },
    ];
    let plan = fd_passing_plan(&vec!["ctl".to_owned(), "web".to_owned()], &sockets);
    assert_eq!(plan.listen_fds, 3);
    assert_eq!(plan.fd_names, "ctl:web:web");
    assert_eq!(plan.dups, vec![(3, 11), (10, 12), (4, 13), (11, 3), (12, 4), (13, 5)]);
    assert_eq!(plan.scratch, vec![11, 12, 13]);
    assert_eq!(sockets[0].build_name_list(), "web:web");
}

/// What each descriptor refers to after the duplications, where each first referred to
/// itself.
fn after_dups(dups: &[(i32, i32)], upto: i32) -> Vec<i32> {
    let mut table: Vec<i32> = (0..upto).collect();
    for (from, to) in dups {
        table[*to as usize] = table[*from as usize];
    }
    table
}

#[test]
fn sockets_sitting_where_others_go_are_moved_out_of_the_way() {
    let sockets = vec![
        Socket { name: "a".to_owned(), sockets: vec![sock_conf("/a", 4)], services: vec![], activated: false },
        Socket { name: "b".to_owned(), sockets: vec![sock_conf("/b", 3)], services: vec![], activated: false },
    ];
    let names = vec!["a".to_owned(), "b".to_owned()];
    assert!(sockets_passable(&names, &sockets));
    let plan = fd_passing_plan(&names, &sockets);
    assert_eq!(plan.dups, vec![(4, 5), (3, 6), (5, 3), (6, 4)]);
    let table = after_dups(&plan.dups, 7);
    assert_eq!(table[3], 4);
    assert_eq!(table[4], 3);
    assert_eq!(&table[0..3], &[0, 1, 2]);
    let (dups, scratch) = fd_moves(&vec![5, 3, 4]);
    let table = after_dups(&dups, 9);
    assert_eq!(&table[3..6], &[5, 3, 4]);
    assert_eq!(scratch, vec![6, 7, 8]);
    let huge = vec![
        Socket { name: "h".to_owned(), sockets: vec![sock_conf("/h", i32::MAX)], services: vec![], activated: false },
    ];
    assert!(!sockets_passable(&vec!["h".to_owned()], &huge));
}

#[test]
fn notifications_update_the_service() {
    let mut u = service_unit(1, "[Service]\nExecStart = /bin/a\n", "/p/a.service");
    let name = "a".to_owned();
    handle_notification_message(&"STATUS=booting=1".to_owned(), srvc_mut(&mut u), &name);
    handle_notification_message(&"WATCHDOG=1".to_owned(), srvc_mut(&mut u), &name);
    assert_eq!(srvc(&u).status_msgs, vec!["booting".to_owned()]);
    assert!(!srvc(&u).signaled_ready);
    handle_notification_message(&"READY=1".to_owned(), srvc_mut(&mut u), &name);
    assert!(srvc(&u).signaled_ready);
}

#[test]
fn notification_buffer_keeps_partial_line() {
    let mut u = service_unit(1, "[Service]\nExecStart = /bin/a\n", "/p/a.service");
    srvc_mut(&mut u).notifications_buffer = "STATUS=one\nREADY=1\nSTATUS=tw".to_owned();
    handle_notifications_from_buffer(srvc_mut(&mut u), &"a".to_owned());
    assert_eq!(srvc(&u).status_msgs, vec!["one".to_owned()]);
    assert!(srvc(&u).signaled_ready);
    assert_eq!(srvc(&u).notifications_buffer, "STATUS=tw");
}

#[test]
fn notification_socket_is_named_after_the_service() {
    assert_eq!(notification_socket_path(&"./notifications".to_owned(), &"web".to_owned()), "./notifications/web.notifiy_socket");
    assert_eq!(notification_socket_path(&"/run/rsd/".to_owned(), &"db".to_owned()), "/run/rsd/db.notifiy_socket");
}

#[test]
fn program_arguments_skip_empty_words() {
    let argv = split_command(&"/bin/prog  a b ".to_owned());
    let (program, args) = rustysd::services::program_and_args(&argv);
    assert_eq!(program, "/bin/prog");
    assert_eq!(args, vec!["a".to_owned(), "b".to_owned()]);
}

#[test]
fn exit_of_needed_service_kills_what_requires_it_through_others() {
    let mut units = vec![
        service_unit(1, "[Service]\nExecStart = /bin/a\n[Install]\nRequiredBy = b\n", "/p/a.service"),
        service_unit(2, "[Service]\nExecStart = /bin/b\n[Install]\nRequiredBy = c\n", "/p/b.service"),
        service_unit(3, "[Service]\nExecStart = /bin/c\n", "/p/c.service"),
    ];
    rustysd::units::fill_dependencies(&mut units);
    let mut t: PidTable = Vec::new();
    after_fork_parent(srvc_mut(&mut units[0]), 1, 60, &mut t);
    match service_exit_handler(60, &mut units, &mut t) {
        ExitOutcome::KillRequiredBy(ids) => assert_eq!(ids, vec![2, 3]),
        _ => panic!("should kill the units that require it"),
    }
}

#[test]
fn killing_several_is_killing_each_in_turn() {
    let make = || {
        let mut units = vec![
            service_unit(1, "[Service]\nExecStart = /bin/a\nExecStop = /bin/sa\n", "/p/a.service"),
            service_unit(2, "[Service]\nExecStart = /bin/b\nExecStop = /bin/sb\n", "/p/b.service"),
            service_unit(3, "[Service]\nExecStart = /bin/c\n", "/p/c.service"),
        ];
        let mut t: PidTable = Vec::new();
        after_fork_parent(srvc_mut(&mut units[0]), 1, 10, &mut t);
        after_fork_parent(srvc_mut(&mut units[1]), 2, 20, &mut t);
        after_fork_parent(srvc_mut(&mut units[2]), 3, 30, &mut t);
        (units, t)
    };
    let (mut all, mut t_all) = make();
    let cmds = kill_services(&vec![2, 1, 2], &mut all, &mut t_all);
    let (mut each, mut t_each) = make();
    let mut cmds_each = Vec::new();
    for id in [2, 1, 2] {
        if let Some(w) = kill_service(id, &mut each, &mut t_each) {
            cmds_each.push(w);
        }
    }
    assert_eq!(cmds, cmds_each);
    for k in 0..3 {
        assert_eq!(srvc(&all[k]).status, srvc(&each[k]).status);
        assert_eq!(srvc(&all[k]).pid, srvc(&each[k]).pid);
        assert_eq!(srvc(&all[k]).process_group, srvc(&each[k]).process_group);
    }
    assert_eq!(srvc(&all[2]).pid, Some(30));
    assert_eq!(t_all, t_each);
}
