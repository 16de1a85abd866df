use rustysd::notification_handler::buffer_notes_ok;
use rustysd::services::{fds_to_close, known_socket_names, pid_table_consistent, pid_table_insert, sockets_passable, PidTable};
use rustysd::shutdown::{before_ids_are_known, has_unit_id};
use rustysd::sockets::{Socket, SocketConfig, SocketKind, SpecializedSocketConfig, UnixSocketConfig};
use rustysd::unit_parser::{
    parse_file, parse_service, parse_unit_file, service_file_accepted, socket_file_accepted,
};
use rustysd::units::{
    fill_dependencies, first_unknown_name, path_has_file_name, table_is_wf, PidEntry, Unit,
    UnitSpecialized,
};

fn service_unit(id: u64, text: &str, path: &str) -> Unit {
    parse_service(&parse_file(text), &path.to_owned(), id)
}

fn accepted_service(text: &str) -> bool {
    service_file_accepted(&parse_unit_file(text).unwrap())
}

fn accepted_socket(text: &str) -> bool {
    socket_file_accepted(&parse_unit_file(text).unwrap())
}

#[test]
fn unit_text_needs_a_section() {
    assert!(parse_unit_file("ExecStart = /bin/a\n").is_none());
    assert!(parse_unit_file("").is_none());
    let f = parse_unit_file("# comment\n[Service]\nExecStart = /bin/a\n").unwrap();
    assert_eq!(f.sections.len(), 1);
    assert_eq!(f.sections[0].name, "[Service]");
}

#[test]
fn service_files_the_parser_accepts() {
    assert!(accepted_service("[Unit]\nWants = b\n[Install]\nWantedBy = c\n[Service]\nType = notify\nNotifyAccess = all\nExecStart = /bin/a\n"));
    assert!(accepted_service("[Service]\n"));
    assert!(!accepted_service("[Service]\nExecStart = /bin/a\nExecStart = /bin/b\n"));
    assert!(!accepted_service("[Service]\nExecStart = /bin/a,/bin/b\n"));
    assert!(!accepted_service("[Service]\nType = forking\n"));
    assert!(!accepted_service("[Service]\nNotifyAccess = some\n"));
    assert!(!accepted_service("[Service]\nKeep_Alive =\n"));
    assert!(!accepted_service("[Socket]\nListenStream = /a\n"));
}

#[test]
fn socket_files_the_parser_accepts() {
    assert!(accepted_socket("[Socket]\nListenStream = /run/a\nService = a.service\nFileDescriptorName = a\n"));
    assert!(accepted_socket("[Unit]\n[Socket]\nListenDatagram = 127.0.0.1:8080\n"));
    assert!(!accepted_socket("[Socket]\nListenStream = /run/a\nBacklog = 5\n"));
    assert!(!accepted_socket("[Service]\nExecStart = /bin/a\n"));
}

#[test]
fn listed_names_must_be_units() {
    let units = vec![
        service_unit(1, "[Unit]\nWants = b\n", "/u/a.service"),
        service_unit(2, "[Unit]\nAfter = c\n", "/u/b.service"),
    ];
    assert_eq!(first_unknown_name(&units), Some("c".to_owned()));
    let mut units = vec![
        service_unit(1, "[Unit]\nWants = b\n", "/u/a.service"),
        service_unit(2, "[Install]\nRequiredBy = a\n", "/u/b.service"),
    ];
    assert_eq!(first_unknown_name(&units), None);
    fill_dependencies(&mut units);
    assert!(before_ids_are_known(&units));
}

#[test]
fn unit_tables_need_distinct_ids_and_file_names() {
    assert!(path_has_file_name(&"/u/a.service".to_owned()));
    assert!(path_has_file_name(&"a/.".to_owned()));
    assert!(!path_has_file_name(&"/u/..".to_owned()));
    assert!(!path_has_file_name(&"/".to_owned()));
    let ok = vec![service_unit(1, "[Unit]\n", "/u/a.service"), service_unit(2, "[Unit]\n", "/u/b.service")];
    assert!(table_is_wf(&ok));
    assert!(has_unit_id(&ok, 2));
    assert!(!has_unit_id(&ok, 3));
    let twice = vec![service_unit(1, "[Unit]\n", "/u/a.service"), service_unit(1, "[Unit]\n", "/u/b.service")];
    assert!(!table_is_wf(&twice));
    let nameless = vec![service_unit(1, "[Unit]\n", "/")];
    assert!(!table_is_wf(&nameless));
}

#[test]
fn before_lists_must_name_units() {
    let mut u = service_unit(1, "[Unit]\n", "/u/a.service");
    assert!(before_ids_are_known(&vec![service_unit(1, "[Unit]\n", "/u/a.service")]));
    u.install.before.push(9);
    assert!(!before_ids_are_known(&vec![u]));
}

#[test]
fn pid_tables_must_name_units() {
    let units = vec![service_unit(1, "[Unit]\n", "/u/a.service")];
    let mut t: PidTable = Vec::new();
    pid_table_insert(&mut t, 10, PidEntry::Service(1));
    pid_table_insert(&mut t, 11, PidEntry::Stop(7));
    assert!(pid_table_consistent(&units, &t));
    pid_table_insert(&mut t, 12, PidEntry::Service(5));
    assert!(!pid_table_consistent(&units, &t));
    let doubled: PidTable = vec![(3, PidEntry::Stop(1)), (3, PidEntry::Stop(1))];
    assert!(!pid_table_consistent(&units, &doubled));
}

#[test]
fn status_lines_need_a_value() {
    let mut u = service_unit(1, "[Service]\nExecStart = /bin/a\n", "/u/a.service");
    let s = match &mut u.specialized {
        UnitSpecialized::Service(s) => s,
        _ => panic!("not a service"),
    };
    s.notifications_buffer = "STATUS=x\nREADY=1\nSTATUS".to_owned();
    assert!(buffer_notes_ok(s));
    s.notifications_buffer = "STATUS\nREADY=1\n".to_owned();
    assert!(!buffer_notes_ok(s));
}

fn sock_conf(path: &str, fd: Option<i32>) -> SocketConfig {
    SocketConfig {
        kind: SocketKind::Stream(path.to_owned()),
        specialized: SpecializedSocketConfig::UnixSocket(UnixSocketConfig::Stream(path.to_owned())),
        fd,
    }
}

#[test]
fn sockets_must_be_open_to_be_passed() {
    let sockets = vec![
        Socket { name: "web".to_owned(), sockets: vec![sock_conf("/a", Some(5))], services: vec![], activated: false },
        Socket { name: "closed".to_owned(), sockets: vec![sock_conf("/b", None)], services: vec![], activated: false },
        Socket { name: "empty".to_owned(), sockets: vec![], services: vec![], activated: false },
    ];
    assert!(sockets_passable(&vec!["web".to_owned()], &sockets));
    assert!(sockets_passable(&vec![], &sockets));
    assert!(!sockets_passable(&vec!["web".to_owned(), "closed".to_owned()], &sockets));
    assert!(!sockets_passable(&vec!["empty".to_owned()], &sockets));
    assert!(!sockets_passable(&vec!["missing".to_owned()], &sockets));
    let listed = vec!["missing".to_owned(), "web".to_owned(), "other".to_owned(), "empty".to_owned()];
    assert_eq!(known_socket_names(&listed, &sockets), vec!["web".to_owned(), "empty".to_owned()]);
    let more = vec![
        Socket { name: "web".to_owned(), sockets: vec![sock_conf("/a", Some(5)), sock_conf("/c", Some(6))], services: vec![], activated: false },
        Socket { name: "ctl".to_owned(), sockets: vec![sock_conf("/b", Some(7)), sock_conf("/d", None)], services: vec![], activated: false },
        Socket { name: "log".to_owned(), sockets: vec![sock_conf("/e", Some(9))], services: vec![], activated: false },
    ];
    assert_eq!(fds_to_close(&vec!["web".to_owned()], &more), vec![7, 9]);
    assert_eq!(fds_to_close(&vec!["web".to_owned(), "ctl".to_owned(), "log".to_owned()], &more), Vec::<i32>::new());
}
