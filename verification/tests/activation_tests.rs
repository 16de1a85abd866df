use rustysd::service_manager::{find_shell_path, shell_candidates};
use rustysd::services::ServiceStatus;
use rustysd::socket_activation::{
    activate_socket, activated_sockets, find_service_for_socket, sockets_to_watch,
};
use rustysd::sockets::Socket;
use rustysd::unit_parser::{parse_file, parse_service};
use rustysd::units::{Install, Unit, UnitConfig, UnitSpecialized};

fn service_unit(id: u64, path: &str, sockets: &[&str]) -> Unit {
    let file = parse_file("[Service]\nExecStart = /bin/a\n");
    let mut u = parse_service(&file, &path.to_owned(), id);
    if let UnitSpecialized::Service(s) = &mut u.specialized {
        s.socket_names = sockets.iter().map(|x| x.to_string()).collect();
    }
    u
}

fn socket_unit(id: u64, path: &str, name: &str) -> Unit {
    Unit {
        id,
        conf: UnitConfig { filepath: path.to_owned(), wants: vec![], requires: vec![], before: vec![], after: vec![] },
        specialized: UnitSpecialized::Socket(Socket { name: name.to_owned(), sockets: vec![], services: vec![], activated: false }),
        install: Install { wants: vec![], requires: vec![], wanted_by: vec![], required_by: vec![], before: vec![], after: vec![], install_config: None },
    }
}

fn table() -> Vec<Unit> {
    vec![
        socket_unit(0, "/u/web.socket", "web"),
        service_unit(1, "/u/other.service", &["ctl"]),
        service_unit(2, "/u/web.service", &["web"]),
        socket_unit(3, "/u/ctl.socket", "ctl"),
        service_unit(4, "/u/web2.service", &["web"]),
    ]
}

fn is_activated(u: &Unit) -> bool {
    match &u.specialized {
        UnitSpecialized::Socket(s) => s.activated,
        _ => panic!("not a socket unit"),
    }
}

#[test]
fn waiting_sockets_are_watched() {
    let units = table();
    let fd_ids = vec![(5, 0), (6, 0), (7, 3), (8, 1)];
    assert_eq!(sockets_to_watch(&fd_ids, &units), vec![5, 6, 7]);
}

#[test]
fn ready_descriptors_name_their_sockets() {
    let fd_ids = vec![(5, 0), (6, 0), (7, 3)];
    assert_eq!(activated_sockets(&fd_ids, &vec![7, 6], false), vec![0, 3]);
    assert_eq!(activated_sockets(&fd_ids, &vec![7, 6], true), Vec::<u64>::new());
    assert_eq!(activated_sockets(&fd_ids, &vec![], false), Vec::<u64>::new());
}

#[test]
fn first_service_with_the_socket_is_found() {
    let units = table();
    assert_eq!(find_service_for_socket(&units, &"web".to_owned()), Some(2));
    assert_eq!(find_service_for_socket(&units, &"ctl".to_owned()), Some(1));
    assert_eq!(find_service_for_socket(&units, &"none".to_owned()), None);
}

#[test]
fn activity_starts_the_service_once() {
    let mut units = table();
    let fd_ids = vec![(5, 0), (7, 3)];
    assert_eq!(activate_socket(&mut units, 0), Some(2));
    assert!(is_activated(&units[0]));
    assert!(!is_activated(&units[3]));
    assert_eq!(sockets_to_watch(&fd_ids, &units), vec![7]);
    assert_eq!(activate_socket(&mut units, 0), Some(2));
    if let UnitSpecialized::Service(s) = &mut units[2].specialized {
        s.status = ServiceStatus::Running;
    }
    assert_eq!(activate_socket(&mut units, 0), None);
    assert_eq!(activate_socket(&mut units, 2), None);
    assert_eq!(activate_socket(&mut units, 3), Some(1));
    assert_eq!(sockets_to_watch(&fd_ids, &units), Vec::<i32>::new());
}

#[test]
fn emergency_shell_is_the_first_that_exists() {
    assert_eq!(shell_candidates(), vec!["/bin/sh".to_owned(), "/sbin/sh".to_owned(), "/usr/bin/sh".to_owned()]);
    assert_eq!(find_shell_path(&vec![false, true, true]), Some("/sbin/sh".to_owned()));
    assert_eq!(find_shell_path(&vec![true, true, true]), Some("/bin/sh".to_owned()));
    assert_eq!(find_shell_path(&vec![false, false, false]), None);
}
