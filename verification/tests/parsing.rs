use rustysd::net::{parse_socket_address, SocketAddress};
use rustysd::services::{program_and_args, split_command};
use rustysd::sockets::{SocketKind, SpecializedSocketConfig, UnixSocketConfig};
use rustysd::unit_parser::{
    parse_file, parse_line, parse_section, parse_service, parse_service_section, parse_socket,
    parse_socket_section, parse_unix_addr, string_to_bool, values_of, ParsedFile, ParsedSection,
};
use rustysd::units::{NotifyKind, ServiceType, UnitSpecialized};

fn chars(s: &str) -> Vec<char> {
    s.chars().collect()
}

fn lines(s: &str) -> Vec<String> {
    s.split('\n').map(|l| l.to_owned()).collect()
}

fn section<'a>(file: &'a ParsedFile, name: &str) -> &'a ParsedSection {
    &file.sections.iter().find(|s| s.name == name).unwrap().section
}

const SERVICE_FILE: &str = "[Unit]
Description = This is a description
Before = unit_before2, unit_before1
After = unit_after1
After = unit_after2,unit_after3

[Service]
ExecStart = /path/to/startbin arg1 arg2 arg3
ExecStop = /path/to/stopbin arg1 arg2 arg3
Type = notify
NotifyAccess = all
Keep_Alive = true
Sockets = socket_name1,socket_name2

[Install]
RequiredBy = install_req_by
WantedBy = install_wanted_by
";

#[test]
fn ipv4_socket_address() {
    match parse_socket_address(&chars("127.0.0.1:8080")) {
        Some(SocketAddress::V4 { octets, port }) => {
            assert_eq!(octets, vec![127, 0, 0, 1]);
            assert_eq!(port, 8080);
        }
        _ => panic!("not an IPv4 address"),
    }
}

#[test]
fn ipv6_socket_address() {
    match parse_socket_address(&chars("[fe81::]:8080")) {
        Some(SocketAddress::V6 { segments, scope_id, port }) => {
            assert_eq!(segments, vec![0xfe81, 0, 0, 0, 0, 0, 0, 0]);
            assert_eq!(scope_id, 0);
            assert_eq!(port, 8080);
        }
        _ => panic!("not an IPv6 address"),
    }
    match parse_socket_address(&chars("[1:2:3:4:5:6:7:8%42]:22")) {
        Some(SocketAddress::V6 { segments, scope_id, port }) => {
            assert_eq!(segments, vec![1, 2, 3, 4, 5, 6, 7, 8]);
            assert_eq!(scope_id, 42);
            assert_eq!(port, 22);
        }
        _ => panic!("not an IPv6 address"),
    }
    match parse_socket_address(&chars("[::ffff:1]:1")) {
        Some(SocketAddress::V6 { segments, .. }) => {
            assert_eq!(segments, vec![0, 0, 0, 0, 0, 0, 0xffff, 1]);
        }
        _ => panic!("not an IPv6 address"),
    }
}

#[test]
fn invalid_socket_addresses() {
    for bad in [
        "1.2.3.256:80",
        "01.2.3.4:80",
        "1.2.3.4:65536",
        "1.2.3.4",
        "1.2.3:80",
        "[1::2::3]:80",
        "[1:2:3:4:5:6:7]:80",
        "[1:2:3:4:5:6:7:8]",
        "[12345::]:80",
        "localhost:80",
        "",
        "[1.2.3.4::]:80",
        "[::1.2.3]:80",
        "[1:2:3:4:5:6:7:1.2.3.4]:80",
        "[1:2:3:4:5:1.2.3.4]:80",
        "[::1.2.3.4:5]:80",
    ] {
        assert!(parse_socket_address(&chars(bad)).is_none(), "{} should not parse", bad);
    }
}

#[test]
fn section_lines() {
    let (k, v) = parse_line(&"  After = a, b,c ".to_owned()).unwrap();
    assert_eq!(k, "AFTER");
    assert_eq!(v, vec!["a".to_owned(), " b".to_owned(), "c".to_owned()]);
    assert!(parse_line(&"# ExecStart = x".to_owned()).is_none());
    assert!(parse_line(&"no key value".to_owned()).is_none());
    let (k, v) = parse_line(&"ExecStart==x=y".to_owned()).unwrap();
    assert_eq!(k, "EXECSTART");
    assert_eq!(v, vec!["x=y".to_owned()]);
}

#[test]
fn section_entries_are_numbered_in_order() {
    let sec = parse_section(&lines("A = 1\nB = 2,3\nA = 4\n#A = 5\n"));
    assert_eq!(sec.items.len(), 2);
    assert_eq!(sec.items[0].key, "A");
    let a: Vec<(u32, String)> = sec.items[0].entries.iter().map(|e| (e.number, e.value.clone())).collect();
    assert_eq!(a, vec![(0, "1".to_owned()), (3, "4".to_owned())]);
    let b: Vec<(u32, String)> = sec.items[1].entries.iter().map(|e| (e.number, e.value.clone())).collect();
    assert_eq!(b, vec![(1, "2".to_owned()), (2, "3".to_owned())]);
}

#[test]
fn file_sections() {
    let file = parse_file("junk before\n[Unit]\nAfter = x\n[Service]\nExecStart = /bin/true\n[Unit]\nBefore = y");
    assert_eq!(file.sections.len(), 2);
    assert_eq!(file.sections[0].name, "[Unit]");
    assert_eq!(file.sections[1].name, "[Service]");
    let unit = section(&file, "[Unit]");
    assert_eq!(values_of(unit, "BEFORE"), vec!["y".to_owned()]);
    assert!(values_of(unit, "AFTER").is_empty());
}

#[test]
fn service_section_settings() {
    let file = parse_file(SERVICE_FILE);
    let conf = parse_service_section(section(&file, "[Service]"));
    assert_eq!(conf.exec_cmd, "/path/to/startbin arg1 arg2 arg3");
    assert_eq!(conf.stop, "/path/to/stopbin arg1 arg2 arg3");
    assert!(conf.srcv_type == ServiceType::Notify);
    assert!(conf.notifyaccess == NotifyKind::All);
    assert!(!conf.keep_alive);
    assert!(!conf.accept);
    assert_eq!(conf.sockets, vec!["socket_name1".to_owned(), "socket_name2".to_owned()]);
}

#[test]
fn service_section_defaults() {
    let file = parse_file("[Service]\n");
    let conf = parse_service_section(section(&file, "[Service]"));
    assert_eq!(conf.exec_cmd, "");
    assert_eq!(conf.stop, "");
    assert!(conf.srcv_type == ServiceType::Simple);
    assert!(conf.notifyaccess == NotifyKind::Main);
    assert!(!conf.keep_alive);
    let file = parse_file("[Service]\nKeep_Alive = YES\nAccept = 0\nNotifyAccess = none");
    let conf = parse_service_section(section(&file, "[Service]"));
    assert!(conf.keep_alive);
    assert!(conf.accept);
    assert!(conf.notifyaccess == NotifyKind::NoAccess);
}

#[test]
fn yes_no_values() {
    assert!(string_to_bool(&"YES".to_owned()));
    assert!(string_to_bool(&"TRUE".to_owned()));
    assert!(string_to_bool(&"0".to_owned()));
    assert!(!string_to_bool(&"true".to_owned()));
    assert!(!string_to_bool(&"1".to_owned()));
    assert!(!string_to_bool(&"no".to_owned()));
}

#[test]
fn unix_addresses() {
    assert_eq!(parse_unix_addr(&"/path/to/socket".to_owned()), Ok("/path/to/socket".to_owned()));
    assert_eq!(parse_unix_addr(&"./rel.socket".to_owned()), Ok("./rel.socket".to_owned()));
    assert_eq!(parse_unix_addr(&"rel.socket".to_owned()), Err(()));
    assert_eq!(parse_unix_addr(&"127.0.0.1:80".to_owned()), Err(()));
}

#[test]
fn whole_service_file() {
    let file = parse_file(SERVICE_FILE);
    let unit = parse_service(&file, &"/path/to/unitfile.service".to_owned(), 10);
    assert_eq!(unit.id, 10);
    assert_eq!(unit.conf.name(), "unitfile");
    assert_eq!(unit.conf.before, vec!["unit_before2".to_owned(), " unit_before1".to_owned()]);
    assert_eq!(unit.conf.after, vec!["unit_after1".to_owned(), "unit_after2".to_owned(), "unit_after3".to_owned()]);
    let install = unit.install.install_config.as_ref().expect("No install config found, but there should be one");
    assert_eq!(install.required_by, vec!["install_req_by".to_owned()]);
    assert_eq!(install.wanted_by, vec!["install_wanted_by".to_owned()]);
    assert!(unit.install.wants.is_empty() && unit.install.before.is_empty());
    match &unit.specialized {
        UnitSpecialized::Service(srvc) => {
            assert!(srvc.pid.is_none());
            assert_eq!(srvc.service_config.as_ref().unwrap().exec_cmd, "/path/to/startbin arg1 arg2 arg3");
        }
        _ => panic!("Not a service, but it should be"),
    }
}

const SOCKET_FILE: &str = "[Unit]
Description = This is a description
After = unit_after1

[Socket]
ListenStream = 127.0.0.1:8080
ListenStream = [fe81::]:8080
ListenStream = /path/to/socket
ListenDatagram = 127.0.0.1:8080
ListenDatagram = [fe81::]:8080
ListenDatagram = /path/to/socket
ListenSequentialPacket = /path/to/socket
FileDescriptorName = SocketyMcSockface
Service = other_name
";

#[test]
fn socket_file_in_order() {
    let file = parse_file(SOCKET_FILE);
    let unit = parse_socket(&file, &"/path/to/unitfile.socket".to_owned(), 3).unwrap();
    assert_eq!(unit.conf.name(), "unitfile");
    let sock = match &unit.specialized {
        UnitSpecialized::Socket(s) => s,
        _ => panic!("Not a socket"),
    };
    assert_eq!(sock.name, "SocketyMcSockface");
    assert_eq!(sock.services, vec!["other_name".to_owned()]);
    assert_eq!(sock.sockets.len(), 7, "Not enough sockets parsed");
    match &sock.sockets[0].specialized {
        SpecializedSocketConfig::TcpSocket(t) => match &t.addr {
            SocketAddress::V4 { octets, port } => {
                assert_eq!(octets, &vec![127u8, 0, 0, 1]);
                assert_eq!(*port, 8080);
            }
            _ => panic!("Should have been an ipv4 address but wasnt"),
        },
        _ => panic!("Sockets[0] should have been a tcp socket, but wasnt"),
    }
    match &sock.sockets[1].specialized {
        SpecializedSocketConfig::TcpSocket(t) => assert!(matches!(t.addr, SocketAddress::V6 { .. })),
        _ => panic!("Sockets[1] should have been a tcp socket, but wasnt"),
    }
    assert!(matches!(&sock.sockets[2].specialized, SpecializedSocketConfig::UnixSocket(UnixSocketConfig::Stream(p)) if p == "/path/to/socket"));
    assert!(matches!(&sock.sockets[3].specialized, SpecializedSocketConfig::UdpSocket(_)));
    assert!(matches!(&sock.sockets[4].specialized, SpecializedSocketConfig::UdpSocket(_)));
    assert!(matches!(&sock.sockets[5].specialized, SpecializedSocketConfig::UnixSocket(UnixSocketConfig::Datagram(_))));
    assert!(matches!(&sock.sockets[6].specialized, SpecializedSocketConfig::UnixSocket(UnixSocketConfig::Sequential(_))));
    assert!(matches!(&sock.sockets[0].kind, SocketKind::Stream(a) if a == "127.0.0.1:8080"));
    assert!(sock.sockets.iter().all(|c| c.fd.is_none()));
    assert!(!sock.activated);
}

#[test]
fn socket_section_errors() {
    let file = parse_file("[Socket]\nListenStream = /ok\nListenSequentialPacket = 127.0.0.1:80\nListenDatagram = nowhere");
    match parse_socket_section(section(&file, "[Socket]")) {
        Err(e) => assert_eq!(e, "No specialized config for socket found for socket addr: 127.0.0.1:80"),
        Ok(_) => panic!("should fail"),
    }
    let file = parse_file("[Socket]\nListenStream = /ok\n");
    let (name, services, configs) = parse_socket_section(section(&file, "[Socket]")).unwrap();
    assert_eq!(name, "unknown");
    assert!(services.is_empty());
    assert_eq!(configs.len(), 1);
}

#[test]
fn socket_file_missing_sections() {
    let file = parse_file("[Unit]\nAfter = x\n");
    assert_eq!(
        parse_socket(&file, &"/a/b.socket".to_owned(), 1).err().unwrap(),
        "Didnt find socket config in file: \"/a/b.socket\""
    );
    let file = parse_file("[Socket]\nListenStream = /ok\n");
    assert_eq!(
        parse_socket(&file, &"/a/b.socket".to_owned(), 1).err().unwrap(),
        "Didn't find a unit config for file: \"/a/b.socket\""
    );
    let file = parse_file("[Socket]\nListenStream = bad\n[Unit]\n");
    assert_eq!(
        parse_socket(&file, &"/a/b.socket".to_owned(), 1).err().unwrap(),
        "Error in file: \"/a/b.socket\" :: No specialized config for socket found for socket addr: bad"
    );
    let file = parse_file("[Unit]\n");
    assert_eq!(
        parse_socket(&file, &"/a/we\"ird.socket".to_owned(), 1).err().unwrap(),
        "Didnt find socket config in file: \"/a/we\\\"ird.socket\""
    );
}

#[test]
fn ipv6_socket_address_ending_in_ipv4() {
    match parse_socket_address(&chars("[::ffff:1.2.3.4]:80")) {
        Some(SocketAddress::V6 { segments, port, .. }) => {
            assert_eq!(segments, vec![0, 0, 0, 0, 0, 0xffff, 0x0102, 0x0304]);
            assert_eq!(port, 80);
        }
        _ => panic!("not an IPv6 address"),
    }
    match parse_socket_address(&chars("[1:2:3:4:5:6:255.0.0.10]:1")) {
        Some(SocketAddress::V6 { segments, .. }) => {
            assert_eq!(segments, vec![1, 2, 3, 4, 5, 6, 0xff00, 0x000a]);
        }
        _ => panic!("not an IPv6 address"),
    }
    match parse_socket_address(&chars("[1:2:3:4:5:6:7::]:1")) {
        Some(SocketAddress::V6 { segments, .. }) => {
            assert_eq!(segments, vec![1, 2, 3, 4, 5, 6, 7, 0]);
        }
        _ => panic!("not an IPv6 address"),
    }
}

/// The program and its arguments of a command line.
fn command(line: &str) -> (String, Vec<String>) {
    program_and_args(&split_command(&line.to_owned()))
}

#[test]
fn test_service_parsing() {
    let descr = "This is a description";
    let unit_before1 = "unit_before2";
    let unit_before2 = "unit_before1";
    let unit_after1 = "unit_after1";
    let unit_after2 = "unit_after2,unit_after3";

    let install_required_by = "install_req_by";
    let install_wanted_by = "install_wanted_by";

    let service_execstart = "/path/to/startbin arg1 arg2 arg3";
    let service_execpre = "--/path/to/startprebin arg1 arg2 arg3";
    let service_execpost = "/path/to/startpostbin arg1 arg2 arg3";
    let service_stop = "/path/to/stopbin arg1 arg2 arg3";
    let service_sockets = "socket_name1,socket_name2";

    let test_service_str = format!(
        r#"
    [Unit]
    Description = {}
    Before = {}
    Before = {}
    After = {}
    After = {}
    
    [Install]
    RequiredBy = {}
    WantedBy = {}
    
    [Service]
    ExecStart = {}
    ExecStartPre = {}
    ExecStartPost = {}
    ExecStop = {}
    Sockets = {}

    "#,
        descr,
        unit_before1,
        unit_before2,
        unit_after1,
        unit_after2,
        install_required_by,
        install_wanted_by,
        service_execstart,
        service_execpre,
        service_execpost,
        service_stop,
        service_sockets,
    );

    let parsed_file = parse_file(&test_service_str);
    let service = parse_service(&parsed_file, &"/path/to/unitfile.service".to_owned(), 10);

    assert_eq!(service.conf.before, vec![unit_before1.to_owned(), unit_before2.to_owned()]);
    assert_eq!(
        service.conf.after,
        vec![unit_after1.to_owned(), "unit_after2".to_owned(), "unit_after3".to_owned()]
    );

    if let Some(conf) = service.install.install_config {
        assert_eq!(conf.required_by, vec![install_required_by.to_owned()]);
        assert_eq!(conf.wanted_by, vec![install_wanted_by.to_owned()]);
    } else {
        panic!("No install config found, but there should be one");
    }
    if let UnitSpecialized::Service(srvc) = service.specialized {
        let conf = srvc.service_config.unwrap();
        assert_eq!(
            command(&conf.exec_cmd),
            ("/path/to/startbin".to_owned(), vec!["arg1".to_owned(), "arg2".to_owned(), "arg3".to_owned()])
        );
        assert_eq!(
            command(&conf.stop),
            ("/path/to/stopbin".to_owned(), vec!["arg1".to_owned(), "arg2".to_owned(), "arg3".to_owned()])
        );
        assert_eq!(conf.sockets, vec!["socket_name1".to_owned(), "socket_name2".to_owned()]);
    } else {
        panic!("Not a service, but it should be");
    }
}

#[test]
fn test_socket_parsing() {
    let descr = "This is a description";
    let unit_before1 = "unit_before2";
    let unit_before2 = "unit_before1";
    let unit_after1 = "unit_after1";
    let unit_after2 = "unit_after2,unit_after3";

    let install_required_by = "install_req_by";
    let install_wanted_by = "install_wanted_by";

    let socket_fdname = "SocketyMcSockface";
    let socket_ipv4 = "127.0.0.1:8080";
    let socket_ipv6 = "[fe81::]:8080";
    let socket_unix = "/path/to/socket";
    let socket_service = "other_name";

    let test_service_str = format!(
        r#"
    [Unit]
    Description = {}
    Before = {}
    Before = {}
    After = {}
    After = {}
    
    [Install]
    RequiredBy = {}
    WantedBy = {}
    
    [Socket]
    ListenStream = {}
    ListenStream = {}
    ListenStream = {}

    ListenDatagram = {}
    ListenDatagram = {}
    ListenDatagram = {}

    ListenSequentialPacket = {}
    ListenFifo = {}
    Service= {}
    FileDescriptorName= {}

    "#,
        descr,
        unit_before1,
        unit_before2,
        unit_after1,
        unit_after2,
        install_required_by,
        install_wanted_by,
        socket_ipv4,
        socket_ipv6,
        socket_unix,
        socket_ipv4,
        socket_ipv6,
        socket_unix,
        socket_unix,
        socket_unix,
        socket_service,
        socket_fdname,
    );

    let parsed_file = parse_file(&test_service_str);
    let socket_unit = parse_socket(&parsed_file, &"/path/to/unitfile.socket".to_owned(), 10).unwrap();

    assert_eq!(socket_unit.conf.before, vec![unit_before1.to_owned(), unit_before2.to_owned()]);
    assert_eq!(
        socket_unit.conf.after,
        vec![unit_after1.to_owned(), "unit_after2".to_owned(), "unit_after3".to_owned()]
    );

    if let Some(conf) = socket_unit.install.install_config {
        assert_eq!(conf.required_by, vec![install_required_by.to_owned()]);
        assert_eq!(conf.wanted_by, vec![install_wanted_by.to_owned()]);
    } else {
        panic!("No install config found, but there should be one");
    }
    if let UnitSpecialized::Socket(sock) = socket_unit.specialized {
        if sock.sockets.len() == 8 {
            // streaming sockets
            if let SpecializedSocketConfig::TcpSocket(tcpconf) = &sock.sockets[0].specialized {
                if !matches!(tcpconf.addr, SocketAddress::V4 { .. }) {
                    panic!("Should have been an ipv4 address but wasnt");
                }
            } else {
                panic!("Sockets[0] should have been a tcp socket, but wasnt");
            }
            if let SpecializedSocketConfig::TcpSocket(tcpconf) = &sock.sockets[1].specialized {
                if !matches!(tcpconf.addr, SocketAddress::V6 { .. }) {
                    panic!("Should have been an ipv6 address but wasnt");
                }
            } else {
                panic!("Sockets[1] should have been a tcp socket, but wasnt");
            }
            if let SpecializedSocketConfig::UnixSocket(UnixSocketConfig::Stream(addr)) = &sock.sockets[2].specialized {
                assert_eq!(addr, socket_unix);
            } else {
                panic!("Sockets[2] should have been a streaming unix socket, but wasnt");
            }

            // Datagram sockets
            if let SpecializedSocketConfig::UdpSocket(tcpconf) = &sock.sockets[3].specialized {
                if !matches!(tcpconf.addr, SocketAddress::V4 { .. }) {
                    panic!("Should have been an ipv4 address but wasnt");
                }
            } else {
                panic!("Sockets[3] should have been a udp socket, but wasnt");
            }
            if let SpecializedSocketConfig::UdpSocket(tcpconf) = &sock.sockets[4].specialized {
                if !matches!(tcpconf.addr, SocketAddress::V6 { .. }) {
                    panic!("Should have been an ipv6 address but wasnt");
                }
            } else {
                panic!("Sockets[4] should have been a udp socket, but wasnt");
            }
            if let SpecializedSocketConfig::UnixSocket(UnixSocketConfig::Datagram(addr)) = &sock.sockets[5].specialized {
                assert_eq!(addr, socket_unix);
            } else {
                panic!("Sockets[5] should have been a datagram unix socket, but wasnt");
            }

            // SeqPacket socket
            if let SpecializedSocketConfig::UnixSocket(UnixSocketConfig::Sequential(addr)) = &sock.sockets[6].specialized {
                assert_eq!(addr, socket_unix);
            } else {
                panic!("Sockets[6] should have been a sequential packet unix socket, but wasnt");
            }
            // Fifo
            if let SpecializedSocketConfig::Fifo(fifoconf) = &sock.sockets[7].specialized {
                assert_eq!(fifoconf.path, socket_unix);
            } else {
                panic!("Sockets[6] should have been a sequential packet unix socket, but wasnt");
            }
        } else {
            panic!("Not enough sockets parsed");
        }
    } else {
        panic!("Not a service, but it should be");
    }
}
