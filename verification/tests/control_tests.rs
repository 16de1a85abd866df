use rustysd::control::elapsed_text;
use rustysd::net::SocketAddress;
use rustysd::net_text::socket_address_to_text;
use rustysd::control::{
    command_response, execute_command, find_unit_with_name, parse_command, parse_error_response,
    Command, CommandOutcome, ParseError, UnitIdKind,
};
use rustysd::jsonrpc2::{
    make_error, make_error_response, make_result_response, Call, JsonValue, INVALID_PARAMS_ERROR,
    METHOD_NOT_FOUND_ERROR, SERVER_ERROR,
};
use rustysd::unit_parser::{parse_file, parse_service, parse_socket};
use rustysd::units::Unit;

fn s(x: &str) -> JsonValue {
    JsonValue::Str(x.to_owned())
}

fn obj(members: Vec<(&str, JsonValue)>) -> JsonValue {
    JsonValue::Object(members.into_iter().map(|(k, v)| (k.to_owned(), v)).collect())
}

fn call(method: &str, params: Option<JsonValue>) -> Call {
    Call { method: method.to_owned(), params, id: Some(JsonValue::Number(1)) }
}

fn members(v: &JsonValue) -> Vec<(String, &JsonValue)> {
    match v {
        JsonValue::Object(m) => m.iter().map(|(k, v)| (k.clone(), v)).collect(),
        _ => panic!("not an object"),
    }
}

fn service_unit(id: u64, text: &str, path: &str) -> Unit {
    parse_service(&parse_file(text), &path.to_owned(), id)
}

#[test]
fn call_from_json() {
    let c = Call::from_json(obj(vec![("jsonrpc", s("2.0")), ("method", s("status")), ("id", JsonValue::Number(3))])).unwrap();
    assert_eq!(c.method, "status");
    assert!(c.params.is_none());
    assert!(matches!(c.id, Some(JsonValue::Number(3))));
    assert_eq!(Call::from_json(obj(vec![("params", s("x"))])).err().unwrap(), "No method name given");
    assert_eq!(Call::from_json(obj(vec![("method", JsonValue::Number(1))])).err().unwrap(), "method was not  a string");
    assert_eq!(Call::from_json(s("x")).err().unwrap(), "Value wasn't an object");
    let c = Call::from_json(obj(vec![("method", s("first")), ("method", s("second"))])).unwrap();
    assert_eq!(c.method, "first");
}

#[test]
fn call_json_round_trip() {
    let c = Call { method: "restart".to_owned(), params: Some(s("a.service")), id: Some(JsonValue::Number(9)) };
    let v = c.to_json();
    let m = members(&v);
    let keys: Vec<&str> = m.iter().map(|(k, _)| k.as_str()).collect();
    assert_eq!(keys, vec!["jsonrpc", "method", "params", "id"]);
    let back = Call::from_json(v).unwrap();
    assert_eq!(back.method, "restart");
    assert!(matches!(back.params, Some(JsonValue::Str(ref p)) if p == "a.service"));
    assert!(matches!(back.id, Some(JsonValue::Number(9))));
}

#[test]
fn responses() {
    let r = make_result_response(Some(JsonValue::Number(4)), JsonValue::Array(vec![]));
    let keys: Vec<String> = members(&r).into_iter().map(|(k, _)| k).collect();
    assert_eq!(keys, vec!["jsonrpc", "result", "id"]);
    let e = make_error_response(None, make_error(SERVER_ERROR, "boom".to_owned(), None));
    let m = members(&e);
    assert_eq!(m.len(), 2);
    assert_eq!(m[1].0, "error");
    let inner = members(m[1].1);
    assert!(matches!(inner[0].1, JsonValue::Number(-32000)));
    assert!(matches!(inner[1].1, JsonValue::Str(x) if x == "boom"));
}

#[test]
fn commands_from_calls() {
    assert!(matches!(parse_command(&call("status", None)), Ok(Command::Status(None))));
    assert!(matches!(parse_command(&call("status", Some(s("a")))), Ok(Command::Status(Some(ref n))) if n == "a"));
    assert!(matches!(parse_command(&call("restart", Some(s("a")))), Ok(Command::Restart(ref n)) if n == "a"));
    assert!(matches!(parse_command(&call("stop", Some(s("a")))), Ok(Command::Stop(ref n)) if n == "a"));
    assert!(matches!(parse_command(&call("enable", Some(s("a")))), Ok(Command::LoadNew(ref n)) if n == "a"));
    assert!(matches!(parse_command(&call("shutdown", None)), Ok(Command::Shutdown)));
    assert!(matches!(parse_command(&call("list-units", Some(s("socket")))), Ok(Command::ListUnits(Some(UnitIdKind::Socket)))));
    assert!(matches!(parse_command(&call("list-units", None)), Ok(Command::ListUnits(None))));
}

#[test]
fn command_errors() {
    match parse_command(&call("status", Some(JsonValue::Number(1)))) {
        Err(ParseError::ParamsInvalid(m)) => assert_eq!(m, "Params must be either none or a single string"),
        _ => panic!("expected invalid params"),
    }
    match parse_command(&call("restart", None)) {
        Err(ParseError::ParamsInvalid(m)) => assert_eq!(m, "Params must be a single string"),
        _ => panic!("expected invalid params"),
    }
    match parse_command(&call("list-units", Some(s("mount")))) {
        Err(ParseError::ParamsInvalid(m)) => assert_eq!(m, "Kind not recognized: mount"),
        _ => panic!("expected invalid params"),
    }
    match parse_command(&call("reboot", None)) {
        Err(ParseError::MethodNotFound(m)) => assert_eq!(m, "Unknown method: reboot"),
        _ => panic!("expected unknown method"),
    }
    let r = parse_error_response(Some(JsonValue::Number(2)), ParseError::MethodNotFound("x".to_owned()));
    let m = members(&r);
    let inner = members(m[1].1);
    assert!(matches!(inner[0].1, JsonValue::Number(c) if *c == METHOD_NOT_FOUND_ERROR));
    let r = parse_error_response(None, ParseError::ParamsInvalid("y".to_owned()));
    let inner = members(members(&r)[1].1);
    assert!(matches!(inner[0].1, JsonValue::Number(c) if *c == INVALID_PARAMS_ERROR));
}

#[test]
fn executing_commands() {
    let units = vec![
        service_unit(1, "[Service]\nExecStart = /bin/a\nSockets = s\n", "/u/web.service"),
        service_unit(2, "[Service]\nExecStart = /bin/b\n", "/u/db.service"),
        service_unit(3, "[Service]\nExecStart = /bin/c\n", "/u/dbx.service"),
    ];
    assert_eq!(find_unit_with_name(&"web.service".to_owned(), &units), Some(1));
    assert_eq!(find_unit_with_name(&"dbx.service".to_owned(), &units), None);
    assert!(matches!(execute_command(Command::Restart("web.service".to_owned()), &units, 0), Ok(CommandOutcome::Restart(1))));
    match execute_command(Command::Stop("nothing".to_owned()), &units, 0) {
        Err(e) => assert_eq!(e, "No unit found with name: nothing"),
        _ => panic!("should fail"),
    }
    match execute_command(Command::ListUnits(None), &units, 0) {
        Ok(CommandOutcome::Respond(JsonValue::Array(a))) => {
            let names: Vec<String> = a.iter().map(|v| match v { JsonValue::Str(x) => x.clone(), _ => panic!() }).collect();
            assert_eq!(names, vec!["web", "db", "dbx"]);
        }
        _ => panic!("should list"),
    }
    match execute_command(Command::ListUnits(Some(UnitIdKind::Socket)), &units, 0) {
        Ok(CommandOutcome::Respond(JsonValue::Array(a))) => assert!(a.is_empty()),
        _ => panic!("should list"),
    }
    match execute_command(Command::Status(Some("web.service".to_owned())), &units, 0) {
        Ok(CommandOutcome::Respond(JsonValue::Array(a))) => {
            assert_eq!(a.len(), 1);
            let m = members(&a[0]);
            assert_eq!(m[0].0, "Name");
            assert!(matches!(m[0].1, JsonValue::Str(x) if x == "web"));
            assert_eq!(m[1].0, "Sockets");
            assert_eq!(m[2].0, "Restarted");
            assert!(matches!(m[2].1, JsonValue::Str(x) if x == "0"));
        }
        _ => panic!("should describe"),
    }
    match execute_command(Command::Status(Some("web.mount".to_owned())), &units, 0) {
        Err(e) => assert_eq!(e, "Name suffix not recognized"),
        _ => panic!("should fail"),
    }
    match execute_command(Command::Status(None), &units, 0) {
        Ok(CommandOutcome::Respond(JsonValue::Array(a))) => assert_eq!(a.len(), 3),
        _ => panic!("should describe all"),
    }
    let r = command_response(None, Err("bad".to_owned()));
    let inner = members(members(&r)[1].1);
    assert!(matches!(inner[0].1, JsonValue::Number(c) if *c == SERVER_ERROR));
}

#[test]
fn running_service_shows_how_long_it_is_up() {
    let mut u = service_unit(1, "[Service]\nExecStart = /bin/a\n", "/u/web.service");
    if let rustysd::units::UnitSpecialized::Service(s) = &mut u.specialized {
        s.runtime_info.up_since = Some(1000);
        s.runtime_info.restarted = 12;
    }
    let v = rustysd::control::format_service(&u, 2500);
    let m = members(&v);
    assert_eq!(m.len(), 4);
    assert_eq!(m[2].0, "UpSince");
    assert!(matches!(m[2].1, JsonValue::Str(x) if x == "1.5s"));
    assert!(matches!(m[3].1, JsonValue::Str(x) if x == "12"));
    let v = rustysd::control::format_service(&u, 500);
    assert!(matches!(members(&v)[2].1, JsonValue::Str(x) if x == "0ns"));
}

#[test]
fn socket_units_are_described() {
    let file = parse_file("[Socket]\nListenStream = /run/a\nListenDatagram = 127.0.0.1:80\nFileDescriptorName = web\n[Unit]\n");
    let u = parse_socket(&file, &"/u/web.socket".to_owned(), 4).unwrap();
    let v = rustysd::control::format_socket(&u);
    let m = members(&v);
    assert_eq!(m.len(), 3);
    assert!(matches!(m[0].1, JsonValue::Str(x) if x == "web"));
    assert_eq!(m[1].0, "FileDescriptorname");
    assert!(matches!(m[1].1, JsonValue::Str(x) if x == "web"));
    assert_eq!(m[2].0, "FileDescriptors");
    match m[2].1 {
        JsonValue::Array(a) => {
            assert_eq!(a.len(), 2);
            assert!(matches!(&a[0], JsonValue::Str(x) if x == "UnixSocket(Stream(\"/run/a\"))"));
            assert!(matches!(&a[1], JsonValue::Str(x) if x == "UdpSocket(UdpSocketConfig { addr: 127.0.0.1:80 })"));
        }
        _ => panic!("should be a list"),
    }
    let t = rustysd::control::format_target(&u);
    assert_eq!(members(&t).len(), 1);
}

#[test]
fn socket_addresses_are_written_as_std_writes_them() {
    let v6 = |segments: Vec<u16>, scope_id: u32, port: u16| SocketAddress::V6 { segments, scope_id, port };
    assert_eq!(socket_address_to_text(&SocketAddress::V4 { octets: vec![10, 0, 0, 255], port: 8080 }), "10.0.0.255:8080");
    assert_eq!(socket_address_to_text(&v6(vec![0, 0, 0, 0, 0, 0, 0, 1], 0, 80)), "[::1]:80");
    assert_eq!(socket_address_to_text(&v6(vec![0; 8], 0, 1)), "[::]:1");
    assert_eq!(socket_address_to_text(&v6(vec![0x2001, 0xdb8, 0, 0, 1, 0, 0, 0xabcd], 3, 443)), "[2001:db8::1:0:0:abcd%3]:443");
    assert_eq!(socket_address_to_text(&v6(vec![1, 0, 2, 0, 3, 0, 4, 0], 0, 9)), "[1:0:2:0:3:0:4:0]:9");
    assert_eq!(socket_address_to_text(&v6(vec![0, 0, 0, 0, 0, 0xffff, 0xc000, 0x0280], 0, 7)), "[::ffff:192.0.2.128]:7");
}

#[test]
fn up_times_are_written_as_std_writes_durations() {
    assert_eq!(elapsed_text(0), "0ns");
    assert_eq!(elapsed_text(999), "999ms");
    assert_eq!(elapsed_text(1005), "1.005s");
    assert_eq!(elapsed_text(2000), "2s");
    assert_eq!(elapsed_text(60050), "60.05s");
    for ms in [0u64, 1, 7, 999, 1000, 1001, 1010, 1100, 123456, 86_400_000, u64::MAX / 2] {
        assert_eq!(elapsed_text(ms), format!("{:?}", std::time::Duration::from_millis(ms)));
    }
}

#[test]
fn responses_are_written_as_indented_json() {
    let v = JsonValue::Object(vec![("id".to_owned(), JsonValue::Number(1)), ("ok".to_owned(), JsonValue::Bool(true))]);
    assert_eq!(rustysd::jsonrpc2::response_text(&v), "{\n  \"id\": 1,\n  \"ok\": true\n}");
    assert_eq!(rustysd::jsonrpc2::response_text(&JsonValue::Array(vec![])), "[]");
}
