//! The control interface: reading commands out of JSON-RPC calls, deciding what they ask
//! for, and the responses.
use vstd::prelude::*;

use crate::jsonrpc2::{
    make_error, make_error_response, make_result_response, Call, JsonValue, INVALID_PARAMS_ERROR,
    INVALID_REQUEST_ERROR, METHOD_NOT_FOUND_ERROR, SERVER_ERROR,
};
use crate::text::{concat_strs, starts_with, ends_with, to_chars, chars_start_with, chars_end_with};
use crate::units::{table_wf, Unit, UnitSpecialized};

verus! {

/// The kinds of units.
#[derive(PartialEq, Eq, Structural, Clone, Copy, Debug)]
pub enum UnitIdKind {
    Target,
    Socket,
    Service,
}

/// A command of the control interface.
pub enum Command {
    ListUnits(Option<UnitIdKind>),
    Status(Option<String>),
    Restart(String),
    LoadNew(String),
    Stop(String),
    Shutdown,
}

/// Why a call is no command.
pub enum ParseError {
    MethodNotFound(String),
    ParamsInvalid(String),
}

/// The string that `params` is, if it is one.
pub open spec fn string_param(params: Option<JsonValue>) -> Option<Seq<char>> {
    match params {
        Some(JsonValue::Str(s)) => Some(s@),
        _ => None,
    }
}

/// The unit kind named `s`, if it names one.
pub open spec fn kind_named(s: Seq<char>) -> Option<UnitIdKind> {
    if s == "target"@ {
        Some(UnitIdKind::Target)
    } else if s == "socket"@ {
        Some(UnitIdKind::Socket)
    } else if s == "service"@ {
        Some(UnitIdKind::Service)
    } else {
        None
    }
}

/// The word that names the unit kind `k` (the suffix of its unit files without the dot).
pub open spec fn kind_word(k: UnitIdKind) -> Seq<char> {
    match k {
        UnitIdKind::Target => "target"@,
        UnitIdKind::Socket => "socket"@,
        UnitIdKind::Service => "service"@,
    }
}

/// A kind named by a word is the kind that word names: `kind_named` gives back, for each
/// word it accepts, the kind whose word it is, and it accepts the word of every kind.
pub proof fn law_kind_named_by_its_word(s: Seq<char>, k: UnitIdKind)
    ensures
        kind_named(s) matches Some(j) ==> kind_word(j) == s,
        kind_named(kind_word(k)) == Some(k),
{
    reveal_strlit("target");
    reveal_strlit("socket");
    reveal_strlit("service");
    assert("target"@[1] != "service"@[1]);
    assert("socket"@[1] != "service"@[1]);
    assert("target"@[0] != "socket"@[0]);
}

/// `list-units` with a kind word lists that kind: a call of `list-units` whose parameter
/// is the string `x` and that reads as a listing of the kind `k` names `k` by its word.
pub proof fn law_list_units_lists_the_named_kind(params: Option<JsonValue>, cmd: Command)
    requires
        command_for("list-units"@, params, cmd),
        params is Some,
    ensures
        cmd matches Command::ListUnits(Some(k)) && string_param(params) == Some(kind_word(k)),
{
    reveal_strlit("list-units");
    reveal_strlit("status");
    reveal_strlit("restart");
    reveal_strlit("stop");
    reveal_strlit("enable");
    assert("list-units"@[0] != "status"@[0]);
    assert("list-units"@[0] != "restart"@[0]);
    assert("list-units"@[0] != "stop"@[0]);
    assert("list-units"@[0] != "enable"@[0]);
    let x = string_param(params)->0;
    law_kind_named_by_its_word(x, UnitIdKind::Target);
}

/// The methods that need one string parameter: `restart`, `stop` and `enable`.
pub open spec fn needs_name(method: Seq<char>) -> bool {
    method == "restart"@ || method == "stop"@ || method == "enable"@
}

/// `cmd` is what the method `method` with the parameters `params` asks for.
pub open spec fn command_for(method: Seq<char>, params: Option<JsonValue>, cmd: Command) -> bool {
    if method == "status"@ {
        cmd matches Command::Status(o) && match params {
            None => o is None,
            Some(_) => string_param(params) is Some && (o matches Some(x) && x@ == string_param(params)->0),
        }
    } else if method == "restart"@ {
        cmd matches Command::Restart(x) && string_param(params) == Some(x@)
    } else if method == "stop"@ {
        cmd matches Command::Stop(x) && string_param(params) == Some(x@)
    } else if method == "enable"@ {
        cmd matches Command::LoadNew(x) && string_param(params) == Some(x@)
    } else if method == "list-units"@ {
        cmd matches Command::ListUnits(k) && match params {
            None => k is None,
            Some(_) => string_param(params) is Some && kind_named(string_param(params)->0) is Some && k
                == kind_named(string_param(params)->0),
        }
    } else if method == "shutdown"@ {
        cmd is Shutdown
    } else {
        false
    }
}

/// `e` is why the method `method` with the parameters `params` is no command.
pub open spec fn parse_error_for(method: Seq<char>, params: Option<JsonValue>, e: ParseError) -> bool {
    if method == "status"@ {
        params is Some && string_param(params) is None && (e matches ParseError::ParamsInvalid(m) && m@
            == "Params must be either none or a single string"@)
    } else if needs_name(method) {
        string_param(params) is None && (e matches ParseError::ParamsInvalid(m) && m@ == "Params must be a single string"@)
    } else if method == "list-units"@ {
        params is Some && (e matches ParseError::ParamsInvalid(m) && if string_param(params) is None {
            m@ == "Params must be a single string"@
        } else {
            kind_named(string_param(params)->0) is None && m@ == "Kind not recognized: "@ + string_param(params)->0
        })
    } else if method == "shutdown"@ {
        false
    } else {
        e matches ParseError::MethodNotFound(m) && m@ == "Unknown method: "@ + method
    }
}

/// Whether the characters of `s` are those of `lit`.
fn is_lit(s: &String, lit: &str) -> (res: bool)
    ensures
        res == (s@ == lit@),
{
    let a = to_chars(s.as_str());
    let b = to_chars(lit);
    crate::text::chars_eq(&a, &b)
}

/// The string parameter of a call, if its parameters are one string.
fn string_of_params(params: &Option<JsonValue>) -> (res: Option<String>)
    ensures
        match res {
            Some(s) => string_param(*params) == Some(s@),
            None => string_param(*params) is None,
        },
{
    match params {
        Some(JsonValue::Str(s)) => Some(s.clone()),
        _ => None,
    }
}

/// The command a call asks for (see `command_for`), or why it is none (see
/// `parse_error_for`).
pub fn parse_command(call: &Call) -> (res: Result<Command, ParseError>)
    ensures
        match res {
            Ok(cmd) => command_for(call.method@, call.params, cmd),
            Err(e) => parse_error_for(call.method@, call.params, e),
        },
        call.method@ == "list-units"@ && call.params is Some ==> match res {
            Ok(cmd) => cmd matches Command::ListUnits(Some(k)) && string_param(call.params) == Some(kind_word(k)),
            Err(_) => true,
        },
{
    let res = parse_command_inner(call);
    proof {
        if call.method@ == "list-units"@ && call.params is Some {
            if res is Ok {
                law_list_units_lists_the_named_kind(call.params, res->Ok_0);
            }
        }
    }
    res
}

/// The command a call asks for (see `command_for`), or why it is none.
fn parse_command_inner(call: &Call) -> (res: Result<Command, ParseError>)
    ensures
        match res {
            Ok(cmd) => command_for(call.method@, call.params, cmd),
            Err(e) => parse_error_for(call.method@, call.params, e),
        },
{
    let m = &call.method;
    proof {
        reveal_strlit("status");
        reveal_strlit("restart");
        reveal_strlit("stop");
        reveal_strlit("enable");
        reveal_strlit("list-units");
        reveal_strlit("shutdown");
    }
    if is_lit(m, "status") {
        match &call.params {
            None => Ok(Command::Status(None)),
            Some(_) => match string_of_params(&call.params) {
                Some(s) => Ok(Command::Status(Some(s))),
                None => Err(ParseError::ParamsInvalid("Params must be either none or a single string".to_owned())),
            },
        }
    } else if is_lit(m, "restart") || is_lit(m, "stop") || is_lit(m, "enable") {
        match string_of_params(&call.params) {
            Some(s) => if is_lit(m, "restart") {
                Ok(Command::Restart(s))
            } else if is_lit(m, "stop") {
                Ok(Command::Stop(s))
            } else {
                Ok(Command::LoadNew(s))
            },
            None => Err(ParseError::ParamsInvalid("Params must be a single string".to_owned())),
        }
    } else if is_lit(m, "list-units") {
        match &call.params {
            None => Ok(Command::ListUnits(None)),
            Some(_) => match string_of_params(&call.params) {
                Some(s) => if is_lit(&s, "target") {
                    Ok(Command::ListUnits(Some(UnitIdKind::Target)))
                } else if is_lit(&s, "socket") {
                    Ok(Command::ListUnits(Some(UnitIdKind::Socket)))
                } else if is_lit(&s, "service") {
                    Ok(Command::ListUnits(Some(UnitIdKind::Service)))
                } else {
                    Err(ParseError::ParamsInvalid(concat_strs("Kind not recognized: ", s.as_str())))
                },
                None => Err(ParseError::ParamsInvalid("Params must be a single string".to_owned())),
            },
        }
    } else if is_lit(m, "shutdown") {
        Ok(Command::Shutdown)
    } else {
        Err(ParseError::MethodNotFound(concat_strs("Unknown method: ", m.as_str())))
    }
}

// ---------------------------------------------------------------------------------------
// Finding and describing units

/// The kind of unit `u`.
pub open spec fn unit_kind(u: Unit) -> UnitIdKind {
    match u.specialized {
        UnitSpecialized::Socket(_) => UnitIdKind::Socket,
        UnitSpecialized::Service(_) => UnitIdKind::Service,
        UnitSpecialized::Target => UnitIdKind::Target,
    }
}

/// Unit `u` is a service whose name begins `pattern`.
pub open spec fn matches_pattern(u: Unit, pattern: Seq<char>) -> bool {
    unit_kind(u) == UnitIdKind::Service && starts_with(pattern, u.conf.spec_name())
}

/// The positions of the units of `units` that match `pattern` (see `matches_pattern`), in order.
pub open spec fn matching_positions(units: Seq<Unit>, pattern: Seq<char>) -> Seq<int>
    decreases units.len(),
{
    if units.len() == 0 {
        Seq::empty()
    } else {
        let rest = matching_positions(units.drop_last(), pattern);
        if matches_pattern(units.last(), pattern) {
            rest.push(units.len() - 1)
        } else {
            rest
        }
    }
}

/// Whether unit `u` is a service whose name begins `pattern`.
fn unit_matches(u: &Unit, pattern: &Vec<char>) -> (res: bool)
    requires
        u.conf.has_file_name(),
    ensures
        res == matches_pattern(*u, pattern@),
{
    match &u.specialized {
        UnitSpecialized::Service(_) => {
            let n = u.conf.name();
            let nc = to_chars(n.as_str());
            chars_start_with(pattern, &nc)
        },
        _ => false,
    }
}

/// The positions of the services whose names begin `pattern`, in table order.
pub fn find_units_with_pattern(name_pattern: &String, units: &Vec<Unit>) -> (res: Vec<usize>)
    requires
        table_wf(units@),
    ensures
        res@.len() == matching_positions(units@, name_pattern@).len(),
        forall|i: int| 0 <= i < res@.len() ==> #[trigger] res@[i] as int == matching_positions(units@, name_pattern@)[i],
{
    let pattern = to_chars(name_pattern.as_str());
    let mut res: Vec<usize> = Vec::new();
    let mut k: usize = 0;
    proof {
        assert(units@.take(0) =~= Seq::<Unit>::empty());
    }
    while k < units.len()
        invariant
            k <= units@.len(),
            table_wf(units@),
            pattern@ == name_pattern@,
            res@.len() == matching_positions(units@.take(k as int), name_pattern@).len(),
            forall|i: int| 0 <= i < res@.len() ==> #[trigger] res@[i] as int == matching_positions(units@.take(k as int), name_pattern@)[i],
        decreases units.len() - k,
    {
        proof {
            assert(units@.take(k + 1).drop_last() =~= units@.take(k as int));
            assert(units@.take(k + 1).last() == units@[k as int]);
            assert(units@[k as int].conf.has_file_name());
        }
        if unit_matches(&units[k], &pattern) {
            res.push(k);
        }
        k = k + 1;
    }
    proof {
        assert(units@.take(units@.len() as int) =~= units@);
    }
    res
}

/// The id of the one service whose name begins `unit_name`; none where there is no such
/// service or more than one.
pub fn find_unit_with_name(unit_name: &String, units: &Vec<Unit>) -> (res: Option<u64>)
    requires
        table_wf(units@),
    ensures
        match res {
            Some(id) => matching_positions(units@, unit_name@).len() == 1 && id == units@[matching_positions(units@, unit_name@)[0]].id,
            None => matching_positions(units@, unit_name@).len() != 1,
        },
{
    let found = find_units_with_pattern(unit_name, units);
    if found.len() != 1 {
        None
    } else {
        proof {
            lemma_matching_positions_bounds(units@, unit_name@);
            assert(found@[0] as int == matching_positions(units@, unit_name@)[0]);
        }
        Some(units[found[0]].id)
    }
}

proof fn lemma_matching_positions_bounds(units: Seq<Unit>, pattern: Seq<char>)
    ensures
        forall|i: int| 0 <= i < matching_positions(units, pattern).len() ==> 0 <= #[trigger] matching_positions(units, pattern)[i] < units.len(),
    decreases units.len(),
{
    if units.len() > 0 {
        let t = units.drop_last();
        lemma_matching_positions_bounds(t, pattern);
        let r = matching_positions(t, pattern);
        assert forall|i: int| 0 <= i < matching_positions(units, pattern).len() implies 0 <= #[trigger] matching_positions(units, pattern)[i] < units.len() by {
            if i < r.len() {
                assert(matching_positions(units, pattern)[i] == r[i]);
            }
        }
    }
}

/// The members of the description of a target: its name.
pub open spec fn target_json(u: Unit, v: JsonValue) -> bool {
    v matches JsonValue::Object(m) && m@.len() == 1 && m@[0].0@ == "Name"@ && (m@[0].1 matches JsonValue::Str(n) && n@ == u.conf.spec_name())
}

/// The description of a target: its name.
pub fn format_target(unit: &Unit) -> (res: JsonValue)
    requires
        unit.conf.has_file_name(),
    ensures
        target_json(*unit, res),
{
    let mut map: Vec<(String, JsonValue)> = Vec::new();
    map.push(("Name".to_owned(), JsonValue::Str(unit.conf.name())));
    JsonValue::Object(map)
}

/// The digits after the point of `f` thousandths (`f` below 1000): none for 0, else a
/// point and three digits with the trailing zeros cut.
pub open spec fn fraction_text(f: nat) -> Seq<char> {
    let d1 = crate::text::digit_char(f / 100);
    let d2 = crate::text::digit_char((f / 10) % 10);
    let d3 = crate::text::digit_char(f % 10);
    if f == 0 {
        Seq::empty()
    } else if f % 100 == 0 {
        seq!['.', d1]
    } else if f % 10 == 0 {
        seq!['.', d1, d2]
    } else {
        seq!['.', d1, d2, d3]
    }
}

/// How long a service has been up, as text, for a time span of `ms` milliseconds, as the
/// `Debug` format of `std::time::Duration` writes it: `0ns` for none, whole milliseconds
/// with `ms` below a second, else seconds with the fraction's trailing zeros cut and `s`
/// (1500 gives `1.5s`).
pub open spec fn duration_text(ms: u64) -> Seq<char> {
    if ms == 0 {
        "0ns"@
    } else if ms < 1000 {
        crate::text::decimal_text(ms as nat) + "ms"@
    } else {
        crate::text::decimal_text((ms / 1000) as nat) + fraction_text((ms % 1000) as nat) + "s"@
    }
}

/// The text of `duration_text`.
pub fn elapsed_text(ms: u64) -> (res: String)
    ensures
        res@ == duration_text(ms),
{
    proof {
        reveal_strlit("0ns");
        reveal_strlit("ms");
        reveal_strlit("s");
    }
    if ms == 0 {
        return "0ns".to_owned();
    }
    if ms < 1000 {
        let n = crate::text::u64_to_decimal(ms);
        return concat_strs(n.as_str(), "ms");
    }
    let secs = crate::text::u64_to_decimal(ms / 1000);
    let f = ms % 1000;
    let mut text = secs;
    if f != 0 {
        let d1 = ((48 + f / 100) as u8) as char;
        let d2 = ((48 + (f / 10) % 10) as u8) as char;
        let d3 = ((48 + f % 10) as u8) as char;
        let ghost before = text@;
        crate::text::push_char(&mut text, '.');
        crate::text::push_char(&mut text, d1);
        if f % 100 != 0 {
            crate::text::push_char(&mut text, d2);
            if f % 10 != 0 {
                crate::text::push_char(&mut text, d3);
            }
        }
        proof {
            assert(text@ =~= before + fraction_text(f as nat));
        }
    } else {
        proof {
            assert(text@ =~= text@ + fraction_text(f as nat));
        }
    }
    concat_strs(text.as_str(), "s")
}

/// The description of a service at time `now` (in milliseconds on the clock of `up_since`):
/// its name, its socket names, how long it has been up where it runs, and how often it
/// was restarted.
pub open spec fn service_json(u: Unit, now: u64, v: JsonValue) -> bool {
    v matches JsonValue::Object(m) && m@.len() >= 1 && m@[0].0@ == "Name"@ && (m@[0].1 matches JsonValue::Str(n) && n@ == u.conf.spec_name()) && match u.specialized {
        UnitSpecialized::Service(s) => {
            let up = if s.runtime_info.up_since is Some { 1int } else { 0int };
            &&& m@.len() == 3 + up
            &&& m@[1].0@ == "Sockets"@
            &&& (m@[1].1 matches JsonValue::Array(a) && a@.len() == s.socket_names@.len() && forall|i: int| 0 <= i < a@.len() ==> (#[trigger] a@[i] matches JsonValue::Str(x) && x@ == s.socket_names@[i]@))
            &&& s.runtime_info.up_since matches Some(t) ==> m@[2].0@ == "UpSince"@ && (m@[2].1 matches JsonValue::Str(x) && x@ == duration_text(if now >= t { (now - t) as u64 } else { 0u64 }))
            &&& m@[2 + up].0@ == "Restarted"@
            &&& (m@[2 + up].1 matches JsonValue::Str(x) && x@ == crate::text::decimal_text(s.runtime_info.restarted as nat))
        },
        _ => m@.len() == 1,
    }
}

/// The description of a service (see `service_json`).
pub fn format_service(unit: &Unit, now: u64) -> (res: JsonValue)
    requires
        unit.conf.has_file_name(),
    ensures
        service_json(*unit, now, res),
{
    let mut map: Vec<(String, JsonValue)> = Vec::new();
    map.push(("Name".to_owned(), JsonValue::Str(unit.conf.name())));
    match &unit.specialized {
        UnitSpecialized::Service(srvc) => {
            let mut socks: Vec<JsonValue> = Vec::new();
            let mut i: usize = 0;
            while i < srvc.socket_names.len()
                invariant
                    i <= srvc.socket_names@.len(),
                    socks@.len() == i,
                    forall|j: int| 0 <= j < i ==> (#[trigger] socks@[j] matches JsonValue::Str(x) && x@ == srvc.socket_names@[j]@),
                decreases srvc.socket_names.len() - i,
            {
                socks.push(JsonValue::Str(srvc.socket_names[i].clone()));
                i = i + 1;
            }
            map.push(("Sockets".to_owned(), JsonValue::Array(socks)));
            match srvc.runtime_info.up_since {
                Some(t) => {
                    let ms = if now >= t { now - t } else { 0 };
                    map.push(("UpSince".to_owned(), JsonValue::Str(elapsed_text(ms))));
                },
                None => {},
            }
            map.push(("Restarted".to_owned(), JsonValue::Str(crate::text::u64_to_decimal(srvc.runtime_info.restarted))));
        },
        _ => {},
    }
    JsonValue::Object(map)
}

/// What the `Debug` format of `str` writes for `s`: the text between double quotes, with
/// special characters escaped.
pub uninterp spec fn str_debug_text(s: Seq<char>) -> Seq<char>;

/// The text `s` written with the `Debug` format of `str`. The contract only names the
/// text; the escaping is std's.
#[verifier::external_body]
fn str_debug(s: &str) -> (res: String)
    ensures
        res@ == str_debug_text(s@),
{
    format!("{:?}", s)
}

/// The `Debug` text of a unix socket kind with its path, such as `Stream("/run/a")`.
pub open spec fn unix_socket_text(u: crate::sockets::UnixSocketConfig) -> Seq<char> {
    match u {
        crate::sockets::UnixSocketConfig::Stream(p) => "Stream("@ + str_debug_text(p@) + ")"@,
        crate::sockets::UnixSocketConfig::Sequential(p) => "Sequential("@ + str_debug_text(p@) + ")"@,
        crate::sockets::UnixSocketConfig::Datagram(p) => "Datagram("@ + str_debug_text(p@) + ")"@,
    }
}

/// A text for a socket of a socket unit: how it is opened, in the `Debug` form, such as
/// `UnixSocket(Stream("/run/app.socket"))` or `TcpSocket(TcpSocketConfig { addr:
/// 127.0.0.1:80 })` (the path of a named pipe as `Path` writes it, an address as
/// `SocketAddr` displays it).
pub open spec fn socket_config_text(c: crate::sockets::SpecializedSocketConfig) -> Seq<char> {
    match c {
        crate::sockets::SpecializedSocketConfig::UnixSocket(u) => "UnixSocket("@ + unix_socket_text(u) + ")"@,
        crate::sockets::SpecializedSocketConfig::Fifo(f) => "Fifo(FifoConfig { path: "@
            + crate::unit_parser::path_debug_text(f.path@) + " })"@,
        crate::sockets::SpecializedSocketConfig::TcpSocket(t) => "TcpSocket(TcpSocketConfig { addr: "@
            + crate::net_text::socket_address_text(t.addr) + " })"@,
        crate::sockets::SpecializedSocketConfig::UdpSocket(u) => "UdpSocket(UdpSocketConfig { addr: "@
            + crate::net_text::socket_address_text(u.addr) + " })"@,
    }
}

/// `a`, then `b`, then `c`.
fn concat3(a: &str, b: &str, c: &str) -> (res: String)
    ensures
        res@ == a@ + b@ + c@,
{
    let ab = concat_strs(a, b);
    concat_strs(ab.as_str(), c)
}

fn config_text(c: &crate::sockets::SpecializedSocketConfig) -> (res: String)
    ensures
        res@ == socket_config_text(*c),
{
    match c {
        crate::sockets::SpecializedSocketConfig::UnixSocket(u) => {
            let (tag, p) = match u {
                crate::sockets::UnixSocketConfig::Stream(p) => ("Stream(", p),
                crate::sockets::UnixSocketConfig::Sequential(p) => ("Sequential(", p),
                crate::sockets::UnixSocketConfig::Datagram(p) => ("Datagram(", p),
            };
            let quoted = str_debug(p.as_str());
            let inner = concat3(tag, quoted.as_str(), ")");
            concat3("UnixSocket(", inner.as_str(), ")")
        },
        crate::sockets::SpecializedSocketConfig::Fifo(f) => {
            let p = crate::unit_parser::path_debug(&f.path);
            concat3("Fifo(FifoConfig { path: ", p.as_str(), " })")
        },
        crate::sockets::SpecializedSocketConfig::TcpSocket(t) => {
            let a = crate::net_text::socket_address_to_text(&t.addr);
            concat3("TcpSocket(TcpSocketConfig { addr: ", a.as_str(), " })")
        },
        crate::sockets::SpecializedSocketConfig::UdpSocket(u) => {
            let a = crate::net_text::socket_address_to_text(&u.addr);
            concat3("UdpSocket(UdpSocketConfig { addr: ", a.as_str(), " })")
        },
    }
}

/// The description of a socket unit: its name, its file descriptor name, and a text for
/// each of its sockets.
pub open spec fn socket_json(u: Unit, v: JsonValue) -> bool {
    v matches JsonValue::Object(m) && m@.len() >= 1 && m@[0].0@ == "Name"@ && (m@[0].1 matches JsonValue::Str(n) && n@ == u.conf.spec_name()) && match u.specialized {
        UnitSpecialized::Socket(sock) => {
            &&& m@.len() == 3
            &&& m@[1].0@ == "FileDescriptorname"@
            &&& (m@[1].1 matches JsonValue::Str(x) && x@ == sock.name@)
            &&& m@[2].0@ == "FileDescriptors"@
            &&& (m@[2].1 matches JsonValue::Array(a) && a@.len() == sock.sockets@.len() && forall|i: int| 0 <= i < a@.len() ==> (#[trigger] a@[i] matches JsonValue::Str(x) && x@ == socket_config_text(sock.sockets@[i].specialized)))
        },
        _ => m@.len() == 1,
    }
}

/// The description of a socket unit (see `socket_json`).
pub fn format_socket(unit: &Unit) -> (res: JsonValue)
    requires
        unit.conf.has_file_name(),
    ensures
        socket_json(*unit, res),
{
    let mut map: Vec<(String, JsonValue)> = Vec::new();
    map.push(("Name".to_owned(), JsonValue::Str(unit.conf.name())));
    match &unit.specialized {
        UnitSpecialized::Socket(sock) => {
            map.push(("FileDescriptorname".to_owned(), JsonValue::Str(sock.name.clone())));
            let mut fds: Vec<JsonValue> = Vec::new();
            let mut i: usize = 0;
            while i < sock.sockets.len()
                invariant
                    i <= sock.sockets@.len(),
                    fds@.len() == i,
                    forall|j: int| 0 <= j < i ==> (#[trigger] fds@[j] matches JsonValue::Str(x) && x@ == socket_config_text(sock.sockets@[j].specialized)),
                decreases sock.sockets.len() - i,
            {
                fds.push(JsonValue::Str(config_text(&sock.sockets[i].specialized)));
                i = i + 1;
            }
            map.push(("FileDescriptors".to_owned(), JsonValue::Array(fds)));
        },
        _ => {},
    }
    JsonValue::Object(map)
}

// ---------------------------------------------------------------------------------------
// Executing commands

/// What a command comes to: work for the caller, or the answer.
pub enum CommandOutcome {
    /// Shut the service manager down.
    Shutdown,
    /// Restart the unit with this id, then answer with an empty list.
    Restart(u64),
    /// Stop the unit with this id, then answer with an empty list.
    Stop(u64),
    /// Load the unit file of this name as a new unit, then answer with an empty list.
    LoadNew(String),
    /// Answer with this value.
    Respond(JsonValue),
}

/// `v` describes unit `u` as its kind asks.
pub open spec fn formatted_by_kind(u: Unit, now: u64, v: JsonValue) -> bool {
    match unit_kind(u) {
        UnitIdKind::Socket => socket_json(u, v),
        UnitIdKind::Service => service_json(u, now, v),
        UnitIdKind::Target => target_json(u, v),
    }
}

/// The name ends in `.service`, `.socket` or `.target`.
pub open spec fn known_suffix(name: Seq<char>) -> bool {
    ends_with(name, ".service"@) || ends_with(name, ".socket"@) || ends_with(name, ".target"@)
}

/// `v` describes unit `u` as the suffix of the asked-for name `name` says.
pub open spec fn formatted_by_suffix(u: Unit, now: u64, name: Seq<char>, v: JsonValue) -> bool {
    if ends_with(name, ".service"@) {
        service_json(u, now, v)
    } else if ends_with(name, ".socket"@) {
        socket_json(u, v)
    } else {
        target_json(u, v)
    }
}

/// The positions of the units of `units` of kind `kind` (all where there is none), in order.
pub open spec fn listed_positions(units: Seq<Unit>, kind: Option<UnitIdKind>) -> Seq<int>
    decreases units.len(),
{
    if units.len() == 0 {
        Seq::empty()
    } else {
        let rest = listed_positions(units.drop_last(), kind);
        if kind is None || kind == Some(unit_kind(units.last())) {
            rest.push(units.len() - 1)
        } else {
            rest
        }
    }
}

/// `outcome` is what `cmd` comes to on the unit table `units` at time `now`.
pub open spec fn outcome_for(cmd: Command, units: Seq<Unit>, now: u64, outcome: Result<CommandOutcome, String>) -> bool {
    match cmd {
        Command::Shutdown => outcome matches Ok(CommandOutcome::Shutdown),
        Command::Restart(name) => {
            let ps = matching_positions(units, name@);
            if ps.len() == 1 {
                outcome == Ok::<CommandOutcome, String>(CommandOutcome::Restart(units[ps[0]].id))
            } else {
                outcome matches Err(e) && e@ == "No unit found with name: "@ + name@
            }
        },
        Command::Stop(name) => {
            let ps = matching_positions(units, name@);
            if ps.len() == 1 {
                outcome == Ok::<CommandOutcome, String>(CommandOutcome::Stop(units[ps[0]].id))
            } else {
                outcome matches Err(e) && e@ == "No unit found with name: "@ + name@
            }
        },
        Command::LoadNew(name) => outcome matches Ok(CommandOutcome::LoadNew(n)) && n@ == name@,
        Command::Status(Some(name)) => {
            let ps = matching_positions(units, name@);
            if ps.len() > 0 && !known_suffix(name@) {
                outcome matches Err(e) && e@ == "Name suffix not recognized"@
            } else {
                outcome matches Ok(CommandOutcome::Respond(JsonValue::Array(a))) && a@.len() == ps.len()
                    && forall|i: int| 0 <= i < a@.len() ==> formatted_by_suffix(units[ps[i]], now, name@, #[trigger] a@[i])
            }
        },
        Command::Status(None) => outcome matches Ok(CommandOutcome::Respond(JsonValue::Array(a))) && a@.len() == units.len()
            && forall|i: int| 0 <= i < a@.len() ==> formatted_by_kind(units[i], now, #[trigger] a@[i]),
        Command::ListUnits(kind) => {
            let ps = listed_positions(units, kind);
            outcome matches Ok(CommandOutcome::Respond(JsonValue::Array(a))) && a@.len() == ps.len()
                && forall|i: int| 0 <= i < a@.len() ==> (#[trigger] a@[i] matches JsonValue::Str(n) && n@ == units[ps[i]].conf.spec_name())
        },
    }
}

/// The status of all units describes each unit as what it is: a service with its name,
/// socket names, up time where it runs and restart count (`service_json`), a socket unit
/// with its name, descriptor name and sockets (`socket_json`), a target with its name.
pub proof fn law_status_describes_each_unit(units: Seq<Unit>, now: u64, outcome: Result<CommandOutcome, String>)
    requires
        outcome_for(Command::Status(None), units, now, outcome),
    ensures
        outcome matches Ok(CommandOutcome::Respond(JsonValue::Array(a))) && a@.len() == units.len() && forall|i: int|
            0 <= i < units.len() ==> {
                &&& units[i].specialized is Service ==> service_json(units[i], now, #[trigger] a@[i])
                &&& units[i].specialized is Socket ==> socket_json(units[i], a@[i])
                &&& units[i].specialized is Target ==> target_json(units[i], a@[i])
            },
{
}

fn kind_of(u: &Unit) -> (res: UnitIdKind)
    ensures
        res == unit_kind(*u),
{
    match &u.specialized {
        UnitSpecialized::Socket(_) => UnitIdKind::Socket,
        UnitSpecialized::Service(_) => UnitIdKind::Service,
        UnitSpecialized::Target => UnitIdKind::Target,
    }
}

/// What a command comes to (see `outcome_for`): restarting, stopping, loading and
/// shutting down are left to the caller; status and listings are answered here.
pub fn execute_command(cmd: Command, units: &Vec<Unit>, now: u64) -> (res: Result<CommandOutcome, String>)
    requires
        table_wf(units@),
    ensures
        outcome_for(cmd, units@, now, res),
        cmd matches Command::Status(None) ==> (res matches Ok(CommandOutcome::Respond(JsonValue::Array(a)))
            && a@.len() == units@.len() && forall|i: int| 0 <= i < units@.len() ==> {
                &&& units@[i].specialized is Service ==> service_json(units@[i], now, #[trigger] a@[i])
                &&& units@[i].specialized is Socket ==> socket_json(units@[i], a@[i])
                &&& units@[i].specialized is Target ==> target_json(units@[i], a@[i])
            }),
{
    let ghost cmd0 = cmd;
    let res = execute_command_inner(cmd, units, now);
    proof {
        if cmd0 matches Command::Status(None) {
            law_status_describes_each_unit(units@, now, res);
        }
    }
    res
}

/// What a command comes to (see `outcome_for`).
fn execute_command_inner(cmd: Command, units: &Vec<Unit>, now: u64) -> (res: Result<CommandOutcome, String>)
    requires
        table_wf(units@),
    ensures
        outcome_for(cmd, units@, now, res),
{
    match cmd {
        Command::Shutdown => Ok(CommandOutcome::Shutdown),
        Command::Restart(name) => match find_unit_with_name(&name, units) {
            Some(id) => Ok(CommandOutcome::Restart(id)),
            None => Err(concat_strs("No unit found with name: ", name.as_str())),
        },
        Command::Stop(name) => match find_unit_with_name(&name, units) {
            Some(id) => Ok(CommandOutcome::Stop(id)),
            None => Err(concat_strs("No unit found with name: ", name.as_str())),
        },
        Command::LoadNew(name) => Ok(CommandOutcome::LoadNew(name)),
        Command::Status(Some(name)) => {
            let ps = find_units_with_pattern(&name, units);
            proof {
                lemma_matching_positions_bounds(units@, name@);
            }
            let nc = to_chars(name.as_str());
            let is_service = chars_end_with(&nc, &to_chars(".service"));
            let is_socket = chars_end_with(&nc, &to_chars(".socket"));
            let is_target = chars_end_with(&nc, &to_chars(".target"));
            if ps.len() > 0 && !is_service && !is_socket && !is_target {
                return Err("Name suffix not recognized".to_owned());
            }
            let mut out: Vec<JsonValue> = Vec::new();
            let mut i: usize = 0;
            while i < ps.len()
                invariant
                    i <= ps@.len(),
                    table_wf(units@),
                    nc@ == name@,
                    is_service == ends_with(name@, ".service"@),
                    is_socket == ends_with(name@, ".socket"@),
                    ps@.len() == matching_positions(units@, name@).len(),
                    forall|j: int| 0 <= j < ps@.len() ==> #[trigger] ps@[j] as int == matching_positions(units@, name@)[j],
                    forall|j: int| 0 <= j < matching_positions(units@, name@).len() ==> 0 <= #[trigger] matching_positions(units@, name@)[j] < units@.len(),
                    out@.len() == i,
                    forall|j: int| 0 <= j < i ==> formatted_by_suffix(units@[ps@[j] as int], now, name@, #[trigger] out@[j]),
                decreases ps.len() - i,
            {
                let p = ps[i];
                proof {
                    assert(0 <= matching_positions(units@, name@)[i as int] < units@.len());
                    assert(units@[p as int].conf.has_file_name());
                }
                let v = if is_service {
                    format_service(&units[p], now)
                } else if is_socket {
                    format_socket(&units[p])
                } else {
                    format_target(&units[p])
                };
                out.push(v);
                i = i + 1;
            }
            Ok(CommandOutcome::Respond(JsonValue::Array(out)))
        },
        Command::Status(None) => {
            let mut out: Vec<JsonValue> = Vec::new();
            let mut i: usize = 0;
            while i < units.len()
                invariant
                    i <= units@.len(),
                    table_wf(units@),
                    out@.len() == i,
                    forall|j: int| 0 <= j < i ==> formatted_by_kind(units@[j], now, #[trigger] out@[j]),
                decreases units.len() - i,
            {
                proof {
                    assert(units@[i as int].conf.has_file_name());
                }
                let v = match kind_of(&units[i]) {
                    UnitIdKind::Socket => format_socket(&units[i]),
                    UnitIdKind::Service => format_service(&units[i], now),
                    UnitIdKind::Target => format_target(&units[i]),
                };
                out.push(v);
                i = i + 1;
            }
            Ok(CommandOutcome::Respond(JsonValue::Array(out)))
        },
        Command::ListUnits(kind) => {
            let mut out: Vec<JsonValue> = Vec::new();
            let ghost mut ps: Seq<int> = Seq::empty();
            let mut i: usize = 0;
            proof {
                assert(units@.take(0) =~= Seq::<Unit>::empty());
            }
            while i < units.len()
                invariant
                    i <= units@.len(),
                    table_wf(units@),
                    ps == listed_positions(units@.take(i as int), kind),
                    forall|j: int| 0 <= j < ps.len() ==> 0 <= #[trigger] ps[j] < i,
                    out@.len() == ps.len(),
                    forall|j: int| 0 <= j < out@.len() ==> (#[trigger] out@[j] matches JsonValue::Str(n) && n@ == units@[ps[j]].conf.spec_name()),
                decreases units.len() - i,
            {
                proof {
                    assert(units@.take(i + 1).drop_last() =~= units@.take(i as int));
                    assert(units@.take(i + 1).last() == units@[i as int]);
                    assert(units@[i as int].conf.has_file_name());
                }
                let wanted = match kind {
                    Some(k) => k == kind_of(&units[i]),
                    None => true,
                };
                if wanted {
                    out.push(JsonValue::Str(units[i].conf.name()));
                    proof {
                        ps = ps.push(i as int);
                    }
                }
                i = i + 1;
            }
            proof {
                assert(units@.take(units@.len() as int) =~= units@);
            }
            Ok(CommandOutcome::Respond(JsonValue::Array(out)))
        },
    }
}

/// The error code and message with which a call that is no command is answered: an
/// invalid-params error or a method-not-found error.
pub fn parse_error_code(e: ParseError) -> (res: (i64, String))
    ensures
        match e {
            ParseError::ParamsInvalid(m) => res.0 == INVALID_PARAMS_ERROR && res.1@ == m@,
            ParseError::MethodNotFound(m) => res.0 == METHOD_NOT_FOUND_ERROR && res.1@ == m@,
        },
{
    match e {
        ParseError::ParamsInvalid(s) => (INVALID_PARAMS_ERROR, s),
        ParseError::MethodNotFound(s) => (METHOD_NOT_FOUND_ERROR, s),
    }
}

/// The answer to a call that is no valid request: an invalid-request error without id.
pub fn invalid_request_response(reason: String) -> (res: JsonValue)
    ensures
        crate::jsonrpc2::error_response(None, INVALID_REQUEST_ERROR, reason@, None, res),
{
    make_error_response(None, make_error(INVALID_REQUEST_ERROR, reason, None))
}

/// The answer to a call that is no command (see `parse_error_code`), with the call's id.
pub fn parse_error_response(id: Option<JsonValue>, e: ParseError) -> (res: JsonValue)
    ensures
        match e {
            ParseError::ParamsInvalid(m) => crate::jsonrpc2::error_response(id, INVALID_PARAMS_ERROR, m@, None, res),
            ParseError::MethodNotFound(m) => crate::jsonrpc2::error_response(id, METHOD_NOT_FOUND_ERROR, m@, None, res),
        },
{
    let (code, msg) = parse_error_code(e);
    make_error_response(id, make_error(code, msg, None))
}

/// The answer to an executed command, with the call's id: its result, or a server error
/// with the reason it failed.
pub fn command_response(id: Option<JsonValue>, outcome: Result<JsonValue, String>) -> (res: JsonValue)
    ensures
        match outcome {
            Ok(r) => crate::jsonrpc2::result_response(id, r, res),
            Err(e) => crate::jsonrpc2::error_response(id, SERVER_ERROR, e@, None, res),
        },
{
    match outcome {
        Ok(r) => make_result_response(id, r),
        Err(e) => make_error_response(id, make_error(SERVER_ERROR, e, None)),
    }
}

} // verus!
