//! JSON-RPC 2.0 messages of the control interface, over a JSON value type of the library.
use vstd::prelude::*;

use crate::text::to_chars;

verus! {

/// A JSON value. Numbers are integers; an object keeps its members in order.
pub enum JsonValue {
    Null,
    Bool(bool),
    Number(i64),
    Str(String),
    Array(Vec<JsonValue>),
    Object(Vec<(String, JsonValue)>),
}

/// A JSON-RPC request: the method, its parameters and the request id, where given.
pub struct Call {
    pub method: String,
    pub params: Option<JsonValue>,
    pub id: Option<JsonValue>,
}

/// A JSON-RPC error: its code, message and extra data.
pub struct Error {
    pub code: i64,
    pub message: String,
    pub data: Option<JsonValue>,
}

pub const PARSE_ERROR: i64 = -32700;

pub const INVALID_REQUEST_ERROR: i64 = -32600;

pub const METHOD_NOT_FOUND_ERROR: i64 = -32601;

pub const INVALID_PARAMS_ERROR: i64 = -32602;

pub const SERVER_ERROR: i64 = -32000;

pub const INTERNAL_ERROR: i64 = -32603;

/// The position of the first member of `members` named `key`, if any.
pub open spec fn member_index(members: Seq<(String, JsonValue)>, key: Seq<char>) -> Option<int>
    decreases members.len(),
{
    if members.len() == 0 {
        None
    } else {
        match member_index(members.drop_last(), key) {
            Some(i) => Some(i),
            None => if members.last().0@ == key {
                Some(members.len() - 1)
            } else {
                None
            },
        }
    }
}

/// The value of the first member of `members` named `key`, if any.
pub open spec fn member(members: Seq<(String, JsonValue)>, key: Seq<char>) -> Option<JsonValue> {
    match member_index(members, key) {
        Some(i) => Some(members[i].1),
        None => None,
    }
}

proof fn lemma_member_index_bounds(members: Seq<(String, JsonValue)>, key: Seq<char>)
    ensures
        member_index(members, key) matches Some(i) ==> 0 <= i < members.len() && members[i].0@ == key
            && forall|j: int| 0 <= j < i ==> members[j].0@ != key,
        member_index(members, key) is None ==> forall|j: int| 0 <= j < members.len() ==> members[j].0@ != key,
    decreases members.len(),
{
    if members.len() > 0 {
        let t = members.drop_last();
        lemma_member_index_bounds(t, key);
        assert forall|j: int| 0 <= j < t.len() implies t[j] == members[j] by {}
    }
}

/// The value of the first member named `key`, if any.
pub fn get_member<'a>(members: &'a Vec<(String, JsonValue)>, key: &str) -> (res: Option<&'a JsonValue>)
    ensures
        match res {
            Some(v) => member(members@, key@) == Some(*v),
            None => member(members@, key@) is None,
        },
{
    proof {
        lemma_member_index_bounds(members@, key@);
    }
    let k = to_chars(key);
    let mut i: usize = 0;
    while i < members.len()
        invariant
            i <= members@.len(),
            k@ == key@,
            forall|j: int| 0 <= j < i ==> members@[j].0@ != key@,
            member_index(members@, key@) matches Some(m) ==> i <= m && m < members@.len() && members@[m].0@ == key@
                && forall|j: int| 0 <= j < m ==> members@[j].0@ != key@,
            member_index(members@, key@) is None ==> forall|j: int| 0 <= j < members@.len() ==> members@[j].0@ != key@,
        decreases members.len() - i,
    {
        let name = to_chars(members[i].0.as_str());
        if crate::text::chars_eq(&name, &k) {
            return Some(&members[i].1);
        }
        i = i + 1;
    }
    None
}

/// Why a JSON value is no call: not an object, no method, or a method that is no string.
pub open spec fn call_error(val: JsonValue) -> Option<Seq<char>> {
    match val {
        JsonValue::Object(m) => match member(m@, "method"@) {
            None => Some("No method name given"@),
            Some(JsonValue::Str(_)) => None,
            Some(_) => Some("method was not  a string"@),
        },
        _ => Some("Value wasn't an object"@),
    }
}

/// `c` is the call that the object with members `m` describes.
pub open spec fn call_matches(c: Call, m: Seq<(String, JsonValue)>) -> bool {
    &&& member(m, "method"@) matches Some(JsonValue::Str(s)) && c.method@ == s@
    &&& c.params == member(m, "params"@)
    &&& c.id == member(m, "id"@)
}

/// `m` are the members of the JSON object for the call `c`: `jsonrpc` `"2.0"`, `method`,
/// then `params` and `id` where present.
pub open spec fn call_json(c: Call, m: Seq<(String, JsonValue)>) -> bool {
    let n = 2 + (if c.params is Some { 1int } else { 0 }) + (if c.id is Some { 1int } else { 0 });
    &&& m.len() == n
    &&& m[0].0@ == "jsonrpc"@
    &&& m[0].1 matches JsonValue::Str(v) && v@ == "2.0"@
    &&& m[1].0@ == "method"@
    &&& m[1].1 matches JsonValue::Str(v) && v@ == c.method@
    &&& c.params matches Some(p) ==> m[2].0@ == "params"@ && m[2].1 == p
    &&& c.id matches Some(i) ==> m[n - 1].0@ == "id"@ && m[n - 1].1 == i
}

/// Reading back the JSON object of a call gives the same call: the object is a call (so
/// `from_json` succeeds on it), and every call it describes has the same method,
/// parameters and id.
pub proof fn law_call_json_round_trip(c: Call, v: JsonValue)
    requires
        v matches JsonValue::Object(m) && call_json(c, m@),
    ensures
        call_error(v) is None,
        forall|c2: Call| (v matches JsonValue::Object(m) && call_matches(c2, m@)) ==> {
            &&& c2.method@ == c.method@
            &&& c2.params == c.params
            &&& c2.id == c.id
        },
{
    reveal_strlit("jsonrpc");
    reveal_strlit("method");
    reveal_strlit("params");
    reveal_strlit("id");
    let m = v->Object_0@;
    assert("jsonrpc"@[0] != "method"@[0]);
    assert("method"@[0] != "params"@[0]);
    lemma_member_index_bounds(m, "method"@);
    lemma_member_index_bounds(m, "params"@);
    lemma_member_index_bounds(m, "id"@);
    assert(m[0].0@ == "jsonrpc"@);
    assert(m[1].0@ == "method"@);
    assert(member_index(m, "method"@) == Some(1int));
    if c.params is Some {
        assert(m[2].0@ == "params"@);
        assert(member_index(m, "params"@) == Some(2int));
        if c.id is Some {
            assert(m.len() == 4);
            assert(m[3].0@ == "id"@);
            assert(member_index(m, "id"@) == Some(3int));
        } else {
            assert(m.len() == 3);
            assert(member_index(m, "id"@) is None);
        }
    } else {
        if c.id is Some {
            assert(m.len() == 3);
            assert(m[2].0@ == "id"@);
            assert(member_index(m, "id"@) == Some(2int));
            assert(member_index(m, "params"@) is None);
        } else {
            assert(m.len() == 2);
            assert(member_index(m, "params"@) is None);
            assert(member_index(m, "id"@) is None);
        }
    }
}

/// `cand` is the value of the first member named `key` at position `j` or later in `m`.
pub open spec fn first_from(m: Seq<(String, JsonValue)>, key: Seq<char>, j: int, cand: Option<JsonValue>) -> bool {
    match cand {
        Some(v) => exists|k: int| j <= k < m.len() && m[k].0@ == key && m[k].1 == v && forall|l: int| j <= l < k ==> #[trigger] m[l].0@ != key,
        None => forall|l: int| j <= l < m.len() ==> #[trigger] m[l].0@ != key,
    }
}

proof fn lemma_first_from_zero(m: Seq<(String, JsonValue)>, key: Seq<char>, cand: Option<JsonValue>)
    requires
        first_from(m, key, 0, cand),
    ensures
        member(m, key) == cand,
{
    lemma_member_index_bounds(m, key);
    match cand {
        Some(v) => {
            let k = choose|k: int| 0 <= k < m.len() && m[k].0@ == key && m[k].1 == v && forall|l: int| 0 <= l < k ==> #[trigger] m[l].0@ != key;
            match member_index(m, key) {
                Some(i) => {
                    if i < k {
                        assert(m[i].0@ != key);
                    } else if i > k {
                        assert(m[k].0@ != key);
                    }
                },
                None => {
                    assert(m[k].0@ != key);
                },
            }
        },
        None => {
            match member_index(m, key) {
                Some(i) => {
                    assert(m[i].0@ != key);
                },
                None => {},
            }
        },
    }
}

/// Whether the characters of `s` are those of `lit`.
fn eq_lit_str(s: &String, lit: &str) -> (res: bool)
    ensures
        res == (s@ == lit@),
{
    let a = to_chars(s.as_str());
    let b = to_chars(lit);
    crate::text::chars_eq(&a, &b)
}

impl Call {
    /// The call that a JSON value describes: an object with a string member `method`, and
    /// `params` and `id` taken as they are where present.
    pub fn from_json(val: JsonValue) -> (res: Result<Call, String>)
        ensures
            match res {
                Ok(c) => call_error(val) is None && (val matches JsonValue::Object(m) && call_matches(c, m@)),
                Err(e) => call_error(val) == Some(e@),
            },
    {
        match val {
            JsonValue::Object(map) => {
                let ghost m0 = map@;
                proof {
                    lemma_member_index_bounds(m0, "method"@);
                    lemma_member_index_bounds(m0, "params"@);
                    lemma_member_index_bounds(m0, "id"@);
                }
                let mut members = map;
                let mut method_v: Option<JsonValue> = None;
                let mut params: Option<JsonValue> = None;
                let mut id: Option<JsonValue> = None;
                while members.len() > 0
                    invariant
                        members@ == m0.take(members@.len() as int),
                        members@.len() <= m0.len(),
                        first_from(m0, "method"@, members@.len() as int, method_v),
                        first_from(m0, "params"@, members@.len() as int, params),
                        first_from(m0, "id"@, members@.len() as int, id),
                    decreases members.len(),
                {
                    let ghost j = members@.len() - 1;
                    let (k, v) = members.pop().unwrap();
                    proof {
                        reveal_strlit("method");
                        reveal_strlit("params");
                        reveal_strlit("id");
                        assert("method"@[0] != "params"@[0]);
                        assert(m0[j] == (k, v));
                        assert(members@ =~= m0.take(j));
                    }
                    if eq_lit_str(&k, "method") {
                        method_v = Some(v);
                    } else if eq_lit_str(&k, "params") {
                        params = Some(v);
                    } else if eq_lit_str(&k, "id") {
                        id = Some(v);
                    }
                }
                proof {
                    lemma_first_from_zero(m0, "method"@, method_v);
                    lemma_first_from_zero(m0, "params"@, params);
                    lemma_first_from_zero(m0, "id"@, id);
                }
                match method_v {
                    None => Err("No method name given".to_owned()),
                    Some(JsonValue::Str(method)) => Ok(Call { method, params, id }),
                    Some(_) => Err("method was not  a string".to_owned()),
                }
            },
            _ => Err("Value wasn't an object".to_owned()),
        }
    }

    /// The JSON object for this call: `jsonrpc` `"2.0"`, `method`, and `params` and `id`
    /// where present.
    pub fn to_json(self) -> (res: JsonValue)
        ensures
            res matches JsonValue::Object(m) && call_json(self, m@),
    {
        let ghost c = self;
        let mut map: Vec<(String, JsonValue)> = Vec::new();
        map.push(("jsonrpc".to_owned(), JsonValue::Str("2.0".to_owned())));
        map.push(("method".to_owned(), JsonValue::Str(self.method)));
        match self.params {
            Some(p) => map.push(("params".to_owned(), p)),
            None => {},
        }
        match self.id {
            Some(i) => map.push(("id".to_owned(), i)),
            None => {},
        }
        JsonValue::Object(map)
    }
}

/// `v` is the response carrying `result`: `jsonrpc` `"2.0"`, `result`, and `id` where given.
pub open spec fn result_response(id: Option<JsonValue>, result: JsonValue, v: JsonValue) -> bool {
    v matches JsonValue::Object(m) && {
        &&& m@.len() == if id is Some { 3int } else { 2int }
        &&& m@[0].0@ == "jsonrpc"@
        &&& (m@[0].1 matches JsonValue::Str(x) && x@ == "2.0"@)
        &&& m@[1].0@ == "result"@
        &&& m@[1].1 == result
        &&& id matches Some(i) ==> m@[2].0@ == "id"@ && m@[2].1 == i
    }
}

/// The response carrying `result` (see `result_response`).
pub fn make_result_response(id: Option<JsonValue>, result: JsonValue) -> (res: JsonValue)
    ensures
        result_response(id, result, res),
{
    let mut response: Vec<(String, JsonValue)> = Vec::new();
    response.push(("jsonrpc".to_owned(), JsonValue::Str("2.0".to_owned())));
    response.push(("result".to_owned(), result));
    match id {
        Some(i) => response.push(("id".to_owned(), i)),
        None => {},
    }
    JsonValue::Object(response)
}

/// An error with the given code, message and data.
pub fn make_error(code: i64, message: String, data: Option<JsonValue>) -> (res: Error)
    ensures
        res == (Error { code, message, data }),
{
    Error { code, message, data }
}

/// `v` is the response carrying the error with `code`, `message` and `data`: `jsonrpc`
/// `"2.0"`, `error` (an object of `code`, `message` and `data` where given), and `id` where
/// given.
pub open spec fn error_response(id: Option<JsonValue>, code: i64, message: Seq<char>, data: Option<JsonValue>, v: JsonValue) -> bool {
    v matches JsonValue::Object(m) && {
        &&& m@.len() == if id is Some { 3int } else { 2int }
        &&& m@[0].0@ == "jsonrpc"@
        &&& (m@[0].1 matches JsonValue::Str(x) && x@ == "2.0"@)
        &&& m@[1].0@ == "error"@
        &&& (m@[1].1 matches JsonValue::Object(e) && {
            &&& e@.len() == if data is Some { 3int } else { 2int }
            &&& e@[0].0@ == "code"@
            &&& e@[0].1 == JsonValue::Number(code)
            &&& e@[1].0@ == "message"@
            &&& (e@[1].1 matches JsonValue::Str(msg) && msg@ == message)
            &&& data matches Some(d) ==> e@[2].0@ == "data"@ && e@[2].1 == d
        })
        &&& id matches Some(i) ==> m@[2].0@ == "id"@ && m@[2].1 == i
    }
}

/// The response carrying `error` (see `error_response`).
pub fn make_error_response(id: Option<JsonValue>, error: Error) -> (res: JsonValue)
    ensures
        error_response(id, error.code, error.message@, error.data, res),
{
    let mut json_err: Vec<(String, JsonValue)> = Vec::new();
    json_err.push(("code".to_owned(), JsonValue::Number(error.code)));
    json_err.push(("message".to_owned(), JsonValue::Str(error.message)));
    match error.data {
        Some(d) => json_err.push(("data".to_owned(), d)),
        None => {},
    }
    let mut response: Vec<(String, JsonValue)> = Vec::new();
    response.push(("jsonrpc".to_owned(), JsonValue::Str("2.0".to_owned())));
    response.push(("error".to_owned(), JsonValue::Object(json_err)));
    match id {
        Some(i) => response.push(("id".to_owned(), i)),
        None => {},
    }
    JsonValue::Object(response)
}

/// A value that the `serde_json` crate decodes or encodes.
#[verifier::external_type_specification]
#[verifier::external_body]
pub struct ExJsonValue(serde_json::Value);

/// The library value for a value that `serde_json` decoded: null, booleans, strings,
/// arrays and objects as they are, a number that is an `i64` as that number and any other
/// number as `Null` (the library holds no fractions). Nothing is stated of it on its own:
/// the decoding items that use it state what the two give.
#[verifier::external_body]
pub(crate) fn library_value(v: &serde_json::Value) -> JsonValue {
    match v {
        serde_json::Value::Null => JsonValue::Null,
        serde_json::Value::Bool(b) => JsonValue::Bool(*b),
        serde_json::Value::Number(n) => match n.as_i64() {
            Some(i) => JsonValue::Number(i),
            None => JsonValue::Null,
        },
        serde_json::Value::String(s) => JsonValue::Str(s.clone()),
        serde_json::Value::Array(a) => JsonValue::Array(a.iter().map(library_value).collect()),
        serde_json::Value::Object(m) => JsonValue::Object(m.iter().map(|(k, v)| (k.clone(), library_value(v))).collect()),
    }
}

/// The `serde_json::Value` for a library value: the same shape, an object's members
/// inserted in order (a later member of the same name replacing an earlier one). Nothing
/// is stated of it on its own: `pretty_json` states what the two give.
#[verifier::external_body]
fn serde_value(v: &JsonValue) -> serde_json::Value {
    match v {
        JsonValue::Null => serde_json::Value::Null,
        JsonValue::Bool(b) => serde_json::Value::Bool(*b),
        JsonValue::Number(i) => serde_json::Value::Number((*i).into()),
        JsonValue::Str(s) => serde_json::Value::String(s.clone()),
        JsonValue::Array(a) => serde_json::Value::Array(a.iter().map(serde_value).collect()),
        JsonValue::Object(m) => serde_json::Value::Object(m.iter().map(|(k, v)| (k.clone(), serde_value(v))).collect()),
    }
}

/// What `serde_json::to_string_pretty` writes for the value `v` held as a
/// `serde_json::Value`.
pub uninterp spec fn json_pretty_text(v: JsonValue) -> Seq<char>;

/// Encodes `v` with `serde_json::to_string_pretty`. Claimed: the text is
/// `json_pretty_text` of the value, a function of the value alone. Encoding a
/// `serde_json::Value` cannot fail (its keys are strings); the empty text stands for a
/// failure all the same.
#[verifier::external_body]
fn pretty_json(v: &JsonValue) -> (res: String)
    ensures
        res@ == json_pretty_text(*v),
{
    match serde_json::to_string_pretty(&serde_value(v)) {
        Ok(t) => t,
        Err(_) => String::new(),
    }
}

/// The text sent back for the response `msg` on the control socket: the response encoded
/// as indented JSON (see `json_pretty_text`).
pub fn response_text(msg: &JsonValue) -> (res: String)
    ensures
        res@ == json_pretty_text(*msg),
{
    pretty_json(msg)
}

} // verus!
