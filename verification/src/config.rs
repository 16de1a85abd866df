//! The service manager's configuration: settings gathered from a JSON or TOML file and
//! from `RUSTYSD_...` environment variables, turned into the logging and general
//! configuration, with defaults for what is not set.
use vstd::prelude::*;

use crate::fd_store::NamedMap;
use crate::jsonrpc2::{member, JsonValue};
use crate::text::{join_with, split_chars, split_on, to_chars};

verus! {

/// Where and whether to log.
pub struct LoggingConfig {
    pub log_to_stdout: bool,
    pub log_to_disk: bool,
    pub log_dir: String,
}

/// The general configuration.
pub struct Config {
    /// The directories the unit files are read from.
    pub unit_dirs: Vec<String>,
    /// The unit that is to be reached at startup.
    pub target_unit: String,
    /// Where the notification sockets of the services are placed.
    pub notification_sockets_dir: String,
    /// The path of the service manager's own executable.
    pub self_path: String,
}

/// One setting.
pub enum SettingValue {
    Str(String),
    Array(Vec<SettingValue>),
    Boolean(bool),
}

/// The settings, by name (such as `unit.dirs` or `logging.dir`).
pub type Settings = NamedMap<SettingValue>;

/// The setting a list element of `unit_dirs` in a file gives: the string, or the empty
/// string for anything else.
pub open spec fn dir_element_ok(doc_elem: JsonValue, s: SettingValue) -> bool {
    match doc_elem {
        JsonValue::Str(x) => s matches SettingValue::Str(y) && y@ == x@,
        _ => s matches SettingValue::Str(y) && y@.len() == 0,
    }
}

/// `v` is the setting that the file member `m` gives for a key of the kind `kind`
/// (0: list of strings, 1: string, 2: boolean), if it has that kind.
pub open spec fn member_setting(m: Option<JsonValue>, kind: u8, v: Option<SettingValue>) -> bool {
    match m {
        Some(JsonValue::Array(elems)) if kind == 0 => v matches Some(SettingValue::Array(a)) && a@.len() == elems@.len()
            && forall|i: int| 0 <= i < a@.len() ==> dir_element_ok(elems@[i], #[trigger] a@[i]),
        Some(JsonValue::Str(x)) if kind == 1 => v matches Some(SettingValue::Str(y)) && y@ == x@,
        Some(JsonValue::Bool(b)) if kind == 2 => v == Some(SettingValue::Boolean(b)),
        _ => v is None,
    }
}

/// The setting made from a file member of kind `kind` (see `member_setting`).
fn setting_of_member(m: Option<&JsonValue>, kind: u8) -> (res: Option<SettingValue>)
    ensures
        member_setting(match m { Some(x) => Some(*x), None => None }, kind, res),
{
    match m {
        Some(JsonValue::Array(elems)) => {
            if kind != 0 {
                return None;
            }
            let mut a: Vec<SettingValue> = Vec::new();
            let mut i: usize = 0;
            while i < elems.len()
                invariant
                    i <= elems@.len(),
                    a@.len() == i,
                    forall|j: int| 0 <= j < i ==> dir_element_ok(elems@[j], #[trigger] a@[j]),
                decreases elems.len() - i,
            {
                let s = match &elems[i] {
                    JsonValue::Str(x) => SettingValue::Str(x.clone()),
                    _ => SettingValue::Str(String::new()),
                };
                a.push(s);
                i = i + 1;
            }
            Some(SettingValue::Array(a))
        },
        Some(JsonValue::Str(x)) => if kind == 1 {
            Some(SettingValue::Str(x.clone()))
        } else {
            None
        },
        Some(JsonValue::Bool(b)) => if kind == 2 {
            Some(SettingValue::Boolean(*b))
        } else {
            None
        },
        _ => None,
    }
}

/// Stores `v` under `key` where there is a `v`.
fn store(settings: &mut Settings, key: &str, v: Option<SettingValue>)
    requires
        old(settings).wf(),
    ensures
        final(settings).wf(),
        match v {
            Some(x) => final(settings).lookup(key@) == Some(x) && forall|n: Seq<char>| n != key@ ==> #[trigger] final(settings).lookup(n) == old(settings).lookup(n),
            None => forall|n: Seq<char>| #[trigger] final(settings).lookup(n) == old(settings).lookup(n),
        },
{
    match v {
        Some(x) => settings.insert(key.to_owned(), x),
        None => {},
    }
}

/// The file members that a config file (JSON or TOML) sets, the name of the setting each
/// is stored under, and its kind (0: list of strings, 1: string, 2: boolean).
pub open spec fn file_keys() -> Seq<(Seq<char>, Seq<char>, u8)> {
    seq![
        ("unit_dirs"@, "unit.dirs"@, 0u8),
        ("logging_dir"@, "logging.dir"@, 1u8),
        ("log_to_disk"@, "logging.to_disk"@, 2u8),
        ("log_to_stdout"@, "logging.to_stdout"@, 2u8),
        ("target_unit"@, "target.unit"@, 1u8),
        ("selfpath"@, "selfpath"@, 1u8),
        ("notifications_dir"@, "notifications.dir"@, 1u8),
    ]
}

/// What storing the settings of the decoded config file `doc` does to the settings
/// `before`, giving `after`: `unit_dirs` (a list of strings), `logging_dir`,
/// `target_unit`, `selfpath` and `notifications_dir` (strings), `log_to_disk` and
/// `log_to_stdout` (booleans) are stored, each where the file has it with that kind, under
/// the names of `file_keys`; nothing else changes. A file that is no table gives nothing.
pub open spec fn document_settings(doc: JsonValue, before: Settings, after: Settings) -> bool {
    &&& match doc {
        JsonValue::Object(m) => forall|n: Seq<char>| #[trigger] after.lookup(n) == if exists|k: int| 0 <= k < 7 && file_keys()[k].1 == n {
            after.lookup(n)
        } else {
            before.lookup(n)
        },
        _ => forall|n: Seq<char>| #[trigger] after.lookup(n) == before.lookup(n),
    }
    &&& doc matches JsonValue::Object(m) ==> forall|k: int| 0 <= k < 7 ==> {
        let (file_key, name, kind) = #[trigger] file_keys()[k];
        (exists|v: Option<SettingValue>| member_setting(member(m@, file_key), kind, v) && match v {
            Some(x) => after.lookup(name) == Some(x),
            None => after.lookup(name) == before.lookup(name),
        })
    }
    &&& doc matches JsonValue::Object(m) ==> (member(m@, "log_to_disk"@) matches Some(JsonValue::Bool(b))
        ==> after.lookup("logging.to_disk"@) == Some(SettingValue::Boolean(b)))
    &&& doc matches JsonValue::Object(m) ==> (member(m@, "log_to_stdout"@) matches Some(JsonValue::Bool(b))
        ==> after.lookup("logging.to_stdout"@) == Some(SettingValue::Boolean(b)))
}

/// Stores the settings that the decoded config file `doc` gives (see `document_settings`).
pub fn settings_from_document(doc: &JsonValue, settings: &mut Settings)
    requires
        old(settings).wf(),
    ensures
        final(settings).wf(),
        document_settings(*doc, *old(settings), *final(settings)),
{
    let ghost s0 = *settings;
    match doc {
        JsonValue::Object(m) => {
            let to_disk = "logging.to_disk";
            let to_stdout = "logging.to_stdout";
            let v0 = setting_of_member(crate::jsonrpc2::get_member(m, "unit_dirs"), 0);
            let v1 = setting_of_member(crate::jsonrpc2::get_member(m, "logging_dir"), 1);
            let v2 = setting_of_member(crate::jsonrpc2::get_member(m, "log_to_disk"), 2);
            let v3 = setting_of_member(crate::jsonrpc2::get_member(m, "log_to_stdout"), 2);
            let v4 = setting_of_member(crate::jsonrpc2::get_member(m, "target_unit"), 1);
            let v5 = setting_of_member(crate::jsonrpc2::get_member(m, "selfpath"), 1);
            let v6 = setting_of_member(crate::jsonrpc2::get_member(m, "notifications_dir"), 1);
            let ghost g0 = v0;
            let ghost g1 = v1;
            let ghost g2 = v2;
            let ghost g3 = v3;
            let ghost g4 = v4;
            let ghost g5 = v5;
            let ghost g6 = v6;
            store(settings, "unit.dirs", v0);
            let ghost s1 = *settings;
            store(settings, "logging.dir", v1);
            let ghost s2 = *settings;
            store(settings, to_disk, v2);
            let ghost s3 = *settings;
            store(settings, to_stdout, v3);
            let ghost s4 = *settings;
            store(settings, "target.unit", v4);
            let ghost s5 = *settings;
            store(settings, "selfpath", v5);
            let ghost s6 = *settings;
            store(settings, "notifications.dir", v6);
            proof {
                reveal_strlit("unit.dirs");
                reveal_strlit("logging.dir");
                reveal_strlit("logging.to_disk");
                reveal_strlit("logging.to_stdout");
                reveal_strlit("target.unit");
                reveal_strlit("selfpath");
                reveal_strlit("notifications.dir");
                let ks = file_keys();
                let names = seq!["unit.dirs"@, "logging.dir"@, to_disk@, to_stdout@, "target.unit"@, "selfpath"@, "notifications.dir"@];
                assert(ks[0].1 == names[0]);
                assert(ks[1].1 == names[1]);
                assert(ks[2].1 == names[2]);
                assert(ks[3].1 == names[3]);
                assert(ks[4].1 == names[4]);
                assert(ks[5].1 == names[5]);
                assert(ks[6].1 == names[6]);
                assert("logging.dir"@[0] != "target.unit"@[0]);
                assert("logging.to_stdout"@[0] != "notifications.dir"@[0]);
                assert forall|a: int, b: int| 0 <= a < b < 7 implies #[trigger] names[a] != #[trigger] names[b] by {
                    if a == 0 && b == 1 {
                        assert(names[0].len() != names[1].len() || names[0][0] != names[1][0]);
                    } else if a == 0 && b == 2 {
                        assert(names[0].len() != names[2].len() || names[0][0] != names[2][0]);
                    } else if a == 0 && b == 3 {
                        assert(names[0].len() != names[3].len() || names[0][0] != names[3][0]);
                    } else if a == 0 && b == 4 {
                        assert(names[0].len() != names[4].len() || names[0][0] != names[4][0]);
                    } else if a == 0 && b == 5 {
                        assert(names[0].len() != names[5].len() || names[0][0] != names[5][0]);
                    } else if a == 0 && b == 6 {
                        assert(names[0].len() != names[6].len() || names[0][0] != names[6][0]);
                    } else if a == 1 && b == 2 {
                        assert(names[1].len() != names[2].len() || names[1][0] != names[2][0]);
                    } else if a == 1 && b == 3 {
                        assert(names[1].len() != names[3].len() || names[1][0] != names[3][0]);
                    } else if a == 1 && b == 4 {
                        assert(names[1].len() != names[4].len() || names[1][0] != names[4][0]);
                    } else if a == 1 && b == 5 {
                        assert(names[1].len() != names[5].len() || names[1][0] != names[5][0]);
                    } else if a == 1 && b == 6 {
                        assert(names[1].len() != names[6].len() || names[1][0] != names[6][0]);
                    } else if a == 2 && b == 3 {
                        assert(names[2].len() != names[3].len() || names[2][0] != names[3][0]);
                    } else if a == 2 && b == 4 {
                        assert(names[2].len() != names[4].len() || names[2][0] != names[4][0]);
                    } else if a == 2 && b == 5 {
                        assert(names[2].len() != names[5].len() || names[2][0] != names[5][0]);
                    } else if a == 2 && b == 6 {
                        assert(names[2].len() != names[6].len() || names[2][0] != names[6][0]);
                    } else if a == 3 && b == 4 {
                        assert(names[3].len() != names[4].len() || names[3][0] != names[4][0]);
                    } else if a == 3 && b == 5 {
                        assert(names[3].len() != names[5].len() || names[3][0] != names[5][0]);
                    } else if a == 3 && b == 6 {
                        assert(names[3].len() != names[6].len() || names[3][0] != names[6][0]);
                    } else if a == 4 && b == 5 {
                        assert(names[4].len() != names[5].len() || names[4][0] != names[5][0]);
                    } else if a == 4 && b == 6 {
                        assert(names[4].len() != names[6].len() || names[4][0] != names[6][0]);
                    } else if a == 5 && b == 6 {
                        assert(names[5].len() != names[6].len() || names[5][0] != names[6][0]);
                    }
                }
                let fs = *settings;
                let states = seq![s0, s1, s2, s3, s4, s5, s6, fs];
                assert forall|k: int, n: Seq<char>| #![trigger states[k].lookup(n)] 1 <= k <= 7 && (forall|j: int| k <= j < 7 ==> names[j] != n) implies fs.lookup(n) == states[k].lookup(n) by {
                    assert(fs.lookup(n) == states[7].lookup(n));
                    if k < 7 { assert(states[7].lookup(n) == states[6].lookup(n)); }
                    if k < 6 { assert(states[6].lookup(n) == states[5].lookup(n)); }
                    if k < 5 { assert(states[5].lookup(n) == states[4].lookup(n)); }
                    if k < 4 { assert(states[4].lookup(n) == states[3].lookup(n)); }
                    if k < 3 { assert(states[3].lookup(n) == states[2].lookup(n)); }
                    if k < 2 { assert(states[2].lookup(n) == states[1].lookup(n)); }
                }
                assert forall|n: Seq<char>| (forall|j: int| 0 <= j < 7 ==> names[j] != n) implies #[trigger] fs.lookup(n) == s0.lookup(n) by {
                    assert(names[0] != n);
                    assert(states[1].lookup(n) == states[1].lookup(n));
                    assert(fs.lookup(n) == states[1].lookup(n));
                }
                let gs = seq![g0, g1, g2, g3, g4, g5, g6];
                assert forall|k: int| 0 <= k < 7 implies ({
                    let (file_key, name, kind) = #[trigger] file_keys()[k];
                    (exists|v: Option<SettingValue>| member_setting(member(m@, file_key), kind, v) && match v {
                        Some(x) => fs.lookup(name) == Some(x),
                        None => fs.lookup(name) == s0.lookup(name),
                    })
                }) by {
                    assert(member_setting(member(m@, ks[k].0), ks[k].2, gs[k]));
                    assert(fs.lookup(names[k]) == states[k + 1].lookup(names[k]));
                    match gs[k] {
                        Some(x) => {
                            assert(states[k + 1].lookup(names[k]) == Some(x));
                        },
                        None => {
                            assert(states[k + 1].lookup(names[k]) == states[k].lookup(names[k]));
                            assert forall|j: int| 0 <= j < k implies names[j] != names[k] by {}
                            if k > 0 {
                                assert(states[k].lookup(names[k]) == s0.lookup(names[k])) by {
                                    if k >= 6 { assert(states[6].lookup(names[k]) == states[5].lookup(names[k])); }
                                    if k >= 5 { assert(states[5].lookup(names[k]) == states[4].lookup(names[k])); }
                                    if k >= 4 { assert(states[4].lookup(names[k]) == states[3].lookup(names[k])); }
                                    if k >= 3 { assert(states[3].lookup(names[k]) == states[2].lookup(names[k])); }
                                    if k >= 2 { assert(states[2].lookup(names[k]) == states[1].lookup(names[k])); }
                                    assert(states[1].lookup(names[k]) == states[0].lookup(names[k]));
                                }
                            }
                        },
                    }
                }
                assert forall|n: Seq<char>| #[trigger] fs.lookup(n) == if exists|k: int| 0 <= k < 7 && file_keys()[k].1 == n {
                    fs.lookup(n)
                } else {
                    s0.lookup(n)
                } by {
                    if !(exists|k: int| 0 <= k < 7 && file_keys()[k].1 == n) {
                        assert forall|j: int| 0 <= j < 7 implies names[j] != n by {
                            assert(file_keys()[j].1 == names[j]);
                        }
                    }
                }
                if let Some(JsonValue::Bool(b)) = member(m@, "log_to_disk"@) {
                    assert(member_setting(member(m@, ks[2].0), 2, g2));
                    assert(fs.lookup(names[2]) == states[3].lookup(names[2]));
                    assert(states[3].lookup(names[2]) == Some(SettingValue::Boolean(b)));
                }
                if let Some(JsonValue::Bool(b)) = member(m@, "log_to_stdout"@) {
                    assert(member_setting(member(m@, ks[3].0), 2, g3));
                    assert(fs.lookup(names[3]) == states[4].lookup(names[3]));
                    assert(states[4].lookup(names[3]) == Some(SettingValue::Boolean(b)));
                }
            }
        },
        _ => {},
    }
}

/// A value that the `toml` crate decodes.
#[verifier::external_type_specification]
#[verifier::external_body]
pub struct ExTomlValue(toml::Value);

/// What `toml::from_str` gives for the text `text`, decoded into a `toml::Value` and held
/// as a library value (`Ok`), or the text of its error (`Err`).
pub uninterp spec fn toml_decoded(text: Seq<char>) -> Result<JsonValue, Seq<char>>;

/// The library value for a value that `toml` decoded: strings, integers, booleans, arrays
/// and tables as they are, a datetime or a float as `Null` (no setting reads either, and
/// a datetime is no string setting). Nothing is stated of it on its own: `decode_toml` states what the two give.
#[verifier::external_body]
fn toml_json(v: &toml::Value) -> JsonValue {
    match v {
        toml::Value::String(s) => JsonValue::Str(s.clone()),
        toml::Value::Integer(i) => JsonValue::Number(*i),
        toml::Value::Float(_) => JsonValue::Null,
        toml::Value::Boolean(b) => JsonValue::Bool(*b),
        toml::Value::Datetime(_) => JsonValue::Null,
        toml::Value::Array(a) => JsonValue::Array(a.iter().map(toml_json).collect()),
        toml::Value::Table(t) => JsonValue::Object(t.iter().map(|(k, v)| (k.clone(), toml_json(v))).collect()),
    }
}

/// Decodes TOML text with `toml::from_str` into a `toml::Value`. Claimed: the outcome is
/// `toml_decoded` of the text, a function of the text alone: the decoded document where
/// the text is TOML, else the text of `toml`'s error.
#[verifier::external_body]
fn decode_toml(text: &str) -> (res: Result<JsonValue, String>)
    ensures
        match res {
            Ok(v) => toml_decoded(text@) == Ok::<JsonValue, Seq<char>>(v),
            Err(e) => toml_decoded(text@) == Err::<JsonValue, Seq<char>>(e@),
        },
{
    match toml::from_str::<toml::Value>(text) {
        Ok(v) => Ok(toml_json(&v)),
        Err(e) => Err(e.to_string()),
    }
}

/// Stores the settings of a TOML config file with the text `text` (see
/// `document_settings`). Where the text is no TOML, nothing is stored and the error is
/// `Error while decoding config toml: ` followed by the decoder's message.
pub fn load_toml_settings(text: &str, settings: &mut Settings) -> (res: Result<(), String>)
    requires
        old(settings).wf(),
    ensures
        final(settings).wf(),
        match toml_decoded(text@) {
            Ok(doc) => res is Ok && document_settings(doc, *old(settings), *final(settings)),
            Err(msg) => res matches Err(e) && e@ == "Error while decoding config toml: "@ + msg
                && *final(settings) == *old(settings),
        },
{
    match decode_toml(text) {
        Ok(doc) => {
            settings_from_document(&doc, settings);
            Ok(())
        },
        Err(msg) => Err(crate::text::concat_strs("Error while decoding config toml: ", &msg)),
    }
}

/// What `serde_json::from_str` gives for the text `text`, decoded into a
/// `serde_json::Value` and held as a library value (`Ok`), or the text of its error
/// (`Err`).
pub uninterp spec fn json_decoded(text: Seq<char>) -> Result<JsonValue, Seq<char>>;

/// Decodes JSON text with `serde_json::from_str` into a `serde_json::Value`. Claimed: the
/// outcome is `json_decoded` of the text, a function of the text alone: the decoded
/// document where the text is JSON, else the text of `serde_json`'s error.
#[verifier::external_body]
fn decode_json(text: &str) -> (res: Result<JsonValue, String>)
    ensures
        match res {
            Ok(v) => json_decoded(text@) == Ok::<JsonValue, Seq<char>>(v),
            Err(e) => json_decoded(text@) == Err::<JsonValue, Seq<char>>(e@),
        },
{
    match serde_json::from_str::<serde_json::Value>(text) {
        Ok(v) => Ok(crate::jsonrpc2::library_value(&v)),
        Err(e) => Err(e.to_string()),
    }
}

/// Stores the settings of a JSON config file with the text `text` (see
/// `document_settings`). Where the text is no JSON, nothing is stored and the error is
/// `Error while decoding config json: ` followed by the decoder's message.
pub fn load_json_settings(text: &str, settings: &mut Settings) -> (res: Result<(), String>)
    requires
        old(settings).wf(),
    ensures
        final(settings).wf(),
        match json_decoded(text@) {
            Ok(doc) => res is Ok && document_settings(doc, *old(settings), *final(settings)),
            Err(msg) => res matches Err(e) && e@ == "Error while decoding config json: "@ + msg
                && *final(settings) == *old(settings),
        },
{
    match decode_json(text) {
        Ok(doc) => {
            settings_from_document(&doc, settings);
            Ok(())
        },
        Err(msg) => Err(crate::text::concat_strs("Error while decoding config json: ", &msg)),
    }
}

/// The setting name for the environment variable `key`: its `_`-separated parts, lower
/// cased, where the first is `rustysd`, without that first part and joined with `.`
/// (`RUSTYSD_LOGGING_DIR` gives `logging.dir`); none for other variables.
pub open spec fn spec_env_setting(key: Seq<char>) -> Option<Seq<char>> {
    let parts = split_on(key, '_').map_values(|p: Seq<char>| crate::text::lowercase(p));
    if parts[0] == "rustysd"@ {
        Some(join_with(parts.drop_first(), seq!['.']))
    } else {
        None
    }
}

/// The setting name for an environment variable (see `spec_env_setting`).
pub fn env_setting(key: &String) -> (res: Option<String>)
    ensures
        match res {
            Some(n) => spec_env_setting(key@) == Some(n@),
            None => spec_env_setting(key@) is None,
        },
{
    let chars = to_chars(key.as_str());
    let raw = split_chars(&chars, '_');
    proof {
        crate::text::lemma_split_nonempty(key@, '_');
    }
    let ghost parts = split_on(key@, '_').map_values(|p: Seq<char>| crate::text::lowercase(p));
    let mut lower: Vec<String> = Vec::new();
    let mut i: usize = 0;
    while i < raw.len()
        invariant
            i <= raw@.len(),
            raw@.len() == split_on(key@, '_').len(),
            forall|k: int| 0 <= k < raw@.len() ==> #[trigger] raw@[k]@ == split_on(key@, '_')[k],
            lower@.len() == i,
            forall|k: int| 0 <= k < i ==> #[trigger] lower@[k]@ == crate::text::lowercase(raw@[k]@),
        decreases raw.len() - i,
    {
        lower.push(crate::text::to_lowercase(raw[i].as_str()));
        i = i + 1;
    }
    proof {
        assert(lower@.map_values(|s: String| s@) =~= parts);
    }
    if !crate::config::is_text(&lower[0], "rustysd") {
        return None;
    }
    let mut joined = String::new();
    let mut k: usize = 1;
    proof {
        assert(parts.drop_first().take(0) =~= Seq::<Seq<char>>::empty());
    }
    while k < lower.len()
        invariant
            1 <= k <= lower@.len(),
            lower@.len() == parts.len(),
            forall|j: int| 0 <= j < lower@.len() ==> #[trigger] lower@[j]@ == parts[j],
            joined@ == join_with(parts.drop_first().take(k - 1), seq!['.']),
        decreases lower.len() - k,
    {
        let ghost before = joined@;
        if k > 1 {
            crate::text::push_char(&mut joined, '.');
        }
        let piece = to_chars(lower[k].as_str());
        let mut q: usize = 0;
        let ghost mid = joined@;
        while q < piece.len()
            invariant
                q <= piece@.len(),
                joined@ == mid + piece@.take(q as int),
            decreases piece.len() - q,
        {
            crate::text::push_char(&mut joined, piece[q]);
            proof {
                assert(mid + piece@.take(q + 1) =~= (mid + piece@.take(q as int)).push(piece@[q as int]));
            }
            q = q + 1;
        }
        proof {
            assert(piece@.take(piece@.len() as int) =~= piece@);
            let t = parts.drop_first().take(k as int);
            assert(t.drop_last() =~= parts.drop_first().take(k - 1));
            assert(t.last() == parts[k as int]);
            if k == 1 {
                assert(t.len() == 1);
                assert(joined@ =~= t[0]);
            } else {
                assert(joined@ =~= before + seq!['.'] + t.last());
            }
        }
        k = k + 1;
    }
    proof {
        assert(parts.drop_first().take(lower@.len() - 1) =~= parts.drop_first());
    }
    Some(joined)
}

/// Whether the characters of `s` are those of `lit`.
pub fn is_text(s: &String, lit: &str) -> (res: bool)
    ensures
        res == (s@ == lit@),
{
    let a = to_chars(s.as_str());
    let b = to_chars(lit);
    crate::text::chars_eq(&a, &b)
}

/// Stores the settings that the environment variables `vars` (name and value) give:
/// each `RUSTYSD_...` variable's value, as a string, under its setting name (see
/// `spec_env_setting`); a later variable wins over an earlier one of the same name.
pub fn apply_env_vars(vars: &Vec<(String, String)>, settings: &mut Settings)
    requires
        old(settings).wf(),
    ensures
        final(settings).wf(),
        forall|n: Seq<char>| #[trigger] final(settings).lookup(n) == env_lookup(vars@, n, old(settings).lookup(n)),
{
    let mut i: usize = 0;
    let ghost s0 = *settings;
    while i < vars.len()
        invariant
            i <= vars@.len(),
            settings.wf(),
            forall|n: Seq<char>| #[trigger] settings.lookup(n) == env_lookup(vars@.take(i as int), n, s0.lookup(n)),
        decreases vars.len() - i,
    {
        let ghost before = *settings;
        proof {
            let t = vars@.take(i + 1);
            assert(t.drop_last() =~= vars@.take(i as int));
            assert(t.last() == vars@[i as int]);
        }
        match env_setting(&vars[i].0) {
            Some(name) => {
                settings.insert(name, SettingValue::Str(vars[i].1.clone()));
            },
            None => {},
        }
        i = i + 1;
    }
    proof {
        assert(vars@.take(vars@.len() as int) =~= vars@);
    }
}

/// The setting stored under `n` after the variables `vars` are applied to a store where
/// `n` held `start`.
pub open spec fn env_lookup(vars: Seq<(String, String)>, n: Seq<char>, start: Option<SettingValue>) -> Option<SettingValue>
    decreases vars.len(),
{
    if vars.len() == 0 {
        start
    } else {
        let last = vars.last();
        if spec_env_setting(last.0@) == Some(n) {
            Some(SettingValue::Str(last.1))
        } else {
            env_lookup(vars.drop_last(), n, start)
        }
    }
}

/// The logging configuration the settings give: `logging.dir` where it is a string (else
/// `./logs`), `logging.to_stdout` where it is a boolean (`true` where it is not set,
/// `false` where it is set to something else), and `logging.to_disk` where it is a
/// boolean (else `false`).
pub fn logging_config(settings: &Settings) -> (res: LoggingConfig)
    requires
        settings.wf(),
    ensures
        res.log_dir@ == match settings.lookup("logging.dir"@) {
            Some(SettingValue::Str(s)) => s@,
            _ => "./logs"@,
        },
        res.log_to_stdout == match settings.lookup("logging.to_stdout"@) {
            Some(SettingValue::Boolean(b)) => b,
            Some(_) => false,
            None => true,
        },
        res.log_to_disk == match settings.lookup("logging.to_disk"@) {
            Some(SettingValue::Boolean(b)) => b,
            _ => false,
        },
{
    let log_dir = match settings.get(&"logging.dir".to_owned()) {
        Some(SettingValue::Str(s)) => s.clone(),
        _ => "./logs".to_owned(),
    };
    let log_to_stdout = match settings.get(&"logging.to_stdout".to_owned()) {
        Some(SettingValue::Boolean(b)) => *b,
        Some(_) => false,
        None => true,
    };
    let log_to_disk = match settings.get(&"logging.to_disk".to_owned()) {
        Some(SettingValue::Boolean(b)) => *b,
        _ => false,
    };
    LoggingConfig { log_dir, log_to_stdout, log_to_disk }
}

/// What the `unit.dirs` setting asks for.
pub enum UnitDirs {
    /// Not set.
    Unset,
    /// One directory, taken as it is.
    Single(String),
    /// A list; of its entries only those that exist are taken.
    Candidates(Vec<String>),
    /// Set to something else: no directories.
    Nothing,
}

/// What the `unit.dirs` setting asks for (see `UnitDirs`); list entries that are no
/// strings count as absent directories.
pub fn unit_dirs_setting(settings: &Settings) -> (res: UnitDirs)
    requires
        settings.wf(),
    ensures
        match settings.lookup("unit.dirs"@) {
            None => res is Unset,
            Some(SettingValue::Str(s)) => res matches UnitDirs::Single(d) && d@ == s@,
            Some(SettingValue::Array(a)) => res matches UnitDirs::Candidates(c) && c@.len() == a@.len()
                && forall|i: int| 0 <= i < a@.len() ==> (#[trigger] a@[i] matches SettingValue::Str(s) ==> c@[i]@ == s@),
            Some(SettingValue::Boolean(_)) => res is Nothing,
        },
{
    match settings.get(&"unit.dirs".to_owned()) {
        None => UnitDirs::Unset,
        Some(SettingValue::Str(s)) => UnitDirs::Single(s.clone()),
        Some(SettingValue::Array(a)) => {
            let mut c: Vec<String> = Vec::new();
            let mut i: usize = 0;
            while i < a.len()
                invariant
                    i <= a@.len(),
                    c@.len() == i,
                    forall|j: int| 0 <= j < i ==> (#[trigger] a@[j] matches SettingValue::Str(s) ==> c@[j]@ == s@),
                decreases a.len() - i,
            {
                match &a[i] {
                    SettingValue::Str(s) => c.push(s.clone()),
                    _ => c.push(String::new()),
                }
                i = i + 1;
            }
            UnitDirs::Candidates(c)
        },
        Some(SettingValue::Boolean(_)) => UnitDirs::Nothing,
    }
}

/// The setting `n` as a string, if it is one.
pub open spec fn str_setting(settings: Settings, n: Seq<char>) -> Option<Seq<char>> {
    match settings.lookup(n) {
        Some(SettingValue::Str(s)) => Some(s@),
        _ => None,
    }
}

fn get_str(settings: &Settings, name: &str) -> (res: Option<String>)
    requires
        settings.wf(),
    ensures
        match res {
            Some(s) => str_setting(*settings, name@) == Some(s@),
            None => str_setting(*settings, name@) is None,
        },
{
    match settings.get(&name.to_owned()) {
        Some(SettingValue::Str(s)) => Some(s.clone()),
        _ => None,
    }
}

/// The general configuration the settings give, with the unit directories `unit_dirs`
/// (see `unit_dirs_setting`; none where it is unset) and the own executable's path
/// `current_exe` for when `selfpath` is not set: `./unitfiles`, `default.target` and
/// `./notifications` where the others are not set as strings.
pub fn make_config(settings: &Settings, unit_dirs: Option<Vec<String>>, current_exe: String) -> (res: Config)
    requires
        settings.wf(),
    ensures
        match unit_dirs {
            Some(d) => res.unit_dirs@ == d@,
            None => res.unit_dirs@.len() == 1 && res.unit_dirs@[0]@ == "./unitfiles"@,
        },
        res.target_unit@ == match str_setting(*settings, "target.unit"@) {
            Some(s) => s,
            None => "default.target"@,
        },
        res.notification_sockets_dir@ == match str_setting(*settings, "notifications.dir"@) {
            Some(s) => s,
            None => "./notifications"@,
        },
        res.self_path@ == match str_setting(*settings, "selfpath"@) {
            Some(s) => s,
            None => current_exe@,
        },
{
    let unit_dirs = match unit_dirs {
        Some(d) => d,
        None => {
            let mut v: Vec<String> = Vec::new();
            v.push("./unitfiles".to_owned());
            v
        },
    };
    let target_unit = match get_str(settings, "target.unit") {
        Some(s) => s,
        None => "default.target".to_owned(),
    };
    let notification_sockets_dir = match get_str(settings, "notifications.dir") {
        Some(s) => s,
        None => "./notifications".to_owned(),
    };
    let self_path = match get_str(settings, "selfpath") {
        Some(s) => s,
        None => current_exe,
    };
    Config { unit_dirs, target_unit, notification_sockets_dir, self_path }
}

/// The unit directories of the setting `dirs`, where `exists` says for each candidate of
/// a list whether it exists: the single directory, the existing candidates in order, or
/// none; not set gives `None`.
pub fn resolve_unit_dirs(dirs: UnitDirs, exists: &Vec<bool>) -> (res: Option<Vec<String>>)
    requires
        dirs matches UnitDirs::Candidates(c) ==> exists@.len() == c@.len(),
    ensures
        match dirs {
            UnitDirs::Unset => res is None,
            UnitDirs::Single(d) => res matches Some(v) && v@.len() == 1 && v@[0]@ == d@,
            UnitDirs::Candidates(c) => res matches Some(v) && strings_of(v@) == kept(strings_of(c@), exists@),
            UnitDirs::Nothing => res matches Some(v) && v@.len() == 0,
        },
{
    match dirs {
        UnitDirs::Unset => None,
        UnitDirs::Single(d) => {
            let mut v: Vec<String> = Vec::new();
            v.push(d);
            Some(v)
        },
        UnitDirs::Candidates(c) => {
            let mut v: Vec<String> = Vec::new();
            let mut i: usize = 0;
            proof {
                assert(strings_of(c@).take(0) =~= Seq::<Seq<char>>::empty());
            }
            while i < c.len()
                invariant
                    i <= c@.len(),
                    exists@.len() == c@.len(),
                    strings_of(v@) == kept(strings_of(c@).take(i as int), exists@.take(i as int)),
                decreases c.len() - i,
            {
                proof {
                    let t = strings_of(c@).take(i + 1);
                    assert(t.drop_last() =~= strings_of(c@).take(i as int));
                    assert(exists@.take(i + 1).drop_last() =~= exists@.take(i as int));
                }
                if exists[i] {
                    let ghost before = strings_of(v@);
                    v.push(c[i].clone());
                    proof {
                        assert(strings_of(v@) =~= before.push(c@[i as int]@));
                    }
                }
                i = i + 1;
            }
            proof {
                assert(strings_of(c@).take(c@.len() as int) =~= strings_of(c@));
                assert(exists@.take(c@.len() as int) =~= exists@);
            }
            Some(v)
        },
        UnitDirs::Nothing => Some(Vec::new()),
    }
}

pub open spec fn strings_of(v: Seq<String>) -> Seq<Seq<char>> {
    v.map_values(|s: String| s@)
}

/// The entries of `c` whose flag in `keep` is set, in order.
pub open spec fn kept(c: Seq<Seq<char>>, keep: Seq<bool>) -> Seq<Seq<char>>
    decreases c.len(),
{
    if c.len() == 0 || keep.len() == 0 {
        Seq::empty()
    } else {
        let rest = kept(c.drop_last(), keep.drop_last());
        if keep.last() {
            rest.push(c.last())
        } else {
            rest
        }
    }
}

/// Whether a configuration was loaded, given what reading the JSON file and the TOML file
/// gave (`None` where the file does not exist): both files is an error, as is a file that
/// could not be read; with neither, the configuration holds only where the TOML path is
/// the default one.
pub fn config_result(json: Option<Result<(), String>>, toml: Option<Result<(), String>>, toml_path_is_default: bool, config: Config) -> (res: Result<Config, String>)
    ensures
        match json {
            Some(j) => if toml is Some {
                res matches Err(e) && e@ == "Found both json and toml conf!"@
            } else {
                match j {
                    Err(e) => res matches Err(e2) && e2@ == e@,
                    Ok(_) => res == Ok::<Config, String>(config),
                }
            },
            None => match toml {
                Some(Err(e)) => res matches Err(e2) && e2@ == e@,
                Some(Ok(_)) => res == Ok::<Config, String>(config),
                None => if toml_path_is_default {
                    res == Ok::<Config, String>(config)
                } else {
                    res matches Err(e) && e@ == "No config file was loaded"@
                },
            },
        },
{
    match json {
        Some(j) => {
            if toml.is_some() {
                Err("Found both json and toml conf!".to_owned())
            } else {
                match j {
                    Err(e) => Err(e),
                    Ok(_) => Ok(config),
                }
            }
        },
        None => match toml {
            Some(Err(e)) => Err(e),
            Some(Ok(_)) => Ok(config),
            None => if toml_path_is_default {
                Ok(config)
            } else {
                Err("No config file was loaded".to_owned())
            },
        },
    }
}

/// The paths of the JSON and the TOML config file: in the directory `config_path` where
/// given, else `./config`.
pub fn config_file_paths(config_path: &Option<String>) -> (res: (String, String))
    ensures
        match config_path {
            Some(p) => res.0@ == crate::cgroups::join_path(p@, "rustysd_config.json"@) && res.1@
                == crate::cgroups::join_path(p@, "rustysd_config.toml"@),
            None => res.0@ == "./config/rustysd_config.json"@ && res.1@ == "./config/rustysd_config.toml"@,
        },
{
    match config_path {
        Some(p) => (crate::cgroups::join(p, "rustysd_config.json"), crate::cgroups::join(p, "rustysd_config.toml")),
        None => ("./config/rustysd_config.json".to_owned(), "./config/rustysd_config.toml".to_owned()),
    }
}

} // verus!
