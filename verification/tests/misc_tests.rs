use rustysd::cgroups::{
    freeze, get_all_procs, get_or_make_freezer, is_frozen, join, move_self_to_cgroup, parse_i32,
    post_fork_os_specific, setgroups_allowed, thaw, wait_frozen, FreezerSetup,
};
use rustysd::config::{
    apply_env_vars, config_file_paths, config_result, env_setting, load_json_settings, load_toml_settings, logging_config, make_config,
    resolve_unit_dirs, settings_from_document, unit_dirs_setting, Config, SettingValue, Settings,
    UnitDirs,
};
use rustysd::dbus_wait::{wait_for_name_session_bus, wait_for_name_system_bus};
use rustysd::exec_helper::prepare_exec_args;
use rustysd::fd_store::{FDStore, GlobalFd, NamedMap};
use rustysd::jsonrpc2::JsonValue;
use rustysd::text::{split_chars, trim_chars, u64_to_decimal};

fn chars(s: &str) -> Vec<char> {
    s.chars().collect()
}

fn strs(v: &[&str]) -> Vec<String> {
    v.iter().map(|s| s.to_string()).collect()
}

fn some_config() -> Config {
    Config {
        unit_dirs: strs(&["./unitfiles"]),
        target_unit: "default.target".to_owned(),
        notification_sockets_dir: "./notifications".to_owned(),
        self_path: "/bin/rustysd".to_owned(),
    }
}

#[test]
fn decimal_text_of_numbers() {
    assert_eq!(u64_to_decimal(0), "0");
    assert_eq!(u64_to_decimal(7), "7");
    assert_eq!(u64_to_decimal(1234), "1234");
    assert_eq!(u64_to_decimal(u64::MAX), "18446744073709551615");
}

#[test]
fn splitting_and_trimming() {
    assert_eq!(split_chars(&chars("a b  c"), ' '), strs(&["a", "b", "", "c"]));
    assert_eq!(split_chars(&chars(""), ' '), strs(&[""]));
    assert_eq!(trim_chars(&chars("  x y \t")), chars("x y"));
    assert_eq!(trim_chars(&chars("   ")), chars(""));
}

#[test]
fn cgroup_paths_are_joined() {
    assert_eq!(join(&"/sys/fs/cgroup".to_owned(), "cgroup.procs"), "/sys/fs/cgroup/cgroup.procs");
    assert_eq!(join(&"/sys/fs/cgroup/".to_owned(), "a"), "/sys/fs/cgroup/a");
    assert_eq!(join(&"/x".to_owned(), "/abs"), "/abs");
    let w = move_self_to_cgroup(&"/cg/srv".to_owned(), 4242);
    assert_eq!(w.path, "/cg/srv/cgroup.procs");
    assert_eq!(w.content, "4242");
}

#[test]
fn freezer_writes_per_version() {
    let p = "/cg/srv".to_owned();
    let f1 = freeze(false, &p);
    assert_eq!(f1.path, "/cg/srv/freezer.state");
    assert_eq!(f1.content, "FROZEN");
    let t1 = thaw(false, &p);
    assert_eq!(t1.path, "/cg/srv/freezer.state");
    assert_eq!(t1.content, "THAWED");
    let f2 = freeze(true, &p);
    assert_eq!(f2.path, "/cg/srv/cgroup.freeze");
    assert_eq!(f2.content, "1");
    let (w, read_from) = wait_frozen(false, &p);
    assert_eq!(w.content, "FROZEN");
    assert_eq!(read_from, "/cg/srv/freezer.state");
    let (w2, read_from2) = wait_frozen(true, &p);
    assert_eq!(w2.path, "/cg/srv/cgroup.freeze");
    assert_eq!(read_from2, "/cg/srv/cgroup.freeze");
}

#[test]
fn frozen_state_is_read_back() {
    assert!(is_frozen(false, &b"FROZEN\n".to_vec()));
    assert!(!is_frozen(false, &b"THAWED\n".to_vec()));
    assert!(!is_frozen(false, &b"FROZ".to_vec()));
    assert!(is_frozen(true, &b"1\n".to_vec()));
    assert!(!is_frozen(true, &b"0\n".to_vec()));
}

#[test]
fn freezer_setup_follows_version() {
    let f = "/sys/fs/cgroup/freezer".to_owned();
    let u = "/sys/fs/cgroup/unified".to_owned();
    let c = "rustysd/srv".to_owned();
    match get_or_make_freezer(true, &f, &u, &c) {
        FreezerSetup::V2 { unified_path, cgroup_path } => {
            assert_eq!(unified_path, u);
            assert_eq!(cgroup_path, c);
        }
        FreezerSetup::V1 { .. } => panic!("expected the unified hierarchy"),
    }
    assert!(matches!(get_or_make_freezer(false, &f, &u, &c), FreezerSetup::V1 { .. }));
}

#[test]
fn moving_after_fork_only_with_cgroups() {
    assert!(post_fork_os_specific(&None, 12).is_none());
    let w = post_fork_os_specific(&Some("/cg".to_owned()), 12).unwrap();
    assert_eq!(w.path, "/cg/cgroup.procs");
    assert_eq!(w.content, "12");
}

#[test]
fn procs_file_is_parsed() {
    assert_eq!(parse_i32(&chars("123")), Some(123));
    assert_eq!(parse_i32(&chars("-5")), Some(-5));
    assert_eq!(parse_i32(&chars("+5")), Some(5));
    assert_eq!(parse_i32(&chars("2147483648")), None);
    assert_eq!(parse_i32(&chars("-2147483648")), Some(i32::MIN));
    assert_eq!(parse_i32(&chars("x1")), None);
    assert_eq!(parse_i32(&chars("")), None);
    assert_eq!(get_all_procs(&"1\n22\nabc\n333\n".to_owned()), vec![1, 22, 333]);
    assert_eq!(get_all_procs(&"1\n\n2\n".to_owned()), vec![1]);
    assert_eq!(get_all_procs(&"".to_owned()), Vec::<i32>::new());
}

#[test]
fn setgroups_permission() {
    assert!(setgroups_allowed(&b"allow".to_vec()));
    assert!(!setgroups_allowed(&b"deny\n".to_vec()));
    assert!(!setgroups_allowed(&b"allo".to_vec()));
}

#[test]
fn dbus_is_not_available() {
    let e = wait_for_name_system_bus(&"org.example".to_owned(), Some(10)).unwrap_err();
    assert_eq!(e, "Dbus is not supported in this build");
    let e = wait_for_name_session_bus(&"org.example".to_owned(), None).unwrap_err();
    assert_eq!(e, "Dbus is not supported in this build");
}

#[test]
fn exec_helper_arguments() {
    let (cmd, args) = prepare_exec_args(&"/usr/bin/sleep".to_owned(), &strs(&["10", "x"]));
    assert_eq!(cmd, "/usr/bin/sleep");
    assert_eq!(args, strs(&["sleep", "10", "x"]));
    let (_, args) = prepare_exec_args(&"prog".to_owned(), &Vec::new());
    assert_eq!(args, strs(&["prog"]));
}

#[test]
fn named_map_reads_back_writes() {
    let mut m: NamedMap<u32> = NamedMap::new();
    assert!(!m.contains_key(&"a".to_owned()));
    m.insert("a".to_owned(), 1);
    m.insert("b".to_owned(), 2);
    m.insert("a".to_owned(), 3);
    assert_eq!(m.get(&"a".to_owned()), Some(&3));
    assert_eq!(m.get(&"b".to_owned()), Some(&2));
    assert_eq!(m.remove(&"a".to_owned()), Some(3));
    assert_eq!(m.get(&"a".to_owned()), None);
    assert_eq!(m.remove(&"a".to_owned()), None);
    assert!(m.contains_key(&"b".to_owned()));
}

fn gfd(id: u64, name: &str, fd: i32) -> GlobalFd {
    GlobalFd { id, name: name.to_owned(), fd }
}

#[test]
fn fd_store_global_sockets() {
    let mut store = FDStore::new();
    assert!(store.insert_global("a.socket".to_owned(), vec![gfd(1, "a.socket", 5), gfd(1, "a.socket", 6)]).is_none());
    let back = store.insert_global("a.socket".to_owned(), vec![gfd(1, "a.socket", 9)]).unwrap();
    assert_eq!(back.len(), 1);
    assert_eq!(back[0].fd, 9);
    assert!(store.insert_global("b.socket".to_owned(), vec![gfd(2, "b.socket", 7)]).is_none());
    assert_eq!(store.get_global(&"a.socket".to_owned()).unwrap().len(), 2);
    assert_eq!(store.global_fds_to_ids(), vec![(5, 1), (6, 1), (7, 2)]);
    let removed = store.remove_global(&"a.socket".to_owned()).unwrap();
    assert_eq!(removed[1].fd, 6);
    assert!(store.get_global(&"a.socket".to_owned()).is_none());
    assert_eq!(store.global_fds_to_ids(), vec![(7, 2)]);
}

#[test]
fn fd_store_service_stored() {
    let mut store = FDStore::new();
    let s = "web.service".to_owned();
    let f = "listen".to_owned();
    assert!(store.get_service_stored(&s, &f).is_none());
    store.insert_service_stored(s.clone(), f.clone(), vec![3, 4]);
    store.insert_service_stored(s.clone(), f.clone(), vec![5]);
    store.insert_service_stored(s.clone(), "other".to_owned(), vec![8]);
    assert_eq!(store.get_service_stored(&s, &f), Some(&vec![3, 4, 5]));
    assert_eq!(store.remove_service_stored(&s, &f), Some(vec![3, 4, 5]));
    assert!(store.get_service_stored(&s, &f).is_none());
    assert_eq!(store.get_service_stored(&s, &"other".to_owned()), Some(&vec![8]));
    assert!(store.remove_service_stored(&"x".to_owned(), &f).is_none());
}

fn obj(members: Vec<(&str, JsonValue)>) -> JsonValue {
    JsonValue::Object(members.into_iter().map(|(k, v)| (k.to_owned(), v)).collect())
}

fn str_setting<'a>(settings: &'a Settings, name: &str) -> Option<&'a str> {
    match settings.get(&name.to_owned()) {
        Some(SettingValue::Str(s)) => Some(s.as_str()),
        _ => None,
    }
}

fn bool_setting(settings: &Settings, name: &str) -> Option<bool> {
    match settings.get(&name.to_owned()) {
        Some(SettingValue::Boolean(b)) => Some(*b),
        _ => None,
    }
}

#[test]
fn settings_from_a_json_file() {
    let doc = obj(vec![
        ("unit_dirs", JsonValue::Array(vec![JsonValue::Str("/a".to_owned()), JsonValue::Number(3)])),
        ("logging_dir", JsonValue::Str("/var/log/rsd".to_owned())),
        ("log_to_disk", JsonValue::Bool(true)),
        ("log_to_stdout", JsonValue::Str("no".to_owned())),
        ("target_unit", JsonValue::Str("multi.target".to_owned())),
    ]);
    let mut settings: Settings = NamedMap::new();
    settings_from_document(&doc, &mut settings);
    assert_eq!(str_setting(&settings, "logging.dir"), Some("/var/log/rsd"));
    assert_eq!(bool_setting(&settings, "logging.to_disk"), Some(true));
    assert!(settings.get(&"logging.to_stdout".to_owned()).is_none());
    assert_eq!(str_setting(&settings, "target.unit"), Some("multi.target"));
    match settings.get(&"unit.dirs".to_owned()) {
        Some(SettingValue::Array(a)) => {
            assert_eq!(a.len(), 2);
            assert!(matches!(&a[0], SettingValue::Str(s) if s == "/a"));
            assert!(matches!(&a[1], SettingValue::Str(s) if s.is_empty()));
        }
        _ => panic!("unit.dirs should be a list"),
    }
    let logging = logging_config(&settings);
    assert_eq!(logging.log_dir, "/var/log/rsd");
    assert!(logging.log_to_disk);
    assert!(logging.log_to_stdout);
}

#[test]
fn settings_from_a_toml_file_set_the_logging_flags() {
    let text = "log_to_disk = true\nlog_to_stdout = false\nlogging_dir = \"/var/log/rsd\"\nunit_dirs = [\"/u1\", \"/u2\"]\n";
    let mut settings: Settings = NamedMap::new();
    assert_eq!(load_toml_settings(text, &mut settings), Ok(()));
    assert_eq!(bool_setting(&settings, "logging.to_disk"), Some(true));
    assert_eq!(bool_setting(&settings, "logging.to_stdout"), Some(false));
    let logging = logging_config(&settings);
    assert!(logging.log_to_disk);
    assert!(!logging.log_to_stdout);
    assert_eq!(logging.log_dir, "/var/log/rsd");
    match settings.get(&"unit.dirs".to_owned()) {
        Some(SettingValue::Array(a)) => assert_eq!(a.len(), 2),
        _ => panic!("unit.dirs should be a list"),
    }
    let mut none: Settings = NamedMap::new();
    settings_from_document(&JsonValue::Array(Vec::new()), &mut none);
    assert!(none.get(&"unit.dirs".to_owned()).is_none());
}

#[test]
fn text_that_is_no_toml_is_refused() {
    let mut settings: Settings = NamedMap::new();
    settings.insert("logging.dir".to_owned(), SettingValue::Str("/old".to_owned()));
    let res = load_toml_settings("log_to_disk = = true", &mut settings);
    match res {
        Err(e) => assert!(e.starts_with("Error while decoding config toml: ") && e.len() > 34),
        Ok(()) => panic!("malformed TOML should be refused"),
    }
    assert_eq!(str_setting(&settings, "logging.dir"), Some("/old"));
    assert!(settings.get(&"logging.to_disk".to_owned()).is_none());
}

#[test]
fn environment_variables_become_settings() {
    assert_eq!(env_setting(&"RUSTYSD_LOGGING_DIR".to_owned()), Some("logging.dir".to_owned()));
    assert_eq!(env_setting(&"RUSTYSD_UNIT_DIRS".to_owned()), Some("unit.dirs".to_owned()));
    assert_eq!(env_setting(&"rustysd".to_owned()), Some("".to_owned()));
    assert_eq!(env_setting(&"PATH".to_owned()), None);
    assert_eq!(env_setting(&"OTHER_RUSTYSD".to_owned()), None);
    let mut settings: Settings = NamedMap::new();
    settings.insert("logging.dir".to_owned(), SettingValue::Str("/old".to_owned()));
    let vars = vec![
        ("HOME".to_owned(), "/root".to_owned()),
        ("RUSTYSD_LOGGING_DIR".to_owned(), "/first".to_owned()),
        ("RUSTYSD_TARGET_UNIT".to_owned(), "x.target".to_owned()),
        ("RUSTYSD_LOGGING_DIR".to_owned(), "/second".to_owned()),
    ];
    apply_env_vars(&vars, &mut settings);
    assert_eq!(str_setting(&settings, "logging.dir"), Some("/second"));
    assert_eq!(str_setting(&settings, "target.unit"), Some("x.target"));
    assert!(settings.get(&"home".to_owned()).is_none());
}

#[test]
fn defaults_of_the_configuration() {
    let settings: Settings = NamedMap::new();
    let logging = logging_config(&settings);
    assert_eq!(logging.log_dir, "./logs");
    assert!(logging.log_to_stdout);
    assert!(!logging.log_to_disk);
    assert!(matches!(unit_dirs_setting(&settings), UnitDirs::Unset));
    let conf = make_config(&settings, None, "/usr/bin/rustysd".to_owned());
    assert_eq!(conf.unit_dirs, strs(&["./unitfiles"]));
    assert_eq!(conf.target_unit, "default.target");
    assert_eq!(conf.notification_sockets_dir, "./notifications");
    assert_eq!(conf.self_path, "/usr/bin/rustysd");
}

#[test]
fn configured_values_win_over_defaults() {
    let mut settings: Settings = NamedMap::new();
    settings.insert("target.unit".to_owned(), SettingValue::Str("x.target".to_owned()));
    settings.insert("selfpath".to_owned(), SettingValue::Str("/opt/rsd".to_owned()));
    settings.insert("notifications.dir".to_owned(), SettingValue::Boolean(true));
    let conf = make_config(&settings, Some(strs(&["/etc/units"])), "/usr/bin/rustysd".to_owned());
    assert_eq!(conf.unit_dirs, strs(&["/etc/units"]));
    assert_eq!(conf.target_unit, "x.target");
    assert_eq!(conf.self_path, "/opt/rsd");
    assert_eq!(conf.notification_sockets_dir, "./notifications");
}

#[test]
fn unit_directories_are_resolved() {
    assert!(resolve_unit_dirs(UnitDirs::Unset, &Vec::new()).is_none());
    assert_eq!(resolve_unit_dirs(UnitDirs::Single("/u".to_owned()), &Vec::new()), Some(strs(&["/u"])));
    assert_eq!(
        resolve_unit_dirs(UnitDirs::Candidates(strs(&["/a", "/b", "/c"])), &vec![true, false, true]),
        Some(strs(&["/a", "/c"]))
    );
    assert_eq!(resolve_unit_dirs(UnitDirs::Nothing, &Vec::new()), Some(Vec::new()));
    let mut settings: Settings = NamedMap::new();
    settings.insert("unit.dirs".to_owned(), SettingValue::Boolean(false));
    assert!(matches!(unit_dirs_setting(&settings), UnitDirs::Nothing));
    settings.insert("unit.dirs".to_owned(), SettingValue::Str("/one".to_owned()));
    assert!(matches!(unit_dirs_setting(&settings), UnitDirs::Single(d) if d == "/one"));
}

#[test]
fn which_config_file_counts() {
    let both = config_result(Some(Ok(())), Some(Ok(())), true, some_config());
    assert_eq!(both.err().unwrap(), "Found both json and toml conf!");
    let bad = config_result(Some(Err("broken".to_owned())), None, true, some_config());
    assert_eq!(bad.err().unwrap(), "broken");
    assert!(config_result(Some(Ok(())), None, false, some_config()).is_ok());
    assert!(config_result(None, Some(Ok(())), false, some_config()).is_ok());
    let bad_toml = config_result(None, Some(Err("toml".to_owned())), true, some_config());
    assert_eq!(bad_toml.err().unwrap(), "toml");
    assert!(config_result(None, None, true, some_config()).is_ok());
    let missing = config_result(None, None, false, some_config());
    assert_eq!(missing.err().unwrap(), "No config file was loaded");
}

#[test]
fn config_file_locations() {
    let (j, t) = config_file_paths(&None);
    assert_eq!(j, "./config/rustysd_config.json");
    assert_eq!(t, "./config/rustysd_config.toml");
    let (j, t) = config_file_paths(&Some("/etc/rustysd".to_owned()));
    assert_eq!(j, "/etc/rustysd/rustysd_config.json");
    assert_eq!(t, "/etc/rustysd/rustysd_config.toml");
}

#[test]
fn settings_from_json_text() {
    let text = "{\"unit_dirs\": [\"/a\", 3], \"logging_dir\": \"/var/log/rsd\", \"log_to_disk\": true, \"log_to_stdout\": false, \"target_unit\": \"multi.target\"}";
    let mut settings: Settings = NamedMap::new();
    assert_eq!(load_json_settings(text, &mut settings), Ok(()));
    assert_eq!(str_setting(&settings, "logging.dir"), Some("/var/log/rsd"));
    assert_eq!(bool_setting(&settings, "logging.to_disk"), Some(true));
    assert_eq!(bool_setting(&settings, "logging.to_stdout"), Some(false));
    assert_eq!(str_setting(&settings, "target.unit"), Some("multi.target"));
    let logging = logging_config(&settings);
    assert!(logging.log_to_disk);
    assert!(!logging.log_to_stdout);
    let mut kept: Settings = NamedMap::new();
    kept.insert("logging.dir".to_owned(), SettingValue::Str("/old".to_owned()));
    match load_json_settings("{\"logging_dir\": ", &mut kept) {
        Err(e) => assert!(e.starts_with("Error while decoding config json: ") && e.len() > 34),
        Ok(()) => panic!("malformed JSON should be refused"),
    }
    assert_eq!(str_setting(&kept, "logging.dir"), Some("/old"));
}

#[test]
fn a_toml_datetime_is_no_string_setting() {
    let mut settings: Settings = NamedMap::new();
    assert_eq!(load_toml_settings("target_unit = 1979-05-27T07:32:00Z\nselfpath = \"/bin/rsd\"\n", &mut settings), Ok(()));
    assert!(settings.get(&"target.unit".to_owned()).is_none());
    assert_eq!(str_setting(&settings, "selfpath"), Some("/bin/rsd"));
}
