//! Waiting until a name is taken on the D-Bus. This build has no D-Bus support, so every
//! wait fails with the same reason.
use vstd::prelude::*;

verus! {

/// How a wait for a bus name ended.
#[derive(PartialEq, Eq, Structural, Clone, Copy, Debug)]
pub enum WaitResult {
    Success,
    Timedout,
}

/// The reason every wait fails in this build.
pub open spec fn no_dbus_message() -> Seq<char> {
    "Dbus is not supported in this build"@
}

/// Waits until `name` is taken on the system bus, for at most `timeout_ms` milliseconds
/// where given. Fails: this build has no D-Bus support.
pub fn wait_for_name_system_bus(name: &String, timeout_ms: Option<u64>) -> (res: Result<WaitResult, String>)
    ensures
        res matches Err(e) && e@ == no_dbus_message(),
{
    Err("Dbus is not supported in this build".to_owned())
}

/// Waits until `name` is taken on the session bus, for at most `timeout_ms` milliseconds
/// where given. Fails: this build has no D-Bus support.
pub fn wait_for_name_session_bus(name: &String, timeout_ms: Option<u64>) -> (res: Result<WaitResult, String>)
    ensures
        res matches Err(e) && e@ == no_dbus_message(),
{
    Err("Dbus is not supported in this build".to_owned())
}

} // verus!
