//! Version 2 cgroups: the freezer is the file `cgroup.freeze`, holding `1` while frozen.
use vstd::prelude::*;

use super::{join, join_path, FileWrite};

verus! {

/// `w` writes `1` to the `cgroup.freeze` file of the cgroup at `cgroup_path`.
pub open spec fn spec_freeze_write(cgroup_path: Seq<char>, w: FileWrite) -> bool {
    w.path@ == join_path(cgroup_path, "cgroup.freeze"@) && w.content@ == "1"@
}

/// The write that freezes the cgroup at `cgroup_path`.
pub fn freeze(cgroup_path: &String) -> (res: FileWrite)
    ensures
        spec_freeze_write(cgroup_path@, res),
{
    FileWrite { path: join(cgroup_path, "cgroup.freeze"), content: "1".to_owned() }
}

/// The write made to thaw the cgroup at `cgroup_path`: it writes `1`, as freezing does.
pub fn thaw(cgroup_path: &String) -> (res: FileWrite)
    ensures
        spec_freeze_write(cgroup_path@, res),
{
    FileWrite { path: join(cgroup_path, "cgroup.freeze"), content: "1".to_owned() }
}

/// While waiting for the cgroup to be frozen: the write that freezes it again each round,
/// and the file to read its state from.
pub fn wait_frozen(cgroup_path: &String) -> (res: (FileWrite, String))
    ensures
        spec_freeze_write(cgroup_path@, res.0),
        res.1@ == join_path(cgroup_path@, "cgroup.freeze"@),
{
    (freeze(cgroup_path), join(cgroup_path, "cgroup.freeze"))
}

/// Whether the state read back says frozen: its first byte is `1`.
pub fn is_frozen(buf: &Vec<u8>) -> (res: bool)
    requires
        buf@.len() > 0,
    ensures
        res == (buf@[0] == 49),
{
    buf[0] == 49
}

} // verus!
