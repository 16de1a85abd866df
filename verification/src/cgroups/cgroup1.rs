//! Version 1 cgroups: the freezer state is the file `freezer.state`, written `FROZEN` or
//! `THAWED`.
use vstd::prelude::*;

use super::{join, join_path, FileWrite};

verus! {

/// `w` writes `state` to the `freezer.state` file of the cgroup at `cgroup_path`.
pub open spec fn spec_state_write(cgroup_path: Seq<char>, state: Seq<char>, w: FileWrite) -> bool {
    w.path@ == join_path(cgroup_path, "freezer.state"@) && w.content@ == state
}

/// The write that freezes the cgroup at `cgroup_path`.
pub fn freeze(cgroup_path: &String) -> (res: FileWrite)
    ensures
        spec_state_write(cgroup_path@, "FROZEN"@, res),
{
    FileWrite { path: join(cgroup_path, "freezer.state"), content: "FROZEN".to_owned() }
}

/// The write that thaws the cgroup at `cgroup_path`.
pub fn thaw(cgroup_path: &String) -> (res: FileWrite)
    ensures
        spec_state_write(cgroup_path@, "THAWED"@, res),
{
    FileWrite { path: join(cgroup_path, "freezer.state"), content: "THAWED".to_owned() }
}

/// While waiting for the cgroup to be frozen: the write that freezes it again each round,
/// and the file to read its state from.
pub fn wait_frozen(cgroup_path: &String) -> (res: (FileWrite, String))
    ensures
        spec_state_write(cgroup_path@, "FROZEN"@, res.0),
        res.1@ == join_path(cgroup_path@, "freezer.state"@),
{
    (freeze(cgroup_path), join(cgroup_path, "freezer.state"))
}

/// The state read back says frozen: it begins with the bytes of `FROZEN`.
pub open spec fn spec_is_frozen(buf: Seq<u8>) -> bool {
    buf.len() >= 6 && buf.subrange(0, 6) == seq![70u8, 82u8, 79u8, 90u8, 69u8, 78u8]
}

/// Whether the state read back says frozen (see `spec_is_frozen`).
pub fn is_frozen(buf: &Vec<u8>) -> (res: bool)
    ensures
        res == spec_is_frozen(buf@),
{
    if buf.len() < 6 {
        return false;
    }
    let r = buf[0] == 70 && buf[1] == 82 && buf[2] == 79 && buf[3] == 90 && buf[4] == 69 && buf[5] == 78;
    proof {
        if r {
            assert(buf@.subrange(0, 6) =~= seq![70u8, 82u8, 79u8, 90u8, 69u8, 78u8]);
        } else {
            if buf@.subrange(0, 6) == seq![70u8, 82u8, 79u8, 90u8, 69u8, 78u8] {
                assert(buf@[0] == buf@.subrange(0, 6)[0]);
                assert(buf@[1] == buf@.subrange(0, 6)[1]);
                assert(buf@[2] == buf@.subrange(0, 6)[2]);
                assert(buf@[3] == buf@.subrange(0, 6)[3]);
                assert(buf@[4] == buf@.subrange(0, 6)[4]);
                assert(buf@[5] == buf@.subrange(0, 6)[5]);
            }
        }
    }
    r
}

} // verus!
