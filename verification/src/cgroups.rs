//! Control groups: which file is written with what to freeze, thaw or join a cgroup, and
//! how the state read back is understood. Version 1 uses the freezer hierarchy, version 2
//! the unified one; which one is used is found out by the caller (whether the unified
//! hierarchy has a `cgroup.freeze` file).
use vstd::prelude::*;

pub mod cgroup1;
pub mod cgroup2;

use crate::text::{concat_strs, to_chars};

verus! {

/// Writing `content` to the file at `path`.
pub struct FileWrite {
    pub path: String,
    pub content: String,
}

/// `b` appended to the path `a` (`Path::join`): `b` itself where it is absolute, else
/// `a` and `b` with one `/` between them.
pub open spec fn join_path(a: Seq<char>, b: Seq<char>) -> Seq<char> {
    if b.len() > 0 && b[0] == '/' {
        b
    } else if a.len() == 0 || a.last() == '/' {
        a + b
    } else {
        a + seq!['/'] + b
    }
}

/// `b` appended to the path `a` (see `join_path`).
pub fn join(a: &String, b: &str) -> (res: String)
    ensures
        res@ == join_path(a@, b@),
{
    let bc = to_chars(b);
    let ac = to_chars(a.as_str());
    if bc.len() > 0 && bc[0] == '/' {
        return b.to_owned();
    }
    if ac.len() == 0 || ac[ac.len() - 1] == '/' {
        return concat_strs(a.as_str(), b);
    }
    let with_sep = concat_strs(a.as_str(), "/");
    let res = concat_strs(with_sep.as_str(), b);
    proof {
        reveal_strlit("/");
        assert(res@ =~= a@ + seq!['/'] + b@);
    }
    res
}

/// The write that moves process `pid` into the cgroup at `cgroup_path`: its number to
/// the group's `cgroup.procs` (the same file in both versions).
pub open spec fn spec_move_pid(cgroup_path: Seq<char>, pid: u32, w: FileWrite) -> bool {
    w.path@ == join_path(cgroup_path, "cgroup.procs"@) && w.content@ == crate::text::decimal_text(pid as nat)
}

/// The write that moves the process `pid` (the caller itself, after forking) into the
/// cgroup at `cgroup_path`.
pub fn move_self_to_cgroup(cgroup_path: &String, pid: u32) -> (res: FileWrite)
    ensures
        spec_move_pid(cgroup_path@, pid, res),
{
    FileWrite { path: join(cgroup_path, "cgroup.procs"), content: crate::text::u64_to_decimal(pid as u64) }
}

/// Where the freezer of a service's cgroup `cgroup_path` is set up: under the unified
/// hierarchy in version 2, under the freezer hierarchy in version 1.
pub enum FreezerSetup {
    V2 { unified_path: String, cgroup_path: String },
    V1 { freezer_path: String, cgroup_path: String },
}

/// Which hierarchy the freezer of the cgroup `cgroup_path` is set up under.
pub fn get_or_make_freezer(use_v2: bool, freezer_path: &String, unified_path: &String, cgroup_path: &String) -> (res: FreezerSetup)
    ensures
        match res {
            FreezerSetup::V2 { unified_path: u, cgroup_path: c } => use_v2 && u@ == unified_path@ && c@ == cgroup_path@,
            FreezerSetup::V1 { freezer_path: f, cgroup_path: c } => !use_v2 && f@ == freezer_path@ && c@ == cgroup_path@,
        },
{
    if use_v2 {
        FreezerSetup::V2 { unified_path: unified_path.clone(), cgroup_path: cgroup_path.clone() }
    } else {
        FreezerSetup::V1 { freezer_path: freezer_path.clone(), cgroup_path: cgroup_path.clone() }
    }
}

/// The write that freezes the cgroup at `cgroup_path` (see `cgroup1::freeze` and
/// `cgroup2::freeze`).
pub fn freeze(use_v2: bool, cgroup_path: &String) -> (res: FileWrite)
    ensures
        if use_v2 {
            cgroup2::spec_freeze_write(cgroup_path@, res)
        } else {
            cgroup1::spec_state_write(cgroup_path@, "FROZEN"@, res)
        },
{
    if use_v2 {
        cgroup2::freeze(cgroup_path)
    } else {
        cgroup1::freeze(cgroup_path)
    }
}

/// The write that thaws the cgroup at `cgroup_path` (see `cgroup1::thaw` and
/// `cgroup2::thaw`).
pub fn thaw(use_v2: bool, cgroup_path: &String) -> (res: FileWrite)
    ensures
        if use_v2 {
            cgroup2::spec_freeze_write(cgroup_path@, res)
        } else {
            cgroup1::spec_state_write(cgroup_path@, "THAWED"@, res)
        },
{
    if use_v2 {
        cgroup2::thaw(cgroup_path)
    } else {
        cgroup1::thaw(cgroup_path)
    }
}

/// While waiting for the cgroup at `cgroup_path` to be frozen: the write that freezes it
/// again each round, and the file whose content tells whether it is frozen.
pub fn wait_frozen(use_v2: bool, cgroup_path: &String) -> (res: (FileWrite, String))
    ensures
        if use_v2 {
            cgroup2::spec_freeze_write(cgroup_path@, res.0) && res.1@ == join_path(cgroup_path@, "cgroup.freeze"@)
        } else {
            cgroup1::spec_state_write(cgroup_path@, "FROZEN"@, res.0) && res.1@ == join_path(cgroup_path@, "freezer.state"@)
        },
{
    if use_v2 {
        cgroup2::wait_frozen(cgroup_path)
    } else {
        cgroup1::wait_frozen(cgroup_path)
    }
}

/// Whether the state `buf` read back says the cgroup is frozen (see `cgroup1::is_frozen`
/// and `cgroup2::is_frozen`).
pub fn is_frozen(use_v2: bool, buf: &Vec<u8>) -> (res: bool)
    requires
        use_v2 ==> buf@.len() > 0,
    ensures
        res == if use_v2 {
            buf@[0] == 49
        } else {
            cgroup1::spec_is_frozen(buf@)
        },
{
    if use_v2 {
        cgroup2::is_frozen(buf)
    } else {
        cgroup1::is_frozen(buf)
    }
}

/// What the service's process does right after forking, besides the usual: with cgroups,
/// it moves itself (`pid`) into its cgroup; without, nothing.
pub fn post_fork_os_specific(cgroup_path: &Option<String>, pid: u32) -> (res: Option<FileWrite>)
    ensures
        match cgroup_path {
            Some(p) => res matches Some(w) && spec_move_pid(p@, pid, w),
            None => res is None,
        },
{
    match cgroup_path {
        Some(p) => Some(move_self_to_cgroup(p, pid)),
        None => None,
    }
}

/// The pids listed in the text of a `cgroup.procs` file: the lines up to the first empty
/// one, each that reads as an `i32`.
pub open spec fn listed_pids(lines: Seq<Seq<char>>) -> Seq<i32>
    decreases lines.len(),
{
    if lines.len() == 0 || lines[0].len() == 0 {
        Seq::empty()
    } else {
        let rest = listed_pids(lines.drop_first());
        match spec_parse_i32(lines[0]) {
            Some(p) => seq![p] + rest,
            None => rest,
        }
    }
}

/// What `str::parse::<i32>` gives for `s`: an optional sign, then decimal digits whose
/// value fits.
pub open spec fn spec_parse_i32(s: Seq<char>) -> Option<i32> {
    if s.len() > 0 && s[0] == '-' {
        let d = s.drop_first();
        if crate::net::valid_decimal(d, 0x8000_0000) {
            Some((0 - crate::net::decimal_value(d)) as i32)
        } else {
            None
        }
    } else {
        let d = if s.len() > 0 && s[0] == '+' { s.drop_first() } else { s };
        if crate::net::valid_decimal(d, 0x7fff_ffff) {
            Some(crate::net::decimal_value(d) as i32)
        } else {
            None
        }
    }
}

/// `str::parse::<i32>` (see `spec_parse_i32`).
pub fn parse_i32(s: &Vec<char>) -> (res: Option<i32>)
    ensures
        res == spec_parse_i32(s@),
{
    if s.len() > 0 && s[0] == '-' {
        proof {
            assert(s@.subrange(1, s@.len() as int) =~= s@.drop_first());
        }
        match crate::net::parse_decimal(s, 1, s.len(), 0x8000_0000) {
            Some(v) => {
                let r: i64 = 0 - (v as i64);
                Some(r as i32)
            },
            None => None,
        }
    } else {
        let start: usize = if s.len() > 0 && s[0] == '+' { 1 } else { 0 };
        proof {
            if start == 1 {
                assert(s@.subrange(1, s@.len() as int) =~= s@.drop_first());
            } else {
                assert(s@.subrange(0, s@.len() as int) =~= s@);
            }
        }
        match crate::net::parse_decimal(s, start, s.len(), 0x7fff_ffff) {
            Some(v) => Some(v as i32),
            None => None,
        }
    }
}

/// The pids listed in the text of a `cgroup.procs` file (see `listed_pids`).
pub fn get_all_procs(buf: &String) -> (res: Vec<i32>)
    ensures
        res@ == listed_pids(split_on_newlines(buf@)),
{
    let chars = to_chars(buf.as_str());
    let lines = crate::text::split_to_vecs(&chars, '\n');
    let ghost ls = split_on_newlines(buf@);
    let mut out: Vec<i32> = Vec::new();
    let mut i: usize = 0;
    proof {
        assert(ls.subrange(0, ls.len() as int) =~= ls);
    }
    while i < lines.len()
        invariant
            i <= lines@.len(),
            lines@.len() == ls.len(),
            ls == split_on_newlines(buf@),
            forall|k: int| 0 <= k < lines@.len() ==> #[trigger] lines@[k]@ == ls[k],
            out@ + listed_pids(ls.subrange(i as int, ls.len() as int)) == listed_pids(ls),
        decreases lines.len() - i,
    {
        let ghost rest = ls.subrange(i as int, ls.len() as int);
        proof {
            assert(rest[0] == lines@[i as int]@);
            assert(rest.drop_first() =~= ls.subrange(i + 1, ls.len() as int));
        }
        if lines[i].len() == 0 {
            proof {
                assert(listed_pids(rest) =~= Seq::<i32>::empty());
                assert(out@ + listed_pids(rest) =~= out@);
                assert(listed_pids(ls.subrange(lines@.len() as int, ls.len() as int)) =~= Seq::<i32>::empty());
                assert(out@ + Seq::<i32>::empty() =~= out@);
            }
            return out;
        }
        match parse_i32(&lines[i]) {
            Some(p) => {
                let ghost before = out@;
                out.push(p);
                proof {
                    assert(before + listed_pids(rest) =~= out@ + listed_pids(rest.drop_first()));
                }
            },
            None => {},
        }
        i = i + 1;
    }
    proof {
        assert(listed_pids(ls.subrange(ls.len() as int, ls.len() as int)) =~= Seq::<i32>::empty());
        assert(out@ + Seq::<i32>::empty() =~= out@);
    }
    out
}

/// The lines of a text.
pub open spec fn split_on_newlines(s: Seq<char>) -> Seq<Seq<char>> {
    crate::text::split_on(s, '\n')
}

/// Whether the first bytes of `/proc/self/setgroups` (`buf`, five bytes read) say that
/// `setgroups` may be called: they are `allow`.
pub fn setgroups_allowed(buf: &Vec<u8>) -> (res: bool)
    ensures
        res == (buf@ == seq![97u8, 108u8, 108u8, 111u8, 119u8]),
{
    if buf.len() != 5 {
        return false;
    }
    let r = buf[0] == 97 && buf[1] == 108 && buf[2] == 108 && buf[3] == 111 && buf[4] == 119;
    proof {
        if r {
            assert(buf@ =~= seq![97u8, 108u8, 108u8, 111u8, 119u8]);
        }
    }
    r
}

} // verus!
