//! Units and the dependency relations between them.
//!
//! A unit table is a `Vec<Unit>` whose ids are pairwise distinct. Names written in unit
//! files (`Wants=`, `After=`, `WantedBy=`, ...) are resolved to ids by the name of the unit
//! file, and `fill_dependencies` makes every relation available from both ends.
use vstd::prelude::*;

use crate::services::Service;
use crate::sockets::Socket;
use crate::text::{split_on, to_chars, split_to_vecs, chars_eq};

verus! {

pub type InternalId = u64;

/// What a process id in the pid table belongs to.
#[derive(PartialEq, Eq, Structural, Clone, Copy, Debug, Hash)]
pub enum PidEntry {
    /// The main process of the service with this id.
    Service(InternalId),
    /// A stop command of the service with this id.
    Stop(InternalId),
}

/// What kind of unit a unit is, with its kind-specific state.
pub enum UnitSpecialized {
    Socket(Socket),
    Service(Service),
    Target,
}

/// The resolved dependencies of a unit, by id.
pub struct Install {
    pub wants: Vec<InternalId>,
    pub requires: Vec<InternalId>,
    pub wanted_by: Vec<InternalId>,
    pub required_by: Vec<InternalId>,
    pub before: Vec<InternalId>,
    pub after: Vec<InternalId>,
    /// The `[Install]` section of the unit file, if it has one.
    pub install_config: Option<InstallConfig>,
}

pub struct Unit {
    pub id: InternalId,
    pub conf: UnitConfig,
    pub specialized: UnitSpecialized,
    pub install: Install,
}

/// The `[Unit]` section of a unit file, with the file's path.
pub struct UnitConfig {
    pub filepath: String,
    pub wants: Vec<String>,
    pub requires: Vec<String>,
    pub before: Vec<String>,
    pub after: Vec<String>,
}

/// The `[Install]` section of a unit file.
pub struct InstallConfig {
    pub wanted_by: Vec<String>,
    pub required_by: Vec<String>,
}

#[derive(PartialEq, Eq, Structural, Clone, Copy, Debug)]
pub enum ServiceType {
    Simple,
    Notify,
}

/// Which processes of a service may send notifications.
#[derive(PartialEq, Eq, Structural, Clone, Copy, Debug)]
pub enum NotifyKind {
    Main,
    Exec,
    All,
    NoAccess,
}

/// The `[Service]` section of a unit file.
pub struct ServiceConfig {
    pub keep_alive: bool,
    pub notifyaccess: NotifyKind,
    pub exec_cmd: String,
    pub stop: String,
    pub srcv_type: ServiceType,
    pub accept: bool,
    pub sockets: Vec<String>,
}

// ---------------------------------------------------------------------------------------
// File names and unit names

/// The last component of `pieces` that is neither empty nor `"."`.
pub open spec fn last_normal_piece(pieces: Seq<Seq<char>>) -> Option<Seq<char>>
    decreases pieces.len(),
{
    if pieces.len() == 0 {
        None
    } else if pieces.last().len() == 0 || pieces.last() == seq!['.'] {
        last_normal_piece(pieces.drop_last())
    } else {
        Some(pieces.last())
    }
}

/// The final component of a path (`Path::file_name`): none where the path has no
/// normal component or ends in `..`.
pub open spec fn path_file_name(path: Seq<char>) -> Option<Seq<char>> {
    match last_normal_piece(split_on(path, '/')) {
        Some(p) => if p == seq!['.', '.'] {
            None
        } else {
            Some(p)
        },
        None => None,
    }
}

/// The position of the last `c` in `s`, if any.
pub open spec fn last_index_of(s: Seq<char>, c: char) -> Option<int>
    decreases s.len(),
{
    if s.len() == 0 {
        None
    } else if s.last() == c {
        Some(s.len() - 1)
    } else {
        last_index_of(s.drop_last(), c)
    }
}

/// A unit's name: its file name up to the last `.` (empty where there is none).
pub open spec fn name_of_file(f: Seq<char>) -> Seq<char> {
    match last_index_of(f, '.') {
        Some(i) => f.subrange(0, i),
        None => Seq::empty(),
    }
}

impl UnitConfig {
    pub open spec fn has_file_name(&self) -> bool {
        path_file_name(self.filepath@) is Some
    }

    pub open spec fn spec_name(&self) -> Seq<char> {
        name_of_file(path_file_name(self.filepath@)->0)
    }

    /// The unit's name: the file name of its path without the part from the last `.` on.
    pub fn name(&self) -> (res: String)
        requires
            self.has_file_name(),
        ensures
            res@ == self.spec_name(),
    {
        let chars = to_chars(self.filepath.as_str());
        let f = file_name_of(&chars);
        let mut end: usize = f.len();
        proof {
            assert(f@.subrange(0, end as int) =~= f@);
        }
        while end > 0 && f[end - 1] != '.'
            invariant
                end <= f@.len(),
                last_index_of(f@, '.') == last_index_of(f@.subrange(0, end as int), '.'),
            decreases end,
        {
            proof {
                let t = f@.subrange(0, end as int);
                assert(t.drop_last() =~= f@.subrange(0, end - 1));
            }
            end = end - 1;
        }
        proof {
            let t = f@.subrange(0, end as int);
            if end > 0 {
                assert(t.last() == '.');
                assert(t.drop_last() =~= f@.subrange(0, end - 1));
            }
        }
        if end == 0 {
            return String::new();
        }
        crate::text::string_of_range(&f, 0, end - 1)
    }
}

/// The file name of the path whose characters are `v`.
pub fn file_name_of(v: &Vec<char>) -> (res: Vec<char>)
    requires
        path_file_name(v@) is Some,
    ensures
        res@ == path_file_name(v@)->0,
{
    let pieces = split_to_vecs(v, '/');
    let ghost sp = split_on(v@, '/');
    let mut i = pieces.len();
    proof {
        assert(sp.take(i as int) =~= sp);
    }
    while i > 0
        invariant
            i <= pieces@.len(),
            pieces@.len() == sp.len(),
            sp == split_on(v@, '/'),
            path_file_name(v@) is Some,
            forall|k: int| 0 <= k < pieces@.len() ==> #[trigger] pieces@[k]@ == sp[k],
            last_normal_piece(sp) == last_normal_piece(sp.take(i as int)),
        decreases i,
    {
        let p = &pieces[i - 1];
        proof {
            assert(sp.take(i as int).last() == p@);
            assert(sp.take(i as int).drop_last() =~= sp.take(i - 1));
        }
        if p.len() == 0 || (p.len() == 1 && p[0] == '.') {
            proof {
                if p@.len() == 1 {
                    assert(p@ =~= seq!['.']);
                }
            }
            i = i - 1;
        } else {
            proof {
                assert(p@ != seq!['.']) by {
                    if p@.len() == 1 {
                        assert(p@[0] != '.');
                    }
                }
                assert(last_normal_piece(sp.take(i as int)) == Some(p@));
                assert(last_normal_piece(split_on(v@, '/')) == Some(p@));
                assert(path_file_name(v@) == Some(p@));
            }
            return clone_chars(p);
        }
    }
    proof {
        assert(sp.take(0) =~= Seq::<Seq<char>>::empty());
    }
    Vec::new()
}

/// Whether the path `path` has a file name (see `path_file_name`): a unit's name is taken
/// from it.
pub fn path_has_file_name(path: &String) -> (res: bool)
    ensures
        res == path_file_name(path@) is Some,
{
    let v = to_chars(path.as_str());
    let pieces = split_to_vecs(&v, '/');
    let ghost sp = split_on(v@, '/');
    let mut i = pieces.len();
    proof {
        assert(sp.take(i as int) =~= sp);
    }
    while i > 0
        invariant
            i <= pieces@.len(),
            pieces@.len() == sp.len(),
            sp == split_on(v@, '/'),
            v@ == path@,
            forall|k: int| 0 <= k < pieces@.len() ==> #[trigger] pieces@[k]@ == sp[k],
            last_normal_piece(sp) == last_normal_piece(sp.take(i as int)),
        decreases i,
    {
        let p = &pieces[i - 1];
        proof {
            assert(sp.take(i as int).last() == p@);
            assert(sp.take(i as int).drop_last() =~= sp.take(i - 1));
        }
        if p.len() == 0 || (p.len() == 1 && p[0] == '.') {
            proof {
                if p@.len() == 1 {
                    assert(p@ =~= seq!['.']);
                }
            }
            i = i - 1;
        } else {
            proof {
                assert(p@ != seq!['.']) by {
                    if p@.len() == 1 {
                        assert(p@[0] != '.');
                    }
                }
                assert(last_normal_piece(sp) == Some(p@));
                if p@.len() == 2 && p@[0] == '.' && p@[1] == '.' {
                    assert(p@ =~= seq!['.', '.']);
                }
            }
            let dots = p.len() == 2 && p[0] == '.' && p[1] == '.';
            return !dots;
        }
    }
    proof {
        assert(sp.take(0) =~= Seq::<Seq<char>>::empty());
    }
    false
}

/// A copy of `v`.
pub fn clone_chars(v: &Vec<char>) -> (res: Vec<char>)
    ensures
        res@ == v@,
{
    let mut res: Vec<char> = Vec::new();
    let mut i: usize = 0;
    while i < v.len()
        invariant
            i <= v@.len(),
            res@ == v@.take(i as int),
        decreases v.len() - i,
    {
        res.push(v[i]);
        proof {
            assert(v@.take(i + 1) =~= v@.take(i as int).push(v@[i as int]));
        }
        i = i + 1;
    }
    proof {
        assert(v@.take(v@.len() as int) =~= v@);
    }
    res
}

// ---------------------------------------------------------------------------------------
// Removing repeated elements

/// `s` with every repeated element removed: each element kept at its first place.
pub open spec fn dedup_seq(s: Seq<u64>) -> Seq<u64>
    decreases s.len(),
{
    if s.len() == 0 {
        s
    } else {
        let d = dedup_seq(s.drop_last());
        if d.contains(s.last()) {
            d
        } else {
            d.push(s.last())
        }
    }
}

/// No element occurs twice in `s`.
pub open spec fn no_dups(s: Seq<u64>) -> bool {
    forall|a: int, b: int| 0 <= a < s.len() && 0 <= b < s.len() && a != b ==> #[trigger] s[a] != #[trigger] s[b]
}

/// Removing repeats keeps exactly the elements that were there.
pub proof fn lemma_dedup_same_elements(s: Seq<u64>, x: u64)
    ensures
        dedup_seq(s).contains(x) <==> s.contains(x),
    decreases s.len(),
{
    if s.len() > 0 {
        let t = s.drop_last();
        let d = dedup_seq(t);
        let ds = dedup_seq(s);
        lemma_dedup_same_elements(t, x);
        assert(s =~= t.push(s.last()));
        assert(s.contains(x) <==> (t.contains(x) || s.last() == x)) by {
            if s.contains(x) {
                let k = choose|k: int| 0 <= k < s.len() && s[k] == x;
                if k < t.len() {
                    assert(t[k] == x);
                }
            }
            if t.contains(x) {
                let k = choose|k: int| 0 <= k < t.len() && t[k] == x;
                assert(s[k] == x);
            }
        }
        if !d.contains(s.last()) {
            assert(ds == d.push(s.last()));
            assert(ds.contains(x) <==> (d.contains(x) || s.last() == x)) by {
                if ds.contains(x) {
                    let k = choose|k: int| 0 <= k < ds.len() && ds[k] == x;
                    if k < d.len() {
                        assert(d[k] == x);
                    }
                }
                if d.contains(x) {
                    let k = choose|k: int| 0 <= k < d.len() && d[k] == x;
                    assert(ds[k] == x);
                }
                if s.last() == x {
                    assert(ds[ds.len() - 1] == x);
                }
            }
        }
    }
}

/// After removing repeats no element occurs twice.
pub proof fn lemma_dedup_no_dups(s: Seq<u64>)
    ensures
        no_dups(dedup_seq(s)),
    decreases s.len(),
{
    if s.len() > 0 {
        let t = s.drop_last();
        let d = dedup_seq(t);
        lemma_dedup_no_dups(t);
        if !d.contains(s.last()) {
            let ds = d.push(s.last());
            assert forall|a: int, b: int| 0 <= a < ds.len() && 0 <= b < ds.len() && a != b implies #[trigger] ds[a] != #[trigger] ds[b] by {
                if a < d.len() && b < d.len() {
                    assert(d[a] != d[b]);
                } else if a < d.len() {
                    assert(ds[a] == d[a]);
                } else {
                    assert(ds[b] == d[b]);
                }
            }
        }
    }
}

/// A sequence without repeats is left as it is.
pub proof fn lemma_dedup_of_distinct(s: Seq<u64>)
    requires
        no_dups(s),
    ensures
        dedup_seq(s) == s,
    decreases s.len(),
{
    if s.len() > 0 {
        let t = s.drop_last();
        assert(no_dups(t)) by {
            assert forall|a: int, b: int| 0 <= a < t.len() && 0 <= b < t.len() && a != b implies #[trigger] t[a] != #[trigger] t[b] by {
                assert(s[a] != s[b]);
            }
        }
        lemma_dedup_of_distinct(t);
        if t.contains(s.last()) {
            let k = choose|k: int| 0 <= k < t.len() && t[k] == s.last();
            assert(s[k] != s[s.len() - 1]);
        }
        assert(t.push(s.last()) =~= s);
    }
}

/// Removing repeats twice is the same as removing them once.
pub proof fn law_dedup_idempotent(s: Seq<u64>)
    ensures
        dedup_seq(dedup_seq(s)) == dedup_seq(s),
{
    lemma_dedup_no_dups(s);
    lemma_dedup_of_distinct(dedup_seq(s));
}

/// Removes every repeated element of `v`, keeping each at its first place.
pub fn dedup_ids(v: &mut Vec<u64>)
    ensures
        final(v)@ == dedup_seq(old(v)@),
{
    let mut res: Vec<u64> = Vec::new();
    let mut i: usize = 0;
    proof {
        assert(v@.take(0) =~= Seq::<u64>::empty());
    }
    while i < v.len()
        invariant
            i <= v@.len(),
            res@ == dedup_seq(v@.take(i as int)),
        decreases v.len() - i,
    {
        proof {
            let t = v@.take(i + 1);
            assert(t.drop_last() =~= v@.take(i as int));
            assert(t.last() == v@[i as int]);
        }
        if !contains_id(&res, v[i]) {
            res.push(v[i]);
        }
        i = i + 1;
    }
    proof {
        assert(v@.take(v@.len() as int) =~= v@);
    }
    *v = res;
}

impl Unit {
    /// Removes repeated elements from each of the unit's dependency lists: each then holds
    /// the same ids as before, none twice, in the order of their first places.
    pub fn dedup_dependencies(&mut self)
        ensures
            final(self).id == old(self).id,
            final(self).conf == old(self).conf,
            final(self).specialized == old(self).specialized,
            final(self).install.install_config == old(self).install.install_config,
            final(self).install.wants@ == dedup_seq(old(self).install.wants@),
            final(self).install.requires@ == dedup_seq(old(self).install.requires@),
            final(self).install.wanted_by@ == dedup_seq(old(self).install.wanted_by@),
            final(self).install.required_by@ == dedup_seq(old(self).install.required_by@),
            final(self).install.before@ == dedup_seq(old(self).install.before@),
            final(self).install.after@ == dedup_seq(old(self).install.after@),
    {
        dedup_ids(&mut self.install.wants);
        dedup_ids(&mut self.install.requires);
        dedup_ids(&mut self.install.wanted_by);
        dedup_ids(&mut self.install.required_by);
        dedup_ids(&mut self.install.before);
        dedup_ids(&mut self.install.after);
    }
}

// ---------------------------------------------------------------------------------------
// Resolving names and filling in the dependency relations

/// The lists of unit names that a unit file holds.
#[derive(PartialEq, Eq, Structural, Clone, Copy, Debug)]
pub enum Relation {
    /// `Wants=` of `[Unit]`.
    Wants,
    /// `Requires=` of `[Unit]`.
    Requires,
    /// `Before=` of `[Unit]`.
    Before,
    /// `After=` of `[Unit]`.
    After,
    /// `WantedBy=` of `[Install]`.
    WantedBy,
    /// `RequiredBy=` of `[Install]`.
    RequiredBy,
}

/// The names that unit `u` lists under `r`.
pub open spec fn named(u: Unit, r: Relation) -> Seq<String> {
    match r {
        Relation::Wants => u.conf.wants@,
        Relation::Requires => u.conf.requires@,
        Relation::Before => u.conf.before@,
        Relation::After => u.conf.after@,
        Relation::WantedBy => match u.install.install_config {
            Some(c) => c.wanted_by@,
            None => Seq::empty(),
        },
        Relation::RequiredBy => match u.install.install_config {
            Some(c) => c.required_by@,
            None => Seq::empty(),
        },
    }
}

/// The id of the first unit of `units` with the name `name`.
pub open spec fn resolve(units: Seq<Unit>, name: Seq<char>) -> InternalId
    decreases units.len(),
{
    if units.len() == 0 {
        0
    } else if answers_to(units[0], name) {
        units[0].id
    } else {
        resolve(units.drop_first(), name)
    }
}

/// The file name of the path of unit `u` (such as `web.service`).
pub open spec fn unit_file_name(u: Unit) -> Seq<char> {
    path_file_name(u.conf.filepath@)->0
}

/// A dependency written as `name` refers to unit `u`: `name` is the unit's name (such as
/// `web`) or its file name (such as `web.service`).
pub open spec fn answers_to(u: Unit, name: Seq<char>) -> bool {
    u.conf.spec_name() == name || unit_file_name(u) == name
}

/// Some unit of `units` answers to the name `name` (see `answers_to`).
pub open spec fn is_unit_name(units: Seq<Unit>, name: Seq<char>) -> bool {
    exists|k: int| 0 <= k < units.len() && #[trigger] answers_to(units[k], name)
}

/// `names` holds, for each unit of `units` in order, its name and its file name.
pub open spec fn names_of_units(names: Seq<(Vec<char>, Vec<char>)>, units: Seq<Unit>) -> bool {
    &&& names.len() == units.len()
    &&& forall|m: int| 0 <= m < units.len() ==> (#[trigger] names[m]).0@ == units[m].conf.spec_name()
        && names[m].1@ == unit_file_name(units[m])
}

/// The ids of the units of `units` are pairwise distinct and each unit's path has a file name.
pub open spec fn table_wf(units: Seq<Unit>) -> bool {
    &&& forall|a: int, b: int|
        0 <= a < units.len() && 0 <= b < units.len() && #[trigger] units[a].id == #[trigger] units[b].id
            ==> a == b
    &&& forall|k: int| 0 <= k < units.len() ==> (#[trigger] units[k]).conf.has_file_name()
}

/// Every name that a unit of `units` lists is the name of a unit of `units`.
pub open spec fn names_resolvable(units: Seq<Unit>) -> bool {
    forall|k: int, r: Relation, j: int|
        0 <= k < units.len() && 0 <= j < named(units[k], r).len() ==> is_unit_name(
            units,
            #[trigger] named(units[k], r)[j]@,
        )
}

/// Unit `k` of `units` lists, under `r`, a name that resolves to `to`.
pub open spec fn refers(units: Seq<Unit>, k: int, r: Relation, to: InternalId) -> bool {
    exists|j: int| 0 <= j < named(units[k], r).len() && #[trigger] resolve(units, named(units[k], r)[j]@) == to
}

/// The unit with id `from` lists, under `r`, a name that resolves to `to`.
pub open spec fn edge(units: Seq<Unit>, r: Relation, from: InternalId, to: InternalId) -> bool {
    exists|k: int| 0 <= k < units.len() && #[trigger] units[k].id == from && refers(units, k, r, to)
}

/// The relation whose names, written in the other unit, put an id in the list that is
/// filled from `r`.
pub open spec fn converse(r: Relation) -> Relation {
    match r {
        Relation::Wants => Relation::WantedBy,
        Relation::WantedBy => Relation::Wants,
        Relation::Requires => Relation::RequiredBy,
        Relation::RequiredBy => Relation::Requires,
        Relation::Before => Relation::After,
        Relation::After => Relation::Before,
    }
}

/// The id list of `install` that is filled from the names under `r`.
pub open spec fn install_list(install: Install, r: Relation) -> Seq<InternalId> {
    match r {
        Relation::Wants => install.wants@,
        Relation::Requires => install.requires@,
        Relation::Before => install.before@,
        Relation::After => install.after@,
        Relation::WantedBy => install.wanted_by@,
        Relation::RequiredBy => install.required_by@,
    }
}

/// After filling, `y` is in the `r` list of unit `i` exactly when it was there before,
/// unit `i` names it under `r`, or unit `y` names unit `i` under the converse relation.
pub open spec fn filled_membership(units: Seq<Unit>, i: int, r: Relation, y: InternalId) -> bool {
    ||| install_list(units[i].install, r).contains(y)
    ||| refers(units, i, r, y)
    ||| edge(units, converse(r), y, units[i].id)
}

/// `new` is `old` with every dependency relation filled in from the names of the unit
/// files, and repeated elements removed from every list.
pub open spec fn dependencies_filled(old: Seq<Unit>, new: Seq<Unit>) -> bool {
    &&& new.len() == old.len()
    &&& forall|i: int| 0 <= i < old.len() ==> {
        &&& (#[trigger] new[i]).id == old[i].id
        &&& new[i].conf == old[i].conf
        &&& new[i].specialized == old[i].specialized
        &&& new[i].install.install_config == old[i].install.install_config
    }
    &&& forall|i: int, r: Relation, y: InternalId|
        0 <= i < old.len() ==> #[trigger] install_list(new[i].install, r).contains(y)
            == filled_membership(old, i, r, y)
    &&& forall|i: int, r: Relation|
        0 <= i < old.len() ==> no_dups(#[trigger] install_list(new[i].install, r))
}

proof fn lemma_resolve_skip(units: Seq<Unit>, name: Seq<char>, k: int)
    requires
        0 <= k <= units.len(),
        forall|m: int| 0 <= m < k ==> !answers_to(units[m], name),
    ensures
        resolve(units, name) == resolve(units.subrange(k, units.len() as int), name),
    decreases k,
{
    if k > 0 {
        assert(units.drop_first().subrange(k - 1, units.drop_first().len() as int) =~= units.subrange(
            k,
            units.len() as int,
        ));
        lemma_resolve_skip(units.drop_first(), name, k - 1);
    } else {
        assert(units.subrange(0, units.len() as int) =~= units);
    }
}

/// The names and file names of the units of a table, as characters.
fn unit_names(units: &Vec<Unit>) -> (res: Vec<(Vec<char>, Vec<char>)>)
    requires
        table_wf(units@),
    ensures
        names_of_units(res@, units@),
{
    let mut res: Vec<(Vec<char>, Vec<char>)> = Vec::new();
    let mut k: usize = 0;
    while k < units.len()
        invariant
            k <= units@.len(),
            table_wf(units@),
            res@.len() == k,
            forall|m: int| 0 <= m < k ==> (#[trigger] res@[m]).0@ == units@[m].conf.spec_name()
                && res@[m].1@ == unit_file_name(units@[m]),
        decreases units.len() - k,
    {
        assert(units@[k as int].conf.has_file_name());
        let n = units[k].conf.name();
        let f = file_name_of(&to_chars(units[k].conf.filepath.as_str()));
        res.push((to_chars(n.as_str()), f));
        k = k + 1;
    }
    res
}

/// The id of the first unit that answers to `name` (see `resolve`).
fn resolve_name(units: &Vec<Unit>, names: &Vec<(Vec<char>, Vec<char>)>, name: &String) -> (res: InternalId)
    requires
        names_of_units(names@, units@),
    ensures
        res == resolve(units@, name@),
{
    let target = to_chars(name.as_str());
    let mut k: usize = 0;
    while k < names.len()
        invariant
            k <= names@.len(),
            target@ == name@,
            names_of_units(names@, units@),
            forall|m: int| 0 <= m < k ==> !answers_to(units@[m], name@),
        decreases names.len() - k,
    {
        if chars_eq(&names[k].0, &target) || chars_eq(&names[k].1, &target) {
            proof {
                lemma_resolve_skip(units@, name@, k as int);
                let rest = units@.subrange(k as int, units@.len() as int);
                assert(rest[0] == units@[k as int]);
            }
            return units[k].id;
        }
        k = k + 1;
    }
    proof {
        lemma_resolve_skip(units@, name@, k as int);
        assert(units@.subrange(k as int, units@.len() as int).len() == 0);
    }
    0
}

/// The names that unit `u` lists under `r`, borrowed.
fn named_list(u: &Unit, r: Relation) -> (res: Option<&Vec<String>>)
    ensures
        match res {
            Some(l) => l@ == named(*u, r),
            None => named(*u, r).len() == 0,
        },
{
    match r {
        Relation::Wants => Some(&u.conf.wants),
        Relation::Requires => Some(&u.conf.requires),
        Relation::Before => Some(&u.conf.before),
        Relation::After => Some(&u.conf.after),
        Relation::WantedBy => match &u.install.install_config {
            Some(c) => Some(&c.wanted_by),
            None => None,
        },
        Relation::RequiredBy => match &u.install.install_config {
            Some(c) => Some(&c.required_by),
            None => None,
        },
    }
}

/// The ids that unit `k` names under `r`.
fn refs_of(units: &Vec<Unit>, names: &Vec<(Vec<char>, Vec<char>)>, k: usize, r: Relation) -> (res: Vec<InternalId>)
    requires
        k < units@.len(),
        names@.len() == units@.len(),
        names_of_units(names@, units@),
    ensures
        forall|y: InternalId| res@.contains(y) <==> refers(units@, k as int, r, y),
{
    let mut res: Vec<InternalId> = Vec::new();
    match named_list(&units[k], r) {
        None => {
            proof {
                assert forall|y: InternalId| !refers(units@, k as int, r, y) by {
                }
            }
        },
        Some(list) => {
            let mut j: usize = 0;
            while j < list.len()
                invariant
                    j <= list@.len(),
                    k < units@.len(),
                    list@ == named(units@[k as int], r),
                    names@.len() == units@.len(),
                    names_of_units(names@, units@),
                    res@.len() == j,
                    forall|m: int| 0 <= m < j ==> #[trigger] res@[m] == resolve(units@, list@[m]@),
                decreases list.len() - j,
            {
                let id = resolve_name(units, names, &list[j]);
                res.push(id);
                j = j + 1;
            }
            proof {
                assert forall|y: InternalId| res@.contains(y) <==> refers(units@, k as int, r, y) by {
                    if res@.contains(y) {
                        let m = choose|m: int| 0 <= m < res@.len() && res@[m] == y;
                        assert(resolve(units@, named(units@[k as int], r)[m]@) == y);
                    }
                    if refers(units@, k as int, r, y) {
                        let m = choose|m: int| 0 <= m < named(units@[k as int], r).len()
                            && #[trigger] resolve(units@, named(units@[k as int], r)[m]@) == y;
                        assert(res@[m] == y);
                    }
                }
            }
        },
    }
    res
}

/// Whether `v` holds `x`.
pub fn contains_id(v: &Vec<InternalId>, x: InternalId) -> (res: bool)
    ensures
        res == v@.contains(x),
{
    let mut i: usize = 0;
    while i < v.len()
        invariant
            i <= v@.len(),
            forall|m: int| 0 <= m < i ==> v@[m] != x,
        decreases v.len() - i,
    {
        if v[i] == x {
            return true;
        }
        i = i + 1;
    }
    false
}

/// The ids of the units that name the unit `x` under `r`.
fn incoming(units: &Vec<Unit>, names: &Vec<(Vec<char>, Vec<char>)>, x: InternalId, r: Relation) -> (res: Vec<InternalId>)
    requires
        names@.len() == units@.len(),
        names_of_units(names@, units@),
    ensures
        forall|y: InternalId| res@.contains(y) <==> edge(units@, r, y, x),
{
    let mut res: Vec<InternalId> = Vec::new();
    let mut k: usize = 0;
    while k < units.len()
        invariant
            k <= units@.len(),
            names@.len() == units@.len(),
            names_of_units(names@, units@),
            forall|y: InternalId| res@.contains(y) <==> exists|m: int|
                0 <= m < k && #[trigger] units@[m].id == y && refers(units@, m, r, x),
        decreases units.len() - k,
    {
        let out = refs_of(units, names, k, r);
        let ghost before = res@;
        if contains_id(&out, x) {
            res.push(units[k].id);
            proof {
                assert forall|y: InternalId| res@.contains(y) <==> exists|m: int|
                    0 <= m < k + 1 && #[trigger] units@[m].id == y && refers(units@, m, r, x) by {
                    if res@.contains(y) {
                        let i = choose|i: int| 0 <= i < res@.len() && res@[i] == y;
                        if i < before.len() {
                            assert(before[i] == y);
                            assert(before.contains(y));
                        } else {
                            assert(units@[k as int].id == y);
                        }
                    }
                    if exists|m: int| 0 <= m < k + 1 && #[trigger] units@[m].id == y && refers(units@, m, r, x) {
                        let m = choose|m: int| 0 <= m < k + 1 && #[trigger] units@[m].id == y && refers(units@, m, r, x);
                        if m < k {
                            assert(before.contains(y));
                            let i = choose|i: int| 0 <= i < before.len() && before[i] == y;
                            assert(res@[i] == y);
                        } else {
                            assert(res@[res@.len() - 1] == y);
                        }
                    }
                }
            }
        } else {
            proof {
                assert forall|y: InternalId| res@.contains(y) <==> exists|m: int|
                    0 <= m < k + 1 && #[trigger] units@[m].id == y && refers(units@, m, r, x) by {
                    if exists|m: int| 0 <= m < k + 1 && #[trigger] units@[m].id == y && refers(units@, m, r, x) {
                        let m = choose|m: int| 0 <= m < k + 1 && #[trigger] units@[m].id == y && refers(units@, m, r, x);
                        if m == k {
                            assert(out@.contains(x));
                        }
                    }
                }
            }
        }
        k = k + 1;
    }
    res
}

/// The concatenation of `a`, `b` and `c`.
fn concat3(a: &Vec<InternalId>, b: &Vec<InternalId>, c: &Vec<InternalId>) -> (res: Vec<InternalId>)
    ensures
        res@ == a@ + b@ + c@,
{
    let mut res: Vec<InternalId> = Vec::new();
    let mut i: usize = 0;
    while i < a.len()
        invariant
            i <= a@.len(),
            res@ == a@.take(i as int),
        decreases a.len() - i,
    {
        res.push(a[i]);
        proof {
            assert(a@.take(i + 1) =~= a@.take(i as int).push(a@[i as int]));
        }
        i = i + 1;
    }
    proof {
        assert(a@.take(a@.len() as int) =~= a@);
    }
    let mut j: usize = 0;
    while j < b.len()
        invariant
            j <= b@.len(),
            res@ == a@ + b@.take(j as int),
        decreases b.len() - j,
    {
        res.push(b[j]);
        proof {
            assert(a@ + b@.take(j + 1) =~= (a@ + b@.take(j as int)).push(b@[j as int]));
        }
        j = j + 1;
    }
    proof {
        assert(b@.take(b@.len() as int) =~= b@);
    }
    let mut k: usize = 0;
    while k < c.len()
        invariant
            k <= c@.len(),
            res@ == a@ + b@ + c@.take(k as int),
        decreases c.len() - k,
    {
        res.push(c[k]);
        proof {
            assert(a@ + b@ + c@.take(k + 1) =~= (a@ + b@ + c@.take(k as int)).push(c@[k as int]));
        }
        k = k + 1;
    }
    proof {
        assert(c@.take(c@.len() as int) =~= c@);
    }
    res
}

/// The id list of `install` filled from `r`, borrowed.
fn install_list_ref(install: &Install, r: Relation) -> (res: &Vec<InternalId>)
    ensures
        res@ == install_list(*install, r),
{
    match r {
        Relation::Wants => &install.wants,
        Relation::Requires => &install.requires,
        Relation::Before => &install.before,
        Relation::After => &install.after,
        Relation::WantedBy => &install.wanted_by,
        Relation::RequiredBy => &install.required_by,
    }
}

fn converse_of(r: Relation) -> (res: Relation)
    ensures
        res == converse(r),
{
    match r {
        Relation::Wants => Relation::WantedBy,
        Relation::WantedBy => Relation::Wants,
        Relation::Requires => Relation::RequiredBy,
        Relation::RequiredBy => Relation::Requires,
        Relation::Before => Relation::After,
        Relation::After => Relation::Before,
    }
}

proof fn lemma_concat3_contains(a: Seq<InternalId>, b: Seq<InternalId>, c: Seq<InternalId>, y: InternalId)
    ensures
        (a + b + c).contains(y) <==> (a.contains(y) || b.contains(y) || c.contains(y)),
{
    let s = a + b + c;
    if s.contains(y) {
        let k = choose|k: int| 0 <= k < s.len() && s[k] == y;
        if k < a.len() {
            assert(a[k] == y);
        } else if k < a.len() + b.len() {
            assert(b[k - a.len()] == y);
        } else {
            assert(c[k - a.len() - b.len()] == y);
        }
    }
    if a.contains(y) {
        let k = choose|k: int| 0 <= k < a.len() && a[k] == y;
        assert(s[k] == y);
    }
    if b.contains(y) {
        let k = choose|k: int| 0 <= k < b.len() && b[k] == y;
        assert(s[a.len() + k] == y);
    }
    if c.contains(y) {
        let k = choose|k: int| 0 <= k < c.len() && c[k] == y;
        assert(s[a.len() + b.len() + k] == y);
    }
}

/// The `r` list of unit `i` once filled in, with repeated elements removed.
fn filled_list(units: &Vec<Unit>, names: &Vec<(Vec<char>, Vec<char>)>, i: usize, r: Relation) -> (res: Vec<InternalId>)
    requires
        i < units@.len(),
        names@.len() == units@.len(),
        names_of_units(names@, units@),
    ensures
        forall|y: InternalId| #[trigger] res@.contains(y) == filled_membership(units@, i as int, r, y),
        no_dups(res@),
{
    let current = install_list_ref(&units[i].install, r);
    let out = refs_of(units, names, i, r);
    let inc = incoming(units, names, units[i].id, converse_of(r));
    let mut all = concat3(current, &out, &inc);
    let ghost before = all@;
    dedup_ids(&mut all);
    proof {
        lemma_dedup_no_dups(before);
        assert forall|y: InternalId| #[trigger] all@.contains(y) == filled_membership(units@, i as int, r, y) by {
            lemma_dedup_same_elements(before, y);
            lemma_concat3_contains(current@, out@, inc@, y);
        }
    }
    all
}

/// The six filled lists of one unit.
struct FilledLists {
    wants: Vec<InternalId>,
    requires: Vec<InternalId>,
    before: Vec<InternalId>,
    after: Vec<InternalId>,
    wanted_by: Vec<InternalId>,
    required_by: Vec<InternalId>,
}

/// The lists `l` hold what filling gives for unit `i` of `units`.
spec fn lists_filled(units: Seq<Unit>, i: int, l: FilledLists) -> bool {
    &&& forall|r: Relation, y: InternalId| #[trigger] lists_get(l, r).contains(y) == filled_membership(units, i, r, y)
    &&& forall|r: Relation| no_dups(#[trigger] lists_get(l, r))
}

spec fn lists_get(l: FilledLists, r: Relation) -> Seq<InternalId> {
    match r {
        Relation::Wants => l.wants@,
        Relation::Requires => l.requires@,
        Relation::Before => l.before@,
        Relation::After => l.after@,
        Relation::WantedBy => l.wanted_by@,
        Relation::RequiredBy => l.required_by@,
    }
}

/// Appends the ids of `b` to `a`.
fn append_ids(a: &mut Vec<InternalId>, b: &Vec<InternalId>)
    ensures
        final(a)@ == old(a)@ + b@,
{
    let ghost a0 = a@;
    let mut j: usize = 0;
    while j < b.len()
        invariant
            j <= b@.len(),
            a@ == a0 + b@.take(j as int),
        decreases b.len() - j,
    {
        a.push(b[j]);
        proof {
            assert(a0 + b@.take(j + 1) =~= (a0 + b@.take(j as int)).push(b@[j as int]));
        }
        j = j + 1;
    }
    proof {
        assert(b@.take(b@.len() as int) =~= b@);
    }
}

/// Adds the ordering that requiring implies: every unit is also after each unit it
/// requires and before each unit that requires it. The other lists stay as they are.
pub fn add_implicit_before_after(units: &mut Vec<Unit>)
    ensures
        final(units)@.len() == old(units)@.len(),
        forall|i: int| 0 <= i < old(units)@.len() ==> {
            &&& (#[trigger] final(units)@[i]).id == old(units)@[i].id
            &&& final(units)@[i].conf == old(units)@[i].conf
            &&& final(units)@[i].specialized == old(units)@[i].specialized
            &&& final(units)@[i].install.install_config == old(units)@[i].install.install_config
            &&& final(units)@[i].install.wants == old(units)@[i].install.wants
            &&& final(units)@[i].install.requires == old(units)@[i].install.requires
            &&& final(units)@[i].install.wanted_by == old(units)@[i].install.wanted_by
            &&& final(units)@[i].install.required_by == old(units)@[i].install.required_by
            &&& final(units)@[i].install.after@ == old(units)@[i].install.after@ + old(units)@[i].install.requires@
            &&& final(units)@[i].install.before@ == old(units)@[i].install.before@ + old(units)@[i].install.required_by@
        },
{
    let ghost u0 = units@;
    let n = units.len();
    let mut i: usize = 0;
    while i < n
        invariant
            i <= n,
            n == u0.len(),
            units@.len() == n,
            forall|k: int| i <= k < n ==> #[trigger] units@[k] == u0[k],
            forall|k: int| 0 <= k < i ==> {
                &&& (#[trigger] units@[k]).id == u0[k].id
                &&& units@[k].conf == u0[k].conf
                &&& units@[k].specialized == u0[k].specialized
                &&& units@[k].install.install_config == u0[k].install.install_config
                &&& units@[k].install.wants == u0[k].install.wants
                &&& units@[k].install.requires == u0[k].install.requires
                &&& units@[k].install.wanted_by == u0[k].install.wanted_by
                &&& units@[k].install.required_by == u0[k].install.required_by
                &&& units@[k].install.after@ == u0[k].install.after@ + u0[k].install.requires@
                &&& units@[k].install.before@ == u0[k].install.before@ + u0[k].install.required_by@
            },
        decreases n - i,
    {
        let mut u = units.remove(i);
        append_ids(&mut u.install.after, &u.install.requires);
        append_ids(&mut u.install.before, &u.install.required_by);
        units.insert(i, u);
        proof {
            assert forall|k: int| i + 1 <= k < n implies #[trigger] units@[k] == u0[k] by {}
        }
        i = i + 1;
    }
}

/// Fills in the dependency relations of every unit of the table from the names in the
/// unit files: what a unit wants, requires, is ordered before or after, and what wants or
/// requires it, each from both ends; then removes repeated elements from every list.
pub fn fill_dependencies(units: &mut Vec<Unit>)
    requires
        table_wf(old(units)@),
        names_resolvable(old(units)@),
    ensures
        dependencies_filled(old(units)@, final(units)@),
        table_wf(final(units)@),
{
    let names = unit_names(units);
    let n = units.len();
    let mut lists: Vec<FilledLists> = Vec::new();
    let mut i: usize = 0;
    while i < n
        invariant
            i <= n,
            n == units@.len(),
            names@.len() == units@.len(),
            names_of_units(names@, units@),
            lists@.len() == i,
            forall|k: int| 0 <= k < i ==> lists_filled(units@, k, #[trigger] lists@[k]),
        decreases n - i,
    {
        let l = FilledLists {
            wants: filled_list(units, &names, i, Relation::Wants),
            requires: filled_list(units, &names, i, Relation::Requires),
            before: filled_list(units, &names, i, Relation::Before),
            after: filled_list(units, &names, i, Relation::After),
            wanted_by: filled_list(units, &names, i, Relation::WantedBy),
            required_by: filled_list(units, &names, i, Relation::RequiredBy),
        };
        proof {
            assert forall|r: Relation, y: InternalId| #[trigger] lists_get(l, r).contains(y)
                == filled_membership(units@, i as int, r, y) by {
                match r {
                    Relation::Wants => {},
                    Relation::Requires => {},
                    Relation::Before => {},
                    Relation::After => {},
                    Relation::WantedBy => {},
                    Relation::RequiredBy => {},
                }
            }
        }
        lists.push(l);
        i = i + 1;
    }
    let ghost old_units = units@;
    let mut i: usize = n;
    while i > 0
        invariant
            i <= n,
            n == units@.len(),
            n == old_units.len(),
            lists@.len() == i,
            forall|k: int| 0 <= k < i ==> lists_filled(old_units, k, #[trigger] lists@[k]),
            forall|k: int| 0 <= k < i ==> #[trigger] units@[k] == old_units[k],
            forall|k: int| i <= k < n ==> {
                &&& (#[trigger] units@[k]).id == old_units[k].id
                &&& units@[k].conf == old_units[k].conf
                &&& units@[k].specialized == old_units[k].specialized
                &&& units@[k].install.install_config == old_units[k].install.install_config
            },
            forall|k: int, r: Relation, y: InternalId|
                i <= k < n ==> #[trigger] install_list(units@[k].install, r).contains(y)
                    == filled_membership(old_units, k, r, y),
            forall|k: int, r: Relation|
                i <= k < n ==> no_dups(#[trigger] install_list(units@[k].install, r)),
        decreases i,
    {
        i = i - 1;
        let ghost prev_lists = lists@;
        let ghost prev_units = units@;
        let l = lists.pop().unwrap();
        proof {
            assert(l == prev_lists[i as int]);
            assert(lists_filled(old_units, i as int, l));
        }
        let mut u = units.remove(i);
        u.install.wants = l.wants;
        u.install.requires = l.requires;
        u.install.before = l.before;
        u.install.after = l.after;
        u.install.wanted_by = l.wanted_by;
        u.install.required_by = l.required_by;
        units.insert(i, u);
        proof {
            assert forall|r: Relation| install_list(units@[i as int].install, r) == lists_get(l, r) by {
                match r {
                    Relation::Wants => {},
                    Relation::Requires => {},
                    Relation::Before => {},
                    Relation::After => {},
                    Relation::WantedBy => {},
                    Relation::RequiredBy => {},
                }
            }
            assert forall|k: int, r: Relation, y: InternalId|
                i <= k < n implies #[trigger] install_list(units@[k].install, r).contains(y)
                    == filled_membership(old_units, k, r, y) by {
                if k == i {
                    assert(install_list(units@[k].install, r) == lists_get(l, r));
                    assert(lists_get(l, r).contains(y) == filled_membership(old_units, k, r, y));
                } else {
                    assert(units@[k] == prev_units[k]);
                }
            }
            assert forall|k: int, r: Relation|
                i <= k < n implies no_dups(#[trigger] install_list(units@[k].install, r)) by {
                if k == i {
                    assert(install_list(units@[k].install, r) == lists_get(l, r));
                    assert(no_dups(lists_get(l, r)));
                } else {
                    assert(units@[k] == prev_units[k]);
                }
            }
        }
    }
}

/// No dependency list of any unit of `units` holds anything yet, as after parsing.
pub open spec fn lists_empty(units: Seq<Unit>) -> bool {
    forall|k: int, r: Relation| 0 <= k < units.len() ==> (#[trigger] install_list(units[k].install, r)).len() == 0
}

/// Once the relations are filled in from empty lists, each can be read from both ends:
/// unit `b` is in the `r` list of unit `a` (it wants, requires, comes before or after, or
/// is wanted or required by it) exactly when unit `a` is in the converse list of unit `b`.
pub proof fn law_filled_relations_are_symmetric(
    old: Seq<Unit>,
    new: Seq<Unit>,
    a: int,
    b: int,
    r: Relation,
)
    requires
        table_wf(old),
        lists_empty(old),
        dependencies_filled(old, new),
        0 <= a < old.len(),
        0 <= b < old.len(),
    ensures
        install_list(new[a].install, r).contains(new[b].id) <==> install_list(
            new[b].install,
            converse(r),
        ).contains(new[a].id),
{
    let ida = old[a].id;
    let idb = old[b].id;
    assert(new[a].id == ida && new[b].id == idb);
    assert(converse(converse(r)) == r) by {
        match r {
            Relation::Wants => {},
            Relation::Requires => {},
            Relation::Before => {},
            Relation::After => {},
            Relation::WantedBy => {},
            Relation::RequiredBy => {},
        }
    }
    assert(install_list(old[a].install, r).len() == 0);
    assert(install_list(old[b].install, converse(r)).len() == 0);
    assert(install_list(new[a].install, r).contains(idb) == filled_membership(old, a, r, idb));
    assert(install_list(new[b].install, converse(r)).contains(ida) == filled_membership(
        old,
        b,
        converse(r),
        ida,
    ));
    assert(edge(old, converse(r), idb, ida) <==> refers(old, b, converse(r), ida)) by {
        if edge(old, converse(r), idb, ida) {
            let k = choose|k: int| 0 <= k < old.len() && #[trigger] old[k].id == idb && refers(old, k, converse(r), ida);
            assert(k == b);
        }
    }
    assert(edge(old, r, ida, idb) <==> refers(old, a, r, idb)) by {
        if edge(old, r, ida, idb) {
            let k = choose|k: int| 0 <= k < old.len() && #[trigger] old[k].id == ida && refers(old, k, r, idb);
            assert(k == a);
        }
    }
}

/// Filled lists hold no element twice, so removing repeats afterwards changes nothing.
pub proof fn law_dedup_after_fill_changes_nothing(old: Seq<Unit>, new: Seq<Unit>, k: int, r: Relation)
    requires
        dependencies_filled(old, new),
        0 <= k < old.len(),
    ensures
        dedup_seq(install_list(new[k].install, r)) == install_list(new[k].install, r),
{
    lemma_dedup_of_distinct(install_list(new[k].install, r));
}

/// Whether the unit table is well formed (see `table_wf`): distinct ids, and a file name
/// in every unit's path.
pub fn table_is_wf(units: &Vec<Unit>) -> (res: bool)
    ensures
        res == table_wf(units@),
{
    let mut a: usize = 0;
    while a < units.len()
        invariant
            a <= units@.len(),
            forall|x: int, y: int| 0 <= x < a && 0 <= y < units@.len() && #[trigger] units@[x].id == #[trigger] units@[y].id ==> x == y,
            forall|x: int| 0 <= x < a ==> (#[trigger] units@[x]).conf.has_file_name(),
        decreases units.len() - a,
    {
        if !path_has_file_name(&units[a].conf.filepath) {
            return false;
        }
        let mut b: usize = 0;
        while b < units.len()
            invariant
                a < units@.len(),
                b <= units@.len(),
                forall|x: int, y: int| 0 <= x < a && 0 <= y < units@.len() && #[trigger] units@[x].id == #[trigger] units@[y].id ==> x == y,
                forall|y: int| 0 <= y < b && units@[a as int].id == #[trigger] units@[y].id ==> a == y,
            decreases units.len() - b,
        {
            if b != a && units[a].id == units[b].id {
                return false;
            }
            b = b + 1;
        }
        a = a + 1;
    }
    true
}

/// Whether `name` is one of the names or file names of `names`.
fn name_among(names: &Vec<(Vec<char>, Vec<char>)>, name: &String) -> (res: bool)
    ensures
        res == exists|m: int| 0 <= m < names@.len() && (#[trigger] names@[m].0@ == name@ || names@[m].1@ == name@),
{
    let target = to_chars(name.as_str());
    let mut m: usize = 0;
    while m < names.len()
        invariant
            m <= names@.len(),
            target@ == name@,
            forall|x: int| 0 <= x < m ==> names@[x].0@ != name@ && names@[x].1@ != name@,
        decreases names.len() - m,
    {
        if chars_eq(&names[m].0, &target) || chars_eq(&names[m].1, &target) {
            return true;
        }
        m = m + 1;
    }
    false
}

/// The first name of `list` that no unit of `units` answers to, if any.
fn unknown_in(units: &Vec<Unit>, names: &Vec<(Vec<char>, Vec<char>)>, list: &Vec<String>) -> (res: Option<String>)
    requires
        names_of_units(names@, units@),
    ensures
        match res {
            None => forall|j: int| 0 <= j < list@.len() ==> is_unit_name(units@, #[trigger] list@[j]@),
            Some(n) => !is_unit_name(units@, n@) && exists|j: int| 0 <= j < list@.len() && #[trigger] list@[j]@ == n@,
        },
{
    let mut j: usize = 0;
    while j < list.len()
        invariant
            j <= list@.len(),
            names_of_units(names@, units@),
            forall|x: int| 0 <= x < j ==> is_unit_name(units@, #[trigger] list@[x]@),
        decreases list.len() - j,
    {
        if !name_among(names, &list[j]) {
            proof {
                assert forall|k: int| 0 <= k < units@.len() implies !#[trigger] answers_to(units@[k], list@[j as int]@) by {
                    assert(names@[k].0@ == units@[k].conf.spec_name());
                }
            }
            return Some(list[j].clone());
        }
        proof {
            let m = choose|m: int| 0 <= m < names@.len() && (#[trigger] names@[m].0@ == list@[j as int]@ || names@[m].1@ == list@[j as int]@);
            assert(names@[m].0@ == units@[m].conf.spec_name());
            assert(answers_to(units@[m], list@[j as int]@));
        }
        j = j + 1;
    }
    None
}

/// The first name that unit `k` lists under `r` and that no unit of `units` has, if any.
fn unknown_for(units: &Vec<Unit>, names: &Vec<(Vec<char>, Vec<char>)>, k: usize, r: Relation) -> (res: Option<String>)
    requires
        k < units@.len(),
        names@.len() == units@.len(),
        names_of_units(names@, units@),
    ensures
        match res {
            None => forall|j: int| 0 <= j < named(units@[k as int], r).len() ==> is_unit_name(units@, #[trigger] named(units@[k as int], r)[j]@),
            Some(n) => !is_unit_name(units@, n@) && exists|j: int| 0 <= j < named(units@[k as int], r).len() && #[trigger] named(units@[k as int], r)[j]@ == n@,
        },
{
    match named_list(&units[k], r) {
        Some(l) => unknown_in(units, names, l),
        None => None,
    }
}

/// A name that a unit of `units` lists (under any relation) and that no unit has, if there
/// is one: reading the dependencies (`fill_dependencies`) needs every listed name to be
/// that of a unit.
pub fn first_unknown_name(units: &Vec<Unit>) -> (res: Option<String>)
    requires
        table_wf(units@),
    ensures
        match res {
            None => names_resolvable(units@),
            Some(n) => !is_unit_name(units@, n@) && exists|k: int, r: Relation, j: int|
                0 <= k < units@.len() && 0 <= j < named(units@[k], r).len() && #[trigger] named(units@[k], r)[j]@ == n@,
        },
{
    let names = unit_names(units);
    let mut k: usize = 0;
    while k < units.len()
        invariant
            k <= units@.len(),
            names@.len() == units@.len(),
            names_of_units(names@, units@),
            forall|x: int, r: Relation, j: int|
                0 <= x < k && 0 <= j < named(units@[x], r).len() ==> is_unit_name(units@, #[trigger] named(units@[x], r)[j]@),
        decreases units.len() - k,
    {
        let rs = [Relation::Wants, Relation::Requires, Relation::Before, Relation::After, Relation::WantedBy, Relation::RequiredBy];
        let mut q: usize = 0;
        while q < 6
            invariant
                q <= 6,
                k < units@.len(),
                rs@ == seq![Relation::Wants, Relation::Requires, Relation::Before, Relation::After, Relation::WantedBy, Relation::RequiredBy],
                names@.len() == units@.len(),
                names_of_units(names@, units@),
                forall|p: int, j: int| 0 <= p < q && 0 <= j < named(units@[k as int], rs@[p]).len()
                    ==> is_unit_name(units@, #[trigger] named(units@[k as int], rs@[p])[j]@),
            decreases 6 - q,
        {
            match unknown_for(units, &names, k, rs[q]) {
                Some(n) => {
                    return Some(n);
                },
                None => {},
            }
            q = q + 1;
        }
        proof {
            assert forall|r: Relation, j: int| 0 <= j < named(units@[k as int], r).len()
                implies is_unit_name(units@, #[trigger] named(units@[k as int], r)[j]@) by {
                let p: int = match r {
                    Relation::Wants => 0,
                    Relation::Requires => 1,
                    Relation::Before => 2,
                    Relation::After => 3,
                    Relation::WantedBy => 4,
                    Relation::RequiredBy => 5,
                };
                assert(rs@[p] == r);
            }
        }
        k = k + 1;
    }
    None
}

// ---------------------------------------------------------------------------------------
// Socket units by name

/// The socket of unit `u`, if it is a socket unit.
pub open spec fn socket_of(u: Unit) -> Option<Socket> {
    match u.specialized {
        UnitSpecialized::Socket(s) => Some(s),
        _ => None,
    }
}

/// The positions of the socket units of `units` whose file descriptor name is `name`.
pub open spec fn sockets_named(units: Seq<Unit>, name: Seq<char>) -> Seq<int>
    decreases units.len(),
{
    if units.len() == 0 {
        Seq::empty()
    } else {
        let rest = sockets_named(units.drop_last(), name);
        if socket_of(units.last()) matches Some(s) && s.name@ == name {
            rest.push(units.len() - 1)
        } else {
            rest
        }
    }
}

proof fn lemma_sockets_named_bounds(units: Seq<Unit>, name: Seq<char>)
    ensures
        forall|i: int| 0 <= i < sockets_named(units, name).len() ==> 0 <= #[trigger] sockets_named(units, name)[i] < units.len()
            && (socket_of(units[sockets_named(units, name)[i]]) matches Some(s) && s.name@ == name),
    decreases units.len(),
{
    if units.len() > 0 {
        let t = units.drop_last();
        lemma_sockets_named_bounds(t, name);
        assert forall|i: int| 0 <= i < sockets_named(units, name).len() implies 0 <= #[trigger] sockets_named(units, name)[i] < units.len()
            && (socket_of(units[sockets_named(units, name)[i]]) matches Some(s) && s.name@ == name) by {
            if i < sockets_named(t, name).len() {
                assert(sockets_named(units, name)[i] == sockets_named(t, name)[i]);
                assert(units[sockets_named(t, name)[i]] == t[sockets_named(t, name)[i]]);
            }
        }
    }
}

/// The socket of the one socket unit whose file descriptor name is `name`; none where
/// there is no such unit or more than one.
pub fn find_sock_with_name<'b>(name: &String, sockets: &'b Vec<Unit>) -> (res: Option<&'b Socket>)
    ensures
        match res {
            Some(s) => sockets_named(sockets@, name@).len() == 1 && socket_of(sockets@[sockets_named(sockets@, name@)[0]]) == Some(*s),
            None => sockets_named(sockets@, name@).len() != 1,
        },
{
    let mut found: Vec<usize> = Vec::new();
    let mut k: usize = 0;
    proof {
        assert(sockets@.take(0) =~= Seq::<Unit>::empty());
    }
    while k < sockets.len()
        invariant
            k <= sockets@.len(),
            found@.len() == sockets_named(sockets@.take(k as int), name@).len(),
            forall|i: int| 0 <= i < found@.len() ==> #[trigger] found@[i] as int == sockets_named(sockets@.take(k as int), name@)[i],
        decreases sockets.len() - k,
    {
        proof {
            assert(sockets@.take(k + 1).drop_last() =~= sockets@.take(k as int));
            assert(sockets@.take(k + 1).last() == sockets@[k as int]);
        }
        match &sockets[k].specialized {
            UnitSpecialized::Socket(s) => {
                if s.name == *name {
                    found.push(k);
                }
            },
            _ => {},
        }
        k = k + 1;
    }
    proof {
        assert(sockets@.take(sockets@.len() as int) =~= sockets@);
        lemma_sockets_named_bounds(sockets@, name@);
    }
    if found.len() == 1 {
        match &sockets[found[0]].specialized {
            UnitSpecialized::Socket(s) => Some(s),
            _ => None,
        }
    } else {
        None
    }
}

/// The socket of the last socket unit of `units` named `name`, if any.
pub open spec fn last_socket_named(units: Seq<Unit>, name: Seq<char>) -> Option<Socket>
    decreases units.len(),
{
    if units.len() == 0 {
        None
    } else if socket_of(units.last()) is Some && socket_of(units.last())->0.name@ == name {
        socket_of(units.last())
    } else {
        last_socket_named(units.drop_last(), name)
    }
}

/// `a` refers to the socket `b` is.
pub open spec fn same_socket(a: Option<&Socket>, b: Option<Socket>) -> bool {
    match a {
        Some(s) => b == Some(*s),
        None => b is None,
    }
}

/// The sockets of the socket units of the table, by file descriptor name; where two
/// units have the same name, the later one in the table counts.
pub fn get_sockets_by_name<'b>(socket_units: &'b Vec<Unit>) -> (res: crate::fd_store::NamedMap<&'b Socket>)
    ensures
        res.wf(),
        forall|n: Seq<char>| #[trigger] same_socket(res.lookup(n), last_socket_named(socket_units@, n)),
{
    let mut sockets: crate::fd_store::NamedMap<&'b Socket> = crate::fd_store::NamedMap::new();
    let mut k: usize = 0;
    proof {
        assert(socket_units@.take(0) =~= Seq::<Unit>::empty());
    }
    while k < socket_units.len()
        invariant
            k <= socket_units@.len(),
            sockets.wf(),
            forall|n: Seq<char>| #[trigger] same_socket(sockets.lookup(n), last_socket_named(socket_units@.take(k as int), n)),
        decreases socket_units.len() - k,
    {
        proof {
            assert(socket_units@.take(k + 1).drop_last() =~= socket_units@.take(k as int));
            assert(socket_units@.take(k + 1).last() == socket_units@[k as int]);
        }
        let ghost before = sockets;
        match &socket_units[k].specialized {
            UnitSpecialized::Socket(sock) => {
                sockets.insert(sock.name.clone(), sock);
                proof {
                    assert forall|n: Seq<char>| #[trigger] same_socket(sockets.lookup(n), last_socket_named(socket_units@.take(k + 1), n)) by {
                        if n != sock.name@ {
                            assert(sockets.lookup(n) == before.lookup(n));
                            assert(same_socket(before.lookup(n), last_socket_named(socket_units@.take(k as int), n)));
                        }
                    }
                }
            },
            _ => {
                proof {
                    assert forall|n: Seq<char>| #[trigger] same_socket(sockets.lookup(n), last_socket_named(socket_units@.take(k + 1), n)) by {
                        assert(same_socket(before.lookup(n), last_socket_named(socket_units@.take(k as int), n)));
                    }
                }
            },
        }
        k = k + 1;
    }
    proof {
        assert(socket_units@.take(socket_units@.len() as int) =~= socket_units@);
    }
    sockets
}

} // verus!
