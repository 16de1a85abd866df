//! A store of open file descriptors, kept across service restarts: those of socket units,
//! under the unit's name, and those that services hand over through the notification API,
//! under the service's name and a name of the service's choosing.
use vstd::prelude::*;

verus! {

/// A map from names to values, kept as a list of entries with distinct names.
pub struct NamedMap<V> {
    pub entries: Vec<(String, V)>,
}

impl<V> NamedMap<V> {
    /// No name occurs twice.
    pub open spec fn wf(&self) -> bool {
        forall|a: int, b: int|
            0 <= a < self.entries@.len() && 0 <= b < self.entries@.len() && #[trigger] self.entries@[a].0@
                == #[trigger] self.entries@[b].0@ ==> a == b
    }

    /// The value stored under `name`, if any.
    pub open spec fn lookup(&self, name: Seq<char>) -> Option<V> {
        if exists|k: int| 0 <= k < self.entries@.len() && #[trigger] self.entries@[k].0@ == name {
            Some(self.entries@[choose|k: int| 0 <= k < self.entries@.len() && #[trigger] self.entries@[k].0@ == name].1)
        } else {
            None
        }
    }

    pub proof fn lemma_lookup_at(&self, k: int)
        requires
            self.wf(),
            0 <= k < self.entries@.len(),
        ensures
            self.lookup(self.entries@[k].0@) == Some(self.entries@[k].1),
    {
        let c = choose|c: int| 0 <= c < self.entries@.len() && #[trigger] self.entries@[c].0@ == self.entries@[k].0@;
        assert(c == k);
    }

    /// An empty map.
    pub fn new() -> (res: Self)
        ensures
            res.wf(),
            res.entries@.len() == 0,
            forall|n: Seq<char>| #[trigger] res.lookup(n) is None,
    {
        NamedMap { entries: Vec::new() }
    }

    /// The position of `name`, if it is stored.
    fn position(&self, name: &String) -> (res: Option<usize>)
        requires
            self.wf(),
        ensures
            match res {
                Some(k) => k < self.entries@.len() && self.entries@[k as int].0@ == name@ && self.lookup(name@) == Some(self.entries@[k as int].1),
                None => self.lookup(name@) is None,
            },
    {
        let mut k: usize = 0;
        while k < self.entries.len()
            invariant
                k <= self.entries@.len(),
                self.wf(),
                forall|m: int| 0 <= m < k ==> self.entries@[m].0@ != name@,
            decreases self.entries.len() - k,
        {
            if self.entries[k].0 == *name {
                proof {
                    self.lemma_lookup_at(k as int);
                }
                return Some(k);
            }
            k = k + 1;
        }
        None
    }

    /// Whether a value is stored under `name`.
    pub fn contains_key(&self, name: &String) -> (res: bool)
        requires
            self.wf(),
        ensures
            res == self.lookup(name@) is Some,
    {
        self.position(name).is_some()
    }

    /// The value stored under `name`, if any.
    pub fn get(&self, name: &String) -> (res: Option<&V>)
        requires
            self.wf(),
        ensures
            match res {
                Some(v) => self.lookup(name@) == Some(*v),
                None => self.lookup(name@) is None,
            },
    {
        match self.position(name) {
            Some(k) => Some(&self.entries[k].1),
            None => None,
        }
    }

    /// Removes the value stored under `name` and returns it.
    pub fn remove(&mut self, name: &String) -> (res: Option<V>)
        requires
            old(self).wf(),
        ensures
            final(self).wf(),
            res == old(self).lookup(name@),
            res is None ==> *final(self) == *old(self),
            final(self).lookup(name@) is None,
            forall|n: Seq<char>| n != name@ ==> #[trigger] final(self).lookup(n) == old(self).lookup(n),
    {
        let ghost before = *self;
        match self.position(name) {
            Some(k) => {
                let (_, v) = self.entries.remove(k);
                proof {
                    let after = *self;
                    assert forall|a: int, b: int|
                        0 <= a < after.entries@.len() && 0 <= b < after.entries@.len() && #[trigger] after.entries@[a].0@
                            == #[trigger] after.entries@[b].0@ implies a == b by {
                        let a2 = if a < k { a } else { a + 1 };
                        let b2 = if b < k { b } else { b + 1 };
                        assert(after.entries@[a] == before.entries@[a2]);
                        assert(after.entries@[b] == before.entries@[b2]);
                    }
                    assert forall|n: Seq<char>| n != name@ implies #[trigger] after.lookup(n) == before.lookup(n) by {
                        if exists|m: int| 0 <= m < before.entries@.len() && #[trigger] before.entries@[m].0@ == n {
                            let m = choose|m: int| 0 <= m < before.entries@.len() && #[trigger] before.entries@[m].0@ == n;
                            before.lemma_lookup_at(m);
                            let m2 = if m < k { m } else { m - 1 };
                            assert(after.entries@[m2] == before.entries@[m]);
                            after.lemma_lookup_at(m2);
                        } else if exists|m: int| 0 <= m < after.entries@.len() && #[trigger] after.entries@[m].0@ == n {
                            let m = choose|m: int| 0 <= m < after.entries@.len() && #[trigger] after.entries@[m].0@ == n;
                            let m2 = if m < k { m } else { m + 1 };
                            assert(before.entries@[m2] == after.entries@[m]);
                        }
                    }
                    if exists|m: int| 0 <= m < after.entries@.len() && #[trigger] after.entries@[m].0@ == name@ {
                        let m = choose|m: int| 0 <= m < after.entries@.len() && #[trigger] after.entries@[m].0@ == name@;
                        let m2 = if m < k { m } else { m + 1 };
                        assert(before.entries@[m2] == after.entries@[m]);
                    }
                }
                Some(v)
            },
            None => None,
        }
    }

    /// Stores `v` under `name`, in place of what was stored there.
    pub fn insert(&mut self, name: String, v: V)
        requires
            old(self).wf(),
        ensures
            final(self).wf(),
            final(self).lookup(name@) == Some(v),
            forall|n: Seq<char>| n != name@ ==> #[trigger] final(self).lookup(n) == old(self).lookup(n),
    {
        let ghost before = *self;
        let ghost key = name@;
        let _ = self.remove(&name);
        let ghost mid = *self;
        self.entries.push((name, v));
        proof {
            let after = *self;
            assert forall|m: int| 0 <= m < mid.entries@.len() implies mid.entries@[m].0@ != key by {
                if mid.entries@[m].0@ == key {
                    assert(exists|c: int| 0 <= c < mid.entries@.len() && #[trigger] mid.entries@[c].0@ == key);
                }
            }
            assert forall|a: int, b: int|
                0 <= a < after.entries@.len() && 0 <= b < after.entries@.len() && #[trigger] after.entries@[a].0@
                    == #[trigger] after.entries@[b].0@ implies a == b by {
                if a < mid.entries@.len() && b < mid.entries@.len() {
                    assert(after.entries@[a] == mid.entries@[a]);
                    assert(after.entries@[b] == mid.entries@[b]);
                } else if a < mid.entries@.len() {
                    assert(after.entries@[a] == mid.entries@[a]);
                } else if b < mid.entries@.len() {
                    assert(after.entries@[b] == mid.entries@[b]);
                }
            }
            after.lemma_lookup_at(mid.entries@.len() as int);
            assert forall|n: Seq<char>| n != key implies #[trigger] after.lookup(n) == before.lookup(n) by {
                assert(mid.lookup(n) == before.lookup(n));
                if exists|m: int| 0 <= m < mid.entries@.len() && #[trigger] mid.entries@[m].0@ == n {
                    let m = choose|m: int| 0 <= m < mid.entries@.len() && #[trigger] mid.entries@[m].0@ == n;
                    mid.lemma_lookup_at(m);
                    assert(after.entries@[m] == mid.entries@[m]);
                    after.lemma_lookup_at(m);
                } else if exists|m: int| 0 <= m < after.entries@.len() && #[trigger] after.entries@[m].0@ == n {
                    let m = choose|m: int| 0 <= m < after.entries@.len() && #[trigger] after.entries@[m].0@ == n;
                    if m < mid.entries@.len() {
                        assert(after.entries@[m] == mid.entries@[m]);
                    }
                }
            }
        }
    }
}

/// One file descriptor of a socket unit: the unit's id, the unit's name and the descriptor.
pub struct GlobalFd {
    pub id: u64,
    pub name: String,
    pub fd: i32,
}

/// The file descriptor store.
pub struct FDStore {
    /// The descriptors of the socket units, by unit name.
    pub global_sockets: NamedMap<Vec<GlobalFd>>,
    /// The descriptors that services stored, by service name and then by descriptor name.
    pub service_stored_sockets: NamedMap<NamedMap<Vec<i32>>>,
}

impl FDStore {
    /// Both maps, and each inner map of service-stored descriptors, have distinct names.
    pub open spec fn wf(&self) -> bool {
        &&& self.global_sockets.wf()
        &&& self.service_stored_sockets.wf()
        &&& forall|k: int| 0 <= k < self.service_stored_sockets.entries@.len() ==> (#[trigger] self.service_stored_sockets.entries@[k]).1.wf()
    }

    /// The descriptors that service `srvc` stored under `fd_name`, if any.
    pub open spec fn stored(&self, srvc: Seq<char>, fd_name: Seq<char>) -> Option<Vec<i32>> {
        match self.service_stored_sockets.lookup(srvc) {
            Some(inner) => inner.lookup(fd_name),
            None => None,
        }
    }

    /// An empty store.
    pub fn new() -> (res: Self)
        ensures
            res.wf(),
            forall|n: Seq<char>| #[trigger] res.global_sockets.lookup(n) is None,
            forall|s: Seq<char>| #[trigger] res.service_stored_sockets.lookup(s) is None,
            forall|s: Seq<char>, f: Seq<char>| #[trigger] res.stored(s, f) is None,
            res.global_sockets.entries@.len() == 0,
            res.service_stored_sockets.entries@.len() == 0,
    {
        let res = FDStore { global_sockets: NamedMap::new(), service_stored_sockets: NamedMap::new() };
        proof {
            assert forall|s: Seq<char>, f: Seq<char>| #[trigger] res.stored(s, f) is None by {
                assert(res.service_stored_sockets.lookup(s) is None);
            }
        }
        res
    }

    /// Stores the descriptors of the socket unit `name`, unless some are stored for it
    /// already; then the store is left as it is and `new_fds` are handed back.
    pub fn insert_global(&mut self, name: String, new_fds: Vec<GlobalFd>) -> (res: Option<Vec<GlobalFd>>)
        requires
            old(self).wf(),
        ensures
            final(self).wf(),
            final(self).service_stored_sockets == old(self).service_stored_sockets,
            match old(self).global_sockets.lookup(name@) {
                None => res is None && final(self).global_sockets.lookup(name@) == Some(new_fds)
                    && forall|n: Seq<char>| n != name@ ==> #[trigger] final(self).global_sockets.lookup(n) == old(self).global_sockets.lookup(n),
                Some(_) => res == Some(new_fds) && final(self).global_sockets == old(self).global_sockets,
            },
    {
        if !self.global_sockets.contains_key(&name) {
            self.global_sockets.insert(name, new_fds);
            None
        } else {
            Some(new_fds)
        }
    }

    /// Removes the descriptors of the socket unit `name` and returns them.
    pub fn remove_global(&mut self, name: &String) -> (res: Option<Vec<GlobalFd>>)
        requires
            old(self).wf(),
        ensures
            final(self).wf(),
            final(self).service_stored_sockets == old(self).service_stored_sockets,
            res == old(self).global_sockets.lookup(name@),
            final(self).global_sockets.lookup(name@) is None,
            forall|n: Seq<char>| n != name@ ==> #[trigger] final(self).global_sockets.lookup(n) == old(self).global_sockets.lookup(n),
    {
        self.global_sockets.remove(name)
    }

    /// The descriptors of the socket unit `name`, if any.
    pub fn get_global(&self, name: &String) -> (res: Option<&Vec<GlobalFd>>)
        requires
            self.wf(),
        ensures
            match res {
                Some(v) => self.global_sockets.lookup(name@) == Some(*v),
                None => self.global_sockets.lookup(name@) is None,
            },
    {
        self.global_sockets.get(name)
    }

    /// The (descriptor, unit id) pairs of all socket units, unit after unit.
    pub fn global_fds_to_ids(&self) -> (res: Vec<(i32, u64)>)
        ensures
            res@ == global_pairs(self.global_sockets.entries@),
    {
        let mut acc: Vec<(i32, u64)> = Vec::new();
        let mut k: usize = 0;
        let ghost es = self.global_sockets.entries@;
        proof {
            assert(es.take(0) =~= Seq::<(String, Vec<GlobalFd>)>::empty());
        }
        while k < self.global_sockets.entries.len()
            invariant
                k <= es.len(),
                es == self.global_sockets.entries@,
                acc@ == global_pairs(es.take(k as int)),
            decreases self.global_sockets.entries.len() - k,
        {
            let fds = &self.global_sockets.entries[k].1;
            let ghost before = acc@;
            let mut j: usize = 0;
            while j < fds.len()
                invariant
                    j <= fds@.len(),
                    acc@ == before + fds@.take(j as int).map_values(|g: GlobalFd| (g.fd, g.id)),
                decreases fds.len() - j,
            {
                acc.push((fds[j].fd, fds[j].id));
                proof {
                    assert(fds@.take(j + 1).map_values(|g: GlobalFd| (g.fd, g.id)) =~= fds@.take(j as int).map_values(|g: GlobalFd| (g.fd, g.id)).push((fds@[j as int].fd, fds@[j as int].id)));
                }
                j = j + 1;
            }
            proof {
                assert(fds@.take(fds@.len() as int) =~= fds@);
                assert(es.take(k + 1).drop_last() =~= es.take(k as int));
                assert(es.take(k + 1).last() == es[k as int]);
            }
            k = k + 1;
        }
        proof {
            assert(es.take(es.len() as int) =~= es);
        }
        acc
    }

    /// Adds `new_fds` to the descriptors that service `srvc_name` stored under `fd_name`.
    pub fn insert_service_stored(&mut self, srvc_name: String, fd_name: String, new_fds: Vec<i32>)
        requires
            old(self).wf(),
        ensures
            final(self).wf(),
            final(self).global_sockets == old(self).global_sockets,
            final(self).stored(srvc_name@, fd_name@) matches Some(v) && v@ == match old(self).stored(srvc_name@, fd_name@) {
                Some(o) => o@ + new_fds@,
                None => new_fds@,
            },
            forall|s: Seq<char>, f: Seq<char>| (s != srvc_name@ || f != fd_name@) ==> #[trigger] final(self).stored(s, f) == old(self).stored(s, f),
    {
        let ghost before = *self;
        let mut inner = match self.service_stored_sockets.remove(&srvc_name) {
            Some(m) => m,
            None => NamedMap::new(),
        };
        proof {
            if before.service_stored_sockets.lookup(srvc_name@) is Some {
                let k = choose|k: int| 0 <= k < before.service_stored_sockets.entries@.len() && #[trigger] before.service_stored_sockets.entries@[k].0@ == srvc_name@;
                assert(before.service_stored_sockets.entries@[k].1.wf());
            }
        }
        let ghost inner0 = inner;
        let mut fds = match inner.remove(&fd_name) {
            Some(v) => v,
            None => Vec::new(),
        };
        let ghost fds0 = fds@;
        let mut i: usize = 0;
        while i < new_fds.len()
            invariant
                i <= new_fds@.len(),
                fds@ == fds0 + new_fds@.take(i as int),
            decreases new_fds.len() - i,
        {
            fds.push(new_fds[i]);
            proof {
                assert(fds0 + new_fds@.take(i + 1) =~= (fds0 + new_fds@.take(i as int)).push(new_fds@[i as int]));
            }
            i = i + 1;
        }
        proof {
            assert(new_fds@.take(new_fds@.len() as int) =~= new_fds@);
            if inner0.lookup(fd_name@) is None {
                assert(fds0 =~= Seq::<i32>::empty());
                assert(fds@ =~= new_fds@);
            }
        }
        let ghost fname = fd_name@;
        inner.insert(fd_name, fds);
        let ghost inner1 = inner;
        self.service_stored_sockets.insert(srvc_name, inner);
        proof {
            let after = *self;
            assert forall|k: int| 0 <= k < after.service_stored_sockets.entries@.len() implies (#[trigger] after.service_stored_sockets.entries@[k]).1.wf() by {
                let e = after.service_stored_sockets.entries@[k];
                after.service_stored_sockets.lemma_lookup_at(k);
                if e.0@ != srvc_name@ {
                    assert(after.service_stored_sockets.lookup(e.0@) == before.service_stored_sockets.lookup(e.0@));
                    let c = choose|c: int| 0 <= c < before.service_stored_sockets.entries@.len() && #[trigger] before.service_stored_sockets.entries@[c].0@ == e.0@;
                    assert(before.service_stored_sockets.entries@[c].1.wf());
                }
            }
            assert forall|s: Seq<char>, f: Seq<char>| (s != srvc_name@ || f != fname) implies #[trigger] after.stored(s, f) == before.stored(s, f) by {
                if s != srvc_name@ {
                } else {
                    assert(inner1.lookup(f) == inner0.lookup(f));
                    if before.service_stored_sockets.lookup(srvc_name@) is None {
                        assert(inner0.lookup(f) is None);
                    }
                }
            }
        }
    }

    /// Removes the descriptors that service `srvc_name` stored under `fd_name` and returns them.
    pub fn remove_service_stored(&mut self, srvc_name: &String, fd_name: &String) -> (res: Option<Vec<i32>>)
        requires
            old(self).wf(),
        ensures
            final(self).wf(),
            final(self).global_sockets == old(self).global_sockets,
            res == old(self).stored(srvc_name@, fd_name@),
            final(self).stored(srvc_name@, fd_name@) is None,
            forall|s: Seq<char>, f: Seq<char>| (s != srvc_name@ || f != fd_name@) ==> #[trigger] final(self).stored(s, f) == old(self).stored(s, f),
    {
        let ghost before = *self;
        match self.service_stored_sockets.remove(srvc_name) {
            Some(mut inner) => {
                proof {
                    let k = choose|k: int| 0 <= k < before.service_stored_sockets.entries@.len() && #[trigger] before.service_stored_sockets.entries@[k].0@ == srvc_name@;
                    assert(before.service_stored_sockets.entries@[k].1.wf());
                }
                let ghost inner0 = inner;
                let res = inner.remove(fd_name);
                let ghost inner1 = inner;
                self.service_stored_sockets.insert(srvc_name.clone(), inner);
                proof {
                    let after = *self;
                    assert forall|k: int| 0 <= k < after.service_stored_sockets.entries@.len() implies (#[trigger] after.service_stored_sockets.entries@[k]).1.wf() by {
                        let e = after.service_stored_sockets.entries@[k];
                        after.service_stored_sockets.lemma_lookup_at(k);
                        if e.0@ != srvc_name@ {
                            assert(after.service_stored_sockets.lookup(e.0@) == before.service_stored_sockets.lookup(e.0@));
                            let c = choose|c: int| 0 <= c < before.service_stored_sockets.entries@.len() && #[trigger] before.service_stored_sockets.entries@[c].0@ == e.0@;
                            assert(before.service_stored_sockets.entries@[c].1.wf());
                        }
                    }
                    assert forall|s: Seq<char>, f: Seq<char>| (s != srvc_name@ || f != fd_name@) implies #[trigger] after.stored(s, f) == before.stored(s, f) by {
                        if s == srvc_name@ {
                            assert(inner1.lookup(f) == inner0.lookup(f));
                        }
                    }
                }
                res
            },
            None => {
                proof {
                    let after = *self;
                    assert forall|s: Seq<char>, f: Seq<char>| (s != srvc_name@ || f != fd_name@) implies #[trigger] after.stored(s, f) == before.stored(s, f) by {
                        if s == srvc_name@ {
                            assert(before.service_stored_sockets.lookup(s) is None);
                        }
                    }
                    assert forall|k: int| 0 <= k < after.service_stored_sockets.entries@.len() implies (#[trigger] after.service_stored_sockets.entries@[k]).1.wf() by {
                        assert(after == before);
                    }
                }
                None
            },
        }
    }

    /// The descriptors that service `srvc_name` stored under `fd_name`, if any.
    pub fn get_service_stored(&self, srvc_name: &String, fd_name: &String) -> (res: Option<&Vec<i32>>)
        requires
            self.wf(),
        ensures
            match res {
                Some(v) => self.stored(srvc_name@, fd_name@) == Some(*v),
                None => self.stored(srvc_name@, fd_name@) is None,
            },
    {
        match self.service_stored_sockets.get(srvc_name) {
            Some(inner) => {
                proof {
                    let k = choose|k: int| 0 <= k < self.service_stored_sockets.entries@.len() && #[trigger] self.service_stored_sockets.entries@[k].0@ == srvc_name@;
                    assert(self.service_stored_sockets.entries@[k].1.wf());
                }
                inner.get(fd_name)
            },
            None => None,
        }
    }
}

/// The (descriptor, unit id) pairs of the entries `es`, entry after entry.
pub open spec fn global_pairs(es: Seq<(String, Vec<GlobalFd>)>) -> Seq<(i32, u64)>
    decreases es.len(),
{
    if es.len() == 0 {
        Seq::empty()
    } else {
        global_pairs(es.drop_last()) + es.last().1@.map_values(|g: GlobalFd| (g.fd, g.id))
    }
}

} // verus!
