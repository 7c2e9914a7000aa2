//! A monitor keyed by path: each registered path names a directory that
//! collects files with given extensions, and a change at a registered path
//! is reported with the extension of the file it concerns.
use vstd::prelude::*;
use crate::helpers::{file_extension, path_extension};
use crate::helpers::rules::texts;
use crate::helpers::text::text_equal;

verus! {

/// A directory that collects files with the given extensions.
#[derive(Debug)]
pub struct DirMonDirectory {
    pub w_dir: String,
    pub w_extns: Vec<String>,
}

impl View for DirMonDirectory {
    type V = (Seq<char>, Seq<Seq<char>>);

    open spec fn view(&self) -> (Seq<char>, Seq<Seq<char>>) {
        (self.w_dir@, texts(self.w_extns@))
    }
}

/// Stored registrations as plain values.
pub open spec fn registration_views(es: Seq<(String, DirMonDirectory)>) -> Seq<(Seq<char>, (Seq<char>, Seq<Seq<char>>))> {
    es.map_values(|e: (String, DirMonDirectory)| (e.0@, e.1@))
}

/// No path is registered twice.
pub open spec fn distinct_paths(s: Seq<(Seq<char>, (Seq<char>, Seq<Seq<char>>))>) -> bool {
    forall|i: int, j: int| 0 <= i < s.len() && 0 <= j < s.len() && i != j ==> #[trigger] s[i].0 != #[trigger] s[j].0
}

/// The map from registered path to directory that the registrations describe.
pub open spec fn registrations_map(s: Seq<(Seq<char>, (Seq<char>, Seq<Seq<char>>))>) -> Map<
    Seq<char>,
    (Seq<char>, Seq<Seq<char>>),
> {
    Map::new(
        |k: Seq<char>| exists|i: int| 0 <= i < s.len() && #[trigger] s[i].0 == k,
        |k: Seq<char>| s[choose|i: int| 0 <= i < s.len() && #[trigger] s[i].0 == k].1,
    )
}

/// The registered directories, each under its path; a path is registered
/// once.
#[derive(Debug)]
pub struct DirMonConfig {
    w_dirmon: Vec<(String, DirMonDirectory)>,
}

impl DirMonConfig {
    /// The registrations as plain values, in stored order.
    pub closed spec fn entry_views(&self) -> Seq<(Seq<char>, (Seq<char>, Seq<Seq<char>>))> {
        registration_views(self.w_dirmon@)
    }

    /// Well-formed, as every `DirMonConfig` is: no path registered twice.
    #[verifier::type_invariant]
    pub closed spec fn wf(&self) -> bool {
        distinct_paths(self.entry_views())
    }

    /// The registrations as a map from path to directory.
    pub open spec fn view(&self) -> Map<Seq<char>, (Seq<char>, Seq<Seq<char>>)> {
        registrations_map(self.entry_views())
    }

    /// No registrations.
    pub fn new() -> (c: DirMonConfig)
        ensures
            c@ == Map::<Seq<char>, (Seq<char>, Seq<Seq<char>>)>::empty(),
            c.entry_views().len() == 0,
    {
        let c = DirMonConfig { w_dirmon: Vec::new() };
        assert(c@ =~= Map::<Seq<char>, (Seq<char>, Seq<Seq<char>>)>::empty());
        c
    }

    /// The number of registrations.
    pub fn len(&self) -> (n: usize)
        ensures
            n == self.entry_views().len(),
    {
        self.w_dirmon.len()
    }

    /// The directory of the `i`-th registration in stored order.
    pub fn dir_at(&self, i: usize) -> (d: &DirMonDirectory)
        requires
            i < self.entry_views().len(),
        ensures
            d@ == self.entry_views()[i as int].1,
            self@.contains_key(self.entry_views()[i as int].0),
    {
        assert(self.entry_views()[i as int].0 == self.w_dirmon@[i as int].0@);
        &self.w_dirmon[i].1
    }

    /// Where the registration of `key` stands, if there is one.
    fn position_of(&self, key: &str) -> (r: Option<usize>)
        ensures
            match r {
                Some(i) => i < self.w_dirmon@.len() && self.entry_views()[i as int].0 == key@,
                None => !self@.contains_key(key@),
            },
    {
        let mut i: usize = 0;
        while i < self.w_dirmon.len()
            invariant
                i <= self.w_dirmon@.len(),
                forall|j: int| 0 <= j < i ==> self.entry_views()[j].0 != key@,
            decreases self.w_dirmon@.len() - i,
        {
            assert(self.entry_views()[i as int].0 == self.w_dirmon@[i as int].0@);
            if text_equal(self.w_dirmon[i].0.as_str(), key) {
                return Some(i);
            }
            i = i + 1;
        }
        None
    }

    /// The directory registered under `key`, if there is one.
    pub fn get(&self, key: &str) -> (r: Option<&DirMonDirectory>)
        ensures
            r is Some == self@.contains_key(key@),
            r matches Some(d) ==> d@ == self@[key@],
    {
        proof {
            use_type_invariant(self);
        }
        match self.position_of(key) {
            Some(i) => {
                let ghost s = self.entry_views();
                assert(s[i as int].1 == self.w_dirmon@[i as int].1@);
                assert(self@.contains_key(key@));
                let ghost j = choose|j: int| 0 <= j < s.len() && #[trigger] s[j].0 == key@;
                assert(j == i);
                Some(&self.w_dirmon[i].1)
            },
            None => None,
        }
    }

    /// Registers `directory` under `key`, replacing a directory registered
    /// there before.
    pub fn insert(&mut self, key: String, directory: DirMonDirectory)
        ensures
            final(self)@ == old(self)@.insert(key@, directory@),
    {
        proof {
            use_type_invariant(&*self);
        }
        let ghost s = self.entry_views();
        let ghost kv = (key@, directory@);
        let position = self.position_of(key.as_str());
        let mut entries: Vec<(String, DirMonDirectory)> = Vec::new();
        std::mem::swap(&mut entries, &mut self.w_dirmon);
        assert(registration_views(entries@) == s);
        match position {
            Some(p) => {
                entries.set(p, (key, directory));
                proof {
                    let t = registration_views(entries@);
                    assert(t =~= s.update(p as int, kv));
                    assert forall|i: int, j: int| 0 <= i < t.len() && 0 <= j < t.len() && i != j
                        implies #[trigger] t[i].0 != #[trigger] t[j].0 by {
                        assert(s[i].0 != s[j].0);
                    }
                    assert(registrations_map(t) =~= registrations_map(s).insert(kv.0, kv.1)) by {
                        assert forall|k: Seq<char>| #[trigger] registrations_map(t).contains_key(k)
                            == registrations_map(s).insert(kv.0, kv.1).contains_key(k) by {
                            if registrations_map(t).contains_key(k) {
                                let i = choose|i: int| 0 <= i < t.len() && #[trigger] t[i].0 == k;
                                assert(s[i].0 == k || i == p);
                            }
                            if registrations_map(s).contains_key(k) {
                                let i = choose|i: int| 0 <= i < s.len() && #[trigger] s[i].0 == k;
                                assert(t[i].0 == k);
                            }
                        }
                        assert forall|k: Seq<char>| #[trigger] registrations_map(t).contains_key(k)
                            implies registrations_map(t)[k] == registrations_map(s).insert(kv.0, kv.1)[k] by {
                            let i = choose|i: int| 0 <= i < t.len() && #[trigger] t[i].0 == k;
                            let j = choose|j: int| 0 <= j < t.len() && #[trigger] t[j].0 == k;
                            assert(i == j);
                            if k != kv.0 {
                                assert(s[i].0 == k);
                                let l = choose|l: int| 0 <= l < s.len() && #[trigger] s[l].0 == k;
                                assert(l == i);
                            } else {
                                assert(i == p);
                            }
                        }
                    }
                }
            },
            None => {
                entries.push((key, directory));
                proof {
                    let t = registration_views(entries@);
                    assert(t =~= s.push(kv));
                    assert forall|i: int, j: int| 0 <= i < t.len() && 0 <= j < t.len() && i != j
                        implies #[trigger] t[i].0 != #[trigger] t[j].0 by {
                        if i < s.len() && j < s.len() {
                            assert(s[i].0 != s[j].0);
                        } else if i < s.len() {
                            assert(t[i].0 == s[i].0);
                        } else {
                            assert(t[j].0 == s[j].0);
                        }
                    }
                    assert(registrations_map(t) =~= registrations_map(s).insert(kv.0, kv.1)) by {
                        assert forall|k: Seq<char>| #[trigger] registrations_map(t).contains_key(k)
                            == registrations_map(s).insert(kv.0, kv.1).contains_key(k) by {
                            if k == kv.0 {
                                assert(t[s.len() as int].0 == k);
                            }
                            if registrations_map(t).contains_key(k) {
                                let i = choose|i: int| 0 <= i < t.len() && #[trigger] t[i].0 == k;
                                if i < s.len() {
                                    assert(s[i].0 == k);
                                }
                            }
                            if registrations_map(s).contains_key(k) {
                                let i = choose|i: int| 0 <= i < s.len() && #[trigger] s[i].0 == k;
                                assert(t[i].0 == k);
                            }
                        }
                        assert forall|k: Seq<char>| #[trigger] registrations_map(t).contains_key(k)
                            implies registrations_map(t)[k] == registrations_map(s).insert(kv.0, kv.1)[k] by {
                            let i = choose|i: int| 0 <= i < t.len() && #[trigger] t[i].0 == k;
                            let j = choose|j: int| 0 <= j < t.len() && #[trigger] t[j].0 == k;
                            assert(i == j);
                            if k != kv.0 {
                                assert(i < s.len());
                                assert(s[i].0 == k);
                                let l = choose|l: int| 0 <= l < s.len() && #[trigger] s[l].0 == k;
                                assert(t[l].0 == k);
                                assert(l == i);
                            }
                        }
                    }
                }
            },
        }
        self.w_dirmon = entries;
    }

    /// What a change at `path` concerns: nothing unless the change created
    /// something; for a creation, the extension of the created file and,
    /// when it has one, the directory registered under the path.
    pub fn w_event_handler(&self, is_create: bool, path: &String) -> (r: Option<(Option<String>, Option<&DirMonDirectory>)>)
        ensures
            r is Some == is_create,
            r matches Some((ext, dir)) ==> {
                &&& match ext {
                    Some(e) => path_extension(path@) == Some(e@),
                    None => path_extension(path@) is None,
                }
                &&& dir is Some <==> (ext is Some && self@.contains_key(path@))
                &&& dir matches Some(d) ==> d@ == self@[path@]
            },
    {
        if !is_create {
            return None;
        }
        let ext = file_extension(path.as_str());
        let dir = match ext {
            Some(_) => self.get(path.as_str()),
            None => None,
        };
        Some((ext, dir))
    }
}

/// A running monitor and its registrations.
#[derive(Debug)]
pub struct DirMonInstance {
    pub w_dirmon_conf: DirMonConfig,
}

} // verus!
