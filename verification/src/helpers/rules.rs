//! The sorting rules of one monitored directory: for each type (a folder
//! name), the extensions whose files go into it. The rules are kept in the
//! byte order of the type names, as an ordered map keeps its keys, and every
//! type name occurs once.
use vstd::prelude::*;
use crate::components::{dir_key, Directory, DirectoryKey, DirectoryView};
use crate::components::paths::path_components;
use crate::helpers::text::{text_before, text_equal, text_less, lemma_text_before_irreflexive,
    lemma_text_before_total, lemma_text_before_transitive};

verus! {

/// The character views of a list of strings.
pub open spec fn texts(v: Seq<String>) -> Seq<Seq<char>> {
    v.map_values(|s: String| s@)
}

/// Whether two lists of strings hold the same texts in the same order.
pub fn texts_equal(a: &Vec<String>, b: &Vec<String>) -> (r: bool)
    ensures
        r == (texts(a@) == texts(b@)),
{
    if a.len() != b.len() {
        assert(texts(a@).len() != texts(b@).len());
        return false;
    }
    let mut i: usize = 0;
    while i < a.len()
        invariant
            i <= a@.len(),
            a@.len() == b@.len(),
            forall|j: int| 0 <= j < i ==> a@[j]@ == b@[j]@,
        decreases a@.len() - i,
    {
        if a[i] != b[i] {
            assert(texts(a@)[i as int] != texts(b@)[i as int]);
            return false;
        }
        i = i + 1;
    }
    assert(texts(a@) =~= texts(b@));
    true
}

/// One rule as plain values: a type name and its extensions.
pub type RuleView = (Seq<char>, Seq<Seq<char>>);

/// Type names strictly increase along the sequence.
pub open spec fn strictly_sorted(s: Seq<RuleView>) -> bool {
    forall|i: int, j: int| 0 <= i < j < s.len() ==> text_before(#[trigger] s[i].0, #[trigger] s[j].0)
}

/// Whether some rule of the sequence has the type name `k`.
pub open spec fn has_key(s: Seq<RuleView>, k: Seq<char>) -> bool {
    exists|i: int| 0 <= i < s.len() && #[trigger] s[i].0 == k
}

/// The map from type names to extensions that a sequence of rules describes.
pub open spec fn rules_map(s: Seq<RuleView>) -> Map<Seq<char>, Seq<Seq<char>>> {
    Map::new(
        |k: Seq<char>| has_key(s, k),
        |k: Seq<char>| s[choose|i: int| 0 <= i < s.len() && #[trigger] s[i].0 == k].1,
    )
}

/// The type names of a sequence of rules, in order.
pub open spec fn rule_keys(s: Seq<RuleView>) -> Seq<Seq<char>> {
    s.map_values(|e: RuleView| e.0)
}

/// In a sorted sequence a type name occurs once, so the map finds the rule
/// that holds it.
pub proof fn lemma_rules_map_at(s: Seq<RuleView>, i: int)
    requires
        strictly_sorted(s),
        0 <= i < s.len(),
    ensures
        rules_map(s).contains_key(s[i].0),
        rules_map(s)[s[i].0] == s[i].1,
{
    assert(has_key(s, s[i].0));
    let j = choose|j: int| 0 <= j < s.len() && #[trigger] s[j].0 == s[i].0;
    if j < i {
        assert(text_before(s[j].0, s[i].0));
        lemma_text_before_irreflexive(s[i].0);
    } else if i < j {
        assert(text_before(s[i].0, s[j].0));
        lemma_text_before_irreflexive(s[i].0);
    }
}

/// A sorted sequence names each type once, and its map has as many entries
/// as the sequence has rules.
pub proof fn lemma_rules_map_len(s: Seq<RuleView>)
    requires
        strictly_sorted(s),
    ensures
        rule_keys(s).no_duplicates(),
        rules_map(s).dom() == rule_keys(s).to_set(),
        rules_map(s).dom().finite(),
        rules_map(s).dom().len() == s.len(),
{
    let keys = rule_keys(s);
    assert forall|i: int, j: int| 0 <= i < keys.len() && 0 <= j < keys.len() && i != j implies keys[i]
        != keys[j] by {
        lemma_text_before_irreflexive(s[i].0);
        if i < j {
            assert(text_before(s[i].0, s[j].0));
        } else {
            assert(text_before(s[j].0, s[i].0));
        }
    }
    assert(rules_map(s).dom() =~= keys.to_set()) by {
        assert forall|k: Seq<char>| rules_map(s).dom().contains(k) implies keys.to_set().contains(k) by {
            let i = choose|i: int| 0 <= i < s.len() && #[trigger] s[i].0 == k;
            assert(keys[i] == k);
        }
        assert forall|k: Seq<char>| keys.to_set().contains(k) implies rules_map(s).dom().contains(k) by {
            let i = choose|i: int| 0 <= i < keys.len() && keys[i] == k;
            assert(s[i].0 == k);
        }
    }
    keys.unique_seq_to_set();
}

/// The rules of one directory, ordered by type name.
#[derive(Debug)]
pub struct RuleMap {
    entries: Vec<(String, Vec<String>)>,
}

/// A copy of a list of strings.
pub fn copy_texts(v: &Vec<String>) -> (r: Vec<String>)
    ensures
        r@ == v@,
        texts(r@) == texts(v@),
{
    let mut r: Vec<String> = Vec::new();
    let mut i: usize = 0;
    while i < v.len()
        invariant
            i <= v.len(),
            r@ == v@.take(i as int),
        decreases v.len() - i,
    {
        r.push(v[i].clone());
        assert(v@.take(i + 1) =~= v@.take(i as int).push(v@[i as int]));
        i = i + 1;
    }
    assert(v@.take(v.len() as int) =~= v@);
    r
}

/// Stored rules as plain values.
pub open spec fn rule_views(es: Seq<(String, Vec<String>)>) -> Seq<RuleView> {
    es.map_values(|e: (String, Vec<String>)| (e.0@, texts(e.1@)))
}

impl RuleMap {
    /// The rules as plain values, in stored order.
    pub closed spec fn entry_views(&self) -> Seq<RuleView> {
        rule_views(self.entries@)
    }

    /// Type names in stored order.
    pub open spec fn keys_view(&self) -> Seq<Seq<char>> {
        rule_keys(self.entry_views())
    }

    /// Well-formed, as every `RuleMap` is: type names strictly increase.
    #[verifier::type_invariant]
    pub open spec fn wf(&self) -> bool {
        strictly_sorted(self.entry_views())
    }

    /// The rules as a map from type name to extensions.
    pub open spec fn view(&self) -> Map<Seq<char>, Seq<Seq<char>>> {
        rules_map(self.entry_views())
    }

    /// No rules.
    pub fn new() -> (r: RuleMap)
        ensures
            r.entry_views() == Seq::<RuleView>::empty(),
            r@ == Map::<Seq<char>, Seq<Seq<char>>>::empty(),
    {
        let r = RuleMap { entries: Vec::new() };
        assert(r.entry_views() =~= Seq::<RuleView>::empty());
        assert(r@ =~= Map::<Seq<char>, Seq<Seq<char>>>::empty());
        r
    }

    /// The number of types.
    pub fn len(&self) -> (n: usize)
        ensures
            n == self.entry_views().len(),
            n == self@.len(),
    {
        proof {
            use_type_invariant(self);
            lemma_rules_map_len(self.entry_views());
        }
        self.entries.len()
    }

    /// Whether there are no rules.
    pub fn is_empty(&self) -> (b: bool)
        ensures
            b == (self.entry_views().len() == 0),
            b == (self@.len() == 0),
    {
        proof {
            use_type_invariant(self);
            lemma_rules_map_len(self.entry_views());
        }
        self.entries.len() == 0
    }

    /// The type name of the `i`-th rule in order.
    pub fn key_at(&self, i: usize) -> (k: &String)
        requires
            i < self.entry_views().len(),
        ensures
            k@ == self.entry_views()[i as int].0,
    {
        &self.entries[i].0
    }

    /// The extensions of the `i`-th rule in order.
    pub fn values_at(&self, i: usize) -> (v: &Vec<String>)
        requires
            i < self.entry_views().len(),
        ensures
            texts(v@) == self.entry_views()[i as int].1,
    {
        &self.entries[i].1
    }

    /// Where the rule for `key` stands, if there is one.
    pub fn position_of(&self, key: &str) -> (r: Option<usize>)
        ensures
            match r {
                Some(i) => i < self.entry_views().len() && self.entry_views()[i as int].0 == key@,
                None => !has_key(self.entry_views(), key@),
            },
    {
        let mut i: usize = 0;
        while i < self.entries.len()
            invariant
                i <= self.entries@.len(),
                forall|j: int| 0 <= j < i ==> self.entry_views()[j].0 != key@,
            decreases self.entries@.len() - i,
        {
            if text_equal(self.entries[i].0.as_str(), key) {
                return Some(i);
            }
            i = i + 1;
        }
        None
    }

    /// Whether there is a rule for `key`.
    pub fn contains_key(&self, key: &str) -> (b: bool)
        ensures
            b == self@.contains_key(key@),
    {
        self.position_of(key).is_some()
    }

    /// The extensions of the type `key`, if it has a rule.
    pub fn get(&self, key: &str) -> (r: Option<&Vec<String>>)
        ensures
            r is Some == self@.contains_key(key@),
            r matches Some(v) ==> texts(v@) == self@[key@],
    {
        match self.position_of(key) {
            Some(i) => {
                proof {
                    use_type_invariant(self);
                    lemma_rules_map_at(self.entry_views(), i as int);
                }
                Some(&self.entries[i].1)
            },
            None => None,
        }
    }

    /// The type names in order.
    pub fn keys(&self) -> (r: Vec<String>)
        ensures
            texts(r@) == self.keys_view(),
    {
        let mut r: Vec<String> = Vec::new();
        let mut i: usize = 0;
        while i < self.entries.len()
            invariant
                i <= self.entries@.len(),
                texts(r@) == self.keys_view().take(i as int),
            decreases self.entries@.len() - i,
        {
            let ghost before = r@;
            r.push(self.entries[i].0.clone());
            assert(texts(r@) =~= texts(before).push(self.entries@[i as int].0@));
            assert(self.entry_views()[i as int].0 == self.entries@[i as int].0@);
            assert(self.keys_view()[i as int] == self.entry_views()[i as int].0);
            assert(texts(r@) =~= self.keys_view().take(i + 1));
            i = i + 1;
        }
        assert(self.keys_view().take(self.entries@.len() as int) =~= self.keys_view());
        r
    }

    /// A copy of the rules.
    pub fn duplicate(&self) -> (r: RuleMap)
        ensures
            r.entry_views() == self.entry_views(),
    {
        proof {
            use_type_invariant(self);
        }
        let mut entries: Vec<(String, Vec<String>)> = Vec::new();
        let mut i: usize = 0;
        while i < self.entries.len()
            invariant
                i <= self.entries@.len(),
                entries@.map_values(|e: (String, Vec<String>)| (e.0@, texts(e.1@)))
                    == self.entry_views().take(i as int),
            decreases self.entries@.len() - i,
        {
            let k = self.entries[i].0.clone();
            let v = copy_texts(&self.entries[i].1);
            let ghost before = entries@;
            entries.push((k, v));
            assert(entries@.map_values(|e: (String, Vec<String>)| (e.0@, texts(e.1@))) =~= before.map_values(
                |e: (String, Vec<String>)| (e.0@, texts(e.1@)),
            ).push((self.entries@[i as int].0@, texts(self.entries@[i as int].1@))));
            assert(self.entry_views()[i as int] == (self.entries@[i as int].0@, texts(self.entries@[i as int].1@)));
            assert(entries@.map_values(|e: (String, Vec<String>)| (e.0@, texts(e.1@)))
                =~= self.entry_views().take(i + 1));
            i = i + 1;
        }
        assert(self.entry_views().take(self.entries@.len() as int) =~= self.entry_views());
        RuleMap { entries }
    }

    /// Sets the extensions of type `key`, replacing any it had; the order of
    /// type names is kept.
    pub fn insert(&mut self, key: String, value: Vec<String>)
        ensures
            final(self)@ == old(self)@.insert(key@, texts(value@)),
    {
        proof {
            use_type_invariant(&*self);
        }
        let ghost s = self.entry_views();
        let ghost kv: RuleView = (key@, texts(value@));
        let mut entries: Vec<(String, Vec<String>)> = Vec::new();
        std::mem::swap(&mut entries, &mut self.entries);
        assert(rule_views(entries@) == s);
        let mut p: usize = 0;
        while p < entries.len() && text_less(entries[p].0.as_str(), key.as_str())
            invariant
                p <= entries@.len(),
                rule_views(entries@) == s,
                forall|j: int| 0 <= j < p ==> text_before(#[trigger] s[j].0, key@),
            decreases entries@.len() - p,
        {
            p = p + 1;
        }
        proof {
            lemma_text_before_total(key@, key@);
        }
        if p < entries.len() && text_equal(entries[p].0.as_str(), key.as_str()) {
            entries.set(p, (key, value));
            proof {
                let t = rule_views(entries@);
                assert(t =~= s.update(p as int, kv));
                assert forall|i: int, j: int| 0 <= i < j < t.len() implies text_before(
                    #[trigger] t[i].0,
                    #[trigger] t[j].0,
                ) by {
                    assert(text_before(s[i].0, s[j].0));
                }
                assert(rules_map(t) =~= rules_map(s).insert(kv.0, kv.1)) by {
                    lemma_rules_map_at(t, p as int);
                    assert forall|k: Seq<char>| #[trigger] rules_map(t).contains_key(k)
                        == rules_map(s).insert(kv.0, kv.1).contains_key(k) by {
                        if has_key(t, k) {
                            let i = choose|i: int| 0 <= i < t.len() && #[trigger] t[i].0 == k;
                            assert(s[i].0 == k);
                        }
                        if has_key(s, k) {
                            let i = choose|i: int| 0 <= i < s.len() && #[trigger] s[i].0 == k;
                            assert(t[i].0 == k);
                        }
                    }
                    assert forall|k: Seq<char>| #[trigger] rules_map(t).contains_key(k) implies rules_map(
                        t,
                    )[k] == rules_map(s).insert(kv.0, kv.1)[k] by {
                        if k != kv.0 {
                            let i = choose|i: int| 0 <= i < t.len() && #[trigger] t[i].0 == k;
                            lemma_rules_map_at(t, i);
                            lemma_rules_map_at(s, i);
                        }
                    }
                }
            }
        } else {
            proof {
                if p < s.len() {
                    lemma_text_before_total(key@, s[p as int].0);
                }
            }
            entries.insert(p, (key, value));
            proof {
                let t = rule_views(entries@);
                assert(t =~= s.insert(p as int, kv));
                assert forall|i: int, j: int| 0 <= i < j < t.len() implies text_before(
                    #[trigger] t[i].0,
                    #[trigger] t[j].0,
                ) by {
                    if j < p {
                        assert(text_before(s[i].0, s[j].0));
                    } else if j == p {
                        assert(text_before(s[i].0, key@));
                    } else if i == p {
                        assert(t[j] == s[j - 1]);
                        if j - 1 > p {
                            assert(text_before(s[p as int].0, s[j - 1].0));
                            lemma_text_before_transitive(key@, s[p as int].0, s[j - 1].0);
                        }
                    } else if i < p {
                        assert(t[j] == s[j - 1]);
                        if j - 1 > i {
                            assert(text_before(s[i].0, s[j - 1].0));
                        } else {
                            assert(false);
                        }
                    } else {
                        assert(t[i] == s[i - 1]);
                        assert(t[j] == s[j - 1]);
                        assert(text_before(s[i - 1].0, s[j - 1].0));
                    }
                }
                assert(rules_map(t) =~= rules_map(s).insert(kv.0, kv.1)) by {
                    lemma_rules_map_at(t, p as int);
                    assert forall|k: Seq<char>| #[trigger] rules_map(t).contains_key(k)
                        == rules_map(s).insert(kv.0, kv.1).contains_key(k) by {
                        if has_key(t, k) {
                            let i = choose|i: int| 0 <= i < t.len() && #[trigger] t[i].0 == k;
                            if i < p {
                                assert(s[i].0 == k);
                            } else if i > p {
                                assert(s[i - 1].0 == k);
                            }
                        }
                        if has_key(s, k) {
                            let i = choose|i: int| 0 <= i < s.len() && #[trigger] s[i].0 == k;
                            if i < p {
                                assert(t[i].0 == k);
                            } else {
                                assert(t[i + 1].0 == k);
                            }
                        }
                    }
                    assert forall|k: Seq<char>| #[trigger] rules_map(t).contains_key(k) implies rules_map(
                        t,
                    )[k] == rules_map(s).insert(kv.0, kv.1)[k] by {
                        if k != kv.0 {
                            let i = choose|i: int| 0 <= i < t.len() && #[trigger] t[i].0 == k;
                            lemma_rules_map_at(t, i);
                            if i < p {
                                lemma_rules_map_at(s, i);
                            } else {
                                assert(i != p);
                                lemma_rules_map_at(s, i - 1);
                            }
                        }
                    }
                }
            }
        }
        self.entries = entries;
    }
}

/// After the rules of a type are set (as `RuleMap::insert` leaves them),
/// looking that type up gives the new extensions, every other type is looked
/// up as before, and the type names stay in order.
pub proof fn lemma_lookup_after_insert(
    before: &RuleMap,
    after: &RuleMap,
    key: Seq<char>,
    value: Seq<Seq<char>>,
    other: Seq<char>,
)
    requires
        before.wf(),
        after.wf(),
        after@ == before@.insert(key, value),
    ensures
        after@.contains_key(key),
        after@[key] == value,
        other != key ==> after@.contains_key(other) == before@.contains_key(other),
        other != key && before@.contains_key(other) ==> after@[other] == before@[other],
        forall|i: int, j: int| 0 <= i < j < after.keys_view().len() ==> text_before(
            #[trigger] after.keys_view()[i],
            #[trigger] after.keys_view()[j],
        ),
        after@.len() == before@.len() + (if before@.contains_key(key) { 0int } else { 1int }),
{
    lemma_rules_map_len(before.entry_views());
    lemma_rules_map_len(after.entry_views());
    assert forall|i: int, j: int| 0 <= i < j < after.keys_view().len() implies text_before(
        #[trigger] after.keys_view()[i],
        #[trigger] after.keys_view()[j],
    ) by {
        assert(after.keys_view()[i] == after.entry_views()[i].0);
        assert(after.keys_view()[j] == after.entry_views()[j].0);
    }
}

/// A directory's identity and its rules, as plain values.
pub type DirRulesView = (DirectoryKey, Map<Seq<char>, Seq<Seq<char>>>);

/// No directory occurs twice.
pub open spec fn distinct_dirs(s: Seq<DirRulesView>) -> bool {
    forall|i: int, j: int| 0 <= i < s.len() && 0 <= j < s.len() && i != j ==> #[trigger] s[i].0 != #[trigger] s[j].0
}

/// Whether some entry of the sequence is for the directory `d`.
pub open spec fn has_dir(s: Seq<DirRulesView>, d: DirectoryKey) -> bool {
    exists|i: int| 0 <= i < s.len() && #[trigger] s[i].0 == d
}

/// The map from directories to rules that a sequence of entries describes.
pub open spec fn dir_rules_map(s: Seq<DirRulesView>) -> Map<DirectoryKey, Map<Seq<char>, Seq<Seq<char>>>> {
    Map::new(
        |d: DirectoryKey| has_dir(s, d),
        |d: DirectoryKey| s[choose|i: int| 0 <= i < s.len() && #[trigger] s[i].0 == d].1,
    )
}

/// With distinct directories the map finds the entry that holds one.
pub proof fn lemma_dir_rules_map_at(s: Seq<DirRulesView>, i: int)
    requires
        distinct_dirs(s),
        0 <= i < s.len(),
    ensures
        dir_rules_map(s).contains_key(s[i].0),
        dir_rules_map(s)[s[i].0] == s[i].1,
{
    assert(has_dir(s, s[i].0));
}

/// Stored directories and rules as plain values.
pub open spec fn dir_rules_views(es: Seq<(Directory, RuleMap)>) -> Seq<DirRulesView> {
    es.map_values(|e: (Directory, RuleMap)| (dir_key(e.0@), e.1@))
}

/// The rules of each monitored directory, found by the directory. Two
/// directories are the same when their paths have the same components and
/// they list the same files (see `dir_key`).
#[derive(Debug)]
pub struct DirectoryRules {
    entries: Vec<(Directory, RuleMap)>,
}

impl DirectoryRules {
    /// The entries as plain values, in stored order.
    pub closed spec fn entry_views(&self) -> Seq<DirRulesView> {
        dir_rules_views(self.entries@)
    }

    /// Well-formed, as every `DirectoryRules` is: each directory occurs once.
    #[verifier::type_invariant]
    pub closed spec fn wf(&self) -> bool {
        distinct_dirs(self.entry_views())
    }

    /// The entries as a map from directory to rules.
    pub open spec fn view(&self) -> Map<DirectoryKey, Map<Seq<char>, Seq<Seq<char>>>> {
        dir_rules_map(self.entry_views())
    }

    /// No directories.
    pub fn new() -> (r: DirectoryRules)
        ensures
            r@ == Map::<DirectoryKey, Map<Seq<char>, Seq<Seq<char>>>>::empty(),
    {
        let r = DirectoryRules { entries: Vec::new() };
        assert(r.entry_views() =~= Seq::<DirRulesView>::empty());
        assert(r@ =~= Map::<DirectoryKey, Map<Seq<char>, Seq<Seq<char>>>>::empty());
        r
    }

    /// The number of directories.
    pub fn len(&self) -> (n: usize)
        ensures
            n == self@.len(),
            self@.dom().finite(),
    {
        proof {
            use_type_invariant(self);
            let s = self.entry_views();
            let keys = s.map_values(|e: DirRulesView| e.0);
            assert(keys.no_duplicates()) by {
                assert forall|i: int, j: int| 0 <= i < keys.len() && 0 <= j < keys.len() && i != j
                    implies keys[i] != keys[j] by {
                    assert(s[i].0 != s[j].0);
                }
            }
            assert(self@.dom() =~= keys.to_set()) by {
                assert forall|d: DirectoryKey| self@.dom().contains(d) implies keys.to_set().contains(d) by {
                    let i = choose|i: int| 0 <= i < s.len() && #[trigger] s[i].0 == d;
                    assert(keys[i] == d);
                }
                assert forall|d: DirectoryKey| keys.to_set().contains(d) implies self@.dom().contains(d) by {
                    let i = choose|i: int| 0 <= i < keys.len() && keys[i] == d;
                    assert(s[i].0 == d);
                }
            }
            keys.unique_seq_to_set();
        }
        self.entries.len()
    }

    /// Whether there are no directories.
    pub fn is_empty(&self) -> (b: bool)
        ensures
            b == (self@.len() == 0),
    {
        self.len() == 0
    }

    /// Where the entry for `directory` stands, if there is one.
    fn position_of(&self, directory: &Directory) -> (r: Option<usize>)
        ensures
            match r {
                Some(i) => i < self.entries@.len() && self.entry_views()[i as int].0 == dir_key(directory@),
                None => !has_dir(self.entry_views(), dir_key(directory@)),
            },
    {
        let mut i: usize = 0;
        while i < self.entries.len()
            invariant
                i <= self.entries@.len(),
                forall|j: int| 0 <= j < i ==> self.entry_views()[j].0 != dir_key(directory@),
            decreases self.entries@.len() - i,
        {
            if self.entries[i].0.same_as(directory) {
                assert(self.entry_views()[i as int].0 == dir_key(self.entries@[i as int].0@));
                return Some(i);
            }
            assert(self.entry_views()[i as int].0 == dir_key(self.entries@[i as int].0@));
            i = i + 1;
        }
        None
    }

    /// Whether `directory` has rules.
    pub fn contains_key(&self, directory: &Directory) -> (b: bool)
        ensures
            b == self@.contains_key(dir_key(directory@)),
    {
        self.position_of(directory).is_some()
    }

    /// The rules of `directory`, if it has any.
    pub fn get(&self, directory: &Directory) -> (r: Option<&RuleMap>)
        ensures
            r is Some == self@.contains_key(dir_key(directory@)),
            r matches Some(m) ==> m@ == self@[dir_key(directory@)],
    {
        proof {
            use_type_invariant(self);
        }
        match self.position_of(directory) {
            Some(i) => {
                proof {
                    lemma_dir_rules_map_at(self.entry_views(), i as int);
                }
                Some(&self.entries[i].1)
            },
            None => None,
        }
    }

    /// Sets the rules of `directory`, replacing any it had; a directory that
    /// already has rules keeps the entry it was first stored under.
    pub fn insert(&mut self, directory: Directory, rules: RuleMap)
        ensures
            final(self)@ == old(self)@.insert(dir_key(directory@), rules@),
    {
        proof {
            use_type_invariant(&*self);
        }
        let ghost s = self.entry_views();
        let ghost kv: DirRulesView = (dir_key(directory@), rules@);
        let position = self.position_of(&directory);
        let mut entries: Vec<(Directory, RuleMap)> = Vec::new();
        std::mem::swap(&mut entries, &mut self.entries);
        assert(dir_rules_views(entries@) == s);
        match position {
            Some(p) => {
                let (stored, _) = entries.remove(p);
                entries.insert(p, (stored, rules));
                proof {
                    let t = dir_rules_views(entries@);
                    assert(t =~= s.update(p as int, kv));
                    assert(distinct_dirs(t)) by {
                        assert forall|i: int, j: int| 0 <= i < t.len() && 0 <= j < t.len() && i != j
                            implies #[trigger] t[i].0 != #[trigger] t[j].0 by {
                            assert(s[i].0 != s[j].0);
                        }
                    }
                    assert(dir_rules_map(t) =~= dir_rules_map(s).insert(kv.0, kv.1)) by {
                        lemma_dir_rules_map_at(t, p as int);
                        assert forall|d: DirectoryKey| #[trigger] dir_rules_map(t).contains_key(d)
                            == dir_rules_map(s).insert(kv.0, kv.1).contains_key(d) by {
                            if has_dir(t, d) {
                                let i = choose|i: int| 0 <= i < t.len() && #[trigger] t[i].0 == d;
                                assert(s[i].0 == d);
                            }
                            if has_dir(s, d) {
                                let i = choose|i: int| 0 <= i < s.len() && #[trigger] s[i].0 == d;
                                assert(t[i].0 == d);
                            }
                        }
                        assert forall|d: DirectoryKey| #[trigger] dir_rules_map(t).contains_key(d)
                            implies dir_rules_map(t)[d] == dir_rules_map(s).insert(kv.0, kv.1)[d] by {
                            if d != kv.0 {
                                let i = choose|i: int| 0 <= i < t.len() && #[trigger] t[i].0 == d;
                                lemma_dir_rules_map_at(t, i);
                                lemma_dir_rules_map_at(s, i);
                            }
                        }
                    }
                }
            },
            None => {
                entries.push((directory, rules));
                proof {
                    let t = dir_rules_views(entries@);
                    assert(t =~= s.push(kv));
                    assert(distinct_dirs(t)) by {
                        assert forall|i: int, j: int| 0 <= i < t.len() && 0 <= j < t.len() && i != j
                            implies #[trigger] t[i].0 != #[trigger] t[j].0 by {
                            if i < s.len() && j < s.len() {
                                assert(s[i].0 != s[j].0);
                            } else if i < s.len() {
                                assert(t[i].0 == s[i].0);
                            } else {
                                assert(t[j].0 == s[j].0);
                            }
                        }
                    }
                    assert(dir_rules_map(t) =~= dir_rules_map(s).insert(kv.0, kv.1)) by {
                        lemma_dir_rules_map_at(t, s.len() as int);
                        assert forall|d: DirectoryKey| #[trigger] dir_rules_map(t).contains_key(d)
                            == dir_rules_map(s).insert(kv.0, kv.1).contains_key(d) by {
                            if has_dir(t, d) {
                                let i = choose|i: int| 0 <= i < t.len() && #[trigger] t[i].0 == d;
                                if i < s.len() {
                                    assert(s[i].0 == d);
                                }
                            }
                            if has_dir(s, d) {
                                let i = choose|i: int| 0 <= i < s.len() && #[trigger] s[i].0 == d;
                                assert(t[i].0 == d);
                            }
                        }
                        assert forall|d: DirectoryKey| #[trigger] dir_rules_map(t).contains_key(d)
                            implies dir_rules_map(t)[d] == dir_rules_map(s).insert(kv.0, kv.1)[d] by {
                            if d != kv.0 {
                                let i = choose|i: int| 0 <= i < t.len() && #[trigger] t[i].0 == d;
                                lemma_dir_rules_map_at(t, i);
                                lemma_dir_rules_map_at(s, i);
                            }
                        }
                    }
                }
            },
        }
        self.entries = entries;
    }
}

/// Rules stored for a directory are found for every directory whose path
/// has the same components and that lists the same files; so, as paths
/// compare, a path with or without a trailing separator finds them.
pub proof fn lemma_rules_found_by_components(
    rules: &DirectoryRules,
    stored: DirectoryView,
    asked: DirectoryView,
)
    requires
        path_components(stored.0) == path_components(asked.0),
        stored.1 == asked.1,
        rules@.contains_key(dir_key(stored)),
    ensures
        rules@.contains_key(dir_key(asked)),
        rules@[dir_key(asked)] == rules@[dir_key(stored)],
{
    assert(dir_key(stored) == dir_key(asked));
}

} // verus!
