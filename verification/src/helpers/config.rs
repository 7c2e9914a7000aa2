//! Reading the configuration: the text of the configuration file is parsed
//! as INI by `configparser`; every section names a monitored directory and
//! every key of a section names a type, with the extensions of that type as
//! a comma-separated value.
use configparser::ini::Ini;
use vstd::prelude::*;
use crate::components::{bare_directory, dir_key, Directory, DirectoryKey};
use crate::helpers::rules::{DirectoryRules, RuleMap};
use crate::helpers::text::{split_at_char, split_on};

verus! {

/// A key of a section and its value, if it has one.
#[derive(Debug)]
pub struct IniEntry {
    pub key: String,
    pub value: Option<String>,
}

/// A section of the configuration and its entries.
#[derive(Debug)]
pub struct IniSection {
    pub name: String,
    pub entries: Vec<IniEntry>,
}

/// An entry as plain values.
pub type EntryView = (Seq<char>, Option<Seq<char>>);

/// A section as plain values.
pub type SectionView = (Seq<char>, Seq<EntryView>);

impl View for IniEntry {
    type V = EntryView;

    open spec fn view(&self) -> EntryView {
        (self.key@, self.value.deep_view())
    }
}

impl View for IniSection {
    type V = SectionView;

    open spec fn view(&self) -> SectionView {
        (self.name@, self.entries@.map_values(|e: IniEntry| e@))
    }
}

/// The views of a list of sections.
pub open spec fn section_views(ss: Seq<IniSection>) -> Seq<SectionView> {
    ss.map_values(|s: IniSection| s@)
}

/// What `configparser` gives for a configuration text read case-sensitively
/// (`Ini::new_cs` and then `Ini::read`): the map from section name to the
/// map from key to value, or the text of the error.
pub uninterp spec fn ini_read(text: Seq<char>) -> Result<
    Map<Seq<char>, Map<Seq<char>, Option<Seq<char>>>>,
    Seq<char>,
>;

/// The map from keys to values that a list of entries describes.
pub open spec fn entries_map(es: Seq<EntryView>) -> Map<Seq<char>, Option<Seq<char>>> {
    Map::new(
        |k: Seq<char>| exists|j: int| 0 <= j < es.len() && #[trigger] es[j].0 == k,
        |k: Seq<char>| es[choose|j: int| 0 <= j < es.len() && #[trigger] es[j].0 == k].1,
    )
}

/// The map from section names to entries that a list of sections describes.
pub open spec fn sections_map(ss: Seq<SectionView>) -> Map<Seq<char>, Map<Seq<char>, Option<Seq<char>>>> {
    Map::new(
        |n: Seq<char>| exists|i: int| 0 <= i < ss.len() && #[trigger] ss[i].0 == n,
        |n: Seq<char>| entries_map(ss[choose|i: int| 0 <= i < ss.len() && #[trigger] ss[i].0 == n].1),
    )
}

/// The list of sections is the map `m`, walked in some order: each section
/// once, each key of a section once.
pub open spec fn lists_sections(ss: Seq<SectionView>, m: Map<Seq<char>, Map<Seq<char>, Option<Seq<char>>>>) -> bool {
    &&& forall|i: int, j: int| 0 <= i < ss.len() && 0 <= j < ss.len() && i != j ==> #[trigger] ss[i].0 != #[trigger] ss[j].0
    &&& forall|i: int, a: int, b: int|
        0 <= i < ss.len() && 0 <= a < ss[i].1.len() && 0 <= b < ss[i].1.len() && a != b
            ==> #[trigger] ss[i].1[a].0 != #[trigger] ss[i].1[b].0
    &&& sections_map(ss) == m
}

/// Whether, from index `i` on, every line holds nothing but blanks (space,
/// tab, carriage return) or starts, after blanks, with a comment symbol
/// (`#` or `;`); `at_line_start` says whether only blanks came before `i`
/// on its line.
pub open spec fn comment_lines_from(s: Seq<char>, i: int, at_line_start: bool) -> bool
    decreases s.len() - i,
{
    if i >= s.len() || i < 0 {
        true
    } else if s[i] == '\n' {
        comment_lines_from(s, i + 1, true)
    } else if !at_line_start {
        comment_lines_from(s, i + 1, false)
    } else if s[i] == ' ' || s[i] == '\t' || s[i] == '\r' {
        comment_lines_from(s, i + 1, true)
    } else if s[i] == '#' || s[i] == ';' {
        comment_lines_from(s, i + 1, false)
    } else {
        false
    }
}

/// The text holds only comment lines and blank lines.
pub open spec fn only_comments(text: Seq<char>) -> bool {
    comment_lines_from(text, 0, true)
}

/// Calls `configparser::ini::Ini::read` on a case-sensitive `Ini` (made by
/// `Ini::new_cs`). Trusted: on success the sections come out as a list in
/// the order in which the returned hash map is walked, which this contract
/// leaves open; the list holds each section once and each key of a section
/// once, and describes the named result `ini_read` of the text. On failure
/// the error text is the named result's error. A text of only comment and
/// blank lines gives no sections: the parser skips a line that, trimmed,
/// starts with a comment symbol (`#` or `;` by default) or is empty, and
/// creates a section only for a line it does not skip.
#[verifier::external_body]
fn read_ini(text: String) -> (r: Result<Vec<IniSection>, String>)
    ensures
        match ini_read(text@) {
            Ok(m) => r matches Ok(ss) && lists_sections(section_views(ss@), m),
            Err(e) => r matches Err(msg) && msg@ == e,
        },
        r is Ok || !only_comments(text@),
        r matches Ok(ss) ==> (only_comments(text@) ==> ss@.len() == 0),
{
    let mut ini = Ini::new_cs();
    match ini.read(text) {
        Ok(map) => Ok(map.into_iter().map(|(name, section)| IniSection {
            name,
            entries: section.into_iter().map(|(key, value)| IniEntry { key, value }).collect(),
        }).collect()),
        Err(e) => Err(e),
    }
}

/// The rules after applying one section's entries to `acc`: each key that
/// has a value gets the value split at commas; keys without a value are
/// passed over.
pub open spec fn apply_entries(acc: Map<Seq<char>, Seq<Seq<char>>>, es: Seq<EntryView>) -> Map<
    Seq<char>,
    Seq<Seq<char>>,
>
    decreases es.len(),
{
    if es.len() == 0 {
        acc
    } else {
        let prev = apply_entries(acc, es.drop_last());
        match es.last().1 {
            Some(v) => prev.insert(es.last().0, split_on(v, ',')),
            None => prev,
        }
    }
}

/// The rules gathered from the first `n` sections, each applied on top of
/// the ones before.
pub open spec fn rules_through(ss: Seq<SectionView>, n: nat) -> Map<Seq<char>, Seq<Seq<char>>>
    decreases n,
{
    if n == 0 {
        Map::empty()
    } else {
        apply_entries(rules_through(ss, (n - 1) as nat), ss[n - 1].1)
    }
}

/// The rules of each directory after the first `n` sections: a section's
/// directory gets the rules gathered so far, the section's own included.
pub open spec fn dir_rules_through(ss: Seq<SectionView>, n: nat) -> Map<
    DirectoryKey,
    Map<Seq<char>, Seq<Seq<char>>>,
>
    decreases n,
{
    if n == 0 {
        Map::empty()
    } else {
        dir_rules_through(ss, (n - 1) as nat).insert(dir_key(bare_directory(ss[n - 1].0)), rules_through(ss, n))
    }
}

/// Entry `j` of section `i` gives the type `k` the value `v`.
pub open spec fn gives_value(ss: Seq<SectionView>, i: int, j: int, k: Seq<char>, v: Seq<char>) -> bool {
    0 <= i < ss.len() && 0 <= j < ss[i].1.len() && ss[i].1[j] == (k, Some(v))
}

/// Among the first `n` sections, no entry walked after entry `j` of
/// section `i` gives the type `k` a value.
pub open spec fn last_value_of(ss: Seq<SectionView>, n: int, i: int, j: int, k: Seq<char>) -> bool {
    forall|i2: int, j2: int, v2: Seq<char>|
        i2 < n && #[trigger] gives_value(ss, i2, j2, k, v2) ==> (i2 < i || (i2 == i && j2 <= j))
}

/// The rules `m` give every type the value of the last entry, in walk
/// order among the first `n` sections, that gives it one, split at commas.
pub open spec fn takes_last_values(ss: Seq<SectionView>, n: int, m: Map<Seq<char>, Seq<Seq<char>>>) -> bool {
    forall|i: int, j: int, k: Seq<char>, v: Seq<char>|
        i < n && #[trigger] gives_value(ss, i, j, k, v) && last_value_of(ss, n, i, j, k) ==> m.contains_key(k)
            && m[k] == split_on(v, ',')
}

/// No section after section `i`, among the first `n`, names the same
/// directory.
pub open spec fn last_section_for(ss: Seq<SectionView>, n: int, i: int) -> bool {
    forall|i2: int| i < i2 < n ==> dir_key(bare_directory(#[trigger] ss[i2].0)) != dir_key(bare_directory(ss[i].0))
}

/// What `build_config` makes of a list of sections: a directory per
/// section; the gathered rules give each type the extensions of its last
/// value; and each directory has the rules gathered up to its last section,
/// so they give each type the extensions of its last value up to there.
pub open spec fn built_from(
    ss: Seq<SectionView>,
    dirs: Seq<Directory>,
    dir_rules: &DirectoryRules,
    flat: &RuleMap,
) -> bool {
    &&& dirs.len() == ss.len()
    &&& forall|i: int| 0 <= i < ss.len() ==> (#[trigger] dirs[i])@ == bare_directory(ss[i].0)
    &&& dir_rules@ == dir_rules_through(ss, ss.len())
    &&& flat@ == rules_through(ss, ss.len())
    &&& takes_last_values(ss, ss.len() as int, flat@)
    &&& forall|i: int|
        0 <= i < ss.len() && last_section_for(ss, ss.len() as int, i) ==> dir_rules@.contains_key(
            dir_key(#[trigger] dirs[i]@),
        ) && takes_last_values(ss, i + 1, dir_rules@[dir_key(dirs[i]@)])
}

/// The last value an entry gives a type within one section's entries is
/// what applying them leaves for it.
proof fn lemma_apply_entries_last_value(
    acc: Map<Seq<char>, Seq<Seq<char>>>,
    es: Seq<EntryView>,
    j: int,
    k: Seq<char>,
    v: Seq<char>,
)
    requires
        0 <= j < es.len(),
        es[j] == (k, Some(v)),
        forall|j2: int| j < j2 < es.len() ==> !((#[trigger] es[j2]).0 == k && es[j2].1 is Some),
    ensures
        apply_entries(acc, es).contains_key(k),
        apply_entries(acc, es)[k] == split_on(v, ','),
    decreases es.len(),
{
    let init = es.drop_last();
    if j < es.len() - 1 {
        assert forall|j2: int| j < j2 < init.len() implies !((#[trigger] init[j2]).0 == k && init[j2].1 is Some) by {
            assert(init[j2] == es[j2]);
        }
        assert(init[j] == es[j]);
        lemma_apply_entries_last_value(acc, init, j, k, v);
        assert(!(es[es.len() - 1].0 == k && es[es.len() - 1].1 is Some));
    }
}

/// Entries that give a type no value leave what it had.
proof fn lemma_apply_entries_untouched(acc: Map<Seq<char>, Seq<Seq<char>>>, es: Seq<EntryView>, k: Seq<char>)
    requires
        forall|j: int| 0 <= j < es.len() ==> !((#[trigger] es[j]).0 == k && es[j].1 is Some),
    ensures
        apply_entries(acc, es).contains_key(k) == acc.contains_key(k),
        acc.contains_key(k) ==> apply_entries(acc, es)[k] == acc[k],
    decreases es.len(),
{
    if es.len() > 0 {
        let init = es.drop_last();
        assert forall|j: int| 0 <= j < init.len() implies !((#[trigger] init[j]).0 == k && init[j].1 is Some) by {
            assert(init[j] == es[j]);
        }
        lemma_apply_entries_untouched(acc, init, k);
        assert(!(es[es.len() - 1].0 == k && es[es.len() - 1].1 is Some));
    }
}

/// The rules gathered from the first `n` sections give each type the value
/// of the last entry that gives it one, split at commas: a later value
/// replaces an earlier one, and the values of other types never mix in.
pub proof fn lemma_gathered_rules_take_last_value(
    ss: Seq<SectionView>,
    n: nat,
    i: int,
    j: int,
    k: Seq<char>,
    v: Seq<char>,
)
    requires
        n <= ss.len(),
        i < n,
        gives_value(ss, i, j, k, v),
        last_value_of(ss, n as int, i, j, k),
    ensures
        rules_through(ss, n).contains_key(k),
        rules_through(ss, n)[k] == split_on(v, ','),
    decreases n,
{
    let es = ss[n - 1].1;
    if i == n - 1 {
        assert forall|j2: int| j < j2 < es.len() implies !((#[trigger] es[j2]).0 == k && es[j2].1 is Some) by {
            if es[j2].0 == k && es[j2].1 is Some {
                assert(gives_value(ss, n - 1, j2, k, es[j2].1->0));
            }
        }
        lemma_apply_entries_last_value(rules_through(ss, (n - 1) as nat), es, j, k, v);
    } else {
        assert forall|j2: int| 0 <= j2 < es.len() implies !((#[trigger] es[j2]).0 == k && es[j2].1 is Some) by {
            if es[j2].0 == k && es[j2].1 is Some {
                assert(gives_value(ss, n - 1, j2, k, es[j2].1->0));
            }
        }
        lemma_apply_entries_untouched(rules_through(ss, (n - 1) as nat), es, k);
        assert(last_value_of(ss, n - 1, i, j, k)) by {
            assert forall|i2: int, j2: int, v2: Seq<char>|
                i2 < n - 1 && #[trigger] gives_value(ss, i2, j2, k, v2) implies (i2 < i || (i2 == i && j2 <= j)) by {
                assert(i2 < n);
            }
        }
        lemma_gathered_rules_take_last_value(ss, (n - 1) as nat, i, j, k, v);
    }
}

/// The rules gathered from the first `n` sections take every type's last
/// value.
pub proof fn lemma_takes_last_values(ss: Seq<SectionView>, n: nat)
    requires
        n <= ss.len(),
    ensures
        takes_last_values(ss, n as int, rules_through(ss, n)),
{
    assert forall|i: int, j: int, k: Seq<char>, v: Seq<char>|
        i < n && #[trigger] gives_value(ss, i, j, k, v) && last_value_of(ss, n as int, i, j, k) implies rules_through(
        ss,
        n,
    ).contains_key(k) && rules_through(ss, n)[k] == split_on(v, ',') by {
        lemma_gathered_rules_take_last_value(ss, n, i, j, k, v);
    }
}

/// A directory has the rules gathered up to the last section that names
/// it.
pub proof fn lemma_directory_rules_up_to_its_section(ss: Seq<SectionView>, n: nat, i: int)
    requires
        n <= ss.len(),
        0 <= i < n,
        last_section_for(ss, n as int, i),
    ensures
        dir_rules_through(ss, n).contains_key(dir_key(bare_directory(ss[i].0))),
        dir_rules_through(ss, n)[dir_key(bare_directory(ss[i].0))] == rules_through(ss, (i + 1) as nat),
    decreases n,
{
    if i < n - 1 {
        assert(dir_key(bare_directory(ss[n - 1].0)) != dir_key(bare_directory(ss[i].0)));
        assert(last_section_for(ss, n - 1, i)) by {
            assert forall|i2: int| i < i2 < n - 1 implies dir_key(bare_directory(#[trigger] ss[i2].0)) != dir_key(
                bare_directory(ss[i].0),
            ) by {
                assert(i2 < n);
            }
        }
        lemma_directory_rules_up_to_its_section(ss, (n - 1) as nat, i);
    }
}

/// The monitored directories, the rules of each, and the rules gathered
/// over all sections, from the sections of the configuration in the order
/// given.
pub fn build_config(sections: &Vec<IniSection>) -> (r: (Vec<Directory>, DirectoryRules, RuleMap))
    ensures
        built_from(section_views(sections@), r.0@, &r.1, &r.2),
{
    let ghost ss = section_views(sections@);
    let mut monitoring_dir_list: Vec<Directory> = Vec::new();
    let mut file_dir_map_list = DirectoryRules::new();
    let mut file_dir_map = RuleMap::new();
    let mut i: usize = 0;
    while i < sections.len()
        invariant
            ss == section_views(sections@),
            i <= sections@.len(),
            monitoring_dir_list@.len() == i,
            forall|k: int| 0 <= k < i ==> (#[trigger] monitoring_dir_list@[k])@ == bare_directory(ss[k].0),
            file_dir_map_list@ == dir_rules_through(ss, i as nat),
            file_dir_map@ == rules_through(ss, i as nat),
        decreases sections@.len() - i,
    {
        let section = &sections[i];
        let ghost es = section@.1;
        let ghost base = rules_through(ss, i as nat);
        let mut j: usize = 0;
        while j < section.entries.len()
            invariant
                es == section@.1,
                es == section.entries@.map_values(|e: IniEntry| e@),
                j <= section.entries@.len(),
                    file_dir_map@ == apply_entries(base, es.take(j as int)),
            decreases section.entries@.len() - j,
        {
            let entry = &section.entries[j];
            assert(es.take(j + 1).drop_last() =~= es.take(j as int));
            assert(es.take(j + 1).last() == entry@);
            match &entry.value {
                Some(extns) => {
                    let parts = split_at_char(extns.as_str(), ',');
                    file_dir_map.insert(entry.key.clone(), parts);
                },
                None => {},
            }
            j = j + 1;
        }
        assert(es.take(section.entries@.len() as int) =~= es);
        assert(ss[i as int] == section@);
        let monitoring_dir = Directory::from(section.name.clone(), Vec::new());
        let key_dir = Directory::from(section.name.clone(), Vec::new());
        assert(monitoring_dir@ =~= bare_directory(ss[i as int].0));
        assert(key_dir@ =~= bare_directory(ss[i as int].0));
        monitoring_dir_list.push(monitoring_dir);
        let snapshot = file_dir_map.duplicate();
        file_dir_map_list.insert(key_dir, snapshot);
        i = i + 1;
    }
    proof {
        let n = ss.len();
        lemma_takes_last_values(ss, n);
        assert forall|i: int|
            0 <= i < ss.len() && last_section_for(ss, ss.len() as int, i) implies file_dir_map_list@.contains_key(
            dir_key(#[trigger] monitoring_dir_list@[i]@),
        ) && takes_last_values(ss, i + 1, file_dir_map_list@[dir_key(monitoring_dir_list@[i]@)]) by {
            lemma_directory_rules_up_to_its_section(ss, n, i);
            lemma_takes_last_values(ss, (i + 1) as nat);
        }
    }
    (monitoring_dir_list, file_dir_map_list, file_dir_map)
}

/// The keys that some entry among the first `n` sections gives a value.
pub open spec fn valued_keys(ss: Seq<SectionView>, n: nat) -> Set<Seq<char>> {
    Set::new(
        |k: Seq<char>|
            exists|i: int, j: int|
                0 <= i < n && 0 <= j < ss[i].1.len() && #[trigger] ss[i].1[j].0 == k && ss[i].1[j].1 is Some,
    )
}

/// Applying entries adds exactly the keys that have a value.
proof fn lemma_apply_entries_dom(acc: Map<Seq<char>, Seq<Seq<char>>>, es: Seq<EntryView>)
    ensures
        apply_entries(acc, es).dom() == acc.dom().union(
            Set::new(|k: Seq<char>| exists|j: int| 0 <= j < es.len() && #[trigger] es[j].0 == k && es[j].1 is Some),
        ),
    decreases es.len(),
{
    let added = Set::new(|k: Seq<char>| exists|j: int| 0 <= j < es.len() && #[trigger] es[j].0 == k && es[j].1 is Some);
    if es.len() == 0 {
        assert(apply_entries(acc, es).dom() =~= acc.dom().union(added));
    } else {
        let init = es.drop_last();
        lemma_apply_entries_dom(acc, init);
        let added_init = Set::new(|k: Seq<char>| exists|j: int| 0 <= j < init.len() && #[trigger] init[j].0 == k && init[j].1 is Some);
        assert forall|k: Seq<char>| added.contains(k) implies added_init.contains(k) || (k == es.last().0 && es.last().1 is Some) by {
            let j = choose|j: int| 0 <= j < es.len() && #[trigger] es[j].0 == k && es[j].1 is Some;
            if j < es.len() - 1 {
                assert(init[j] == es[j]);
            }
        }
        assert forall|k: Seq<char>| added_init.contains(k) implies added.contains(k) by {
            let j = choose|j: int| 0 <= j < init.len() && #[trigger] init[j].0 == k && init[j].1 is Some;
            assert(es[j] == init[j]);
        }
        if es.last().1 is Some {
            assert(es[es.len() - 1].0 == es.last().0);
        }
        assert(apply_entries(acc, es).dom() =~= acc.dom().union(added));
    }
}

/// The gathered rules name exactly the keys that some section gives a value.
pub proof fn lemma_rules_through_dom(ss: Seq<SectionView>, n: nat)
    requires
        n <= ss.len(),
    ensures
        rules_through(ss, n).dom() == valued_keys(ss, n),
    decreases n,
{
    if n == 0 {
        assert(rules_through(ss, n).dom() =~= valued_keys(ss, n));
    } else {
        lemma_rules_through_dom(ss, (n - 1) as nat);
        let es = ss[n - 1].1;
        lemma_apply_entries_dom(rules_through(ss, (n - 1) as nat), es);
        assert forall|k: Seq<char>| valued_keys(ss, n).contains(k) implies rules_through(ss, n).dom().contains(k) by {
            let (i, j) = choose|i: int, j: int|
                0 <= i < n && 0 <= j < ss[i].1.len() && #[trigger] ss[i].1[j].0 == k && ss[i].1[j].1 is Some;
            if i < n - 1 {
                assert(valued_keys(ss, (n - 1) as nat).contains(k));
            } else {
                assert(es[j].0 == k && es[j].1 is Some);
            }
        }
        assert forall|k: Seq<char>| rules_through(ss, n).dom().contains(k) implies valued_keys(ss, n).contains(k) by {
            if valued_keys(ss, (n - 1) as nat).contains(k) {
                let (i, j) = choose|i: int, j: int|
                    0 <= i < n - 1 && 0 <= j < ss[i].1.len() && #[trigger] ss[i].1[j].0 == k && ss[i].1[j].1 is Some;
                assert(ss[i].1[j].0 == k);
            } else {
                let j = choose|j: int| 0 <= j < es.len() && #[trigger] es[j].0 == k && es[j].1 is Some;
                assert(ss[n - 1].1[j].0 == k);
            }
        }
        assert(rules_through(ss, n).dom() =~= valued_keys(ss, n));
    }
}

/// Every monitored directory that a section names has rules.
pub proof fn lemma_every_directory_has_rules(ss: Seq<SectionView>, n: nat)
    requires
        n <= ss.len(),
    ensures
        forall|i: int| 0 <= i < n ==> dir_rules_through(ss, n).contains_key(dir_key(#[trigger] bare_directory(ss[i].0))),
    decreases n,
{
    if n > 0 {
        lemma_every_directory_has_rules(ss, (n - 1) as nat);
    }
}

/// The rules of every directory name only types that the gathered rules
/// name too.
pub proof fn lemma_directory_rules_within_gathered(ss: Seq<SectionView>, n: nat)
    requires
        n <= ss.len(),
    ensures
        forall|d: DirectoryKey| #[trigger] dir_rules_through(ss, n).contains_key(d)
            ==> dir_rules_through(ss, n)[d].dom().subset_of(rules_through(ss, n).dom()),
    decreases n,
{
    if n > 0 {
        lemma_directory_rules_within_gathered(ss, (n - 1) as nat);
        lemma_rules_through_dom(ss, n);
        lemma_rules_through_dom(ss, (n - 1) as nat);
        assert(valued_keys(ss, (n - 1) as nat).subset_of(valued_keys(ss, n))) by {
            assert forall|k: Seq<char>| valued_keys(ss, (n - 1) as nat).contains(k) implies valued_keys(ss, n).contains(k) by {
                let (i, j) = choose|i: int, j: int|
                    0 <= i < n - 1 && 0 <= j < ss[i].1.len() && #[trigger] ss[i].1[j].0 == k && ss[i].1[j].1 is Some;
                assert(ss[i].1[j].0 == k);
            }
        }
        let prev = dir_rules_through(ss, (n - 1) as nat);
        assert forall|d: DirectoryKey| #[trigger] dir_rules_through(ss, n).contains_key(d)
            implies dir_rules_through(ss, n)[d].dom().subset_of(rules_through(ss, n).dom()) by {
            if d != dir_key(bare_directory(ss[n - 1].0)) {
                assert(prev.contains_key(d));
                assert(dir_rules_through(ss, n)[d] == prev[d]);
                assert(prev[d].dom().subset_of(rules_through(ss, (n - 1) as nat).dom()));
            }
        }
    }
}

/// A section list that describes the map `m` holds each of its sections
/// once, with its entries.
proof fn lemma_lists_sections_at(ss: Seq<SectionView>, m: Map<Seq<char>, Map<Seq<char>, Option<Seq<char>>>>, i: int)
    requires
        lists_sections(ss, m),
        0 <= i < ss.len(),
    ensures
        m.contains_key(ss[i].0),
        m[ss[i].0] == entries_map(ss[i].1),
        forall|j: int| 0 <= j < ss[i].1.len() ==> #[trigger] entries_map(ss[i].1).contains_key(ss[i].1[j].0)
            && entries_map(ss[i].1)[ss[i].1[j].0] == ss[i].1[j].1,
{
    assert(sections_map(ss).contains_key(ss[i].0));
    let es = ss[i].1;
    assert forall|j: int| 0 <= j < es.len() implies #[trigger] entries_map(es).contains_key(es[j].0)
        && entries_map(es)[es[j].0] == es[j].1 by {
        assert(entries_map(es).contains_key(es[j].0));
    }
}

/// The section names of a list that describes `m` are as many as the
/// sections of `m`.
proof fn lemma_lists_sections_len(ss: Seq<SectionView>, m: Map<Seq<char>, Map<Seq<char>, Option<Seq<char>>>>)
    requires
        lists_sections(ss, m),
    ensures
        m.dom().finite(),
        m.dom().len() == ss.len(),
{
    let names = ss.map_values(|s: SectionView| s.0);
    assert(names.no_duplicates()) by {
        assert forall|i: int, j: int| 0 <= i < names.len() && 0 <= j < names.len() && i != j
            implies names[i] != names[j] by {
            assert(ss[i].0 != ss[j].0);
        }
    }
    assert(m.dom() =~= names.to_set()) by {
        assert forall|n: Seq<char>| m.dom().contains(n) implies names.to_set().contains(n) by {
            let i = choose|i: int| 0 <= i < ss.len() && #[trigger] ss[i].0 == n;
            assert(names[i] == n);
        }
        assert forall|n: Seq<char>| names.to_set().contains(n) implies m.dom().contains(n) by {
            let i = choose|i: int| 0 <= i < names.len() && names[i] == n;
            assert(ss[i].0 == n);
        }
    }
    names.unique_seq_to_set();
}

/// The types that some section of `m` gives extensions.
pub open spec fn typed_keys(m: Map<Seq<char>, Map<Seq<char>, Option<Seq<char>>>>) -> Set<Seq<char>> {
    Set::new(
        |k: Seq<char>|
            exists|n: Seq<char>| #[trigger] m.contains_key(n) && m[n].contains_key(k) && m[n][k] is Some,
    )
}

/// What holds of the configuration that `load_config` returns, whatever
/// order the sections were walked in: one directory per section, each a
/// section of the configuration with no files, each with rules; the
/// gathered rules name exactly the types that some section gives
/// extensions; and a directory's rules name no type beyond those.
pub open spec fn config_laws(
    m: Map<Seq<char>, Map<Seq<char>, Option<Seq<char>>>>,
    dirs: Seq<Directory>,
    dir_rules: &DirectoryRules,
    flat: &RuleMap,
) -> bool {
    &&& m.dom().finite()
    &&& dirs.len() == m.dom().len()
    &&& forall|i: int| 0 <= i < dirs.len() ==> m.contains_key((#[trigger] dirs[i]).d_path@) && dirs[i].d_files@.len() == 0
    &&& forall|i: int| 0 <= i < dirs.len() ==> dir_rules@.contains_key(dir_key((#[trigger] dirs[i])@))
    &&& flat@.dom() == typed_keys(m)
    &&& forall|d: DirectoryKey| #[trigger] dir_rules@.contains_key(d) ==> dir_rules@[d].dom().subset_of(flat@.dom())
}

/// The laws above hold of what `build_config` makes of any list of the
/// sections of `m`.
pub proof fn lemma_config_laws(
    ss: Seq<SectionView>,
    m: Map<Seq<char>, Map<Seq<char>, Option<Seq<char>>>>,
    dirs: Seq<Directory>,
    dir_rules: &DirectoryRules,
    flat: &RuleMap,
)
    requires
        lists_sections(ss, m),
        built_from(ss, dirs, dir_rules, flat),
    ensures
        config_laws(m, dirs, dir_rules, flat),
{
    let n = ss.len();
    lemma_lists_sections_len(ss, m);
    lemma_every_directory_has_rules(ss, n);
    lemma_directory_rules_within_gathered(ss, n);
    lemma_rules_through_dom(ss, n);
    assert forall|i: int| 0 <= i < dirs.len() implies m.contains_key((#[trigger] dirs[i]).d_path@)
        && dirs[i].d_files@.len() == 0 by {
        lemma_lists_sections_at(ss, m, i);
        assert(dirs[i]@ == bare_directory(ss[i].0));
        assert(dirs[i].d_files@.map_values(|f: crate::components::File| f@).len() == 0);
    }
    assert forall|i: int| 0 <= i < dirs.len() implies dir_rules@.contains_key(dir_key((#[trigger] dirs[i])@)) by {
        assert(dirs[i]@ == bare_directory(ss[i].0));
    }
    assert(valued_keys(ss, n) =~= typed_keys(m)) by {
        assert forall|k: Seq<char>| valued_keys(ss, n).contains(k) implies typed_keys(m).contains(k) by {
            let (i, j) = choose|i: int, j: int|
                0 <= i < n && 0 <= j < ss[i].1.len() && #[trigger] ss[i].1[j].0 == k && ss[i].1[j].1 is Some;
            lemma_lists_sections_at(ss, m, i);
            assert(entries_map(ss[i].1).contains_key(ss[i].1[j].0));
            assert(m.contains_key(ss[i].0));
        }
        assert forall|k: Seq<char>| typed_keys(m).contains(k) implies valued_keys(ss, n).contains(k) by {
            let name = choose|name: Seq<char>| #[trigger] m.contains_key(name) && m[name].contains_key(k) && m[name][k] is Some;
            let i = choose|i: int| 0 <= i < ss.len() && #[trigger] ss[i].0 == name;
            lemma_lists_sections_at(ss, m, i);
            let es = ss[i].1;
            let j = choose|j: int| 0 <= j < es.len() && #[trigger] es[j].0 == k;
            assert(entries_map(es).contains_key(es[j].0));
            assert(ss[i].1[j].0 == k && ss[i].1[j].1 is Some);
        }
    }
}

/// The configuration that a configuration file holds: the monitored
/// directories (one per section), the rules of each, and the rules gathered
/// over all sections. `config_text` is the text of the file, `None` when
/// the file could not be read; the result is `None` when the file could not
/// be read or `configparser` refuses its text.
pub fn load_config(config_text: Option<String>) -> (r: Option<(Vec<Directory>, DirectoryRules, RuleMap)>)
    ensures
        r is None <==> (config_text is None || ini_read(config_text->0@) is Err),
        r matches Some(t) ==> exists|ss: Seq<SectionView>|
            lists_sections(ss, ini_read(config_text->0@)->Ok_0) && built_from(ss, t.0@, &t.1, &t.2),
        r matches Some(t) ==> config_laws(ini_read(config_text->0@)->Ok_0, t.0@, &t.1, &t.2),
        config_text matches Some(t) && only_comments(t@) ==> (r matches Some(c) && c.0@.len() == 0
            && c.1@ == Map::<DirectoryKey, Map<Seq<char>, Seq<Seq<char>>>>::empty()
            && c.2@ == Map::<Seq<char>, Seq<Seq<char>>>::empty()),
{
    let text = config_text?;
    let ghost parsed = ini_read(text@);
    let ghost comments = only_comments(text@);
    match read_ini(text) {
        Ok(sections) => {
            let r = build_config(&sections);
            proof {
                lemma_config_laws(section_views(sections@), parsed->Ok_0, r.0@, &r.1, &r.2);
                if comments {
                    assert(section_views(sections@).len() == 0);
                    assert(dir_rules_through(section_views(sections@), 0) =~= Map::<
                        DirectoryKey,
                        Map<Seq<char>, Seq<Seq<char>>>,
                    >::empty());
                    assert(rules_through(section_views(sections@), 0) =~= Map::<
                        Seq<char>,
                        Seq<Seq<char>>,
                    >::empty());
                }
            }
            Some(r)
        },
        Err(_) => None,
    }
}

/// Where the configuration file is kept: `dirmon/dirmon.conf` under the
/// configuration directory of the user, and nowhere when there is no such
/// directory.
pub fn config_file_location(config_dir: Option<String>) -> (r: Option<String>)
    ensures
        match config_dir {
            Some(d) => r matches Some(p) && p@ == d@ + "/dirmon/dirmon.conf"@,
            None => r is None,
        },
{
    match config_dir {
        Some(d) => Some(d.concat("/dirmon/dirmon.conf")),
        None => None,
    }
}

/// The example configuration written where there is none: every line is a
/// comment, so it monitors no directory (see `load_config`).
pub fn default_config_template() -> (t: String)
    ensures
        t@ == "# [/desired/path/here/]\n    # TYPE_0 = mp3,wav\n    # TYPE_1 = mov,mp4\n    # TYPE_2 = txt,pdf"@,
        only_comments(t@),
{
    let t = String::from_str(
        "# [/desired/path/here/]\n    # TYPE_0 = mp3,wav\n    # TYPE_1 = mov,mp4\n    # TYPE_2 = txt,pdf",
    );
    proof {
        reveal_strlit(
            "# [/desired/path/here/]\n    # TYPE_0 = mp3,wav\n    # TYPE_1 = mov,mp4\n    # TYPE_2 = txt,pdf",
        );
        reveal_with_fuel(comment_lines_from, 100);
    }
    t
}

} // verus!
