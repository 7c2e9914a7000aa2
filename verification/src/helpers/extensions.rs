//! Which type a file extension belongs to, and which extensions and types a
//! directory's rules support.
use vstd::prelude::*;
use crate::components::{dir_key, Directory};
use crate::helpers::rules::{texts, DirectoryRules, RuleMap, RuleView, strictly_sorted, rules_map,
    lemma_rules_map_at, lemma_rules_map_len};
use crate::helpers::text::{text_before, lemma_text_before_irreflexive, lemma_text_before_total};

verus! {

/// The type of the first rule, in order, whose extensions hold `ext`.
pub open spec fn first_type_for(s: Seq<RuleView>, ext: Seq<char>) -> Option<Seq<char>>
    decreases s.len(),
{
    if s.len() == 0 {
        None
    } else if s[0].1.contains(ext) {
        Some(s[0].0)
    } else {
        first_type_for(s.drop_first(), ext)
    }
}

/// The rule at `i` is the first to hold `ext` (or, at the end, none does).
proof fn lemma_first_type_at(s: Seq<RuleView>, ext: Seq<char>, i: int)
    requires
        0 <= i <= s.len(),
        forall|j: int| 0 <= j < i ==> !(#[trigger] s[j]).1.contains(ext),
        i < s.len() ==> s[i].1.contains(ext),
    ensures
        first_type_for(s, ext) == (if i == s.len() {
            None::<Seq<char>>
        } else {
            Some(s[i].0)
        }),
    decreases i,
{
    if i > 0 {
        let t = s.drop_first();
        assert(!s[0].1.contains(ext));
        assert forall|j: int| 0 <= j < i - 1 implies !(#[trigger] t[j]).1.contains(ext) by {
            assert(t[j] == s[j + 1]);
        }
        lemma_first_type_at(t, ext, i - 1);
    }
}

/// Whether some type of the rules lists `ext`.
pub open spec fn listed_anywhere(m: Map<Seq<char>, Seq<Seq<char>>>, ext: Seq<char>) -> bool {
    exists|k: Seq<char>| m.contains_key(k) && #[trigger] m[k].contains(ext)
}

/// `t` is the least type name, in byte order, whose extensions hold `ext`.
pub open spec fn least_type_listing(m: Map<Seq<char>, Seq<Seq<char>>>, ext: Seq<char>, t: Seq<char>) -> bool {
    &&& m.contains_key(t)
    &&& m[t].contains(ext)
    &&& forall|k: Seq<char>| #[trigger] m.contains_key(k) && text_before(k, t) ==> !m[k].contains(ext)
}

/// What the first listing rule is, by index.
proof fn lemma_first_type_index(s: Seq<RuleView>, ext: Seq<char>)
    ensures
        first_type_for(s, ext) is None ==> forall|i: int| 0 <= i < s.len() ==> !(#[trigger] s[i]).1.contains(ext),
        first_type_for(s, ext) matches Some(t) ==> exists|i: int|
            0 <= i < s.len() && s[i].0 == t && (#[trigger] s[i]).1.contains(ext) && forall|j: int|
                0 <= j < i ==> !(#[trigger] s[j]).1.contains(ext),
    decreases s.len(),
{
    if s.len() > 0 {
        if s[0].1.contains(ext) {
            assert(s[0].0 == first_type_for(s, ext)->0);
        } else {
            let t = s.drop_first();
            lemma_first_type_index(t, ext);
            if first_type_for(t, ext) is None {
                assert forall|i: int| 0 <= i < s.len() implies !(#[trigger] s[i]).1.contains(ext) by {
                    if i > 0 {
                        assert(s[i] == t[i - 1]);
                    }
                }
            } else {
                let k = first_type_for(t, ext)->0;
                let i = choose|i: int|
                    0 <= i < t.len() && t[i].0 == k && (#[trigger] t[i]).1.contains(ext) && forall|j: int|
                        0 <= j < i ==> !(#[trigger] t[j]).1.contains(ext);
                assert(s[i + 1] == t[i]);
                assert forall|j: int| 0 <= j < i + 1 implies !(#[trigger] s[j]).1.contains(ext) by {
                    if j > 0 {
                        assert(s[j] == t[j - 1]);
                    }
                }
            }
        }
    }
}

/// For rules kept in order, the first rule that lists an extension is the
/// one with the least type name among those that list it, and there is
/// none exactly when no type lists it.
pub proof fn lemma_first_type_is_least(s: Seq<RuleView>, ext: Seq<char>)
    requires
        strictly_sorted(s),
    ensures
        first_type_for(s, ext) is None <==> !listed_anywhere(rules_map(s), ext),
        first_type_for(s, ext) matches Some(t) ==> least_type_listing(rules_map(s), ext, t),
{
    let m = rules_map(s);
    lemma_first_type_index(s, ext);
    if first_type_for(s, ext) is None {
        if listed_anywhere(m, ext) {
            let k = choose|k: Seq<char>| m.contains_key(k) && #[trigger] m[k].contains(ext);
            let i = choose|i: int| 0 <= i < s.len() && #[trigger] s[i].0 == k;
            lemma_rules_map_at(s, i);
            assert(s[i].1.contains(ext));
        }
    } else {
        let t = first_type_for(s, ext)->0;
        let i = choose|i: int|
            0 <= i < s.len() && s[i].0 == t && (#[trigger] s[i]).1.contains(ext) && forall|j: int|
                0 <= j < i ==> !(#[trigger] s[j]).1.contains(ext);
        lemma_rules_map_at(s, i);
        assert forall|k: Seq<char>| #[trigger] m.contains_key(k) && text_before(k, t) implies !m[k].contains(
            ext,
        ) by {
            let j = choose|j: int| 0 <= j < s.len() && #[trigger] s[j].0 == k;
            lemma_rules_map_at(s, j);
            lemma_text_before_irreflexive(t);
            lemma_text_before_total(k, t);
            if j > i {
                assert(text_before(s[i].0, s[j].0));
            }
        }
    }
}

/// The least type name, in byte order, whose extensions hold `ext` (when
/// some type lists it).
pub open spec fn least_type(m: Map<Seq<char>, Seq<Seq<char>>>, ext: Seq<char>) -> Seq<char> {
    choose|t: Seq<char>| least_type_listing(m, ext, t)
}

/// At most one type is the least to list an extension.
pub proof fn lemma_least_type_unique(m: Map<Seq<char>, Seq<Seq<char>>>, ext: Seq<char>, t1: Seq<char>, t2: Seq<char>)
    requires
        least_type_listing(m, ext, t1),
        least_type_listing(m, ext, t2),
    ensures
        t1 == t2,
{
    lemma_text_before_total(t1, t2);
    if t1 != t2 {
        if text_before(t1, t2) {
            assert(m.contains_key(t1) && text_before(t1, t2));
        } else {
            assert(m.contains_key(t2) && text_before(t2, t1));
        }
    }
}

/// For rules kept in order, the first rule listing an extension names
/// exactly the least type listing it, and there is one exactly when some
/// type lists the extension.
pub proof fn lemma_first_type_is_least_type(s: Seq<RuleView>, ext: Seq<char>)
    requires
        strictly_sorted(s),
    ensures
        first_type_for(s, ext) == (if listed_anywhere(rules_map(s), ext) {
            Some(least_type(rules_map(s), ext))
        } else {
            None::<Seq<char>>
        }),
{
    lemma_first_type_is_least(s, ext);
    if let Some(t) = first_type_for(s, ext) {
        assert(least_type_listing(rules_map(s), ext, t));
        lemma_least_type_unique(rules_map(s), ext, t, least_type(rules_map(s), ext));
    }
}

/// Whether `x` is one of the texts of `v`.
pub fn contains_text(v: &Vec<String>, x: &String) -> (b: bool)
    ensures
        b == texts(v@).contains(x@),
{
    let mut i: usize = 0;
    while i < v.len()
        invariant
            i <= v.len(),
            forall|j: int| 0 <= j < i ==> v@[j]@ != x@,
        decreases v.len() - i,
    {
        if v[i] == *x {
            assert(texts(v@)[i as int] == x@);
            return true;
        }
        i = i + 1;
    }
    proof {
        if texts(v@).contains(x@) {
            let j = choose|j: int| 0 <= j < texts(v@).len() && texts(v@)[j] == x@;
            assert(v@[j]@ == x@);
        }
    }
    false
}

/// The type (folder name) that files with `extension` are sorted into: the
/// first type, in order of type names, whose extensions hold it; `None`
/// when no type holds it.
pub fn get_type_for_extension(file_dir_map: &RuleMap, extension: &String) -> (r: Option<String>)
    ensures
        match r {
            Some(t) => first_type_for(file_dir_map.entry_views(), extension@) == Some(t@),
            None => first_type_for(file_dir_map.entry_views(), extension@) is None,
        },
        (r is None <==> !listed_anywhere(file_dir_map@, extension@)),
        (r matches Some(t) ==> least_type_listing(file_dir_map@, extension@, t@)),
{
    let ghost s = file_dir_map.entry_views();
    let n = file_dir_map.len();
    let mut i: usize = 0;
    while i < n
        invariant
            n == s.len(),
            s == file_dir_map.entry_views(),
            i <= n,
            forall|j: int| 0 <= j < i ==> !(#[trigger] s[j]).1.contains(extension@),
        decreases n - i,
    {
        if contains_text(file_dir_map.values_at(i), extension) {
            proof {
                lemma_first_type_at(s, extension@, i as int);
                {
            use_type_invariant(file_dir_map);
                    lemma_first_type_is_least(s, extension@);
                }
            }
            return Some(file_dir_map.key_at(i).clone());
        }
        i = i + 1;
    }
    proof {
        lemma_first_type_at(s, extension@, n as int);
        {
            use_type_invariant(file_dir_map);
            lemma_first_type_is_least(s, extension@);
        }
    }
    None
}

/// Every extension that some type of the rules lists.
pub open spec fn all_extensions(s: Seq<RuleView>) -> Set<Seq<char>> {
    Set::new(|e: Seq<char>| exists|i: int| 0 <= i < s.len() && (#[trigger] s[i]).1.contains(e))
}

/// The extensions and the types that a directory's rules support: each
/// listed extension once, and the type names in order.
pub fn get_spprtd_extns_and_type(file_dir_map: &RuleMap) -> (r: (Vec<String>, Vec<String>))
    ensures
        texts(r.0@).no_duplicates(),
        texts(r.0@).to_set() == all_extensions(file_dir_map.entry_views()),
        texts(r.1@) == file_dir_map.keys_view(),
        texts(r.0@).to_set() == Set::new(
            |e: Seq<char>| listed_anywhere(file_dir_map@, e),
        ),
        texts(r.1@).to_set() == file_dir_map@.dom(),
{
    let ghost s = file_dir_map.entry_views();
    let type_list = file_dir_map.keys();
    let mut extn_list: Vec<String> = Vec::new();
    let n = file_dir_map.len();
    let mut i: usize = 0;
    while i < n
        invariant
            n == s.len(),
            s == file_dir_map.entry_views(),
            i <= n,
            texts(extn_list@).no_duplicates(),
            texts(extn_list@).to_set() == all_extensions(s.take(i as int)),
        decreases n - i,
    {
        let values = file_dir_map.values_at(i);
        let mut j: usize = 0;
        while j < values.len()
            invariant
                n == s.len(),
                i < n,
                texts(values@) == s[i as int].1,
                j <= values@.len(),
                texts(extn_list@).no_duplicates(),
                texts(extn_list@).to_set() == all_extensions(s.take(i as int)).union(
                    texts(values@).take(j as int).to_set(),
                ),
            decreases values@.len() - j,
        {
            let ghost before = extn_list@;
            let ghost x = values@[j as int]@;
            if !contains_text(&extn_list, &values[j]) {
                extn_list.push(values[j].clone());
                assert(texts(extn_list@) =~= texts(before).push(x));
                proof {
                    texts(before).lemma_push_to_set_commute(x);
                }
            } else {
                assert(texts(before).to_set().contains(x));
            }
            assert(texts(values@).take(j + 1) =~= texts(values@).take(j as int).push(x));
            proof {
                texts(values@).take(j as int).lemma_push_to_set_commute(x);
            }
            assert(texts(extn_list@).to_set() =~= all_extensions(s.take(i as int)).union(
                texts(values@).take(j + 1).to_set(),
            ));
            j = j + 1;
        }
        assert(texts(values@).take(values@.len() as int) =~= texts(values@));
        assert(all_extensions(s.take(i + 1)) =~= all_extensions(s.take(i as int)).union(
            texts(values@).to_set(),
        )) by {
            assert forall|e: Seq<char>| all_extensions(s.take(i + 1)).contains(e) implies all_extensions(
                s.take(i as int),
            ).union(texts(values@).to_set()).contains(e) by {
                let k = choose|k: int| 0 <= k < i + 1 && (#[trigger] s.take(i + 1)[k]).1.contains(e);
                if k < i {
                    assert(s.take(i as int)[k] == s.take(i + 1)[k]);
                }
            }
            assert forall|e: Seq<char>| all_extensions(s.take(i as int)).union(texts(values@).to_set()).contains(
                e,
            ) implies all_extensions(s.take(i + 1)).contains(e) by {
                if all_extensions(s.take(i as int)).contains(e) {
                    let k = choose|k: int| 0 <= k < i && (#[trigger] s.take(i as int)[k]).1.contains(e);
                    assert(s.take(i as int)[k] == s.take(i + 1)[k]);
                } else {
                    assert(s.take(i + 1)[i as int] == s[i as int]);
                }
            }
        }
        i = i + 1;
    }
    assert(s.take(n as int) =~= s);
    proof {
        {
            use_type_invariant(file_dir_map);
            let m = file_dir_map@;
            assert(all_extensions(s) =~= Set::new(|e: Seq<char>| listed_anywhere(m, e))) by {
                assert forall|e: Seq<char>| all_extensions(s).contains(e) implies listed_anywhere(m, e) by {
                    let k = choose|k: int| 0 <= k < s.len() && (#[trigger] s[k]).1.contains(e);
                    lemma_rules_map_at(s, k);
                    assert(m.contains_key(s[k].0));
                }
                assert forall|e: Seq<char>| listed_anywhere(m, e) implies all_extensions(s).contains(e) by {
                    let key = choose|key: Seq<char>| m.contains_key(key) && #[trigger] m[key].contains(e);
                    let k = choose|k: int| 0 <= k < s.len() && #[trigger] s[k].0 == key;
                    lemma_rules_map_at(s, k);
                    assert(s[k].1.contains(e));
                }
            }
            lemma_rules_map_len(s);
        }
    }
    (extn_list, type_list)
}

/// The extensions and types supported in `directory`, when it has rules;
/// `None` when it has none.
pub fn get_supported_extension_and_type(directory: &Directory, file_dir_map_list: &DirectoryRules) -> (r:
    Option<(Vec<String>, Vec<String>)>)
    ensures
        r is Some == file_dir_map_list@.contains_key(dir_key(directory@)),
        r matches Some(p) ==> {
            let m = file_dir_map_list@[dir_key(directory@)];
            &&& texts(p.0@).no_duplicates()
            &&& texts(p.0@).to_set() == Set::new(|e: Seq<char>| listed_anywhere(m, e))
            &&& texts(p.1@).to_set() == m.dom()
            &&& texts(p.1@).len() == m.dom().len()
            &&& forall|i: int, j: int| 0 <= i < j < texts(p.1@).len() ==> text_before(
                #[trigger] texts(p.1@)[i],
                #[trigger] texts(p.1@)[j],
            )
        },
{
    let file_dir_map = file_dir_map_list.get(directory)?;
    let r = get_spprtd_extns_and_type(file_dir_map);
    proof {
        use_type_invariant(file_dir_map);
        lemma_rules_map_len(file_dir_map.entry_views());
        let s = file_dir_map.entry_views();
        assert forall|i: int, j: int| 0 <= i < j < texts(r.1@).len() implies text_before(
            #[trigger] texts(r.1@)[i],
            #[trigger] texts(r.1@)[j],
        ) by {
            assert(texts(r.1@)[i] == s[i].0);
            assert(texts(r.1@)[j] == s[j].0);
        }
    }
    Some(r)
}

} // verus!
