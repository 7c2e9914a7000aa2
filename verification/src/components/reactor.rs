//! Reacting to the events of the watched directories.
use vstd::prelude::*;
use crate::components::{bare_directory, dir_key, Directory, DirectoryKey, DirectoryView};
use crate::helpers::event_directories;
use crate::helpers::{lemma_parent_paths_are_the_parents, parent_directories, parent_paths};
use crate::helpers::text::lemma_filter_push;
use crate::components::paths::path_parent;
use crate::helpers::rules::{texts, DirectoryRules};

verus! {

/// The directories of `ds` that have rules, in order.
pub open spec fn with_rules(
    ds: Seq<DirectoryView>,
    m: Map<DirectoryKey, Map<Seq<char>, Seq<Seq<char>>>>,
) -> Seq<DirectoryView>
    decreases ds.len(),
{
    if ds.len() == 0 {
        Seq::empty()
    } else {
        let prev = with_rules(ds.drop_last(), m);
        if m.contains_key(dir_key(ds.last())) {
            prev.push(ds.last())
        } else {
            prev
        }
    }
}

/// The directories kept are exactly those of `ds` that have rules, in
/// order.
pub proof fn lemma_with_rules_keeps_directories_with_rules(
    ds: Seq<DirectoryView>,
    m: Map<DirectoryKey, Map<Seq<char>, Seq<Seq<char>>>>,
)
    ensures
        with_rules(ds, m) == ds.filter(|d: DirectoryView| m.contains_key(dir_key(d))),
    decreases ds.len(),
{
    if ds.len() > 0 {
        lemma_with_rules_keeps_directories_with_rules(ds.drop_last(), m);
        assert(ds =~= ds.drop_last().push(ds.last()));
        lemma_filter_push(ds.drop_last(), |d: DirectoryView| m.contains_key(dir_key(d)), ds.last());
    } else {
        reveal(Seq::filter);
    }
}

/// The monitored directories that an event touched: the parents of its
/// paths that have rules, in path order.
pub fn directories_to_react(paths: &Vec<String>, file_dir_map_list: &DirectoryRules) -> (r: Vec<Directory>)
    ensures
        r@.map_values(|d: Directory| d@) == with_rules(parent_directories(texts(paths@)), file_dir_map_list@),
        r@.map_values(|d: Directory| d@) == texts(paths@).filter(|p: Seq<char>| path_parent(p) is Some).map_values(
            |p: Seq<char>| bare_directory(path_parent(p)->0),
        ).filter(|d: DirectoryView| file_dir_map_list@.contains_key(dir_key(d))),
{
    proof {
        lemma_with_rules_keeps_directories_with_rules(parent_directories(texts(paths@)), file_dir_map_list@);
        lemma_parent_paths_are_the_parents(texts(paths@));
        assert(parent_directories(texts(paths@)) =~= texts(paths@).filter(|p: Seq<char>| path_parent(p) is Some).map_values(
            |p: Seq<char>| bare_directory(path_parent(p)->0),
        ));
    }
    let touched = event_directories(paths);
    let ghost ds = touched@.map_values(|d: Directory| d@);
    let mut monitored: Vec<Directory> = Vec::new();
    let mut i: usize = 0;
    assert(ds.take(0) =~= Seq::<DirectoryView>::empty());
    while i < touched.len()
        invariant
            i <= touched@.len(),
            ds == touched@.map_values(|d: Directory| d@),
            ds == parent_directories(texts(paths@)),
            monitored@.map_values(|d: Directory| d@) == with_rules(ds.take(i as int), file_dir_map_list@),
        decreases touched@.len() - i,
    {
        assert(ds.take(i + 1).drop_last() =~= ds.take(i as int));
        assert(ds.take(i + 1).last() == touched@[i as int]@);
        if file_dir_map_list.contains_key(&touched[i]) {
            let ghost before = monitored@;
            let d = Directory::from(touched[i].d_path.clone(), Vec::new());
            assert(d@ =~= touched@[i as int]@) by {
                assert(ds[i as int] == touched@[i as int]@);
                let pp = parent_paths(texts(paths@));
                assert(ds.len() == touched@.len());
                assert(pp.map_values(|p: Seq<char>| bare_directory(p)).len() == pp.len());
                assert(ds[i as int] == pp.map_values(|p: Seq<char>| bare_directory(p))[i as int]);
                assert(ds[i as int] == bare_directory(pp[i as int]));
                assert(d.d_files@.map_values(|f: crate::components::File| f@) =~= ds[i as int].1);
            }
            monitored.push(d);
            assert(monitored@.map_values(|d: Directory| d@) =~= before.map_values(|d: Directory| d@).push(
                touched@[i as int]@,
            ));
        }
        i = i + 1;
    }
    assert(ds.take(touched@.len() as int) =~= ds);
    monitored
}

} // verus!
