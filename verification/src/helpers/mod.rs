//! Listing a monitored directory, and working out which type folders to
//! create and which files to move where. The file system itself is reached
//! by the program around the library; here the listing it read comes in as
//! plain values and the plans go out as plain values.
pub mod config;
pub mod extensions;
pub mod rules;
pub mod text;

pub use crate::helpers::extensions::{get_spprtd_extns_and_type, get_type_for_extension};

use vstd::prelude::*;
use crate::components::{bare_directory, Directory, DirectoryView, File, FileView, file_for_path, file_views};
use crate::components::paths::{file_name_of, join_path, parent_of, path_file_name, path_join, path_parent};
use crate::helpers::extensions::{contains_text, first_type_for, least_type, lemma_first_type_is_least_type, listed_anywhere};
use crate::helpers::rules::{rules_map, strictly_sorted, texts, RuleMap, RuleView};
use crate::helpers::text::{extension_in_name, lemma_filter_push, name_extension};

verus! {

/// One entry of a directory listing.
#[derive(Debug)]
pub enum ListedEntry {
    /// The entry could not be read; it is passed over.
    Unreadable,
    /// An entry: its path as text (`None` when the path is not valid
    /// UTF-8), and whether it is a directory (`None` when its file type
    /// could not be read).
    Listed { path: Option<String>, is_dir: Option<bool> },
}

/// What reading a monitored directory gave.
#[derive(Debug)]
pub enum DirListing {
    /// The monitored path is not a directory.
    NotADirectory,
    /// The directory could not be read.
    Unreadable,
    /// The entries of the directory.
    Entries(Vec<ListedEntry>),
}

/// Why listing the files of a directory failed.
#[derive(Debug, PartialEq, Eq)]
pub enum FilesError {
    /// The path configured to monitor is not a directory.
    NotADirectory,
    /// The file type of an entry could not be read.
    FileType,
}

/// The text of an entry's path; a path that is not valid UTF-8 becomes the
/// empty text.
pub open spec fn entry_path(path: Option<String>) -> Seq<char> {
    match path {
        Some(p) => p@,
        None => Seq::<char>::empty(),
    }
}

/// The paths of the files (entries that are not directories) of a listing,
/// in order; `None` when the file type of an entry before them could not be
/// read.
pub open spec fn listed_file_paths(es: Seq<ListedEntry>) -> Option<Seq<Seq<char>>>
    decreases es.len(),
{
    if es.len() == 0 {
        Some(Seq::<Seq<char>>::empty())
    } else {
        match listed_file_paths(es.drop_last()) {
            None => None,
            Some(ps) => match es.last() {
                ListedEntry::Unreadable => Some(ps),
                ListedEntry::Listed { path, is_dir } => match is_dir {
                    None => None,
                    Some(true) => Some(ps),
                    Some(false) => Some(ps.push(entry_path(path))),
                },
            },
        }
    }
}

/// The entry is a file: listed, and known not to be a directory.
pub open spec fn is_file_entry(e: ListedEntry) -> bool {
    e matches ListedEntry::Listed { is_dir: Some(false), .. }
}

/// The file type of the entry could not be read.
pub open spec fn type_unknown(e: ListedEntry) -> bool {
    e matches ListedEntry::Listed { is_dir: None, .. }
}

/// The path of a listed entry as text.
pub open spec fn listed_path(e: ListedEntry) -> Seq<char> {
    match e {
        ListedEntry::Listed { path, .. } => entry_path(path),
        ListedEntry::Unreadable => Seq::<char>::empty(),
    }
}

/// A listing gives paths unless the file type of some entry could not be
/// read, and then it gives the paths of all its file entries, whatever
/// their names, in listing order.
pub proof fn lemma_listing_gives_every_file(es: Seq<ListedEntry>)
    ensures
        listed_file_paths(es) == (if exists|i: int| 0 <= i < es.len() && type_unknown(#[trigger] es[i]) {
            None::<Seq<Seq<char>>>
        } else {
            Some(es.filter(|e: ListedEntry| is_file_entry(e)).map_values(|e: ListedEntry| listed_path(e)))
        }),
    decreases es.len(),
{
    let f = |e: ListedEntry| is_file_entry(e);
    let g = |e: ListedEntry| listed_path(e);
    if es.len() == 0 {
        reveal(Seq::filter);
        assert(es.filter(f).map_values(g) =~= Seq::<Seq<char>>::empty());
    } else {
        let init = es.drop_last();
        let x = es.last();
        lemma_listing_gives_every_file(init);
        assert(es =~= init.push(x));
        lemma_filter_push(init, f, x);
        let bad_init = exists|i: int| 0 <= i < init.len() && type_unknown(#[trigger] init[i]);
        let bad = exists|i: int| 0 <= i < es.len() && type_unknown(#[trigger] es[i]);
        if bad_init {
            let i = choose|i: int| 0 <= i < init.len() && type_unknown(#[trigger] init[i]);
            assert(es[i] == init[i]);
        } else if type_unknown(x) {
            assert(es[es.len() - 1] == x);
        } else {
            assert(!bad) by {
                if bad {
                    let i = choose|i: int| 0 <= i < es.len() && type_unknown(#[trigger] es[i]);
                    if i < init.len() {
                        assert(init[i] == es[i]);
                    }
                }
            }
            if f(x) {
                assert(init.filter(f).push(x).map_values(g) =~= init.filter(f).map_values(g).push(g(x)));
            }
        }
    }
}

/// Every file path that the listing reaches has a file name, so that a
/// `File` can be made of it.
pub open spec fn reached_files_named(es: Seq<ListedEntry>) -> bool
    decreases es.len(),
{
    if es.len() == 0 {
        true
    } else {
        &&& reached_files_named(es.drop_last())
        &&& (listed_file_paths(es.drop_last()) is Some ==> match es.last() {
            ListedEntry::Listed { path, is_dir: Some(false) } => path_file_name(entry_path(path)) is Some,
            _ => true,
        })
    }
}

/// The files, as plain values, made of a list of file paths.
pub open spec fn files_for_paths(ps: Seq<Seq<char>>) -> Seq<FileView> {
    ps.map_values(|p: Seq<char>| file_for_path(p))
}

/// The files of a monitored directory, from what reading it gave: an error
/// when the path is not a directory, no files when it could not be read,
/// an error when the file type of an entry could not be read, and otherwise
/// a `File` for every entry that is not a directory, in listing order.
pub fn get_files(listing: &DirListing) -> (r: Result<Vec<File>, FilesError>)
    requires
        listing matches DirListing::Entries(es) ==> reached_files_named(es@),
    ensures
        match listing {
            DirListing::NotADirectory => r matches Err(FilesError::NotADirectory),
            DirListing::Unreadable => r matches Ok(fs) && fs@.len() == 0,
            DirListing::Entries(es) => match listed_file_paths(es@) {
                None => r matches Err(FilesError::FileType),
                Some(ps) => r matches Ok(fs) && fs@.map_values(|f: File| f@) == files_for_paths(ps),
            },
        },
        listing matches DirListing::Entries(es) ==> ((r is Err) == exists|i: int|
            0 <= i < es@.len() && type_unknown(#[trigger] es@[i])),
        listing matches DirListing::Entries(es) ==> (r matches Ok(fs) ==> fs@.map_values(|f: File| f@)
            == es@.filter(|e: ListedEntry| is_file_entry(e)).map_values(|e: ListedEntry| file_for_path(listed_path(e)))),
{
    proof {
        if let DirListing::Entries(es) = listing {
            lemma_listing_gives_every_file(es@);
            let ps = es@.filter(|e: ListedEntry| is_file_entry(e)).map_values(|e: ListedEntry| listed_path(e));
            assert(files_for_paths(ps) =~= es@.filter(|e: ListedEntry| is_file_entry(e)).map_values(
                |e: ListedEntry| file_for_path(listed_path(e)),
            ));
        }
    }
    match listing {
        DirListing::NotADirectory => Err(FilesError::NotADirectory),
        DirListing::Unreadable => Ok(Vec::new()),
        DirListing::Entries(entries) => {
            let mut files: Vec<File> = Vec::new();
            let mut i: usize = 0;
            assert(entries@.take(0) =~= Seq::<ListedEntry>::empty());
            while i < entries.len()
                invariant
                    *listing == DirListing::Entries(*entries),
                    i <= entries@.len(),
                    reached_files_named(entries@),
                    listed_file_paths(entries@.take(i as int)) matches Some(ps) && files@.map_values(
                        |f: File| f@,
                    ) == files_for_paths(ps),
                decreases entries@.len() - i,
            {
                let ghost prefix = entries@.take(i + 1);
                assert(prefix.drop_last() =~= entries@.take(i as int));
                assert(prefix.last() == entries@[i as int]);
                proof {
                    lemma_reached_prefix(entries@, i + 1);
                }
                match &entries[i] {
                    ListedEntry::Unreadable => {},
                    ListedEntry::Listed { path, is_dir } => {
                        match is_dir {
                            None => {
                                proof {
                                    lemma_listing_stops(entries@, i + 1);
                                }
                                return Err(FilesError::FileType);
                            },
                            Some(true) => {},
                            Some(false) => {
                                let text = match path {
                                    Some(p) => p.clone(),
                                    None => String::new(),
                                };
                                let ghost before = files@;
                                let file = File::new(text);
                                files.push(file);
                                assert(files@.map_values(|f: File| f@) =~= before.map_values(|f: File| f@).push(
                                    file_for_path(entry_path(*path)),
                                ));
                                assert(files_for_paths(listed_file_paths(prefix)->0) =~= files_for_paths(
                                    listed_file_paths(entries@.take(i as int))->0,
                                ).push(file_for_path(entry_path(*path))));
                            },
                        }
                    },
                }
                i = i + 1;
            }
            assert(entries@.take(entries@.len() as int) =~= entries@);
            Ok(files)
        },
    }
}

/// A listing whose first `n` entries reach only named files reaches only
/// named files there.
proof fn lemma_reached_prefix(es: Seq<ListedEntry>, n: int)
    requires
        0 <= n <= es.len(),
        reached_files_named(es),
    ensures
        reached_files_named(es.take(n)),
    decreases es.len() - n,
{
    if n < es.len() {
        lemma_reached_prefix(es, n + 1);
        assert(es.take(n + 1).drop_last() =~= es.take(n));
    } else {
        assert(es.take(n) =~= es);
    }
}

/// Once the file type of an entry could not be read, no longer prefix
/// gives paths.
proof fn lemma_listing_stops(es: Seq<ListedEntry>, n: int)
    requires
        0 <= n <= es.len(),
        listed_file_paths(es.take(n)) is None,
    ensures
        listed_file_paths(es) is None,
    decreases es.len() - n,
{
    if n < es.len() {
        assert(es.take(n + 1).drop_last() =~= es.take(n));
        lemma_listing_stops(es, n + 1);
    } else {
        assert(es.take(n) =~= es);
    }
}

/// `get_files` where every reached file path has a file name, and `None`
/// where one does not (where `File::new` could not name the file).
pub fn get_files_checked(listing: &DirListing) -> (r: Option<Result<Vec<File>, FilesError>>)
    ensures
        r is None <==> (listing matches DirListing::Entries(es) && !reached_files_named(es@)),
        r matches Some(res) ==> match listing {
            DirListing::NotADirectory => res matches Err(FilesError::NotADirectory),
            DirListing::Unreadable => res matches Ok(fs) && fs@.len() == 0,
            DirListing::Entries(es) => match listed_file_paths(es@) {
                None => res matches Err(FilesError::FileType),
                Some(ps) => res matches Ok(fs) && fs@.map_values(|f: File| f@) == files_for_paths(ps),
            },
        },
{
    if let DirListing::Entries(entries) = listing {
        let mut i: usize = 0;
        let mut stopped = false;
        assert(entries@.take(0) =~= Seq::<ListedEntry>::empty());
        while i < entries.len()
            invariant
                *listing == DirListing::Entries(*entries),
                i <= entries@.len(),
                reached_files_named(entries@.take(i as int)),
                stopped == (listed_file_paths(entries@.take(i as int)) is None),
            decreases entries@.len() - i,
        {
            let ghost prefix = entries@.take(i + 1);
            assert(prefix.drop_last() =~= entries@.take(i as int));
            assert(prefix.last() == entries@[i as int]);
            if !stopped {
                match &entries[i] {
                    ListedEntry::Unreadable => {},
                    ListedEntry::Listed { path, is_dir } => {
                        match is_dir {
                            None => {
                                stopped = true;
                            },
                            Some(true) => {},
                            Some(false) => {
                                let text = match path {
                                    Some(p) => p.clone(),
                                    None => String::new(),
                                };
                                let named = file_name_of(text.as_str()).is_some();
                                if !named {
                                    proof {
                                        lemma_reached_prefix_converse(entries@, i + 1);
                                    }
                                    return None;
                                }
                            },
                        }
                    },
                }
            }
            i = i + 1;
        }
        assert(entries@.take(entries@.len() as int) =~= entries@);
    }
    Some(get_files(listing))
}

/// Reaching an unnamed file in a prefix means reaching it in the whole.
proof fn lemma_reached_prefix_converse(es: Seq<ListedEntry>, n: int)
    requires
        0 <= n <= es.len(),
        !reached_files_named(es.take(n)),
    ensures
        !reached_files_named(es),
    decreases es.len() - n,
{
    if n < es.len() {
        assert(es.take(n + 1).drop_last() =~= es.take(n));
        lemma_reached_prefix_converse(es, n + 1);
    } else {
        assert(es.take(n) =~= es);
    }
}

/// A file to move: from where, to where.
#[derive(Debug)]
pub struct FileMove {
    pub source: String,
    pub destination: String,
}

impl View for FileMove {
    type V = (Seq<char>, Seq<char>);

    open spec fn view(&self) -> (Seq<char>, Seq<char>) {
        (self.source@, self.destination@)
    }
}

/// The moves that sort `files` of the directory at `dir`: every file whose
/// extension some type lists goes, under its own name, into the folder of
/// the first such type inside `dir`; other files stay. In file order.
pub open spec fn planned_moves(rules: Seq<RuleView>, dir: Seq<char>, files: Seq<FileView>) -> Seq<
    (Seq<char>, Seq<char>),
>
    decreases files.len(),
{
    if files.len() == 0 {
        Seq::empty()
    } else {
        let prev = planned_moves(rules, dir, files.drop_last());
        let f = files.last();
        match first_type_for(rules, f.2) {
            Some(t) => prev.push((f.0, path_join(path_join(dir, t), f.1))),
            None => prev,
        }
    }
}

/// Whether some type lists the extension of the file.
pub open spec fn has_type(rules: Seq<RuleView>, f: FileView) -> bool {
    first_type_for(rules, f.2) is Some
}

/// The files whose extension some type lists, in order.
pub open spec fn typed_files(rules: Seq<RuleView>, files: Seq<FileView>) -> Seq<FileView> {
    files.filter(|g: FileView| has_type(rules, g))
}

/// Where sorting puts a file: under its own name, into the folder of the
/// first type that lists its extension, inside the directory at `dir`.
pub open spec fn sorted_move(rules: Seq<RuleView>, dir: Seq<char>, f: FileView) -> (Seq<char>, Seq<char>) {
    (f.0, path_join(path_join(dir, first_type_for(rules, f.2)->0), f.1))
}

/// Sorting moves exactly the files whose extension some type lists, in
/// file order, each to its sorted place; a file is among them exactly when
/// it is one of the files and some type lists its extension.
pub proof fn lemma_moves_sort_typed_files(rules: Seq<RuleView>, dir: Seq<char>, files: Seq<FileView>)
    ensures
        planned_moves(rules, dir, files) == typed_files(rules, files).map_values(
            |f: FileView| sorted_move(rules, dir, f),
        ),
        forall|f: FileView| #[trigger] typed_files(rules, files).contains(f)
            <==> files.contains(f) && has_type(rules, f),
    decreases files.len(),
{
    let p = |g: FileView| has_type(rules, g);
    let mv = |f: FileView| sorted_move(rules, dir, f);
    if files.len() > 0 {
        let init = files.drop_last();
        lemma_moves_sort_typed_files(rules, dir, init);
        reveal(Seq::filter);
        assert(files.filter(p) == if p(files.last()) {
            init.filter(p).push(files.last())
        } else {
            init.filter(p)
        });
        if p(files.last()) {
            assert(init.filter(p).push(files.last()).map_values(mv) =~= init.filter(p).map_values(mv).push(
                mv(files.last()),
            ));
        }
    } else {
        reveal(Seq::filter);
        assert(files.filter(p).map_values(mv) =~= Seq::<(Seq<char>, Seq<char>)>::empty());
    }
    assert(typed_files(rules, files) == files.filter(p));
    assert forall|f: FileView| #[trigger] typed_files(rules, files).contains(f) <==> files.contains(f) && p(f) by {
        if files.filter(p).contains(f) {
            files.lemma_filter_contains_rev(p, f);
            let i = choose|i: int| 0 <= i < files.filter(p).len() && files.filter(p)[i] == f;
            files.lemma_filter_pred(p, i);
        }
        if files.contains(f) && p(f) {
            let i = choose|i: int| 0 <= i < files.len() && files[i] == f;
            files.lemma_filter_contains(p, i);
        }
    }
}

/// Where sorting puts a file, for rules `m`: under its own name, into the
/// folder of the least type that lists its extension, inside `dir`.
pub open spec fn sorted_place(m: Map<Seq<char>, Seq<Seq<char>>>, dir: Seq<char>, f: FileView) -> (Seq<char>, Seq<char>) {
    (f.0, path_join(path_join(dir, least_type(m, f.2)), f.1))
}

/// Sorting moves exactly the files whose extension some type lists, in file
/// order, each from its path into the folder of the least type that lists
/// its extension, under its own name.
pub proof fn lemma_moves_go_to_least_type_folders(rules: Seq<RuleView>, dir: Seq<char>, files: Seq<FileView>)
    requires
        strictly_sorted(rules),
    ensures
        planned_moves(rules, dir, files) == files.filter(
            |f: FileView| listed_anywhere(rules_map(rules), f.2),
        ).map_values(|f: FileView| sorted_place(rules_map(rules), dir, f)),
    decreases files.len(),
{
    let m = rules_map(rules);
    let p = |f: FileView| listed_anywhere(m, f.2);
    let mv = |f: FileView| sorted_place(m, dir, f);
    if files.len() > 0 {
        let init = files.drop_last();
        let x = files.last();
        lemma_moves_go_to_least_type_folders(rules, dir, init);
        assert(files =~= init.push(x));
        lemma_filter_push(init, p, x);
        lemma_first_type_is_least_type(rules, x.2);
        if p(x) {
            assert(init.filter(p).push(x).map_values(mv) =~= init.filter(p).map_values(mv).push(mv(x)));
        }
    } else {
        reveal(Seq::filter);
        assert(files.filter(p).map_values(mv) =~= Seq::<(Seq<char>, Seq<char>)>::empty());
    }
}

/// The folders made for extensions are, in order, the folder of the least
/// type listing each extension that some type lists; others get none. They
/// are the folders that sorting moves the files into.
pub proof fn lemma_type_dirs_are_least_type_folders(rules: Seq<RuleView>, dir: Seq<char>, exts: Seq<Seq<char>>)
    requires
        strictly_sorted(rules),
    ensures
        type_dirs(rules, dir, exts) == exts.filter(|e: Seq<char>| listed_anywhere(rules_map(rules), e)).map_values(
            |e: Seq<char>| path_join(dir, least_type(rules_map(rules), e)),
        ),
    decreases exts.len(),
{
    let m = rules_map(rules);
    let p = |e: Seq<char>| listed_anywhere(m, e);
    let g = |e: Seq<char>| path_join(dir, least_type(m, e));
    if exts.len() > 0 {
        let init = exts.drop_last();
        let x = exts.last();
        lemma_type_dirs_are_least_type_folders(rules, dir, init);
        assert(exts =~= init.push(x));
        lemma_filter_push(init, p, x);
        lemma_first_type_is_least_type(rules, x);
        if p(x) {
            assert(init.filter(p).push(x).map_values(g) =~= init.filter(p).map_values(g).push(g(x)));
        }
    } else {
        reveal(Seq::filter);
        assert(exts.filter(p).map_values(g) =~= Seq::<Seq<char>>::empty());
    }
}

/// Every file that sorting moves and whose extension is supported has its
/// destination folder among the folders planned for the files: the folder
/// of the move is the folder that is made.
pub proof fn lemma_each_move_has_its_folder(
    rules: Seq<RuleView>,
    dir: Seq<char>,
    files: Seq<FileView>,
    supported: Seq<Seq<char>>,
    j: int,
)
    requires
        strictly_sorted(rules),
        0 <= j < files.len(),
        listed_anywhere(rules_map(rules), files[j].2),
        supported.contains(files[j].2),
    ensures
        planned_moves(rules, dir, files).contains(sorted_place(rules_map(rules), dir, files[j])),
        type_dirs(rules, dir, unique_supported(files, supported)).contains(
            path_join(dir, least_type(rules_map(rules), files[j].2)),
        ),
        sorted_place(rules_map(rules), dir, files[j]).1 == path_join(
            path_join(dir, least_type(rules_map(rules), files[j].2)),
            files[j].1,
        ),
{
    let m = rules_map(rules);
    let e = files[j].2;
    let p = |f: FileView| listed_anywhere(m, f.2);
    let mv = |f: FileView| sorted_place(m, dir, f);
    lemma_moves_go_to_least_type_folders(rules, dir, files);
    files.lemma_filter_contains(p, j);
    let k = choose|k: int| 0 <= k < files.filter(p).len() && files.filter(p)[k] == files[j];
    assert(files.filter(p).map_values(mv)[k] == mv(files[j]));
    let u = unique_supported(files, supported);
    lemma_unique_supported(files, supported);
    assert(u.to_set().contains(e));
    let q = |x: Seq<char>| listed_anywhere(m, x);
    let g = |x: Seq<char>| path_join(dir, least_type(m, x));
    lemma_type_dirs_are_least_type_folders(rules, dir, u);
    let i = choose|i: int| 0 <= i < u.len() && u[i] == e;
    u.lemma_filter_contains(q, i);
    let l = choose|l: int| 0 <= l < u.filter(q).len() && u.filter(q)[l] == e;
    assert(u.filter(q).map_values(g)[l] == g(e));
}

/// The moves that sort the files of a monitored directory into the folders
/// of their types (see `planned_moves`).
pub fn move_plan(file_dir_map: &RuleMap, monitoring_dir: &Directory, files_list: &Vec<File>) -> (r: Vec<FileMove>)
    ensures
        r@.map_values(|m: FileMove| m@) == planned_moves(
            file_dir_map.entry_views(),
            monitoring_dir.d_path@,
            file_views(files_list@),
        ),
        r@.map_values(|m: FileMove| m@) == file_views(files_list@).filter(
            |f: FileView| listed_anywhere(file_dir_map@, f.2),
        ).map_values(|f: FileView| sorted_place(file_dir_map@, monitoring_dir.d_path@, f)),
{
    proof {
        use_type_invariant(file_dir_map);
        lemma_moves_go_to_least_type_folders(file_dir_map.entry_views(), monitoring_dir.d_path@, file_views(files_list@));
    }
    let ghost rules = file_dir_map.entry_views();
    let ghost dir = monitoring_dir.d_path@;
    let ghost fs = file_views(files_list@);
    let mut moves: Vec<FileMove> = Vec::new();
    let mut i: usize = 0;
    assert(fs.take(0) =~= Seq::<FileView>::empty());
    while i < files_list.len()
        invariant
            i <= files_list@.len(),
            fs == file_views(files_list@),
            rules == file_dir_map.entry_views(),
            dir == monitoring_dir.d_path@,
            moves@.map_values(|m: FileMove| m@) == planned_moves(rules, dir, fs.take(i as int)),
        decreases files_list@.len() - i,
    {
        let file = &files_list[i];
        assert(fs.take(i + 1).drop_last() =~= fs.take(i as int));
        assert(fs.take(i + 1).last() == file@);
        if let Some(dir_name) = get_type_for_extension(file_dir_map, &file.f_extension) {
            let u_path = join_path(monitoring_dir.d_path.as_str(), dir_name.as_str());
            let d_path = join_path(u_path.as_str(), file.f_name.as_str());
            let ghost before = moves@;
            moves.push(FileMove { source: file.f_path.clone(), destination: d_path });
            assert(moves@.map_values(|m: FileMove| m@) =~= before.map_values(|m: FileMove| m@).push(
                (file.f_path@, path_join(path_join(dir, dir_name@), file.f_name@)),
            ));
        }
        i = i + 1;
    }
    assert(fs.take(files_list@.len() as int) =~= fs);
    moves
}

/// The extensions of `files` that `supported` holds, each once, in the
/// order in which they first occur.
pub open spec fn unique_supported(files: Seq<FileView>, supported: Seq<Seq<char>>) -> Seq<Seq<char>>
    decreases files.len(),
{
    if files.len() == 0 {
        Seq::empty()
    } else {
        let prev = unique_supported(files.drop_last(), supported);
        let e = files.last().2;
        if supported.contains(e) && !prev.contains(e) {
            prev.push(e)
        } else {
            prev
        }
    }
}

/// The supported extensions of the files are each listed once, and they
/// are exactly the extensions of the files that `supported` holds.
pub proof fn lemma_unique_supported(files: Seq<FileView>, supported: Seq<Seq<char>>)
    ensures
        unique_supported(files, supported).no_duplicates(),
        unique_supported(files, supported).to_set() == Set::new(
            |e: Seq<char>| supported.contains(e) && exists|i: int| 0 <= i < files.len() && (#[trigger] files[i]).2 == e,
        ),
    decreases files.len(),
{
    let u = unique_supported(files, supported);
    let target = Set::new(
        |e: Seq<char>| supported.contains(e) && exists|i: int| 0 <= i < files.len() && (#[trigger] files[i]).2 == e,
    );
    if files.len() == 0 {
        assert(u.to_set() =~= target);
    } else {
        let init = files.drop_last();
        lemma_unique_supported(init, supported);
        let prev = unique_supported(init, supported);
        let e = files.last().2;
        let prev_target = Set::new(
            |x: Seq<char>| supported.contains(x) && exists|i: int| 0 <= i < init.len() && (#[trigger] init[i]).2 == x,
        );
        if supported.contains(e) && !prev.contains(e) {
            prev.lemma_push_to_set_commute(e);
        }
        assert forall|x: Seq<char>| target.contains(x) implies u.to_set().contains(x) by {
            let i = choose|i: int| 0 <= i < files.len() && (#[trigger] files[i]).2 == x;
            if i < files.len() - 1 {
                assert(init[i] == files[i]);
                assert(prev_target.contains(x));
                assert(prev.to_set().contains(x));
                if u != prev {
                    assert(u.to_set() == prev.to_set().insert(e));
                }
            } else {
                if !(supported.contains(e) && !prev.contains(e)) {
                    assert(prev.contains(x));
                    assert(prev.to_set().contains(x));
                }
            }
        }
        assert forall|x: Seq<char>| u.to_set().contains(x) implies target.contains(x) by {
            if prev.to_set().contains(x) {
                assert(prev_target.contains(x));
                let i = choose|i: int| 0 <= i < init.len() && (#[trigger] init[i]).2 == x;
                assert(files[i] == init[i]);
            } else {
                assert(x == e);
                assert(files[files.len() - 1].2 == x);
            }
        }
        assert(u.to_set() =~= target);
    }
}

/// The type folders to make inside the directory at `dir` for the given
/// extensions: the folder of the first type listing each extension, in
/// order; extensions that no type lists give none.
pub open spec fn type_dirs(rules: Seq<RuleView>, dir: Seq<char>, exts: Seq<Seq<char>>) -> Seq<Seq<char>>
    decreases exts.len(),
{
    if exts.len() == 0 {
        Seq::empty()
    } else {
        let prev = type_dirs(rules, dir, exts.drop_last());
        match first_type_for(rules, exts.last()) {
            Some(t) => prev.push(path_join(dir, t)),
            None => prev,
        }
    }
}

/// The type folders that the files of a monitored directory need: one for
/// each distinct supported extension among the files, in the order in
/// which the extensions first occur (see `type_dirs`).
pub fn dir_creation_plan(
    file_dir_map: &RuleMap,
    monitoring_dir: &Directory,
    files_list: &Vec<File>,
    supported_extensions: &Vec<String>,
) -> (r: Vec<String>)
    ensures
        texts(r@) == type_dirs(
            file_dir_map.entry_views(),
            monitoring_dir.d_path@,
            unique_supported(file_views(files_list@), texts(supported_extensions@)),
        ),
        texts(r@) == unique_supported(file_views(files_list@), texts(supported_extensions@)).filter(
            |e: Seq<char>| listed_anywhere(file_dir_map@, e),
        ).map_values(|e: Seq<char>| path_join(monitoring_dir.d_path@, least_type(file_dir_map@, e))),
{
    proof {
        use_type_invariant(file_dir_map);
        lemma_type_dirs_are_least_type_folders(
            file_dir_map.entry_views(),
            monitoring_dir.d_path@,
            unique_supported(file_views(files_list@), texts(supported_extensions@)),
        );
    }
    let ghost fs = file_views(files_list@);
    let ghost sup = texts(supported_extensions@);
    let mut u_extensions: Vec<String> = Vec::new();
    let mut i: usize = 0;
    assert(fs.take(0) =~= Seq::<FileView>::empty());
    while i < files_list.len()
        invariant
            i <= files_list@.len(),
            fs == file_views(files_list@),
            sup == texts(supported_extensions@),
            texts(u_extensions@) == unique_supported(fs.take(i as int), sup),
        decreases files_list@.len() - i,
    {
        let file = &files_list[i];
        assert(fs.take(i + 1).drop_last() =~= fs.take(i as int));
        assert(fs.take(i + 1).last() == file@);
        if contains_text(supported_extensions, &file.f_extension) && !contains_text(&u_extensions, &file.f_extension) {
            let ghost before = u_extensions@;
            u_extensions.push(file.f_extension.clone());
            assert(texts(u_extensions@) =~= texts(before).push(file.f_extension@));
        }
        i = i + 1;
    }
    assert(fs.take(files_list@.len() as int) =~= fs);
    let ghost exts = texts(u_extensions@);
    let mut dirs: Vec<String> = Vec::new();
    let mut j: usize = 0;
    assert(exts.take(0) =~= Seq::<Seq<char>>::empty());
    while j < u_extensions.len()
        invariant
            j <= u_extensions@.len(),
            exts == texts(u_extensions@),
            texts(dirs@) == type_dirs(file_dir_map.entry_views(), monitoring_dir.d_path@, exts.take(j as int)),
        decreases u_extensions@.len() - j,
    {
        assert(exts.take(j + 1).drop_last() =~= exts.take(j as int));
        assert(exts.take(j + 1).last() == u_extensions@[j as int]@);
        if let Some(dir_name) = get_type_for_extension(file_dir_map, &u_extensions[j]) {
            let u_path = join_path(monitoring_dir.d_path.as_str(), dir_name.as_str());
            let ghost before = dirs@;
            dirs.push(u_path);
            assert(texts(dirs@) =~= texts(before).push(path_join(monitoring_dir.d_path@, dir_name@)));
        }
        j = j + 1;
    }
    assert(exts.take(u_extensions@.len() as int) =~= exts);
    dirs
}

/// The parent directories of the paths that have one, in order.
pub open spec fn parent_paths(paths: Seq<Seq<char>>) -> Seq<Seq<char>>
    decreases paths.len(),
{
    if paths.len() == 0 {
        Seq::empty()
    } else {
        let prev = parent_paths(paths.drop_last());
        match path_parent(paths.last()) {
            Some(p) => prev.push(p),
            None => prev,
        }
    }
}

/// The parents kept are exactly those of the paths that have one, in path
/// order.
pub proof fn lemma_parent_paths_are_the_parents(paths: Seq<Seq<char>>)
    ensures
        parent_paths(paths) == paths.filter(|p: Seq<char>| path_parent(p) is Some).map_values(
            |p: Seq<char>| path_parent(p)->0,
        ),
    decreases paths.len(),
{
    let has = |p: Seq<char>| path_parent(p) is Some;
    let par = |p: Seq<char>| path_parent(p)->0;
    if paths.len() > 0 {
        let init = paths.drop_last();
        lemma_parent_paths_are_the_parents(init);
        assert(paths =~= init.push(paths.last()));
        lemma_filter_push(init, has, paths.last());
        if has(paths.last()) {
            assert(init.filter(has).push(paths.last()).map_values(par) =~= init.filter(has).map_values(par).push(
                par(paths.last()),
            ));
        }
    } else {
        reveal(Seq::filter);
        assert(paths.filter(has).map_values(par) =~= Seq::<Seq<char>>::empty());
    }
}

/// The directories, as plain values, that the parents of the paths name.
pub open spec fn parent_directories(paths: Seq<Seq<char>>) -> Seq<DirectoryView> {
    parent_paths(paths).map_values(|p: Seq<char>| bare_directory(p))
}

/// The directories that an event touched: the parent of each path of the
/// event that has one, with no files listed; paths without a parent are
/// passed over.
pub fn event_directories(paths: &Vec<String>) -> (r: Vec<Directory>)
    ensures
        r@.map_values(|d: Directory| d@) == parent_directories(texts(paths@)),
        r@.map_values(|d: Directory| d@) == texts(paths@).filter(|p: Seq<char>| path_parent(p) is Some).map_values(
            |p: Seq<char>| bare_directory(path_parent(p)->0),
        ),
{
    proof {
        lemma_parent_paths_are_the_parents(texts(paths@));
        assert(parent_directories(texts(paths@)) =~= texts(paths@).filter(|p: Seq<char>| path_parent(p) is Some).map_values(
            |p: Seq<char>| bare_directory(path_parent(p)->0),
        ));
    }
    let ghost ps = texts(paths@);
    let mut dirs: Vec<Directory> = Vec::new();
    let mut i: usize = 0;
    assert(ps.take(0) =~= Seq::<Seq<char>>::empty());
    assert(dirs@.map_values(|d: Directory| d@) =~= parent_directories(ps.take(0)));
    while i < paths.len()
        invariant
            i <= paths@.len(),
            ps == texts(paths@),
            dirs@.map_values(|d: Directory| d@) == parent_directories(ps.take(i as int)),
        decreases paths@.len() - i,
    {
        assert(ps.take(i + 1).drop_last() =~= ps.take(i as int));
        assert(ps.take(i + 1).last() == paths@[i as int]@);
        if let Some(parent_path) = parent_of(paths[i].as_str()) {
            let ghost before = dirs@;
            let d = Directory::from(parent_path, Vec::new());
            dirs.push(d);
            assert(file_views(Seq::<File>::empty()) =~= Seq::<FileView>::empty());
            assert(dirs@.map_values(|d: Directory| d@) =~= before.map_values(|d: Directory| d@).push(
                bare_directory(d.d_path@),
            ));
            assert(parent_directories(ps.take(i + 1)) =~= parent_directories(ps.take(i as int)).push(
                bare_directory(d.d_path@),
            ));
        } else {
            assert(parent_directories(ps.take(i + 1)) =~= parent_directories(ps.take(i as int)));
        }
        i = i + 1;
    }
    assert(ps.take(paths@.len() as int) =~= ps);
    dirs
}

/// The directories to act on for an event: those that its paths' parents
/// name when the event is a creation, none for any other event.
pub fn match_response_directories(is_create: bool, paths: &Vec<String>) -> (r: Vec<Directory>)
    ensures
        r@.map_values(|d: Directory| d@) == (if is_create {
            parent_directories(texts(paths@))
        } else {
            Seq::<DirectoryView>::empty()
        }),
{
    if is_create {
        event_directories(paths)
    } else {
        let r: Vec<Directory> = Vec::new();
        assert(r@.map_values(|d: Directory| d@) =~= Seq::<DirectoryView>::empty());
        r
    }
}

/// The extension of the file a path names: none when the path has no file
/// name or the name has no extension (see `name_extension`).
pub open spec fn path_extension(path: Seq<char>) -> Option<Seq<char>> {
    match path_file_name(path) {
        Some(name) => name_extension(name),
        None => None,
    }
}

/// The extension of the file a path names, if there is one.
pub fn file_extension(path: &str) -> (r: Option<String>)
    ensures
        match r {
            Some(e) => path_extension(path@) == Some(e@),
            None => path_extension(path@) is None,
        },
{
    match file_name_of(path) {
        Some(name) => extension_in_name(name.as_str()),
        None => None,
    }
}

} // verus!
