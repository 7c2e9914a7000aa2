//! The files and directories that are watched and sorted.
pub mod paths;
pub mod reactor;
pub mod watcher;

use crate::components::paths::{components_of, file_name_of, path_components, path_file_name};
use crate::helpers::rules::{texts, texts_equal};
use crate::helpers::text::{extension_of, extension_of_name};
use vstd::prelude::*;

verus! {

/// A file as plain values: its path, its name and its extension.
pub type FileView = (Seq<char>, Seq<char>, Seq<char>);

/// A directory as plain values: its path and its files.
pub type DirectoryView = (Seq<char>, Seq<FileView>);

/// What identifies a file: the components of its path, its name and its
/// extension. Paths compare by their components, so `/a/b` and `/a/b/` name
/// the same file.
pub type FileKey = (Seq<Seq<char>>, Seq<char>, Seq<char>);

/// What identifies a directory: the components of its path and the keys of
/// its files.
pub type DirectoryKey = (Seq<Seq<char>>, Seq<FileKey>);

/// The identity of a file.
pub open spec fn file_key(f: FileView) -> FileKey {
    (path_components(f.0), f.1, f.2)
}

/// The identity of a directory.
pub open spec fn dir_key(d: DirectoryView) -> DirectoryKey {
    (path_components(d.0), d.1.map_values(|f: FileView| file_key(f)))
}

/// The file that `File::new` describes for a path that has a file name:
/// the path, the final component of the path, and the extension of that
/// name (empty when it has none).
pub open spec fn file_for_path(path: Seq<char>) -> FileView {
    let name = path_file_name(path)->0;
    (path, name, extension_of(name))
}

/// A file found in a monitored directory.
#[derive(Debug, Clone)]
pub struct File {
    pub f_path: String,
    pub f_name: String,
    pub f_extension: String,
}

impl View for File {
    type V = FileView;

    open spec fn view(&self) -> FileView {
        (self.f_path@, self.f_name@, self.f_extension@)
    }
}

impl File {
    /// The file at `f_path`; its name is the path's final component and its
    /// extension what follows the last `.` of the name (empty when none).
    pub fn new(f_path: String) -> (file: File)
        requires
            path_file_name(f_path@) is Some,
        ensures
            file@ == file_for_path(f_path@),
    {
        let f_name = file_name_of(f_path.as_str()).unwrap();
        let f_extension = extension_of_name(f_name.as_str());
        File { f_path, f_name, f_extension }
    }

    /// `File::new` where the path has a file name, and `None` where it has
    /// none (a path such as `/`, or one that ends in `..`).
    pub fn try_new(f_path: String) -> (file: Option<File>)
        ensures
            file is Some == path_file_name(f_path@) is Some,
            file matches Some(f) ==> f@ == file_for_path(f_path@),
    {
        match file_name_of(f_path.as_str()) {
            Some(_) => Some(File::new(f_path)),
            None => None,
        }
    }

    /// The path of the file as text.
    pub fn to_string(&self) -> (s: String)
        ensures
            s@ == self.f_path@,
    {
        self.f_path.clone()
    }

    /// Whether two files are the same: paths with the same components, and
    /// the same name and extension.
    pub fn same_as(&self, other: &File) -> (b: bool)
        ensures
            b == (file_key(self@) == file_key(other@)),
    {
        let mine = components_of(self.f_path.as_str());
        let theirs = components_of(other.f_path.as_str());
        texts_equal(&mine, &theirs) && self.f_name == other.f_name && self.f_extension
            == other.f_extension
    }
}

/// The views of a list of files.
pub open spec fn file_views(files: Seq<File>) -> Seq<FileView> {
    files.map_values(|f: File| f@)
}

/// The directory at `path` with no files listed, as plain values.
pub open spec fn bare_directory(path: Seq<char>) -> DirectoryView {
    (path, Seq::<FileView>::empty())
}

/// A monitored directory and the files it held when it was last listed.
#[derive(Debug, Clone)]
pub struct Directory {
    pub d_path: String,
    pub d_files: Vec<File>,
}

impl View for Directory {
    type V = DirectoryView;

    open spec fn view(&self) -> DirectoryView {
        (self.d_path@, file_views(self.d_files@))
    }
}

impl Default for Directory {
    /// The directory with the empty path and no files.
    fn default() -> (d: Directory)
        ensures
            d@ == (Seq::<char>::empty(), Seq::<FileView>::empty()),
    {
        let d = Directory { d_path: String::new(), d_files: Vec::new() };
        assert(file_views(d.d_files@) =~= Seq::<FileView>::empty());
        d
    }
}

impl Directory {
    /// The directory at `d_path` holding `d_files`.
    pub fn from(d_path: String, d_files: Vec<File>) -> (d: Directory)
        ensures
            d.d_path@ == d_path@,
            d.d_files@ == d_files@,
            d@ == (d_path@, file_views(d_files@)),
    {
        Directory { d_path, d_files }
    }

    /// Whether two directories are the same: paths with the same
    /// components, and the same files in the same order.
    pub fn same_as(&self, other: &Directory) -> (b: bool)
        ensures
            b == (dir_key(self@) == dir_key(other@)),
    {
        let mine = components_of(self.d_path.as_str());
        let theirs = components_of(other.d_path.as_str());
        let ghost fk = |f: FileView| file_key(f);
        let ghost ks = file_views(self.d_files@).map_values(fk);
        let ghost ko = file_views(other.d_files@).map_values(fk);
        if !texts_equal(&mine, &theirs) || self.d_files.len() != other.d_files.len() {
            proof {
                if self.d_files.len() != other.d_files.len() {
                    assert(ks.len() != ko.len());
                }
            }
            return false;
        }
        let mut i: usize = 0;
        while i < self.d_files.len()
            invariant
                i <= self.d_files@.len(),
                self.d_files@.len() == other.d_files@.len(),
                ks == file_views(self.d_files@).map_values(fk),
                ko == file_views(other.d_files@).map_values(fk),
                fk == (|f: FileView| file_key(f)),
                forall|j: int| 0 <= j < i ==> ks[j] == ko[j],
            decreases self.d_files@.len() - i,
        {
            if !self.d_files[i].same_as(&other.d_files[i]) {
                assert(ks[i as int] == file_key(self.d_files@[i as int]@));
                assert(ko[i as int] == file_key(other.d_files@[i as int]@));
                return false;
            }
            assert(ks[i as int] == file_key(self.d_files@[i as int]@));
            assert(ko[i as int] == file_key(other.d_files@[i as int]@));
            i = i + 1;
        }
        assert(ks =~= ko);
        true
    }
}

} // verus!
