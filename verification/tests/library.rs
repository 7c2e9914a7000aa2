use dirmon::cli::DirmonArgs;
use dirmon::components::reactor::directories_to_react;
use dirmon::components::watcher::DirmonWatchMode;
use dirmon::components::{Directory, File};
use dirmon::helpers::extensions::get_supported_extension_and_type;
use dirmon::helpers::rules::{DirectoryRules, RuleMap};
use dirmon::helpers::text::{extension_of_name, split_at_char, text_equal, text_less};
use dirmon::helpers::{
    dir_creation_plan, event_directories, file_extension, get_files, get_files_checked,
    get_spprtd_extns_and_type, get_type_for_extension, match_response_directories, move_plan,
    DirListing, FilesError, ListedEntry,
};
use dirmon::internals::{DirMonConfig, DirMonDirectory, DirMonInstance};

fn s(text: &str) -> String {
    String::from(text)
}

fn strings(items: &[&str]) -> Vec<String> {
    items.iter().map(|t| String::from(*t)).collect()
}

fn sample_rules() -> RuleMap {
    let mut rules = RuleMap::new();
    rules.insert(s("TYPE_2"), strings(&["txt", "pdf"]));
    rules.insert(s("TYPE_0"), strings(&["mp3", "wav"]));
    rules.insert(s("TYPE_1"), strings(&["mov", "mp4", "txt"]));
    rules
}

#[test]
fn split_at_char_follows_str_split() {
    assert_eq!(split_at_char("mp3,wav", ','), strings(&["mp3", "wav"]));
    assert_eq!(split_at_char("", ','), strings(&[""]));
    assert_eq!(split_at_char("a,,b,", ','), strings(&["a", "", "b", ""]));
    assert_eq!(split_at_char("ünï,cödé", ','), strings(&["ünï", "cödé"]));
    let text = "x,y,,z";
    assert_eq!(split_at_char(text, ',').join(","), text);
}

#[test]
fn extension_of_name_follows_path_extension() {
    assert_eq!(extension_of_name("archive.tar.gz"), "gz");
    assert_eq!(extension_of_name("song.mp3"), "mp3");
    assert_eq!(extension_of_name(".bashrc"), "");
    assert_eq!(extension_of_name("..hidden"), "hidden");
    assert_eq!(extension_of_name("noext"), "");
    assert_eq!(extension_of_name("file."), "");
    for name in ["a.b.c", ".x", "plain", "a.", "..y"] {
        let expected = std::path::Path::new(name)
            .extension()
            .and_then(|e| e.to_str())
            .unwrap_or_default();
        assert_eq!(extension_of_name(name), expected, "name {}", name);
    }
}

#[test]
fn text_order_is_byte_order() {
    assert!(text_less("TYPE_0", "TYPE_1"));
    assert!(!text_less("TYPE_1", "TYPE_0"));
    assert!(text_less("AB", "ABC"));
    assert!(!text_less("ABC", "ABC"));
    assert!(text_less("Z", "a"));
    assert!(text_less("z", "é"));
    assert!(text_equal("same", "same"));
    assert!(!text_equal("same", "Same"));
}

#[test]
fn file_new_takes_name_and_extension_from_the_path() {
    let f = File::new(s("/tmp/media/new_song.mp3"));
    assert_eq!(f.f_path, "/tmp/media/new_song.mp3");
    assert_eq!(f.f_name, "new_song.mp3");
    assert_eq!(f.f_extension, "mp3");
    assert_eq!(f.to_string(), "/tmp/media/new_song.mp3");

    let g = File::new(s("/tmp/media/README"));
    assert_eq!(g.f_name, "README");
    assert_eq!(g.f_extension, "");

    let h = File::new(s("relative/archive.tar.gz/"));
    assert_eq!(h.f_name, "archive.tar.gz");
    assert_eq!(h.f_extension, "gz");
}

#[test]
fn file_try_new_refuses_paths_without_a_file_name() {
    assert!(File::try_new(s("/")).is_none());
    assert!(File::try_new(s("/tmp/..")).is_none());
    assert!(File::try_new(s("")).is_none());
    assert_eq!(File::try_new(s("/tmp/a.txt")).unwrap().f_name, "a.txt");
}

#[test]
fn directories_compare_by_path_and_files() {
    let d = Directory::default();
    assert_eq!(d.d_path, "");
    assert!(d.d_files.is_empty());
    let a = Directory::from(s("/tmp/a"), vec![]);
    let b = Directory::from(s("/tmp/a"), vec![]);
    let c = Directory::from(s("/tmp/a"), vec![File::new(s("/tmp/a/x.txt"))]);
    assert!(a.same_as(&b));
    assert!(!a.same_as(&c));
    assert!(!a.same_as(&Directory::from(s("/tmp/b"), vec![])));
    // paths compare by their components
    assert!(a.same_as(&Directory::from(s("/tmp/a/"), vec![])));
    assert!(a.same_as(&Directory::from(s("/tmp//a"), vec![])));
    assert!(a.same_as(&Directory::from(s("/tmp/./a"), vec![])));
    assert!(!a.same_as(&Directory::from(s("tmp/a"), vec![])));
    assert!(!a.same_as(&Directory::from(s("/tmp/a/.."), vec![])));
    let c2 = Directory::from(s("/tmp/a/"), vec![File::new(s("/tmp/a//x.txt"))]);
    assert!(c.same_as(&c2));
    assert!(File::new(s("/tmp/a/x.txt")).same_as(&File::new(s("/tmp/a/x.txt/"))));
    assert!(!File::new(s("/tmp/a/x.txt")).same_as(&File::new(s("/tmp/b/x.txt"))));
}

#[test]
fn rules_stored_with_a_trailing_separator_are_found_without_it() {
    let mut all = DirectoryRules::new();
    let mut readme = RuleMap::new();
    readme.insert(s("TYPE_0"), strings(&["mp3", "wav"]));
    readme.insert(s("TYPE_1"), strings(&["mov", "mp4"]));
    readme.insert(s("TYPE_2"), strings(&["txt", "pdf"]));
    all.insert(Directory::from(s("/desired/path/here/"), vec![]), readme);
    let asked = Directory::from(s("/desired/path/here"), vec![]);
    assert!(all.contains_key(&asked));
    let (extensions, types) = get_supported_extension_and_type(&asked, &all).unwrap();
    assert_eq!(types, strings(&["TYPE_0", "TYPE_1", "TYPE_2"]));
    let mut sorted = extensions.clone();
    sorted.sort();
    assert_eq!(sorted, strings(&["mov", "mp3", "mp4", "pdf", "txt", "wav"]));
    // the same directory written another way replaces the rules, not adds
    let mut other = RuleMap::new();
    other.insert(s("DOCS"), strings(&["pdf"]));
    all.insert(Directory::from(s("/desired//path/here"), vec![]), other);
    assert_eq!(all.len(), 1);
    assert_eq!(all.get(&asked).unwrap().keys(), strings(&["DOCS"]));
    // an event in the directory is reacted to
    let react = directories_to_react(&strings(&["/desired/path/here/new_song.mp3"]), &all);
    assert_eq!(react.len(), 1);
}

#[test]
fn rule_map_keeps_types_in_order_and_replaces_on_insert() {
    let mut rules = sample_rules();
    assert_eq!(rules.keys(), strings(&["TYPE_0", "TYPE_1", "TYPE_2"]));
    assert_eq!(rules.len(), 3);
    rules.insert(s("TYPE_1"), strings(&["avi"]));
    assert_eq!(rules.len(), 3);
    assert_eq!(rules.get("TYPE_1").unwrap(), &strings(&["avi"]));
    assert!(rules.get("TYPE_9").is_none());
    assert!(!rules.contains_key("TYPE_9"));
    let copy = rules.duplicate();
    assert_eq!(copy.keys(), rules.keys());
    assert_eq!(copy.values_at(1), &strings(&["avi"]));
    assert_eq!(copy.key_at(2), "TYPE_2");
    assert!(RuleMap::new().is_empty());
}

#[test]
fn get_type_for_extension_takes_the_first_type_in_order() {
    let rules = sample_rules();
    assert_eq!(get_type_for_extension(&rules, &s("mp3")), Some(s("TYPE_0")));
    // both TYPE_1 and TYPE_2 list txt; the lesser name wins
    assert_eq!(get_type_for_extension(&rules, &s("txt")), Some(s("TYPE_1")));
    assert_eq!(get_type_for_extension(&rules, &s("pdf")), Some(s("TYPE_2")));
    assert_eq!(get_type_for_extension(&rules, &s("exe")), None);
}

#[test]
fn supported_extensions_are_listed_once() {
    let rules = sample_rules();
    let (extensions, types) = get_spprtd_extns_and_type(&rules);
    assert_eq!(types, strings(&["TYPE_0", "TYPE_1", "TYPE_2"]));
    let mut sorted = extensions.clone();
    sorted.sort();
    assert_eq!(sorted, strings(&["mov", "mp3", "mp4", "pdf", "txt", "wav"]));
}

#[test]
fn supported_extensions_of_a_directory() {
    let mut all = DirectoryRules::new();
    let dir = Directory::from(s("/tmp/media"), vec![]);
    all.insert(dir.clone(), sample_rules());
    let (extensions, types) = get_supported_extension_and_type(&dir, &all).unwrap();
    assert_eq!(types.len(), 3);
    assert_eq!(extensions.len(), 6);
    let other = Directory::from(s("/tmp/other"), vec![]);
    assert!(get_supported_extension_and_type(&other, &all).is_none());
    // inserting again replaces
    let mut fewer = RuleMap::new();
    fewer.insert(s("DOCS"), strings(&["pdf"]));
    all.insert(dir.clone(), fewer);
    assert_eq!(all.len(), 1);
    assert_eq!(all.get(&dir).unwrap().keys(), strings(&["DOCS"]));
}

#[test]
fn get_files_lists_the_files_that_are_not_directories() {
    let listing = DirListing::Entries(vec![
        ListedEntry::Listed { path: Some(s("/tmp/m/a.mp3")), is_dir: Some(false) },
        ListedEntry::Listed { path: Some(s("/tmp/m/TYPE_0")), is_dir: Some(true) },
        ListedEntry::Unreadable,
        ListedEntry::Listed { path: Some(s("/tmp/m/notes.txt")), is_dir: Some(false) },
    ]);
    let files = get_files(&listing).unwrap();
    assert_eq!(files.len(), 2);
    assert_eq!(files[0].f_name, "a.mp3");
    assert_eq!(files[1].f_extension, "txt");
}

#[test]
fn get_files_errors() {
    assert_eq!(get_files(&DirListing::NotADirectory).unwrap_err(), FilesError::NotADirectory);
    assert!(get_files(&DirListing::Unreadable).unwrap().is_empty());
    let listing = DirListing::Entries(vec![
        ListedEntry::Listed { path: Some(s("/tmp/m/a.mp3")), is_dir: Some(false) },
        ListedEntry::Listed { path: Some(s("/tmp/m/b")), is_dir: None },
        ListedEntry::Listed { path: None, is_dir: Some(false) },
    ]);
    assert_eq!(get_files(&listing).unwrap_err(), FilesError::FileType);
    assert_eq!(get_files_checked(&listing).unwrap().unwrap_err(), FilesError::FileType);
}

#[test]
fn get_files_checked_refuses_a_file_without_a_name() {
    let listing = DirListing::Entries(vec![ListedEntry::Listed { path: None, is_dir: Some(false) }]);
    assert!(get_files_checked(&listing).is_none());
    let fine = DirListing::Entries(vec![ListedEntry::Listed { path: Some(s("/m/x.pdf")), is_dir: Some(false) }]);
    assert_eq!(get_files_checked(&fine).unwrap().unwrap()[0].f_extension, "pdf");
}

#[test]
fn move_plan_sends_files_to_their_type_folders() {
    let rules = sample_rules();
    let dir = Directory::from(s("/tmp/media"), vec![]);
    let files = vec![
        File::new(s("/tmp/media/new_song.mp3")),
        File::new(s("/tmp/media/setup.exe")),
        File::new(s("/tmp/media/meeting_notes.txt")),
    ];
    let moves = move_plan(&rules, &dir, &files);
    assert_eq!(moves.len(), 2);
    assert_eq!(moves[0].source, "/tmp/media/new_song.mp3");
    assert_eq!(moves[0].destination, "/tmp/media/TYPE_0/new_song.mp3");
    assert_eq!(moves[1].destination, "/tmp/media/TYPE_1/meeting_notes.txt");
}

#[test]
fn dir_creation_plan_names_each_needed_folder_once() {
    let rules = sample_rules();
    let dir = Directory::from(s("/tmp/media"), vec![]);
    let files = vec![
        File::new(s("/tmp/media/a.mp3")),
        File::new(s("/tmp/media/b.wav")),
        File::new(s("/tmp/media/c.mp3")),
        File::new(s("/tmp/media/d.pdf")),
        File::new(s("/tmp/media/e.exe")),
    ];
    let supported = strings(&["mp3", "wav", "pdf", "zip"]);
    let dirs = dir_creation_plan(&rules, &dir, &files, &supported);
    assert_eq!(dirs, strings(&["/tmp/media/TYPE_0", "/tmp/media/TYPE_0", "/tmp/media/TYPE_2"]));
}

#[test]
fn event_directories_are_the_parents_of_the_paths() {
    let paths = strings(&["/tmp/media/a.mp3", "/", "/tmp/other/b.txt"]);
    let dirs = event_directories(&paths);
    assert_eq!(dirs.len(), 2);
    assert_eq!(dirs[0].d_path, "/tmp/media");
    assert_eq!(dirs[1].d_path, "/tmp/other");
    assert!(match_response_directories(false, &paths).is_empty());
    assert_eq!(match_response_directories(true, &paths).len(), 2);

    let mut all = DirectoryRules::new();
    all.insert(Directory::from(s("/tmp/other"), vec![]), sample_rules());
    let react = directories_to_react(&paths, &all);
    assert_eq!(react.len(), 1);
    assert_eq!(react[0].d_path, "/tmp/other");
}

#[test]
fn file_extension_of_paths() {
    assert_eq!(file_extension("/tmp/a/b.pdf"), Some(s("pdf")));
    assert_eq!(file_extension("/tmp/a/README"), None);
    assert_eq!(file_extension("/"), None);
}

#[test]
fn dirmon_config_event_handler() {
    let mut config = DirMonConfig::new();
    config.insert(s("/tmp/in/x.txt"), DirMonDirectory { w_dir: s("/tmp/old"), w_extns: strings(&["txt"]) });
    config.insert(s("/tmp/in/x.txt"), DirMonDirectory { w_dir: s("/tmp/docs"), w_extns: strings(&["txt"]) });
    assert_eq!(config.len(), 1);
    assert_eq!(config.dir_at(0).w_dir, "/tmp/docs");
    assert!(config.w_event_handler(false, &s("/tmp/in/x.txt")).is_none());
    let (ext, dir) = config.w_event_handler(true, &s("/tmp/in/x.txt")).unwrap();
    assert_eq!(ext, Some(s("txt")));
    assert_eq!(dir.unwrap().w_dir, "/tmp/docs");
    let (ext, dir) = config.w_event_handler(true, &s("/tmp/in/README")).unwrap();
    assert!(ext.is_none() && dir.is_none());
    assert!(config.get("/nowhere").is_none());
    let instance = DirMonInstance { w_dirmon_conf: config };
    assert_eq!(instance.w_dirmon_conf.len(), 1);
}

#[test]
fn dirmon_args_hold_the_config_location() {
    let args = DirmonArgs::new(s("/etc/dirmon.conf"));
    assert_eq!(args.get_config(), "/etc/dirmon.conf");
    assert_ne!(DirmonWatchMode::Recursive, DirmonWatchMode::NonRecursive);
}
