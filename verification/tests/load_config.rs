use dirmon::components::reactor::directories_to_react;
use dirmon::helpers::config::{build_config, config_file_location, default_config_template, load_config, IniEntry, IniSection};

fn config(text: &str) -> Option<String> {
    Some(String::from(text))
}

#[test]
fn test_load_config_multiple_rules_all_present() {
    let (dirs, dir_map, _) = load_config(config(
        "[/tmp/media/]\n\
         TYPE_0 = mp3,wav\n\
         TYPE_1 = mov,mp4\n\
         TYPE_2 = txt,pdf\n",
    ))
    .expect("expected valid config");

    let rules = dir_map.get(&dirs[0]).unwrap();
    assert_eq!(rules.len(), 3);
    assert!(rules.contains_key("TYPE_0"));
    assert!(rules.contains_key("TYPE_1"));
    assert!(rules.contains_key("TYPE_2"));
}

#[test]
fn test_load_config_multiple_directories() {
    let (dirs, dir_map, _) = load_config(config(
        "[/tmp/dir_a/]\n\
         DOCS = pdf,txt\n\
         \n\
         [/tmp/dir_b/]\n\
         IMAGES = png,jpg\n",
    ))
    .expect("expected valid config");

    assert_eq!(dirs.len(), 2, "should monitor 2 directories");

    for d in &dirs {
        assert!(dir_map.contains_key(d), "every dir should have a map entry");
    }
}

#[test]
fn test_load_config_missing_file_returns_none() {
    // the file could not be read, so there is no text to parse
    let result = load_config(None);
    assert!(result.is_none(), "missing config file should return None");
}

#[test]
fn test_load_config_empty_file() {
    if let Some((dirs, dir_map, flat_map)) = load_config(config("")) {
        assert!(dirs.is_empty());
        assert!(dir_map.is_empty());
        assert!(flat_map.is_empty());
    }
}

#[test]
fn test_load_config_only_comments_are_not_parsed_as_dirs() {
    if let Some((dirs, _, _)) = load_config(config(
        "# [/desired/path/here/]\n\
         # TYPE_0 = mp3,wav\n\
         # TYPE_1 = mov,mp4\n",
    )) {
        assert!(dirs.is_empty(), "commented-out dirs should not be monitored");
    }
}

#[test]
fn test_load_config_flat_map_reflects_last_directory_rules() {
    // The third return value accumulates the rules of every section.
    let (_, _, flat_map) = load_config(config(
        "[/tmp/dir_a/]\n\
         AUDIO = mp3\n\
         \n\
         [/tmp/dir_b/]\n\
         VIDEO = mp4\n",
    ))
    .expect("expected valid config");

    println!("{:?}", flat_map);
    assert!(!flat_map.is_empty());

    assert!(flat_map.contains_key("VIDEO"));
    assert!(flat_map.contains_key("AUDIO"));
}

#[test]
fn load_config_splits_extensions_at_commas() {
    let (dirs, dir_map, flat_map) = load_config(config("[/srv/in]\nMEDIA = mp3,wav,,ogg\nEMPTY\n")).unwrap();
    assert_eq!(dirs.len(), 1);
    assert_eq!(dirs[0].d_path, "/srv/in");
    assert!(dirs[0].d_files.is_empty());
    let rules = dir_map.get(&dirs[0]).unwrap();
    let media = rules.get("MEDIA").unwrap();
    assert_eq!(media, &vec![String::from("mp3"), String::from("wav"), String::new(), String::from("ogg")]);
    // a key without a value gives no rule
    assert!(!rules.contains_key("EMPTY"));
    assert_eq!(flat_map.len(), 1);
}

#[test]
fn load_config_keys_before_a_section_go_to_the_default_section() {
    let (dirs, dir_map, _) = load_config(config("DOCS = pdf\n")).unwrap();
    assert_eq!(dirs.len(), 1);
    assert_eq!(dirs[0].d_path, "default");
    assert!(dir_map.get(&dirs[0]).unwrap().contains_key("DOCS"));
}

#[test]
fn load_config_refuses_an_unclosed_section() {
    assert!(load_config(config("[/tmp/broken\nA = b\n")).is_none());
}

#[test]
fn load_config_directory_rules_accumulate_in_order() {
    let (dirs, dir_map, flat_map) = load_config(config("[/a]\nX = 1\n[/b]\nY = 2\n")).unwrap();
    assert_eq!(dirs.len(), 2);
    // whichever section came first, the later one also holds the earlier rules
    let first = dir_map.get(&dirs[0]).unwrap();
    let second = dir_map.get(&dirs[1]).unwrap();
    assert_eq!(first.len(), 1);
    assert_eq!(second.len(), 2);
    assert_eq!(flat_map.keys(), vec![String::from("X"), String::from("Y")]);
}

#[test]
fn build_config_gathers_rules_in_section_order() {
    let sections = vec![
        IniSection {
            name: String::from("/a"),
            entries: vec![
                IniEntry { key: String::from("X"), value: Some(String::from("mp3,wav")) },
                IniEntry { key: String::from("SKIPPED"), value: None },
            ],
        },
        IniSection {
            name: String::from("/b"),
            entries: vec![IniEntry { key: String::from("Y"), value: Some(String::from("pdf")) }],
        },
        IniSection {
            name: String::from("/c"),
            entries: vec![IniEntry { key: String::from("X"), value: Some(String::from("ogg")) }],
        },
    ];
    let (dirs, dir_map, flat_map) = build_config(&sections);
    assert_eq!(dirs.len(), 3);
    assert_eq!(dirs[0].d_path, "/a");
    assert_eq!(dirs[2].d_path, "/c");
    assert_eq!(dir_map.get(&dirs[0]).unwrap().keys(), vec![String::from("X")]);
    assert_eq!(dir_map.get(&dirs[1]).unwrap().keys(), vec![String::from("X"), String::from("Y")]);
    assert_eq!(dir_map.get(&dirs[0]).unwrap().get("X").unwrap(), &vec![String::from("mp3"), String::from("wav")]);
    // a later section replaces the extensions of a type it names again
    assert_eq!(dir_map.get(&dirs[2]).unwrap().get("X").unwrap(), &vec![String::from("ogg")]);
    assert_eq!(flat_map.get("X").unwrap(), &vec![String::from("ogg")]);
    assert_eq!(flat_map.len(), 2);
}

#[test]
fn config_file_location_is_under_the_config_directory() {
    assert_eq!(
        config_file_location(Some(String::from("/home/u/.config"))),
        Some(String::from("/home/u/.config/dirmon/dirmon.conf"))
    );
    assert_eq!(config_file_location(None), None);
}

#[test]
fn readme_configuration_reacts_to_events_in_its_directory() {
    let (dirs, dir_map, _) = load_config(config(
        "[/desired/path/here/]\n\nTYPE_0 = mp3,wav\nTYPE_1 = mov,mp4\nTYPE_2 = txt,pdf\n",
    ))
    .unwrap();
    assert_eq!(dirs[0].d_path, "/desired/path/here/");
    let paths = vec![String::from("/desired/path/here/new_song.mp3")];
    let react = directories_to_react(&paths, &dir_map);
    assert_eq!(react.len(), 1);
    let rules = dir_map.get(&react[0]).unwrap();
    assert_eq!(rules.len(), 3);
}

#[test]
fn default_config_template_monitors_no_directory() {
    let template = default_config_template();
    assert!(template.starts_with("# [/desired/path/here/]"));
    let (dirs, dir_map, flat_map) = load_config(Some(template)).unwrap();
    assert!(dirs.is_empty());
    assert!(dir_map.is_empty());
    assert!(flat_map.is_empty());
    let (dirs, _, _) = load_config(config("  ; note\n\t# other\r\n\n")).unwrap();
    assert!(dirs.is_empty());
}
