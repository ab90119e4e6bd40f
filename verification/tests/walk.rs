use smve_asset_pack::config::{CompressionOptions, Configuration, DirectoryConfiguration};
use smve_asset_pack::walk::{decide_ignored, get_dir_config, get_ignore, get_ignore_with_extra, glob_matches, IgnoreMatch, Walk};
use IgnoreMatch::{Ignore, Nothing, Whitelist};

#[test]
fn deepest_ignore_with_a_say_decides() {
    assert!(!decide_ignored(&vec![]));
    assert!(!decide_ignored(&vec![Nothing, Nothing]));
    assert!(decide_ignored(&vec![Nothing, Ignore, Whitelist]));
    assert!(!decide_ignored(&vec![Whitelist, Ignore]));
}

#[test]
fn special_files_and_symlinks_are_skipped() {
    let walk = Walk::new(0, None, None);
    assert!(walk.skip_entry(Some("x.txt"), "root/x.txt", true, false));
    assert!(walk.skip_entry(Some("__config__.toml"), "root/__config__.toml", false, false));
    assert!(walk.skip_entry(Some("a.png.__config__.toml"), "root/a.png.__config__.toml", false, false));
    assert!(walk.skip_entry(Some("__ignore__"), "root/__ignore__", false, false));
    assert!(!walk.skip_entry(Some("x.txt"), "root/x.txt", false, false));
    assert!(!walk.skip_entry(None, "root/x.txt", false, false));
}

#[test]
fn ignore_files_ignore_entries() {
    let mut builder = ignore::gitignore::GitignoreBuilder::new("root");
    builder.add_line(None, "*.tmp").unwrap();
    let ignore = get_ignore(Some(builder));
    assert!(ignore.is_some());
    let walk = Walk::new(0, ignore, None);
    assert!(walk.skip_entry(Some("a.tmp"), "root/a.tmp", false, false));
    assert!(!walk.skip_entry(Some("a.txt"), "root/a.txt", false, false));
    assert!(get_ignore(None).is_none());
}

#[test]
fn walk_reads_directories_depth_first_and_restores_state() {
    let mut walk = Walk::new(7, None, None);
    assert_eq!(walk.next_read(), Some(7));
    let mut sub = DirectoryConfiguration::empty();
    sub.dir_config.as_mut().unwrap().compression = Some(CompressionOptions { enabled: Some(true), level: Some(9) });
    walk.enter_dir(8, None, Some(sub));
    assert_eq!(walk.next_read(), Some(8));
    let inside = walk.entry_config("root/sub/a.bin", None);
    assert_eq!(inside.compression.unwrap().level, Some(9));
    walk.finish_dir();
    assert_eq!(walk.next_read(), Some(7));
    let outside = walk.entry_config("root/b.bin", None);
    assert_eq!(outside.compression.unwrap().level, Some(4));
    walk.finish_dir();
    assert_eq!(walk.next_read(), None);
}

#[test]
fn glob_configurations_apply_first_match_first() {
    let mut dir = DirectoryConfiguration::default();
    let mut first = Configuration::empty();
    first.compression = Some(CompressionOptions { enabled: Some(true), level: None });
    let mut second = Configuration::empty();
    second.compression = Some(CompressionOptions { enabled: Some(false), level: Some(7) });
    dir.glob_configs.push(("*.txt".to_string(), first));
    dir.glob_configs.push(("*".to_string(), second));
    let placed = get_dir_config(Some(dir), Some("root")).unwrap();
    let globs: Vec<&str> = placed.glob_configs.iter().map(|(g, _)| g.as_str()).collect();
    assert_eq!(globs, vec!["root/*.txt", "root/*"]);
    let walk = Walk::new(0, None, Some(placed));
    let c = walk.entry_config("root/a.txt", None).compression.unwrap();
    assert_eq!(c.enabled, Some(true));
    assert_eq!(c.level, Some(7));
    let c = walk.entry_config("root/a.bin", None).compression.unwrap();
    assert_eq!(c.enabled, Some(false));
    let mut own = Configuration::empty();
    own.compression = Some(CompressionOptions { enabled: None, level: Some(1) });
    let c = walk.entry_config("root/a.txt", Some(own)).compression.unwrap();
    assert_eq!(c.level, Some(1));
    assert_eq!(c.enabled, Some(true));
}

#[test]
fn glob_matching() {
    assert!(glob_matches("root/*.txt", "root/a.txt"));
    assert!(!glob_matches("root/*.txt", "root/a.bin"));
    assert!(!glob_matches("root/[", "root/["));
}

#[test]
fn directory_config_without_utf8_path_drops_globs() {
    let mut dir = DirectoryConfiguration::default();
    dir.glob_configs.push(("*".to_string(), Configuration::empty()));
    let placed = get_dir_config(Some(dir), None).unwrap();
    assert!(placed.glob_configs.is_empty());
    assert!(get_dir_config(None, Some("x")).is_none());
}

#[test]
fn matchers_without_patterns_ignore_nothing() {
    assert!(get_ignore(None).is_none());
    let empty = ignore::gitignore::GitignoreBuilder::new("root");
    let ignore = get_ignore(Some(empty)).expect("a builder without patterns builds");
    assert!(ignore.is_empty());
    let builder = ignore::gitignore::GitignoreBuilder::new("root");
    let with_extra = get_ignore_with_extra(Some(builder), &["*.tmp"]).expect("the pattern builds");
    assert_eq!(with_extra.len(), 1);
    let walk = Walk::new(0, Some(ignore), None);
    assert!(!walk.skip_entry(Some("a.txt"), "root/a.txt", false, false));
    assert!(walk.skip_entry(Some("a.txt"), "root/a.txt", true, false));
}
