use fbuilder::filedb::{
    filedb_add, filedb_entries, filedb_find, filedb_find_entry, filedb_find_old, filedb_is_empty, filedb_load_whitelist, filedb_print,
    write_filedb_to_file_as_line, write_filedb_to_file_lines, FileDB, FileDbError, FileDbs,
};

#[test]
fn add_keeps_each_name_once_newest_first() {
    let mut dbs = FileDbs::new();
    assert_eq!(filedb_add(&mut dbs, 7, "a"), 7);
    filedb_add(&mut dbs, 7, "b");
    filedb_add(&mut dbs, 7, "a");
    filedb_add(&mut dbs, 7, "c");
    assert_eq!(write_filedb_to_file_as_line(&dbs, 7, ","), "c,b,a,\n");
    assert_eq!(write_filedb_to_file_lines(&dbs, 7, "x "), "x c\nx b\nx a\n");
}

#[test]
fn handles_are_separate() {
    let mut dbs = FileDbs::new();
    filedb_add(&mut dbs, 1, "one");
    filedb_add(&mut dbs, 2, "two");
    assert_eq!(write_filedb_to_file_as_line(&dbs, 1, ","), "one,\n");
    assert_eq!(write_filedb_to_file_as_line(&dbs, 2, ","), "two,\n");
    assert_eq!(filedb_is_empty(&dbs, 1), 0);
    assert_eq!(filedb_is_empty(&dbs, 3), 1);
}

#[test]
fn missing_database() {
    let dbs = FileDbs::new();
    assert_eq!(filedb_find(&dbs, 9, "x"), Ok(false));
    assert_eq!(write_filedb_to_file_as_line(&dbs, 9, ","), "\n");
    assert_eq!(write_filedb_to_file_lines(&dbs, 9, "p"), "");
    assert_eq!(filedb_is_empty(&dbs, 9), 1);
}

#[test]
fn find_reads_back_what_was_added() {
    let mut dbs = FileDbs::new();
    filedb_add(&mut dbs, 5, ".config/app");
    assert_eq!(filedb_find(&dbs, 5, ".config/app"), Ok(true));
    assert_eq!(filedb_find(&dbs, 5, ".config/other"), Ok(false));
    // adding twice changes nothing
    filedb_add(&mut dbs, 5, ".config/app");
    assert_eq!(write_filedb_to_file_as_line(&dbs, 5, ";"), ".config/app;\n");
}

#[test]
fn find_matches_globs() {
    let mut dbs = FileDbs::new();
    filedb_add(&mut dbs, 5, ".mutter-Xwaylandauth.*");
    assert_eq!(filedb_find(&dbs, 5, ".mutter-Xwaylandauth.ABC123"), Ok(true));
    assert_eq!(filedb_find(&dbs, 5, ".mutter-Xwaylandauth"), Ok(false));
    assert_eq!(filedb_find(&dbs, 5, "x.mutter-Xwaylandauth.1"), Ok(false));
}

#[test]
fn find_reports_invalid_patterns() {
    let mut dbs = FileDbs::new();
    filedb_add(&mut dbs, 5, "[abc");
    assert_eq!(filedb_find(&dbs, 5, "a"), Err(FileDbError::InvalidPattern));
    // a match met before the invalid pattern wins
    filedb_add(&mut dbs, 5, "a");
    assert_eq!(filedb_find(&dbs, 5, "a"), Ok(true));
}

#[test]
fn load_whitelist_takes_prefixed_lines() {
    let mut dbs = FileDbs::new();
    let lines = vec![
        "# comment".to_string(),
        "whitelist ${HOME}/.config/a".to_string(),
        "whitelist /tmp".to_string(),
        "whitelist ${HOME}/.b".to_string(),
    ];
    assert_eq!(filedb_load_whitelist(&mut dbs, 3, &lines, "whitelist ${HOME}/"), 3);
    assert_eq!(
        write_filedb_to_file_lines(&dbs, 3, ""),
        "whitelist ${HOME}/.b\nwhitelist ${HOME}/.config/a\n"
    );
}

#[test]
fn find_old_and_print() {
    let nodes = vec![
        FileDB { fname: "*.log".to_string(), len: 5 },
        FileDB { fname: "dir/".to_string(), len: 0 },
        FileDB { fname: "x".to_string(), len: 1 },
    ];
    assert_eq!(filedb_find_old(&nodes, "a.log"), Ok(Some(0)));
    assert_eq!(filedb_find_old(&nodes, "dir/"), Ok(Some(1)));
    // the parent directory test asks for the node's own name, longer than the
    // recorded length and ending in a slash; a name inside the directory is not it
    let dirs = vec![FileDB { fname: ".config".to_string(), len: 7 }];
    assert_eq!(filedb_find_old(&dirs, ".config/pulse"), Ok(None));
    assert_eq!(filedb_find_old(&dirs, ".config"), Ok(Some(0)));
    // a node whose name is a pattern that fails to match itself, found by the test
    let odd = vec![FileDB { fname: "[ab]/".to_string(), len: 1 }];
    assert_eq!(filedb_find_old(&odd, "[ab]/"), Ok(Some(0)));
    let odd_long = vec![FileDB { fname: "[ab]/".to_string(), len: 5 }];
    assert_eq!(filedb_find_old(&odd_long, "[ab]/"), Ok(None));
    assert_eq!(filedb_find_old(&nodes, "x"), Ok(Some(2)));
    assert_eq!(filedb_find_old(&nodes, "y"), Ok(None));
    let bad = vec![FileDB { fname: "{a".to_string(), len: 2 }];
    assert_eq!(filedb_find_old(&bad, "a"), Err(FileDbError::InvalidPattern));
    assert_eq!(filedb_print(&nodes, "p "), vec!["p *.log", "p dir/", "p x"]);
}

#[test]
fn find_only_through_patterns() {
    let mut dbs = FileDbs::new();
    filedb_add(&mut dbs, 4, ".config");
    assert_eq!(filedb_find(&dbs, 4, ".config/pulse"), Ok(false));
    assert_eq!(filedb_find_entry(&dbs, 4, ".config/pulse"), Ok(None));
    filedb_add(&mut dbs, 4, "[ab]/");
    assert_eq!(filedb_find(&dbs, 4, "[ab]/"), Ok(false));
    assert_eq!(filedb_find(&dbs, 4, "a/"), Ok(true));
    assert_eq!(filedb_find_entry(&dbs, 4, ".config"), Ok(Some((".config".to_string(), true))));
    assert_eq!(filedb_find(&dbs, 4, ".conf"), Ok(false));
    assert_eq!(filedb_find_entry(&dbs, 5, ".config"), Ok(None));
}

#[test]
fn entries_newest_first() {
    let mut dbs = FileDbs::new();
    assert_eq!(filedb_entries(&dbs, 1), None);
    filedb_add(&mut dbs, 1, "a");
    filedb_add(&mut dbs, 1, "b");
    assert_eq!(filedb_entries(&dbs, 1), Some(vec!["b".to_string(), "a".to_string()]));
}

#[test]
fn never_empty_again() {
    let mut dbs = FileDbs::new();
    filedb_add(&mut dbs, 2, "x");
    assert_eq!(filedb_is_empty(&dbs, 2), 0);
    filedb_add(&mut dbs, 2, "x");
    filedb_add(&mut dbs, 3, "y");
    filedb_load_whitelist(&mut dbs, 2, &vec!["p z".to_string()], "p ");
    assert_eq!(filedb_is_empty(&dbs, 2), 0);
    assert_eq!(filedb_entries(&dbs, 2), Some(vec!["p z".to_string(), "x".to_string()]));
}
