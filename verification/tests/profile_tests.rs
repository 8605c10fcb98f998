use fbuilder::bin::{bin_trace_match, build_bin, process_bin, BIN_OUT};
use fbuilder::etc::{build_etc, etc_entries, etc_trace_match};
use fbuilder::filedb::{filedb_add, write_filedb_to_file_as_line, write_filedb_to_file_lines, FileDbError, FileDbs};
use fbuilder::home::{build_home, home_trace_match, process_home, DB_OUT, DB_SKIP};
use fbuilder::trace::{parse_action, Action};

fn act(syscall: &str, path: &str) -> Action {
    Action {
        id_x: 1,
        bin_name: "prog".to_string(),
        syscall: syscall.to_string(),
        file_path: path.to_string(),
        val: None,
    }
}

#[test]
fn bin_matcher() {
    assert!(bin_trace_match(&act("exec", "/usr/bin/top")));
    assert!(bin_trace_match(&act("exec", "/usr/local/games/x")));
    assert!(!bin_trace_match(&act("open", "/usr/bin/top")));
    assert!(!bin_trace_match(&act("exec", "/opt/bin/top")));
    assert!(!bin_trace_match(&act("exec", "/usr/bin/strace")));
    assert!(!bin_trace_match(&act("exec", "/usr/bin/firejail")));
}

#[test]
fn etc_matcher() {
    assert!(etc_trace_match(&act("open", "/etc/passwd")));
    assert!(etc_trace_match(&act("connect", "/etc/hosts")));
    assert!(!etc_trace_match(&act("exec", "/etc/passwd")));
    assert!(!etc_trace_match(&act("open", "/etc/firejail/x.profile")));
    assert!(!etc_trace_match(&act("open", "/usr/etc/x")));
}

#[test]
fn home_matcher() {
    assert!(home_trace_match(&act("open", "/home/u/doc.txt")));
    assert!(!home_trace_match(&act("exec", "/home/u/doc.txt")));
    assert!(!home_trace_match(&act("open", "/home/u/.bashrc")));
    assert!(!home_trace_match(&act("open", "/home/u/.config/pulse/x")));
    assert!(!home_trace_match(&act("open", "/home/.local/x")));
    assert!(!home_trace_match(&act("open", "/home/.cache")));
    assert!(home_trace_match(&act("open", "/home/.cache/.cache/x")));
}

#[test]
fn bin_section() {
    let mut dbs = FileDbs::new();
    let actions = vec![
        act("exec", "/usr/bin/top"),
        act("open", "/etc/passwd"),
        act("exec", "/bin/sh"),
        act("exec", "/usr/bin/top"),
        act("exec", "/usr/bin/strace"),
    ];
    assert_eq!(build_bin(&mut dbs, &actions), "private-bin sh,top,\n\n");
    let mut empty = FileDbs::new();
    assert_eq!(build_bin(&mut empty, &vec![act("open", "/etc/x")]), "");
}

#[test]
fn process_bin_records_names() {
    let mut dbs = FileDbs::new();
    let actions = vec![parse_action("4:top:exec /usr/bin/top:0x0".to_string()).unwrap()];
    process_bin(&mut dbs, &actions, BIN_OUT);
    assert_eq!(write_filedb_to_file_as_line(&dbs, BIN_OUT, ","), "top,\n");
}

#[test]
fn etc_section() {
    let actions = vec![
        act("open", "/etc/passwd"),
        act("open", "/etc/ssl/certs/a.pem"),
        act("exec", "/etc/nope"),
        act("open", "/etc/passwd"),
    ];
    assert_eq!(etc_entries(&actions), vec!["passwd", "ssl", "passwd"]);
    assert_eq!(build_etc(&actions), "private-etc passwd,ssl,passwd,\n");
    assert_eq!(build_etc(&vec![act("open", "/tmp/x")]), "private-etc none\n");
}

#[test]
fn process_home_skips_covered_names() {
    let mut dbs = FileDbs::new();
    filedb_add(&mut dbs, 11, ".config/skip");
    let actions = vec![
        act("open", "/home/u/.config/skip"),
        act("open", "/home/u/.config/skip/inner"),
        act("open", "/home/u/docs/a.txt"),
        act("open", "/home/other/file"),
        act("open", "/home/u/docs/a.txt"),
    ];
    assert_eq!(
        process_home(&mut dbs, &actions, "/home/u", 12, 11),
        Ok(vec![
            "/home/u/.config/skip/inner".to_string(),
            "/home/u/docs/a.txt".to_string(),
            "/home/u/docs/a.txt".to_string(),
        ])
    );
    assert_eq!(write_filedb_to_file_lines(&dbs, 12, ""), "docs/a.txt\n.config/skip/inner\n");
}

#[test]
fn process_home_reports_invalid_patterns() {
    let mut dbs = FileDbs::new();
    filedb_add(&mut dbs, 11, "[bad");
    let actions = vec![act("open", "/home/u/x")];
    assert_eq!(process_home(&mut dbs, &actions, "/home/u", 12, 11), Err(FileDbError::InvalidPattern));
}

#[test]
fn home_section() {
    let mut dbs = FileDbs::new();
    let whitelist = vec![
        "whitelist ${HOME}/.config/covered".to_string(),
        "blacklist ${HOME}/x".to_string(),
    ];
    let actions = vec![
        act("open", "/home/u/.config/covered"),
        act("open", "/home/u/notes.txt"),
    ];
    let (out, added) = build_home(&mut dbs, &whitelist, "/home/u", &actions).unwrap();
    assert_eq!(added, vec!["/home/u/.config/covered".to_string(), "/home/u/notes.txt".to_string()]);
    // the whole whitelist line is what gets stored, prefix included, so a
    // home-relative name is not covered by it
    assert_eq!(
        out,
        "whitelist ${HOME}/notes.txt\nwhitelist ${HOME}/.config/covered\ninclude whitelist-common.inc\n"
    );
    assert_eq!(write_filedb_to_file_as_line(&dbs, DB_SKIP, ","), "whitelist ${HOME}/.config/covered,\n");
    let mut fresh = FileDbs::new();
    let (none, nothing) = build_home(&mut fresh, &whitelist, "/home/u", &vec![act("open", "/tmp/x")]).unwrap();
    assert!(nothing.is_empty());
    assert_eq!(none, "private\n");
    assert_eq!(write_filedb_to_file_as_line(&fresh, DB_OUT, ","), "\n");
}
