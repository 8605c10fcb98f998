//! The home-directory whitelist: the files under the user's home that a traced run
//! opened, less those the common whitelist already covers.
use vstd::prelude::*;
use vstd::string::StringExecFns;
use vstd::utf8::{decode_utf8, encode_utf8, encode_utf8_decode_utf8, is_char_boundary};
use crate::filedb::{
    entries_of, keeps_names, lemma_add_contents, lemma_keeps_names_transitive,
    filedb_add, filedb_find, filedb_is_empty, filedb_load_whitelist, lines_with_prefix, names_of,
    spec_add, spec_add_all, spec_find, spec_has_entries, spec_lines, write_filedb_to_file_lines,
    FileDbError, FileDbs,
};
use crate::text::{chars_of, contains, ends_with, occurs_at, seq_contains, seq_ends_with, seq_starts_with, starts_with, str_eq};
use crate::trace::{actions_view, Action, ActionView};

verus! {

/// The handle of the database of names the common whitelist already covers.
pub const DB_SKIP: usize = 0x0301;

/// The handle of the database that collects the home entries to whitelist.
pub const DB_OUT: usize = 0x0302;

/// An opening call on a path under `/home`, other than shell, X and sound settings
/// files, flatpak data, and configuration or cache directories directly under
/// `/home` (a cache path passes when it holds `.cache/` further on).
pub open spec fn spec_home_trace_match(a: ActionView) -> bool {
    let p = a.file_path;
    &&& {
        ||| a.syscall == "access"@
        ||| a.syscall == "fopen"@
        ||| a.syscall == "fopen64"@
        ||| a.syscall == "open64"@
        ||| a.syscall == "open"@
        ||| a.syscall == "opendir"@
    }
    &&& seq_starts_with(p, "/home"@)
    &&& !seq_ends_with(p, ".Xauthority"@)
    &&& !seq_ends_with(p, ".Xdefaults-debian"@)
    &&& !seq_ends_with(p, ".bash_hist"@)
    &&& !seq_ends_with(p, ".bashrc"@)
    &&& !seq_contains(p, ".config/pulse/"@)
    &&& !seq_contains(p, ".pulse/"@)
    &&& !seq_contains(p, ".local/share/flatpak"@)
    &&& !seq_starts_with(p, "/home/.config"@)
    &&& !seq_starts_with(p, "/home/.local"@)
    &&& !seq_starts_with(p, "/home/.local/share"@)
    &&& (!seq_starts_with(p, "/home/.cache"@) || seq_contains(p, ".cache/"@))
}

/// Whether `action` is an access that belongs in the home whitelist.
pub fn home_trace_match(action: &Action) -> (b: bool)
    ensures
        b == spec_home_trace_match(action@),
{
    let s = action.syscall.as_str();
    let opening = str_eq(s, "access") || str_eq(s, "fopen") || str_eq(s, "fopen64") || str_eq(
        s,
        "open64",
    ) || str_eq(s, "open") || str_eq(s, "opendir");
    if !opening {
        return false;
    }
    let p = chars_of(action.file_path.as_str());
    starts_with(&p, &chars_of("/home")) && !ends_with(&p, &chars_of(".Xauthority")) && !ends_with(
        &p,
        &chars_of(".Xdefaults-debian"),
    ) && !ends_with(&p, &chars_of(".bash_hist")) && !ends_with(&p, &chars_of(".bashrc"))
        && !contains(&p, &chars_of(".config/pulse/")) && !contains(&p, &chars_of(".pulse/"))
        && !contains(&p, &chars_of(".local/share/flatpak")) && !starts_with(
        &p,
        &chars_of("/home/.config"),
    ) && !starts_with(&p, &chars_of("/home/.local")) && !starts_with(
        &p,
        &chars_of("/home/.local/share"),
    ) && (!starts_with(&p, &chars_of("/home/.cache")) || contains(&p, &chars_of(".cache/")))
}

/// The byte offset just past the home directory and the slash after it.
pub open spec fn rel_offset(home: Seq<char>) -> int {
    encode_utf8(home).len() + 1int
}

/// `path` can be cut at [`rel_offset`]: that offset ends a character of it.
pub open spec fn can_cut_home(path: Seq<char>, home: Seq<char>) -> bool {
    &&& rel_offset(home) <= usize::MAX
    &&& is_char_boundary(encode_utf8(path), rel_offset(home))
}

/// What follows the home directory and its slash in `path`, cut by bytes.
pub open spec fn relative_to_home(path: Seq<char>, home: Seq<char>) -> Seq<char> {
    decode_utf8(encode_utf8(path).subrange(rel_offset(home), encode_utf8(path).len() as int))
}

/// Every matching action's path can be cut after the home directory.
pub open spec fn home_paths_cuttable(actions: Seq<ActionView>, home: Seq<char>) -> bool {
    forall|i: int|
        0 <= i < actions.len() && spec_home_trace_match(#[trigger] actions[i]) ==> can_cut_home(
            actions[i].file_path,
            home,
        )
}

/// The databases after the matching `actions` are taken in order, with the paths
/// of the actions whose entries were added: each path is cut after the home
/// directory, looked up in `skip`, and added under `out` when it is not found there
/// and lies under the home directory. `Err(())` when a lookup meets an invalid
/// pattern.
pub open spec fn spec_process_home(
    m: Map<usize, Seq<Seq<char>>>,
    actions: Seq<ActionView>,
    home: Seq<char>,
    out: usize,
    skip: usize,
) -> Result<(Map<usize, Seq<Seq<char>>>, Seq<Seq<char>>), ()>
    decreases actions.len(),
{
    if actions.len() == 0 {
        Ok((m, Seq::empty()))
    } else {
        match spec_process_home(m, actions.drop_last(), home, out, skip) {
            Err(()) => Err(()),
            Ok((m1, added)) => {
                let a = actions.last();
                if !spec_home_trace_match(a) {
                    Ok((m1, added))
                } else {
                    let rel = relative_to_home(a.file_path, home);
                    match spec_find(m1, skip, rel) {
                        Err(()) => Err(()),
                        Ok(found) => if !found && seq_starts_with(a.file_path, home) {
                            Ok((spec_add(m1, out, rel), added.push(a.file_path)))
                        } else {
                            Ok((m1, added))
                        },
                    }
                }
            },
        }
    }
}

/// The views of some strings.
pub open spec fn strings_view(v: Seq<String>) -> Seq<Seq<char>> {
    v.map_values(|s: String| s@)
}

/// Adds under `db_out` the home-relative path of each matching action that lies
/// under `home_dir_path` and that no pattern under `db_skip` covers. Returns the
/// paths whose entries were added, in order.
pub fn process_home(
    dbs: &mut FileDbs,
    actions: &Vec<Action>,
    home_dir_path: &str,
    db_out: usize,
    db_skip: usize,
) -> (r: Result<Vec<String>, FileDbError>)
    requires
        home_paths_cuttable(actions_view(actions@), home_dir_path@),
    ensures
        r matches Ok(added) ==> spec_process_home(old(dbs)@, actions_view(actions@), home_dir_path@, db_out, db_skip)
            == Ok::<(Map<usize, Seq<Seq<char>>>, Seq<Seq<char>>), ()>((final(dbs)@, strings_view(added@))),
        r is Err ==> spec_process_home(old(dbs)@, actions_view(actions@), home_dir_path@, db_out, db_skip) is Err
            && r == Err::<Vec<String>, FileDbError>(FileDbError::InvalidPattern),
        keeps_names(old(dbs)@, final(dbs)@),
{
    let ghost m0 = dbs@;
    let ghost all = actions_view(actions@);
    let home = chars_of(home_dir_path);
    let mut added: Vec<String> = Vec::new();
    let mut i: usize = 0;
    assert(all.take(0) =~= Seq::<ActionView>::empty());
    assert(strings_view(added@) =~= Seq::<Seq<char>>::empty());
    while i < actions.len()
        invariant
            all == actions_view(actions@),
            home_paths_cuttable(all, home_dir_path@),
            home@ == home_dir_path@,
            m0 == old(dbs)@,
            keeps_names(m0, dbs@),
            i <= all.len(),
            spec_process_home(m0, all.take(i as int), home_dir_path@, db_out, db_skip)
                == Ok::<(Map<usize, Seq<Seq<char>>>, Seq<Seq<char>>), ()>((dbs@, strings_view(added@))),
        decreases all.len() - i,
    {
        assert(all.take(i + 1).drop_last() =~= all.take(i as int));
        assert(all.take(i + 1).last() == all[i as int]);
        let a = &actions[i];
        if home_trace_match(a) {
            assert(spec_home_trace_match(all[i as int]));
            let path = a.file_path.as_str();
            let offset = home_dir_path.len() + 1;
            let (_, rel) = path.split_at(offset);
            proof {
                encode_utf8_decode_utf8(rel@);
            }
            assert(rel@ == relative_to_home(a.file_path@, home_dir_path@));
            let found = match filedb_find(dbs, db_skip, rel) {
                Ok(b) => b,
                Err(e) => {
                    assert(spec_process_home(m0, all.take(i + 1), home_dir_path@, db_out, db_skip) is Err);
                    assert(spec_process_home(m0, all, home_dir_path@, db_out, db_skip) is Err) by {
                        lemma_process_home_err_extends(m0, all, home_dir_path@, db_out, db_skip, i + 1);
                    }
                    assert(e == FileDbError::InvalidPattern);
                    return Err(e);
                },
            };
            let p = chars_of(path);
            if !found && starts_with(&p, &home) {
                let ghost prev = dbs@;
                filedb_add(dbs, db_out, rel);
                proof {
                    lemma_keeps_names_transitive(m0, prev, dbs@);
                }
                let ghost before = added@;
                added.push(a.file_path.clone());
                assert(strings_view(added@) =~= strings_view(before).push(a.file_path@));
            }
        }
        i = i + 1;
    }
    assert(all.take(i as int) =~= all);
    Ok(added)
}

/// Once a prefix of the actions fails, so does the whole.
proof fn lemma_process_home_err_extends(
    m: Map<usize, Seq<Seq<char>>>,
    actions: Seq<ActionView>,
    home: Seq<char>,
    out: usize,
    skip: usize,
    k: int,
)
    requires
        0 <= k <= actions.len(),
        spec_process_home(m, actions.take(k), home, out, skip) is Err,
    ensures
        spec_process_home(m, actions, home, out, skip) is Err,
    decreases actions.len() - k,
{
    if k == actions.len() {
        assert(actions.take(k) =~= actions);
    } else {
        assert(actions.take(k + 1).drop_last() =~= actions.take(k));
        lemma_process_home_err_extends(m, actions, home, out, skip, k + 1);
    }
}

/// The home filter leaves out the shell, X and sound settings files and flatpak
/// data wherever they lie, the configuration and data directories directly under
/// `/home`, and every path outside `/home`.
pub proof fn lemma_home_filter_skips(a: ActionView)
    ensures
        seq_ends_with(a.file_path, ".Xauthority"@) ==> !spec_home_trace_match(a),
        seq_ends_with(a.file_path, ".Xdefaults-debian"@) ==> !spec_home_trace_match(a),
        seq_ends_with(a.file_path, ".bash_hist"@) ==> !spec_home_trace_match(a),
        seq_ends_with(a.file_path, ".bashrc"@) ==> !spec_home_trace_match(a),
        seq_contains(a.file_path, ".config/pulse/"@) ==> !spec_home_trace_match(a),
        seq_contains(a.file_path, ".pulse/"@) ==> !spec_home_trace_match(a),
        seq_contains(a.file_path, ".local/share/flatpak"@) ==> !spec_home_trace_match(a),
        seq_starts_with(a.file_path, "/home/.config"@) ==> !spec_home_trace_match(a),
        seq_starts_with(a.file_path, "/home/.local"@) ==> !spec_home_trace_match(a),
        !seq_starts_with(a.file_path, "/home"@) ==> !spec_home_trace_match(a),
{
}

/// The home filter takes only opening calls (not `connect`, which the etc filter
/// takes, nor an `exec`), and a path under the cache directory directly under
/// `/home` only when it holds `.cache/` further on.
pub proof fn lemma_home_filter_calls(a: ActionView)
    ensures
        a.syscall != "access"@ && a.syscall != "fopen"@ && a.syscall != "fopen64"@ && a.syscall != "open64"@
            && a.syscall != "open"@ && a.syscall != "opendir"@ ==> !spec_home_trace_match(a),
        a.syscall == "connect"@ ==> !spec_home_trace_match(a),
        a.syscall == "exec"@ ==> !spec_home_trace_match(a),
        seq_starts_with(a.file_path, "/home/.cache"@) && !seq_contains(a.file_path, ".cache/"@)
            ==> !spec_home_trace_match(a),
{
    reveal_strlit("exec");
    reveal_strlit("connect");
    reveal_strlit("access");
    reveal_strlit("fopen");
    reveal_strlit("fopen64");
    reveal_strlit("open64");
    reveal_strlit("open");
    reveal_strlit("opendir");
    if a.syscall == "connect"@ {
        assert(a.syscall[0] == 'c');
    }
    if a.syscall == "exec"@ {
        assert(a.syscall[0] == 'e');
    }
}

/// The home filter keeps an opening call on a path under `/home` that holds no
/// dot: every path it leaves out under `/home` names a dotted file or directory.
pub proof fn lemma_home_filter_keeps_plain_paths(a: ActionView)
    requires
        a.syscall == "access"@ || a.syscall == "fopen"@ || a.syscall == "fopen64"@ || a.syscall == "open64"@
            || a.syscall == "open"@ || a.syscall == "opendir"@,
        seq_starts_with(a.file_path, "/home"@),
        !a.file_path.contains('.'),
    ensures
        spec_home_trace_match(a),
{
    let p = a.file_path;
    reveal_strlit(".Xauthority");
    reveal_strlit(".Xdefaults-debian");
    reveal_strlit(".bash_hist");
    reveal_strlit(".bashrc");
    reveal_strlit(".config/pulse/");
    reveal_strlit(".pulse/");
    reveal_strlit(".local/share/flatpak");
    reveal_strlit("/home/.config");
    reveal_strlit("/home/.local");
    reveal_strlit("/home/.local/share");
    reveal_strlit("/home/.cache");
    reveal_strlit("/home");
    assert forall|t: Seq<char>| t.len() > 0 && t[0] == '.' && seq_ends_with(p, t) implies false by {
        assert(p[p.len() - t.len()] == t[0]);
    }
    assert forall|t: Seq<char>, i: int| t.len() > 0 && t[0] == '.' && occurs_at(p, t, i) implies false by {
        assert(p[i] == t[0]);
    }
    assert forall|t: Seq<char>| t.len() > 6 && t[6] == '.' && seq_starts_with(p, t) implies false by {
        assert(p[6] == t[6]);
    }
    assert(!seq_ends_with(p, ".Xauthority"@));
    assert(!seq_ends_with(p, ".Xdefaults-debian"@));
    assert(!seq_ends_with(p, ".bash_hist"@));
    assert(!seq_ends_with(p, ".bashrc"@));
    assert(!seq_contains(p, ".config/pulse/"@));
    assert(!seq_contains(p, ".pulse/"@));
    assert(!seq_contains(p, ".local/share/flatpak"@));
    assert(!seq_starts_with(p, "/home/.config"@));
    assert(!seq_starts_with(p, "/home/.local"@));
    assert(!seq_starts_with(p, "/home/.local/share"@));
    assert(!seq_starts_with(p, "/home/.cache"@));
}

/// A run changes no database but the one under `out`.
pub proof fn lemma_home_keeps_other_databases(
    m: Map<usize, Seq<Seq<char>>>,
    actions: Seq<ActionView>,
    home: Seq<char>,
    out: usize,
    skip: usize,
    k: usize,
)
    requires
        spec_process_home(m, actions, home, out, skip) is Ok,
        k != out,
    ensures
        spec_process_home(m, actions, home, out, skip)->Ok_0.0.contains_key(k) == m.contains_key(k),
        m.contains_key(k) ==> spec_process_home(m, actions, home, out, skip)->Ok_0.0[k] == m[k],
    decreases actions.len(),
{
    if actions.len() > 0 {
        lemma_home_keeps_other_databases(m, actions.drop_last(), home, out, skip, k);
    }
}

/// Each path that a run reports as added is the path of a matching action (the
/// one at the index returned) that lies under the home directory and, when the
/// skip and output databases differ, whose home-relative name no pattern under
/// `skip` covers.
pub proof fn lemma_home_added_from_matches(
    m: Map<usize, Seq<Seq<char>>>,
    actions: Seq<ActionView>,
    home: Seq<char>,
    out: usize,
    skip: usize,
    i: int,
) -> (j: int)
    requires
        spec_process_home(m, actions, home, out, skip) is Ok,
        0 <= i < spec_process_home(m, actions, home, out, skip)->Ok_0.1.len(),
    ensures
        0 <= j < actions.len(),
        spec_home_trace_match(actions[j]),
        actions[j].file_path == spec_process_home(m, actions, home, out, skip)->Ok_0.1[i],
        seq_starts_with(actions[j].file_path, home),
        out != skip ==> spec_find(m, skip, relative_to_home(actions[j].file_path, home)) == Ok::<bool, ()>(false),
    decreases actions.len(),
{
    let prev = actions.drop_last();
    let a = actions.last();
    let added = spec_process_home(m, actions, home, out, skip)->Ok_0.1;
    let added1 = spec_process_home(m, prev, home, out, skip)->Ok_0.1;
    if i < added1.len() {
        let j = lemma_home_added_from_matches(m, prev, home, out, skip, i);
        assert(added[i] == added1[i]);
        assert(actions[j] == prev[j]);
        j
    } else {
        assert(added[i] == a.file_path);
        if out != skip {
            lemma_home_keeps_other_databases(m, prev, home, out, skip, skip);
        }
        actions.len() - 1
    }
}

/// Each name held under `out` after a run was held there before or is the
/// home-relative path of a matching action.
proof fn lemma_home_out_from_matches(
    m: Map<usize, Seq<Seq<char>>>,
    actions: Seq<ActionView>,
    home: Seq<char>,
    out: usize,
    skip: usize,
    x: Seq<char>,
)
    requires
        spec_process_home(m, actions, home, out, skip) is Ok,
        entries_of(spec_process_home(m, actions, home, out, skip)->Ok_0.0, out).contains(x),
        !entries_of(m, out).contains(x),
    ensures
        exists|j: int|
            0 <= j < actions.len() && spec_home_trace_match(#[trigger] actions[j]) && x == relative_to_home(
                actions[j].file_path,
                home,
            ),
    decreases actions.len(),
{
    let prev = actions.drop_last();
    let a = actions.last();
    let m2 = spec_process_home(m, actions, home, out, skip)->Ok_0.0;
    let m1 = spec_process_home(m, prev, home, out, skip)->Ok_0.0;
    let rel = relative_to_home(a.file_path, home);
    if m2 != m1 {
        assert(m2 == spec_add(m1, out, rel));
        lemma_add_contents(m1, out, rel, out, x);
    }
    if entries_of(m1, out).contains(x) {
        lemma_home_out_from_matches(m, prev, home, out, skip, x);
        let j = choose|j: int|
            0 <= j < prev.len() && spec_home_trace_match(#[trigger] prev[j]) && x == relative_to_home(
                prev[j].file_path,
                home,
            );
        assert(actions[j] == prev[j]);
    } else {
        assert(x == rel);
        assert(actions[actions.len() - 1] == a);
    }
}

/// Only matching actions reach the home whitelist: no path reported as added is a
/// settings file such as `.Xauthority` (each is the path of a matching action, see
/// [`lemma_home_added_from_matches`]), and each name held under `out` afterwards was
/// held there before or is the home-relative path of a matching action.
pub proof fn lemma_home_entries_come_from_matches(
    m: Map<usize, Seq<Seq<char>>>,
    actions: Seq<ActionView>,
    home: Seq<char>,
    out: usize,
    skip: usize,
)
    ensures
        spec_process_home(m, actions, home, out, skip) matches Ok((m2, added)) ==> {
            &&& forall|i: int| 0 <= i < added.len() ==> !seq_ends_with(#[trigger] added[i], ".Xauthority"@)
            &&& forall|x: Seq<char>| #[trigger] entries_of(m2, out).contains(x) ==> entries_of(m, out).contains(x)
                || exists|j: int|
                0 <= j < actions.len() && spec_home_trace_match(#[trigger] actions[j]) && x == relative_to_home(
                    actions[j].file_path,
                    home,
                )
        },
{
    if let Ok((m2, added)) = spec_process_home(m, actions, home, out, skip) {
        assert forall|i: int| 0 <= i < added.len() implies !seq_ends_with(#[trigger] added[i], ".Xauthority"@) by {
            let j = lemma_home_added_from_matches(m, actions, home, out, skip, i);
            lemma_home_filter_skips(actions[j]);
        }
        assert forall|x: Seq<char>| #[trigger] entries_of(m2, out).contains(x) implies entries_of(m, out).contains(x)
            || exists|j: int|
            0 <= j < actions.len() && spec_home_trace_match(#[trigger] actions[j]) && x == relative_to_home(
                actions[j].file_path,
                home,
            ) by {
            if !entries_of(m, out).contains(x) {
                lemma_home_out_from_matches(m, actions, home, out, skip, x);
            }
        }
    }
}

/// The prefix of the whitelist lines that name home entries.
pub open spec fn home_whitelist_prefix() -> Seq<char> {
    "whitelist ${HOME}/"@
}

/// The databases once the common whitelist `lines` are loaded under [`DB_SKIP`].
pub open spec fn spec_load_common(m: Map<usize, Seq<Seq<char>>>, lines: Seq<Seq<char>>) -> Map<
    usize,
    Seq<Seq<char>>,
> {
    spec_add_all(m, DB_SKIP, lines_with_prefix(lines, home_whitelist_prefix()))
}

/// The home section for the databases `m`: a whitelist line per collected entry and
/// the common include when there are any, `private` otherwise.
pub open spec fn spec_home_section(m: Map<usize, Seq<Seq<char>>>) -> Seq<char> {
    if spec_has_entries(m, DB_OUT) {
        spec_lines(m, DB_OUT, home_whitelist_prefix()) + "include whitelist-common.inc\n"@
    } else {
        "private\n"@
    }
}

/// Loads the common whitelist, collects the home entries that `actions` opened, and
/// writes the home section. Returns the section and the paths whose entries were
/// added, in order.
pub fn build_home(
    dbs: &mut FileDbs,
    whitelist_lines: &Vec<String>,
    home_dir: &str,
    actions: &Vec<Action>,
) -> (r: Result<(String, Vec<String>), FileDbError>)
    requires
        home_paths_cuttable(actions_view(actions@), home_dir@),
    ensures
        keeps_names(old(dbs)@, final(dbs)@),
        ({
            let m1 = spec_load_common(old(dbs)@, names_of(*whitelist_lines));
            match spec_process_home(m1, actions_view(actions@), home_dir@, DB_OUT, DB_SKIP) {
                Ok((m2, paths)) => final(dbs)@ == m2 && (r matches Ok((out, added)) && out@
                    == spec_home_section(m2) && strings_view(added@) == paths),
                Err(()) => r == Err::<(String, Vec<String>), FileDbError>(FileDbError::InvalidPattern),
            }
        }),
{
    let ghost m0 = dbs@;
    let prefix = "whitelist ${HOME}/";
    filedb_load_whitelist(dbs, DB_SKIP, whitelist_lines, prefix);
    let ghost m1 = dbs@;
    let r = process_home(dbs, actions, home_dir, DB_OUT, DB_SKIP);
    proof {
        lemma_keeps_names_transitive(m0, m1, dbs@);
    }
    let added = match r {
        Ok(added) => added,
        Err(e) => return Err(e),
    };
    if filedb_is_empty(dbs, DB_OUT) == 0 {
        let mut out = write_filedb_to_file_lines(dbs, DB_OUT, prefix);
        out.append("include whitelist-common.inc\n");
        Ok((out, added))
    } else {
        Ok((String::from_str("private\n"), added))
    }
}

} // verus!
