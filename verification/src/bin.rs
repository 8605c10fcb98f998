//! The `private-bin` section: the programs a traced run executed.
use vstd::prelude::*;
use crate::filedb::{
    entries_of, filedb_add, filedb_is_empty, join_with_suffix, keeps_names, lemma_add_all_contents,
    lemma_join_with_suffix_holds, lemma_keeps_names_transitive, spec_add_all, spec_as_line, spec_has_entries,
    write_filedb_to_file_as_line, FileDbs,
};
use crate::paths::{
    file_name, is_plain_name, lemma_ends_with_slash_name, lemma_file_name_after_slash, spec_file_name,
};
use crate::text::{
    chars_of, ends_with, lemma_contains_in_middle, seq_contains, seq_ends_with, seq_starts_with, starts_with, str_eq,
};
use crate::trace::{actions_view, Action, ActionView};

verus! {

/// The handle of the database that collects program names.
pub const BIN_OUT: usize = 0x0201;

/// An `exec` of a program under one of the usual binary directories, other than
/// `strace` and `firejail` themselves.
pub open spec fn spec_bin_trace_match(a: ActionView) -> bool {
    &&& a.syscall == "exec"@
    &&& {
        ||| seq_starts_with(a.file_path, "/bin/"@)
        ||| seq_starts_with(a.file_path, "/sbin/"@)
        ||| seq_starts_with(a.file_path, "/usr/bin/"@)
        ||| seq_starts_with(a.file_path, "/usr/sbin/"@)
        ||| seq_starts_with(a.file_path, "/usr/local/bin/"@)
        ||| seq_starts_with(a.file_path, "/usr/local/sbin/"@)
        ||| seq_starts_with(a.file_path, "/usr/games/"@)
        ||| seq_starts_with(a.file_path, "/usr/local/games/"@)
    }
    &&& !seq_ends_with(a.file_path, "/strace"@)
    &&& !seq_ends_with(a.file_path, "/firejail"@)
}

/// Whether `action` is an execution that belongs in `private-bin`.
pub fn bin_trace_match(action: &Action) -> (b: bool)
    ensures
        b == spec_bin_trace_match(action@),
{
    if !str_eq(action.syscall.as_str(), "exec") {
        return false;
    }
    let p = chars_of(action.file_path.as_str());
    let in_dir = starts_with(&p, &chars_of("/bin/")) || starts_with(&p, &chars_of("/sbin/"))
        || starts_with(&p, &chars_of("/usr/bin/")) || starts_with(&p, &chars_of("/usr/sbin/"))
        || starts_with(&p, &chars_of("/usr/local/bin/")) || starts_with(
        &p,
        &chars_of("/usr/local/sbin/"),
    ) || starts_with(&p, &chars_of("/usr/games/")) || starts_with(
        &p,
        &chars_of("/usr/local/games/"),
    );
    in_dir && !ends_with(&p, &chars_of("/strace")) && !ends_with(&p, &chars_of("/firejail"))
}

/// Every matching action has a file name to record.
pub open spec fn bin_names_defined(actions: Seq<ActionView>) -> bool {
    forall|i: int|
        0 <= i < actions.len() && spec_bin_trace_match(#[trigger] actions[i])
            ==> spec_file_name(actions[i].file_path) is Some
}

/// The file names of the matching actions, in order.
pub open spec fn bin_names(actions: Seq<ActionView>) -> Seq<Seq<char>>
    decreases actions.len(),
{
    if actions.len() == 0 {
        Seq::empty()
    } else if spec_bin_trace_match(actions.last()) {
        bin_names(actions.drop_last()).push(spec_file_name(actions.last().file_path).unwrap())
    } else {
        bin_names(actions.drop_last())
    }
}

/// Adds under `bin_out` the file name of each executed program, in order.
pub fn process_bin(dbs: &mut FileDbs, actions: &Vec<Action>, bin_out: usize)
    requires
        bin_names_defined(actions_view(actions@)),
    ensures
        final(dbs)@ == spec_add_all(old(dbs)@, bin_out, bin_names(actions_view(actions@))),
        keeps_names(old(dbs)@, final(dbs)@),
{
    let ghost m0 = dbs@;
    let ghost all = actions_view(actions@);
    let mut i: usize = 0;
    assert(all.take(0) =~= Seq::<ActionView>::empty());
    while i < actions.len()
        invariant
            all == actions_view(actions@),
            bin_names_defined(all),
            i <= all.len(),
            dbs@ == spec_add_all(m0, bin_out, bin_names(all.take(i as int))),
            keeps_names(m0, dbs@),
        decreases all.len() - i,
    {
        let ghost before = bin_names(all.take(i as int));
        assert(all.take(i + 1).drop_last() =~= all.take(i as int));
        assert(all.take(i + 1).last() == all[i as int]);
        let a = &actions[i];
        if bin_trace_match(a) {
            assert(spec_bin_trace_match(all[i as int]));
            match file_name(a.file_path.as_str()) {
                Some(name) => {
                    let ghost prev = dbs@;
                    filedb_add(dbs, bin_out, name);
                    proof {
                        lemma_keeps_names_transitive(m0, prev, dbs@);
                    }
                    assert(before.push(name@).drop_last() =~= before);
                },
                None => {
                    assert(false);
                },
            }
        }
        i = i + 1;
    }
    assert(all.take(i as int) =~= all);
}

/// The `private-bin` section for the databases `m`: the line of program names when
/// there are any, nothing otherwise.
pub open spec fn spec_bin_section(m: Map<usize, Seq<Seq<char>>>) -> Seq<char> {
    if spec_has_entries(m, BIN_OUT) {
        "private-bin "@ + spec_as_line(m, BIN_OUT, ","@) + "\n"@
    } else {
        Seq::empty()
    }
}

/// Records the programs that `actions` executed under [`BIN_OUT`] and writes the
/// `private-bin` section of the result.
pub fn build_bin(dbs: &mut FileDbs, actions: &Vec<Action>) -> (out: String)
    requires
        bin_names_defined(actions_view(actions@)),
    ensures
        final(dbs)@ == spec_add_all(old(dbs)@, BIN_OUT, bin_names(actions_view(actions@))),
        keeps_names(old(dbs)@, final(dbs)@),
        out@ == spec_bin_section(final(dbs)@),
{
    process_bin(dbs, actions, BIN_OUT);
    let mut out = String::new();
    if filedb_is_empty(dbs, BIN_OUT) == 0 {
        out.append("private-bin ");
        let line = write_filedb_to_file_as_line(dbs, BIN_OUT, ",");
        out.append(line.as_str());
        out.append("\n");
    }
    out
}

/// An `exec` of a program under any of the usual binary directories is matched by
/// the bin filter, unless the program is `strace` or `firejail`.
pub proof fn lemma_bin_dirs_match(a: ActionView)
    requires
        a.syscall == "exec"@,
        !seq_ends_with(a.file_path, "/strace"@),
        !seq_ends_with(a.file_path, "/firejail"@),
    ensures
        seq_starts_with(a.file_path, "/bin/"@) ==> spec_bin_trace_match(a),
        seq_starts_with(a.file_path, "/sbin/"@) ==> spec_bin_trace_match(a),
        seq_starts_with(a.file_path, "/usr/bin/"@) ==> spec_bin_trace_match(a),
        seq_starts_with(a.file_path, "/usr/sbin/"@) ==> spec_bin_trace_match(a),
        seq_starts_with(a.file_path, "/usr/local/bin/"@) ==> spec_bin_trace_match(a),
        seq_starts_with(a.file_path, "/usr/local/sbin/"@) ==> spec_bin_trace_match(a),
        seq_starts_with(a.file_path, "/usr/games/"@) ==> spec_bin_trace_match(a),
        seq_starts_with(a.file_path, "/usr/local/games/"@) ==> spec_bin_trace_match(a),
{
}

/// The bin filter takes nothing but an `exec`, of a program under one of the usual
/// binary directories, other than `strace` and `firejail`.
pub proof fn lemma_bin_filter_skips(a: ActionView)
    ensures
        a.syscall != "exec"@ ==> !spec_bin_trace_match(a),
        seq_ends_with(a.file_path, "/strace"@) ==> !spec_bin_trace_match(a),
        seq_ends_with(a.file_path, "/firejail"@) ==> !spec_bin_trace_match(a),
        !seq_starts_with(a.file_path, "/bin/"@) && !seq_starts_with(a.file_path, "/sbin/"@) && !seq_starts_with(
            a.file_path,
            "/usr/bin/"@,
        ) && !seq_starts_with(a.file_path, "/usr/sbin/"@) && !seq_starts_with(a.file_path, "/usr/local/bin/"@)
            && !seq_starts_with(a.file_path, "/usr/local/sbin/"@) && !seq_starts_with(a.file_path, "/usr/games/"@)
            && !seq_starts_with(a.file_path, "/usr/local/games/"@) ==> !spec_bin_trace_match(a),
{
}

/// The recorded names are exactly the file names of the matching actions.
pub proof fn lemma_bin_names_contents(actions: Seq<ActionView>, n: Seq<char>)
    requires
        bin_names_defined(actions),
    ensures
        bin_names(actions).contains(n) <==> exists|j: int|
            0 <= j < actions.len() && spec_bin_trace_match(#[trigger] actions[j]) && spec_file_name(
                actions[j].file_path,
            ) == Some(n),
    decreases actions.len(),
{
    if actions.len() > 0 {
        let prev = actions.drop_last();
        let a = actions.last();
        assert forall|i: int| 0 <= i < prev.len() && spec_bin_trace_match(#[trigger] prev[i]) implies spec_file_name(
            prev[i].file_path,
        ) is Some by {
            assert(actions[i] == prev[i]);
        }
        lemma_bin_names_contents(prev, n);
        let names = bin_names(prev);
        if exists|j: int|
            0 <= j < actions.len() && spec_bin_trace_match(#[trigger] actions[j]) && spec_file_name(
                actions[j].file_path,
            ) == Some(n) {
            let j = choose|j: int|
                0 <= j < actions.len() && spec_bin_trace_match(#[trigger] actions[j]) && spec_file_name(
                    actions[j].file_path,
                ) == Some(n);
            if j < actions.len() - 1 {
                assert(prev[j] == actions[j]);
                assert(names.contains(n));
                if spec_bin_trace_match(a) {
                    let k = choose|k: int| 0 <= k < names.len() && names[k] == n;
                    assert(bin_names(actions)[k] == n);
                }
            } else {
                assert(bin_names(actions)[names.len() as int] == n);
            }
        }
        if bin_names(actions).contains(n) {
            if names.contains(n) {
                let j = choose|j: int|
                    0 <= j < prev.len() && spec_bin_trace_match(#[trigger] prev[j]) && spec_file_name(
                        prev[j].file_path,
                    ) == Some(n);
                assert(actions[j] == prev[j]);
            } else {
                let k = choose|k: int| 0 <= k < bin_names(actions).len() && bin_names(actions)[k] == n;
                assert(k == names.len());
                assert(actions[actions.len() - 1] == a);
                assert(spec_file_name(a.file_path) is Some);
            }
        }
    }
}

/// After [`build_bin`], the file name of every matching action is held under
/// [`BIN_OUT`], every name held there was held before or is such a file name, and
/// the `private-bin` line is written.
pub proof fn lemma_bin_records_matches(m: Map<usize, Seq<Seq<char>>>, actions: Seq<ActionView>, n: Seq<char>)
    requires
        bin_names_defined(actions),
    ensures
        entries_of(spec_add_all(m, BIN_OUT, bin_names(actions)), BIN_OUT).contains(n) <==> entries_of(
            m,
            BIN_OUT,
        ).contains(n) || exists|j: int|
            0 <= j < actions.len() && spec_bin_trace_match(#[trigger] actions[j]) && spec_file_name(
                actions[j].file_path,
            ) == Some(n),
        (exists|j: int| 0 <= j < actions.len() && spec_bin_trace_match(#[trigger] actions[j]))
            ==> spec_bin_section(spec_add_all(m, BIN_OUT, bin_names(actions))) == "private-bin "@ + spec_as_line(
            spec_add_all(m, BIN_OUT, bin_names(actions)),
            BIN_OUT,
            ","@,
        ) + "\n"@,
{
    lemma_add_all_contents(m, BIN_OUT, bin_names(actions), BIN_OUT, n);
    lemma_bin_names_contents(actions, n);
    if exists|j: int| 0 <= j < actions.len() && spec_bin_trace_match(#[trigger] actions[j]) {
        let j = choose|j: int| 0 <= j < actions.len() && spec_bin_trace_match(#[trigger] actions[j]);
        let x = spec_file_name(actions[j].file_path).unwrap();
        lemma_bin_names_contents(actions, x);
        lemma_add_all_contents(m, BIN_OUT, bin_names(actions), BIN_OUT, x);
        let m2 = spec_add_all(m, BIN_OUT, bin_names(actions));
        assert(entries_of(m2, BIN_OUT).contains(x));
        assert(spec_has_entries(m2, BIN_OUT));
    }
}

/// The file name of every matching action is written on the `private-bin` line,
/// followed by its comma.
pub proof fn lemma_bin_section_lists_matches(m: Map<usize, Seq<Seq<char>>>, actions: Seq<ActionView>, j: int)
    requires
        bin_names_defined(actions),
        0 <= j < actions.len(),
        spec_bin_trace_match(actions[j]),
    ensures
        seq_contains(
            spec_bin_section(spec_add_all(m, BIN_OUT, bin_names(actions))),
            spec_file_name(actions[j].file_path).unwrap() + ","@,
        ),
{
    let x = spec_file_name(actions[j].file_path).unwrap();
    let m2 = spec_add_all(m, BIN_OUT, bin_names(actions));
    lemma_bin_names_contents(actions, x);
    lemma_add_all_contents(m, BIN_OUT, bin_names(actions), BIN_OUT, x);
    assert(entries_of(m2, BIN_OUT).contains(x));
    let joined = join_with_suffix(m2[BIN_OUT], ","@);
    lemma_join_with_suffix_holds(m2[BIN_OUT], ","@, x);
    lemma_contains_in_middle("private-bin "@, joined, "\n"@ + "\n"@, x + ","@);
    assert(spec_bin_section(m2) =~= "private-bin "@ + joined + ("\n"@ + "\n"@));
}

/// An `exec` of a program with a plain name, other than `strace` and `firejail`,
/// directly under one of the usual binary directories is recorded under that name
/// (`/usr/local/bin/node` as `node`).
pub proof fn lemma_bin_records_program_name(a: ActionView, dir: Seq<char>, n: Seq<char>)
    requires
        a.syscall == "exec"@,
        dir == "/bin/"@ || dir == "/sbin/"@ || dir == "/usr/bin/"@ || dir == "/usr/sbin/"@ || dir
            == "/usr/local/bin/"@ || dir == "/usr/local/sbin/"@ || dir == "/usr/games/"@ || dir
            == "/usr/local/games/"@,
        is_plain_name(n),
        n != "strace"@,
        n != "firejail"@,
        a.file_path == dir + n,
    ensures
        spec_bin_trace_match(a),
        bin_names(seq![a]) == seq![n],
{
    reveal_strlit("/bin/");
    reveal_strlit("/sbin/");
    reveal_strlit("/usr/bin/");
    reveal_strlit("/usr/sbin/");
    reveal_strlit("/usr/local/bin/");
    reveal_strlit("/usr/local/sbin/");
    reveal_strlit("/usr/games/");
    reveal_strlit("/usr/local/games/");
    reveal_strlit("/strace");
    reveal_strlit("strace");
    reveal_strlit("/firejail");
    reveal_strlit("firejail");
    assert(dir.len() > 0 && dir.last() == '/');
    assert(a.file_path.subrange(0, dir.len() as int) =~= dir);
    assert("/strace"@ =~= seq!['/'] + "strace"@);
    assert("/firejail"@ =~= seq!['/'] + "firejail"@);
    assert(!"strace"@.contains('/'));
    assert(!"firejail"@.contains('/'));
    lemma_ends_with_slash_name(dir, n, "strace"@);
    lemma_ends_with_slash_name(dir, n, "firejail"@);
    assert(dir =~= dir.drop_last() + seq!['/']);
    lemma_file_name_after_slash(dir.drop_last(), n);
    assert(seq![a].drop_last() =~= Seq::<ActionView>::empty());
    assert(bin_names(Seq::<ActionView>::empty()) =~= Seq::<Seq<char>>::empty());
}

} // verus!
