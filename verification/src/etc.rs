//! The `private-etc` section: the entries of `/etc` that a traced run opened.
use vstd::prelude::*;
use crate::filedb::{join_with_suffix, lemma_join_with_suffix_holds};
use crate::paths::{is_plain_name, lemma_third_component, nth_component, spec_nth_component};
use crate::text::{chars_of, lemma_contains_in_middle, seq_contains, seq_starts_with, starts_with, str_eq};
use crate::trace::{actions_view, Action, ActionView};

verus! {

/// An opening call (`access`, `fopen`, `fopen64`, `open64`, `open`, `opendir` or
/// `connect`) on a path under `/etc`, other than firejail's own configuration.
pub open spec fn spec_etc_trace_match(a: ActionView) -> bool {
    &&& {
        ||| a.syscall == "access"@
        ||| a.syscall == "fopen"@
        ||| a.syscall == "fopen64"@
        ||| a.syscall == "open64"@
        ||| a.syscall == "open"@
        ||| a.syscall == "opendir"@
        ||| a.syscall == "connect"@
    }
    &&& seq_starts_with(a.file_path, "/etc"@)
    &&& !seq_starts_with(a.file_path, "/etc/firejail"@)
}

/// Whether `action` is an access that belongs in `private-etc`.
pub fn etc_trace_match(action: &Action) -> (b: bool)
    ensures
        b == spec_etc_trace_match(action@),
{
    let s = action.syscall.as_str();
    let opening = str_eq(s, "access") || str_eq(s, "fopen") || str_eq(s, "fopen64") || str_eq(
        s,
        "open64",
    ) || str_eq(s, "open") || str_eq(s, "opendir") || str_eq(s, "connect");
    if !opening {
        return false;
    }
    let p = chars_of(action.file_path.as_str());
    starts_with(&p, &chars_of("/etc")) && !starts_with(&p, &chars_of("/etc/firejail"))
}

/// Every matching action has a component after `/etc` (its third component).
pub open spec fn etc_names_defined(actions: Seq<ActionView>) -> bool {
    forall|i: int|
        0 <= i < actions.len() && spec_etc_trace_match(#[trigger] actions[i])
            ==> spec_nth_component(actions[i].file_path, 2) is Some
}

/// The entry under `/etc` of each matching action, in order, repeats included.
pub open spec fn etc_names(actions: Seq<ActionView>) -> Seq<Seq<char>>
    decreases actions.len(),
{
    if actions.len() == 0 {
        Seq::empty()
    } else if spec_etc_trace_match(actions.last()) {
        etc_names(actions.drop_last()).push(spec_nth_component(actions.last().file_path, 2).unwrap())
    } else {
        etc_names(actions.drop_last())
    }
}

/// The entries under `/etc` that `actions` opened, in order.
pub fn etc_entries(actions: &Vec<Action>) -> (v: Vec<String>)
    requires
        etc_names_defined(actions_view(actions@)),
    ensures
        v@.len() == etc_names(actions_view(actions@)).len(),
        forall|i: int| 0 <= i < v@.len() ==> (#[trigger] v@[i])@ == etc_names(actions_view(actions@))[i],
{
    let ghost all = actions_view(actions@);
    let mut v: Vec<String> = Vec::new();
    let mut i: usize = 0;
    assert(all.take(0) =~= Seq::<ActionView>::empty());
    while i < actions.len()
        invariant
            all == actions_view(actions@),
            etc_names_defined(all),
            i <= all.len(),
            v@.len() == etc_names(all.take(i as int)).len(),
            forall|j: int| 0 <= j < v@.len() ==> (#[trigger] v@[j])@ == etc_names(all.take(i as int))[j],
        decreases all.len() - i,
    {
        assert(all.take(i + 1).drop_last() =~= all.take(i as int));
        assert(all.take(i + 1).last() == all[i as int]);
        let a = &actions[i];
        if etc_trace_match(a) {
            assert(spec_etc_trace_match(all[i as int]));
            match nth_component(a.file_path.as_str(), 2) {
                Some(name) => v.push(name),
                None => {
                    assert(false);
                },
            }
        }
        i = i + 1;
    }
    assert(all.take(i as int) =~= all);
    v
}

/// The `private-etc` section: `none` when no entry was opened, else each entry
/// followed by a comma, on one line.
pub open spec fn spec_etc_section(names: Seq<Seq<char>>) -> Seq<char> {
    if names.len() == 0 {
        "private-etc "@ + "none\n"@
    } else {
        "private-etc "@ + join_with_suffix(names, ","@) + "\n"@
    }
}

/// Writes the `private-etc` section for the accesses in `actions`.
pub fn build_etc(actions: &Vec<Action>) -> (out: String)
    requires
        etc_names_defined(actions_view(actions@)),
    ensures
        out@ == spec_etc_section(etc_names(actions_view(actions@))),
{
    let v = etc_entries(actions);
    let ghost names = etc_names(actions_view(actions@));
    let mut out = String::new();
    out.append("private-etc ");
    if v.len() == 0 {
        out.append("none\n");
    } else {
        let mut i: usize = 0;
        let ghost head = out@;
        assert(names.take(0) =~= Seq::<Seq<char>>::empty());
        while i < v.len()
            invariant
                v@.len() == names.len(),
                forall|j: int| 0 <= j < v@.len() ==> (#[trigger] v@[j])@ == names[j],
                i <= v@.len(),
                out@ == head + join_with_suffix(names.take(i as int), ","@),
            decreases v@.len() - i,
        {
            assert(names.take(i + 1).drop_last() =~= names.take(i as int));
            assert(names.take(i + 1).last() == v@[i as int]@);
            out.append(v[i].as_str());
            out.append(",");
            i = i + 1;
        }
        assert(names.take(i as int) =~= names);
        out.append("\n");
    }
    out
}

/// Each of the opening calls on a path under `/etc`, outside firejail's own
/// configuration, is matched by the etc filter.
pub proof fn lemma_etc_opening_calls_match(a: ActionView)
    requires
        seq_starts_with(a.file_path, "/etc"@),
        !seq_starts_with(a.file_path, "/etc/firejail"@),
    ensures
        a.syscall == "access"@ ==> spec_etc_trace_match(a),
        a.syscall == "fopen"@ ==> spec_etc_trace_match(a),
        a.syscall == "fopen64"@ ==> spec_etc_trace_match(a),
        a.syscall == "open64"@ ==> spec_etc_trace_match(a),
        a.syscall == "open"@ ==> spec_etc_trace_match(a),
        a.syscall == "opendir"@ ==> spec_etc_trace_match(a),
        a.syscall == "connect"@ ==> spec_etc_trace_match(a),
{
}

/// The etc filter takes nothing outside `/etc`, nothing of firejail's own
/// configuration, and no call but the opening ones (an `exec` in particular).
pub proof fn lemma_etc_filter_skips(a: ActionView)
    ensures
        !seq_starts_with(a.file_path, "/etc"@) ==> !spec_etc_trace_match(a),
        seq_starts_with(a.file_path, "/etc/firejail"@) ==> !spec_etc_trace_match(a),
        a.syscall != "access"@ && a.syscall != "fopen"@ && a.syscall != "fopen64"@ && a.syscall != "open64"@
            && a.syscall != "open"@ && a.syscall != "opendir"@ && a.syscall != "connect"@ ==> !spec_etc_trace_match(a),
        a.syscall == "exec"@ ==> !spec_etc_trace_match(a),
{
    reveal_strlit("exec");
    reveal_strlit("access");
    reveal_strlit("fopen");
    reveal_strlit("fopen64");
    reveal_strlit("open64");
    reveal_strlit("open");
    reveal_strlit("opendir");
    reveal_strlit("connect");
    if a.syscall == "exec"@ {
        assert(a.syscall[0] == 'e');
    }
}

/// The listed entries are exactly the third path components of the matching
/// actions.
pub proof fn lemma_etc_names_contents(actions: Seq<ActionView>, n: Seq<char>)
    requires
        etc_names_defined(actions),
    ensures
        etc_names(actions).contains(n) <==> exists|j: int|
            0 <= j < actions.len() && spec_etc_trace_match(#[trigger] actions[j]) && spec_nth_component(
                actions[j].file_path,
                2,
            ) == Some(n),
    decreases actions.len(),
{
    if actions.len() > 0 {
        let prev = actions.drop_last();
        let a = actions.last();
        assert forall|i: int| 0 <= i < prev.len() && spec_etc_trace_match(#[trigger] prev[i]) implies spec_nth_component(
            prev[i].file_path,
            2,
        ) is Some by {
            assert(actions[i] == prev[i]);
        }
        lemma_etc_names_contents(prev, n);
        let names = etc_names(prev);
        if exists|j: int|
            0 <= j < actions.len() && spec_etc_trace_match(#[trigger] actions[j]) && spec_nth_component(
                actions[j].file_path,
                2,
            ) == Some(n) {
            let j = choose|j: int|
                0 <= j < actions.len() && spec_etc_trace_match(#[trigger] actions[j]) && spec_nth_component(
                    actions[j].file_path,
                    2,
                ) == Some(n);
            if j < actions.len() - 1 {
                assert(prev[j] == actions[j]);
                assert(names.contains(n));
                if spec_etc_trace_match(a) {
                    let k = choose|k: int| 0 <= k < names.len() && names[k] == n;
                    assert(etc_names(actions)[k] == n);
                }
            } else {
                assert(etc_names(actions)[names.len() as int] == n);
            }
        }
        if etc_names(actions).contains(n) {
            if names.contains(n) {
                let j = choose|j: int|
                    0 <= j < prev.len() && spec_etc_trace_match(#[trigger] prev[j]) && spec_nth_component(
                        prev[j].file_path,
                        2,
                    ) == Some(n);
                assert(actions[j] == prev[j]);
            } else {
                let k = choose|k: int| 0 <= k < etc_names(actions).len() && etc_names(actions)[k] == n;
                assert(k == names.len());
                assert(actions[actions.len() - 1] == a);
                assert(spec_nth_component(a.file_path, 2) is Some);
            }
        }
    }
}

/// When some action is matched, the `private-etc` section lists the entries
/// instead of `none`.
pub proof fn lemma_etc_section_lists_matches(actions: Seq<ActionView>)
    requires
        etc_names_defined(actions),
        exists|j: int| 0 <= j < actions.len() && spec_etc_trace_match(#[trigger] actions[j]),
    ensures
        spec_etc_section(etc_names(actions)) == "private-etc "@ + join_with_suffix(etc_names(actions), ","@)
            + "\n"@,
{
    let j = choose|j: int| 0 <= j < actions.len() && spec_etc_trace_match(#[trigger] actions[j]);
    let x = spec_nth_component(actions[j].file_path, 2).unwrap();
    lemma_etc_names_contents(actions, x);
    assert(etc_names(actions).contains(x));
}

/// The third path component of every matching action is written on the
/// `private-etc` line, followed by its comma.
pub proof fn lemma_etc_section_names_match(actions: Seq<ActionView>, j: int)
    requires
        etc_names_defined(actions),
        0 <= j < actions.len(),
        spec_etc_trace_match(actions[j]),
    ensures
        seq_contains(spec_etc_section(etc_names(actions)), spec_nth_component(actions[j].file_path, 2).unwrap() + ","@),
{
    let x = spec_nth_component(actions[j].file_path, 2).unwrap();
    let names = etc_names(actions);
    lemma_etc_names_contents(actions, x);
    assert(names.contains(x));
    let joined = join_with_suffix(names, ","@);
    lemma_join_with_suffix_holds(names, ","@, x);
    lemma_contains_in_middle("private-etc "@, joined, "\n"@, x + ","@);
}

/// An opening call on `/etc/` followed by a plain name, alone or with more after a
/// slash, outside firejail's configuration, lists that name (`fopen` of
/// `/etc/passwd` lists `passwd`).
pub proof fn lemma_etc_lists_entry(a: ActionView, n: Seq<char>, tail: Seq<char>)
    requires
        a.syscall == "access"@ || a.syscall == "fopen"@ || a.syscall == "fopen64"@ || a.syscall == "open64"@
            || a.syscall == "open"@ || a.syscall == "opendir"@ || a.syscall == "connect"@,
        is_plain_name(n),
        tail.len() == 0 || tail[0] == '/',
        a.file_path == "/etc/"@ + n + tail,
        !seq_starts_with(a.file_path, "/etc/firejail"@),
    ensures
        spec_etc_trace_match(a),
        etc_names(seq![a]) == seq![n],
{
    reveal_strlit("/etc/");
    reveal_strlit("/etc");
    let d = seq!['e', 't', 'c'];
    assert("/etc/"@ =~= seq!['/'] + d + seq!['/']);
    assert(a.file_path =~= seq!['/'] + d + seq!['/'] + n + tail);
    assert(a.file_path.subrange(0, 4) =~= "/etc"@);
    assert(!d.contains('/')) by {
        assert(d[0] != '/' && d[1] != '/' && d[2] != '/');
    }
    assert(d != seq!['.']) by {
        assert(d.len() != 1);
    }
    assert(d != seq!['.', '.']) by {
        assert(d.len() != 2);
    }
    lemma_third_component(d, n, tail);
    assert(seq![a].drop_last() =~= Seq::<ActionView>::empty());
    assert(etc_names(Seq::<ActionView>::empty()) =~= Seq::<Seq<char>>::empty());
}

} // verus!
