//! File databases: named lists of file-name patterns, newest first, each name held
//! once, kept per handle; plus the linked-list form in which older callers hand
//! such a list over.
use std::collections::HashMap;
use vstd::prelude::*;
use vstd::string::StringExecFns;
use vstd::utf8::encode_utf8;
use crate::text::{chars_of, ends_with_slash, occurs_at, seq_contains, seq_ends_with, seq_starts_with, starts_with};

verus! {

broadcast use vstd::std_specs::hash::group_hash_axioms;

/// The error of `fnmatch_regex::glob_to_regex`, carried as it is.
#[verifier::external_type_specification]
#[verifier::external_body]
pub struct ExGlobError(fnmatch_regex::error::Error);

/// What `fnmatch_regex::glob_to_regex(pattern)` followed by `is_match(name)` on the
/// resulting regex gives: `None` when the pattern does not compile, else whether
/// `name` matches it.
pub uninterp spec fn glob_match_result(pattern: Seq<char>, name: Seq<char>) -> Option<bool>;

/// A pattern made only of characters that the glob syntax matches literally
/// (none of `?`, `*`, `[`, `\`, `{`).
pub open spec fn is_plain_glob(p: Seq<char>) -> bool {
    forall|i: int|
        0 <= i < p.len() ==> {
            let c = #[trigger] p[i];
            c != '?' && c != '*' && c != '[' && c != '\\' && c != '{'
        }
}

/// Compiles `pattern` with `fnmatch_regex::glob_to_regex` and matches `name` against
/// the anchored regex that comes out. The contract claims that the outcome is a
/// function of the two strings ([`glob_match_result`]), and, as the crate's
/// documentation and its conversion of plain characters (each escaped, between
/// `^` and `$`) show, that a pattern of plain characters which compiles matches
/// exactly itself. Whether such a pattern always compiles is left unsaid: the regex
/// crate refuses patterns over its size limit.
#[verifier::external_body]
fn glob_match(pattern: &str, name: &str) -> (r: Result<bool, fnmatch_regex::error::Error>)
    ensures
        match r {
            Ok(b) => glob_match_result(pattern@, name@) == Some(b),
            Err(_) => glob_match_result(pattern@, name@) is None,
        },
        is_plain_glob(pattern@) ==> (r matches Ok(b) ==> b == (pattern@ == name@)),
{
    match fnmatch_regex::glob_to_regex(pattern) {
        Ok(re) => Ok(re.is_match(name)),
        Err(e) => Err(e),
    }
}

/// Why a search of a file database failed.
#[derive(Debug, PartialEq, Eq, Structural)]
pub enum FileDbError {
    /// A stored pattern is not a valid glob.
    InvalidPattern,
}

/// The file databases, one list of names per handle.
pub struct FileDbs {
    dbs: HashMap<usize, Vec<String>>,
}

/// The names held in a list.
pub open spec fn names_of(v: Vec<String>) -> Seq<Seq<char>> {
    v@.map_values(|s: String| s@)
}

impl View for FileDbs {
    type V = Map<usize, Seq<Seq<char>>>;

    closed spec fn view(&self) -> Map<usize, Seq<Seq<char>>> {
        self.dbs@.map_values(|v: Vec<String>| names_of(v))
    }
}

/// The names under `h`; none when there is no database for `h`.
pub open spec fn entries_of(m: Map<usize, Seq<Seq<char>>>, h: usize) -> Seq<Seq<char>> {
    if m.contains_key(h) {
        m[h]
    } else {
        Seq::empty()
    }
}

/// Every name held in `m0`, under any handle, is still held in `m1`.
pub open spec fn keeps_names(m0: Map<usize, Seq<Seq<char>>>, m1: Map<usize, Seq<Seq<char>>>) -> bool {
    forall|k: usize, x: Seq<char>| #[trigger] entries_of(m0, k).contains(x) ==> entries_of(m1, k).contains(x)
}

/// A list with `n` added: unchanged when `n` is there already, else `n` in front.
pub open spec fn add_name(e: Seq<Seq<char>>, n: Seq<char>) -> Seq<Seq<char>> {
    if e.contains(n) {
        e
    } else {
        seq![n] + e
    }
}

/// The databases after `n` is added under `h` (which creates the database for `h`
/// when there is none).
pub open spec fn spec_add(m: Map<usize, Seq<Seq<char>>>, h: usize, n: Seq<char>) -> Map<
    usize,
    Seq<Seq<char>>,
> {
    m.insert(h, add_name(entries_of(m, h), n))
}

/// The databases after each of `names` is added under `h`, in order.
pub open spec fn spec_add_all(m: Map<usize, Seq<Seq<char>>>, h: usize, names: Seq<Seq<char>>) -> Map<
    usize,
    Seq<Seq<char>>,
>
    decreases names.len(),
{
    if names.len() == 0 {
        m
    } else {
        spec_add(spec_add_all(m, h, names.drop_last()), h, names.last())
    }
}

/// The "parent directory" test of a search, for an entry whose length is taken
/// as `len` bytes: `name` is longer than `len` bytes, ends in `/`, and equals
/// `entry`.
pub open spec fn parent_clause(entry: Seq<char>, len: usize, name: Seq<char>) -> bool {
    &&& (encode_utf8(name).len() as usize) > len
    &&& seq_ends_with(name, seq!['/'])
    &&& entry == name
}

/// The "parent directory" test of a database search, which takes the entry's own
/// byte length.
pub open spec fn entry_parent_clause(entry: Seq<char>, name: Seq<char>) -> bool {
    parent_clause(entry, encode_utf8(entry).len() as usize, name)
}

/// The entry that decides a search of `entries`, first to last: the first entry
/// whose pattern matches `name` (paired with `true`), or that passes the parent
/// directory test (paired with `false`, see [`entry_parent_clause`]); `Ok(None)` when
/// none does; `Err(())` when an entry whose pattern does not compile is met first.
pub open spec fn spec_find_entry_in(entries: Seq<Seq<char>>, name: Seq<char>) -> Result<Option<(Seq<char>, bool)>, ()>
    decreases entries.len(),
{
    if entries.len() == 0 {
        Ok(None)
    } else {
        match glob_match_result(entries[0], name) {
            None => Err(()),
            Some(true) => Ok(Some((entries[0], true))),
            Some(false) => if entry_parent_clause(entries[0], name) {
                Ok(Some((entries[0], false)))
            } else {
                spec_find_entry_in(entries.drop_first(), name)
            },
        }
    }
}

/// Whether a search of `entries` finds an entry for `name` (see [`spec_find_entry_in`]).
pub open spec fn spec_find_in(entries: Seq<Seq<char>>, name: Seq<char>) -> Result<bool, ()> {
    match spec_find_entry_in(entries, name) {
        Ok(found) => Ok(found is Some),
        Err(()) => Err(()),
    }
}

/// The entry that decides a search of the database under `h`; `Ok(None)` when
/// there is no database for `h`.
pub open spec fn spec_find_entry(m: Map<usize, Seq<Seq<char>>>, h: usize, name: Seq<char>) -> Result<
    Option<(Seq<char>, bool)>,
    (),
> {
    if m.contains_key(h) {
        spec_find_entry_in(m[h], name)
    } else {
        Ok(None)
    }
}

/// A search of the database under `h`; `Ok(false)` when there is none.
pub open spec fn spec_find(m: Map<usize, Seq<Seq<char>>>, h: usize, name: Seq<char>) -> Result<
    bool,
    (),
> {
    if m.contains_key(h) {
        spec_find_in(m[h], name)
    } else {
        Ok(false)
    }
}

/// The database under `h` exists and holds a name.
pub open spec fn spec_has_entries(m: Map<usize, Seq<Seq<char>>>, h: usize) -> bool {
    m.contains_key(h) && m[h].len() > 0
}

/// Each item followed by `suffix`, all run together.
pub open spec fn join_with_suffix(items: Seq<Seq<char>>, suffix: Seq<char>) -> Seq<char>
    decreases items.len(),
{
    if items.len() == 0 {
        Seq::empty()
    } else {
        join_with_suffix(items.drop_last(), suffix) + items.last() + suffix
    }
}

/// Each item between `prefix` and `suffix`, all run together.
pub open spec fn join_lines(items: Seq<Seq<char>>, prefix: Seq<char>, suffix: Seq<char>) -> Seq<char>
    decreases items.len(),
{
    if items.len() == 0 {
        Seq::empty()
    } else {
        join_lines(items.drop_last(), prefix, suffix) + prefix + items.last() + suffix
    }
}

/// The database under `h` written on one line: each name followed by `sep`, then a
/// newline; a bare newline when there is no database for `h`.
pub open spec fn spec_as_line(m: Map<usize, Seq<Seq<char>>>, h: usize, sep: Seq<char>) -> Seq<char> {
    if m.contains_key(h) {
        join_with_suffix(m[h], sep) + "\n"@
    } else {
        "\n"@
    }
}

/// The database under `h` written one name per line, each after `prefix`; nothing
/// when there is no database for `h`.
pub open spec fn spec_lines(m: Map<usize, Seq<Seq<char>>>, h: usize, prefix: Seq<char>) -> Seq<char> {
    if m.contains_key(h) {
        join_lines(m[h], prefix, "\n"@)
    } else {
        Seq::empty()
    }
}

/// The lines that begin with `prefix`, in order.
pub open spec fn lines_with_prefix(lines: Seq<Seq<char>>, prefix: Seq<char>) -> Seq<Seq<char>>
    decreases lines.len(),
{
    if lines.len() == 0 {
        Seq::empty()
    } else if seq_starts_with(lines.last(), prefix) {
        lines_with_prefix(lines.drop_last(), prefix).push(lines.last())
    } else {
        lines_with_prefix(lines.drop_last(), prefix)
    }
}

impl FileDbs {
    /// No list holds a name twice.
    #[verifier::type_invariant]
    closed spec fn names_unique(self) -> bool {
        forall|h: usize| #[trigger] self.dbs@.contains_key(h) ==> names_of(self.dbs@[h]).no_duplicates()
    }

    /// Every database holds each of its names once.
    pub open spec fn wf(&self) -> bool {
        forall|h: usize| #[trigger] self@.contains_key(h) ==> self@[h].no_duplicates()
    }

    /// No databases.
    pub fn new() -> (r: FileDbs)
        ensures
            r.wf(),
            r@ == Map::<usize, Seq<Seq<char>>>::empty(),
    {
        let r = FileDbs { dbs: HashMap::new() };
        assert(r@ =~= Map::<usize, Seq<Seq<char>>>::empty());
        r
    }
}

fn contains_name(v: &Vec<String>, name: &String) -> (b: bool)
    ensures
        b == names_of(*v).contains(name@),
{
    let mut i: usize = 0;
    while i < v.len()
        invariant
            i <= v@.len(),
            forall|j: int| 0 <= j < i ==> names_of(*v)[j] != name@,
        decreases v@.len() - i,
    {
        if v[i] == *name {
            assert(names_of(*v)[i as int] == name@);
            return true;
        }
        i = i + 1;
    }
    false
}

/// Adds `fname` to the database under `head`, creating that database when there is
/// none: a name already held leaves it unchanged, a new one goes in front. Returns
/// `head`.
pub fn filedb_add(dbs: &mut FileDbs, head: usize, fname: &str) -> (r: usize)
    ensures
        r == head,
        final(dbs).wf(),
        final(dbs)@ == spec_add(old(dbs)@, head, fname@),
        keeps_names(old(dbs)@, final(dbs)@),
{
    proof {
        use_type_invariant(&*dbs);
    }
    let ghost m0 = dbs@;
    let name = fname.to_owned();
    let mut map: HashMap<usize, Vec<String>> = HashMap::new();
    std::mem::swap(&mut map, &mut dbs.dbs);
    let ghost raw0 = map@;
    let removed = map.remove(&head);
    let mut entries: Vec<String> = match removed {
        Some(v) => v,
        None => Vec::new(),
    };
    let ghost e0 = names_of(entries);
    assert(e0 =~= entries_of(m0, head));
    if !contains_name(&entries, &name) {
        entries.insert(0, name);
        assert(names_of(entries) =~= seq![fname@] + e0);
    }
    assert(names_of(entries) == add_name(entries_of(m0, head), fname@));
    map.insert(head, entries);
    assert forall|h: usize| #[trigger] map@.contains_key(h) implies names_of(map@[h]).no_duplicates() by {
        if h != head {
            assert(raw0.contains_key(h));
            assert(m0.contains_key(h));
        }
    }
    dbs.dbs = map;
    assert(dbs@ =~= spec_add(m0, head, fname@));
    proof {
        assert forall|k: usize, x: Seq<char>| #[trigger] entries_of(m0, k).contains(x) implies entries_of(
            dbs@,
            k,
        ).contains(x) by {
            lemma_add_keeps_names(m0, head, fname@, k, x);
        }
    }
    head
}

fn find_in(entries: &Vec<String>, fname: &str) -> (r: Result<Option<(usize, bool)>, FileDbError>)
    ensures
        match r {
            Ok(Some((k, by_glob))) => k < entries@.len() && spec_find_entry_in(names_of(*entries), fname@)
                == Ok::<Option<(Seq<char>, bool)>, ()>(Some((entries@[k as int]@, by_glob))),
            Ok(None) => spec_find_entry_in(names_of(*entries), fname@) == Ok::<Option<(Seq<char>, bool)>, ()>(None),
            Err(_) => spec_find_entry_in(names_of(*entries), fname@) is Err,
        },
        is_plain_glob(fname@) && names_of(*entries).contains(fname@) ==> !(r matches Ok(None)),
{
    let ghost all = names_of(*entries);
    let name = fname.to_owned();
    let ends_in_slash = ends_with_slash(fname);
    let mut i: usize = 0;
    assert(all.skip(0) =~= all);
    while i < entries.len()
        invariant
            all == names_of(*entries),
            i <= all.len(),
            name@ == fname@,
            ends_in_slash == seq_ends_with(fname@, seq!['/']),
            spec_find_entry_in(all, fname@) == spec_find_entry_in(all.skip(i as int), fname@),
            is_plain_glob(fname@) ==> forall|j: int| 0 <= j < i ==> all[j] != fname@,
        decreases all.len() - i,
    {
        let entry = &entries[i];
        assert(all.skip(i as int)[0] == entry@);
        assert(all.skip(i as int).drop_first() =~= all.skip(i + 1));
        match glob_match(entry.as_str(), fname) {
            Err(_) => return Err(FileDbError::InvalidPattern),
            Ok(true) => return Ok(Some((i, true))),
            Ok(false) => {
                if fname.len() > entry.as_str().len() && ends_in_slash && *entry == name {
                    return Ok(Some((i, false)));
                }
            },
        }
        i = i + 1;
    }
    proof {
        if is_plain_glob(fname@) && all.contains(fname@) {
            let j = choose|j: int| 0 <= j < all.len() && all[j] == fname@;
            assert(all[j] != fname@);
        }
    }
    Ok(None)
}

/// The entry of the database under `head` that decides a search for `fname` (see
/// [`spec_find_entry_in`]), with `true` when its pattern matched and `false` when
/// `fname` lies inside it; `Ok(None)` when no entry does or there is no database
/// for `head`; `Err(FileDbError::InvalidPattern)` when a stored pattern met first does
/// not compile.
pub fn filedb_find_entry(dbs: &FileDbs, head: usize, fname: &str) -> (r: Result<Option<(String, bool)>, FileDbError>)
    ensures
        match r {
            Ok(Some((e, by_glob))) => spec_find_entry(dbs@, head, fname@) == Ok::<Option<(Seq<char>, bool)>, ()>(
                Some((e@, by_glob)),
            ),
            Ok(None) => spec_find_entry(dbs@, head, fname@) == Ok::<Option<(Seq<char>, bool)>, ()>(None),
            Err(e) => spec_find_entry(dbs@, head, fname@) is Err && e == FileDbError::InvalidPattern,
        },
        is_plain_glob(fname@) && entries_of(dbs@, head).contains(fname@) ==> !(r matches Ok(None)),
{
    match dbs.dbs.get(&head) {
        None => Ok(None),
        Some(entries) => {
            assert(dbs@[head] == names_of(*entries));
            match find_in(entries, fname) {
                Ok(Some((k, by_glob))) => Ok(Some((entries[k].clone(), by_glob))),
                Ok(None) => Ok(None),
                Err(_) => Err(FileDbError::InvalidPattern),
            }
        },
    }
}

/// Searches the database under `head` for an entry that `fname` matches or lies
/// inside (see [`spec_find_in`]); `Ok(false)` when there is no database for `head`,
/// and `Err(FileDbError::InvalidPattern)` when a stored pattern met first does not
/// compile.
pub fn filedb_find(dbs: &FileDbs, head: usize, fname: &str) -> (r: Result<bool, FileDbError>)
    ensures
        match r {
            Ok(b) => spec_find(dbs@, head, fname@) == Ok::<bool, ()>(b),
            Err(e) => spec_find(dbs@, head, fname@) is Err && e == FileDbError::InvalidPattern,
        },
        is_plain_glob(fname@) && entries_of(dbs@, head).contains(fname@) ==> r != Ok::<bool, FileDbError>(
            false,
        ),
{
    match filedb_find_entry(dbs, head, fname) {
        Ok(found) => Ok(found.is_some()),
        Err(e) => Err(e),
    }
}

/// The names held under `head`, newest first; `None` when there is no database for
/// `head`.
pub fn filedb_entries(dbs: &FileDbs, head: usize) -> (r: Option<Vec<String>>)
    ensures
        match r {
            Some(v) => dbs@.contains_key(head) && names_of(v) == dbs@[head],
            None => !dbs@.contains_key(head),
        },
{
    match dbs.dbs.get(&head) {
        None => None,
        Some(entries) => {
            assert(dbs@[head] == names_of(*entries));
            let mut v: Vec<String> = Vec::new();
            let mut i: usize = 0;
            while i < entries.len()
                invariant
                    i <= entries@.len(),
                    v@.len() == i,
                    forall|j: int| 0 <= j < i ==> (#[trigger] v@[j])@ == entries@[j]@,
                decreases entries@.len() - i,
            {
                v.push(entries[i].clone());
                i = i + 1;
            }
            assert(names_of(v) =~= names_of(*entries));
            Some(v)
        },
    }
}

/// 0 when the database under `head` exists and holds a name, 1 otherwise.
pub fn filedb_is_empty(dbs: &FileDbs, head: usize) -> (r: i32)
    ensures
        r == if spec_has_entries(dbs@, head) {
            0i32
        } else {
            1i32
        },
{
    match dbs.dbs.get(&head) {
        None => 1,
        Some(entries) => {
            assert(dbs@[head] == names_of(*entries));
            if entries.len() > 0 {
                0
            } else {
                1
            }
        },
    }
}

fn join_entries(entries: &Vec<String>, prefix: &str, suffix: &str) -> (out: String)
    ensures
        out@ == join_lines(names_of(*entries), prefix@, suffix@),
{
    let ghost all = names_of(*entries);
    let mut out = String::new();
    let mut i: usize = 0;
    assert(all.take(0) =~= Seq::<Seq<char>>::empty());
    while i < entries.len()
        invariant
            all == names_of(*entries),
            i <= all.len(),
            out@ == join_lines(all.take(i as int), prefix@, suffix@),
        decreases all.len() - i,
    {
        assert(all.take(i + 1).drop_last() =~= all.take(i as int));
        assert(all.take(i + 1).last() == entries@[i as int]@);
        out.append(prefix);
        out.append(entries[i].as_str());
        out.append(suffix);
        i = i + 1;
    }
    assert(all.take(i as int) =~= all);
    out
}

proof fn lemma_join_with_suffix(items: Seq<Seq<char>>, suffix: Seq<char>)
    ensures
        join_with_suffix(items, suffix) == join_lines(items, Seq::<char>::empty(), suffix),
    decreases items.len(),
{
    if items.len() > 0 {
        lemma_join_with_suffix(items.drop_last(), suffix);
        assert(join_lines(items.drop_last(), Seq::<char>::empty(), suffix) + Seq::<char>::empty()
            =~= join_lines(items.drop_last(), Seq::<char>::empty(), suffix));
    }
}

/// The database under `head` on one line: each name followed by `sep`, then a
/// newline; a bare newline when there is no database for `head`.
pub fn write_filedb_to_file_as_line(dbs: &FileDbs, head: usize, sep: &str) -> (out: String)
    ensures
        out@ == spec_as_line(dbs@, head, sep@),
{
    match dbs.dbs.get(&head) {
        None => String::from_str("\n"),
        Some(entries) => {
            assert(dbs@[head] == names_of(*entries));
            let mut out = join_entries(entries, "", sep);
            proof {
                reveal_strlit("");
                assert(""@ =~= Seq::<char>::empty());
                lemma_join_with_suffix(names_of(*entries), sep@);
            }
            out.append("\n");
            out
        },
    }
}

/// The database under `head` one name per line, each after `prefix`; nothing when
/// there is no database for `head`.
pub fn write_filedb_to_file_lines(dbs: &FileDbs, head: usize, prefix: &str) -> (out: String)
    ensures
        out@ == spec_lines(dbs@, head, prefix@),
{
    match dbs.dbs.get(&head) {
        None => String::new(),
        Some(entries) => {
            assert(dbs@[head] == names_of(*entries));
            join_entries(entries, prefix, "\n")
        },
    }
}

/// Adds under `head` each of `lines` that begins with `prefix`, in order (the lines
/// of a whitelist file). Returns `head`.
pub fn filedb_load_whitelist(dbs: &mut FileDbs, head: usize, lines: &Vec<String>, prefix: &str) -> (r: usize)
    ensures
        r == head,
        final(dbs).wf(),
        final(dbs)@ == spec_add_all(old(dbs)@, head, lines_with_prefix(names_of(*lines), prefix@)),
        keeps_names(old(dbs)@, final(dbs)@),
{
    proof {
        use_type_invariant(&*dbs);
    }
    let ghost m0 = dbs@;
    let ghost all = names_of(*lines);
    let p = chars_of(prefix);
    let mut i: usize = 0;
    assert(all.take(0) =~= Seq::<Seq<char>>::empty());
    while i < lines.len()
        invariant
            all == names_of(*lines),
            p@ == prefix@,
            i <= all.len(),
            dbs.wf(),
            dbs@ == spec_add_all(m0, head, lines_with_prefix(all.take(i as int), prefix@)),
            keeps_names(m0, dbs@),
        decreases all.len() - i,
    {
        let ghost before = lines_with_prefix(all.take(i as int), prefix@);
        assert(all.take(i + 1).drop_last() =~= all.take(i as int));
        assert(all.take(i + 1).last() == lines@[i as int]@);
        let line = chars_of(lines[i].as_str());
        if starts_with(&line, &p) {
            let ghost prev = dbs@;
            filedb_add(dbs, head, lines[i].as_str());
            proof {
                lemma_keeps_names_transitive(m0, prev, dbs@);
            }
            assert(before.push(lines@[i as int]@).drop_last() =~= before);
        }
        i = i + 1;
    }
    assert(all.take(i as int) =~= all);
    head
}

/// A node of a file database in linked-list form: a name, and the length that was
/// recorded for it.
pub struct FileDB {
    pub fname: String,
    pub len: usize,
}

/// The nodes of a list, each as its name and recorded length.
pub open spec fn nodes_view(nodes: Seq<FileDB>) -> Seq<(Seq<char>, usize)> {
    nodes.map_values(|n: FileDB| (n.fname@, n.len))
}

/// A search of a linked list, first node to last: the index of the first node whose
/// pattern matches `name`, or that passes the parent directory test with its
/// recorded length (see [`parent_clause`]); `Err(())` when a pattern met first does
/// not compile.
pub open spec fn spec_find_old(nodes: Seq<(Seq<char>, usize)>, name: Seq<char>) -> Result<Option<int>, ()>
    decreases nodes.len(),
{
    if nodes.len() == 0 {
        Ok(None)
    } else {
        match glob_match_result(nodes[0].0, name) {
            None => Err(()),
            Some(true) => Ok(Some(0)),
            Some(false) => if parent_clause(nodes[0].0, nodes[0].1, name) {
                Ok(Some(0))
            } else {
                match spec_find_old(nodes.drop_first(), name) {
                    Ok(Some(k)) => Ok(Some(k + 1)),
                    other => other,
                }
            },
        }
    }
}

/// Searches a linked-list database for the node that `fname` matches (see
/// [`spec_find_old`]).
pub fn filedb_find_old(nodes: &Vec<FileDB>, fname: &str) -> (r: Result<Option<usize>, FileDbError>)
    ensures
        match r {
            Ok(Some(k)) => spec_find_old(nodes_view(nodes@), fname@) == Ok::<Option<int>, ()>(Some(k as int)),
            Ok(None) => spec_find_old(nodes_view(nodes@), fname@) == Ok::<Option<int>, ()>(None),
            Err(e) => spec_find_old(nodes_view(nodes@), fname@) is Err && e == FileDbError::InvalidPattern,
        },
        is_plain_glob(fname@) && (exists|j: int| 0 <= j < nodes@.len() && (#[trigger] nodes@[j]).fname@ == fname@)
            ==> r != Ok::<Option<usize>, FileDbError>(None),
{
    let ghost all = nodes_view(nodes@);
    let name = fname.to_owned();
    let ends_in_slash = ends_with_slash(fname);
    let mut i: usize = 0;
    assert(all.skip(0) =~= all);
    while i < nodes.len()
        invariant
            all == nodes_view(nodes@),
            i <= all.len(),
            name@ == fname@,
            ends_in_slash == seq_ends_with(fname@, seq!['/']),
            spec_find_old(all, fname@) == match spec_find_old(all.skip(i as int), fname@) {
                Ok(Some(k)) => Ok(Some(k + i)),
                other => other,
            },
            is_plain_glob(fname@) ==> forall|j: int| 0 <= j < i ==> (#[trigger] nodes@[j]).fname@ != fname@,
        decreases all.len() - i,
    {
        let node = &nodes[i];
        assert(all.skip(i as int)[0] == (node.fname@, node.len));
        assert(all.skip(i as int).drop_first() =~= all.skip(i + 1));
        match glob_match(node.fname.as_str(), fname) {
            Err(_) => return Err(FileDbError::InvalidPattern),
            Ok(true) => return Ok(Some(i)),
            Ok(false) => {
                if fname.len() > node.len && ends_in_slash && node.fname == name {
                    return Ok(Some(i));
                }
            },
        }
        i = i + 1;
    }
    Ok(None)
}

/// The lines that printing a linked-list database writes: `prefix` followed by the
/// name of each node, in order. The list must have a head.
pub fn filedb_print(nodes: &Vec<FileDB>, prefix: &str) -> (out: Vec<String>)
    requires
        nodes@.len() > 0,
    ensures
        out@.len() == nodes@.len(),
        forall|i: int| 0 <= i < nodes@.len() ==> (#[trigger] out@[i])@ == prefix@ + nodes@[i].fname@,
{
    let mut out: Vec<String> = Vec::new();
    let mut i: usize = 0;
    while i < nodes.len()
        invariant
            i <= nodes@.len(),
            out@.len() == i,
            forall|j: int| 0 <= j < i ==> (#[trigger] out@[j])@ == prefix@ + nodes@[j].fname@,
        decreases nodes@.len() - i,
    {
        let mut line = String::from_str(prefix);
        line.append(nodes[i].fname.as_str());
        out.push(line);
        i = i + 1;
    }
    out
}

/// A name just added is held under its handle, and the database there is no longer
/// empty; with [`filedb_find`], a search for a plain name just added never answers
/// `Ok(false)`.
pub proof fn lemma_added_name_is_held(m: Map<usize, Seq<Seq<char>>>, h: usize, n: Seq<char>)
    ensures
        entries_of(spec_add(m, h, n), h).contains(n),
        spec_has_entries(spec_add(m, h, n), h),
{
    let e = entries_of(m, h);
    if !e.contains(n) {
        assert((seq![n] + e)[0] == n);
    }
}

/// Adding a name that is already held changes nothing; in particular adding the
/// same name twice is the same as adding it once.
pub proof fn lemma_add_idempotent(m: Map<usize, Seq<Seq<char>>>, h: usize, n: Seq<char>)
    ensures
        m.contains_key(h) && m[h].contains(n) ==> spec_add(m, h, n) == m,
        spec_add(spec_add(m, h, n), h, n) == spec_add(m, h, n),
{
    lemma_added_name_is_held(m, h, n);
    if m.contains_key(h) && m[h].contains(n) {
        assert(spec_add(m, h, n) =~= m);
    }
    assert(spec_add(spec_add(m, h, n), h, n) =~= spec_add(m, h, n));
}

/// A new name goes in front of the names already held, which keep their order;
/// the databases under other handles are untouched.
pub proof fn lemma_add_new_name_first(m: Map<usize, Seq<Seq<char>>>, h: usize, n: Seq<char>)
    ensures
        !entries_of(m, h).contains(n) ==> spec_add(m, h, n)[h] == seq![n] + entries_of(m, h),
        forall|k: usize| k != h ==> entries_of(#[trigger] spec_add(m, h, n), k) == entries_of(m, k),
        forall|k: usize| k != h ==> (#[trigger] spec_add(m, h, n).contains_key(k) <==> m.contains_key(k)),
{
}

/// Adding never removes a name, from any database.
pub proof fn lemma_add_keeps_names(m: Map<usize, Seq<Seq<char>>>, h: usize, n: Seq<char>, k: usize, x: Seq<char>)
    requires
        entries_of(m, k).contains(x),
    ensures
        entries_of(spec_add(m, h, n), k).contains(x),
{
    if k == h && !entries_of(m, h).contains(n) {
        let e = entries_of(m, h);
        let j = choose|j: int| 0 <= j < e.len() && e[j] == x;
        assert((seq![n] + e)[j + 1] == x);
    }
}

/// After a run of additions every name added is held, and so is every name held
/// before.
pub proof fn lemma_add_all_holds(m: Map<usize, Seq<Seq<char>>>, h: usize, names: Seq<Seq<char>>)
    ensures
        forall|i: int| 0 <= i < names.len() ==> entries_of(spec_add_all(m, h, names), h).contains(
            #[trigger] names[i],
        ),
        forall|k: usize, x: Seq<char>| entries_of(m, k).contains(x) ==> #[trigger] entries_of(
            spec_add_all(m, h, names),
            k,
        ).contains(x),
    decreases names.len(),
{
    if names.len() > 0 {
        let prev = names.drop_last();
        lemma_add_all_holds(m, h, prev);
        let m1 = spec_add_all(m, h, prev);
        lemma_added_name_is_held(m1, h, names.last());
        assert forall|i: int| 0 <= i < names.len() implies entries_of(spec_add_all(m, h, names), h).contains(
            #[trigger] names[i],
        ) by {
            if i < names.len() - 1 {
                assert(prev[i] == names[i]);
                lemma_add_keeps_names(m1, h, names.last(), h, names[i]);
            }
        }
        assert forall|k: usize, x: Seq<char>| entries_of(m, k).contains(x) implies #[trigger] entries_of(
            spec_add_all(m, h, names),
            k,
        ).contains(x) by {
            lemma_add_keeps_names(m1, h, names.last(), k, x);
        }
    }
}

/// A search under a handle that has no database finds nothing, and no database is
/// written as a bare newline on one line and as nothing line by line.
pub proof fn lemma_missing_database(m: Map<usize, Seq<Seq<char>>>, h: usize, name: Seq<char>, sep: Seq<char>, prefix: Seq<char>)
    requires
        !m.contains_key(h),
    ensures
        spec_find(m, h, name) == Ok::<bool, ()>(false),
        spec_as_line(m, h, sep) == "\n"@,
        spec_lines(m, h, prefix) == Seq::<char>::empty(),
        !spec_has_entries(m, h),
{
}

/// The parent directory test of a database search never passes: it asks for a
/// name that is longer than the entry and equal to it. A search of a database
/// therefore succeeds only through a pattern that matches.
pub proof fn lemma_parent_clause_never_holds(entries: Seq<Seq<char>>, name: Seq<char>)
    ensures
        forall|i: int| 0 <= i < entries.len() ==> !entry_parent_clause(#[trigger] entries[i], name),
        spec_find_entry_in(entries, name) matches Ok(Some((_, by_glob))) ==> by_glob,
    decreases entries.len(),
{
    if entries.len() > 0 {
        lemma_parent_clause_never_holds(entries.drop_first(), name);
    }
}

/// Each item joined with a suffix occurs in the result followed by that suffix.
pub proof fn lemma_join_with_suffix_holds(items: Seq<Seq<char>>, suffix: Seq<char>, x: Seq<char>)
    requires
        items.contains(x),
    ensures
        seq_contains(join_with_suffix(items, suffix), x + suffix),
    decreases items.len(),
{
    let prev = items.drop_last();
    let head = join_with_suffix(prev, suffix);
    let whole = join_with_suffix(items, suffix);
    assert(whole == head + items.last() + suffix);
    if x == items.last() {
        assert(whole.subrange(head.len() as int, (head.len() + (x + suffix).len()) as int) =~= x + suffix);
        assert(occurs_at(whole, x + suffix, head.len() as int));
    } else {
        let k = choose|k: int| 0 <= k < items.len() && items[k] == x;
        assert(prev[k] == x);
        lemma_join_with_suffix_holds(prev, suffix, x);
        let i = choose|i: int| occurs_at(head, x + suffix, i);
        assert(whole.subrange(i, i + (x + suffix).len()) =~= head.subrange(i, i + (x + suffix).len()));
        assert(occurs_at(whole, x + suffix, i));
    }
}

/// A search passes over the entries whose patterns compile and do not match
/// `name`: it answers what a search of the entries after them answers.
proof fn lemma_find_skips_non_matching(entries: Seq<Seq<char>>, name: Seq<char>, j: int)
    requires
        0 <= j <= entries.len(),
        forall|i: int| 0 <= i < j ==> glob_match_result(#[trigger] entries[i], name) == Some(false),
    ensures
        spec_find_entry_in(entries, name) == spec_find_entry_in(entries.skip(j), name),
    decreases j,
{
    if j == 0 {
        assert(entries.skip(0) =~= entries);
    } else {
        lemma_find_skips_non_matching(entries, name, j - 1);
        let rest = entries.skip(j - 1);
        assert(rest[0] == entries[j - 1]);
        assert(glob_match_result(entries[j - 1], name) == Some(false));
        lemma_parent_clause_never_holds(rest, name);
        assert(!entry_parent_clause(rest[0], name));
        assert(rest.drop_first() =~= entries.skip(j));
    }
}

/// The first stored pattern under `h` that is not a valid pattern failing to match
/// `name` decides a search for `name`: when it matches, the search answers that
/// pattern, found by its glob, and [`filedb_find`] answers `true`; when it does not
/// compile, both searches fail. When every stored pattern compiles and none
/// matches, nothing is found.
pub proof fn lemma_first_match_decides(m: Map<usize, Seq<Seq<char>>>, h: usize, name: Seq<char>, j: int)
    requires
        0 <= j <= entries_of(m, h).len(),
        forall|i: int| 0 <= i < j ==> glob_match_result(#[trigger] entries_of(m, h)[i], name) == Some(false),
    ensures
        j < entries_of(m, h).len() && glob_match_result(entries_of(m, h)[j], name) == Some(true) ==> {
            &&& spec_find_entry(m, h, name) == Ok::<Option<(Seq<char>, bool)>, ()>(Some((entries_of(m, h)[j], true)))
            &&& spec_find(m, h, name) == Ok::<bool, ()>(true)
        },
        j < entries_of(m, h).len() && glob_match_result(entries_of(m, h)[j], name) is None ==> {
            &&& spec_find_entry(m, h, name) is Err
            &&& spec_find(m, h, name) is Err
        },
        j == entries_of(m, h).len() ==> {
            &&& spec_find_entry(m, h, name) == Ok::<Option<(Seq<char>, bool)>, ()>(None)
            &&& spec_find(m, h, name) == Ok::<bool, ()>(false)
        },
{
    if m.contains_key(h) {
        let entries = m[h];
        lemma_find_skips_non_matching(entries, name, j);
        let rest = entries.skip(j);
        if j < entries.len() {
            assert(rest[0] == entries[j]);
        } else {
            assert(rest.len() == 0);
        }
    }
}

/// What a search of `entries` answers is an entry held there whose pattern
/// matches `name`, found by its glob.
proof fn lemma_found_entry_matches(entries: Seq<Seq<char>>, name: Seq<char>)
    ensures
        spec_find_entry_in(entries, name) matches Ok(Some((e, by_glob))) ==> {
            &&& by_glob
            &&& entries.contains(e)
            &&& glob_match_result(e, name) == Some(true)
        },
    decreases entries.len(),
{
    if entries.len() > 0 {
        let rest = entries.drop_first();
        lemma_found_entry_matches(rest, name);
        lemma_parent_clause_never_holds(entries, name);
        assert(!entry_parent_clause(entries[0], name));
        if let Ok(Some((e, _))) = spec_find_entry_in(rest, name) {
            if rest.contains(e) {
                let k = choose|k: int| 0 <= k < rest.len() && rest[k] == e;
                assert(entries[k + 1] == e);
            }
        }
    }
}

/// [`filedb_find`] and [`filedb_find_entry`] agree: the first fails exactly when the
/// second does, and finds `name` exactly when the second answers an entry. An
/// entry answered is held under `h` and its pattern matches `name`.
pub proof fn lemma_find_agrees_with_entry(m: Map<usize, Seq<Seq<char>>>, h: usize, name: Seq<char>)
    ensures
        spec_find(m, h, name) is Err <==> spec_find_entry(m, h, name) is Err,
        spec_find(m, h, name) == Ok::<bool, ()>(true) <==> spec_find_entry(m, h, name) matches Ok(Some(_)),
        spec_find(m, h, name) == Ok::<bool, ()>(false) <==> spec_find_entry(m, h, name) == Ok::<
            Option<(Seq<char>, bool)>,
            (),
        >(None),
        spec_find_entry(m, h, name) matches Ok(Some((e, by_glob))) ==> {
            &&& by_glob
            &&& entries_of(m, h).contains(e)
            &&& glob_match_result(e, name) == Some(true)
        },
{
    lemma_found_entry_matches(entries_of(m, h), name);
}

/// What adding a name holds: under its handle, the names held before and the name
/// added; under every other handle, what was held before.
pub proof fn lemma_add_contents(m: Map<usize, Seq<Seq<char>>>, h: usize, n: Seq<char>, k: usize, x: Seq<char>)
    ensures
        entries_of(spec_add(m, h, n), k).contains(x) <==> entries_of(m, k).contains(x) || (k == h && x == n),
{
    lemma_added_name_is_held(m, h, n);
    if entries_of(m, k).contains(x) {
        lemma_add_keeps_names(m, h, n, k, x);
    }
    if k == h {
        let e = entries_of(m, h);
        if !e.contains(n) {
            let s = seq![n] + e;
            if s.contains(x) && x != n {
                let j = choose|j: int| 0 <= j < s.len() && s[j] == x;
                assert(e[j - 1] == x);
            }
        }
    }
}

/// What a run of additions holds: under its handle, the names held before and the
/// names added; under every other handle, what was held before.
pub proof fn lemma_add_all_contents(
    m: Map<usize, Seq<Seq<char>>>,
    h: usize,
    names: Seq<Seq<char>>,
    k: usize,
    x: Seq<char>,
)
    ensures
        entries_of(spec_add_all(m, h, names), k).contains(x) <==> entries_of(m, k).contains(x) || (k == h
            && names.contains(x)),
    decreases names.len(),
{
    if names.len() > 0 {
        let prev = names.drop_last();
        lemma_add_all_contents(m, h, prev, k, x);
        lemma_add_contents(spec_add_all(m, h, prev), h, names.last(), k, x);
        if names.contains(x) && x != names.last() {
            let j = choose|j: int| 0 <= j < names.len() && names[j] == x;
            assert(prev[j] == x);
        }
        if prev.contains(x) {
            let j = choose|j: int| 0 <= j < prev.len() && prev[j] == x;
            assert(names[j] == x);
        }
    }
}

/// The lines kept by [`lines_with_prefix`] are exactly the lines that begin with
/// the prefix.
pub proof fn lemma_lines_with_prefix_contents(lines: Seq<Seq<char>>, prefix: Seq<char>, x: Seq<char>)
    ensures
        lines_with_prefix(lines, prefix).contains(x) <==> exists|i: int|
            0 <= i < lines.len() && #[trigger] lines[i] == x && seq_starts_with(x, prefix),
    decreases lines.len(),
{
    if lines.len() > 0 {
        let prev = lines.drop_last();
        let last = lines.last();
        lemma_lines_with_prefix_contents(prev, prefix, x);
        let kept = lines_with_prefix(prev, prefix);
        if exists|i: int| 0 <= i < lines.len() && #[trigger] lines[i] == x && seq_starts_with(x, prefix) {
            let i = choose|i: int| 0 <= i < lines.len() && #[trigger] lines[i] == x && seq_starts_with(x, prefix);
            if i < lines.len() - 1 {
                assert(prev[i] == x);
                assert(kept.contains(x));
                if seq_starts_with(last, prefix) {
                    let j = choose|j: int| 0 <= j < kept.len() && kept[j] == x;
                    assert(kept.push(last)[j] == x);
                }
            } else {
                assert(kept.push(last)[kept.len() as int] == x);
            }
        }
        if lines_with_prefix(lines, prefix).contains(x) {
            if kept.contains(x) {
                let i = choose|i: int| 0 <= i < prev.len() && #[trigger] prev[i] == x && seq_starts_with(x, prefix);
                assert(lines[i] == x);
            } else {
                assert(seq_starts_with(last, prefix));
                let j = choose|j: int| 0 <= j < kept.len() + 1 && kept.push(last)[j] == x;
                assert(j == kept.len());
                assert(lines[lines.len() - 1] == x);
            }
        }
    }
}

/// Loading a whitelist adds exactly its lines that begin with the prefix: after it,
/// a name is held under `h` exactly when it was held there before or is one of
/// those lines, and the other databases hold what they held.
pub proof fn lemma_load_holds_prefixed_lines(
    m: Map<usize, Seq<Seq<char>>>,
    h: usize,
    lines: Seq<Seq<char>>,
    prefix: Seq<char>,
    k: usize,
    x: Seq<char>,
)
    ensures
        entries_of(spec_add_all(m, h, lines_with_prefix(lines, prefix)), k).contains(x) <==> entries_of(
            m,
            k,
        ).contains(x) || (k == h && exists|i: int|
            0 <= i < lines.len() && #[trigger] lines[i] == x && seq_starts_with(x, prefix)),
{
    lemma_add_all_contents(m, h, lines_with_prefix(lines, prefix), k, x);
    lemma_lines_with_prefix_contents(lines, prefix, x);
}

/// Keeping names is transitive: what two steps in turn keep, the whole run keeps.
pub proof fn lemma_keeps_names_transitive(
    m0: Map<usize, Seq<Seq<char>>>,
    m1: Map<usize, Seq<Seq<char>>>,
    m2: Map<usize, Seq<Seq<char>>>,
)
    requires
        keeps_names(m0, m1),
        keeps_names(m1, m2),
    ensures
        keeps_names(m0, m2),
{
    assert forall|k: usize, x: Seq<char>| #[trigger] entries_of(m0, k).contains(x) implies entries_of(m2, k).contains(x) by {
        assert(entries_of(m1, k).contains(x));
    }
}

/// A database that holds a name never becomes empty again: every function that
/// changes the databases keeps every name ([`keeps_names`] in its contract), so
/// after any run of calls, [`filedb_is_empty`] still answers 0 for it.
pub proof fn lemma_never_empty_again(m0: Map<usize, Seq<Seq<char>>>, m1: Map<usize, Seq<Seq<char>>>, h: usize)
    requires
        keeps_names(m0, m1),
        spec_has_entries(m0, h),
    ensures
        spec_has_entries(m1, h),
{
    let x = m0[h][0];
    assert(entries_of(m0, h).contains(x));
    assert(entries_of(m1, h).contains(x));
}

} // verus!
