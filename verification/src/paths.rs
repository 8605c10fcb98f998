//! Unix paths read as `std::path::Path` reads them: an optional root, then the
//! pieces between slashes, where empty pieces and `.` are skipped (a leading `.`
//! of a relative path stands as the current directory).
use vstd::prelude::*;
use vstd::string::StrSliceExecFns;
use crate::text::{
    chars_of, lemma_split_join, lemma_split_pieces_lack_sep, lemma_split_without_sep, seq_ends_with, split_on, split_str,
};

verus! {

/// A component of a path.
pub enum Component {
    RootDir,
    CurDir,
    ParentDir,
    Normal(Seq<char>),
}

/// The path starts at the root.
pub open spec fn has_root(p: Seq<char>) -> bool {
    p.len() > 0 && p[0] == '/'
}

/// The path is `.` or starts with `./`.
pub open spec fn include_cur_dir(p: Seq<char>) -> bool {
    !has_root(p) && p.len() > 0 && p[0] == '.' && (p.len() == 1 || p[1] == '/')
}

/// Where the pieces after the root or the leading `.` begin.
pub open spec fn body_start(p: Seq<char>) -> int {
    if has_root(p) || include_cur_dir(p) {
        1
    } else {
        0
    }
}

/// A piece that names no component: empty, or `.`.
pub open spec fn is_ignorable(seg: Seq<char>) -> bool {
    seg.len() == 0 || seg == seq!['.']
}

/// The components that the pieces stand for, in order.
pub open spec fn body_components(segs: Seq<Seq<char>>) -> Seq<Component>
    decreases segs.len(),
{
    if segs.len() == 0 {
        Seq::empty()
    } else {
        let prev = body_components(segs.drop_last());
        let s = segs.last();
        if is_ignorable(s) {
            prev
        } else if s == seq!['.', '.'] {
            prev.push(Component::ParentDir)
        } else {
            prev.push(Component::Normal(s))
        }
    }
}

/// The components of a path, first to last.
pub open spec fn path_components(p: Seq<char>) -> Seq<Component> {
    let head: Seq<Component> = if has_root(p) {
        seq![Component::RootDir]
    } else if include_cur_dir(p) {
        seq![Component::CurDir]
    } else {
        Seq::empty()
    };
    head + body_components(split_on(p.subrange(body_start(p), p.len() as int), '/'))
}

/// The text of a component.
pub open spec fn component_text(c: Component) -> Seq<char> {
    match c {
        Component::RootDir => seq!['/'],
        Component::CurDir => seq!['.'],
        Component::ParentDir => seq!['.', '.'],
        Component::Normal(s) => s,
    }
}

/// The last component when it is a name (`Path::file_name`).
pub open spec fn spec_file_name(p: Seq<char>) -> Option<Seq<char>> {
    let cs = path_components(p);
    if cs.len() > 0 && cs.last() is Normal {
        Some(component_text(cs.last()))
    } else {
        None
    }
}

/// The text of the `k`-th component, counting from 0, if there is one.
pub open spec fn spec_nth_component(p: Seq<char>, k: int) -> Option<Seq<char>> {
    let cs = path_components(p);
    if 0 <= k < cs.len() {
        Some(component_text(cs[k]))
    } else {
        None
    }
}

fn is_dot_piece(s: &str) -> (b: u8)
    ensures
        b == 0 <==> is_ignorable(s@),
        b == 1 <==> s@ == seq!['.', '.'],
        b == 2 <==> !is_ignorable(s@) && s@ != seq!['.', '.'],
{
    let n = s.unicode_len();
    if n == 0 {
        return 0;
    }
    if n > 2 {
        return 2;
    }
    if s.get_char(0) != '.' {
        return 2;
    }
    if n == 1 {
        assert(s@ =~= seq!['.']);
        return 0;
    }
    if s.get_char(1) == '.' {
        assert(s@ =~= seq!['.', '.']);
        1
    } else {
        2
    }
}

/// Where the body of `p` starts.
fn body_start_of(c: &Vec<char>) -> (s: usize)
    ensures
        s == body_start(c@),
{
    let n = c.len();
    if n > 0 && c[0] == '/' {
        1
    } else if n > 0 && c[0] == '.' && (n == 1 || c[1] == '/') {
        1
    } else {
        0
    }
}

/// The names of the components of `path` after its root or leading `.`, each
/// paired with 0 for a name and 1 for `..`.
fn body_pieces<'a>(path: &'a str) -> (v: Vec<(u8, &'a str)>)
    ensures
        v@.len() == body_components(split_on(path@.subrange(body_start(path@), path@.len() as int), '/')).len(),
        forall|j: int| 0 <= j < v@.len() ==> {
            let c = body_components(split_on(path@.subrange(body_start(path@), path@.len() as int), '/'))[j];
            &&& (#[trigger] v@[j]).0 == 1 <==> c is ParentDir
            &&& v@[j].0 == 0 <==> c is Normal
            &&& v@[j].1@ == component_text(c)
        },
{
    let c = chars_of(path);
    let start = body_start_of(&c);
    let body = path.substring_char(start, c.len());
    let segs = split_str(body, '/');
    let ghost ss = split_on(body@, '/');
    let mut v: Vec<(u8, &'a str)> = Vec::new();
    let mut i: usize = 0;
    assert(ss.subrange(0, 0) =~= Seq::<Seq<char>>::empty());
    while i < segs.len()
        invariant
            segs@.len() == ss.len(),
            forall|j: int| 0 <= j < segs@.len() ==> (#[trigger] segs@[j])@ == ss[j],
            i <= segs@.len(),
            v@.len() == body_components(ss.subrange(0, i as int)).len(),
            forall|j: int| 0 <= j < v@.len() ==> {
                let c = body_components(ss.subrange(0, i as int))[j];
                &&& (#[trigger] v@[j]).0 == 1 <==> c is ParentDir
                &&& v@[j].0 == 0 <==> c is Normal
                &&& v@[j].1@ == component_text(c)
            },
        decreases segs@.len() - i,
    {
        let seg = segs[i];
        assert(ss.subrange(0, i + 1).drop_last() =~= ss.subrange(0, i as int));
        assert(ss.subrange(0, i + 1).last() == ss[i as int]);
        let kind = is_dot_piece(seg);
        if kind == 1 {
            v.push((1, seg));
        } else if kind == 2 {
            v.push((0, seg));
        }
        i = i + 1;
    }
    assert(ss.subrange(0, i as int) =~= ss);
    v
}

/// The file name of `path`: its last component when that is a name (as
/// `Path::file_name`).
pub fn file_name<'a>(path: &'a str) -> (r: Option<&'a str>)
    ensures
        match r {
            Some(s) => spec_file_name(path@) == Some(s@),
            None => spec_file_name(path@) is None,
        },
{
    let v = body_pieces(path);
    let ghost body = body_components(split_on(path@.subrange(body_start(path@), path@.len() as int), '/'));
    let ghost cs = path_components(path@);
    if v.len() == 0 {
        return None;
    }
    let last = v[v.len() - 1];
    assert(cs.last() == body.last());
    if last.0 == 0 {
        Some(last.1)
    } else {
        None
    }
}

/// The text of the `k`-th component of `path` (as `components().nth(k)`).
pub fn nth_component(path: &str, k: usize) -> (r: Option<String>)
    ensures
        match r {
            Some(s) => spec_nth_component(path@, k as int) == Some(s@),
            None => spec_nth_component(path@, k as int) is None,
        },
{
    let c = chars_of(path);
    let v = body_pieces(path);
    let ghost body = body_components(split_on(path@.subrange(body_start(path@), path@.len() as int), '/'));
    let ghost cs = path_components(path@);
    let head: usize = if c.len() > 0 && c[0] == '/' {
        1
    } else if c.len() > 0 && c[0] == '.' && (c.len() == 1 || c[1] == '/') {
        1
    } else {
        0
    };
    assert(cs.len() == head + body.len());
    if k < head {
        if c[0] == '/' {
            proof {
                reveal_strlit("/");
            }
            assert("/"@ =~= seq!['/']);
            Some("/".to_owned())
        } else {
            proof {
                reveal_strlit(".");
            }
            assert("."@ =~= seq!['.']);
            Some(".".to_owned())
        }
    } else if k - head < v.len() {
        assert(cs[k as int] == body[k - head]);
        Some(v[k - head].1.to_owned())
    } else {
        None
    }
}

/// The index of the last `/` in `p[start..end]`, or `start - 1` when there is none.
pub open spec fn last_sep(p: Seq<char>, start: int, end: int) -> int
    decreases end - start,
{
    if end <= start {
        start - 1
    } else if p[end - 1] == '/' {
        end - 1
    } else {
        last_sep(p, start, end - 1)
    }
}

/// Where `p[start..end]` ends once its last piece, and the slash before it, are cut off.
pub open spec fn cut_point(p: Seq<char>, start: int, end: int) -> int {
    if last_sep(p, start, end) >= start {
        last_sep(p, start, end)
    } else {
        start
    }
}

/// Where `p[start..end]` ends once its trailing empty and `.` pieces are cut off.
pub open spec fn trim_back(p: Seq<char>, start: int, end: int) -> int
    decreases end - start,
{
    if end <= start {
        end
    } else if is_ignorable(p.subrange(last_sep(p, start, end) + 1, end)) {
        if cut_point(p, start, end) < end {
            trim_back(p, start, cut_point(p, start, end))
        } else {
            end
        }
    } else {
        end
    }
}

/// `Path::parent`: the path without its last component. `None` for a path that is
/// empty or ends in the root; `""` for a relative path of one component.
pub open spec fn spec_parent(p: Seq<char>) -> Option<Seq<char>> {
    let s = body_start(p);
    let e1 = trim_back(p, s, p.len() as int);
    if e1 <= s {
        if include_cur_dir(p) {
            Some(Seq::empty())
        } else {
            None
        }
    } else {
        Some(p.subrange(0, trim_back(p, s, cut_point(p, s, e1))))
    }
}

proof fn lemma_last_sep_range(p: Seq<char>, start: int, end: int)
    requires
        0 <= start,
        end <= p.len(),
    ensures
        start - 1 <= last_sep(p, start, end),
        last_sep(p, start, end) < end || end <= start,
        last_sep(p, start, end) >= start ==> p[last_sep(p, start, end)] == '/',
        forall|k: int| last_sep(p, start, end) < k < end && start <= k ==> p[k] != '/',
    decreases end - start,
{
    if end > start && p[end - 1] != '/' {
        lemma_last_sep_range(p, start, end - 1);
    }
}

/// Where the last piece of `c[start..end]` begins.
fn piece_start(c: &Vec<char>, start: usize, end: usize) -> (r: usize)
    requires
        start <= end <= c@.len(),
    ensures
        r == last_sep(c@, start as int, end as int) + 1,
        start <= r <= end,
{
    let mut j = end;
    while j > start
        invariant
            start <= j <= end <= c@.len(),
            last_sep(c@, start as int, end as int) == last_sep(c@, start as int, j as int),
        decreases j - start,
    {
        if c[j - 1] == '/' {
            return j;
        }
        j = j - 1;
    }
    start
}

fn ignorable_range(c: &Vec<char>, a: usize, b: usize) -> (r: bool)
    requires
        a <= b <= c@.len(),
    ensures
        r == is_ignorable(c@.subrange(a as int, b as int)),
{
    if b == a {
        true
    } else if b - a == 1 && c[a] == '.' {
        assert(c@.subrange(a as int, b as int) =~= seq!['.']);
        true
    } else {
        if b - a == 1 {
            assert(c@.subrange(a as int, b as int)[0] != '.');
        }
        false
    }
}

fn trim_back_of(c: &Vec<char>, start: usize, end: usize) -> (r: usize)
    requires
        start <= end <= c@.len(),
    ensures
        r == trim_back(c@, start as int, end as int),
        r <= end,
{
    let mut e = end;
    loop
        invariant
            start <= e <= end <= c@.len(),
            trim_back(c@, start as int, end as int) == trim_back(c@, start as int, e as int),
        decreases e,
    {
        if e <= start {
            return e;
        }
        let ps = piece_start(c, start, e);
        if ignorable_range(c, ps, e) {
            let cut = if ps > start { ps - 1 } else { start };
            if cut < e {
                e = cut;
            } else {
                return e;
            }
        } else {
            return e;
        }
    }
}

/// The parent of `path` (as `Path::parent`).
pub fn parent<'a>(path: &'a str) -> (r: Option<&'a str>)
    ensures
        match r {
            Some(s) => spec_parent(path@) == Some(s@),
            None => spec_parent(path@) is None,
        },
{
    let c = chars_of(path);
    let n = c.len();
    let s = body_start_of(&c);
    let e1 = trim_back_of(&c, s, n);
    if e1 <= s {
        if n > 0 && c[0] == '.' && (n == 1 || c[1] == '/') {
            let r = path.substring_char(0, 0);
            assert(r@ =~= Seq::<char>::empty());
            Some(r)
        } else {
            None
        }
    } else {
        let ps = piece_start(&c, s, e1);
        let cut = if ps > s { ps - 1 } else { s };
        let e2 = trim_back_of(&c, s, cut);
        Some(path.substring_char(0, e2))
    }
}

proof fn lemma_trim_back_bounds(p: Seq<char>, start: int, end: int)
    requires
        0 <= start,
        end <= p.len(),
    ensures
        trim_back(p, start, end) <= end,
        start <= end ==> start <= trim_back(p, start, end),
    decreases end - start,
{
    if end > start {
        lemma_last_sep_range(p, start, end);
        if is_ignorable(p.subrange(last_sep(p, start, end) + 1, end)) && cut_point(p, start, end) < end {
            lemma_trim_back_bounds(p, start, cut_point(p, start, end));
        }
    }
}

/// The parent of a path is a proper prefix of it: the path with its last
/// component (and what trails it) cut off.
pub proof fn lemma_parent_is_proper_prefix(p: Seq<char>)
    ensures
        spec_parent(p) matches Some(q) ==> q.len() < p.len() && p.subrange(0, q.len() as int) == q,
{
    let s = body_start(p);
    lemma_trim_back_bounds(p, s, p.len() as int);
    let e1 = trim_back(p, s, p.len() as int);
    if e1 > s {
        lemma_last_sep_range(p, s, e1);
        lemma_trim_back_bounds(p, s, cut_point(p, s, e1));
    }
}

proof fn lemma_body_names(segs: Seq<Seq<char>>)
    requires
        forall|j: int| 0 <= j < segs.len() ==> !(#[trigger] segs[j]).contains('/'),
    ensures
        forall|j: int|
            0 <= j < body_components(segs).len() ==> (#[trigger] body_components(segs)[j] matches Component::Normal(x) ==> {
                &&& x.len() > 0
                &&& !x.contains('/')
                &&& x != seq!['.']
                &&& x != seq!['.', '.']
            }),
    decreases segs.len(),
{
    if segs.len() > 0 {
        let prev = segs.drop_last();
        assert forall|j: int| 0 <= j < prev.len() implies !(#[trigger] prev[j]).contains('/') by {
            assert(prev[j] == segs[j]);
        }
        lemma_body_names(prev);
        assert(!segs[segs.len() - 1].contains('/'));
    }
}

/// A file name is one name: non-empty, without a slash, and neither `.` nor `..`.
pub proof fn lemma_file_name_is_one_name(p: Seq<char>)
    ensures
        spec_file_name(p) matches Some(x) ==> {
            &&& x.len() > 0
            &&& !x.contains('/')
            &&& x != seq!['.']
            &&& x != seq!['.', '.']
        },
{
    let t = p.subrange(body_start(p), p.len() as int);
    lemma_split_pieces_lack_sep(t, '/');
    lemma_body_names(split_on(t, '/'));
    let cs = path_components(p);
    let body = body_components(split_on(t, '/'));
    if cs.len() > 0 && cs.last() is Normal {
        assert(body.len() > 0);
        assert(cs.last() == body[body.len() - 1]);
    }
}

/// A plain name: non-empty, without a slash, and neither `.` nor `..`.
pub open spec fn is_plain_name(n: Seq<char>) -> bool {
    &&& n.len() > 0
    &&& !n.contains('/')
    &&& n != seq!['.']
    &&& n != seq!['.', '.']
}

/// Two runs of pieces give the components of the first, then those of the second.
proof fn lemma_body_components_append(a: Seq<Seq<char>>, b: Seq<Seq<char>>)
    ensures
        body_components(a + b) == body_components(a) + body_components(b),
    decreases b.len(),
{
    if b.len() == 0 {
        assert(a + b =~= a);
        assert(body_components(a) + body_components(b) =~= body_components(a));
    } else {
        lemma_body_components_append(a, b.drop_last());
        assert((a + b).drop_last() =~= a + b.drop_last());
        assert((a + b).last() == b.last());
        assert(body_components(a + b) =~= body_components(a) + body_components(b));
    }
}

/// The file name of a path that ends in a slash and a plain name is that name,
/// whatever comes before the slash.
pub proof fn lemma_file_name_after_slash(q: Seq<char>, n: Seq<char>)
    requires
        is_plain_name(n),
    ensures
        spec_file_name(q + seq!['/'] + n) == Some(n),
{
    let p = q + seq!['/'] + n;
    let s = body_start(p);
    lemma_split_without_sep(n, '/');
    if q.len() == 0 {
        assert(p.subrange(1, p.len() as int) =~= n);
    } else {
        let b = q.subrange(s, q.len() as int);
        assert(p.subrange(s, p.len() as int) =~= b + seq!['/'] + n);
        lemma_split_join(b, n, '/');
        let segs = split_on(b, '/') + seq![n];
        assert(segs.drop_last() =~= split_on(b, '/'));
        assert(segs.last() == n);
    }
}

/// In a path that starts with the root, a plain name `d`, a slash and a plain name
/// `n`, followed by nothing or by a slash and more, the third component is `n`.
pub proof fn lemma_third_component(d: Seq<char>, n: Seq<char>, tail: Seq<char>)
    requires
        is_plain_name(d),
        is_plain_name(n),
        tail.len() == 0 || tail[0] == '/',
    ensures
        spec_nth_component(seq!['/'] + d + seq!['/'] + n + tail, 2) == Some(n),
{
    let p = seq!['/'] + d + seq!['/'] + n + tail;
    assert(has_root(p));
    let body = p.subrange(1, p.len() as int);
    assert(body =~= d + seq!['/'] + (n + tail));
    lemma_split_join(d, n + tail, '/');
    lemma_split_without_sep(d, '/');
    lemma_split_without_sep(n, '/');
    let rest_segs = if tail.len() == 0 {
        assert(n + tail =~= n);
        Seq::<Seq<char>>::empty()
    } else {
        let rest = tail.drop_first();
        assert(n + tail =~= n + seq!['/'] + rest);
        lemma_split_join(n, rest, '/');
        split_on(rest, '/')
    };
    let segs = seq![d, n] + rest_segs;
    assert(split_on(body, '/') =~= segs);
    lemma_body_components_append(seq![d, n], rest_segs);
    assert(seq![d, n].drop_last() =~= seq![d]);
    assert(seq![d].drop_last() =~= Seq::<Seq<char>>::empty());
    assert(!is_ignorable(d) && !is_ignorable(n));
    assert(seq![d].last() == d);
    assert(body_components(Seq::<Seq<char>>::empty()) =~= Seq::<Component>::empty());
    assert(body_components(seq![d]) =~= seq![Component::Normal(d)]);
    assert(seq![d, n].last() == n);
    let cs = body_components(seq![d, n]);
    assert(cs =~= seq![Component::Normal(d), Component::Normal(n)]);
    assert(path_components(p)[2] == Component::Normal(n));
}

/// A directory path ending in a slash, followed by a plain name, ends in a slash
/// and the slash-free `t` only when the name is `t`.
pub proof fn lemma_ends_with_slash_name(dir: Seq<char>, n: Seq<char>, t: Seq<char>)
    requires
        dir.len() > 0,
        dir.last() == '/',
        is_plain_name(n),
        !t.contains('/'),
    ensures
        seq_ends_with(dir + n, seq!['/'] + t) ==> n == t,
{
    let p = dir + n;
    let st = seq!['/'] + t;
    if seq_ends_with(p, st) {
        let k = p.len() - st.len();
        assert(p.subrange(k, p.len() as int)[0] == st[0]);
        assert(p[k] == '/');
        if k >= dir.len() {
            assert(n[k - dir.len()] == '/');
        } else if k < dir.len() - 1 {
            let d = dir.len() - 1 - k;
            assert(p.subrange(k, p.len() as int)[d] == st[d]);
            assert(t[d - 1] == '/');
        } else {
            assert(p.subrange(k + 1, p.len() as int) =~= n);
            assert(st.drop_first() =~= t);
            assert(p.subrange(k, p.len() as int).drop_first() =~= p.subrange(k + 1, p.len() as int));
        }
    }
}

} // verus!
