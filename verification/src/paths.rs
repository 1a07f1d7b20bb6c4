//! The crate's model of site paths.
//!
//! A path is a plain string: segments joined by single `/` characters, with
//! the empty string naming the site root. All paths handed to the library are
//! expressed relative to the site root unless a function says otherwise.

use vstd::prelude::*;
use vstd::string::*;

verus! {

/// Index of the last occurrence of `c` in `s`, or -1 if `c` does not occur.
pub open spec fn last_pos(s: Seq<char>, c: char) -> int
    decreases s.len(),
{
    if s.len() == 0 {
        -1
    } else if s[s.len() - 1] == c {
        s.len() - 1
    } else {
        last_pos(s.drop_last(), c)
    }
}

pub proof fn lemma_last_pos(s: Seq<char>, c: char)
    ensures
        -1 <= last_pos(s, c) < s.len(),
        last_pos(s, c) >= 0 ==> s[last_pos(s, c)] == c,
        forall|j: int| last_pos(s, c) < j < s.len() ==> s[j] != c,
    decreases s.len(),
{
    if s.len() > 0 && s[s.len() - 1] != c {
        lemma_last_pos(s.drop_last(), c);
        assert forall|j: int| last_pos(s, c) < j < s.len() implies s[j] != c by {
            if j < s.len() - 1 {
                assert(s.drop_last()[j] == s[j]);
            }
        }
    }
}

/// The last occurrence of `c` in the whole string lies in any prefix that the
/// missing suffix does not touch.
proof fn lemma_last_pos_in_prefix(s: Seq<char>, c: char, i: int)
    requires
        0 <= i <= s.len(),
        forall|j: int| i <= j < s.len() ==> s[j] != c,
    ensures
        last_pos(s, c) == last_pos(s.take(i), c),
    decreases s.len() - i,
{
    if i == s.len() {
        assert(s.take(i) =~= s);
    } else {
        lemma_last_pos_in_prefix(s, c, i + 1);
        let t = s.take(i + 1);
        assert(t[t.len() - 1] == s[i]);
        assert(t.drop_last() =~= s.take(i));
    }
}

/// Index of the last occurrence of `c` in `s`, if any.
pub fn find_last(s: &str, c: char) -> (r: Option<usize>)
    ensures
        match r {
            Some(i) => last_pos(s@, c) == i as int && i < s@.len(),
            None => last_pos(s@, c) == -1,
        },
{
    let n = s.unicode_len();
    let mut i = n;
    while i > 0
        invariant
            0 <= i <= n,
            n == s@.len(),
            forall|j: int| i <= j < s@.len() ==> s@[j] != c,
        decreases i,
    {
        if s.get_char(i - 1) == c {
            proof {
                lemma_last_pos_in_prefix(s@, c, i as int);
                let t = s@.take(i as int);
                assert(t[t.len() - 1] == c);
            }
            return Some(i - 1);
        }
        i = i - 1;
    }
    proof {
        lemma_last_pos_in_prefix(s@, c, 0);
    }
    None
}

/// The final segment of a path: everything after the last `/`, or the whole
/// path when it has no `/`.
pub open spec fn file_name_of(path: Seq<char>) -> Seq<char> {
    path.skip(last_pos(path, '/') + 1)
}

/// The extension of a path's final segment: what follows its last `.`, absent
/// when the segment has no `.` or only a leading one.
pub open spec fn extension_of(path: Seq<char>) -> Option<Seq<char>> {
    let name = file_name_of(path);
    let d = last_pos(name, '.');
    if d <= 0 {
        None
    } else {
        Some(name.skip(d + 1))
    }
}

/// The final segment of a path without its extension.
pub open spec fn file_stem_of(path: Seq<char>) -> Seq<char> {
    let name = file_name_of(path);
    let d = last_pos(name, '.');
    if d <= 0 {
        name
    } else {
        name.take(d)
    }
}

/// The path with its final segment's extension replaced by `html` (or with
/// `.html` appended when the segment has no extension).
pub open spec fn with_html_extension_spec(path: Seq<char>) -> Seq<char> {
    let name = file_name_of(path);
    let d = last_pos(name, '.');
    if d <= 0 {
        path + ".html"@
    } else {
        path.take(path.len() - (name.len() - d)) + ".html"@
    }
}

pub fn file_name(path: &str) -> (r: String)
    ensures
        r@ == file_name_of(path@),
{
    proof {
        lemma_last_pos(path@, '/');
    }
    let n = path.unicode_len();
    match find_last(path, '/') {
        Some(i) => path.substring_char(i + 1, n).to_owned(),
        None => {
            proof {
                assert(path@.skip(0) =~= path@);
            }
            path.to_owned()
        },
    }
}

pub fn extension(path: &str) -> (r: Option<String>)
    ensures
        match r {
            Some(e) => extension_of(path@) == Some(e@),
            None => extension_of(path@) is None,
        },
{
    let name = file_name(path);
    let m = name.unicode_len();
    match find_last(name.as_str(), '.') {
        Some(d) => {
            if d > 0 {
                Some(name.substring_char(d + 1, m).to_owned())
            } else {
                None
            }
        },
        None => None,
    }
}

pub fn file_stem(path: &str) -> (r: String)
    ensures
        r@ == file_stem_of(path@),
{
    let name = file_name(path);
    match find_last(name.as_str(), '.') {
        Some(d) => {
            if d > 0 {
                name.substring_char(0, d).to_owned()
            } else {
                name
            }
        },
        None => name,
    }
}

pub fn with_html_extension(path: &str) -> (r: String)
    ensures
        r@ == with_html_extension_spec(path@),
{
    proof {
        lemma_last_pos(path@, '/');
    }
    let n = path.unicode_len();
    let name = file_name(path);
    let m = name.unicode_len();
    let mut base: String = match find_last(name.as_str(), '.') {
        Some(d) => {
            if d > 0 {
                path.substring_char(0, n - (m - d)).to_owned()
            } else {
                proof {
                    assert(path@.take(path@.len() as int) =~= path@);
                }
                path.to_owned()
            }
        },
        None => {
            proof {
                assert(path@.take(path@.len() as int) =~= path@);
            }
            path.to_owned()
        },
    };
    base.append(".html");
    base
}

/// The views of a sequence of strings.
pub open spec fn views_of(v: Seq<String>) -> Seq<Seq<char>> {
    v.map_values(|s: String| s@)
}

pub proof fn lemma_views_push(v: Seq<String>, x: String)
    ensures
        views_of(v.push(x)) =~= views_of(v).push(x@),
{
}

pub proof fn lemma_views_take_push(v: Seq<String>, i: int)
    requires
        0 <= i < v.len(),
    ensures
        views_of(v.take(i + 1)) =~= views_of(v.take(i)).push(v[i]@),
{
}

pub fn str_equal(a: &str, b: &str) -> (r: bool)
    ensures
        r == (a@ == b@),
{
    let x = a.to_owned();
    let y = b.to_owned();
    x == y
}

/// Whether `anc` names a directory that lies strictly above `desc`: `anc` is a
/// proper prefix of `desc` ending at a segment boundary. The empty path (the
/// site root) is an ancestor of every non-empty path.
pub open spec fn path_is_ancestor(anc: Seq<char>, desc: Seq<char>) -> bool {
    &&& anc.len() < desc.len()
    &&& desc.take(anc.len() as int) == anc
    &&& (anc.len() == 0 || desc[anc.len() as int] == '/')
}

/// Whether `ancestor` is a strict ancestor directory of `descendant`.
pub fn is_ancestor(ancestor: &str, descendant: &str) -> (r: bool)
    ensures
        r == path_is_ancestor(ancestor@, descendant@),
{
    let na = ancestor.unicode_len();
    let nd = descendant.unicode_len();
    if na >= nd {
        return false;
    }
    let mut i: usize = 0;
    while i < na
        invariant
            0 <= i <= na,
            na == ancestor@.len(),
            nd == descendant@.len(),
            na < nd,
            forall|j: int| 0 <= j < i ==> descendant@[j] == ancestor@[j],
        decreases na - i,
    {
        if descendant.get_char(i) != ancestor.get_char(i) {
            proof {
                assert(descendant@.take(na as int)[i as int] != ancestor@[i as int]);
            }
            return false;
        }
        i = i + 1;
    }
    proof {
        assert(descendant@.take(na as int) =~= ancestor@);
    }
    if na == 0 {
        true
    } else {
        descendant.get_char(na) == '/'
    }
}

/// `entity` expressed relative to `root`: the empty path when they are equal,
/// the remainder after the separator when `root` is an ancestor, and nothing
/// when `entity` does not lie under `root`.
pub open spec fn relative_to_spec(entity: Seq<char>, root: Seq<char>) -> Option<Seq<char>> {
    if entity == root {
        Some(Seq::<char>::empty())
    } else if root.len() == 0 {
        Some(entity)
    } else if path_is_ancestor(root, entity) {
        Some(entity.skip(root.len() as int + 1))
    } else {
        None
    }
}

pub fn relative_to(entity: &str, root: &str) -> (r: Option<String>)
    ensures
        match r {
            Some(p) => relative_to_spec(entity@, root@) == Some(p@),
            None => relative_to_spec(entity@, root@) is None,
        },
{
    if str_equal(entity, root) {
        return Some(String::new());
    }
    let nr = root.unicode_len();
    if nr == 0 {
        return Some(entity.to_owned());
    }
    if is_ancestor(root, entity) {
        let ne = entity.unicode_len();
        Some(entity.substring_char(nr + 1, ne).to_owned())
    } else {
        None
    }
}

/// The segments of a path, split at every `/`; the empty path yields one
/// empty segment.
pub open spec fn segments_of(path: Seq<char>) -> Seq<Seq<char>>
    decreases path.len(),
    via segments_of_decreases
{
    let p = last_pos(path, '/');
    if p == -1 {
        seq![path]
    } else {
        segments_of(path.take(p)) + seq![path.skip(p + 1)]
    }
}

#[via_fn]
proof fn segments_of_decreases(path: Seq<char>) {
    lemma_last_pos(path, '/');
}

pub fn split_segments(path: &str) -> (r: Vec<String>)
    ensures
        views_of(r@) == segments_of(path@),
    decreases path@.len(),
{
    proof {
        lemma_last_pos(path@, '/');
    }
    let n = path.unicode_len();
    match find_last(path, '/') {
        None => {
            let mut v: Vec<String> = Vec::new();
            v.push(path.to_owned());
            proof {
                assert(views_of(v@) =~= seq![path@]);
            }
            v
        },
        Some(p) => {
            let mut v = split_segments(path.substring_char(0, p));
            let ghost pre = v@;
            v.push(path.substring_char(p + 1, n).to_owned());
            proof {
                lemma_views_push(pre, v@.last());
                assert(views_of(v@) =~= segments_of(path@.take(p as int)) + seq![path@.skip(p + 1)]);
            }
            v
        },
    }
}

/// Segments folded into a canonical relative path: empty and `.` segments are
/// dropped, `..` removes the segment before it, and a `..` with nothing left
/// to remove means the path escapes the root, which yields nothing.
pub open spec fn normalize_segments(segs: Seq<Seq<char>>) -> Option<Seq<Seq<char>>>
    decreases segs.len(),
{
    if segs.len() == 0 {
        Some(Seq::<Seq<char>>::empty())
    } else {
        match normalize_segments(segs.drop_last()) {
            None => None,
            Some(st) => {
                let last = segs.last();
                if last == ""@ || last == "."@ {
                    Some(st)
                } else if last == ".."@ {
                    if st.len() == 0 {
                        None
                    } else {
                        Some(st.drop_last())
                    }
                } else {
                    Some(st.push(last))
                }
            },
        }
    }
}

/// A normalization that failed on a prefix fails on the whole.
proof fn lemma_normalize_none_extends(segs: Seq<Seq<char>>, i: int)
    requires
        0 <= i <= segs.len(),
        normalize_segments(segs.take(i)) is None,
    ensures
        normalize_segments(segs) is None,
    decreases segs.len() - i,
{
    if i == segs.len() {
        assert(segs.take(i) =~= segs);
    } else {
        let t = segs.take(i + 1);
        assert(t.drop_last() =~= segs.take(i));
        lemma_normalize_none_extends(segs, i + 1);
    }
}

pub fn normalize(segs: &Vec<String>) -> (r: Option<Vec<String>>)
    ensures
        match r {
            Some(v) => normalize_segments(views_of(segs@)) == Some(views_of(v@)),
            None => normalize_segments(views_of(segs@)) is None,
        },
{
    let ghost full = views_of(segs@);
    let mut st: Vec<String> = Vec::new();
    let mut i: usize = 0;
    while i < segs.len()
        invariant
            0 <= i <= segs@.len(),
            full == views_of(segs@),
            normalize_segments(full.take(i as int)) == Some(views_of(st@)),
        decreases segs@.len() - i,
    {
        let seg = &segs[i];
        let ghost pre_st = st@;
        proof {
            assert(full.take(i as int + 1).drop_last() =~= full.take(i as int));
            assert(full.take(i as int + 1).last() == seg@);
        }
        if str_equal(seg.as_str(), "") || str_equal(seg.as_str(), ".") {
            // segment dropped
        } else if str_equal(seg.as_str(), "..") {
            if st.len() == 0 {
                proof {
                    assert(views_of(st@).len() == 0);
                    lemma_normalize_none_extends(full, i as int + 1);
                }
                return None;
            }
            let _ = st.pop();
            proof {
                assert(views_of(st@) =~= views_of(pre_st).drop_last());
            }
        } else {
            st.push(seg.clone());
            proof {
                lemma_views_push(pre_st, st@.last());
            }
        }
        i = i + 1;
    }
    proof {
        assert(full.take(i as int) =~= full);
    }
    Some(st)
}

/// Segments joined back into a path with `/` between them.
pub open spec fn join_segments(segs: Seq<Seq<char>>) -> Seq<char>
    decreases segs.len(),
{
    if segs.len() == 0 {
        Seq::<char>::empty()
    } else if segs.len() == 1 {
        segs[0]
    } else {
        join_segments(segs.drop_last()) + "/"@ + segs.last()
    }
}

pub fn join(segs: &Vec<String>) -> (r: String)
    ensures
        r@ == join_segments(views_of(segs@)),
{
    let mut out = String::new();
    let mut i: usize = 0;
    proof {
        assert(out@ =~= join_segments(views_of(segs@.take(0))));
    }
    while i < segs.len()
        invariant
            0 <= i <= segs@.len(),
            out@ == join_segments(views_of(segs@.take(i as int))),
        decreases segs@.len() - i,
    {
        if i > 0 {
            out.append("/");
        }
        out.append(segs[i].as_str());
        proof {
            lemma_views_take_push(segs@, i as int);
            assert(views_of(segs@.take(i as int + 1)).drop_last() =~= views_of(segs@.take(i as int)));
            assert(views_of(segs@.take(i as int + 1)).last() == segs@[i as int]@);
        }
        i = i + 1;
    }
    proof {
        assert(segs@.take(i as int) =~= segs@);
    }
    out
}

} // verus!
