//! Plain-string substitution: templates and pages carry literal placeholder
//! markers, and wrapping a page or injecting its table of contents is a
//! replacement of every occurrence of such a marker.

use vstd::prelude::*;
use vstd::string::*;

verus! {

/// `s` with every non-overlapping occurrence of `pat` replaced by `repl`,
/// scanning left to right.
pub open spec fn replace_spec(s: Seq<char>, pat: Seq<char>, repl: Seq<char>) -> Seq<char>
    decreases s.len(),
    when pat.len() > 0
{
    if s.len() < pat.len() {
        s
    } else if s.take(pat.len() as int) == pat {
        repl + replace_spec(s.skip(pat.len() as int), pat, repl)
    } else {
        s.take(1) + replace_spec(s.skip(1), pat, repl)
    }
}

/// Whether `pat` occurs in `s` at character position `i`.
fn matches_at(s: &str, pat: &str, i: usize) -> (r: bool)
    requires
        i + pat@.len() <= s@.len(),
    ensures
        r == (s@.subrange(i as int, i + pat@.len()) == pat@),
{
    let n = s.unicode_len();
    let m = pat.unicode_len();
    let mut j: usize = 0;
    while j < m
        invariant
            0 <= j <= m,
            m == pat@.len(),
            n == s@.len(),
            i + m <= n,
            forall|k: int| 0 <= k < j ==> s@[i + k] == pat@[k],
        decreases m - j,
    {
        if s.get_char(i + j) != pat.get_char(j) {
            proof {
                assert(s@.subrange(i as int, i + pat@.len())[j as int] == s@[i + j]);
            }
            return false;
        }
        j = j + 1;
    }
    proof {
        assert(s@.subrange(i as int, i + pat@.len()) =~= pat@);
    }
    true
}

/// `s` with every occurrence of `pat` replaced by `repl`.
pub fn replace_all(s: &str, pat: &str, repl: &str) -> (r: String)
    requires
        pat@.len() > 0,
    ensures
        r@ == replace_spec(s@, pat@, repl@),
{
    let n = s.unicode_len();
    let m = pat.unicode_len();
    let mut out = String::new();
    let mut i: usize = 0;
    proof {
        assert(s@.skip(0) =~= s@);
        assert(out@ + s@ =~= s@);
    }
    while i < n
        invariant
            0 <= i <= n,
            n == s@.len(),
            m == pat@.len(),
            m > 0,
            replace_spec(s@, pat@, repl@) == out@ + replace_spec(s@.skip(i as int), pat@, repl@),
        decreases n - i,
    {
        let ghost tail = s@.skip(i as int);
        if m <= n - i && matches_at(s, pat, i) {
            proof {
                assert(tail.take(m as int) =~= s@.subrange(i as int, i + m));
                assert(tail.skip(m as int) =~= s@.skip(i + m));
            }
            out.append(repl);
            i = i + m;
        } else {
            proof {
                assert(tail.take(1) =~= s@.subrange(i as int, i as int + 1));
                assert(tail.skip(1) =~= s@.skip(i as int + 1));
                if m <= n - i {
                    assert(tail.take(m as int) =~= s@.subrange(i as int, i + m));
                }
            }
            out.append(s.substring_char(i, i + 1));
            i = i + 1;
        }
    }
    proof {
        assert(s@.skip(i as int) =~= Seq::<char>::empty());
        assert(out@ + s@.skip(i as int) =~= out@);
    }
    out
}

/// The placeholder in a template that a page's rendered body replaces.
pub open spec fn content_marker() -> Seq<char> {
    "<!-- {CONTENT} -->"@
}

/// The rendered body substituted into the template at every content marker;
/// without a template the body stands alone.
pub fn wrap_html_content(content: &str, template: Option<&str>) -> (r: String)
    ensures
        r@ == match template {
            Some(t) => replace_spec(t@, content_marker(), content@),
            None => content@,
        },
{
    match template {
        Some(t) => {
            proof {
                reveal_strlit("<!-- {CONTENT} -->");
            }
            replace_all(t, "<!-- {CONTENT} -->", content)
        },
        None => content.to_owned(),
    }
}

} // verus!
