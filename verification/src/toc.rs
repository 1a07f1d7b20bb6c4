//! The table-of-contents assembler: the second pass.
//!
//! For one target page it scans the whole ledger once, tracking depth with a
//! stack of folders whose list is opened lazily, and emits a nested `<ul>`
//! structure in which directories appear only as non-clickable headings, other
//! pages appear as links, and the target page itself appears bold and
//! non-linked.
//!
//! The markup is specified in two layers: a scan of the ledger yields a
//! sequence of abstract tokens, and a rendering turns each token into its
//! HTML text. The laws about a page's navigation tree are stated over the
//! token sequence.

use vstd::prelude::*;
use vstd::string::*;
use crate::ledger::{FirstPassResult, prefix_view};
use crate::paths::{file_name_of, file_stem_of, file_name, file_stem, str_equal, views_of};

verus! {

/// One item of a page's navigation markup.
pub enum TocToken {
    /// A nesting level opens: `<ul>`.
    Open,
    /// A nesting level closes: `</ul>`.
    Close,
    /// A non-clickable section heading for a folder.
    Heading { name: Seq<char> },
    /// A link to another page, shown by its file stem.
    Link { rel: Seq<char>, stem: Seq<char> },
    /// The target page itself: bold and non-linked.
    Current { stem: Seq<char> },
}

/// The scan's running state.
pub struct TocState {
    pub tokens: Seq<TocToken>,
    pub prev_depth: int,
    pub prev_file_depth: int,
    pub stack: Seq<Seq<char>>,
}

/// `n` closing tokens.
pub open spec fn closes_seq(n: int) -> Seq<TocToken>
    decreases n,
{
    if n <= 0 {
        Seq::<TocToken>::empty()
    } else {
        closes_seq(n - 1).push(TocToken::Close)
    }
}

pub open spec fn toc_init() -> TocState {
    TocState {
        tokens: seq![TocToken::Open],
        prev_depth: 0,
        prev_file_depth: 0,
        stack: Seq::<Seq<char>>::empty(),
    }
}

/// How many nesting levels close before an entry at `depth`.
pub open spec fn pop_count(st: TocState, depth: int) -> int {
    if depth < st.prev_depth {
        st.prev_depth - depth
    } else {
        0
    }
}

/// Closing of nesting levels before an entry at `depth`: each level pops a
/// pending folder while any remain (a list that never opened closes nothing),
/// and closes an open list once the pending folders are gone.
pub open spec fn pop_phase(st: TocState, depth: int) -> TocState {
    let pops = pop_count(st, depth);
    let from_stack = if pops <= st.stack.len() {
        pops
    } else {
        st.stack.len() as int
    };
    let closes = pops - from_stack;
    TocState {
        tokens: st.tokens + closes_seq(closes),
        prev_depth: st.prev_depth,
        prev_file_depth: st.prev_file_depth,
        stack: st.stack.take(st.stack.len() - from_stack),
    }
}

/// Tokens that open the lists of all still-pending folders, oldest first: a
/// heading for each folder followed by the opening of its nested list.
pub open spec fn flush_tokens(stack: Seq<Seq<char>>) -> Seq<TocToken>
    decreases stack.len(),
{
    if stack.len() == 0 {
        Seq::<TocToken>::empty()
    } else {
        seq![TocToken::Heading { name: stack.first() }, TocToken::Open] + flush_tokens(
            stack.drop_first(),
        )
    }
}

/// The scan's step for one ledger entry. A directory only records its depth
/// and joins the pending-folder stack (the root stays off the stack); a page
/// first flushes every pending folder, then emits its own item: the target
/// page non-linked, every other page as a link.
pub open spec fn toc_step(st: TocState, e: FirstPassResult, my_rel: Seq<char>) -> TocState {
    match e {
        FirstPassResult::Dir { depth, relative_path } => {
            let st1 = pop_phase(st, depth as int);
            TocState {
                tokens: st1.tokens,
                prev_depth: depth as int,
                prev_file_depth: st1.prev_file_depth,
                stack: if depth > 0 {
                    st1.stack.push(file_name_of(relative_path@))
                } else {
                    st1.stack
                },
            }
        },
        FirstPassResult::HtmlOutput { depth, html, relative_path } => {
            let st1 = pop_phase(st, depth as int);
            let stem = file_stem_of(relative_path@);
            let item = if relative_path@ == my_rel {
                TocToken::Current { stem }
            } else {
                TocToken::Link { rel: relative_path@, stem }
            };
            TocState {
                tokens: st1.tokens + flush_tokens(st1.stack) + seq![item],
                prev_depth: depth as int,
                prev_file_depth: depth as int,
                stack: Seq::<Seq<char>>::empty(),
            }
        },
    }
}

pub open spec fn toc_scan(entries: Seq<FirstPassResult>, my_rel: Seq<char>) -> TocState
    decreases entries.len(),
{
    if entries.len() == 0 {
        toc_init()
    } else {
        toc_step(toc_scan(entries.drop_last(), my_rel), entries.last(), my_rel)
    }
}

/// The tokens of the target page's whole navigation tree: the scan of the
/// ledger, then one close for every list still open at the last file's depth.
pub open spec fn toc_tokens_spec(entries: Seq<FirstPassResult>, my_rel: Seq<char>) -> Seq<
    TocToken,
> {
    let st = toc_scan(entries, my_rel);
    st.tokens + closes_seq(st.prev_file_depth)
}

/// `s` repeated `n` times.
pub open spec fn repeat_str(s: Seq<char>, n: int) -> Seq<char>
    decreases n,
{
    if n <= 0 {
        Seq::<char>::empty()
    } else {
        repeat_str(s, n - 1) + s
    }
}

/// The `../` steps that lift a link from the target page's directory back to
/// the site root: one fewer than the page's depth, none at the top.
pub open spec fn updir_prefix(my_depth: int) -> Seq<char> {
    if my_depth > 1 {
        repeat_str("../"@, my_depth - 1)
    } else {
        Seq::<char>::empty()
    }
}

/// The HTML text of one token. Only links depend on the target page's depth
/// and on the site link prefix.
pub open spec fn render_token(t: TocToken, my_depth: int, prefix: Seq<char>) -> Seq<char> {
    match t {
        TocToken::Open => "<ul>"@,
        TocToken::Close => "</ul>"@,
        TocToken::Heading { name } => "<li><b><u>"@ + name + ":</u></b></li>"@,
        TocToken::Link { rel, stem } => "<li><a href=\""@ + updir_prefix(my_depth) + prefix + rel
            + "\">"@ + stem + "</a></li>"@,
        TocToken::Current { stem } => "<li><b>"@ + stem + "</b></li>"@,
    }
}

pub open spec fn render_tokens(ts: Seq<TocToken>, my_depth: int, prefix: Seq<char>) -> Seq<char>
    decreases ts.len(),
{
    if ts.len() == 0 {
        Seq::<char>::empty()
    } else {
        render_tokens(ts.drop_last(), my_depth, prefix) + render_token(ts.last(), my_depth, prefix)
    }
}

/// The full table-of-contents markup for the page at `my_rel` and depth
/// `my_depth`, built from the whole ledger.
pub open spec fn toc_html_spec(
    entries: Seq<FirstPassResult>,
    my_depth: int,
    my_rel: Seq<char>,
    prefix: Seq<char>,
) -> Seq<char> {
    render_tokens(toc_tokens_spec(entries, my_rel), my_depth, prefix)
}

/// Rendering distributes over concatenation of token sequences.
pub proof fn lemma_render_app(a: Seq<TocToken>, b: Seq<TocToken>, my_depth: int, prefix: Seq<char>)
    ensures
        render_tokens(a + b, my_depth, prefix) == render_tokens(a, my_depth, prefix)
            + render_tokens(b, my_depth, prefix),
    decreases b.len(),
{
    if b.len() == 0 {
        assert(a + b =~= a);
        assert(render_tokens(a, my_depth, prefix) + render_tokens(b, my_depth, prefix)
            =~= render_tokens(a, my_depth, prefix));
    } else {
        lemma_render_app(a, b.drop_last(), my_depth, prefix);
        assert((a + b).drop_last() =~= a + b.drop_last());
        assert((a + b).last() == b.last());
        assert(render_tokens(a, my_depth, prefix) + (render_tokens(b.drop_last(), my_depth, prefix)
            + render_token(b.last(), my_depth, prefix)) =~= (render_tokens(a, my_depth, prefix)
            + render_tokens(b.drop_last(), my_depth, prefix)) + render_token(
            b.last(),
            my_depth,
            prefix,
        ));
    }
}

/// Appending one folder to the pending stack appends its heading and opening
/// to the flush.
pub proof fn lemma_flush_push(stack: Seq<Seq<char>>, name: Seq<char>)
    ensures
        flush_tokens(stack.push(name)) == flush_tokens(stack) + seq![
            TocToken::Heading { name },
            TocToken::Open,
        ],
    decreases stack.len(),
{
    if stack.len() == 0 {
        let p = stack.push(name);
        assert(p.len() == 1);
        assert(p[0] == name);
        assert(p.first() == name);
        assert(p.drop_first() =~= Seq::<Seq<char>>::empty());
        assert(flush_tokens(p.drop_first()) =~= Seq::<TocToken>::empty());
        assert(flush_tokens(p) == seq![TocToken::Heading { name }, TocToken::Open] + flush_tokens(
            p.drop_first(),
        ));
        assert(flush_tokens(p) =~= flush_tokens(stack) + seq![
            TocToken::Heading { name },
            TocToken::Open,
        ]);
    } else {
        lemma_flush_push(stack.drop_first(), name);
        assert(stack.push(name).drop_first() =~= stack.drop_first().push(name));
        assert(stack.push(name).first() == stack.first());
        assert(seq![TocToken::Heading { name: stack.first() }, TocToken::Open] + (flush_tokens(
            stack.drop_first(),
        ) + seq![TocToken::Heading { name }, TocToken::Open]) =~= (seq![
            TocToken::Heading { name: stack.first() },
            TocToken::Open,
        ] + flush_tokens(stack.drop_first())) + seq![TocToken::Heading { name }, TocToken::Open]);
    }
}

/// Taking one element fewer drops the last element of the longer take.
proof fn lemma_take_shrink<T>(s: Seq<T>, a: int)
    requires
        1 <= a <= s.len(),
    ensures
        s.take(a).drop_last() =~= s.take(a - 1),
{
}

/// A single token renders as itself.
proof fn lemma_render_single(t: TocToken, my_depth: int, prefix: Seq<char>)
    ensures
        render_tokens(seq![t], my_depth, prefix) == render_token(t, my_depth, prefix),
{
    assert(seq![t].len() == 1);
    assert(seq![t].last() == t);
    assert(seq![t].drop_last() =~= Seq::<TocToken>::empty());
    assert(render_tokens(Seq::<TocToken>::empty(), my_depth, prefix) == Seq::<char>::empty());
    assert(render_tokens(seq![t], my_depth, prefix) == render_tokens(
        seq![t].drop_last(),
        my_depth,
        prefix,
    ) + render_token(t, my_depth, prefix));
    assert(Seq::<char>::empty() + render_token(t, my_depth, prefix) =~= render_token(
        t,
        my_depth,
        prefix,
    ));
}

/// Emits the closings of the pop phase: pending folders are dropped silently,
/// and once none remain each further level emits `</ul>`.
fn close_levels(
    out: &mut String,
    folders: &mut Vec<String>,
    prev_depth: usize,
    depth: usize,
    Ghost(st): Ghost<TocState>,
    Ghost(dd): Ghost<int>,
    Ghost(pfx): Ghost<Seq<char>>,
)
    requires
        old(out)@ == render_tokens(st.tokens, dd, pfx),
        views_of(old(folders)@) == st.stack,
        prev_depth as int == st.prev_depth,
    ensures
        final(out)@ == render_tokens(pop_phase(st, depth as int).tokens, dd, pfx),
        views_of(final(folders)@) == pop_phase(st, depth as int).stack,
{
    let ghost pops0 = pop_count(st, depth as int);
    let ghost slen = st.stack.len() as int;
    let ghost from_stack = if pops0 <= slen {
        pops0
    } else {
        slen
    };
    if depth >= prev_depth {
        proof {
            assert(st.tokens + closes_seq(0) =~= st.tokens);
            assert(st.stack.take(slen) =~= st.stack);
        }
        return ;
    }
    let mut pops: usize = prev_depth - depth;
    proof {
        assert(pops as int == pops0);
        assert(st.stack.take(slen) =~= st.stack);
    }
    while pops > 0 && folders.len() > 0
        invariant
            pops0 == pop_count(st, depth as int),
            slen == st.stack.len(),
            0 <= pops as int <= pops0,
            pops0 - pops as int <= slen,
            views_of(folders@) == st.stack.take(slen - (pops0 - pops as int)),
            out@ == render_tokens(st.tokens, dd, pfx),
        decreases pops,
    {
        let ghost pre = folders@;
        let ghost a = slen - (pops0 - pops as int);
        let _ = folders.pop();
        proof {
            assert(views_of(pre).len() > 0);
            assert(a >= 1);
            assert(views_of(folders@) =~= views_of(pre).drop_last());
            lemma_take_shrink(st.stack, a);
            assert(slen - (pops0 - (pops as int - 1)) == a - 1);
        }
        pops = pops - 1;
    }
    proof {
        if pops == 0 {
            assert(pops0 - 0 <= slen);
            assert(from_stack == pops0);
        } else {
            assert(views_of(folders@).len() == 0);
            assert(slen - (pops0 - pops as int) <= 0);
            assert(from_stack == slen);
        }
        assert(pops as int == pops0 - from_stack);
        assert(st.tokens + closes_seq(0) =~= st.tokens);
        assert(views_of(folders@) == pop_phase(st, depth as int).stack);
    }
    while pops > 0
        invariant
            pops0 == pop_count(st, depth as int),
            slen == st.stack.len(),
            from_stack == if pops0 <= slen { pops0 } else { slen },
            0 <= pops as int <= pops0 - from_stack,
            out@ == render_tokens(st.tokens + closes_seq(pops0 - from_stack - pops as int), dd, pfx),
            views_of(folders@) == pop_phase(st, depth as int).stack,
        decreases pops,
    {
        let ghost k = pops0 - from_stack - pops as int;
        out.append("</ul>");
        proof {
            let base = st.tokens + closes_seq(k);
            assert(st.tokens + closes_seq(k + 1) =~= base.push(TocToken::Close));
            assert(base.push(TocToken::Close).drop_last() =~= base);
            assert(base.push(TocToken::Close).last() == TocToken::Close);
        }
        pops = pops - 1;
    }
}

/// Opens the list of every pending folder, oldest first: a heading item for
/// the folder's name, then a new nested list; the stack is left empty.
fn flush_folders(
    out: &mut String,
    folders: &mut Vec<String>,
    Ghost(base): Ghost<Seq<TocToken>>,
    Ghost(dd): Ghost<int>,
    Ghost(pfx): Ghost<Seq<char>>,
)
    requires
        old(out)@ == render_tokens(base, dd, pfx),
    ensures
        final(out)@ == render_tokens(base + flush_tokens(views_of(old(folders)@)), dd, pfx),
        final(folders)@.len() == 0,
{
    let ghost vs = views_of(folders@);
    let mut j: usize = 0;
    proof {
        assert(vs.take(0) =~= Seq::<Seq<char>>::empty());
        assert(base + flush_tokens(vs.take(0)) =~= base);
    }
    while j < folders.len()
        invariant
            0 <= j <= folders@.len(),
            vs == views_of(folders@),
            out@ == render_tokens(base + flush_tokens(vs.take(j as int)), dd, pfx),
        decreases folders@.len() - j,
    {
        let name = &folders[j];
        let ghost h = TocToken::Heading { name: name@ };
        let ghost pair = seq![h, TocToken::Open];
        proof {
            assert(vs[j as int] == name@);
            assert(vs.take(j as int + 1) =~= vs.take(j as int).push(name@));
            lemma_flush_push(vs.take(j as int), name@);
            lemma_render_app(base + flush_tokens(vs.take(j as int)), pair, dd, pfx);
            assert(pair.drop_last() =~= seq![h]);
            assert(seq![h].drop_last() =~= Seq::<TocToken>::empty());
            assert(pair.last() == TocToken::Open);
            lemma_render_single(h, dd, pfx);
            assert(render_tokens(pair, dd, pfx) =~= render_token(h, dd, pfx) + render_token(
                TocToken::Open,
                dd,
                pfx,
            ));
            assert(base + flush_tokens(vs.take(j as int + 1)) =~= (base + flush_tokens(
                vs.take(j as int),
            )) + pair);
        }
        out.append("<li><b><u>");
        out.append(name.as_str());
        out.append(":</u></b></li>");
        out.append("<ul>");
        proof {
            assert(out@ =~= render_tokens(base + flush_tokens(vs.take(j as int)), dd, pfx)
                + render_token(h, dd, pfx) + render_token(TocToken::Open, dd, pfx));
            assert(out@ =~= render_tokens(base + flush_tokens(vs.take(j as int + 1)), dd, pfx));
        }
        j = j + 1;
    }
    proof {
        assert(vs.take(j as int) =~= vs);
    }
    folders.clear();
}

/// The table of contents for the page whose rendered relative path is
/// `my_result` and whose depth is `my_depth`, assembled from the whole ledger.
#[verifier::loop_isolation(false)]
pub fn generate_table_of_contents(
    results: &Vec<FirstPassResult>,
    my_depth: usize,
    my_result: &str,
    web_prefix: Option<&str>,
) -> (r: String)
    ensures
        r@ == toc_html_spec(results@, my_depth as int, my_result@, prefix_view(web_prefix)),
{
    let ghost dd: int = my_depth as int;
    let ghost pfx: Seq<char> = prefix_view(web_prefix);
    let prefix: &str = match web_prefix {
        Some(p) => p,
        None => "",
    };
    proof {
        reveal_strlit("");
        assert(prefix@ =~= pfx);
    }
    let mut updirs = String::new();
    if my_depth > 1 {
        let mut k: usize = 0;
        while k < my_depth - 1
            invariant
                0 <= k <= my_depth - 1,
                updirs@ == repeat_str("../"@, k as int),
            decreases my_depth - 1 - k,
        {
            updirs.append("../");
            k = k + 1;
        }
    }
    proof {
        assert(updirs@ == updir_prefix(dd));
    }
    let mut out = String::new();
    out.append("<ul>");
    proof {
        lemma_render_single(TocToken::Open, dd, pfx);
        assert(Seq::<char>::empty() + "<ul>"@ =~= "<ul>"@);
        assert(toc_init().tokens =~= seq![TocToken::Open]);
        assert(out@ =~= render_tokens(toc_init().tokens, dd, pfx));
        assert(results@.take(0) =~= Seq::<FirstPassResult>::empty());
    }
    let mut prev_depth: usize = 0;
    let mut prev_file_depth: usize = 0;
    let mut folders: Vec<String> = Vec::new();
    let mut i: usize = 0;
    while i < results.len()
        invariant
            0 <= i <= results@.len(),
            out@ == render_tokens(toc_scan(results@.take(i as int), my_result@).tokens, dd, pfx),
            prev_depth as int == toc_scan(results@.take(i as int), my_result@).prev_depth,
            prev_file_depth as int == toc_scan(results@.take(i as int), my_result@).prev_file_depth,
            views_of(folders@) == toc_scan(results@.take(i as int), my_result@).stack,
        decreases results@.len() - i,
    {
        let ghost st = toc_scan(results@.take(i as int), my_result@);
        proof {
            assert(results@.take(i as int + 1).drop_last() =~= results@.take(i as int));
            assert(results@.take(i as int + 1).last() == results@[i as int]);
        }
        let entry = &results[i];
        match entry {
            FirstPassResult::Dir { depth, relative_path } => {
                let d: usize = *depth;
                close_levels(&mut out, &mut folders, prev_depth, d, Ghost(st), Ghost(dd), Ghost(pfx));
                prev_depth = d;
                if d > 0 {
                    let ghost pre = folders@;
                    folders.push(file_name(relative_path.as_str()));
                    proof {
                        crate::paths::lemma_views_push(pre, folders@.last());
                    }
                }
            },
            FirstPassResult::HtmlOutput { depth, html, relative_path } => {
                let d: usize = *depth;
                close_levels(&mut out, &mut folders, prev_depth, d, Ghost(st), Ghost(dd), Ghost(pfx));
                let ghost st1 = pop_phase(st, d as int);
                flush_folders(&mut out, &mut folders, Ghost(st1.tokens), Ghost(dd), Ghost(pfx));
                let ghost flushed = st1.tokens + flush_tokens(st1.stack);
                let stem = file_stem(relative_path.as_str());
                let ghost item = if relative_path@ == my_result@ {
                    TocToken::Current { stem: stem@ }
                } else {
                    TocToken::Link { rel: relative_path@, stem: stem@ }
                };
                proof {
                    assert(flushed.push(item).drop_last() =~= flushed);
                    assert(flushed.push(item).last() == item);
                    assert(flushed + seq![item] =~= flushed.push(item));
                }
                if str_equal(relative_path.as_str(), my_result) {
                    out.append("<li><b>");
                    out.append(stem.as_str());
                    out.append("</b></li>");
                    proof {
                        assert(out@ =~= render_tokens(flushed, dd, pfx) + render_token(
                            item,
                            dd,
                            pfx,
                        ));
                    }
                } else {
                    out.append("<li><a href=\"");
                    out.append(updirs.as_str());
                    out.append(prefix);
                    out.append(relative_path.as_str());
                    out.append("\">");
                    out.append(stem.as_str());
                    out.append("</a></li>");
                    proof {
                        assert(out@ =~= render_tokens(flushed, dd, pfx) + render_token(
                            item,
                            dd,
                            pfx,
                        ));
                    }
                }
                proof {
                    assert(out@ == render_tokens(flushed.push(item), dd, pfx));
                    assert(toc_scan(results@.take(i as int + 1), my_result@).tokens == flushed
                        + seq![item]);
                }
                prev_depth = d;
                prev_file_depth = d;
            },
        }
        i = i + 1;
    }
    proof {
        assert(results@.take(i as int) =~= results@);
        assert(toc_init().tokens + closes_seq(0) =~= toc_init().tokens);
    }
    let ghost stf = toc_scan(results@, my_result@);
    let mut closes: usize = prev_file_depth;
    while closes > 0
        invariant
            0 <= closes as int <= stf.prev_file_depth,
            out@ == render_tokens(
                stf.tokens + closes_seq(stf.prev_file_depth - closes as int),
                dd,
                pfx,
            ),
        decreases closes,
    {
        let ghost k = stf.prev_file_depth - closes as int;
        out.append("</ul>");
        proof {
            let base = stf.tokens + closes_seq(k);
            assert(stf.tokens + closes_seq(k + 1) =~= base.push(TocToken::Close));
            assert(base.push(TocToken::Close).drop_last() =~= base);
            assert(base.push(TocToken::Close).last() == TocToken::Close);
        }
        closes = closes - 1;
    }
    proof {
        assert(stf.tokens + closes_seq(0) =~= stf.tokens);
    }
    out
}

/// Number of non-linked page items among the tokens.
pub open spec fn current_count(ts: Seq<TocToken>) -> int
    decreases ts.len(),
{
    if ts.len() == 0 {
        0
    } else {
        current_count(ts.drop_last()) + if ts.last() is Current {
            1int
        } else {
            0int
        }
    }
}

/// Number of page records at `rel` in the ledger.
pub open spec fn page_count(entries: Seq<FirstPassResult>, rel: Seq<char>) -> int
    decreases entries.len(),
{
    if entries.len() == 0 {
        0
    } else {
        page_count(entries.drop_last(), rel) + if entries.last() matches
            FirstPassResult::HtmlOutput { relative_path, .. } && relative_path@ == rel {
            1int
        } else {
            0int
        }
    }
}

/// Whether the ledger's record `i` is a page at `rel`.
pub open spec fn is_page_at(entries: Seq<FirstPassResult>, i: int, rel: Seq<char>) -> bool {
    &&& 0 <= i < entries.len()
    &&& entries[i] matches FirstPassResult::HtmlOutput { relative_path, .. } && relative_path@
        == rel
}

/// Whether the ledger's record `i` is a directory below the root whose name
/// is `name`.
pub open spec fn is_folder_at(entries: Seq<FirstPassResult>, i: int, name: Seq<char>) -> bool {
    &&& 0 <= i < entries.len()
    &&& entries[i] matches FirstPassResult::Dir { depth, relative_path } && depth > 0
        && file_name_of(relative_path@) == name
}

pub open spec fn ledger_has_page(entries: Seq<FirstPassResult>, rel: Seq<char>) -> bool {
    exists|i: int| #[trigger] is_page_at(entries, i, rel)
}

/// Whether some page record stands at position `lo` or later.
pub open spec fn has_page_from(entries: Seq<FirstPassResult>, lo: int) -> bool {
    exists|j: int| lo <= j < entries.len() && (#[trigger] entries[j]) is HtmlOutput
}

/// Whether a folder name on the pending stack is accounted for by the ledger.
pub open spec fn folder_justified(name: Seq<char>, entries: Seq<FirstPassResult>) -> bool {
    exists|i: int| #[trigger] is_folder_at(entries, i, name)
}

/// Whether the ledger accounts for a folder heading: a directory record
/// introduced the name and a page record stands after that directory.
pub open spec fn heading_justified(name: Seq<char>, entries: Seq<FirstPassResult>) -> bool {
    exists|i: int| #[trigger] is_folder_at(entries, i, name) && has_page_from(entries, i + 1)
}

/// Whether the ledger accounts for one token of a page's navigation tree:
/// list structure is free; a heading names a folder that a directory record
/// introduced and a later page record reached; a link is another page record,
/// never the target and never a directory; the target's own item is present
/// only when the ledger holds it.
pub open spec fn token_justified(
    t: TocToken,
    entries: Seq<FirstPassResult>,
    my_rel: Seq<char>,
) -> bool {
    match t {
        TocToken::Open => true,
        TocToken::Close => true,
        TocToken::Heading { name } => heading_justified(name, entries),
        TocToken::Link { rel, stem } => rel != my_rel && stem == file_stem_of(rel)
            && ledger_has_page(entries, rel),
        TocToken::Current { stem } => stem == file_stem_of(my_rel) && ledger_has_page(
            entries,
            my_rel,
        ),
    }
}

/// Non-linked page items count up over concatenation.
proof fn lemma_current_count_app(a: Seq<TocToken>, b: Seq<TocToken>)
    ensures
        current_count(a + b) == current_count(a) + current_count(b),
    decreases b.len(),
{
    if b.len() == 0 {
        assert(a + b =~= a);
    } else {
        lemma_current_count_app(a, b.drop_last());
        assert((a + b).drop_last() =~= a + b.drop_last());
        assert((a + b).last() == b.last());
    }
}

/// Closing tokens hold no page item.
proof fn lemma_closes_no_current(n: int)
    ensures
        current_count(closes_seq(n)) == 0,
        forall|k: int| 0 <= k < closes_seq(n).len() ==> closes_seq(n)[k] is Close,
    decreases n,
{
    if n > 0 {
        lemma_closes_no_current(n - 1);
        assert(closes_seq(n).drop_last() =~= closes_seq(n - 1));
    }
}

/// A flush emits only headings of the flushed names, and openings.
proof fn lemma_flush_membership(s: Seq<Seq<char>>)
    ensures
        current_count(flush_tokens(s)) == 0,
        forall|k: int| 0 <= k < flush_tokens(s).len() ==> flush_tokens(s)[k] is Open || exists|
            m: int,
        |
            0 <= m < s.len() && flush_tokens(s)[k] == (TocToken::Heading { name: s[m] }),
    decreases s.len(),
{
    if s.len() == 0 {
    } else {
        lemma_flush_membership(s.drop_first());
        let h = TocToken::Heading { name: s.first() };
        let pair = seq![h, TocToken::Open];
        let rest = flush_tokens(s.drop_first());
        lemma_current_count_app(pair, rest);
        assert(seq![h].drop_last() =~= Seq::<TocToken>::empty());
        assert(seq![h].last() == h);
        assert(current_count(Seq::<TocToken>::empty()) == 0);
        assert(current_count(seq![h]) == 0);
        assert(pair.drop_last() =~= seq![h]);
        assert(pair.last() == TocToken::Open);
        assert(current_count(pair) == 0);
        assert forall|k: int| 0 <= k < flush_tokens(s).len() implies flush_tokens(s)[k] is Open
            || exists|m: int| 0 <= m < s.len() && flush_tokens(s)[k] == (TocToken::Heading {
            name: s[m],
        }) by {
            if k < 2 {
                if k == 0 {
                    assert(flush_tokens(s)[0] == (TocToken::Heading { name: s[0] }));
                }
            } else {
                let t = flush_tokens(s)[k];
                assert(t == rest[k - 2]);
                if !(t is Open) {
                    let m = choose|m: int|
                        0 <= m < s.drop_first().len() && rest[k - 2] == (TocToken::Heading {
                            name: s.drop_first()[m],
                        });
                    assert(s.drop_first()[m] == s[m + 1]);
                    assert(t == (TocToken::Heading { name: s[m + 1] }));
                }
            }
        }
    }
}

/// A token accounted for by a ledger prefix is accounted for by the whole.
proof fn lemma_justified_extends(t: TocToken, entries: Seq<FirstPassResult>, my_rel: Seq<char>)
    requires
        entries.len() > 0,
        token_justified(t, entries.drop_last(), my_rel),
    ensures
        token_justified(t, entries, my_rel),
{
    let prefix = entries.drop_last();
    match t {
        TocToken::Open => {},
        TocToken::Close => {},
        TocToken::Heading { name } => {
            let i = choose|i: int|
                #[trigger] is_folder_at(prefix, i, name) && has_page_from(prefix, i + 1);
            assert(prefix[i] == entries[i]);
            assert(is_folder_at(entries, i, name));
            let j = choose|j: int| i + 1 <= j < prefix.len() && (#[trigger] prefix[j]) is HtmlOutput;
            assert(prefix[j] == entries[j]);
            assert(has_page_from(entries, i + 1));
        },
        TocToken::Link { rel, stem } => {
            let i = choose|i: int| #[trigger] is_page_at(prefix, i, rel);
            assert(prefix[i] == entries[i]);
            assert(is_page_at(entries, i, rel));
        },
        TocToken::Current { stem } => {
            let i = choose|i: int| #[trigger] is_page_at(prefix, i, my_rel);
            assert(prefix[i] == entries[i]);
            assert(is_page_at(entries, i, my_rel));
        },
    }
}

/// A folder name accounted for by a ledger prefix is accounted for by the
/// whole.
proof fn lemma_folder_justified_extends(name: Seq<char>, entries: Seq<FirstPassResult>)
    requires
        entries.len() > 0,
        folder_justified(name, entries.drop_last()),
    ensures
        folder_justified(name, entries),
{
    let prefix = entries.drop_last();
    let i = choose|i: int| #[trigger] is_folder_at(prefix, i, name);
    assert(prefix[i] == entries[i]);
    assert(is_folder_at(entries, i, name));
}

/// The scan's running guarantees: the ledger accounts for every token emitted
/// so far and for every name on the pending stack, and the non-linked items
/// emitted so far are one per page record at the target's path.
pub open spec fn scan_ok(entries: Seq<FirstPassResult>, my_rel: Seq<char>) -> bool {
    let st = toc_scan(entries, my_rel);
    &&& forall|k: int|
        0 <= k < st.tokens.len() ==> token_justified(#[trigger] st.tokens[k], entries, my_rel)
    &&& forall|k: int|
        0 <= k < st.stack.len() ==> folder_justified(#[trigger] st.stack[k], entries)
    &&& current_count(st.tokens) == page_count(entries, my_rel)
}

proof fn lemma_scan_ok(entries: Seq<FirstPassResult>, my_rel: Seq<char>)
    ensures
        scan_ok(entries, my_rel),
    decreases entries.len(),
{
    if entries.len() == 0 {
        assert(toc_init().tokens.drop_last() =~= Seq::<TocToken>::empty());
        assert(toc_init().tokens.last() == TocToken::Open);
        assert(toc_init().tokens[0] == TocToken::Open);
        assert(current_count(Seq::<TocToken>::empty()) == 0);
        assert(current_count(toc_init().tokens) == 0);
    } else {
        let prefix = entries.drop_last();
        lemma_scan_ok(prefix, my_rel);
        let st0 = toc_scan(prefix, my_rel);
        let e = entries.last();
        let st = toc_scan(entries, my_rel);
        assert(st == toc_step(st0, e, my_rel));
        // the previously emitted tokens and stacked names carry over
        assert forall|k: int| 0 <= k < st0.tokens.len() implies token_justified(
            #[trigger] st0.tokens[k],
            entries,
            my_rel,
        ) by {
            lemma_justified_extends(st0.tokens[k], entries, my_rel);
        }
        assert forall|k: int| 0 <= k < st0.stack.len() implies folder_justified(
            #[trigger] st0.stack[k],
            entries,
        ) by {
            lemma_folder_justified_extends(st0.stack[k], entries);
        }
        // the pop phase adds only closing tokens and keeps a prefix of the stack
        let depth: int = match e {
            FirstPassResult::Dir { depth, .. } => depth as int,
            FirstPassResult::HtmlOutput { depth, .. } => depth as int,
        };
        let st1 = pop_phase(st0, depth);
        let pops = pop_count(st0, depth);
        let from_stack = if pops <= st0.stack.len() {
            pops
        } else {
            st0.stack.len() as int
        };
        lemma_closes_no_current(pops - from_stack);
        lemma_current_count_app(st0.tokens, closes_seq(pops - from_stack));
        assert forall|k: int| 0 <= k < st1.tokens.len() implies token_justified(
            #[trigger] st1.tokens[k],
            entries,
            my_rel,
        ) by {
            if k < st0.tokens.len() {
                assert(st1.tokens[k] == st0.tokens[k]);
            } else {
                assert(st1.tokens[k] == closes_seq(pops - from_stack)[k - st0.tokens.len()]);
            }
        }
        assert forall|k: int| 0 <= k < st1.stack.len() implies folder_justified(
            #[trigger] st1.stack[k],
            entries,
        ) by {
            assert(st1.stack[k] == st0.stack[k]);
        }
        assert(current_count(st1.tokens) == page_count(prefix, my_rel));
        match e {
            FirstPassResult::Dir { depth, relative_path } => {
                assert(page_count(entries, my_rel) == page_count(prefix, my_rel));
                assert(st.tokens == st1.tokens);
                if depth > 0 {
                    assert(is_folder_at(entries, entries.len() - 1, file_name_of(
                        relative_path@,
                    )));
                    assert forall|k: int| 0 <= k < st.stack.len() implies folder_justified(
                        #[trigger] st.stack[k],
                        entries,
                    ) by {
                        if k < st1.stack.len() {
                            assert(st.stack[k] == st1.stack[k]);
                        } else {
                            assert(st.stack[k] == file_name_of(relative_path@));
                        }
                    }
                }
            },
            FirstPassResult::HtmlOutput { depth, html, relative_path } => {
                let stem = file_stem_of(relative_path@);
                let item = if relative_path@ == my_rel {
                    TocToken::Current { stem }
                } else {
                    TocToken::Link { rel: relative_path@, stem }
                };
                let flushed = flush_tokens(st1.stack);
                lemma_flush_membership(st1.stack);
                lemma_current_count_app(st1.tokens, flushed);
                lemma_current_count_app(st1.tokens + flushed, seq![item]);
                assert(seq![item].drop_last() =~= Seq::<TocToken>::empty());
                assert(is_page_at(entries, entries.len() - 1, relative_path@));
                assert(entries[entries.len() - 1] is HtmlOutput);
                // every token of the flush is accounted for
                assert forall|k: int| 0 <= k < flushed.len() implies token_justified(
                    #[trigger] flushed[k],
                    entries,
                    my_rel,
                ) by {
                    if !(flushed[k] is Open) {
                        assert(exists|m: int|
                            0 <= m < st1.stack.len() && flushed[k] == (TocToken::Heading {
                                name: st1.stack[m],
                            }));
                        let m = choose|m: int|
                            0 <= m < st1.stack.len() && flushed[k] == (TocToken::Heading {
                                name: st1.stack[m],
                            });
                        let name = st1.stack[m];
                        assert(flushed[k] == (TocToken::Heading { name }));
                        assert(folder_justified(name, entries));
                        let i = choose|i: int| #[trigger] is_folder_at(entries, i, name);
                        assert(entries[entries.len() - 1] is HtmlOutput);
                        assert(i < entries.len() - 1);
                        assert((entries.len() - 1) < entries.len());
                        assert(has_page_from(entries, i + 1));
                        assert(is_folder_at(entries, i, name) && has_page_from(entries, i + 1));
                        assert(heading_justified(name, entries));
                        assert(token_justified(flushed[k], entries, my_rel));
                    }
                }
                // the page's own item is accounted for
                if relative_path@ == my_rel {
                    assert(token_justified(item, entries, my_rel));
                    assert(current_count(seq![item]) == 1);
                    assert(page_count(entries, my_rel) == page_count(prefix, my_rel) + 1);
                } else {
                    assert(token_justified(item, entries, my_rel));
                    assert(current_count(seq![item]) == 0);
                    assert(page_count(entries, my_rel) == page_count(prefix, my_rel));
                }
                assert forall|k: int| 0 <= k < st.tokens.len() implies token_justified(
                    #[trigger] st.tokens[k],
                    entries,
                    my_rel,
                ) by {
                    if k < st1.tokens.len() {
                        assert(st.tokens[k] == st1.tokens[k]);
                    } else if k < st1.tokens.len() + flushed.len() {
                        assert(st.tokens[k] == flushed[k - st1.tokens.len()]);
                    } else {
                        assert(st.tokens[k] == item);
                    }
                }
            },
        }
    }
}

/// Every page's navigation tree is accounted for by the ledger: each token is
/// justified (directories appear only as non-clickable headings introduced by
/// a directory record that a later page reached, links only for page records
/// other than the target), and the non-linked items are exactly one per page
/// record at the target's path.
pub proof fn lemma_toc_tokens_justified(entries: Seq<FirstPassResult>, my_rel: Seq<char>)
    ensures
        forall|k: int|
            0 <= k < toc_tokens_spec(entries, my_rel).len() ==> token_justified(
                #[trigger] toc_tokens_spec(entries, my_rel)[k],
                entries,
                my_rel,
            ),
        current_count(toc_tokens_spec(entries, my_rel)) == page_count(entries, my_rel),
{
    lemma_scan_ok(entries, my_rel);
    let st = toc_scan(entries, my_rel);
    lemma_closes_no_current(st.prev_file_depth);
    lemma_current_count_app(st.tokens, closes_seq(st.prev_file_depth));
    assert forall|k: int| 0 <= k < toc_tokens_spec(entries, my_rel).len() implies token_justified(
        #[trigger] toc_tokens_spec(entries, my_rel)[k],
        entries,
        my_rel,
    ) by {
        if k < st.tokens.len() {
            assert(toc_tokens_spec(entries, my_rel)[k] == st.tokens[k]);
        } else {
            assert(toc_tokens_spec(entries, my_rel)[k] == closes_seq(st.prev_file_depth)[k
                - st.tokens.len()]);
        }
    }
}

/// Whether two page records at the same path are the same record.
pub open spec fn distinct_page_paths(entries: Seq<FirstPassResult>) -> bool {
    forall|i: int, j: int, rel: Seq<char>|
        #[trigger] is_page_at(entries, i, rel) && #[trigger] is_page_at(entries, j, rel) ==> i == j
}

proof fn lemma_page_count_zero(entries: Seq<FirstPassResult>, rel: Seq<char>)
    requires
        forall|i: int| !is_page_at(entries, i, rel),
    ensures
        page_count(entries, rel) == 0,
    decreases entries.len(),
{
    if entries.len() > 0 {
        let prefix = entries.drop_last();
        assert forall|i: int| !is_page_at(prefix, i, rel) by {
            if 0 <= i < prefix.len() {
                assert(prefix[i] == entries[i]);
                assert(!is_page_at(entries, i, rel));
            }
        }
        lemma_page_count_zero(prefix, rel);
        assert(!is_page_at(entries, entries.len() - 1, rel));
    }
}

proof fn lemma_page_count_one(entries: Seq<FirstPassResult>, rel: Seq<char>)
    requires
        distinct_page_paths(entries),
        ledger_has_page(entries, rel),
    ensures
        page_count(entries, rel) == 1,
    decreases entries.len(),
{
    let w = choose|i: int| #[trigger] is_page_at(entries, i, rel);
    let prefix = entries.drop_last();
    if w == entries.len() - 1 {
        assert forall|i: int| !is_page_at(prefix, i, rel) by {
            if 0 <= i < prefix.len() {
                assert(prefix[i] == entries[i]);
                if is_page_at(prefix, i, rel) {
                    assert(is_page_at(entries, i, rel));
                    assert(i == w);
                }
            }
        }
        lemma_page_count_zero(prefix, rel);
    } else {
        assert(prefix[w] == entries[w]);
        assert(is_page_at(prefix, w, rel));
        assert forall|i: int, j: int, r2: Seq<char>|
            #[trigger] is_page_at(prefix, i, r2) && #[trigger] is_page_at(prefix, j, r2) implies i
            == j by {
            assert(prefix[i] == entries[i]);
            assert(prefix[j] == entries[j]);
            assert(is_page_at(entries, i, r2));
            assert(is_page_at(entries, j, r2));
        }
        lemma_page_count_one(prefix, rel);
        assert(!is_page_at(entries, entries.len() - 1, rel));
    }
}

/// Law: when the ledger's pages carry distinct paths and the target page is
/// among them, its table of contents holds exactly one non-linked page item —
/// the target itself — and every link leads to a page record other than the
/// target; no directory ever appears as a link.
pub proof fn lemma_toc_marks_only_target(entries: Seq<FirstPassResult>, my_rel: Seq<char>)
    requires
        distinct_page_paths(entries),
        ledger_has_page(entries, my_rel),
    ensures
        current_count(toc_tokens_spec(entries, my_rel)) == 1,
        forall|k: int|
            0 <= k < toc_tokens_spec(entries, my_rel).len() ==> ((#[trigger] toc_tokens_spec(
                entries,
                my_rel,
            )[k]) matches TocToken::Link { rel, .. } ==> rel != my_rel && ledger_has_page(
                entries,
                rel,
            )),
{
    lemma_toc_tokens_justified(entries, my_rel);
    lemma_page_count_one(entries, my_rel);
}

/// Law (the provable face of folder laziness): a ledger without any page
/// record yields a navigation tree of bare list structure — no folder
/// heading, no link, no page item at all. A folder's heading appears only
/// once a page record has been reached while the folder was pending.
pub proof fn lemma_no_pages_no_headings(entries: Seq<FirstPassResult>, my_rel: Seq<char>)
    requires
        forall|i: int| 0 <= i < entries.len() ==> !((#[trigger] entries[i]) is HtmlOutput),
    ensures
        forall|k: int|
            0 <= k < toc_tokens_spec(entries, my_rel).len() ==> (toc_tokens_spec(entries, my_rel)[k]
                is Open || toc_tokens_spec(entries, my_rel)[k] is Close),
{
    lemma_toc_tokens_justified(entries, my_rel);
    assert forall|k: int| 0 <= k < toc_tokens_spec(entries, my_rel).len() implies (toc_tokens_spec(
        entries,
        my_rel,
    )[k] is Open || toc_tokens_spec(entries, my_rel)[k] is Close) by {
        let t = toc_tokens_spec(entries, my_rel)[k];
        match t {
            TocToken::Heading { name } => {
                let i = choose|i: int|
                    #[trigger] is_folder_at(entries, i, name) && has_page_from(entries, i + 1);
                let j = choose|j: int|
                    i + 1 <= j < entries.len() && (#[trigger] entries[j]) is HtmlOutput;
                assert(false);
            },
            TocToken::Link { rel, stem } => {
                let i = choose|i: int| #[trigger] is_page_at(entries, i, rel);
                assert(false);
            },
            TocToken::Current { stem } => {
                let i = choose|i: int| #[trigger] is_page_at(entries, i, my_rel);
                assert(false);
            },
            _ => {},
        }
    }
}

} // verus!

