//! The pipeline's second pass, and the run-level decisions.
//!
//! After the first pass has filled the ledger, every held page receives its
//! table of contents — a plain substitution at a literal marker — and becomes
//! one output file. The pass only reads the ledger: its result is a function
//! of the ledger and the site link prefix alone.

use vstd::prelude::*;
use vstd::string::*;
use crate::ledger::{FirstPassResult, prefix_view};
use crate::toc::{toc_html_spec, generate_table_of_contents};
use crate::text::{replace_spec, replace_all};

verus! {

/// The placeholder a rendered page carries where its table of contents
/// belongs.
pub open spec fn toc_marker() -> Seq<char> {
    "<!-- {TABLE_OF_CONTENTS} -->"@
}

/// One finished page: where it goes under the output root, and its text.
pub struct OutputFile {
    pub relative_path: String,
    pub contents: String,
}

impl View for OutputFile {
    type V = (Seq<char>, Seq<char>);

    open spec fn view(&self) -> (Seq<char>, Seq<char>) {
        (self.relative_path@, self.contents@)
    }
}

/// The views of a sequence of output files.
pub open spec fn output_views(v: Seq<OutputFile>) -> Seq<(Seq<char>, Seq<char>)> {
    v.map_values(|o: OutputFile| o@)
}

/// The finished text of one page: its held HTML with the page's table of
/// contents substituted at every marker.
pub open spec fn page_contents_spec(
    entries: Seq<FirstPassResult>,
    depth: int,
    html: Seq<char>,
    rel: Seq<char>,
    prefix: Seq<char>,
) -> Seq<char> {
    replace_spec(html, toc_marker(), toc_html_spec(entries, depth, rel, prefix))
}

/// The finished pages among the first `n` ledger entries, in ledger order.
/// Each page's table of contents reads the whole ledger, so the outputs are
/// independent of one another.
pub open spec fn outputs_upto(
    entries: Seq<FirstPassResult>,
    n: int,
    prefix: Seq<char>,
) -> Seq<(Seq<char>, Seq<char>)>
    decreases n,
{
    if n <= 0 {
        Seq::<(Seq<char>, Seq<char>)>::empty()
    } else {
        outputs_upto(entries, n - 1, prefix) + match entries[n - 1] {
            FirstPassResult::Dir { .. } => Seq::<(Seq<char>, Seq<char>)>::empty(),
            FirstPassResult::HtmlOutput { depth, html, relative_path } => seq![
                (
                    relative_path@,
                    page_contents_spec(entries, depth as int, html@, relative_path@, prefix),
                ),
            ],
        }
    }
}

/// Every finished page of the ledger: one output file per `HtmlOutput`
/// record, in ledger order, named by the record's relative path and holding
/// its HTML with the table of contents substituted.
pub open spec fn outputs_spec(entries: Seq<FirstPassResult>, prefix: Seq<char>) -> Seq<
    (Seq<char>, Seq<char>),
> {
    outputs_upto(entries, entries.len() as int, prefix)
}

/// The second pass: the ledger's pages, finished and ready to persist.
pub fn generate_site_outputs(results: &Vec<FirstPassResult>, web_prefix: Option<&str>) -> (r: Vec<
    OutputFile,
>)
    ensures
        output_views(r@) == outputs_spec(results@, prefix_view(web_prefix)),
{
    let ghost pfx = prefix_view(web_prefix);
    let mut out: Vec<OutputFile> = Vec::new();
    let mut i: usize = 0;
    proof {
        assert(output_views(out@) =~= outputs_upto(results@, 0, pfx));
    }
    while i < results.len()
        invariant
            0 <= i <= results@.len(),
            pfx == prefix_view(web_prefix),
            output_views(out@) == outputs_upto(results@, i as int, pfx),
        decreases results@.len() - i,
    {
        let ghost pre = out@;
        match &results[i] {
            FirstPassResult::Dir { .. } => {
                proof {
                    assert(output_views(out@) + Seq::<(Seq<char>, Seq<char>)>::empty()
                        =~= output_views(out@));
                }
            },
            FirstPassResult::HtmlOutput { depth, html, relative_path } => {
                let toc = generate_table_of_contents(
                    results,
                    *depth,
                    relative_path.as_str(),
                    web_prefix,
                );
                proof {
                    reveal_strlit("<!-- {TABLE_OF_CONTENTS} -->");
                }
                let text = replace_all(html.as_str(), "<!-- {TABLE_OF_CONTENTS} -->", toc.as_str());
                out.push(OutputFile { relative_path: relative_path.clone(), contents: text });
                proof {
                    assert(output_views(out@) =~= output_views(pre).push(out@.last()@));
                }
            },
        }
        i = i + 1;
    }
    proof {
        assert(i as int == results@.len());
    }
    out
}

/// The site outputs are a function of the ledger and the prefix alone: two
/// runs of the second pass over equal ledgers produce byte-equal outputs, so
/// rebuilding an unchanged site reproduces it exactly.
pub proof fn lemma_second_pass_deterministic(
    a: Seq<FirstPassResult>,
    b: Seq<FirstPassResult>,
    prefix: Seq<char>,
)
    requires
        a == b,
    ensures
        outputs_spec(a, prefix) == outputs_spec(b, prefix),
{
}

/// What the command line resolves to: which input to build, or why the
/// combination of arguments is rejected.
#[derive(Clone, Copy, PartialEq, Eq, Structural, Debug)]
pub enum RunPlan {
    /// Build the given directory tree.
    BuildDirectory,
    /// Build the single given file.
    BuildSingleFile,
    /// Both a directory and a file were given.
    RejectBothGiven,
    /// The directory argument names a file.
    RejectDirectoryIsFile,
    /// The file argument names a directory.
    RejectFileIsDirectory,
    /// Neither a directory nor a file was given.
    RejectNothingGiven,
}

pub open spec fn plan_run_spec(
    has_directory: bool,
    directory_is_file: bool,
    has_file: bool,
    file_is_dir: bool,
) -> RunPlan {
    if has_directory && has_file {
        RunPlan::RejectBothGiven
    } else if has_directory {
        if directory_is_file {
            RunPlan::RejectDirectoryIsFile
        } else {
            RunPlan::BuildDirectory
        }
    } else if has_file {
        if file_is_dir {
            RunPlan::RejectFileIsDirectory
        } else {
            RunPlan::BuildSingleFile
        }
    } else {
        RunPlan::RejectNothingGiven
    }
}

/// The run-level decision on the command line's inputs, from what the caller
/// saw on disk: reject contradictory arguments, reject an input of the wrong
/// kind, and otherwise pick the directory build or the single-file build.
pub fn plan_run(
    has_directory: bool,
    directory_is_file: bool,
    has_file: bool,
    file_is_dir: bool,
) -> (r: RunPlan)
    ensures
        r == plan_run_spec(has_directory, directory_is_file, has_file, file_is_dir),
{
    if has_directory && has_file {
        RunPlan::RejectBothGiven
    } else if has_directory {
        if directory_is_file {
            RunPlan::RejectDirectoryIsFile
        } else {
            RunPlan::BuildDirectory
        }
    } else if has_file {
        if file_is_dir {
            RunPlan::RejectFileIsDirectory
        } else {
            RunPlan::BuildSingleFile
        }
    } else {
        RunPlan::RejectNothingGiven
    }
}

} // verus!
