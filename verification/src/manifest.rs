//! The manifest the external encoder reads, and the encoder's
//! invocation.
//!
//! The manifest is plain text, one line per source file: the token
//! `file`, a space, and the path wrapped in single quotes.  Paths are
//! written as given, without escaping, so a path holding a single
//! quote produces a malformed manifest; keeping quotes out of paths is
//! the caller's burden.  The encoder is invoked with a fixed argument
//! list: concat demuxer, unsafe path acceptance, the manifest as the
//! input list, stream copy, and the caller's output path.

use vstd::prelude::*;
use vstd::relations::sorted_by;
use vstd::seq_lib::lemma_sorted_unique;
use vstd::string::StringExecFns;

use crate::order::{lemma_lex_le_total_ordering, lex_le_rel};

verus! {

/// One manifest line, newline included.
pub open spec fn manifest_line(path: Seq<char>) -> Seq<char> {
    "file '"@ + path + "'\n"@
}

/// The whole manifest: one line per path, in the order given.
pub open spec fn manifest_text(paths: Seq<Seq<char>>) -> Seq<char>
    decreases paths.len(),
{
    if paths.len() == 0 {
        Seq::empty()
    } else {
        manifest_text(paths.drop_last()) + manifest_line(paths.last())
    }
}

/// Renders the manifest for the given file list.  The text is a strict
/// function of the ordered list: same list, same bytes.
pub fn render_manifest(paths: &Vec<String>) -> (r: String)
    ensures
        r@ == manifest_text(paths.deep_view()),
{
    let ghost dv = paths.deep_view();
    let n = paths.len();
    let mut out = String::new();
    let mut i: usize = 0;
    proof {
        assert(out@ =~= manifest_text(dv.subrange(0, 0)));
    }
    while i < n
        invariant
            i <= n,
            n == paths.len(),
            dv == paths.deep_view(),
            out@ =~= manifest_text(dv.subrange(0, i as int)),
        decreases n - i,
    {
        let ghost pre = out@;
        out.append("file '");
        out.append(paths[i].as_str());
        out.append("'\n");
        proof {
            assert(dv.subrange(0, i + 1).drop_last() =~= dv.subrange(0, i as int));
            assert(dv.subrange(0, i + 1).last() == dv[i as int]);
            assert(out@ =~= pre + manifest_line(dv[i as int]));
        }
        i = i + 1;
    }
    proof {
        assert(dv.subrange(0, n as int) =~= dv);
    }
    out
}

/// Any two sorted arrangements of the same collection of selected
/// files render the same manifest: re-running the scan on identical
/// directory contents yields a byte-identical manifest.
pub proof fn lemma_manifest_deterministic(
    r1: Seq<Seq<char>>,
    r2: Seq<Seq<char>>,
    files: Seq<Seq<char>>,
)
    requires
        sorted_by(r1, lex_le_rel()),
        sorted_by(r2, lex_le_rel()),
        r1.to_multiset() == files.to_multiset(),
        r2.to_multiset() == files.to_multiset(),
    ensures
        manifest_text(r1) == manifest_text(r2),
{
    lemma_lex_le_total_ordering();
    lemma_sorted_unique(r1, r2, lex_le_rel());
}

/// Well-known path of the transient manifest file.
pub fn manifest_file_path() -> (r: String)
    ensures
        r@ == "/tmp/file_list.txt"@,
{
    "/tmp/file_list.txt".to_owned()
}

/// The encoder's fixed argument list: concatenate without re-encoding,
/// accept paths as given, read the input list from `manifest_path`,
/// write to `output`.
pub open spec fn encoder_args(manifest_path: Seq<char>, output: Seq<char>) -> Seq<Seq<char>> {
    seq![
        "-f"@,
        "concat"@,
        "-safe"@,
        "0"@,
        "-i"@,
        manifest_path,
        "-c"@,
        "copy"@,
        output,
    ]
}

/// Builds the encoder's argument list for a manifest and output path.
pub fn encoder_arg_list(manifest_path: &str, output: &str) -> (r: Vec<String>)
    ensures
        r.deep_view() == encoder_args(manifest_path@, output@),
{
    let mut v: Vec<String> = Vec::new();
    v.push("-f".to_owned());
    v.push("concat".to_owned());
    v.push("-safe".to_owned());
    v.push("0".to_owned());
    v.push("-i".to_owned());
    v.push(manifest_path.to_owned());
    v.push("-c".to_owned());
    v.push("copy".to_owned());
    v.push(output.to_owned());
    proof {
        assert(v.deep_view() =~= encoder_args(manifest_path@, output@));
    }
    v
}

} // verus!
