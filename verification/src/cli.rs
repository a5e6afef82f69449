//! Command-line settings of the compatibility shell, as plain values.
use vstd::prelude::*;

verus! {

pub const DEFAULT_INPUT_PATH: &'static str = "input.json";

pub const DEFAULT_OUTPUT_PATH: &'static str = "output.json";

/// Search effort only; presets must never alter geometry correctness.
#[derive(Clone, Copy, Debug, Eq, PartialEq, Structural)]
pub enum SearchPreset {
    Fast,
    Balanced,
    Thorough,
}

impl Default for SearchPreset {
    fn default() -> (r: SearchPreset)
        ensures
            r == SearchPreset::Balanced,
    {
        SearchPreset::Balanced
    }
}

/// Command-line arguments: input and output paths, effort preset, optional
/// time limit in nanoseconds, seed and thread bound.
#[derive(Clone, Debug)]
pub struct Cli {
    pub input: String,
    pub output: String,
    pub preset: SearchPreset,
    pub time_limit: Option<u128>,
    pub seed: u64,
    pub threads: usize,
}

/// What `std::path::Path::with_extension` gives for a path and an
/// extension, both as text.
pub uninterp spec fn path_with_extension(path: Seq<char>, extension: Seq<char>) -> Seq<char>;

/// `path` with its extension replaced by (or extended with) `extension`
/// (`std::path::Path::with_extension`). A path and an extension given as
/// UTF-8 text give UTF-8 text, so the conversion back loses nothing. The
/// result is named, not described. std panics when the extension holds a
/// path separator, so such an extension is not admitted.
#[verifier::external_body]
fn with_extension(path: &str, extension: &str) -> (r: String)
    requires
        !extension@.contains('/'),
        !extension@.contains('\\'),
    ensures
        r@ == path_with_extension(path@, extension@),
{
    std::path::Path::new(path).with_extension(extension).to_string_lossy().into_owned()
}

/// Derive the report path using the legacy output-extension behavior.
pub fn html_output_path(output_path: &str) -> (r: String)
    ensures
        r@ == path_with_extension(output_path@, "html"@),
{
    proof {
        reveal_strlit("html");
        assert(!"html"@.contains('/')) by {
            if "html"@.contains('/') {
                let i = choose|i: int| 0 <= i < "html"@.len() && "html"@[i] == '/';
            }
        }
        assert(!"html"@.contains('\\')) by {
            if "html"@.contains('\\') {
                let i = choose|i: int| 0 <= i < "html"@.len() && "html"@[i] == '\\';
            }
        }
    }
    with_extension(output_path, "html")
}

impl Cli {
    /// Return the HTML report path produced beside the JSON output.
    pub fn html_output_path(&self) -> (r: String)
        ensures
            r@ == path_with_extension(self.output@, "html"@),
    {
        html_output_path(self.output.as_str())
    }
}

} // verus!
