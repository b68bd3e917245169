//! The restore-then-upscale pipeline's bookkeeping: where its outputs are written
//! and what it reports.
use vstd::prelude::*;

verus! {

/// What one run of the pipeline reports.
pub struct ProcessResult {
    pub success: bool,
    pub original_path: String,
    pub restored_path: Option<String>,
    pub upscaled_path: Option<String>,
    pub message: String,
}

/// `stem`, `tag`, a dot and `ext`: the name of a file derived from `stem.ext`.
pub open spec fn derived_file_name(stem: Seq<char>, tag: Seq<char>, ext: Seq<char>) -> Seq<char> {
    stem + tag + seq!['.'] + ext
}

/// The name of a file derived from one named `stem.ext` by inserting `tag`
/// before the extension (`format!("{}{tag}.{}", stem, ext)`).
pub fn output_file_name(stem: &str, tag: &str, ext: &str) -> (name: String)
    ensures
        name@ == derived_file_name(stem@, tag@, ext@),
{
    let mut name = String::from_str(stem);
    name.append(tag);
    let dot = ".";
    proof {
        reveal_strlit(".");
    }
    name.append(dot);
    name.append(ext);
    assert(name@ =~= derived_file_name(stem@, tag@, ext@));
    name
}

/// The text of `Path::new(path).parent()`, as `std::path` parses paths on the
/// platform the crate is compiled for.
pub uninterp spec fn parent_of(path: Seq<char>) -> Option<Seq<char>>;

/// The text of `Path::new(path).file_stem()`, as `std::path` parses paths on the
/// platform the crate is compiled for.
pub uninterp spec fn file_stem_of(path: Seq<char>) -> Option<Seq<char>>;

/// The text of `Path::new(path).extension()`, as `std::path` parses paths on the
/// platform the crate is compiled for.
pub uninterp spec fn extension_of(path: Seq<char>) -> Option<Seq<char>>;

/// The text of `PathBuf::from(dir)` after `push(name)`, as `std::path` joins paths
/// on the platform the crate is compiled for.
pub uninterp spec fn pushed_path(dir: Seq<char>, name: Seq<char>) -> Seq<char>;

/// The text held in `o`, or the empty text when there is none.
pub open spec fn text_or_empty(o: Option<Seq<char>>) -> Seq<char> {
    match o {
        Some(t) => t,
        None => Seq::empty(),
    }
}

/// The path that an output derived from the image at `path` is saved to: the
/// image's parent directory (empty when it has none) joined with the image's stem,
/// `tag`, a dot and the image's extension (a missing stem or extension counts as
/// empty).
pub open spec fn output_path_for(path: Seq<char>, tag: Seq<char>) -> Seq<char> {
    pushed_path(
        text_or_empty(parent_of(path)),
        derived_file_name(text_or_empty(file_stem_of(path)), tag, text_or_empty(extension_of(path))),
    )
}

/// `Path::parent` of `path`, as text. Trusted: the result is `parent_of` of the
/// path (the text is kept whole, since every piece of a `&str` path is valid
/// UTF-8), and by the documentation an empty path has no parent.
#[verifier::external_body]
fn path_parent(path: &str) -> (res: Option<String>)
    ensures
        match res {
            Some(d) => parent_of(path@) == Some(d@),
            None => parent_of(path@) is None,
        },
        path@.len() == 0 ==> res is None,
{
    std::path::Path::new(path).parent().map(|p| p.to_string_lossy().into_owned())
}

/// `Path::file_stem` of `path`, as text. Trusted: the result is `file_stem_of`
/// of the path.
#[verifier::external_body]
fn path_file_stem(path: &str) -> (res: Option<String>)
    ensures
        match res {
            Some(s) => file_stem_of(path@) == Some(s@),
            None => file_stem_of(path@) is None,
        },
{
    std::path::Path::new(path).file_stem().map(|s| s.to_string_lossy().into_owned())
}

/// `Path::extension` of `path`, as text. Trusted: the result is `extension_of`
/// of the path, and by the documentation the extension is what follows the file
/// name's last dot, so it holds no dot.
#[verifier::external_body]
fn path_extension(path: &str) -> (res: Option<String>)
    ensures
        match res {
            Some(e) => extension_of(path@) == Some(e@),
            None => extension_of(path@) is None,
        },
        res matches Some(e) ==> !e@.contains('.'),
{
    std::path::Path::new(path).extension().map(|s| s.to_string_lossy().into_owned())
}

/// `PathBuf::push` of `name` onto `dir`, as text. Trusted: the result is
/// `pushed_path` of the two.
#[verifier::external_body]
fn path_push(dir: &str, name: &str) -> (res: String)
    ensures
        res@ == pushed_path(dir@, name@),
{
    let mut buf = std::path::PathBuf::from(dir);
    buf.push(name);
    buf.to_string_lossy().into_owned()
}

/// The path of the file that an output derived from the image at `path` is saved
/// to: in the image's directory (or the current one when it has none), named
/// after the image's stem with `tag` inserted before its extension (a missing stem
/// or extension counts as empty). The parts of the path are those that `std::path`
/// finds, see `output_path_for`.
pub fn derived_output_path(path: &str, tag: &str) -> (out: String)
    ensures
        out@ == output_path_for(path@, tag@),
{
    let stem = match path_file_stem(path) {
        Some(s) => s,
        None => String::new(),
    };
    let ext = match path_extension(path) {
        Some(e) => e,
        None => String::new(),
    };
    let name = output_file_name(stem.as_str(), tag, ext.as_str());
    let dir = match path_parent(path) {
        Some(d) => d,
        None => String::new(),
    };
    path_push(dir.as_str(), name.as_str())
}

} // verus!
