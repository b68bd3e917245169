//! The HTTP API's bookkeeping: naming uploaded files and answering a processing
//! request.
use vstd::prelude::*;

use crate::pipeline::ProcessResult;

verus! {

/// What the API answers to a processing request.
pub struct ApiProcessResult {
    pub success: bool,
    pub original_path: String,
    pub result_path: Option<String>,
    pub message: String,
}

/// The part of `s` after its last dot, or all of `s` when it has none
/// (the last item of `s.split('.')`).
pub open spec fn after_last_dot(s: Seq<char>) -> Seq<char>
    decreases s.len(),
{
    if s.len() == 0 {
        s
    } else if s.last() == '.' {
        Seq::empty()
    } else {
        after_last_dot(s.drop_last()).push(s.last())
    }
}

/// When no dot follows position `j`, and `j` starts the text or follows a dot,
/// the part after the last dot starts at `j`.
proof fn lemma_after_last_dot(s: Seq<char>, j: int)
    requires
        0 <= j <= s.len(),
        forall|k: int| j <= k < s.len() ==> s[k] != '.',
        j == 0 || s[j - 1] == '.',
    ensures
        after_last_dot(s) == s.subrange(j, s.len() as int),
    decreases s.len(),
{
    if s.len() == j {
        assert(s.subrange(j, s.len() as int) =~= Seq::<char>::empty());
    } else {
        lemma_after_last_dot(s.drop_last(), j);
        assert(s.drop_last().subrange(j, s.len() - 1).push(s.last()) =~= s.subrange(
            j,
            s.len() as int,
        ));
    }
}

/// The name an upload is saved under when it comes without one.
pub open spec fn default_upload_name() -> Seq<char> {
    "image.jpg"@
}

/// The extension an upload is saved with: what follows the last dot of its
/// file name (all of the name when it has no dot), the name being `image.jpg`
/// when the upload has none.
pub fn upload_extension(file_name: Option<&str>) -> (ext: String)
    ensures
        ext@ == after_last_dot(
            match file_name {
                Some(n) => n@,
                None => default_upload_name(),
            },
        ),
{
    let name: &str = match file_name {
        Some(n) => n,
        None => "image.jpg",
    };
    let len = name.unicode_len();
    let mut j: usize = len;
    while j > 0 && name.get_char(j - 1) != '.'
        invariant
            j <= len,
            len == name@.len(),
            forall|k: int| j <= k < len ==> name@[k] != '.',
        decreases j,
    {
        j = j - 1;
    }
    proof {
        lemma_after_last_dot(name@, j as int);
    }
    String::from_str(name.substring_char(j, len))
}

/// The path an upload with identifier `id` and extension `ext` is saved to.
pub open spec fn upload_path_spec(id: Seq<char>, ext: Seq<char>) -> Seq<char> {
    "uploads/"@ + id + seq!['.'] + ext
}

/// The path an upload with identifier `id` and extension `ext` is saved to:
/// `uploads/{id}.{ext}`.
pub fn upload_path(id: &str, ext: &str) -> (path: String)
    ensures
        path@ == upload_path_spec(id@, ext@),
{
    let mut path = String::from_str("uploads/");
    path.append(id);
    let dot = ".";
    proof {
        reveal_strlit(".");
    }
    path.append(dot);
    path.append(ext);
    assert(path@ =~= upload_path_spec(id@, ext@));
    path
}

/// `c` with a backslash turned into a slash.
pub open spec fn forward_slash(c: char) -> char {
    if c == '\\' {
        '/'
    } else {
        c
    }
}

/// `s` with every backslash turned into a slash (`s.replace("\\", "/")`), so that
/// a Windows path reads as a URL path.
pub fn normalize_separators(s: &str) -> (out: String)
    ensures
        out@ == s@.map_values(|c: char| forward_slash(c)),
{
    let len = s.unicode_len();
    let mut out = String::new();
    let slash = "/";
    proof {
        reveal_strlit("/");
    }
    let mut i: usize = 0;
    while i < len
        invariant
            i <= len,
            len == s@.len(),
            slash@ == seq!['/'],
            out@ == s@.subrange(0, i as int).map_values(|c: char| forward_slash(c)),
        decreases len - i,
    {
        let c = s.get_char(i);
        if c == '\\' {
            out.append(slash);
        } else {
            out.append(s.substring_char(i, i + 1));
        }
        assert(out@ =~= s@.subrange(0, i + 1).map_values(|c: char| forward_slash(c)));
        i = i + 1;
    }
    assert(s@.subrange(0, len as int) =~= s@);
    out
}

/// The API's answer for a finished pipeline run: the run's outcome and message,
/// the uploaded file's path, and as result the upscaled image's path written
/// with forward slashes.
pub fn api_result(res: ProcessResult) -> (api: ApiProcessResult)
    ensures
        api.success == res.success,
        api.original_path == res.original_path,
        api.message == res.message,
        match res.upscaled_path {
            Some(p) => api.result_path matches Some(r) && r@ == p@.map_values(
                |c: char| forward_slash(c),
            ),
            None => api.result_path is None,
        },
{
    let result_path = match &res.upscaled_path {
        Some(p) => Some(normalize_separators(p.as_str())),
        None => None,
    };
    ApiProcessResult {
        success: res.success,
        original_path: res.original_path,
        result_path,
        message: res.message,
    }
}

/// An upload's extension never holds a dot.
pub proof fn law_extension_has_no_dot(s: Seq<char>)
    ensures
        !after_last_dot(s).contains('.'),
    decreases s.len(),
{
    if s.len() > 0 && s.last() != '.' {
        law_extension_has_no_dot(s.drop_last());
        assert forall|k: int| 0 <= k < after_last_dot(s).len() implies after_last_dot(s)[k] != '.' by {
            if k < after_last_dot(s.drop_last()).len() {
                assert(after_last_dot(s)[k] == after_last_dot(s.drop_last())[k]);
            }
        }
    }
}

/// A result path written with forward slashes holds no backslash.
pub proof fn law_normalized_has_no_backslash(s: Seq<char>)
    ensures
        !s.map_values(|c: char| forward_slash(c)).contains('\\'),
{
    let t = s.map_values(|c: char| forward_slash(c));
    assert forall|k: int| 0 <= k < t.len() implies #[trigger] t[k] != '\\' by {
        assert(t[k] == forward_slash(s[k]));
    }
}

/// Uploads with different identifiers are saved to different paths: an
/// extension holds no dot, so the last dot of an upload path separates the
/// identifier from the extension, and equal paths have equal identifiers.
pub proof fn law_distinct_ids_give_distinct_paths(
    id1: Seq<char>,
    ext1: Seq<char>,
    id2: Seq<char>,
    ext2: Seq<char>,
)
    requires
        !ext1.contains('.'),
        !ext2.contains('.'),
        id1 != id2,
    ensures
        upload_path_spec(id1, ext1) != upload_path_spec(id2, ext2),
{
    let p1 = upload_path_spec(id1, ext1);
    let p2 = upload_path_spec(id2, ext2);
    let n = "uploads/"@.len() as int;
    if p1 == p2 {
        let j1 = p1.len() - ext1.len();
        let j2 = p2.len() - ext2.len();
        assert forall|k: int| j1 <= k < p1.len() implies p1[k] != '.' by {
            assert(p1[k] == ext1[k - j1]);
        }
        assert(p1[j1 - 1] == '.');
        lemma_after_last_dot(p1, j1);
        assert(p1.subrange(j1, p1.len() as int) =~= ext1);
        assert forall|k: int| j2 <= k < p2.len() implies p2[k] != '.' by {
            assert(p2[k] == ext2[k - j2]);
        }
        assert(p2[j2 - 1] == '.');
        lemma_after_last_dot(p2, j2);
        assert(p2.subrange(j2, p2.len() as int) =~= ext2);
        assert(ext1 == ext2);
        assert(id1.len() == id2.len());
        assert(p1.subrange(n, n + id1.len()) =~= id1);
        assert(p2.subrange(n, n + id2.len()) =~= id2);
    }
}

/// Writing a path with forward slashes changes only its backslashes: each
/// backslash becomes a slash, every other character stays where it was, and a
/// path without backslashes comes back unchanged.
pub proof fn law_normalize_changes_only_backslashes(s: Seq<char>)
    ensures
        s.map_values(|c: char| forward_slash(c)).len() == s.len(),
        forall|k: int|
            0 <= k < s.len() ==> s.map_values(|c: char| forward_slash(c))[k] == if #[trigger] s[k]
                == '\\' {
                '/'
            } else {
                s[k]
            },
        !s.contains('\\') ==> s.map_values(|c: char| forward_slash(c)) == s,
{
    let t = s.map_values(|c: char| forward_slash(c));
    if !s.contains('\\') {
        assert forall|k: int| 0 <= k < s.len() implies t[k] == s[k] by {
            assert(s[k] != '\\');
        }
        assert(t =~= s);
    }
}

} // verus!
