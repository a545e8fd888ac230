//! The rules that an uploaded model file has to meet, and where it is stored.
use vstd::prelude::*;
use vstd::string::*;

verus! {

/// The largest model file accepted, in bytes.
pub const MAX_FILE_SIZE: usize = 50 * 1024 * 1024;

/// Where model files are stored.
pub const MODEL_DIR: &'static str = "uploads/models/";

/// The extension given to a stored file whose name has none.
pub const DEFAULT_EXTENSION: &'static str = "bin";

#[derive(Debug, Clone, Copy, PartialEq, Eq, Structural)]
pub enum UploadError {
    /// The file is larger than `MAX_FILE_SIZE`.
    PayloadTooLarge,
    /// No file, or a file without a usable name, was sent.
    NoFile,
    /// No monster description was sent.
    NoMonsterData,
    /// Neither the name nor the content type marks the file as a glTF model.
    InvalidFileType,
}

/// Whether `c` is alphabetic or numeric in Unicode's sense.
pub uninterp spec fn alphanumeric(c: char) -> bool;

/// What a name looks like after lower-casing, in Unicode's sense.
pub uninterp spec fn lower_of(s: Seq<char>) -> Seq<char>;

/// Relies on `char::is_alphanumeric`: alphabetic or numeric; among ASCII
/// characters exactly the letters and digits.
#[verifier::external_body]
fn is_alphanumeric(c: char) -> (r: bool)
    ensures
        r == alphanumeric(c),
        (c as u32) < 128 ==> (r <==> (('a' <= c && c <= 'z') || ('A' <= c && c <= 'Z') || ('0' <= c
            && c <= '9'))),
{
    c.is_alphanumeric()
}

/// Relies on `str::to_lowercase`: the result depends on the characters alone.
#[verifier::external_body]
fn lowercase(s: &str) -> (r: String)
    ensures
        r@ == lower_of(s@),
{
    s.to_lowercase()
}

/// Relies on `String::push`: appends one character.
#[verifier::external_body]
fn push_char(s: &mut String, c: char)
    ensures
        final(s)@ == old(s)@.push(c),
{
    s.push(c)
}

/// The characters a stored file name may keep.
pub open spec fn filename_char(c: char) -> bool {
    alphanumeric(c) || c == '.' || c == '_' || c == '-'
}

/// A file name with every character dropped that could lead out of the
/// storage directory.
pub open spec fn sanitized(s: Seq<char>) -> Seq<char> {
    s.filter(|c: char| filename_char(c))
}

/// Whether `suffix` ends `s`.
pub open spec fn ends_with(s: Seq<char>, suffix: Seq<char>) -> bool {
    suffix.len() <= s.len() && s.subrange(s.len() - suffix.len(), s.len() as int) == suffix
}

/// The content types of glTF models.
pub open spec fn allowed_mime(t: Seq<char>) -> bool {
    t == "model/gltf-binary"@ || t == "application/octet-stream"@ || t == "model/gltf+json"@
}

/// Whether a file whose lower-cased name is `lowered` and whose content type
/// is `content_type` is taken for a glTF model: by its extension, whatever
/// its content type, or else by its content type.
pub open spec fn model_file(lowered: Seq<char>, content_type: Seq<char>) -> bool {
    ends_with(lowered, ".glb"@) || ends_with(lowered, ".gltf"@) || allowed_mime(content_type)
}

/// The outcome of the checks on an upload, in the order they are made.
pub open spec fn upload_verdict(
    lowered: Seq<char>,
    name_len: nat,
    content_type: Seq<char>,
    file_size: nat,
    has_monster_data: bool,
) -> Result<(), UploadError> {
    if file_size > MAX_FILE_SIZE {
        Err(UploadError::PayloadTooLarge)
    } else if name_len == 0 {
        Err(UploadError::NoFile)
    } else if !has_monster_data {
        Err(UploadError::NoMonsterData)
    } else if !model_file(lowered, content_type) {
        Err(UploadError::InvalidFileType)
    } else {
        Ok(())
    }
}

/// Where the last segment of a path begins: just after its last '/'.
pub open spec fn segment_start(s: Seq<char>) -> int {
    if exists|i: int| 0 <= i < s.len() && s[i] == '/' {
        1 + choose|k: int| 0 <= k < s.len() && s[k] == '/' && forall|j: int| k < j < s.len() ==> s[j] != '/'
    } else {
        0
    }
}

/// The extension of a path: that of its last segment.
pub open spec fn extension_of(s: Seq<char>) -> Option<Seq<char>> {
    segment_extension(s.subrange(segment_start(s), s.len() as int))
}

/// The extension of a file name without a path separator: what follows its
/// last dot, unless that dot opens the name; none for "..".
pub open spec fn segment_extension(s: Seq<char>) -> Option<Seq<char>> {
    if s == ".."@ {
        None
    } else if exists|i: int| 0 < i < s.len() && s[i] == '.' {
        let k = choose|k: int|
            0 < k < s.len() && s[k] == '.' && forall|j: int| k < j < s.len() ==> s[j] != '.';
        Some(s.subrange(k + 1, s.len() as int))
    } else {
        None
    }
}

/// Keeps only letters, digits, '.', '_' and '-' of a file name.
pub fn sanitize_filename(filename: &str) -> (r: String)
    ensures
        r@ == sanitized(filename@),
        forall|i: int| 0 <= i < r@.len() ==> r@[i] != '/' && r@[i] != '\\' && r@[i] != ':',
{
    let n = filename.unicode_len();
    let mut out = String::new();
    let mut i: usize = 0;
    while i < n
        invariant
            n == filename@.len(),
            i <= n,
            out@ == sanitized(filename@.take(i as int)),
            forall|j: int| 0 <= j < out@.len() ==> out@[j] != '/' && out@[j] != '\\' && out@[j] != ':',
        decreases n - i,
    {
        let c = filename.get_char(i);
        proof {
            assert(filename@.take(i + 1) =~= filename@.take(i as int).push(c));
            filename@.take(i as int).lemma_filter_push(c, |c: char| filename_char(c));
        }
        if is_alphanumeric(c) || c == '.' || c == '_' || c == '-' {
            push_char(&mut out, c);
        }
        i = i + 1;
    }
    assert(filename@.take(n as int) =~= filename@);
    out
}

/// Whether `a` and `b` hold the same text.
fn same_text(a: &str, b: &str) -> (r: bool)
    ensures
        r == (a@ == b@),
{
    let n = a.unicode_len();
    if n != b.unicode_len() {
        return false;
    }
    let mut i: usize = 0;
    while i < n
        invariant
            n == a@.len(),
            n == b@.len(),
            i <= n,
            forall|j: int| 0 <= j < i ==> a@[j] == b@[j],
        decreases n - i,
    {
        if a.get_char(i) != b.get_char(i) {
            return false;
        }
        i = i + 1;
    }
    assert(a@ =~= b@);
    true
}

/// Whether `suffix` ends `s`.
pub fn has_suffix(s: &str, suffix: &str) -> (r: bool)
    ensures
        r == ends_with(s@, suffix@),
{
    let n = s.unicode_len();
    let m = suffix.unicode_len();
    if m > n {
        return false;
    }
    let mut i: usize = 0;
    while i < m
        invariant
            n == s@.len(),
            m == suffix@.len(),
            m <= n,
            i <= m,
            forall|j: int| 0 <= j < i ==> s@[n - m + j] == suffix@[j],
        decreases m - i,
    {
        if s.get_char(n - m + i) != suffix.get_char(i) {
            assert(s@.subrange(n - m, n as int)[i as int] != suffix@[i as int]);
            return false;
        }
        i = i + 1;
    }
    assert(s@.subrange(n - m, n as int) =~= suffix@);
    true
}

/// Whether `content_type` is one of the content types of glTF models.
pub fn is_allowed_mime(content_type: &str) -> (r: bool)
    ensures
        r == allowed_mime(content_type@),
{
    same_text(content_type, "model/gltf-binary") || same_text(content_type, "application/octet-stream")
        || same_text(content_type, "model/gltf+json")
}

/// Whether a file with lower-cased name `lowered` and content type
/// `content_type` is taken for a glTF model.
pub fn is_model_file(lowered: &str, content_type: &str) -> (r: bool)
    ensures
        r == model_file(lowered@, content_type@),
{
    has_suffix(lowered, ".glb") || has_suffix(lowered, ".gltf") || is_allowed_mime(content_type)
}

/// The checks on an upload once its lower-cased file name is known.
pub fn check_upload_lowered(
    lowered: &str,
    name_len: usize,
    content_type: &str,
    file_size: usize,
    has_monster_data: bool,
) -> (r: Result<(), UploadError>)
    ensures
        r == upload_verdict(lowered@, name_len as nat, content_type@, file_size as nat, has_monster_data),
{
    if file_size > MAX_FILE_SIZE {
        Err(UploadError::PayloadTooLarge)
    } else if name_len == 0 {
        Err(UploadError::NoFile)
    } else if !has_monster_data {
        Err(UploadError::NoMonsterData)
    } else if !is_model_file(lowered, content_type) {
        Err(UploadError::InvalidFileType)
    } else {
        Ok(())
    }
}

/// The checks on an upload of a (sanitised) file `file_name` of
/// `file_size` bytes and content type `content_type`: its size first, then
/// that a file and a monster description came, then the file's type.
pub fn check_upload(file_name: &str, content_type: &str, file_size: usize, has_monster_data: bool) -> (r:
    Result<(), UploadError>)
    ensures
        r == upload_verdict(
            lower_of(file_name@),
            file_name@.len(),
            content_type@,
            file_size as nat,
            has_monster_data,
        ),
{
    let lowered = lowercase(file_name);
    check_upload_lowered(lowered.as_str(), file_name.unicode_len(), content_type, file_size, has_monster_data)
}

/// The extension of the last segment of `file_name`.
pub fn file_extension(file_name: &str) -> (r: Option<String>)
    ensures
        r matches Some(e) ==> extension_of(file_name@) == Some(e@),
        r is None ==> extension_of(file_name@) is None,
{
    let n = file_name.unicode_len();
    let ghost s = file_name@;
    let mut b: usize = n;
    while b > 0
        invariant
            n == s.len(),
            s == file_name@,
            b <= n,
            forall|j: int| b <= j < n ==> s[j] != '/',
        ensures
            b <= n,
            forall|j: int| b <= j < n ==> s[j] != '/',
            b > 0 ==> s[b - 1] == '/',
        decreases b,
    {
        if file_name.get_char(b - 1) == '/' {
            break;
        }
        b = b - 1;
    }
    proof {
        if b > 0 {
            let c = choose|c: int| 0 <= c < s.len() && s[c] == '/' && forall|j: int| c < j < s.len() ==> s[j] != '/';
            assert(c == b - 1) by {
                if c < b - 1 {
                    assert(s[b - 1] != '/');
                }
                if c > b - 1 {
                    assert(s[c] != '/');
                }
            }
        } else {
            assert(!exists|i: int| 0 <= i < s.len() && s[i] == '/');
        }
        assert(segment_start(s) == b);
    }
    let ghost seg = s.subrange(b as int, n as int);
    let is_parent = n - b == 2 && file_name.get_char(b) == '.' && file_name.get_char(b + 1) == '.';
    proof {
        reveal_strlit("..");
        assert(".."@.len() == 2 && ".."@[0] == '.' && ".."@[1] == '.');
        if n - b == 2 {
            assert(seg[0] == s[b as int] && seg[1] == s[b + 1]);
            if seg == ".."@ {
                assert(seg[0] == '.' && seg[1] == '.');
            }
            if is_parent {
                assert(seg =~= ".."@);
            }
        } else {
            assert(seg.len() != ".."@.len());
        }
    }
    if is_parent {
        return None;
    }
    let mut k: usize = n;
    while k > b
        invariant
            n == s.len(),
            s == file_name@,
            b <= k <= n,
            forall|j: int| k <= j < n ==> s[j] != '.',
        ensures
            b <= k <= n,
            forall|j: int| k <= j < n ==> s[j] != '.',
            k > b ==> s[k - 1] == '.',
        decreases k,
    {
        if file_name.get_char(k - 1) == '.' {
            break;
        }
        k = k - 1;
    }
    if k - b <= 1 {
        proof {
            if exists|i: int| 0 < i < seg.len() && seg[i] == '.' {
                let i = choose|i: int| 0 < i < seg.len() && seg[i] == '.';
                assert(s[b + i] == '.');
            }
        }
        return None;
    }
    let ghost d = k - 1 - b;
    assert(seg[d] == '.');
    let mut e = String::new();
    let mut i: usize = k;
    while i < n
        invariant
            n == s.len(),
            s == file_name@,
            k <= i <= n,
            e@ == s.subrange(k as int, i as int),
        decreases n - i,
    {
        let c = file_name.get_char(i);
        push_char(&mut e, c);
        assert(s.subrange(k as int, i + 1) =~= s.subrange(k as int, i as int).push(c));
        i = i + 1;
    }
    proof {
        assert(0 < d < seg.len() && seg[d] == '.');
        let c = choose|c: int|
            0 < c < seg.len() && seg[c] == '.' && forall|j: int| c < j < seg.len() ==> seg[j] != '.';
        assert(c == d) by {
            if c < d {
                assert(seg[d] != '.');
            }
            if c > d {
                assert(s[b + c] != '.');
            }
        }
        assert(seg.subrange(d + 1, seg.len() as int) =~= s.subrange(k as int, n as int));
    }
    Some(e)
}

/// The path under which a model file is stored: its model identifier, with
/// the extension of the last segment of its name, or `DEFAULT_EXTENSION`.
pub fn storage_path(model_id: &str, file_name: &str) -> (r: String)
    ensures
        r@ == MODEL_DIR@ + model_id@ + "."@ + match extension_of(file_name@) {
            Some(e) => e,
            None => DEFAULT_EXTENSION@,
        },
{
    let mut path = String::from_str(MODEL_DIR);
    path.append(model_id);
    path.append(".");
    match file_extension(file_name) {
        Some(e) => path.append(e.as_str()),
        None => path.append(DEFAULT_EXTENSION),
    }
    path
}

} // verus!
