use vstd::prelude::*;
use vstd::utf8::encode_utf8;

verus! {

// The file resolver's rules: which directory entries a walk may descend
// into and which files are worth scanning.  The walk itself — disk I/O —
// belongs to the caller; every decision it takes comes from here, driven by
// three static denylists bundled as immutable data.

/// Names of version-control metadata directories that a walk always prunes.
pub open spec fn ignored_dir_names() -> Set<Seq<u8>> {
    set![encode_utf8(".git"@)]
}

/// Exact file names never scanned, whatever their content.
pub open spec fn ignored_file_names() -> Set<Seq<u8>> {
    set![
        encode_utf8("README"@),
        encode_utf8("LICENSE"@),
        encode_utf8("CHANGELOG"@),
        encode_utf8("package-lock.json"@),
        encode_utf8("yarn.lock"@),
        encode_utf8("pnpm-lock.yaml"@),
        encode_utf8("composer.lock"@),
        encode_utf8("Gemfile.lock"@),
    ]
}

/// Extensions of files that carry no utility references worth scanning.
pub open spec fn ignored_extensions() -> Set<Seq<u8>> {
    set![
        encode_utf8("css"@),
        encode_utf8("less"@),
        encode_utf8("sass"@),
        encode_utf8("scss"@),
        encode_utf8("styl"@),
        encode_utf8("lock"@),
        encode_utf8("log"@),
        encode_utf8("map"@),
    ]
}

/// Extensions of known binary formats.
pub open spec fn binary_extensions() -> Set<Seq<u8>> {
    set![
        encode_utf8("png"@),
        encode_utf8("jpg"@),
        encode_utf8("jpeg"@),
        encode_utf8("gif"@),
        encode_utf8("bmp"@),
        encode_utf8("ico"@),
        encode_utf8("webp"@),
        encode_utf8("avif"@),
        encode_utf8("mp3"@),
        encode_utf8("mp4"@),
        encode_utf8("mov"@),
        encode_utf8("avi"@),
        encode_utf8("woff"@),
        encode_utf8("woff2"@),
        encode_utf8("ttf"@),
        encode_utf8("eot"@),
        encode_utf8("otf"@),
        encode_utf8("pdf"@),
        encode_utf8("zip"@),
        encode_utf8("gz"@),
        encode_utf8("tar"@),
        encode_utf8("exe"@),
        encode_utf8("jar"@),
        encode_utf8("bin"@)
    ]
}

/// Index of the last `.` of a file name, never counting a dot in first
/// position (a leading dot marks a hidden file, not an extension); `-1` when
/// the name has no extension separator.
pub open spec fn last_dot(name: Seq<u8>) -> int
    decreases name.len(),
{
    if name.len() <= 1 {
        -1
    } else if name[name.len() - 1] == 46 {
        name.len() - 1
    } else {
        last_dot(name.drop_last())
    }
}

/// The extension of a file name: what follows the last dot, or nothing when
/// no dot splits the name.
pub open spec fn extension_spec(name: Seq<u8>) -> Option<Seq<u8>> {
    if last_dot(name) >= 1 {
        Some(name.subrange(last_dot(name) + 1, name.len() as int))
    } else {
        None
    }
}

/// Whether a file with this name is scanned: its exact name is not
/// denylisted, and its extension, if it has one, is neither ignored nor a
/// known binary format.  A file is excluded only by those lists, so a file
/// without an extension is scanned.
pub open spec fn file_eligible(name: Seq<u8>) -> bool {
    &&& !ignored_file_names().contains(name)
    &&& match extension_spec(name) {
        Some(e) => !ignored_extensions().contains(e) && !binary_extensions().contains(e),
        None => true,
    }
}

/// Argument of the resolution entry point: the base directory under which
/// eligible files are enumerated.
#[derive(Debug, Clone)]
pub struct ContentPathInfo {
    /// The directory the walk starts from.
    pub base: String,
}

fn slice_eq(a: &[u8], b: &[u8]) -> (r: bool)
    ensures
        r == (a@ == b@),
{
    if a.len() != b.len() {
        return false;
    }
    let mut i: usize = 0;
    while i < a.len()
        invariant
            i <= a@.len(),
            a@.len() == b@.len(),
            forall|j: int| 0 <= j < i ==> a@[j] == b@[j],
        decreases a@.len() - i,
    {
        if a[i] != b[i] {
            return false;
        }
        i += 1;
    }
    proof {
        assert(a@ =~= b@);
    }
    true
}

/// Whether a walk may descend into a directory with this name.
pub fn dir_allowed(name: &[u8]) -> (r: bool)
    ensures
        r == !ignored_dir_names().contains(name@),
{
    !slice_eq(name, ".git".as_bytes())
}

fn name_is_denylisted(name: &[u8]) -> (r: bool)
    ensures
        r == ignored_file_names().contains(name@),
{
    slice_eq(name, "README".as_bytes()) || slice_eq(name, "LICENSE".as_bytes()) || slice_eq(
        name,
        "CHANGELOG".as_bytes(),
    ) || slice_eq(name, "package-lock.json".as_bytes()) || slice_eq(name, "yarn.lock".as_bytes())
        || slice_eq(name, "pnpm-lock.yaml".as_bytes()) || slice_eq(
        name,
        "composer.lock".as_bytes(),
    ) || slice_eq(name, "Gemfile.lock".as_bytes())
}

fn extension_is_ignored(ext: &[u8]) -> (r: bool)
    ensures
        r == ignored_extensions().contains(ext@),
{
    slice_eq(ext, "css".as_bytes()) || slice_eq(ext, "less".as_bytes()) || slice_eq(
        ext,
        "sass".as_bytes(),
    ) || slice_eq(ext, "scss".as_bytes()) || slice_eq(ext, "styl".as_bytes()) || slice_eq(
        ext,
        "lock".as_bytes(),
    ) || slice_eq(ext, "log".as_bytes()) || slice_eq(ext, "map".as_bytes())
}

fn extension_is_binary(ext: &[u8]) -> (r: bool)
    ensures
        r == binary_extensions().contains(ext@),
{
    slice_eq(ext, "png".as_bytes()) || slice_eq(ext, "jpg".as_bytes()) || slice_eq(
        ext,
        "jpeg".as_bytes(),
    ) || slice_eq(ext, "gif".as_bytes()) || slice_eq(ext, "bmp".as_bytes()) || slice_eq(
        ext,
        "ico".as_bytes(),
    ) || slice_eq(ext, "webp".as_bytes()) || slice_eq(ext, "avif".as_bytes()) || slice_eq(
        ext,
        "mp3".as_bytes(),
    ) || slice_eq(ext, "mp4".as_bytes()) || slice_eq(ext, "mov".as_bytes()) || slice_eq(
        ext,
        "avi".as_bytes(),
    ) || slice_eq(ext, "woff".as_bytes()) || slice_eq(ext, "woff2".as_bytes()) || slice_eq(
        ext,
        "ttf".as_bytes(),
    ) || slice_eq(ext, "eot".as_bytes()) || slice_eq(ext, "otf".as_bytes()) || slice_eq(
        ext,
        "pdf".as_bytes(),
    ) || slice_eq(ext, "zip".as_bytes()) || slice_eq(ext, "gz".as_bytes()) || slice_eq(
        ext,
        "tar".as_bytes(),
    ) || slice_eq(ext, "exe".as_bytes()) || slice_eq(ext, "jar".as_bytes()) || slice_eq(
        ext,
        "bin".as_bytes(),
    )
}

fn find_last_dot(name: &[u8]) -> (r: Option<usize>)
    ensures
        r matches Some(k) ==> last_dot(name@) == k as int && 1 <= k < name@.len(),
        r is None ==> last_dot(name@) == -1,
{
    let mut k: usize = name.len();
    proof {
        assert(name@.take(name@.len() as int) =~= name@);
    }
    while k > 1
        invariant
            k <= name@.len(),
            last_dot(name@) == last_dot(name@.take(k as int)),
        decreases k,
    {
        let ghost prefix = name@.take(k as int);
        assert(prefix.len() == k);
        assert(prefix[k - 1] == name@[k - 1]);
        if name[k - 1] == 46 {
            return Some(k - 1);
        }
        proof {
            assert(prefix.drop_last() =~= name@.take(k - 1));
        }
        k -= 1;
    }
    assert(last_dot(name@.take(k as int)) == -1);
    None
}

/// Whether a file with this name is scanned, by the resolver's three
/// denylists.
pub fn file_allowed(name: &[u8]) -> (r: bool)
    ensures
        r == file_eligible(name@),
{
    if name_is_denylisted(name) {
        return false;
    }
    match find_last_dot(name) {
        None => true,
        Some(k) => {
            let n = name.len();
            assert(1 <= k < n);
            let ext = vstd::slice::slice_subrange(name, k + 1, n);
            !extension_is_ignored(ext) && !extension_is_binary(ext)
        },
    }
}

} // verus!
