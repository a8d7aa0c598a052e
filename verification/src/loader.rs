use vstd::prelude::*;
use vstd::utf8::encode_utf8;

verus! {

// The content loader's decisions.  Reading bytes from a disk is the caller's
// business; everything the loader decides — which units need a read at all,
// and that a batch only survives whole — is here.

/// One input unit of a batch: a filesystem path whose bytes the caller reads,
/// or inline text handed over directly, plus an extension hint.  A unit with
/// neither path nor content stands for an empty blob, not an error.
#[derive(Debug, Clone)]
pub struct ChangedContent {
    /// Path of the file to read, if the unit is path-backed.
    pub file: Option<String>,
    /// Inline text, if the unit carries its content directly.
    pub content: Option<String>,
    /// Extension hint, carried but not yet steering the scan.
    pub extension: String,
}

/// The blob a unit yields without touching the disk: `None` when only a
/// file read can produce it.
pub open spec fn inline_plan(file: Option<Seq<char>>, content: Option<Seq<char>>) -> Option<
    Seq<u8>,
> {
    match (file, content) {
        (Option::Some(_), Option::None) => Option::None,
        (Option::None, Option::Some(text)) => Option::Some(encode_utf8(text)),
        _ => Option::Some(Seq::empty()),
    }
}

/// Materializes a unit that needs no I/O: inline text becomes its UTF-8
/// bytes, a unit with neither path nor content becomes the empty blob, and a
/// path-backed unit is left to the caller's reader.
pub fn inline_blob(c: &ChangedContent) -> (r: Option<Vec<u8>>)
    ensures
        r is Some <==> inline_plan(c.file.deep_view(), c.content.deep_view()) is Some,
        r matches Some(v) ==> inline_plan(c.file.deep_view(), c.content.deep_view())
            == Some(v@),
{
    match (&c.file, &c.content) {
        (Some(_), None) => None,
        (None, Some(text)) => Some(vstd::slice::slice_to_vec(text.as_str().as_bytes())),
        _ => Some(Vec::new()),
    }
}

/// Joins the loaded blobs into one batch.  The batch survives only whole:
/// one failed load fails everything, and no partial result is returned.
pub fn collect_blobs(parts: &Vec<Option<Vec<u8>>>) -> (r: Option<Vec<Vec<u8>>>)
    ensures
        r is Some <==> (forall|i: int| 0 <= i < parts@.len() ==> #[trigger] parts@[i] is Some),
        r matches Some(v) ==> {
            &&& v@.len() == parts@.len()
            &&& forall|i: int|
                0 <= i < parts@.len() ==> #[trigger] v@[i]@ == parts@[i]->Some_0@
        },
{
    let mut v: Vec<Vec<u8>> = Vec::new();
    let mut i: usize = 0;
    while i < parts.len()
        invariant
            i <= parts@.len(),
            v@.len() == i,
            forall|j: int| 0 <= j < i ==> #[trigger] parts@[j] is Some,
            forall|j: int| 0 <= j < i ==> #[trigger] v@[j]@ == parts@[j]->Some_0@,
        decreases parts@.len() - i,
    {
        match &parts[i] {
            Some(b) => {
                let copy = crate::pipeline::copy_bytes(b);
                v.push(copy);
            },
            None => {
                return None;
            },
        }
        i += 1;
    }
    Some(v)
}

} // verus!
