use vstd::prelude::*;
use vstd::utf8::{valid_utf8, decode_utf8, encode_utf8};
use rayon::iter::{IntoParallelRefIterator, ParallelIterator};
use crate::scanner::{scan_ok, candidate_set, views_of, valid_candidate, scan_candidates};
use crate::order::{lex_sorted, sort_candidates};

verus! {

// The aggregator: one scan task per blob, dispatched across a worker pool,
// merged by a set union that is associative and commutative, so the result
// does not depend on scheduling; then sorted and rendered as text.

/// The candidates found in the first `k` blobs.
pub open spec fn global_upto(blobs: Seq<Seq<u8>>, k: int) -> Set<Seq<u8>> {
    Set::new(
        |c: Seq<u8>|
            exists|i: int| 0 <= i < k && i < blobs.len() && candidate_set(#[trigger] blobs[i]).contains(c),
    )
}

/// The union of the candidate sets of all blobs of one batch.
pub open spec fn global_candidate_set(blobs: Seq<Seq<u8>>) -> Set<Seq<u8>> {
    global_upto(blobs, blobs.len() as int)
}

/// The character views of a list of strings.
pub open spec fn string_views(out: Seq<String>) -> Seq<Seq<char>> {
    Seq::new(out.len(), |i: int| out[i]@)
}

/// The UTF-8 bytes of each piece of text.
pub open spec fn encoded(out: Seq<Seq<char>>) -> Seq<Seq<u8>> {
    Seq::new(out.len(), |i: int| encode_utf8(out[i]))
}

/// What the batch entry point promises: the output, read back as bytes, is
/// the sorted, duplicate-free rendering of the batch's candidate set.
pub open spec fn output_ok(blobs: Seq<Seq<u8>>, out: Seq<Seq<char>>) -> bool {
    &&& encoded(out).no_duplicates()
    &&& lex_sorted(encoded(out))
    &&& encoded(out).to_set() == global_candidate_set(blobs)
}

/// Relies on rayon's par_iter, map and collect over a slice: an indexed
/// parallel iterator runs the closure once per blob and collects the results
/// in the blobs' order.  The closure is the verified scanner, so each result
/// satisfies the scanner's contract whatever the scheduling.
#[verifier::external_body]
fn scan_all_parallel(blobs: &Vec<Vec<u8>>) -> (r: Vec<Vec<Vec<u8>>>)
    ensures
        r@.len() == blobs@.len(),
        forall|i: int|
            0 <= i < blobs@.len() ==> scan_ok(blobs@[i]@, views_of(#[trigger] r@[i]@)),
{
    blobs.par_iter().map(scan_candidates).collect()
}

/// Relies on String::from_utf8: on bytes that are a valid UTF-8 encoding it
/// returns Ok holding the text those bytes encode.
#[verifier::external_body]
fn string_of_bytes(b: Vec<u8>) -> (r: String)
    requires
        valid_utf8(b@),
    ensures
        r@ == decode_utf8(b@),
{
    String::from_utf8(b).unwrap()
}

pub(crate) fn copy_bytes(v: &Vec<u8>) -> (r: Vec<u8>)
    ensures
        r@ == v@,
{
    let mut r: Vec<u8> = Vec::new();
    let mut j: usize = 0;
    while j < v.len()
        invariant
            j <= v@.len(),
            r@ == v@.take(j as int),
        decreases v@.len() - j,
    {
        r.push(v[j]);
        proof {
            assert(r@ =~= v@.take(j + 1 as int));
        }
        j += 1;
    }
    proof {
        assert(v@.take(v@.len() as int) =~= v@);
    }
    r
}

proof fn lemma_global_upto_step(blobs: Seq<Seq<u8>>, k: int)
    requires
        0 <= k < blobs.len(),
    ensures
        global_upto(blobs, k + 1) == global_upto(blobs, k).union(candidate_set(blobs[k])),
{
    assert forall|c: Seq<u8>|
        global_upto(blobs, k + 1).contains(c) == global_upto(blobs, k).union(
            candidate_set(blobs[k]),
        ).contains(c) by {
        if global_upto(blobs, k + 1).contains(c) {
            let i = choose|i: int|
                0 <= i < k + 1 && i < blobs.len() && candidate_set(#[trigger] blobs[i]).contains(c);
            if i < k {
                assert(global_upto(blobs, k).contains(c));
            }
        }
        if global_upto(blobs, k).contains(c) {
            assert(global_upto(blobs, k + 1).contains(c));
        }
        if candidate_set(blobs[k]).contains(c) {
            assert(global_upto(blobs, k + 1).contains(c));
        }
    }
    assert(global_upto(blobs, k + 1) =~= global_upto(blobs, k).union(candidate_set(blobs[k])));
}

/// Merges one blob's candidates into the running union, keeping each byte
/// string once.  The union is plain set union: associative, commutative, and
/// indifferent to the order the per-blob results arrive in.
fn merge_into(acc: &mut Vec<Vec<u8>>, row: &Vec<Vec<u8>>)
    requires
        views_of(old(acc)@).no_duplicates(),
    ensures
        views_of(final(acc)@).no_duplicates(),
        views_of(final(acc)@).to_set() == views_of(old(acc)@).to_set().union(
            views_of(row@).to_set(),
        ),
{
    let ghost base = views_of(old(acc)@).to_set();
    let mut j: usize = 0;
    while j < row.len()
        invariant
            j <= row@.len(),
            views_of(acc@).no_duplicates(),
            views_of(acc@).to_set() == base.union(views_of(row@).take(j as int).to_set()),
        decreases row@.len() - j,
    {
        let ghost pre = views_of(acc@);
        let c = copy_bytes(&row[j]);
        assert(c@ == views_of(row@)[j as int]);
        if !crate::scanner::already_seen(acc, &c) {
            acc.push(c);
            proof {
                assert(views_of(acc@) =~= pre.push(views_of(row@)[j as int]));
                crate::scanner::lemma_to_set_push(pre, views_of(row@)[j as int]);
            }
        } else {
            proof {
                assert(views_of(acc@).to_set().contains(views_of(row@)[j as int]));
            }
        }
        proof {
            let rv = views_of(row@);
            assert(rv.take(j + 1 as int) =~= rv.take(j as int).push(rv[j as int]));
            crate::scanner::lemma_to_set_push(rv.take(j as int), rv[j as int]);
            assert(views_of(acc@).to_set() =~= base.union(rv.take(j + 1 as int).to_set()));
        }
        j += 1;
    }
    proof {
        assert(views_of(row@).take(row@.len() as int) =~= views_of(row@));
    }
}

/// Scans every blob of the batch in parallel, merges the per-blob candidate
/// sets, and returns the batch's candidates as sorted, deduplicated text.
pub fn parse_all_blobs(blobs: &Vec<Vec<u8>>) -> (r: Vec<String>)
    ensures
        output_ok(views_of(blobs@), string_views(r@)),
{
    broadcast use vstd::seq_lib::group_to_multiset_ensures;

    let ghost bv = views_of(blobs@);
    let per = scan_all_parallel(blobs);
    let mut acc: Vec<Vec<u8>> = Vec::new();
    let mut i: usize = 0;
    proof {
        assert(views_of(acc@) =~= Seq::<Seq<u8>>::empty());
        assert(views_of(acc@).to_set() =~= global_upto(bv, 0));
    }
    while i < per.len()
        invariant
            per@.len() == blobs@.len(),
            bv == views_of(blobs@),
            forall|k: int|
                0 <= k < blobs@.len() ==> scan_ok(blobs@[k]@, views_of(#[trigger] per@[k]@)),
            i <= per@.len(),
            views_of(acc@).no_duplicates(),
            views_of(acc@).to_set() == global_upto(bv, i as int),
        decreases per@.len() - i,
    {
        merge_into(&mut acc, &per[i]);
        proof {
            assert(views_of(per@[i as int]@).to_set() == candidate_set(bv[i as int]));
            lemma_global_upto_step(bv, i as int);
        }
        i += 1;
    }
    assert(views_of(acc@).to_set() == global_candidate_set(bv));
    let ghost accv = views_of(acc@);
    let sorted = sort_candidates(acc);
    let ghost sv = views_of(sorted@);
    proof {
        lemma_nodup_transfer(accv, sv);
        lemma_same_multiset_same_set(accv, sv);
    }
    // every surviving byte string is a candidate, hence valid UTF-8, so the
    // conversion to text cannot fail
    assert forall|k: int| 0 <= k < sv.len() implies valid_utf8(#[trigger] sv[k]) by {
        assert(sv.contains(sv[k]));
        assert(sv.to_set().contains(sv[k]));
        assert(global_candidate_set(bv).contains(sv[k]));
        assert(valid_candidate(sv[k]));
    }
    let mut out: Vec<String> = Vec::new();
    let mut k: usize = 0;
    while k < sorted.len()
        invariant
            sv == views_of(sorted@),
            forall|j: int| 0 <= j < sv.len() ==> valid_utf8(#[trigger] sv[j]),
            k <= sv.len(),
            out@.len() == k,
            forall|j: int| 0 <= j < k ==> (#[trigger] out@[j])@ == decode_utf8(sv[j]),
        decreases sv.len() - k,
    {
        let b = copy_bytes(&sorted[k]);
        assert(b@ == sv[k as int]);
        assert(valid_utf8(sv[k as int]));
        let s = string_of_bytes(b);
        out.push(s);
        k += 1;
    }
    proof {
        broadcast use vstd::utf8::decode_utf8_encode_utf8;

        assert(encoded(string_views(out@)) =~= sv);
    }
    out
}

proof fn lemma_nodup_transfer(a: Seq<Seq<u8>>, b: Seq<Seq<u8>>)
    requires
        a.no_duplicates(),
        a.to_multiset() == b.to_multiset(),
    ensures
        b.no_duplicates(),
{
    broadcast use vstd::seq_lib::group_to_multiset_ensures;

    a.lemma_multiset_has_no_duplicates();
    b.lemma_multiset_has_no_duplicates_conv();
}

proof fn lemma_same_multiset_same_set(a: Seq<Seq<u8>>, b: Seq<Seq<u8>>)
    requires
        a.to_multiset() == b.to_multiset(),
    ensures
        a.to_set() == b.to_set(),
{
    broadcast use vstd::seq_lib::group_to_multiset_ensures;

    assert forall|x: Seq<u8>| a.contains(x) == b.contains(x) by {
        assert(a.contains(x) <==> a.to_multiset().count(x) > 0);
        assert(b.contains(x) <==> b.to_multiset().count(x) > 0);
    }
    assert(a.to_set() =~= b.to_set());
}

} // verus!
