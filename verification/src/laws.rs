use vstd::prelude::*;
use crate::scanner::{
    scan_ok, candidate_set, state_at, raw_spans_at, raw_spans, idle_state, is_starter_byte,
    closes_at_end,
};
use crate::order::{lex_leq_fn, lex_sorted, lemma_lex_total_ordering, lemma_lex_sorted_is_sorted_by};
use crate::pipeline::{global_candidate_set, global_upto, output_ok, encoded};

verus! {

// Laws of the engine as a whole: scanning is deterministic per blob, the
// batch result does not depend on the order the blobs were handed in, and
// inputs without a single span yield nothing.

/// Idempotence: two scans of one and the same blob describe the same
/// candidate set, however each run happened to order its findings.
pub proof fn lemma_scan_idempotent(s: Seq<u8>, out1: Seq<Seq<u8>>, out2: Seq<Seq<u8>>)
    requires
        scan_ok(s, out1),
        scan_ok(s, out2),
    ensures
        out1.to_set() == out2.to_set(),
{
}

proof fn lemma_nodup_same_set_same_multiset(a: Seq<Seq<u8>>, b: Seq<Seq<u8>>)
    requires
        a.no_duplicates(),
        b.no_duplicates(),
        a.to_set() == b.to_set(),
    ensures
        a.to_multiset() == b.to_multiset(),
{
    broadcast use vstd::seq_lib::group_to_multiset_ensures;

    a.lemma_multiset_has_no_duplicates();
    b.lemma_multiset_has_no_duplicates();
    assert forall|x: Seq<u8>| a.to_multiset().count(x) == b.to_multiset().count(x) by {
        assert(a.contains(x) == a.to_set().contains(x));
        assert(b.contains(x) == b.to_set().contains(x));
        if a.to_multiset().count(x) > 0 {
            assert(a.to_multiset().contains(x));
            assert(a.contains(x));
        } else {
            assert(!a.contains(x));
        }
        if b.to_multiset().count(x) > 0 {
            assert(b.to_multiset().contains(x));
            assert(b.contains(x));
        } else {
            assert(!b.contains(x));
        }
    }
    assert(a.to_multiset() =~= b.to_multiset());
}

proof fn lemma_global_set_permutation(b1: Seq<Seq<u8>>, b2: Seq<Seq<u8>>)
    requires
        b1.to_multiset() == b2.to_multiset(),
    ensures
        global_candidate_set(b1) == global_candidate_set(b2),
{
    broadcast use vstd::seq_lib::group_to_multiset_ensures;

    assert forall|c: Seq<u8>|
        global_candidate_set(b1).contains(c) == global_candidate_set(b2).contains(c) by {
        if global_candidate_set(b1).contains(c) {
            let i = choose|i: int|
                0 <= i < b1.len() && candidate_set(#[trigger] b1[i]).contains(c);
            assert(b1.contains(b1[i]));
            assert(b1.to_multiset().count(b1[i]) > 0);
            assert(b2.to_multiset().count(b1[i]) > 0);
            assert(b2.contains(b1[i]));
            let j = choose|j: int| 0 <= j < b2.len() && b2[j] == b1[i];
            assert(candidate_set(b2[j]).contains(c));
            assert(global_upto(b2, b2.len() as int).contains(c));
        }
        if global_candidate_set(b2).contains(c) {
            let i = choose|i: int|
                0 <= i < b2.len() && candidate_set(#[trigger] b2[i]).contains(c);
            assert(b2.contains(b2[i]));
            assert(b2.to_multiset().count(b2[i]) > 0);
            assert(b1.to_multiset().count(b2[i]) > 0);
            assert(b1.contains(b2[i]));
            let j = choose|j: int| 0 <= j < b1.len() && b1[j] == b2[i];
            assert(candidate_set(b1[j]).contains(c));
            assert(global_upto(b1, b1.len() as int).contains(c));
        }
    }
    assert(global_candidate_set(b1) =~= global_candidate_set(b2));
}

/// Order-independence: batches that hold the same blobs, in whatever order,
/// have exactly the same final sorted output.
pub proof fn lemma_order_independence(
    b1: Seq<Seq<u8>>,
    b2: Seq<Seq<u8>>,
    out1: Seq<Seq<char>>,
    out2: Seq<Seq<char>>,
)
    requires
        b1.to_multiset() == b2.to_multiset(),
        output_ok(b1, out1),
        output_ok(b2, out2),
    ensures
        out1 == out2,
{
    let e1 = encoded(out1);
    let e2 = encoded(out2);
    lemma_global_set_permutation(b1, b2);
    assert(e1.to_set() == e2.to_set());
    lemma_nodup_same_set_same_multiset(e1, e2);
    lemma_lex_total_ordering();
    lemma_lex_sorted_is_sorted_by(e1);
    lemma_lex_sorted_is_sorted_by(e2);
    vstd::seq_lib::lemma_sorted_unique(e1, e2, lex_leq_fn());
    assert(e1 == e2);
    broadcast use vstd::utf8::encode_utf8_decode_utf8;

    assert forall|i: int| 0 <= i < out1.len() implies out1[i] == out2[i] by {
        assert(e1[i] == e2[i]);
        assert(vstd::utf8::decode_utf8(vstd::utf8::encode_utf8(out1[i])) == out1[i]);
        assert(vstd::utf8::decode_utf8(vstd::utf8::encode_utf8(out2[i])) == out2[i]);
    }
    assert(out1 =~= out2);
}

/// Every candidate is non-empty and aligned on UTF-8 code-point boundaries:
/// a property of the grammar itself, so rendering a candidate as text can
/// never fail and never needs a runtime recovery path.
pub proof fn lemma_candidates_are_text(s: Seq<u8>, c: Seq<u8>)
    requires
        candidate_set(s).contains(c),
    ensures
        c.len() > 0,
        vstd::utf8::valid_utf8(c),
{
}

/// A whitespace byte: space, tab, line feed, vertical tab, form feed or
/// carriage return.
pub open spec fn is_space_byte(b: u8) -> bool {
    b == 32 || b == 9 || b == 10 || b == 11 || b == 12 || b == 13
}

proof fn lemma_idle_run(s: Seq<u8>, k: int)
    requires
        0 <= k <= s.len(),
        forall|i: int| 0 <= i < s.len() ==> !is_starter_byte(#[trigger] s[i]),
    ensures
        state_at(s, k) == idle_state(),
        raw_spans_at(s, k) == Seq::<Seq<u8>>::empty(),
    decreases k,
{
    if k > 0 {
        lemma_idle_run(s, k - 1);
        assert(!is_starter_byte(s[k - 1]));
    }
}

/// Empty input: a blob that is empty or all whitespace has an empty
/// candidate set — and no way to fail.
pub proof fn lemma_whitespace_only_yields_nothing(s: Seq<u8>)
    requires
        forall|i: int| 0 <= i < s.len() ==> is_space_byte(#[trigger] s[i]),
    ensures
        candidate_set(s) == Set::<Seq<u8>>::empty(),
{
    assert forall|i: int| 0 <= i < s.len() implies !is_starter_byte(#[trigger] s[i]) by {
        assert(is_space_byte(s[i]));
    }
    lemma_idle_run(s, s.len() as int);
    assert(!closes_at_end(state_at(s, s.len() as int)));
    assert(raw_spans(s) == Seq::<Seq<u8>>::empty());
    assert forall|c: Seq<u8>| !candidate_set(s).contains(c) by {
        assert(!Seq::<Seq<u8>>::empty().contains(c));
    }
    assert(candidate_set(s) =~= Set::<Seq<u8>>::empty());
}

} // verus!
