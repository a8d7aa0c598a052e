use vstd::prelude::*;
use vstd::relations::{sorted_by, total_ordering};
use vstd::multiset::Multiset;
use crate::scanner::views_of;

verus! {

// The final sequence is ordered byte-lexicographically, which on UTF-8 text
// coincides with the ordering of the decoded strings, so downstream
// consumers can diff or cache on the output deterministically.

/// Byte-lexicographic order on byte strings.
pub open spec fn lex_le(a: Seq<u8>, b: Seq<u8>) -> bool
    decreases a.len(),
{
    if a.len() == 0 {
        true
    } else if b.len() == 0 {
        false
    } else if a[0] < b[0] {
        true
    } else if a[0] > b[0] {
        false
    } else {
        lex_le(a.drop_first(), b.drop_first())
    }
}

/// The order as a relation value, for vstd's sortedness predicates.
pub open spec fn lex_leq_fn() -> spec_fn(Seq<u8>, Seq<u8>) -> bool {
    |a: Seq<u8>, b: Seq<u8>| lex_le(a, b)
}

/// Sortedness under the byte-lexicographic order.
pub open spec fn lex_sorted(s: Seq<Seq<u8>>) -> bool {
    forall|i: int, j: int| 0 <= i < j < s.len() ==> lex_le(#[trigger] s[i], #[trigger] s[j])
}

proof fn lemma_lex_refl(a: Seq<u8>)
    ensures
        lex_le(a, a),
    decreases a.len(),
{
    if a.len() > 0 {
        lemma_lex_refl(a.drop_first());
    }
}

proof fn lemma_lex_antisym(a: Seq<u8>, b: Seq<u8>)
    requires
        lex_le(a, b),
        lex_le(b, a),
    ensures
        a == b,
    decreases a.len(),
{
    if a.len() == 0 {
        assert(b.len() == 0);
        assert(a =~= b);
    } else {
        assert(b.len() > 0);
        assert(a[0] == b[0]);
        lemma_lex_antisym(a.drop_first(), b.drop_first());
        assert(a.len() == b.len());
        assert forall|i: int| 0 <= i < a.len() implies a[i] == b[i] by {
            if i > 0 {
                assert(a.drop_first()[i - 1] == b.drop_first()[i - 1]);
            }
        }
        assert(a =~= b);
    }
}

proof fn lemma_lex_trans(a: Seq<u8>, b: Seq<u8>, c: Seq<u8>)
    requires
        lex_le(a, b),
        lex_le(b, c),
    ensures
        lex_le(a, c),
    decreases a.len(),
{
    if a.len() == 0 {
    } else {
        assert(b.len() > 0);
        assert(c.len() > 0);
        if a[0] == b[0] && b[0] == c[0] {
            lemma_lex_trans(a.drop_first(), b.drop_first(), c.drop_first());
        }
    }
}

proof fn lemma_lex_connected(a: Seq<u8>, b: Seq<u8>)
    ensures
        lex_le(a, b) || lex_le(b, a),
    decreases a.len(),
{
    if a.len() > 0 && b.len() > 0 && a[0] == b[0] {
        lemma_lex_connected(a.drop_first(), b.drop_first());
    }
}

/// Byte-lexicographic order is a total order, so one sorted sequence stands
/// for each candidate set.
pub proof fn lemma_lex_total_ordering()
    ensures
        total_ordering(lex_leq_fn()),
{
    let leq = lex_leq_fn();
    assert forall|a: Seq<u8>| #[trigger] leq(a, a) by {
        lemma_lex_refl(a);
    }
    assert forall|a: Seq<u8>, b: Seq<u8>| #[trigger] leq(a, b) && #[trigger] leq(b, a) implies a
        == b by {
        lemma_lex_antisym(a, b);
    }
    assert forall|a: Seq<u8>, b: Seq<u8>, c: Seq<u8>|
        #[trigger] leq(a, b) && #[trigger] leq(b, c) implies leq(a, c) by {
        lemma_lex_trans(a, b, c);
    }
    assert forall|a: Seq<u8>, b: Seq<u8>| #[trigger] leq(a, b) || #[trigger] leq(b, a) by {
        lemma_lex_connected(a, b);
    }
}

/// `lex_sorted` is `sorted_by` under the same order.
pub proof fn lemma_lex_sorted_is_sorted_by(s: Seq<Seq<u8>>)
    requires
        lex_sorted(s),
    ensures
        sorted_by(s, lex_leq_fn()),
{
    let leq = lex_leq_fn();
    assert forall|i: int, j: int| 0 <= i < j < s.len() implies #[trigger] leq(s[i], s[j]) by {
        assert(lex_le(s[i], s[j]));
    }
}

/// Decides `lex_le` on two byte vectors.
pub fn lex_le_exec(a: &Vec<u8>, b: &Vec<u8>) -> (r: bool)
    ensures
        r == lex_le(a@, b@),
{
    let mut i: usize = 0;
    proof {
        assert(a@.skip(0) =~= a@);
        assert(b@.skip(0) =~= b@);
    }
    loop
        invariant
            i <= a@.len(),
            i <= b@.len(),
            lex_le(a@, b@) == lex_le(a@.skip(i as int), b@.skip(i as int)),
            lex_le(b@, a@) == lex_le(b@.skip(i as int), a@.skip(i as int)),
        decreases a@.len() - i,
    {
        if i == a.len() {
            assert(a@.skip(i as int).len() == 0);
            return true;
        }
        if i == b.len() {
            assert(b@.skip(i as int).len() == 0);
            assert(a@.skip(i as int).len() > 0);
            return false;
        }
        let x = a[i];
        let y = b[i];
        assert(a@.skip(i as int)[0] == a@[i as int]);
        assert(b@.skip(i as int)[0] == b@[i as int]);
        if x < y {
            return true;
        }
        if x > y {
            return false;
        }
        proof {
            assert(a@.skip(i as int).drop_first() =~= a@.skip(i + 1));
            assert(b@.skip(i as int).drop_first() =~= b@.skip(i + 1));
        }
        i += 1;
    }
}

/// The first position of the sorted list whose entry is at or past `x`.
fn lower_bound(out: &Vec<Vec<u8>>, x: &Vec<u8>) -> (k: usize)
    ensures
        k <= out@.len(),
        forall|j: int| 0 <= j < k ==> !lex_le(x@, #[trigger] views_of(out@)[j]),
        k < out@.len() ==> lex_le(x@, views_of(out@)[k as int]),
{
    let mut k: usize = 0;
    while k < out.len()
        invariant
            k <= out@.len(),
            forall|j: int| 0 <= j < k ==> !lex_le(x@, #[trigger] views_of(out@)[j]),
        decreases out@.len() - k,
    {
        if lex_le_exec(x, &out[k]) {
            return k;
        }
        k += 1;
    }
    k
}

proof fn lemma_insert_multiset(s: Seq<Seq<u8>>, k: int, x: Seq<u8>)
    requires
        0 <= k <= s.len(),
    ensures
        s.insert(k, x).to_multiset() == s.to_multiset().insert(x),
{
    broadcast use vstd::seq_lib::group_to_multiset_ensures;
    broadcast use vstd::multiset::group_multiset_axioms;

    let front = s.take(k);
    let back = s.skip(k);
    assert(s.insert(k, x) =~= front.push(x) + back);
    assert(s =~= front + back);
    vstd::seq_lib::lemma_multiset_commutative(front.push(x), back);
    vstd::seq_lib::lemma_multiset_commutative(front, back);
    assert(front.push(x).to_multiset() =~= front.to_multiset().insert(x));
    assert(front.to_multiset().insert(x).add(back.to_multiset()) =~= front.to_multiset().add(
        back.to_multiset(),
    ).insert(x));
    assert(s.insert(k, x).to_multiset() =~= s.to_multiset().insert(x));
}

/// Inserts a byte string into a sorted sequence, keeping it sorted.
fn insert_sorted(out: &mut Vec<Vec<u8>>, x: Vec<u8>)
    requires
        lex_sorted(views_of(old(out)@)),
    ensures
        lex_sorted(views_of(final(out)@)),
        views_of(final(out)@).to_multiset() == views_of(old(out)@).to_multiset().insert(x@),
{
    let ghost before = views_of(out@);
    let ghost xv = x@;
    let k = lower_bound(out, &x);
    assert forall|j: int| 0 <= j < k implies lex_le(#[trigger] before[j], xv) by {
        lemma_lex_connected(xv, before[j]);
    }
    out.insert(k, x);
    proof {
        assert(views_of(out@) =~= before.insert(k as int, xv));
        lemma_insert_multiset(before, k as int, xv);
        let now = views_of(out@);
        assert forall|i: int, j: int| 0 <= i < j < now.len() implies lex_le(
            #[trigger] now[i],
            #[trigger] now[j],
        ) by {
            if j < k {
                assert(now[i] == before[i] && now[j] == before[j]);
            } else if i < k && j == k {
                assert(now[i] == before[i]);
            } else if i < k && j > k {
                assert(now[i] == before[i] && now[j] == before[j - 1]);
                if k <= j - 1 && j - 1 < before.len() {
                    if i < j - 1 {
                        assert(lex_le(before[i], before[j - 1]));
                    } else {
                        assert(lex_le(before[i], xv));
                        assert(lex_le(xv, before[k as int]));
                        lemma_lex_trans(before[i], xv, before[k as int]);
                    }
                }
            } else if i == k && j > k {
                assert(now[j] == before[j - 1]);
                assert(lex_le(xv, before[k as int]));
                if j - 1 > k {
                    assert(lex_le(before[k as int], before[j - 1]));
                    lemma_lex_trans(xv, before[k as int], before[j - 1]);
                }
            } else {
                assert(now[i] == before[i - 1] && now[j] == before[j - 1]);
            }
        }
    }
}

/// Sorts the candidate list byte-lexicographically.  The output holds exactly
/// the same byte strings, as a multiset, so uniqueness is preserved.
pub fn sort_candidates(input: Vec<Vec<u8>>) -> (r: Vec<Vec<u8>>)
    ensures
        lex_sorted(views_of(r@)),
        views_of(r@).to_multiset() == views_of(input@).to_multiset(),
{
    broadcast use vstd::seq_lib::group_to_multiset_ensures;

    let ghost iv = views_of(input@);
    let mut r: Vec<Vec<u8>> = Vec::new();
    let mut input = input;
    proof {
        assert(views_of(r@) =~= Seq::<Seq<u8>>::empty());
        assert(views_of(input@).to_multiset() =~= iv.to_multiset());
    }
    // drain the input from the back, inserting each element in place
    while input.len() > 0
        invariant
            lex_sorted(views_of(r@)),
            views_of(r@).to_multiset().add(views_of(input@).to_multiset()) == iv.to_multiset(),
        decreases input@.len(),
    {
        let ghost pre = views_of(input@);
        let x = input.pop().unwrap();
        proof {
            assert(views_of(input@) =~= pre.drop_last());
            pre.drop_last().to_multiset_ensures();
            assert(pre.drop_last().push(x@).to_multiset() =~= pre.drop_last().to_multiset().insert(
                x@,
            ));
            assert(pre =~= pre.drop_last().push(x@));
            assert(pre.to_multiset() == pre.drop_last().push(x@).to_multiset());
        }
        insert_sorted(&mut r, x);
        proof {
            broadcast use vstd::multiset::group_multiset_axioms;

            assert(views_of(r@).to_multiset().add(views_of(input@).to_multiset())
                =~= iv.to_multiset());
        }
    }
    proof {
        assert(views_of(input@) =~= Seq::<Seq<u8>>::empty());
        assert(views_of(input@).to_multiset().len() == 0);
        assert(views_of(r@).to_multiset() =~= iv.to_multiset());
    }
    r
}

} // verus!
