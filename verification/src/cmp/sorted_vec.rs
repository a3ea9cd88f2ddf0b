//! A vector of names kept in ascending byte order.

use vstd::prelude::*;
use vstd::seq_lib::*;
use vstd::multiset::Multiset;

use crate::order::{lex_lt, lex_le, lemma_lex_total, lemma_lex_le_transitive, bytes_lt};

verus! {

/// Names in ascending (non-strict) byte-lexicographic order; duplicates
/// are kept.
pub open spec fn names_sorted(s: Seq<Vec<u8>>) -> bool {
    forall|i: int, j: int| 0 <= i < j < s.len() ==> lex_le((#[trigger] s[i])@, (#[trigger] s[j])@)
}

/// A vector of names that is always sorted ascending.
#[derive(Debug)]
pub struct SortedVec(pub Vec<Vec<u8>>);

impl SortedVec {
    /// Sorts the given names; the result holds exactly the same names.
    pub fn new(vec: Vec<Vec<u8>>) -> (r: SortedVec)
        ensures
            names_sorted(r.0@),
            r.0@.to_multiset() == vec@.to_multiset(),
    {
        let mut work = vec;
        let mut out: Vec<Vec<u8>> = Vec::new();
        proof {
            broadcast use vstd::seq_lib::group_to_multiset_ensures, vstd::multiset::group_multiset_axioms;

            assert(out@.to_multiset().add(work@.to_multiset()) =~= vec@.to_multiset());
        }
        while work.len() > 0
            invariant
                names_sorted(out@),
                out@.to_multiset().add(work@.to_multiset()) == vec@.to_multiset(),
                forall|i: int, j: int|
                    0 <= i < out@.len() && 0 <= j < work@.len() ==> lex_le(
                        (#[trigger] out@[i])@,
                        (#[trigger] work@[j])@,
                    ),
            decreases work@.len(),
        {
            // find a minimal remaining name
            let mut m: usize = 0;
            let mut j: usize = 1;
            while j < work.len()
                invariant
                    m < j <= work@.len(),
                    work@.len() > 0,
                    forall|k: int| 0 <= k < j ==> lex_le(work@[m as int]@, (#[trigger] work@[k])@),
                decreases work@.len() - j,
            {
                if bytes_lt(work[j].as_slice(), work[m].as_slice()) {
                    assert forall|k: int|
                        0 <= k < j + 1 implies lex_le(work@[j as int]@, (#[trigger] work@[k])@) by {
                        lemma_lex_le_transitive(work@[j as int]@, work@[m as int]@, work@[k]@);
                    }
                    m = j;
                } else {
                    proof {
                        lemma_lex_total(work@[j as int]@, work@[m as int]@);
                    }
                }
                j = j + 1;
            }
            let ghost workpre = work@;
            let x = work.remove(m);
            let ghost outpre = out@;
            out.push(x);
            proof {
                broadcast use vstd::seq_lib::group_to_multiset_ensures, vstd::multiset::group_multiset_axioms;

                workpre.remove_ensures(m as int);
                assert(work@.to_multiset() =~= workpre.to_multiset().remove(x));
                assert(out@.to_multiset() =~= outpre.to_multiset().insert(x));
                assert(workpre.to_multiset().contains(x));
                assert(out@.to_multiset().add(work@.to_multiset()) =~= outpre.to_multiset().add(
                    workpre.to_multiset(),
                ));
                assert forall|i: int, j2: int|
                    0 <= i < out@.len() && 0 <= j2 < work@.len() implies lex_le(
                    (#[trigger] out@[i])@,
                    (#[trigger] work@[j2])@,
                ) by {
                    let orig = if j2 < m { j2 } else { j2 + 1 };
                    assert(work@[j2] == workpre[orig]);
                    if i < outpre.len() {
                        assert(out@[i] == outpre[i]);
                    } else {
                        assert(out@[i] == x);
                        assert(lex_le(workpre[m as int]@, workpre[orig]@));
                    }
                }
                assert forall|i: int, j2: int|
                    0 <= i < j2 < out@.len() implies lex_le(
                    (#[trigger] out@[i])@,
                    (#[trigger] out@[j2])@,
                ) by {
                    if j2 < outpre.len() {
                        assert(out@[i] == outpre[i] && out@[j2] == outpre[j2]);
                    } else {
                        assert(out@[j2] == x);
                        assert(out@[i] == outpre[i]);
                        assert(lex_le(outpre[i]@, workpre[m as int]@));
                    }
                }
            }
        }
        proof {
            broadcast use vstd::seq_lib::group_to_multiset_ensures, vstd::multiset::group_multiset_axioms;

            assert(work@.to_multiset() =~= Multiset::<Vec<u8>>::empty());
            assert(out@.to_multiset().add(work@.to_multiset()) =~= out@.to_multiset());
        }
        SortedVec(out)
    }

    /// Merges two sorted vectors into one; the result holds exactly the
    /// names of both.
    pub fn merge(self, other: SortedVec) -> (r: SortedVec)
        requires
            names_sorted(self.0@),
            names_sorted(other.0@),
        ensures
            names_sorted(r.0@),
            r.0@.to_multiset() == self.0@.to_multiset().add(other.0@.to_multiset()),
    {
        let ghost sorig = self.0@;
        let ghost oorig = other.0@;
        let mut left = self.0;
        let mut right = other.0;
        let mut out: Vec<Vec<u8>> = Vec::new();
        proof {
            broadcast use vstd::seq_lib::group_to_multiset_ensures, vstd::multiset::group_multiset_axioms;

            assert(out@.to_multiset().add(left@.to_multiset()).add(right@.to_multiset()) =~= sorig
                .to_multiset().add(oorig.to_multiset()));
        }
        while left.len() > 0 || right.len() > 0
            invariant
                names_sorted(left@),
                names_sorted(right@),
                names_sorted(out@),
                out@.to_multiset().add(left@.to_multiset()).add(right@.to_multiset()) == sorig
                    .to_multiset().add(oorig.to_multiset()),
                forall|i: int, j: int|
                    0 <= i < out@.len() && 0 <= j < left@.len() ==> lex_le(
                        (#[trigger] out@[i])@,
                        (#[trigger] left@[j])@,
                    ),
                forall|i: int, j: int|
                    0 <= i < out@.len() && 0 <= j < right@.len() ==> lex_le(
                        (#[trigger] out@[i])@,
                        (#[trigger] right@[j])@,
                    ),
            decreases left@.len() + right@.len(),
        {
            let take_left = if right.len() == 0 {
                true
            } else if left.len() == 0 {
                false
            } else {
                !bytes_lt(right[0].as_slice(), left[0].as_slice())
            };
            let ghost outpre = out@;
            if take_left {
                let ghost lpre = left@;
                let x = left.remove(0);
                out.push(x);
                proof {
                    broadcast use vstd::seq_lib::group_to_multiset_ensures, vstd::multiset::group_multiset_axioms;

                    lpre.remove_ensures(0);
                    lemma_merge_step(outpre, out@, lpre, left@, right@, x);
                    if right@.len() > 0 {
                        lemma_lex_total(x@, right@[0]@);
                        assert forall|j: int|
                            0 <= j < right@.len() implies lex_le(x@, (#[trigger] right@[j])@) by {
                            lemma_lex_le_transitive(x@, right@[0]@, right@[j]@);
                        }
                    }
                    assert(out@.to_multiset().add(left@.to_multiset()).add(right@.to_multiset())
                        =~= outpre.to_multiset().add(lpre.to_multiset()).add(right@.to_multiset()));
                }
            } else {
                let ghost rpre = right@;
                let x = right.remove(0);
                out.push(x);
                proof {
                    broadcast use vstd::seq_lib::group_to_multiset_ensures, vstd::multiset::group_multiset_axioms;

                    rpre.remove_ensures(0);
                    lemma_merge_step(outpre, out@, rpre, right@, left@, x);
                    if left@.len() > 0 {
                        assert(lex_lt(x@, left@[0]@));
                        assert forall|j: int|
                            0 <= j < left@.len() implies lex_le(x@, (#[trigger] left@[j])@) by {
                            lemma_lex_le_transitive(x@, left@[0]@, left@[j]@);
                        }
                    }
                    assert(out@.to_multiset().add(left@.to_multiset()).add(right@.to_multiset())
                        =~= outpre.to_multiset().add(left@.to_multiset()).add(rpre.to_multiset()));
                }
            }
        }
        proof {
            broadcast use vstd::seq_lib::group_to_multiset_ensures, vstd::multiset::group_multiset_axioms;

            assert(left@.to_multiset() =~= Multiset::<Vec<u8>>::empty());
            assert(right@.to_multiset() =~= Multiset::<Vec<u8>>::empty());
            assert(out@.to_multiset() =~= out@.to_multiset().add(left@.to_multiset()).add(
                right@.to_multiset(),
            ));
        }
        SortedVec(out)
    }

    /// Hands the names out in order.
    pub fn to_iter(self) -> (r: Vec<Vec<u8>>)
        ensures
            r == self.0,
    {
        self.0
    }
}

/// One merge step: the head of a sorted source, no smaller than anything
/// already emitted, moves to the back of the output; the output stays
/// sorted and still precedes both remainders.
proof fn lemma_merge_step(
    outpre: Seq<Vec<u8>>,
    outnew: Seq<Vec<u8>>,
    srcpre: Seq<Vec<u8>>,
    srcnew: Seq<Vec<u8>>,
    othernew: Seq<Vec<u8>>,
    x: Vec<u8>,
)
    requires
        names_sorted(outpre),
        names_sorted(srcpre),
        srcpre.len() > 0,
        x == srcpre[0],
        srcnew == srcpre.remove(0),
        outnew == outpre.push(x),
        forall|i: int, j: int|
            0 <= i < outpre.len() && 0 <= j < srcpre.len() ==> lex_le(
                (#[trigger] outpre[i])@,
                (#[trigger] srcpre[j])@,
            ),
    ensures
        names_sorted(srcnew),
        names_sorted(outnew),
        forall|i: int, j: int|
            0 <= i < outnew.len() && 0 <= j < srcnew.len() ==> lex_le(
                (#[trigger] outnew[i])@,
                (#[trigger] srcnew[j])@,
            ),
{
    srcpre.remove_ensures(0);
    assert forall|i: int, j: int|
        0 <= i < j < srcnew.len() implies lex_le((#[trigger] srcnew[i])@, (#[trigger] srcnew[j])@) by {
        assert(srcnew[i] == srcpre[i + 1] && srcnew[j] == srcpre[j + 1]);
    }
    assert forall|i: int, j: int|
        0 <= i < j < outnew.len() implies lex_le((#[trigger] outnew[i])@, (#[trigger] outnew[j])@) by {
        if j < outpre.len() {
            assert(outnew[i] == outpre[i] && outnew[j] == outpre[j]);
        } else {
            assert(outnew[j] == x);
            assert(outnew[i] == outpre[i]);
            assert(lex_le(outpre[i]@, srcpre[0]@));
        }
    }
    assert forall|i: int, j: int|
        0 <= i < outnew.len() && 0 <= j < srcnew.len() implies lex_le(
        (#[trigger] outnew[i])@,
        (#[trigger] srcnew[j])@,
    ) by {
        assert(srcnew[j] == srcpre[j + 1]);
        if i < outpre.len() {
            assert(outnew[i] == outpre[i]);
        } else {
            assert(outnew[i] == x);
            assert(lex_le(srcpre[0]@, srcpre[j + 1]@));
        }
    }
}

} // verus!
