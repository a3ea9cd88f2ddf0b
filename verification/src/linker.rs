//! The two-pass matcher and the searches it is built on.
//!
//! Pass one walks the left index and classifies every left entry against the
//! right index, writing both sides where the match is unambiguous. Pass two
//! re-examines right entries still `Unique`, upgrading a left `Maybe` with a
//! single candidate to a symmetric pair of `Moved` links.

use vstd::prelude::*;

use crate::entry::{
    Entry, Status, entry_lt, entry_key_eq, key_lt_hp, entries_sorted,
    paths_unique, keys_equal, lemma_key_lt_hp_trans, lemma_key_order_connected,
};
use crate::order::{lex_lt, lemma_lex_lt_transitive, lemma_lex_lt_asymmetric,
    lemma_lex_lt_irreflexive, lemma_lex_lt_connected};

verus! {

/// `list` holds exactly the indices of the entries of `s` whose digest is
/// `h`, in ascending order.
pub open spec fn is_match_list(list: Seq<usize>, h: Seq<u8>, s: Seq<Entry>) -> bool {
    &&& forall|t: int| 0 <= t < list.len() ==> (#[trigger] list[t]) < s.len()
        && s[list[t] as int].hash@ == h
    &&& forall|j: int|
        0 <= j < s.len() && (#[trigger] s[j]).hash@ == h ==> exists|t: int|
            0 <= t < list.len() && list[t] == j
    &&& forall|t1: int, t2: int| 0 <= t1 < t2 < list.len() ==> #[trigger] list[t1] < #[trigger] list[t2]
}

/// Binary search for the partition point of the key `(h, p)` within
/// `entries[..hi]`: everything before the result is strictly below the key,
/// nothing from the result on is.
pub(crate) fn lower_bound(entries: &Vec<Entry>, hi: usize, h: &crate::entry::Hash, p: &[u8]) -> (i: usize)
    requires
        entries_sorted(entries@),
        hi <= entries@.len(),
    ensures
        i <= hi,
        forall|k: int| 0 <= k < i ==> key_lt_hp(#[trigger] entries@[k], h@, p@),
        forall|k: int| i <= k < hi ==> !key_lt_hp(#[trigger] entries@[k], h@, p@),
{
    let mut lo: usize = 0;
    let mut up: usize = hi;
    while lo < up
        invariant
            lo <= up <= hi <= entries@.len(),
            entries_sorted(entries@),
            forall|k: int| 0 <= k < lo ==> key_lt_hp(#[trigger] entries@[k], h@, p@),
            forall|k: int| up <= k < hi ==> !key_lt_hp(#[trigger] entries@[k], h@, p@),
        decreases up - lo,
    {
        let mid = lo + (up - lo) / 2;
        let below = if entries[mid].hash.lt_hash(h) {
            true
        } else if entries[mid].hash.eq_hash(h) {
            crate::order::bytes_lt(entries[mid].path.as_slice(), p)
        } else {
            false
        };
        if below {
            assert forall|k: int| 0 <= k < mid + 1 implies key_lt_hp(
                #[trigger] entries@[k],
                h@,
                p@,
            ) by {
                if k < mid {
                    lemma_key_lt_hp_trans(entries@[k], entries@[mid as int], h@, p@);
                }
            }
            lo = mid + 1;
        } else {
            assert forall|k: int| mid <= k < hi implies !key_lt_hp(
                #[trigger] entries@[k],
                h@,
                p@,
            ) by {
                if k > mid && key_lt_hp(entries@[k], h@, p@) {
                    lemma_key_lt_hp_trans(entries@[mid as int], entries@[k], h@, p@);
                }
            }
            up = mid;
        }
    }
    lo
}

/// Binary search for the partition point of the digest `h` within
/// `entries[..hi]`: everything before the result has a strictly smaller
/// digest, nothing in `[result, hi)` does.
fn lower_bound_hash(entries: &Vec<Entry>, hi: usize, h: &crate::entry::Hash) -> (i: usize)
    requires
        entries_sorted(entries@),
        hi <= entries@.len(),
    ensures
        i <= hi,
        forall|k: int| 0 <= k < i ==> lex_lt((#[trigger] entries@[k]).hash@, h@),
        forall|k: int| i <= k < hi ==> !lex_lt((#[trigger] entries@[k]).hash@, h@),
{
    let mut lo: usize = 0;
    let mut up: usize = hi;
    while lo < up
        invariant
            lo <= up <= hi <= entries@.len(),
            entries_sorted(entries@),
            forall|k: int| 0 <= k < lo ==> lex_lt((#[trigger] entries@[k]).hash@, h@),
            forall|k: int| up <= k < hi ==> !lex_lt((#[trigger] entries@[k]).hash@, h@),
        decreases up - lo,
    {
        let mid = lo + (up - lo) / 2;
        if entries[mid].hash.lt_hash(h) {
            assert forall|k: int| 0 <= k < mid + 1 implies lex_lt(
                (#[trigger] entries@[k]).hash@,
                h@,
            ) by {
                if k < mid {
                    assert(entry_lt(entries@[k], entries@[mid as int]));
                    lemma_lex_lt_transitive(entries@[k].hash@, entries@[mid as int].hash@, h@);
                }
            }
            lo = mid + 1;
        } else {
            assert forall|k: int| mid <= k < hi implies !lex_lt(
                (#[trigger] entries@[k]).hash@,
                h@,
            ) by {
                if k > mid && lex_lt(entries@[k].hash@, h@) {
                    assert(entry_lt(entries@[mid as int], entries@[k]));
                    lemma_lex_lt_transitive(entries@[mid as int].hash@, entries@[k].hash@, h@);
                }
            }
            up = mid;
        }
    }
    lo
}

/// Linear search for the first entry whose relative path is `p`.
fn find_path(entries: &Vec<Entry>, p: &[u8]) -> (r: Option<usize>)
    ensures
        match r {
            Some(k) => k < entries@.len() && entries@[k as int].path@ == p@ && forall|k2: int|
                0 <= k2 < k ==> (#[trigger] entries@[k2]).path@ != p@,
            None => forall|k: int| 0 <= k < entries@.len() ==> (#[trigger] entries@[k]).path@ != p@,
        },
{
    let mut k: usize = 0;
    while k < entries.len()
        invariant
            k <= entries@.len(),
            forall|k2: int| 0 <= k2 < k ==> (#[trigger] entries@[k2]).path@ != p@,
        decreases entries@.len() - k,
    {
        if crate::order::bytes_eq(entries[k].path.as_slice(), p) {
            return Some(k);
        }
        k = k + 1;
    }
    None
}

/// Overwrites the status of `v[i]`, leaving its digest and path alone.
fn set_status(v: &mut Vec<Entry>, i: usize, st: Status)
    requires
        i < old(v)@.len(),
    ensures
        final(v)@.len() == old(v)@.len(),
        forall|j: int| 0 <= j < old(v)@.len() && j != i ==> final(v)@[j] == old(v)@[j],
        final(v)@[i as int].hash == old(v)@[i as int].hash,
        final(v)@[i as int].path == old(v)@[i as int].path,
        final(v)@[i as int].status == st,
{
    let e = &mut v[i];
    e.status = st;
}

/// Collects the ascending indices of all entries of `children` whose digest
/// equals `hash`. `pivot` is a search hint: any partition point at or left
/// of the digest's range, as delivered by a failed full-key search.
pub fn matching_hashes(hash: &crate::entry::Hash, pivot: usize, children: &Vec<Entry>) -> (r: Vec<usize>)
    requires
        entries_sorted(children@),
        pivot <= children@.len(),
    ensures
        is_match_list(r@, hash@, children@),
{
    let d = hash.decrement();
    proof {
        if exists|i: int| 0 <= i < 16 && hash@[i] != 0 {
            assert(lex_lt(d@, hash@));
        } else {
            assert(d@ == hash@);
        }
    }
    let mut i = lower_bound_hash(children, pivot, &d);
    assert forall|k: int| 0 <= k < i implies lex_lt((#[trigger] children@[k]).hash@, hash@) by {
        lemma_lex_lt_transitive(children@[k].hash@, d@, hash@);
    }
    while i < children.len() && children[i].hash.lt_hash(hash)
        invariant
            i <= children@.len(),
            entries_sorted(children@),
            forall|k: int| 0 <= k < i ==> lex_lt((#[trigger] children@[k]).hash@, hash@),
        decreases children@.len() - i,
    {
        i = i + 1;
    }
    let start = i;
    let mut r: Vec<usize> = Vec::new();
    while i < children.len() && children[i].hash.eq_hash(hash)
        invariant
            start <= i <= children@.len(),
            start < children@.len() ==> !lex_lt(children@[start as int].hash@, hash@),
            entries_sorted(children@),
            forall|k: int| 0 <= k < start ==> lex_lt((#[trigger] children@[k]).hash@, hash@),
            forall|k: int| start <= k < i ==> (#[trigger] children@[k]).hash@ == hash@,
            r@.len() == i - start,
            forall|t: int| 0 <= t < r@.len() ==> #[trigger] r@[t] == start + t,
        decreases children@.len() - i,
    {
        r.push(i);
        i = i + 1;
    }
    proof {
        lemma_lex_lt_irreflexive(hash@);
        assert forall|j: int|
            0 <= j < children@.len() && (#[trigger] children@[j]).hash@ == hash@ implies exists|
            t: int,
        | 0 <= t < r@.len() && r@[t] == j by {
            if j < start {
                assert(lex_lt(children@[j].hash@, hash@));
                assert(false);
            } else if j >= i {
                assert(i < children@.len());
                if i == start {
                    assert(!lex_lt(children@[i as int].hash@, hash@));
                } else {
                    assert(children@[i - 1].hash@ == hash@);
                    assert(entry_lt(children@[i - 1], children@[i as int]));
                    lemma_lex_lt_asymmetric(hash@, children@[i as int].hash@);
                }
                // the digest at `i` differs and is not below the target
                assert(children@[i as int].hash@ != hash@);
                assert(!lex_lt(children@[i as int].hash@, hash@));
                if j > i {
                    assert(entry_lt(children@[i as int], children@[j]));
                }
                lemma_lex_lt_connected(children@[i as int].hash@, hash@);
                if j > i {
                    lemma_lex_lt_transitive(children@[i as int].hash@, children@[j].hash@, hash@)
                }
                assert(false);
            } else {
                assert(r@[j - start] == j);
            }
        }
    }
    r
}

/// Some entry of `s` has exactly the key (digest and path) of `e`.
pub open spec fn has_key_match(e: Entry, s: Seq<Entry>) -> bool {
    exists|b: int| 0 <= b < s.len() && entry_key_eq(e, #[trigger] s[b])
}

/// Some entry of `s` has the digest of `e`.
pub open spec fn has_hash_match(e: Entry, s: Seq<Entry>) -> bool {
    exists|j: int| 0 <= j < s.len() && (#[trigger] s[j]).hash@ == e.hash@
}

/// Some entry of `s` has the relative path of `e`.
pub open spec fn has_path_match(e: Entry, s: Seq<Entry>) -> bool {
    exists|k: int| 0 <= k < s.len() && (#[trigger] s[k]).path@ == e.path@
}

/// Pass one classifies `l[a]` as modified against `r[b]`: no exact match,
/// a nonempty digest found nowhere on the right, but the same relative path
/// at `b`.
pub open spec fn modified_selects(
    l: Seq<Entry>,
    r: Seq<Entry>,
    a: int,
    b: int,
    empty: Seq<u8>,
) -> bool {
    &&& 0 <= a < l.len()
    &&& 0 <= b < r.len()
    &&& !has_key_match(l[a], r)
    &&& l[a].hash@ != empty
    &&& !has_hash_match(l[a], r)
    &&& r[b].path@ == l[a].path@
}

/// What pass one guarantees once the left entries below `upto` have been
/// processed; with `upto == l0.len()` this is the full postcondition.
/// `l0`/`r0` are the sides as handed in, `l1`/`r1` as they stand now.
pub open spec fn pass1_partial(
    l0: Seq<Entry>,
    r0: Seq<Entry>,
    l1: Seq<Entry>,
    r1: Seq<Entry>,
    empty: Seq<u8>,
    upto: int,
) -> bool {
    &&& keys_equal(l0, l1)
    &&& keys_equal(r0, r1)
    // exact matches link both sides
    &&& forall|a: int, b: int|
        0 <= a < upto && 0 <= b < r0.len() && #[trigger] entry_key_eq(l0[a], r0[b])
            ==> l1[a].status == Status::Same(b as usize) && r1[b].status == Status::Same(a as usize)
    // unmatched empty digests
    &&& forall|a: int|
        0 <= a < upto && !has_key_match(#[trigger] l0[a], r0) && l0[a].hash@ == empty
            ==> l1[a].status is Empty
    // digest present on the right: all candidates, ascending
    &&& forall|a: int|
        0 <= a < upto && !has_key_match(#[trigger] l0[a], r0) && l0[a].hash@ != empty
            && has_hash_match(l0[a], r0) ==> l1[a].status is Maybe
            && is_match_list(l1[a].status->Maybe_0@, l0[a].hash@, r0)
    // same path, digest gone: modified, linking both sides
    &&& forall|a: int, b: int|
        #[trigger] modified_selects(l0, r0, a, b, empty) && a < upto
            ==> l1[a].status == Status::Modified(b as usize)
            && r1[b].status == Status::Modified(a as usize)
    // nothing at all
    &&& forall|a: int|
        0 <= a < upto && !has_key_match(#[trigger] l0[a], r0) && l0[a].hash@ != empty
            && !has_hash_match(l0[a], r0) && !has_path_match(l0[a], r0)
            ==> l1[a].status is Unique
    // unprocessed left entries are untouched
    &&& forall|a: int| upto <= a < l0.len() ==> (#[trigger] l1[a]).status == l0[a].status
    // right entries no processed left entry wrote are untouched
    &&& forall|b: int|
        0 <= b < r0.len()
            && !(exists|a: int| 0 <= a < upto && entry_key_eq(#[trigger] l0[a], r0[b]))
            && !(exists|a: int| 0 <= a < upto && modified_selects(l0, r0, a, b, empty))
            ==> (#[trigger] r1[b]).status == r0[b].status
}

/// Pass one of the matcher. Every left entry is classified against the
/// right index: an exact `(digest, path)` match links both sides as `Same`;
/// an unmatched empty digest becomes `Empty`; a digest found elsewhere on
/// the right becomes `Maybe` with all candidate indices; a path match with
/// the digest gone links both sides as `Modified`; everything else is
/// `Unique`. Right entries are written only through `Same` and `Modified`
/// links.
pub fn first_pass(
    left: &mut Vec<Entry>,
    right: &mut Vec<Entry>,
    empty_hash: &crate::entry::Hash,
)
    requires
        entries_sorted(old(left)@),
        entries_sorted(old(right)@),
        paths_unique(old(left)@),
        paths_unique(old(right)@),
    ensures
        pass1_partial(
            old(left)@,
            old(right)@,
            final(left)@,
            final(right)@,
            empty_hash@,
            old(left)@.len() as int,
        ),
{
    let ghost l0 = left@;
    let ghost r0 = right@;
    let mut a: usize = 0;
    while a < left.len()
        invariant
            a <= l0.len(),
            entries_sorted(l0),
            entries_sorted(r0),
            paths_unique(l0),
            paths_unique(r0),
            left@.len() == l0.len(),
            right@.len() == r0.len(),
            pass1_partial(l0, r0, left@, right@, empty_hash@, a as int),
        decreases l0.len() - a,
    {
        proof {
            crate::entry::lemma_sorted_keys_equal(r0, right@);
            crate::entry::lemma_sorted_keys_equal(l0, left@);
        }
        let h = left[a].hash;
        let ghost lpre = left@;
        let ghost rpre = right@;
        let i = lower_bound(right, right.len(), &h, left[a].path.as_slice());
        proof {
            assert(entry_key_eq(l0[a as int], left@[a as int]));
        }
        let exact = i < right.len() && right[i].key_eq(&left[a]);
        proof {
            // restate the search outcome over the sequences as handed in
            if exact {
                assert(entry_key_eq(r0[i as int], right@[i as int]));
                assert(entry_key_eq(l0[a as int], r0[i as int]));
            }
            assert forall|b: int|
                0 <= b < r0.len() && entry_key_eq(l0[a as int], r0[b]) implies (exact && b
                == i as int) by {
                assert(entry_key_eq(r0[b], right@[b]));
                lemma_lex_lt_irreflexive(r0[b].hash@);
                lemma_lex_lt_irreflexive(r0[b].path@);
                assert(!key_lt_hp(right@[b], h@, left@[a as int].path@));
                if b > i as int {
                    assert(entry_lt(right@[i as int], right@[b]));
                    assert(false);
                }
                assert(b == i as int);
                assert(entry_key_eq(right@[b], left@[a as int]));
            }
        }
        if exact {
            set_status(left, a, Status::Same(i));
            set_status(right, i, Status::Same(a));
            proof {
                assert forall|x: int|
                    0 <= x < a && entry_key_eq(l0[x], r0[i as int]) implies false by {
                    crate::entry::lemma_sorted_unique_keys(l0, x, a as int);
                    assert(entry_key_eq(l0[a as int], r0[i as int]));
                }
                assert forall|x: int|
                    0 <= x < a && modified_selects(l0, r0, x, i as int, empty_hash@) implies false by {
                    assert(r0[i as int].path@ == l0[x].path@);
                    assert(r0[i as int].path@ == l0[a as int].path@);
                }
                assert(pass1_partial(l0, r0, left@, right@, empty_hash@, a + 1));
            }
        } else if h.eq_hash(empty_hash) {
            set_status(left, a, Status::Empty);
            proof {
                assert(!has_key_match(l0[a as int], r0));
                assert(pass1_partial(l0, r0, left@, right@, empty_hash@, a + 1));
            }
        } else {
            proof {
                assert(!has_key_match(l0[a as int], r0));
            }
            let idxs = matching_hashes(&h, i, right);
            proof {
                assert(is_match_list(idxs@, l0[a as int].hash@, right@));
                assert forall|j: int|
                    0 <= j < r0.len() && (#[trigger] r0[j]).hash@ == l0[a as int].hash@ implies (
                exists|t: int| 0 <= t < idxs@.len() && idxs@[t] == j) by {
                    assert(entry_key_eq(r0[j], right@[j]));
                    assert(right@[j].hash@ == r0[j].hash@);
                }
                assert forall|t: int| 0 <= t < idxs@.len() implies (#[trigger] idxs@[t]) < r0.len()
                    && r0[idxs@[t] as int].hash@ == l0[a as int].hash@ by {
                    assert(entry_key_eq(r0[idxs@[t] as int], right@[idxs@[t] as int]));
                    assert(right@[idxs@[t] as int].hash@ == r0[idxs@[t] as int].hash@);
                }
                assert(is_match_list(idxs@, l0[a as int].hash@, r0));
            }
            if idxs.len() == 0 {
                proof {
                    assert(!has_hash_match(l0[a as int], r0));
                }
                match find_path(right, left[a].path.as_slice()) {
                    Some(k) => {
                        proof {
                            assert(right@[k as int].path@ == l0[a as int].path@);
                            assert(entry_key_eq(r0[k as int], right@[k as int]));
                            assert(r0[k as int].path@ == l0[a as int].path@);
                            assert(modified_selects(l0, r0, a as int, k as int, empty_hash@));
                        }
                        set_status(left, a, Status::Modified(k));
                        set_status(right, k, Status::Modified(a));
                        proof {
                            assert forall|x: int|
                                0 <= x < a && entry_key_eq(l0[x], r0[k as int]) implies false by {
                                assert(l0[x].path@ == r0[k as int].path@);
                                assert(l0[a as int].path@ == r0[k as int].path@);
                            }
                            assert forall|x: int|
                                0 <= x < a && modified_selects(l0, r0, x, k as int, empty_hash@)
                                implies false by {
                                assert(l0[x].path@ == r0[k as int].path@);
                            }
                            assert forall|b: int|
                                modified_selects(l0, r0, a as int, b, empty_hash@) implies b
                                == k as int by {
                                assert(r0[b].path@ == r0[k as int].path@);
                            }
                            assert(pass1_partial(l0, r0, left@, right@, empty_hash@, a + 1));
                        }
                    },
                    None => {
                        proof {
                            assert forall|k: int|
                                0 <= k < r0.len() implies (#[trigger] r0[k]).path@ != l0[
                                a as int].path@ by {
                                assert(entry_key_eq(r0[k], right@[k]));
                                assert(right@[k].path@ == r0[k].path@);
                            }
                            assert(!has_path_match(l0[a as int], r0));
                            assert forall|b: int|
                                !modified_selects(l0, r0, a as int, b, empty_hash@) by {}
                        }
                        set_status(left, a, Status::Unique);
                        proof {
                            assert(pass1_partial(l0, r0, left@, right@, empty_hash@, a + 1));
                        }
                    },
                }
            } else {
                proof {
                    assert(r0[idxs@[0] as int].hash@ == l0[a as int].hash@);
                    assert(has_hash_match(l0[a as int], r0));
                    assert forall|b: int|
                        !modified_selects(l0, r0, a as int, b, empty_hash@) by {}
                }
                set_status(left, a, Status::Maybe(idxs));
                proof {
                    assert(left@[a as int].status->Maybe_0@ == idxs@);
                    assert(pass1_partial(l0, r0, left@, right@, empty_hash@, a + 1));
                }
            }
        }
        a = a + 1;
    }
}

/// `s[a]` is the only entry of `s` carrying the digest of `e`.
pub open spec fn unique_hash_match(e: Entry, s: Seq<Entry>, a: int) -> bool {
    &&& 0 <= a < s.len()
    &&& s[a].hash@ == e.hash@
    &&& forall|a2: int| 0 <= a2 < s.len() && (#[trigger] s[a2]).hash@ == e.hash@ ==> a2 == a
}

/// Every left `Maybe` list is the exact ascending list of right indices
/// sharing that entry's digest — what pass one leaves behind, and what pass
/// two's upgrade step relies on.
pub open spec fn maybe_lists_consistent(l: Seq<Entry>, r: Seq<Entry>) -> bool {
    forall|a: int|
        0 <= a < l.len() && (#[trigger] l[a]).status is Maybe ==> is_match_list(
            l[a].status->Maybe_0@,
            l[a].hash@,
            r,
        )
}

/// Pass two upgrades `l[a]` while processing `r[b]`: the right entry is
/// still `Unique` with a nonempty digest and no exact match, `l[a]` is its
/// only digest match, and `l[a]` holds a single-candidate `Maybe`.
pub open spec fn pass2_upgrades(
    l: Seq<Entry>,
    r: Seq<Entry>,
    a: int,
    b: int,
    empty: Seq<u8>,
) -> bool {
    &&& 0 <= a < l.len()
    &&& 0 <= b < r.len()
    &&& r[b].status is Unique
    &&& !has_key_match(r[b], l)
    &&& r[b].hash@ != empty
    &&& unique_hash_match(r[b], l, a)
    &&& l[a].status is Maybe
    &&& l[a].status->Maybe_0@.len() == 1
}

/// With consistent `Maybe` lists, each left entry is upgraded by at most
/// one right entry.
proof fn lemma_upgrade_unique(
    l: Seq<Entry>,
    r: Seq<Entry>,
    a: int,
    b1: int,
    b2: int,
    empty: Seq<u8>,
)
    requires
        maybe_lists_consistent(l, r),
        pass2_upgrades(l, r, a, b1, empty),
        pass2_upgrades(l, r, a, b2, empty),
    ensures
        b1 == b2,
{
    let list = l[a].status->Maybe_0@;
    assert(is_match_list(list, l[a].hash@, r));
    assert(r[b1].hash@ == l[a].hash@);
    assert(r[b2].hash@ == l[a].hash@);
    let t1 = choose|t: int| 0 <= t < list.len() && list[t] == b1;
    let t2 = choose|t: int| 0 <= t < list.len() && list[t] == b2;
    assert(t1 == 0 && t2 == 0);
}

/// What pass two guarantees once the right entries below `upto` have been
/// processed; with `upto == r1.len()` this is the full postcondition.
/// `l1`/`r1` are the sides as pass one left them, `l2`/`r2` as they stand
/// now.
pub open spec fn pass2_partial(
    l1: Seq<Entry>,
    r1: Seq<Entry>,
    l2: Seq<Entry>,
    r2: Seq<Entry>,
    empty: Seq<u8>,
    upto: int,
) -> bool {
    &&& keys_equal(l1, l2)
    &&& keys_equal(r1, r2)
    // unprocessed right entries are untouched
    &&& forall|b: int| upto <= b < r1.len() ==> (#[trigger] r2[b]).status == r1[b].status
    // only entries still `Unique` are re-examined
    &&& forall|b: int|
        0 <= b < upto && !((#[trigger] r1[b]).status is Unique) ==> r2[b].status == r1[b].status
    // an exact match at this stage is anomalous but still linked as `Same`
    &&& forall|b: int, a: int|
        0 <= b < upto && 0 <= a < l1.len() && (#[trigger] r1[b]).status is Unique
            && entry_key_eq(r1[b], #[trigger] l1[a]) ==> r2[b].status == Status::Same(a as usize)
    // unmatched empty digests
    &&& forall|b: int|
        0 <= b < upto && (#[trigger] r1[b]).status is Unique && !has_key_match(r1[b], l1)
            && r1[b].hash@ == empty ==> r2[b].status is Empty
    // digest found nowhere on the left: stays `Unique`
    &&& forall|b: int|
        0 <= b < upto && (#[trigger] r1[b]).status is Unique && !has_key_match(r1[b], l1)
            && r1[b].hash@ != empty && !has_hash_match(r1[b], l1) ==> r2[b].status is Unique
    // exactly one left digest match: a `Moved` link
    &&& forall|b: int, a: int|
        0 <= b < upto && r1[b].status is Unique && !has_key_match(r1[b], l1)
            && r1[b].hash@ != empty && #[trigger] unique_hash_match(r1[b], l1, a)
            ==> r2[b].status == Status::Moved(a as usize)
    // several left digest matches: `Maybe` with all candidates
    &&& forall|b: int|
        0 <= b < upto && (#[trigger] r1[b]).status is Unique && !has_key_match(r1[b], l1)
            && r1[b].hash@ != empty && has_hash_match(r1[b], l1)
            && !(exists|a: int| unique_hash_match(r1[b], l1, a)) ==> r2[b].status is Maybe
            && is_match_list(r2[b].status->Maybe_0@, r1[b].hash@, l1)
    // left side: single-candidate `Maybe` entries upgraded by a processed
    // right entry become `Moved`; everything else is untouched
    &&& forall|a: int, b: int|
        #[trigger] pass2_upgrades(l1, r1, a, b, empty) && b < upto ==> l2[a].status
            == Status::Moved(b as usize)
    &&& forall|a: int|
        0 <= a < l1.len()
            && !(exists|b: int| 0 <= b < upto && #[trigger] pass2_upgrades(l1, r1, a, b, empty))
            ==> (#[trigger] l2[a]).status == l1[a].status
}

/// A digest held by exactly one entry on each side, with no exact match and
/// no modified link claiming the right entry: the matcher links such a pair
/// as `Moved` in both directions.
pub open spec fn moved_pair(l: Seq<Entry>, r: Seq<Entry>, a: int, b: int, empty: Seq<u8>) -> bool {
    &&& 0 <= a < l.len()
    &&& 0 <= b < r.len()
    &&& l[a].hash@ == r[b].hash@
    &&& l[a].hash@ != empty
    &&& unique_hash_match(l[a], r, b)
    &&& unique_hash_match(r[b], l, a)
    &&& !has_key_match(l[a], r)
    &&& !(exists|a2: int| modified_selects(l, r, a2, b, empty))
}

/// What holds of the matched sides `l2`/`r2` once both passes have run over
/// inputs `l0`/`r0` whose statuses all started `Unique`: how each class of
/// input is classified, and what every final status implies about the
/// opposite side.
pub open spec fn compare_post(
    l0: Seq<Entry>,
    r0: Seq<Entry>,
    l2: Seq<Entry>,
    r2: Seq<Entry>,
    empty: Seq<u8>,
) -> bool {
    // exact matches become mutual `Same` links
    &&& forall|a: int, b: int|
        0 <= a < l0.len() && 0 <= b < r0.len() && #[trigger] entry_key_eq(l0[a], r0[b])
            ==> l2[a].status == Status::Same(b as usize) && r2[b].status == Status::Same(a as usize)
    // unmatched empty digests become `Empty`
    &&& forall|a: int|
        0 <= a < l0.len() && !has_key_match(#[trigger] l0[a], r0) && l0[a].hash@ == empty
            ==> l2[a].status is Empty
    // a path match with the digest gone becomes a mutual `Modified` link
    &&& forall|a: int, b: int|
        #[trigger] modified_selects(l0, r0, a, b, empty) ==> l2[a].status == Status::Modified(
            b as usize,
        ) && r2[b].status == Status::Modified(a as usize)
    // nothing at all stays `Unique`
    &&& forall|a: int|
        0 <= a < l0.len() && !has_key_match(#[trigger] l0[a], r0) && l0[a].hash@ != empty
            && !has_hash_match(l0[a], r0) && !has_path_match(l0[a], r0) ==> l2[a].status is Unique
    // a digest present elsewhere on the right is ambiguous, unless the
    // second pass resolved it to a move
    &&& forall|a: int|
        0 <= a < l0.len() && !has_key_match(#[trigger] l0[a], r0) && l0[a].hash@ != empty
            && has_hash_match(l0[a], r0) ==> (l2[a].status is Maybe && is_match_list(
            l2[a].status->Maybe_0@,
            l0[a].hash@,
            r0,
        )) || l2[a].status is Moved
    // a digest unique on both sides becomes a mutual `Moved` link
    &&& forall|a: int, b: int|
        #[trigger] moved_pair(l0, r0, a, b, empty) ==> l2[a].status == Status::Moved(b as usize)
            && r2[b].status == Status::Moved(a as usize)
    // what each final status on the first side implies
    &&& forall|a: int|
        0 <= a < l0.len() && (#[trigger] l2[a]).status is Same ==> {
            let b = l2[a].status->Same_0 as int;
            &&& 0 <= b < r0.len()
            &&& r2[b].status == Status::Same(a as usize)
            &&& entry_key_eq(l0[a], r0[b])
        }
    &&& forall|a: int|
        0 <= a < l0.len() && (#[trigger] l2[a]).status is Modified ==> {
            let b = l2[a].status->Modified_0 as int;
            &&& 0 <= b < r0.len()
            &&& r2[b].status == Status::Modified(a as usize)
            &&& l0[a].path@ == r0[b].path@
            &&& l0[a].hash@ != r0[b].hash@
        }
    &&& forall|a: int|
        0 <= a < l0.len() && (#[trigger] l2[a]).status is Moved ==> {
            let b = l2[a].status->Moved_0 as int;
            &&& 0 <= b < r0.len()
            &&& r2[b].status == Status::Moved(a as usize)
            &&& l0[a].hash@ == r0[b].hash@
            &&& l0[a].path@ != r0[b].path@
        }
    &&& forall|a: int|
        0 <= a < l0.len() && (#[trigger] l2[a]).status is Maybe ==> {
            let list = l2[a].status->Maybe_0@;
            &&& list.len() >= 1
            &&& (forall|t: int|
                0 <= t < list.len() ==> (#[trigger] list[t]) < r0.len()
                    && r0[list[t] as int].hash@ == l0[a].hash@)
            &&& (forall|t1: int, t2: int|
                0 <= t1 < t2 < list.len() ==> #[trigger] list[t1] < #[trigger] list[t2])
        }
    &&& forall|a: int|
        0 <= a < l0.len() && (#[trigger] l2[a]).status is Empty ==> l0[a].hash@ == empty
    // what each final status on the second side implies
    &&& forall|b: int|
        0 <= b < r0.len() && (#[trigger] r2[b]).status is Same ==> {
            let a = r2[b].status->Same_0 as int;
            &&& 0 <= a < l0.len()
            &&& l2[a].status == Status::Same(b as usize)
            &&& entry_key_eq(l0[a], r0[b])
        }
    &&& forall|b: int|
        0 <= b < r0.len() && (#[trigger] r2[b]).status is Modified ==> {
            let a = r2[b].status->Modified_0 as int;
            &&& 0 <= a < l0.len()
            &&& l2[a].status == Status::Modified(b as usize)
            &&& l0[a].path@ == r0[b].path@
            &&& l0[a].hash@ != r0[b].hash@
        }
    &&& forall|b: int|
        0 <= b < r0.len() && (#[trigger] r2[b]).status is Moved ==> {
            let a = r2[b].status->Moved_0 as int;
            &&& 0 <= a < l0.len()
            &&& l0[a].hash@ == r0[b].hash@
            &&& l0[a].path@ != r0[b].path@
        }
    &&& forall|b: int|
        0 <= b < r0.len() && (#[trigger] r2[b]).status is Maybe ==> {
            let list = r2[b].status->Maybe_0@;
            &&& list.len() >= 2
            &&& (forall|t: int|
                0 <= t < list.len() ==> (#[trigger] list[t]) < l0.len()
                    && l0[list[t] as int].hash@ == r0[b].hash@)
            &&& (forall|t1: int, t2: int|
                0 <= t1 < t2 < list.len() ==> #[trigger] list[t1] < #[trigger] list[t2])
        }
    &&& forall|b: int|
        0 <= b < r0.len() && (#[trigger] r2[b]).status is Empty ==> r0[b].hash@ == empty
}

/// Pass two of the matcher. Right entries still `Unique` after pass one are
/// re-examined against the left index; a digest with exactly one left
/// holder yields a `Moved` link, and when that left holder is a
/// single-candidate `Maybe` it is upgraded to the symmetric `Moved`.
pub fn second_pass(
    left: &mut Vec<Entry>,
    right: &mut Vec<Entry>,
    empty_hash: &crate::entry::Hash,
)
    requires
        entries_sorted(old(left)@),
        entries_sorted(old(right)@),
        maybe_lists_consistent(old(left)@, old(right)@),
    ensures
        pass2_partial(
            old(left)@,
            old(right)@,
            final(left)@,
            final(right)@,
            empty_hash@,
            old(right)@.len() as int,
        ),
{
    let ghost l1 = left@;
    let ghost r1 = right@;
    let mut b: usize = 0;
    while b < right.len()
        invariant
            b <= r1.len(),
            entries_sorted(l1),
            entries_sorted(r1),
            maybe_lists_consistent(l1, r1),
            left@.len() == l1.len(),
            right@.len() == r1.len(),
            pass2_partial(l1, r1, left@, right@, empty_hash@, b as int),
        decreases r1.len() - b,
    {
        proof {
            crate::entry::lemma_sorted_keys_equal(l1, left@);
            crate::entry::lemma_sorted_keys_equal(r1, right@);
            assert(right@[b as int].status == r1[b as int].status);
        }
        let ghost lpre = left@;
        let ghost rpre = right@;
        let is_unique = match &right[b].status {
            Status::Unique => true,
            _ => false,
        };
        if is_unique {
            let h = right[b].hash;
            proof {
                assert(entry_key_eq(r1[b as int], right@[b as int]));
            }
            let i = lower_bound(left, left.len(), &h, right[b].path.as_slice());
            let exact = i < left.len() && left[i].key_eq(&right[b]);
            proof {
                if exact {
                    assert(entry_key_eq(l1[i as int], left@[i as int]));
                    assert(entry_key_eq(r1[b as int], l1[i as int]));
                }
                assert forall|x: int|
                    0 <= x < l1.len() && entry_key_eq(r1[b as int], l1[x]) implies (exact && x
                    == i as int) by {
                    assert(entry_key_eq(l1[x], left@[x]));
                    lemma_lex_lt_irreflexive(l1[x].hash@);
                    lemma_lex_lt_irreflexive(l1[x].path@);
                    assert(!key_lt_hp(left@[x], h@, right@[b as int].path@));
                    if x > i as int {
                        assert(entry_lt(left@[i as int], left@[x]));
                        assert(false);
                    }
                    assert(x == i as int);
                    assert(entry_key_eq(left@[x], right@[b as int]));
                }
            }
            if exact {
                set_status(right, b, Status::Same(i));
                proof {
                    assert(pass2_partial(l1, r1, left@, right@, empty_hash@, b + 1));
                }
            } else if h.eq_hash(empty_hash) {
                proof {
                    assert(!has_key_match(r1[b as int], l1));
                }
                set_status(right, b, Status::Empty);
                proof {
                    assert(pass2_partial(l1, r1, left@, right@, empty_hash@, b + 1));
                }
            } else {
                proof {
                    assert(!has_key_match(r1[b as int], l1));
                }
                let idxs = matching_hashes(&h, i, left);
                proof {
                    assert forall|j: int|
                        0 <= j < l1.len() && (#[trigger] l1[j]).hash@ == r1[b as int].hash@
                        implies (exists|t: int| 0 <= t < idxs@.len() && idxs@[t] == j) by {
                        assert(entry_key_eq(l1[j], left@[j]));
                        assert(left@[j].hash@ == l1[j].hash@);
                    }
                    assert forall|t: int|
                        0 <= t < idxs@.len() implies (#[trigger] idxs@[t]) < l1.len()
                        && l1[idxs@[t] as int].hash@ == r1[b as int].hash@ by {
                        assert(entry_key_eq(l1[idxs@[t] as int], left@[idxs@[t] as int]));
                    }
                    assert(is_match_list(idxs@, r1[b as int].hash@, l1));
                }
                if idxs.len() == 0 {
                    proof {
                        assert(!has_hash_match(r1[b as int], l1));
                    }
                    set_status(right, b, Status::Unique);
                    proof {
                        assert(pass2_partial(l1, r1, left@, right@, empty_hash@, b + 1));
                    }
                } else if idxs.len() == 1 {
                    let a_idx = idxs[0];
                    proof {
                        assert(unique_hash_match(r1[b as int], l1, a_idx as int));
                        assert(has_hash_match(r1[b as int], l1));
                        assert forall|a2: int|
                            unique_hash_match(r1[b as int], l1, a2) implies a2 == a_idx as int by {
                            assert(l1[a_idx as int].hash@ == r1[b as int].hash@);
                        }
                    }
                    let mut single: Option<usize> = None;
                    match &left[a_idx].status {
                        Status::Maybe(m) => {
                            if m.len() == 1 {
                                single = Some(m[0]);
                            }
                        },
                        _ => {},
                    }
                    if let Some(x) = single {
                        proof {
                            // the observed `Maybe` shows this entry has not
                            // been upgraded yet, so it still carries its
                            // pass-one status
                            if left@[a_idx as int].status != l1[a_idx as int].status {
                                let bx = choose|bx: int|
                                    0 <= bx < b && pass2_upgrades(l1, r1, a_idx as int, bx, empty_hash@);
                                assert(left@[a_idx as int].status == Status::Moved(bx as usize));
                                assert(false);
                            }
                            assert(pass2_upgrades(l1, r1, a_idx as int, b as int, empty_hash@));
                            let list = l1[a_idx as int].status->Maybe_0@;
                            assert(is_match_list(list, l1[a_idx as int].hash@, r1));
                            assert(r1[b as int].hash@ == l1[a_idx as int].hash@);
                            let t = choose|t: int| 0 <= t < list.len() && list[t] == b as int;
                            assert(t == 0);
                            assert(x == b);
                        }
                        set_status(left, a_idx, Status::Moved(x));
                        set_status(right, b, Status::Moved(a_idx));
                        proof {
                            assert forall|ii: int| 0 <= ii < l1.len() implies #[trigger] entry_key_eq(
                                l1[ii],
                                left@[ii],
                            ) by {
                                assert(entry_key_eq(l1[ii], lpre[ii]));
                            }
                            assert forall|bx: int|
                                pass2_upgrades(l1, r1, a_idx as int, bx, empty_hash@) implies bx
                                == b as int by {
                                lemma_upgrade_unique(l1, r1, a_idx as int, bx, b as int, empty_hash@);
                            }
                            assert(pass2_partial(l1, r1, left@, right@, empty_hash@, b + 1));
                        }
                    } else {
                        proof {
                            // no single-candidate `Maybe` on the left: the
                            // upgrade condition cannot hold for this pair
                            if pass2_upgrades(l1, r1, a_idx as int, b as int, empty_hash@) {
                                if left@[a_idx as int].status == l1[a_idx as int].status {
                                    assert(false);
                                } else {
                                    let bx = choose|bx: int|
                                        0 <= bx < b && pass2_upgrades(l1, r1, a_idx as int, bx, empty_hash@);
                                    lemma_upgrade_unique(l1, r1, a_idx as int, bx, b as int, empty_hash@);
                                    assert(false);
                                }
                            }
                            assert forall|a2: int|
                                !pass2_upgrades(l1, r1, a2, b as int, empty_hash@) by {
                                if pass2_upgrades(l1, r1, a2, b as int, empty_hash@) {
                                    assert(a2 == a_idx as int);
                                }
                            }
                        }
                        set_status(right, b, Status::Moved(a_idx));
                        proof {
                            assert(pass2_partial(l1, r1, left@, right@, empty_hash@, b + 1));
                        }
                    }
                } else {
                    proof {
                        assert(l1[idxs@[0] as int].hash@ == r1[b as int].hash@);
                        assert(has_hash_match(r1[b as int], l1));
                        assert forall|a2: int|
                            !unique_hash_match(r1[b as int], l1, a2) by {
                            if unique_hash_match(r1[b as int], l1, a2) {
                                assert(l1[idxs@[0] as int].hash@ == r1[b as int].hash@);
                                assert(l1[idxs@[1] as int].hash@ == r1[b as int].hash@);
                                assert(idxs@[0] as int == a2 && idxs@[1] as int == a2);
                                assert(idxs@[0] < idxs@[1]);
                            }
                        }
                    }
                    set_status(right, b, Status::Maybe(idxs));
                    proof {
                        assert(right@[b as int].status->Maybe_0@ == idxs@);
                        assert(pass2_partial(l1, r1, left@, right@, empty_hash@, b + 1));
                    }
                }
            }
        } else {
            proof {
                assert(pass2_partial(l1, r1, left@, right@, empty_hash@, b + 1));
            }
        }
        b = b + 1;
    }
}

/// Keys-equal sequences agree pointwise on digests and paths.
pub(crate) proof fn lemma_keys_pointwise(s0: Seq<Entry>, s1: Seq<Entry>)
    requires
        keys_equal(s0, s1),
    ensures
        s0.len() == s1.len(),
        forall|i: int|
            0 <= i < s0.len() ==> (#[trigger] s1[i]).hash@ == s0[i].hash@ && s1[i].path@
                == s0[i].path@,
{
    assert forall|i: int|
        0 <= i < s0.len() implies (#[trigger] s1[i]).hash@ == s0[i].hash@ && s1[i].path@
        == s0[i].path@ by {
        assert(entry_key_eq(s0[i], s1[i]));
    }
}

/// A match list for a digest with a single holder is that holder alone.
proof fn lemma_match_singleton(list: Seq<usize>, h: Seq<u8>, s: Seq<Entry>, x: int)
    requires
        is_match_list(list, h, s),
        0 <= x < s.len(),
        s[x].hash@ == h,
        forall|j: int| 0 <= j < s.len() && (#[trigger] s[j]).hash@ == h ==> j == x,
    ensures
        list.len() == 1,
        list[0] == x,
{
    let t = choose|t: int| 0 <= t < list.len() && list[t] == x;
    assert(0 <= t < list.len());
    if list.len() > 1 {
        assert(list[0] < list[1]);
        assert(s[list[0] as int].hash@ == h);
        assert(s[list[1] as int].hash@ == h);
        assert(list[0] == x && list[1] == x);
        assert(false);
    }
}

/// A match list for a digest with no single holder, but at least one, has
/// at least two elements.
proof fn lemma_match_at_least_two(list: Seq<usize>, h: Seq<u8>, s: Seq<Entry>, e: Entry)
    requires
        is_match_list(list, h, s),
        e.hash@ == h,
        has_hash_match(e, s),
        !(exists|a: int| unique_hash_match(e, s, a)),
    ensures
        list.len() >= 2,
{
    let j1 = choose|j: int| 0 <= j < s.len() && (#[trigger] s[j]).hash@ == e.hash@;
    assert(!unique_hash_match(e, s, j1));
    let j2 = choose|j: int| 0 <= j < s.len() && (#[trigger] s[j]).hash@ == e.hash@ && j != j1;
    let t1 = choose|t: int| 0 <= t < list.len() && list[t] == j1;
    let t2 = choose|t: int| 0 <= t < list.len() && list[t] == j2;
    assert(t1 != t2);
    if list.len() < 2 {
        assert(t1 == 0 && t2 == 0);
        assert(false);
    }
}

/// A match list carries over to any sequence with the same keys.
pub(crate) proof fn lemma_match_list_transfer(list: Seq<usize>, h: Seq<u8>, s0: Seq<Entry>, s1: Seq<Entry>)
    requires
        keys_equal(s0, s1),
        is_match_list(list, h, s0),
    ensures
        is_match_list(list, h, s1),
{
    lemma_keys_pointwise(s0, s1);
    assert forall|j: int|
        0 <= j < s1.len() && (#[trigger] s1[j]).hash@ == h implies (exists|t: int|
        0 <= t < list.len() && list[t] == j) by {
        assert(s0[j].hash@ == h);
    }
    assert forall|t: int|
        0 <= t < list.len() implies (#[trigger] list[t]) < s1.len() && s1[list[t] as int].hash@
        == h by {
        assert(s0[list[t] as int].hash@ == h);
    }
}

/// Which of pass one's five cases hit the left entry `a`, and what it left
/// there.
pub(crate) proof fn lemma_pass1_left_cases(
    l0: Seq<Entry>,
    r0: Seq<Entry>,
    l1: Seq<Entry>,
    r1: Seq<Entry>,
    empty: Seq<u8>,
    a: int,
)
    requires
        pass1_partial(l0, r0, l1, r1, empty, l0.len() as int),
        0 <= a < l0.len(),
    ensures
        ({
        ||| exists|b: int|
            0 <= b < r0.len() && #[trigger] entry_key_eq(l0[a], r0[b]) && l1[a].status
                == Status::Same(b as usize)
        ||| (!has_key_match(l0[a], r0) && l0[a].hash@ == empty && l1[a].status is Empty)
        ||| (!has_key_match(l0[a], r0) && l0[a].hash@ != empty && has_hash_match(l0[a], r0)
            && l1[a].status is Maybe && is_match_list(l1[a].status->Maybe_0@, l0[a].hash@, r0))
        ||| exists|b: int|
            #[trigger] modified_selects(l0, r0, a, b, empty) && l1[a].status == Status::Modified(
                b as usize,
            )
        ||| (!has_key_match(l0[a], r0) && l0[a].hash@ != empty && !has_hash_match(l0[a], r0)
            && !has_path_match(l0[a], r0) && l1[a].status is Unique)
        }),
{
    if has_key_match(l0[a], r0) {
        let b = choose|b: int| 0 <= b < r0.len() && entry_key_eq(l0[a], #[trigger] r0[b]);
        assert(entry_key_eq(l0[a], r0[b]));
        assert(l1[a].status == Status::Same(b as usize));
    } else if l0[a].hash@ == empty {
    } else if has_hash_match(l0[a], r0) {
    } else if has_path_match(l0[a], r0) {
        let b = choose|k: int| 0 <= k < r0.len() && (#[trigger] r0[k]).path@ == l0[a].path@;
        assert(modified_selects(l0, r0, a, b, empty));
        assert(l1[a].status == Status::Modified(b as usize));
    } else {
    }
}

/// What pass one left at the right entry `b`: a `Same` link, a `Modified`
/// link, or its input status.
proof fn lemma_pass1_right_cases(
    l0: Seq<Entry>,
    r0: Seq<Entry>,
    l1: Seq<Entry>,
    r1: Seq<Entry>,
    empty: Seq<u8>,
    b: int,
)
    requires
        pass1_partial(l0, r0, l1, r1, empty, l0.len() as int),
        0 <= b < r0.len(),
    ensures
        ({
        ||| exists|a: int|
            0 <= a < l0.len() && #[trigger] entry_key_eq(l0[a], r0[b]) && r1[b].status
                == Status::Same(a as usize) && l1[a].status == Status::Same(b as usize)
        ||| exists|a: int|
            #[trigger] modified_selects(l0, r0, a, b, empty) && r1[b].status == Status::Modified(
                a as usize,
            ) && l1[a].status == Status::Modified(b as usize)
        ||| r1[b].status == r0[b].status
        }),
{
    if exists|a: int| 0 <= a < l0.len() && entry_key_eq(#[trigger] l0[a], r0[b]) {
        let a = choose|a: int| 0 <= a < l0.len() && entry_key_eq(#[trigger] l0[a], r0[b]);
        assert(entry_key_eq(l0[a], r0[b]));
        assert(r1[b].status == Status::Same(a as usize));
    } else if exists|a: int| 0 <= a < l0.len() && #[trigger] modified_selects(l0, r0, a, b, empty) {
        let a = choose|a: int|
            0 <= a < l0.len() && #[trigger] modified_selects(l0, r0, a, b, empty);
        assert(r1[b].status == Status::Modified(a as usize));
    } else {
        assert forall|a: int| 0 <= a < l0.len() implies !modified_selects(l0, r0, a, b, empty) by {}
    }
}

/// Which of pass two's five cases hit a right entry still `Unique`, and
/// what it left there.
proof fn lemma_pass2_right_cases(
    l1: Seq<Entry>,
    r1: Seq<Entry>,
    l2: Seq<Entry>,
    r2: Seq<Entry>,
    empty: Seq<u8>,
    b: int,
)
    requires
        pass2_partial(l1, r1, l2, r2, empty, r1.len() as int),
        0 <= b < r1.len(),
        r1[b].status is Unique,
    ensures
        ({
        ||| exists|a: int|
            0 <= a < l1.len() && entry_key_eq(r1[b], #[trigger] l1[a]) && r2[b].status
                == Status::Same(a as usize)
        ||| (!has_key_match(r1[b], l1) && r1[b].hash@ == empty && r2[b].status is Empty)
        ||| (!has_key_match(r1[b], l1) && r1[b].hash@ != empty && !has_hash_match(r1[b], l1)
            && r2[b].status is Unique)
        ||| exists|a: int|
            !has_key_match(r1[b], l1) && r1[b].hash@ != empty && #[trigger] unique_hash_match(
                r1[b],
                l1,
                a,
            ) && r2[b].status == Status::Moved(a as usize)
        ||| (!has_key_match(r1[b], l1) && r1[b].hash@ != empty && has_hash_match(r1[b], l1)
            && !(exists|a: int| unique_hash_match(r1[b], l1, a)) && r2[b].status is Maybe
            && is_match_list(r2[b].status->Maybe_0@, r1[b].hash@, l1))
        }),
{
    if has_key_match(r1[b], l1) {
        let a = choose|a: int| 0 <= a < l1.len() && entry_key_eq(r1[b], #[trigger] l1[a]);
        assert(entry_key_eq(r1[b], l1[a]));
        assert(r2[b].status == Status::Same(a as usize));
    } else if r1[b].hash@ == empty {
    } else if !has_hash_match(r1[b], l1) {
    } else if exists|a: int| #[trigger] unique_hash_match(r1[b], l1, a) {
        let a = choose|a: int| #[trigger] unique_hash_match(r1[b], l1, a);
        assert(r2[b].status == Status::Moved(a as usize));
    } else {
    }
}

/// Comparing the two trees in either order yields mirrored `Same` links:
/// one run marks `a` as `Same(b)` in its first output exactly when the
/// swapped run marks `b` as `Same(a)` in its first output. (`Modified` and
/// `Moved` links carry no such mirror: which side drives each pass decides
/// between them when a digest vanishes but its path survives.)
pub proof fn lemma_compare_commutes_same(
    l0: Seq<Entry>,
    r0: Seq<Entry>,
    l2: Seq<Entry>,
    r2: Seq<Entry>,
    l2s: Seq<Entry>,
    r2s: Seq<Entry>,
    empty: Seq<u8>,
)
    requires
        l0.len() <= usize::MAX,
        r0.len() <= usize::MAX,
        compare_post(l0, r0, l2, r2, empty),
        compare_post(r0, l0, l2s, r2s, empty),
    ensures
        forall|a: int, b: int|
            0 <= a < l0.len() && 0 <= b < r0.len() ==> ((#[trigger] l2[a]).status == Status::Same(
                b as usize,
            ) <==> (#[trigger] l2s[b]).status == Status::Same(a as usize)),
{
    assert forall|a: int, b: int|
        0 <= a < l0.len() && 0 <= b < r0.len() implies ((#[trigger] l2[a]).status == Status::Same(
        b as usize,
    ) <==> (#[trigger] l2s[b]).status == Status::Same(a as usize)) by {
        if l2[a].status == Status::Same(b as usize) {
            assert(entry_key_eq(l0[a], r0[b]));
            assert(entry_key_eq(r0[b], l0[a]));
            assert(l2s[b].status == Status::Same(a as usize));
        }
        if l2s[b].status == Status::Same(a as usize) {
            assert(entry_key_eq(r0[b], l0[a]));
            assert(entry_key_eq(l0[a], r0[b]));
            assert(l2[a].status == Status::Same(b as usize));
        }
    }
}

/// Forward half of the composition: how the two passes classify each class
/// of input pair.
#[verifier::rlimit(60)]
proof fn lemma_compose_forward(
    l0: Seq<Entry>,
    r0: Seq<Entry>,
    l1: Seq<Entry>,
    r1: Seq<Entry>,
    l2: Seq<Entry>,
    r2: Seq<Entry>,
    empty: Seq<u8>,
)
    requires
        entries_sorted(l0),
        entries_sorted(r0),
        paths_unique(l0),
        paths_unique(r0),
        l0.len() <= usize::MAX,
        r0.len() <= usize::MAX,
        forall|a: int| 0 <= a < l0.len() ==> (#[trigger] l0[a]).status is Unique,
        forall|b: int| 0 <= b < r0.len() ==> (#[trigger] r0[b]).status is Unique,
        pass1_partial(l0, r0, l1, r1, empty, l0.len() as int),
        pass2_partial(l1, r1, l2, r2, empty, r1.len() as int),
    ensures
        forall|a: int, b: int|
            0 <= a < l0.len() && 0 <= b < r0.len() && #[trigger] entry_key_eq(l0[a], r0[b])
                ==> l2[a].status == Status::Same(b as usize) && r2[b].status == Status::Same(
                a as usize,
            ),
        forall|a: int|
            0 <= a < l0.len() && !has_key_match(#[trigger] l0[a], r0) && l0[a].hash@ == empty
                ==> l2[a].status is Empty,
        forall|a: int, b: int|
            #[trigger] modified_selects(l0, r0, a, b, empty) ==> l2[a].status == Status::Modified(
                b as usize,
            ) && r2[b].status == Status::Modified(a as usize),
        forall|a: int|
            0 <= a < l0.len() && !has_key_match(#[trigger] l0[a], r0) && l0[a].hash@ != empty
                && !has_hash_match(l0[a], r0) && !has_path_match(l0[a], r0)
                ==> l2[a].status is Unique,
        forall|a: int|
            0 <= a < l0.len() && !has_key_match(#[trigger] l0[a], r0) && l0[a].hash@ != empty
                && has_hash_match(l0[a], r0) ==> (l2[a].status is Maybe && is_match_list(
                l2[a].status->Maybe_0@,
                l0[a].hash@,
                r0,
            )) || l2[a].status is Moved,
        forall|a: int, b: int|
            #[trigger] moved_pair(l0, r0, a, b, empty) ==> l2[a].status == Status::Moved(
                b as usize,
            ) && r2[b].status == Status::Moved(a as usize),
{
    lemma_keys_pointwise(l0, l1);
    lemma_keys_pointwise(r0, r1);
    lemma_keys_pointwise(l1, l2);
    lemma_keys_pointwise(r1, r2);
    assert forall|a: int, b: int|
        0 <= a < l0.len() && 0 <= b < r0.len() && #[trigger] entry_key_eq(l0[a], r0[b]) implies l2[
        a].status == Status::Same(b as usize) && r2[b].status == Status::Same(a as usize) by {
        assert(l1[a].status == Status::Same(b as usize));
        assert(r1[b].status == Status::Same(a as usize));
        assert forall|bx: int| !pass2_upgrades(l1, r1, a, bx, empty) by {}
        assert(l2[a].status == l1[a].status);
        assert(r2[b].status == r1[b].status);
    }
    assert forall|a: int|
        0 <= a < l0.len() && !has_key_match(#[trigger] l0[a], r0) && l0[a].hash@ == empty implies
        l2[a].status is Empty by {
        assert(l1[a].status is Empty);
        assert forall|bx: int| !pass2_upgrades(l1, r1, a, bx, empty) by {}
        assert(l2[a].status == l1[a].status);
    }
    assert forall|a: int, b: int|
        #[trigger] modified_selects(l0, r0, a, b, empty) implies l2[a].status == Status::Modified(
        b as usize,
    ) && r2[b].status == Status::Modified(a as usize) by {
        assert(l1[a].status == Status::Modified(b as usize));
        assert(r1[b].status == Status::Modified(a as usize));
        assert forall|bx: int| !pass2_upgrades(l1, r1, a, bx, empty) by {}
        assert(l2[a].status == l1[a].status);
        assert(r2[b].status == r1[b].status);
    }
    assert forall|a: int|
        0 <= a < l0.len() && !has_key_match(#[trigger] l0[a], r0) && l0[a].hash@ != empty
            && !has_hash_match(l0[a], r0) && !has_path_match(l0[a], r0) implies l2[a].status
        is Unique by {
        assert forall|b: int| !modified_selects(l0, r0, a, b, empty) by {}
        assert(l1[a].status is Unique);
        assert forall|bx: int| !pass2_upgrades(l1, r1, a, bx, empty) by {}
        assert(l2[a].status == l1[a].status);
    }
    assert forall|a: int|
        0 <= a < l0.len() && !has_key_match(#[trigger] l0[a], r0) && l0[a].hash@ != empty
            && has_hash_match(l0[a], r0) implies (l2[a].status is Maybe && is_match_list(
        l2[a].status->Maybe_0@,
        l0[a].hash@,
        r0,
    )) || l2[a].status is Moved by {
        assert(l1[a].status is Maybe && is_match_list(l1[a].status->Maybe_0@, l0[a].hash@, r0));
        if exists|bx: int| 0 <= bx < r1.len() && #[trigger] pass2_upgrades(l1, r1, a, bx, empty) {
            let bx = choose|bx: int|
                0 <= bx < r1.len() && #[trigger] pass2_upgrades(l1, r1, a, bx, empty);
            assert(l2[a].status == Status::Moved(bx as usize));
        } else {
            assert(l2[a].status == l1[a].status);
        }
    }
    assert forall|a: int, b: int|
        #[trigger] moved_pair(l0, r0, a, b, empty) implies l2[a].status == Status::Moved(b as usize)
        && r2[b].status == Status::Moved(a as usize) by {
        // pass one left the left side a single-candidate `Maybe`
        assert(r0[b].hash@ == l0[a].hash@);
        assert(has_hash_match(l0[a], r0));
        assert(l1[a].status is Maybe && is_match_list(l1[a].status->Maybe_0@, l0[a].hash@, r0));
        lemma_match_singleton(l1[a].status->Maybe_0@, l0[a].hash@, r0, b);
        // pass one left the right side untouched
        assert forall|a2: int|
            0 <= a2 < l0.len() implies !entry_key_eq(#[trigger] l0[a2], r0[b]) by {
            if entry_key_eq(l0[a2], r0[b]) {
                assert(l0[a2].hash@ == r0[b].hash@);
                assert(a2 == a);
                assert(has_key_match(l0[a], r0));
            }
        }
        assert(r1[b].status == r0[b].status);
        assert(r1[b].status is Unique);
        // pass two links the pair
        assert forall|a2: int|
            0 <= a2 < l1.len() implies !entry_key_eq(r1[b], #[trigger] l1[a2]) by {
            if entry_key_eq(r1[b], l1[a2]) {
                assert(entry_key_eq(l0[a2], r0[b]));
            }
        }
        assert(!has_key_match(r1[b], l1));
        assert forall|a2: int|
            0 <= a2 < l1.len() && (#[trigger] l1[a2]).hash@ == r1[b].hash@ implies a2 == a by {
            assert(l0[a2].hash@ == r0[b].hash@);
        }
        assert(unique_hash_match(r1[b], l1, a));
        assert(r2[b].status == Status::Moved(a as usize));
        assert(pass2_upgrades(l1, r1, a, b, empty));
        assert(l2[a].status == Status::Moved(b as usize));
    }
}

/// Backward half of the composition, first side: what each final status on
/// the left implies.
#[verifier::rlimit(60)]
proof fn lemma_compose_backward_left(
    l0: Seq<Entry>,
    r0: Seq<Entry>,
    l1: Seq<Entry>,
    r1: Seq<Entry>,
    l2: Seq<Entry>,
    r2: Seq<Entry>,
    empty: Seq<u8>,
)
    requires
        entries_sorted(l0),
        entries_sorted(r0),
        paths_unique(l0),
        paths_unique(r0),
        l0.len() <= usize::MAX,
        r0.len() <= usize::MAX,
        forall|a: int| 0 <= a < l0.len() ==> (#[trigger] l0[a]).status is Unique,
        forall|b: int| 0 <= b < r0.len() ==> (#[trigger] r0[b]).status is Unique,
        pass1_partial(l0, r0, l1, r1, empty, l0.len() as int),
        pass2_partial(l1, r1, l2, r2, empty, r1.len() as int),
    ensures
        forall|a: int|
            0 <= a < l0.len() && (#[trigger] l2[a]).status is Same ==> {
                let b = l2[a].status->Same_0 as int;
                &&& 0 <= b < r0.len()
                &&& r2[b].status == Status::Same(a as usize)
                &&& entry_key_eq(l0[a], r0[b])
            },
        forall|a: int|
            0 <= a < l0.len() && (#[trigger] l2[a]).status is Modified ==> {
                let b = l2[a].status->Modified_0 as int;
                &&& 0 <= b < r0.len()
                &&& r2[b].status == Status::Modified(a as usize)
                &&& l0[a].path@ == r0[b].path@
                &&& l0[a].hash@ != r0[b].hash@
            },
        forall|a: int|
            0 <= a < l0.len() && (#[trigger] l2[a]).status is Moved ==> {
                let b = l2[a].status->Moved_0 as int;
                &&& 0 <= b < r0.len()
                &&& r2[b].status == Status::Moved(a as usize)
                &&& l0[a].hash@ == r0[b].hash@
                &&& l0[a].path@ != r0[b].path@
            },
        forall|a: int|
            0 <= a < l0.len() && (#[trigger] l2[a]).status is Maybe ==> {
                let list = l2[a].status->Maybe_0@;
                &&& list.len() >= 1
                &&& (forall|t: int|
                    0 <= t < list.len() ==> (#[trigger] list[t]) < r0.len()
                        && r0[list[t] as int].hash@ == l0[a].hash@)
                &&& (forall|t1: int, t2: int|
                    0 <= t1 < t2 < list.len() ==> #[trigger] list[t1] < #[trigger] list[t2])
            },
        forall|a: int|
            0 <= a < l0.len() && (#[trigger] l2[a]).status is Empty ==> l0[a].hash@ == empty,
{
    lemma_keys_pointwise(l0, l1);
    lemma_keys_pointwise(r0, r1);
    lemma_keys_pointwise(l1, l2);
    lemma_keys_pointwise(r1, r2);
    assert forall|a: int|
        0 <= a < l0.len() && !((#[trigger] l2[a]).status is Moved) implies l2[a].status
        == l1[a].status by {
        if l2[a].status != l1[a].status {
            let bx = choose|bx: int|
                0 <= bx < r1.len() && #[trigger] pass2_upgrades(l1, r1, a, bx, empty);
            assert(l2[a].status == Status::Moved(bx as usize));
        }
    }
    assert forall|a: int|
        0 <= a < l0.len() && (#[trigger] l2[a]).status is Same implies {
            let b = l2[a].status->Same_0 as int;
            &&& 0 <= b < r0.len()
            &&& r2[b].status == Status::Same(a as usize)
            &&& entry_key_eq(l0[a], r0[b])
        } by {
        lemma_pass1_left_cases(l0, r0, l1, r1, empty, a);
        let b = choose|b: int|
            0 <= b < r0.len() && #[trigger] entry_key_eq(l0[a], r0[b]) && l1[a].status
                == Status::Same(b as usize);
        assert(entry_key_eq(l0[a], r0[b]));
        assert(r1[b].status == Status::Same(a as usize));
        assert(r2[b].status == r1[b].status);
        assert(l2[a].status->Same_0 == b as usize);
    }
    assert forall|a: int|
        0 <= a < l0.len() && (#[trigger] l2[a]).status is Modified implies {
            let b = l2[a].status->Modified_0 as int;
            &&& 0 <= b < r0.len()
            &&& r2[b].status == Status::Modified(a as usize)
            &&& l0[a].path@ == r0[b].path@
            &&& l0[a].hash@ != r0[b].hash@
        } by {
        lemma_pass1_left_cases(l0, r0, l1, r1, empty, a);
        let b = choose|b: int|
            #[trigger] modified_selects(l0, r0, a, b, empty) && l1[a].status == Status::Modified(
                b as usize,
            );
        assert(modified_selects(l0, r0, a, b, empty));
        assert(r1[b].status == Status::Modified(a as usize));
        assert(r2[b].status == r1[b].status);
        assert(r0[b].path@ == l0[a].path@);
        assert(!has_hash_match(l0[a], r0));
        assert(r0[b].hash@ != l0[a].hash@);
    }
    assert forall|a: int|
        0 <= a < l0.len() && (#[trigger] l2[a]).status is Moved implies {
            let b = l2[a].status->Moved_0 as int;
            &&& 0 <= b < r0.len()
            &&& r2[b].status == Status::Moved(a as usize)
            &&& l0[a].hash@ == r0[b].hash@
            &&& l0[a].path@ != r0[b].path@
        } by {
        if l2[a].status == l1[a].status {
            lemma_pass1_left_cases(l0, r0, l1, r1, empty, a);
            assert(false);
        }
        let bx = choose|bx: int|
            0 <= bx < r1.len() && #[trigger] pass2_upgrades(l1, r1, a, bx, empty);
        assert(l2[a].status == Status::Moved(bx as usize));
        assert(unique_hash_match(r1[bx], l1, a));
        assert(r2[bx].status == Status::Moved(a as usize));
        assert(l1[a].hash@ == r1[bx].hash@);
        assert(!has_key_match(r1[bx], l1));
        if l1[a].path@ == r1[bx].path@ {
            assert(entry_key_eq(r1[bx], l1[a]));
            assert(has_key_match(r1[bx], l1));
        }
    }
    assert forall|a: int|
        0 <= a < l0.len() && (#[trigger] l2[a]).status is Maybe implies {
            let list = l2[a].status->Maybe_0@;
            &&& list.len() >= 1
            &&& (forall|t: int|
                0 <= t < list.len() ==> (#[trigger] list[t]) < r0.len()
                    && r0[list[t] as int].hash@ == l0[a].hash@)
            &&& (forall|t1: int, t2: int|
                0 <= t1 < t2 < list.len() ==> #[trigger] list[t1] < #[trigger] list[t2])
        } by {
        lemma_pass1_left_cases(l0, r0, l1, r1, empty, a);
        assert(l1[a].status is Maybe);
        assert(is_match_list(l1[a].status->Maybe_0@, l0[a].hash@, r0));
        let j = choose|j: int| 0 <= j < r0.len() && (#[trigger] r0[j]).hash@ == l0[a].hash@;
        let t = choose|t: int|
            0 <= t < l1[a].status->Maybe_0@.len() && l1[a].status->Maybe_0@[t] == j;
        assert(l1[a].status->Maybe_0@.len() >= 1);
    }
    assert forall|a: int|
        0 <= a < l0.len() && (#[trigger] l2[a]).status is Empty implies l0[a].hash@ == empty by {
        lemma_pass1_left_cases(l0, r0, l1, r1, empty, a);
    }
}

/// Backward half of the composition, second side: what each final status
/// on the right implies.
#[verifier::rlimit(60)]
proof fn lemma_compose_backward_right(
    l0: Seq<Entry>,
    r0: Seq<Entry>,
    l1: Seq<Entry>,
    r1: Seq<Entry>,
    l2: Seq<Entry>,
    r2: Seq<Entry>,
    empty: Seq<u8>,
)
    requires
        entries_sorted(l0),
        entries_sorted(r0),
        paths_unique(l0),
        paths_unique(r0),
        l0.len() <= usize::MAX,
        r0.len() <= usize::MAX,
        forall|a: int| 0 <= a < l0.len() ==> (#[trigger] l0[a]).status is Unique,
        forall|b: int| 0 <= b < r0.len() ==> (#[trigger] r0[b]).status is Unique,
        pass1_partial(l0, r0, l1, r1, empty, l0.len() as int),
        pass2_partial(l1, r1, l2, r2, empty, r1.len() as int),
    ensures
        forall|b: int|
            0 <= b < r0.len() && (#[trigger] r2[b]).status is Same ==> {
                let a = r2[b].status->Same_0 as int;
                &&& 0 <= a < l0.len()
                &&& l2[a].status == Status::Same(b as usize)
                &&& entry_key_eq(l0[a], r0[b])
            },
        forall|b: int|
            0 <= b < r0.len() && (#[trigger] r2[b]).status is Modified ==> {
                let a = r2[b].status->Modified_0 as int;
                &&& 0 <= a < l0.len()
                &&& l2[a].status == Status::Modified(b as usize)
                &&& l0[a].path@ == r0[b].path@
                &&& l0[a].hash@ != r0[b].hash@
            },
        forall|b: int|
            0 <= b < r0.len() && (#[trigger] r2[b]).status is Moved ==> {
                let a = r2[b].status->Moved_0 as int;
                &&& 0 <= a < l0.len()
                &&& l0[a].hash@ == r0[b].hash@
                &&& l0[a].path@ != r0[b].path@
            },
        forall|b: int|
            0 <= b < r0.len() && (#[trigger] r2[b]).status is Maybe ==> {
                let list = r2[b].status->Maybe_0@;
                &&& list.len() >= 2
                &&& (forall|t: int|
                    0 <= t < list.len() ==> (#[trigger] list[t]) < l0.len()
                        && l0[list[t] as int].hash@ == r0[b].hash@)
                &&& (forall|t1: int, t2: int|
                    0 <= t1 < t2 < list.len() ==> #[trigger] list[t1] < #[trigger] list[t2])
            },
        forall|b: int|
            0 <= b < r0.len() && (#[trigger] r2[b]).status is Empty ==> r0[b].hash@ == empty,
{
    lemma_keys_pointwise(l0, l1);
    lemma_keys_pointwise(r0, r1);
    lemma_keys_pointwise(l1, l2);
    lemma_keys_pointwise(r1, r2);
    assert forall|b: int|
        0 <= b < r0.len() && (#[trigger] r2[b]).status is Same implies {
            let a = r2[b].status->Same_0 as int;
            &&& 0 <= a < l0.len()
            &&& l2[a].status == Status::Same(b as usize)
            &&& entry_key_eq(l0[a], r0[b])
        } by {
        if r1[b].status is Unique {
            lemma_pass2_right_cases(l1, r1, l2, r2, empty, b);
            let a = choose|a: int|
                0 <= a < l1.len() && entry_key_eq(r1[b], #[trigger] l1[a]) && r2[b].status
                    == Status::Same(a as usize);
            assert(entry_key_eq(l0[a], r0[b]));
            assert(r1[b].status == Status::Same(a as usize));
            assert(false);
        } else {
            assert(r2[b].status == r1[b].status);
            lemma_pass1_right_cases(l0, r0, l1, r1, empty, b);
            let a = choose|a: int|
                0 <= a < l0.len() && #[trigger] entry_key_eq(l0[a], r0[b]) && r1[b].status
                    == Status::Same(a as usize) && l1[a].status == Status::Same(b as usize);
            assert forall|bx: int| !pass2_upgrades(l1, r1, a, bx, empty) by {}
            assert(l2[a].status == l1[a].status);
        }
    }
    assert forall|b: int|
        0 <= b < r0.len() && (#[trigger] r2[b]).status is Modified implies {
            let a = r2[b].status->Modified_0 as int;
            &&& 0 <= a < l0.len()
            &&& l2[a].status == Status::Modified(b as usize)
            &&& l0[a].path@ == r0[b].path@
            &&& l0[a].hash@ != r0[b].hash@
        } by {
        if r1[b].status is Unique {
            lemma_pass2_right_cases(l1, r1, l2, r2, empty, b);
            assert(false);
        } else {
            assert(r2[b].status == r1[b].status);
            lemma_pass1_right_cases(l0, r0, l1, r1, empty, b);
            let a = choose|a: int|
                #[trigger] modified_selects(l0, r0, a, b, empty) && r1[b].status
                    == Status::Modified(a as usize) && l1[a].status == Status::Modified(
                    b as usize,
                );
            assert(modified_selects(l0, r0, a, b, empty));
            assert forall|bx: int| !pass2_upgrades(l1, r1, a, bx, empty) by {}
            assert(l2[a].status == l1[a].status);
            assert(!has_hash_match(l0[a], r0));
            assert(r0[b].hash@ != l0[a].hash@);
        }
    }
    assert forall|b: int|
        0 <= b < r0.len() && (#[trigger] r2[b]).status is Moved implies {
            let a = r2[b].status->Moved_0 as int;
            &&& 0 <= a < l0.len()
            &&& l0[a].hash@ == r0[b].hash@
            &&& l0[a].path@ != r0[b].path@
        } by {
        if r1[b].status is Unique {
            lemma_pass2_right_cases(l1, r1, l2, r2, empty, b);
            let a = choose|a: int|
                !has_key_match(r1[b], l1) && r1[b].hash@ != empty && #[trigger] unique_hash_match(
                    r1[b],
                    l1,
                    a,
                ) && r2[b].status == Status::Moved(a as usize);
            assert(unique_hash_match(r1[b], l1, a));
            assert(l1[a].hash@ == r1[b].hash@);
            if l0[a].path@ == r0[b].path@ {
                assert(entry_key_eq(r1[b], l1[a]));
                assert(has_key_match(r1[b], l1));
            }
        } else {
            assert(r2[b].status == r1[b].status);
            lemma_pass1_right_cases(l0, r0, l1, r1, empty, b);
            assert(false);
        }
    }
    assert forall|b: int|
        0 <= b < r0.len() && (#[trigger] r2[b]).status is Maybe implies {
            let list = r2[b].status->Maybe_0@;
            &&& list.len() >= 2
            &&& (forall|t: int|
                0 <= t < list.len() ==> (#[trigger] list[t]) < l0.len()
                    && l0[list[t] as int].hash@ == r0[b].hash@)
            &&& (forall|t1: int, t2: int|
                0 <= t1 < t2 < list.len() ==> #[trigger] list[t1] < #[trigger] list[t2])
        } by {
        if r1[b].status is Unique {
            lemma_pass2_right_cases(l1, r1, l2, r2, empty, b);
            assert(is_match_list(r2[b].status->Maybe_0@, r1[b].hash@, l1));
            lemma_match_at_least_two(r2[b].status->Maybe_0@, r1[b].hash@, l1, r1[b]);
            assert forall|t: int|
                0 <= t < r2[b].status->Maybe_0@.len() implies (#[trigger] r2[b].status->Maybe_0@[t])
                < l0.len() && l0[r2[b].status->Maybe_0@[t] as int].hash@ == r0[b].hash@ by {
                assert(l1[r2[b].status->Maybe_0@[t] as int].hash@ == r1[b].hash@);
            }
        } else {
            assert(r2[b].status == r1[b].status);
            lemma_pass1_right_cases(l0, r0, l1, r1, empty, b);
            assert(false);
        }
    }
    assert forall|b: int|
        0 <= b < r0.len() && (#[trigger] r2[b]).status is Empty implies r0[b].hash@ == empty by {
        if r1[b].status is Unique {
            lemma_pass2_right_cases(l1, r1, l2, r2, empty, b);
        } else {
            assert(r2[b].status == r1[b].status);
            lemma_pass1_right_cases(l0, r0, l1, r1, empty, b);
            assert(false);
        }
    }
}

/// The two passes in sequence establish the full comparison contract.
pub proof fn lemma_passes_compose(
    l0: Seq<Entry>,
    r0: Seq<Entry>,
    l1: Seq<Entry>,
    r1: Seq<Entry>,
    l2: Seq<Entry>,
    r2: Seq<Entry>,
    empty: Seq<u8>,
)
    requires
        entries_sorted(l0),
        entries_sorted(r0),
        paths_unique(l0),
        paths_unique(r0),
        l0.len() <= usize::MAX,
        r0.len() <= usize::MAX,
        forall|a: int| 0 <= a < l0.len() ==> (#[trigger] l0[a]).status is Unique,
        forall|b: int| 0 <= b < r0.len() ==> (#[trigger] r0[b]).status is Unique,
        pass1_partial(l0, r0, l1, r1, empty, l0.len() as int),
        pass2_partial(l1, r1, l2, r2, empty, r1.len() as int),
    ensures
        compare_post(l0, r0, l2, r2, empty),
{
    lemma_compose_forward(l0, r0, l1, r1, l2, r2, empty);
    lemma_compose_backward_left(l0, r0, l1, r1, l2, r2, empty);
    lemma_compose_backward_right(l0, r0, l1, r1, l2, r2, empty);
}

} // verus!
