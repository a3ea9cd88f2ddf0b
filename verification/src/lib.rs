//! Comparison of two directory trees by content digest.
//!
//! Each tree is crawled into a sorted index of entries `(digest, relative
//! path)`; a two-pass matcher then classifies every entry against the
//! opposite index as identical, moved, modified, ambiguous, empty or unique.

pub mod cmp;
pub mod crawler;
pub mod entry;
pub mod index;
pub mod linker;
pub mod order;

use vstd::prelude::*;

use crate::entry::{
    Directory, Entry, entries_sorted, paths_unique, keys_equal, entry_key_eq,
    lemma_sorted_keys_equal, lemma_paths_unique_keys_equal,
};
use crate::crawler::md5_of;
use crate::linker::{compare_post, maybe_lists_consistent};

verus! {

/// Matches two crawled indices against each other and wraps each in its
/// `Directory`. Both inputs must be strictly sorted with unique relative
/// paths and untouched (`Unique`) statuses, as the crawl delivers them; the
/// matcher then rewrites every status in place, in two passes, and the
/// result satisfies the full classification contract `compare_post`
/// against the digest of the empty byte sequence.
pub fn compare(
    left_path: Vec<u8>,
    left_entries: Vec<Entry>,
    right_path: Vec<u8>,
    right_entries: Vec<Entry>,
) -> (r: (Directory, Directory))
    requires
        entries_sorted(left_entries@),
        entries_sorted(right_entries@),
        paths_unique(left_entries@),
        paths_unique(right_entries@),
        forall|a: int|
            0 <= a < left_entries@.len() ==> (#[trigger] left_entries@[a]).status is Unique,
        forall|b: int|
            0 <= b < right_entries@.len() ==> (#[trigger] right_entries@[b]).status is Unique,
    ensures
        r.0.path@ == left_path@,
        r.1.path@ == right_path@,
        keys_equal(left_entries@, r.0.entries@),
        keys_equal(right_entries@, r.1.entries@),
        entries_sorted(r.0.entries@),
        entries_sorted(r.1.entries@),
        paths_unique(r.0.entries@),
        paths_unique(r.1.entries@),
        compare_post(
            left_entries@,
            right_entries@,
            r.0.entries@,
            r.1.entries@,
            md5_of(Seq::<u8>::empty()),
        ),
{
    let ghost l0 = left_entries@;
    let ghost r0 = right_entries@;
    let mut l = left_entries;
    let mut rr = right_entries;
    proof {
        vstd::std_specs::vec::axiom_spec_len(&l);
        vstd::std_specs::vec::axiom_spec_len(&rr);
    }
    let empty = crawler::empty_hash();
    linker::first_pass(&mut l, &mut rr, &empty);
    let ghost l1 = l@;
    let ghost r1 = rr@;
    proof {
        lemma_sorted_keys_equal(l0, l1);
        lemma_sorted_keys_equal(r0, r1);
        assert forall|a: int|
            0 <= a < l1.len() && (#[trigger] l1[a]).status is Maybe implies linker::is_match_list(
            l1[a].status->Maybe_0@,
            l1[a].hash@,
            r1,
        ) by {
            linker::lemma_pass1_left_cases(l0, r0, l1, r1, empty@, a);
            linker::lemma_keys_pointwise(l0, l1);
            assert(linker::is_match_list(l1[a].status->Maybe_0@, l0[a].hash@, r0));
            linker::lemma_match_list_transfer(l1[a].status->Maybe_0@, l0[a].hash@, r0, r1);
        }
        assert(maybe_lists_consistent(l1, r1));
    }
    linker::second_pass(&mut l, &mut rr, &empty);
    proof {
        linker::lemma_passes_compose(l0, r0, l1, r1, l@, rr@, empty@);
        assert forall|i: int| 0 <= i < l0.len() implies #[trigger] entry_key_eq(l0[i], l@[i]) by {
            assert(entry_key_eq(l0[i], l1[i]));
            assert(entry_key_eq(l1[i], l@[i]));
        }
        assert forall|i: int| 0 <= i < r0.len() implies #[trigger] entry_key_eq(r0[i], rr@[i]) by {
            assert(entry_key_eq(r0[i], r1[i]));
            assert(entry_key_eq(r1[i], rr@[i]));
        }
        assert(keys_equal(l0, l@));
        assert(keys_equal(r0, rr@));
        lemma_sorted_keys_equal(l0, l@);
        lemma_sorted_keys_equal(r0, rr@);
        lemma_paths_unique_keys_equal(l0, l@);
        lemma_paths_unique_keys_equal(r0, rr@);
    }
    (Directory::new(left_path, l), Directory::new(right_path, rr))
}

} // verus!
