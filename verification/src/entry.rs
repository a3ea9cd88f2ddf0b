//! The data model: digests, statuses, entries and the per-tree `Directory`.
//!
//! An entry is a pair `(digest, relative path)` together with a mutable
//! status; entries are strictly ordered by `(digest, relative path)`, both
//! components byte-lexicographically. A `Directory` pairs a root path with a
//! sorted vector of entries.

use vstd::prelude::*;

use crate::order::{lex_lt, bytes_lt, bytes_eq, lemma_lex_lt_connected, lemma_lex_lt_transitive, lemma_lex_lt_asymmetric, lemma_lex_lt_from_diff, lemma_lex_lt_irreflexive};

verus! {

/// A 16-byte content digest, interpreted big-endian and ordered
/// byte-lexicographically (equivalently: numerically as a 128-bit integer).
#[derive(Debug, Clone, Copy, PartialEq, Eq)]
pub struct Hash {
    pub bytes: [u8; 16],
}

impl View for Hash {
    type V = Seq<u8>;

    open spec fn view(&self) -> Seq<u8> {
        self.bytes@
    }
}

impl Hash {
    pub fn new(bytes: [u8; 16]) -> (h: Hash)
        ensures
            h@ == bytes@,
    {
        Hash { bytes }
    }

    /// Subtracts one from the rightmost nonzero byte, yielding a digest
    /// strictly below the original; the all-zero digest is returned
    /// unchanged. The matcher uses it to form a search key one step below
    /// a digest's range.
    pub fn decrement(&self) -> (r: Hash)
        ensures
            (forall|i: int| 0 <= i < 16 ==> self@[i] == 0) ==> r@ == self@,
            forall|i: int|
                0 <= i < 16 && self@[i] != 0 && (forall|j: int| i < j < 16 ==> self@[j] == 0)
                    ==> r@ == self@.update(i, (self@[i] - 1) as u8),
            (exists|i: int| 0 <= i < 16 && self@[i] != 0) ==> lex_lt(r@, self@),
    {
        let mut out = self.bytes;
        let mut j: usize = 16;
        while j > 0
            invariant
                j <= 16,
                out@ == self.bytes@,
                forall|k: int| j <= k < 16 ==> self@[k] == 0,
            decreases j,
        {
            j = j - 1;
            if out[j] != 0 {
                let b = out[j];
                out[j] = b - 1;
                proof {
                    assert(out@ == self@.update(j as int, (self@[j as int] - 1) as u8));
                    lemma_lex_lt_from_diff(out@, self@, j as int);
                }
                return Hash { bytes: out };
            }
        }
        Hash { bytes: out }
    }

    pub fn first_byte(&self) -> (r: u8)
        ensures
            r == self@[0],
    {
        self.bytes[0]
    }

    /// Decides digest equality.
    pub fn eq_hash(&self, other: &Hash) -> (r: bool)
        ensures
            r == (self@ == other@),
    {
        bytes_eq(self.bytes.as_slice(), other.bytes.as_slice())
    }

    /// Decides the strict digest order.
    pub fn lt_hash(&self, other: &Hash) -> (r: bool)
        ensures
            r == lex_lt(self@, other@),
    {
        bytes_lt(self.bytes.as_slice(), other.bytes.as_slice())
    }
}

/// How one entry relates to the opposite tree's index. Indices always point
/// into the opposite `Directory`'s entries.
#[derive(Debug, PartialEq, Eq)]
pub enum Status {
    /// Same digest at the same relative path.
    Same(usize),
    /// Same digest at a different relative path, unique counterpart.
    Moved(usize),
    /// Different digest at the same relative path.
    Modified(usize),
    /// Same digest as several opposite entries; ascending candidate indices.
    Maybe(Vec<usize>),
    /// No counterpart found.
    Unique,
    /// The digest of the empty byte sequence; never matched.
    Empty,
}

/// The rank a status sorts under when statuses themselves are ordered.
pub open spec fn status_rank(s: &Status) -> int {
    match s {
        Status::Same(_) => 0,
        Status::Moved(_) => 1,
        Status::Modified(_) => 2,
        Status::Maybe(_) => 3,
        Status::Unique => 4,
        Status::Empty => 5,
    }
}

impl Status {
    pub fn as_index(&self) -> (r: u8)
        ensures
            r as int == status_rank(self),
    {
        match self {
            Status::Same(_) => 0,
            Status::Moved(_) => 1,
            Status::Modified(_) => 2,
            Status::Maybe(_) => 3,
            Status::Unique => 4,
            Status::Empty => 5,
        }
    }
}

/// A record of one regular file: its digest, its path relative to the tree
/// root (as plain bytes), and its status against the opposite tree.
#[derive(Debug, PartialEq, Eq)]
pub struct Entry {
    pub hash: Hash,
    pub path: Vec<u8>,
    pub status: Status,
}

/// The entry `e` comes strictly before the key `(h, p)` in entry order.
pub open spec fn key_lt_hp(e: Entry, h: Seq<u8>, p: Seq<u8>) -> bool {
    lex_lt(e.hash@, h) || (e.hash@ == h && lex_lt(e.path@, p))
}

/// The key `(h, p)` comes strictly before the entry `e` in entry order.
pub open spec fn hp_lt_key(h: Seq<u8>, p: Seq<u8>, e: Entry) -> bool {
    lex_lt(h, e.hash@) || (h == e.hash@ && lex_lt(p, e.path@))
}

/// The strict entry order: lexicographic on `(digest, relative path)`.
pub open spec fn entry_lt(a: Entry, b: Entry) -> bool {
    key_lt_hp(a, b.hash@, b.path@)
}

/// Entry equality for ordering purposes: the status does not participate.
pub open spec fn entry_key_eq(a: Entry, b: Entry) -> bool {
    a.hash@ == b.hash@ && a.path@ == b.path@
}

pub proof fn lemma_entry_lt_transitive(a: Entry, b: Entry, c: Entry)
    ensures
        entry_lt(a, b) && entry_lt(b, c) ==> entry_lt(a, c),
{
    lemma_lex_lt_transitive(a.hash@, b.hash@, c.hash@);
    lemma_lex_lt_transitive(a.path@, b.path@, c.path@);
    lemma_lex_lt_asymmetric(a.hash@, b.hash@);
    lemma_lex_lt_asymmetric(b.hash@, c.hash@);
}

/// An entry below a key in entry order stays below everything the key is
/// below.
pub proof fn lemma_key_lt_hp_trans(a: Entry, b: Entry, h: Seq<u8>, p: Seq<u8>)
    ensures
        entry_lt(a, b) && key_lt_hp(b, h, p) ==> key_lt_hp(a, h, p),
{
    lemma_lex_lt_transitive(a.hash@, b.hash@, h);
    lemma_lex_lt_transitive(a.path@, b.path@, p);
}

/// A key and an entry that neither orders strictly share hash and path.
pub proof fn lemma_key_order_connected(e: Entry, h: Seq<u8>, p: Seq<u8>)
    ensures
        !key_lt_hp(e, h, p) && !hp_lt_key(h, p, e) ==> e.hash@ == h && e.path@ == p,
{
    lemma_lex_lt_connected(e.hash@, h);
    lemma_lex_lt_connected(e.path@, p);
}

/// Entries are strictly ascending: sorted, with no duplicate keys.
pub open spec fn entries_sorted(s: Seq<Entry>) -> bool {
    forall|i: int, j: int| 0 <= i < j < s.len() ==> #[trigger] entry_lt(s[i], s[j])
}

/// No two entries share a relative path.
pub open spec fn paths_unique(s: Seq<Entry>) -> bool {
    forall|i: int, j: int| 0 <= i < j < s.len() ==> (#[trigger] s[i]).path@ != (#[trigger] s[j]).path@
}

/// The two sequences list the same `(digest, relative path)` keys in the
/// same positions; only statuses may differ.
pub open spec fn keys_equal(s1: Seq<Entry>, s2: Seq<Entry>) -> bool {
    &&& s1.len() == s2.len()
    &&& forall|i: int| 0 <= i < s1.len() ==> #[trigger] entry_key_eq(s1[i], s2[i])
}

/// Sortedness depends on keys alone, so it carries over to any sequence
/// with the same keys.
pub proof fn lemma_sorted_keys_equal(s1: Seq<Entry>, s2: Seq<Entry>)
    requires
        keys_equal(s1, s2),
        entries_sorted(s1),
    ensures
        entries_sorted(s2),
{
    assert forall|i: int, j: int| 0 <= i < j < s2.len() implies #[trigger] entry_lt(
        s2[i],
        s2[j],
    ) by {
        assert(entry_key_eq(s1[i], s2[i]));
        assert(entry_key_eq(s1[j], s2[j]));
        assert(entry_lt(s1[i], s1[j]));
    }
}

/// Path uniqueness likewise carries over to any sequence with the same keys.
pub proof fn lemma_paths_unique_keys_equal(s1: Seq<Entry>, s2: Seq<Entry>)
    requires
        keys_equal(s1, s2),
        paths_unique(s1),
    ensures
        paths_unique(s2),
{
    assert forall|i: int, j: int| 0 <= i < j < s2.len() implies (#[trigger] s2[i]).path@ != (
    #[trigger] s2[j]).path@ by {
        assert(entry_key_eq(s1[i], s2[i]));
        assert(entry_key_eq(s1[j], s2[j]));
    }
}

/// In a strictly sorted sequence no two positions share a key.
pub proof fn lemma_sorted_unique_keys(s: Seq<Entry>, i: int, j: int)
    requires
        entries_sorted(s),
        0 <= i < s.len(),
        0 <= j < s.len(),
        i != j,
    ensures
        !entry_key_eq(s[i], s[j]),
{
    if i < j {
        assert(entry_lt(s[i], s[j]));
        lemma_lex_lt_irreflexive(s[i].hash@);
        lemma_lex_lt_irreflexive(s[i].path@);
    } else {
        assert(entry_lt(s[j], s[i]));
        lemma_lex_lt_irreflexive(s[j].hash@);
        lemma_lex_lt_irreflexive(s[j].path@);
    }
}

/// Adjacent strict order extends to the whole sequence.
pub proof fn lemma_sorted_from_adjacent(s: Seq<Entry>)
    requires
        forall|x: int| 0 < x < s.len() ==> #[trigger] entry_lt(s[x - 1], s[x]),
    ensures
        entries_sorted(s),
{
    assert forall|i: int, j: int| 0 <= i < j < s.len() implies #[trigger] entry_lt(s[i], s[j]) by {
        lemma_entry_lt_chain(s, i, j);
    }
}

proof fn lemma_entry_lt_chain(s: Seq<Entry>, i: int, j: int)
    requires
        forall|x: int| 0 < x < s.len() ==> #[trigger] entry_lt(s[x - 1], s[x]),
        0 <= i < j < s.len(),
    ensures
        entry_lt(s[i], s[j]),
    decreases j - i,
{
    if j == i + 1 {
        assert(entry_lt(s[j - 1], s[j]));
    } else {
        lemma_entry_lt_chain(s, i, j - 1);
        assert(entry_lt(s[j - 1], s[j]));
        lemma_entry_lt_transitive(s[i], s[j - 1], s[j]);
    }
}

/// The key of `e` appears somewhere in `s`.
pub open spec fn key_in(e: Entry, s: Seq<Entry>) -> bool {
    exists|k2: int| 0 <= k2 < s.len() && entry_key_eq(e, #[trigger] s[k2])
}

/// Every key of `s1` appears somewhere in `s2`.
pub open spec fn keys_subset(s1: Seq<Entry>, s2: Seq<Entry>) -> bool {
    forall|k: int| 0 <= k < s1.len() ==> key_in(#[trigger] s1[k], s2)
}

/// Two sorted, mutually key-covering indices start with the same key.
proof fn lemma_heads_align(s1: Seq<Entry>, s2: Seq<Entry>)
    requires
        entries_sorted(s1),
        entries_sorted(s2),
        s1.len() > 0,
        s2.len() > 0,
        keys_subset(s1, s2),
        keys_subset(s2, s1),
    ensures
        entry_key_eq(s1[0], s2[0]),
{
    assert(key_in(s1[0], s2));
    assert(key_in(s2[0], s1));
    let k2 = choose|k2: int| 0 <= k2 < s2.len() && entry_key_eq(s1[0], #[trigger] s2[k2]);
    let k1 = choose|k1: int| 0 <= k1 < s1.len() && entry_key_eq(s2[0], #[trigger] s1[k1]);
    if k2 > 0 {
        assert(entry_lt(s2[0], s2[k2]));
        if k1 > 0 {
            assert(entry_lt(s1[0], s1[k1]));
            lemma_lex_lt_asymmetric(s1[0].hash@, s1[k1].hash@);
            lemma_lex_lt_asymmetric(s1[0].path@, s1[k1].path@);
        } else {
            lemma_lex_lt_irreflexive(s1[0].hash@);
            lemma_lex_lt_irreflexive(s1[0].path@);
        }
        assert(false);
    }
}

/// Dropping equal heads keeps each side's keys covered by the other.
proof fn lemma_tail_subset(s1: Seq<Entry>, s2: Seq<Entry>)
    requires
        entries_sorted(s1),
        entries_sorted(s2),
        s1.len() > 0,
        s2.len() > 0,
        entry_key_eq(s1[0], s2[0]),
        keys_subset(s1, s2),
    ensures
        keys_subset(s1.skip(1), s2.skip(1)),
{
    let t1 = s1.skip(1);
    let t2 = s2.skip(1);
    assert forall|k: int| 0 <= k < t1.len() implies key_in(#[trigger] t1[k], t2) by {
        assert(t1[k] == s1[k + 1]);
        assert(key_in(s1[k + 1], s2));
        let x = choose|x: int| 0 <= x < s2.len() && entry_key_eq(s1[k + 1], #[trigger] s2[x]);
        if x == 0 {
            lemma_sorted_unique_keys(s1, 0, k + 1);
            assert(false);
        }
        assert(t2[x - 1] == s2[x]);
        assert(entry_key_eq(t1[k], t2[x - 1]));
    }
}

/// The tail of a sorted index is sorted.
proof fn lemma_sorted_skip(s: Seq<Entry>)
    requires
        entries_sorted(s),
        s.len() > 0,
    ensures
        entries_sorted(s.skip(1)),
{
    let t = s.skip(1);
    assert forall|i: int, j: int| 0 <= i < j < t.len() implies #[trigger] entry_lt(t[i], t[j]) by {
        assert(t[i] == s[i + 1] && t[j] == s[j + 1]);
        assert(entry_lt(s[i + 1], s[j + 1]));
    }
}

/// Two strictly sorted indices holding the same keys agree position by
/// position. The index a crawl produces is therefore determined by the set
/// of hashed files alone: however the worker pool schedules scanners and
/// hashers, and in whatever order their messages arrive, the accumulated
/// index is the same, and repeating a crawl over an unchanged tree
/// reproduces it.
pub proof fn lemma_index_canonical(s1: Seq<Entry>, s2: Seq<Entry>)
    requires
        entries_sorted(s1),
        entries_sorted(s2),
        keys_subset(s1, s2),
        keys_subset(s2, s1),
    ensures
        keys_equal(s1, s2),
    decreases s1.len(),
{
    if s1.len() == 0 {
        if s2.len() > 0 {
            assert(key_in(s2[0], s1));
            assert(false);
        }
    } else {
        if s2.len() == 0 {
            assert(key_in(s1[0], s2));
            assert(false);
        }
        lemma_heads_align(s1, s2);
        lemma_tail_subset(s1, s2);
        assert(entry_key_eq(s2[0], s1[0]));
        lemma_tail_subset(s2, s1);
        lemma_sorted_skip(s1);
        lemma_sorted_skip(s2);
        lemma_index_canonical(s1.skip(1), s2.skip(1));
        assert forall|i: int| 0 <= i < s1.len() implies #[trigger] entry_key_eq(s1[i], s2[i]) by {
            if i > 0 {
                assert(entry_key_eq(s1.skip(1)[i - 1], s2.skip(1)[i - 1]));
                assert(s1.skip(1)[i - 1] == s1[i] && s2.skip(1)[i - 1] == s2[i]);
            }
        }
    }
}

/// `p` lies strictly under the directory `base`: `base` is a proper prefix
/// and a path separator follows it.
pub open spec fn path_under(base: Seq<u8>, p: Seq<u8>) -> bool {
    &&& p.len() > base.len() + 1
    &&& p.subrange(0, base.len() as int) == base
    &&& p[base.len() as int] == 47u8
}

/// The path relative to `base`: what follows `base` and the separator.
pub open spec fn rel_of(base: Seq<u8>, p: Seq<u8>) -> Seq<u8> {
    p.skip(base.len() as int + 1)
}

impl Entry {
    /// Builds the entry for an absolute path under `base`, stripping the
    /// base prefix; the initial status is `Unique`. Returns `None` when the
    /// path does not lie under `base`.
    pub fn new(path: &[u8], base: &[u8], hash: Hash) -> (r: Option<Entry>)
        ensures
            r is Some <==> path_under(base@, path@),
            r is Some ==> {
                &&& r->0.hash@ == hash@
                &&& r->0.path@ == rel_of(base@, path@)
                &&& r->0.status == Status::Unique
            },
    {
        if path.len() <= base.len() {
            return None;
        }
        if path.len() - base.len() < 2 {
            return None;
        }
        if !bytes_eq(&path[0..base.len()], base) {
            proof {
                assert(path@.subrange(0, base@.len() as int) != base@);
            }
            return None;
        }
        if path[base.len()] != 47u8 {
            return None;
        }
        let mut rel: Vec<u8> = Vec::new();
        let mut i: usize = base.len() + 1;
        while i < path.len()
            invariant
                base@.len() + 1 <= i <= path@.len(),
                rel@ == path@.subrange(base@.len() as int + 1, i as int),
            decreases path@.len() - i,
        {
            rel.push(path[i]);
            proof {
                assert(rel@ =~= path@.subrange(base@.len() as int + 1, i + 1));
            }
            i = i + 1;
        }
        proof {
            assert(rel@ =~= rel_of(base@, path@));
        }
        Some(Entry { hash, path: rel, status: Status::Unique })
    }

    pub fn hash(&self) -> (r: &Hash)
        ensures
            *r == self.hash,
    {
        &self.hash
    }

    pub fn path(&self) -> (r: &Vec<u8>)
        ensures
            *r == self.path,
    {
        &self.path
    }

    pub fn status(&self) -> (r: &Status)
        ensures
            *r == self.status,
    {
        &self.status
    }

    /// Decides the strict entry order.
    pub fn lt(&self, other: &Entry) -> (r: bool)
        ensures
            r == entry_lt(*self, *other),
    {
        if bytes_eq(self.hash.bytes.as_slice(), other.hash.bytes.as_slice()) {
            proof {
                lemma_lex_lt_irreflexive(self.hash@);
            }
            bytes_lt(self.path.as_slice(), other.path.as_slice())
        } else {
            bytes_lt(self.hash.bytes.as_slice(), other.hash.bytes.as_slice())
        }
    }

    /// Decides key equality (digest and relative path; status ignored).
    pub fn key_eq(&self, other: &Entry) -> (r: bool)
        ensures
            r == entry_key_eq(*self, *other),
    {
        bytes_eq(self.hash.bytes.as_slice(), other.hash.bytes.as_slice())
            && bytes_eq(self.path.as_slice(), other.path.as_slice())
    }
}

/// One side of a comparison: the tree's root path and its sorted entries.
#[derive(Debug, PartialEq, Eq)]
pub struct Directory {
    pub path: Vec<u8>,
    pub entries: Vec<Entry>,
}

impl Directory {
    pub fn new(path: Vec<u8>, entries: Vec<Entry>) -> (d: Directory)
        ensures
            d.path == path,
            d.entries == entries,
    {
        Directory { path, entries }
    }

    pub fn path(&self) -> (r: &Vec<u8>)
        ensures
            *r == self.path,
    {
        &self.path
    }

    pub fn entries(&self) -> (r: &Vec<Entry>)
        ensures
            *r == self.entries,
    {
        &self.entries
    }

    /// Destructive decomposition: hands the root and the entry vector to the
    /// caller.
    pub fn decompose(self) -> (r: (Vec<u8>, Vec<Entry>))
        ensures
            r.0 == self.path,
            r.1 == self.entries,
    {
        (self.path, self.entries)
    }
}

} // verus!
