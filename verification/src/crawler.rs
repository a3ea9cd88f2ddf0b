//! Crawling a tree into a sorted index.
//!
//! The filesystem side of the crawl — enumerating directories, reading
//! files — lives outside this library; what arrives here is the stream of
//! messages the scanners and hashers produce. The accumulator folds that
//! stream into a strictly sorted entry vector, failing fast on the first
//! error, unreadable prefix, or full `(digest, path)` collision.

use vstd::prelude::*;
use vstd::seq_lib::*;

use crate::entry::{
    Entry, entry_lt, entry_key_eq, key_lt_hp, entries_sorted, path_under, rel_of,
    lemma_key_order_connected, hp_lt_key,
};
use crate::linker::lower_bound;
use crate::order::lemma_lex_lt_irreflexive;

verus! {

/// The digest the outside hash function assigns to a byte sequence.
pub uninterp spec fn md5_of(data: Seq<u8>) -> Seq<u8>;

/// Relies on `md5::Md5` through the `Digest` trait (`md-5` crate): the
/// digest is 16 bytes and a pure function of the input bytes alone.
#[verifier::external_body]
pub fn hash(data: &[u8]) -> (r: crate::entry::Hash)
    ensures
        r@ == md5_of(data@),
{
    crate::entry::Hash { bytes: <md5::Md5 as md5::Digest>::digest(data).into() }
}

/// The digest of the empty byte sequence: the digest every empty file
/// carries, which the matcher refuses to pair.
pub fn empty_hash() -> (r: crate::entry::Hash)
    ensures
        r@ == md5_of(Seq::<u8>::empty()),
{
    let data: Vec<u8> = Vec::new();
    hash(data.as_slice())
}

/// A fatal or soft failure on the way from the filesystem into the index.
#[derive(Debug, PartialEq, Eq)]
pub enum Error {
    /// A directory could not be enumerated.
    DirUnreadable(Vec<u8>),
    /// A directory entry could not be read.
    EntryUnreadable(Vec<u8>),
    /// A file could not be opened.
    CannotOpen(Vec<u8>),
    /// A file could not be read.
    CannotRead(Vec<u8>),
    /// A hashed path did not lie under the tree root (root, then path).
    StripPrefix(Vec<u8>, Vec<u8>),
    /// Two files produced the same digest at the same relative path.
    FullCollision(Vec<u8>),
}

/// One message from a scanner or hasher to the accumulator.
#[derive(Debug, PartialEq, Eq)]
pub enum Message {
    /// A scanner queued one file for hashing.
    Queued,
    /// The root scanner finished its sweep.
    Done,
    /// A hasher finished one file: its digest and its absolute path.
    Hash(crate::entry::Hash, Vec<u8>),
    /// A worker failed.
    Error(Error),
}

/// What a scanner does with one directory child.
#[derive(Debug, PartialEq, Eq, Clone, Copy)]
pub enum ChildAction {
    /// A directory: scan it recursively.
    Recurse,
    /// A broken symbolic link: warn and skip it.
    Skip,
    /// A regular file: queue it and hash it.
    HashFile,
}

/// The scanner's decision for one child, given what the filesystem said:
/// whether the child is a symbolic link, whether its metadata could be
/// resolved, and whether it (or its target) is a directory. A symlink whose
/// metadata cannot be read is broken and is skipped; directories recurse;
/// everything else is hashed.
pub fn child_action(is_symlink: bool, metadata_ok: bool, is_dir: bool) -> (r: ChildAction)
    ensures
        r == (if is_symlink && !metadata_ok {
            ChildAction::Skip
        } else if is_dir {
            ChildAction::Recurse
        } else {
            ChildAction::HashFile
        }),
{
    if is_symlink && !metadata_ok {
        ChildAction::Skip
    } else if is_dir {
        ChildAction::Recurse
    } else {
        ChildAction::HashFile
    }
}

/// The message at `i` carries a digest `h` for the relative path `p` under
/// `base`.
pub open spec fn hash_key_at(msgs: Seq<Message>, base: Seq<u8>, i: int, h: Seq<u8>, p: Seq<u8>) -> bool {
    &&& msgs[i] is Hash
    &&& path_under(base, msgs[i]->Hash_1@)
    &&& msgs[i]->Hash_0@ == h
    &&& rel_of(base, msgs[i]->Hash_1@) == p
}

/// The message at `i` stops the accumulator: a worker error, a path not
/// under the root, or a key already delivered by an earlier message.
pub open spec fn msg_bad(msgs: Seq<Message>, base: Seq<u8>, i: int) -> bool {
    ||| msgs[i] is Error
    ||| (msgs[i] is Hash && !path_under(base, msgs[i]->Hash_1@))
    ||| (msgs[i] is Hash && path_under(base, msgs[i]->Hash_1@) && exists|j: int|
        0 <= j < i && #[trigger] hash_key_at(
            msgs,
            base,
            j,
            msgs[i]->Hash_0@,
            rel_of(base, msgs[i]->Hash_1@),
        ))
}

/// No message stops the accumulator.
pub open spec fn msgs_good(msgs: Seq<Message>, base: Seq<u8>) -> bool {
    forall|i: int| 0 <= i < msgs.len() ==> !#[trigger] msg_bad(msgs, base, i)
}

/// The two errors are the same failure: same variant, same byte fields.
pub open spec fn error_matches(a: Error, b: Error) -> bool {
    match a {
        Error::DirUnreadable(x) => b is DirUnreadable && x@ == b->DirUnreadable_0@,
        Error::EntryUnreadable(x) => b is EntryUnreadable && x@ == b->EntryUnreadable_0@,
        Error::CannotOpen(x) => b is CannotOpen && x@ == b->CannotOpen_0@,
        Error::CannotRead(x) => b is CannotRead && x@ == b->CannotRead_0@,
        Error::StripPrefix(x, y) => b is StripPrefix && x@ == b->StripPrefix_0@ && y@
            == b->StripPrefix_1@,
        Error::FullCollision(x) => b is FullCollision && x@ == b->FullCollision_0@,
    }
}

/// The error the accumulator reports for the bad message at `i`.
pub open spec fn err_describes(msgs: Seq<Message>, base: Seq<u8>, i: int, e: Error) -> bool {
    if msgs[i] is Error {
        error_matches(e, msgs[i]->Error_0)
    } else if !path_under(base, msgs[i]->Hash_1@) {
        &&& e is StripPrefix
        &&& e->StripPrefix_0@ == base
        &&& e->StripPrefix_1@ == msgs[i]->Hash_1@
    } else {
        &&& e is FullCollision
        &&& e->FullCollision_0@ == rel_of(base, msgs[i]->Hash_1@)
    }
}

/// Copies a byte string.
fn clone_bytes(v: &[u8]) -> (r: Vec<u8>)
    ensures
        r@ == v@,
{
    let mut r: Vec<u8> = Vec::new();
    let mut i: usize = 0;
    while i < v.len()
        invariant
            i <= v@.len(),
            r@ == v@.subrange(0, i as int),
        decreases v@.len() - i,
    {
        r.push(v[i]);
        proof {
            assert(r@ =~= v@.subrange(0, i + 1));
        }
        i = i + 1;
    }
    proof {
        assert(r@ =~= v@);
    }
    r
}

/// Copies an error value.
fn clone_error(e: &Error) -> (r: Error)
    ensures
        error_matches(r, *e),
{
    match e {
        Error::DirUnreadable(x) => Error::DirUnreadable(clone_bytes(x.as_slice())),
        Error::EntryUnreadable(x) => Error::EntryUnreadable(clone_bytes(x.as_slice())),
        Error::CannotOpen(x) => Error::CannotOpen(clone_bytes(x.as_slice())),
        Error::CannotRead(x) => Error::CannotRead(clone_bytes(x.as_slice())),
        Error::StripPrefix(x, y) => Error::StripPrefix(
            clone_bytes(x.as_slice()),
            clone_bytes(y.as_slice()),
        ),
        Error::FullCollision(x) => Error::FullCollision(clone_bytes(x.as_slice())),
    }
}

/// Single-threaded consumer of the merged worker stream, in arrival order.
/// `Queued` and `Done` are bookkeeping markers; every `Hash` message has
/// the tree root stripped from its path and is inserted at its sorted
/// position, so the index stays strictly ordered at every step; the first
/// worker error, foreign path, or exact `(digest, path)` collision aborts
/// the crawl with the matching error. On success the index holds exactly
/// the keys the hash messages delivered, every status `Unique`.
/// Inserts `entry` at its sorted position, or reports the position of an
/// entry already holding the same key.
fn insert_sorted(out: &mut Vec<Entry>, entry: Entry) -> (r: Result<usize, ()>)
    requires
        entries_sorted(old(out)@),
    ensures
        r is Err <==> exists|k: int|
            0 <= k < old(out)@.len() && #[trigger] entry_key_eq(old(out)@[k], entry),
        r is Err ==> final(out)@ == old(out)@,
        r is Ok ==> {
            &&& 0 <= r->Ok_0 <= old(out)@.len()
            &&& final(out)@.len() == old(out)@.len() + 1
            &&& (forall|k: int| 0 <= k < r->Ok_0 ==> final(out)@[k] == old(out)@[k])
            &&& final(out)@[r->Ok_0 as int] == entry
            &&& (forall|k: int| r->Ok_0 < k < final(out)@.len() ==> final(out)@[k] == old(out)@[k - 1])
            &&& entries_sorted(final(out)@)
        },
{
    let i = lower_bound(out, out.len(), &entry.hash, entry.path.as_slice());
    if i < out.len() && out[i].key_eq(&entry) {
        proof {
            assert(entry_key_eq(out@[i as int], entry));
        }
        return Err(());
    }
    proof {
        assert forall|k: int|
            0 <= k < out@.len() implies !#[trigger] entry_key_eq(out@[k], entry) by {
            if entry_key_eq(out@[k], entry) {
                lemma_lex_lt_irreflexive(out@[k].hash@);
                lemma_lex_lt_irreflexive(out@[k].path@);
                if k < i as int {
                    assert(key_lt_hp(out@[k], entry.hash@, entry.path@));
                } else if k > i as int {
                    assert(!key_lt_hp(out@[i as int], entry.hash@, entry.path@));
                    assert(entry_lt(out@[i as int], out@[k]));
                }
            }
        }
    }
    let ghost outpre = out@;
    let ghost newentry = entry;
    out.insert(i, entry);
    proof {
        outpre.insert_ensures(i as int, newentry);
        assert(out@ == outpre.insert(i as int, newentry));
        assert(out@.len() == outpre.len() + 1);
        assert forall|k: int| 0 <= k < i implies out@[k] == outpre[k] by {
            assert(outpre.insert(i as int, newentry)[k] == outpre[k]);
        }
        assert(out@[i as int] == newentry);
        assert forall|k: int| i < k < out@.len() implies out@[k] == outpre[k - 1] by {
            assert(outpre.insert(i as int, newentry)[(k - 1) + 1] == outpre[k - 1]);
        }
        assert forall|x: int, y: int|
            0 <= x < y < out@.len() && y < i implies #[trigger] entry_lt(out@[x], out@[y]) by {
            assert(out@[x] == outpre[x] && out@[y] == outpre[y]);
            assert(entry_lt(outpre[x], outpre[y]));
        }
        assert forall|x: int, y: int|
            0 <= x < y < out@.len() && x > i implies #[trigger] entry_lt(out@[x], out@[y]) by {
            assert(out@[x] == outpre[x - 1] && out@[y] == outpre[y - 1]);
            assert(entry_lt(outpre[x - 1], outpre[y - 1]));
        }
        assert forall|x: int, y: int|
            0 <= x < y < out@.len() && x < i && i < y implies #[trigger] entry_lt(out@[x], out@[y]) by {
            assert(out@[x] == outpre[x] && out@[y] == outpre[y - 1]);
            assert(entry_lt(outpre[x], outpre[y - 1]));
        }
        assert forall|x: int| 0 <= x < i implies entry_lt(out@[x], out@[i as int]) by {
            assert(out@[x] == outpre[x]);
            assert(key_lt_hp(outpre[x], newentry.hash@, newentry.path@));
            assert(out@[i as int] == newentry);
        }
        assert forall|y: int| i < y < out@.len() implies entry_lt(out@[i as int], out@[y]) by {
            assert(out@[y] == outpre[y - 1]);
            assert(!key_lt_hp(outpre[y - 1], newentry.hash@, newentry.path@));
            assert(!entry_key_eq(outpre[y - 1], newentry));
            lemma_key_order_connected(outpre[y - 1], newentry.hash@, newentry.path@);
            assert(hp_lt_key(newentry.hash@, newentry.path@, outpre[y - 1]));
        }
        assert forall|x: int, y: int|
            0 <= x < y < out@.len() implies #[trigger] entry_lt(out@[x], out@[y]) by {
            if y < i {
            } else if x > i {
            } else if y == i {
                assert(entry_lt(out@[x], out@[i as int]));
            } else if x == i {
                assert(entry_lt(out@[i as int], out@[y]));
            }
        }
    }
    Ok(i)
}

/// A key no index entry holds was never delivered by a processed message.
proof fn lemma_key_fresh(
    msgs: Seq<Message>,
    base: Seq<u8>,
    idx: int,
    out: Seq<Entry>,
    h: Seq<u8>,
    p: Seq<u8>,
)
    requires
        0 <= idx < msgs.len(),
        msgs[idx] is Hash,
        path_under(base, msgs[idx]->Hash_1@),
        h == msgs[idx]->Hash_0@,
        p == rel_of(base, msgs[idx]->Hash_1@),
        forall|i2: int|
            0 <= i2 < idx && (#[trigger] msgs[i2]) is Hash ==> exists|k: int|
                0 <= k < out.len() && out[k].hash@ == msgs[i2]->Hash_0@ && out[k].path@
                    == rel_of(base, msgs[i2]->Hash_1@),
        forall|k: int| 0 <= k < out.len() ==> !((#[trigger] out[k]).hash@ == h && out[k].path@ == p),
    ensures
        !msg_bad(msgs, base, idx),
{
    assert forall|j: int| 0 <= j < idx implies !#[trigger] hash_key_at(msgs, base, j, h, p) by {
        if hash_key_at(msgs, base, j, h, p) {
            let k = choose|k: int|
                0 <= k < out.len() && out[k].hash@ == msgs[j]->Hash_0@ && out[k].path@ == rel_of(
                    base,
                    msgs[j]->Hash_1@,
                );
            assert(out[k].hash@ == h && out[k].path@ == p);
        }
    }
}

/// The index/message correspondence survives one sorted insertion:
/// every index entry still traces back to a processed message.
proof fn lemma_accum_insert_sound(
    msgs: Seq<Message>,
    base: Seq<u8>,
    idx: int,
    outpre: Seq<Entry>,
    outnew: Seq<Entry>,
    i: int,
    entry: Entry,
)
    requires
        0 <= idx < msgs.len(),
        msgs[idx] is Hash,
        path_under(base, msgs[idx]->Hash_1@),
        entry.hash@ == msgs[idx]->Hash_0@,
        entry.path@ == rel_of(base, msgs[idx]->Hash_1@),
        0 <= i <= outpre.len(),
        outnew.len() == outpre.len() + 1,
        forall|k: int| 0 <= k < i ==> outnew[k] == outpre[k],
        outnew[i] == entry,
        forall|k: int| i < k < outnew.len() ==> outnew[k] == outpre[k - 1],
        forall|k: int|
            #![trigger outpre[k]]
            0 <= k < outpre.len() ==> exists|i2: int|
                0 <= i2 < idx && #[trigger] hash_key_at(
                    msgs,
                    base,
                    i2,
                    outpre[k].hash@,
                    outpre[k].path@,
                ),
    ensures
        forall|k: int|
            #![trigger outnew[k]]
            0 <= k < outnew.len() ==> exists|i2: int|
                0 <= i2 < idx + 1 && #[trigger] hash_key_at(
                    msgs,
                    base,
                    i2,
                    outnew[k].hash@,
                    outnew[k].path@,
                ),
{
    assert(hash_key_at(msgs, base, idx, entry.hash@, entry.path@));
    assert forall|k: int|
        #![trigger outnew[k]]
        0 <= k < outnew.len() implies exists|i2: int|
        0 <= i2 < idx + 1 && #[trigger] hash_key_at(
            msgs,
            base,
            i2,
            outnew[k].hash@,
            outnew[k].path@,
        ) by {
        if k == i {
            assert(hash_key_at(msgs, base, idx, outnew[k].hash@, outnew[k].path@));
        } else if k < i {
            assert(outnew[k] == outpre[k]);
        } else {
            assert(outnew[k] == outpre[k - 1]);
        }
    }
}

/// The index/message correspondence survives one sorted insertion:
/// every processed hash message still has its entry in the index.
proof fn lemma_accum_insert_complete(
    msgs: Seq<Message>,
    base: Seq<u8>,
    idx: int,
    outpre: Seq<Entry>,
    outnew: Seq<Entry>,
    i: int,
    entry: Entry,
)
    requires
        0 <= idx < msgs.len(),
        msgs[idx] is Hash,
        path_under(base, msgs[idx]->Hash_1@),
        entry.hash@ == msgs[idx]->Hash_0@,
        entry.path@ == rel_of(base, msgs[idx]->Hash_1@),
        0 <= i <= outpre.len(),
        outnew.len() == outpre.len() + 1,
        forall|k: int| 0 <= k < i ==> outnew[k] == outpre[k],
        outnew[i] == entry,
        forall|k: int| i < k < outnew.len() ==> outnew[k] == outpre[k - 1],
        forall|i2: int|
            0 <= i2 < idx && (#[trigger] msgs[i2]) is Hash ==> exists|k: int|
                0 <= k < outpre.len() && outpre[k].hash@ == msgs[i2]->Hash_0@ && outpre[k].path@
                    == rel_of(base, msgs[i2]->Hash_1@),
    ensures
        forall|i2: int|
            0 <= i2 < idx + 1 && (#[trigger] msgs[i2]) is Hash ==> exists|k: int|
                0 <= k < outnew.len() && outnew[k].hash@ == msgs[i2]->Hash_0@ && outnew[k].path@
                    == rel_of(base, msgs[i2]->Hash_1@),
{
    assert forall|i2: int|
        0 <= i2 < idx + 1 && (#[trigger] msgs[i2]) is Hash implies exists|k: int|
        0 <= k < outnew.len() && outnew[k].hash@ == msgs[i2]->Hash_0@ && outnew[k].path@ == rel_of(
            base,
            msgs[i2]->Hash_1@,
        ) by {
        if i2 == idx {
            assert(outnew[i].hash@ == msgs[i2]->Hash_0@);
            assert(outnew[i].path@ == rel_of(base, msgs[i2]->Hash_1@));
        } else {
            let k = choose|k: int|
                0 <= k < outpre.len() && outpre[k].hash@ == msgs[i2]->Hash_0@ && outpre[k].path@
                    == rel_of(base, msgs[i2]->Hash_1@);
            if k < i {
                assert(outnew[k] == outpre[k]);
            } else {
                assert(outnew[k + 1] == outpre[k]);
            }
        }
    }
}

pub fn accumulate(messages: &[Message], base: &[u8]) -> (r: Result<Vec<Entry>, Error>)
    ensures
        r is Ok <==> msgs_good(messages@, base@),
        r is Ok ==> {
            let es = r->Ok_0@;
            &&& entries_sorted(es)
            &&& forall|k: int| 0 <= k < es.len() ==> (#[trigger] es[k]).status is Unique
            &&& forall|k: int|
                #![trigger es[k]]
                0 <= k < es.len() ==> exists|i: int|
                    0 <= i < messages@.len() && #[trigger] hash_key_at(
                        messages@,
                        base@,
                        i,
                        es[k].hash@,
                        es[k].path@,
                    )
            &&& forall|i: int|
                0 <= i < messages@.len() && (#[trigger] messages@[i]) is Hash ==> exists|k: int|
                    0 <= k < es.len() && es[k].hash@ == messages@[i]->Hash_0@ && es[k].path@
                        == rel_of(base@, messages@[i]->Hash_1@)
        },
        r is Err ==> exists|i: int|
            0 <= i < messages@.len() && #[trigger] msg_bad(messages@, base@, i) && (forall|j: int|
                0 <= j < i ==> !#[trigger] msg_bad(messages@, base@, j)) && err_describes(
                messages@,
                base@,
                i,
                r->Err_0,
            ),
{
    let mut out: Vec<Entry> = Vec::new();
    let mut idx: usize = 0;
    while idx < messages.len()
        invariant
            idx <= messages@.len(),
            forall|j: int| 0 <= j < idx ==> !#[trigger] msg_bad(messages@, base@, j),
            entries_sorted(out@),
            forall|k: int| 0 <= k < out@.len() ==> (#[trigger] out@[k]).status is Unique,
            forall|k: int|
                #![trigger out@[k]]
                0 <= k < out@.len() ==> exists|i: int|
                    0 <= i < idx && #[trigger] hash_key_at(
                        messages@,
                        base@,
                        i,
                        out@[k].hash@,
                        out@[k].path@,
                    ),
            forall|i: int|
                0 <= i < idx && (#[trigger] messages@[i]) is Hash ==> exists|k: int|
                    0 <= k < out@.len() && out@[k].hash@ == messages@[i]->Hash_0@ && out@[k].path@
                        == rel_of(base@, messages@[i]->Hash_1@),
        decreases messages@.len() - idx,
    {
        match &messages[idx] {
            Message::Queued => {
                proof {
                    assert(!msg_bad(messages@, base@, idx as int));
                }
            },
            Message::Done => {
                proof {
                    assert(!msg_bad(messages@, base@, idx as int));
                }
            },
            Message::Error(e) => {
                proof {
                    assert(msg_bad(messages@, base@, idx as int));
                }
                return Err(clone_error(e));
            },
            Message::Hash(h, path) => {
                let entry = match Entry::new(path.as_slice(), base, *h) {
                    Some(entry) => entry,
                    None => {
                        proof {
                            assert(msg_bad(messages@, base@, idx as int));
                        }
                        return Err(Error::StripPrefix(
                            clone_bytes(base),
                            clone_bytes(path.as_slice()),
                        ));
                    },
                };
                let ghost outpre = out@;
                let ghost newentry = entry;
                let rel = clone_bytes(entry.path.as_slice());
                match insert_sorted(&mut out, entry) {
                    Ok(i) => {
                        proof {
                            assert forall|k: int|
                                0 <= k < outpre.len() implies !((#[trigger] outpre[k]).hash@
                                == newentry.hash@ && outpre[k].path@ == newentry.path@) by {
                                if outpre[k].hash@ == newentry.hash@ && outpre[k].path@
                                    == newentry.path@ {
                                    assert(entry_key_eq(outpre[k], newentry));
                                }
                            }
                            lemma_key_fresh(
                                messages@,
                                base@,
                                idx as int,
                                outpre,
                                newentry.hash@,
                                newentry.path@,
                            );
                            lemma_accum_insert_sound(
                                messages@,
                                base@,
                                idx as int,
                                outpre,
                                out@,
                                i as int,
                                newentry,
                            );
                            lemma_accum_insert_complete(
                                messages@,
                                base@,
                                idx as int,
                                outpre,
                                out@,
                                i as int,
                                newentry,
                            );
                            assert forall|k: int|
                                0 <= k < out@.len() implies (#[trigger] out@[k]).status
                                is Unique by {
                                if k < i as int {
                                    assert(out@[k] == outpre[k]);
                                } else if k > i as int {
                                    assert(out@[k] == outpre[k - 1]);
                                }
                            }
                        }
                    },
                    Err(()) => {
                        proof {
                            let k = choose|k: int|
                                0 <= k < outpre.len() && #[trigger] entry_key_eq(
                                    outpre[k],
                                    newentry,
                                );
                            assert(msg_bad(messages@, base@, idx as int));
                        }
                        return Err(Error::FullCollision(rel));
                    },
                }
            },
        }
        idx = idx + 1;
    }
    Ok(out)
}

/// Decides whether the entries are strictly sorted in entry order — the
/// check the crawl runs on every finished index.
pub fn is_sorted(entries: &Vec<Entry>) -> (r: bool)
    ensures
        r == entries_sorted(entries@),
{
    let mut k: usize = 1;
    if entries.len() == 0 {
        return true;
    }
    while k < entries.len()
        invariant
            1 <= k <= entries@.len(),
            forall|x: int| 0 < x < k ==> #[trigger] entry_lt(entries@[x - 1], entries@[x]),
        decreases entries@.len() - k,
    {
        if !entries[k - 1].lt(&entries[k]) {
            proof {
                assert(!entry_lt(entries@[k - 1], entries@[k as int]));
            }
            return false;
        }
        k = k + 1;
    }
    proof {
        crate::entry::lemma_sorted_from_adjacent(entries@);
    }
    true
}

} // verus!
