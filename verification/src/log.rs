//! The log engine: append, clear, the reverse cursor, the "K most recent
//! distinct" query, and the deduplicating compaction policy.
//!
//! The engine operates on the log file's image as a byte vector, together
//! with the seek offset of the file handle, so every byte written and every
//! offset the handle rests at is computed by verified code.  An I/O layer
//! owning a real file mirrors each operation one-to-one; the byte image
//! here is the contract for what that file holds.

use vstd::prelude::*;

use crate::codec;
use crate::codec::{log_bytes, record_bytes, wf_entries, LogError, MAX_ENTRY_LEN};
use crate::recent::{dedup_step, Collector};

verus! {

/// The log engine: the file image and the handle's seek offset.
///
/// Loading never validates that the image is a well-formed log; the walking
/// operations require it, as a walk over a non-conforming image is
/// undefined.
pub struct Log {
    data: Vec<u8>,
    handle: usize,
}

impl Log {
    /// The bytes of the file image.
    pub closed spec fn bytes(&self) -> Seq<u8> {
        self.data@
    }

    /// The current seek offset of the handle.
    pub closed spec fn handle(&self) -> int {
        self.handle as int
    }

    /// The image is a legal concatenation of records.
    pub open spec fn wf(&self) -> bool {
        exists|es: Seq<Seq<u8>>| wf_entries(es) && self.bytes() == log_bytes(es)
    }

    /// The entries of a well-formed image, oldest first.
    pub open spec fn records(&self) -> Seq<Seq<u8>> {
        choose|es: Seq<Seq<u8>>| wf_entries(es) && self.bytes() == log_bytes(es)
    }

    /// Bind the engine to the current contents of a log file.  The contents
    /// are not validated.
    pub fn load(data: Vec<u8>) -> (log: Log)
        ensures
            log.bytes() == data@,
            log.handle() == 0,
    {
        Log { data, handle: 0 }
    }

    /// Append one entry as a record at the end of the image, or reject it as
    /// too large, leaving the image unmodified.
    pub fn append(&mut self, entry: &[u8]) -> (r: Result<(), LogError>)
        ensures
            entry@.len() <= MAX_ENTRY_LEN <==> r is Ok,
            r is Ok ==> final(self).bytes() == old(self).bytes() + record_bytes(entry@),
            r is Ok ==> final(self).handle() == final(self).bytes().len(),
            r is Err ==> *final(self) == *old(self) && r->Err_0 == LogError::EntryTooLarge,
            old(self).wf() && entry@.len() <= MAX_ENTRY_LEN ==> final(self).wf()
                && final(self).records() == old(self).records().push(entry@),
    {
        match codec::encode(entry) {
            Err(e) => Err(e),
            Ok(rec) => {
                let mut rec = rec;
                self.data.append(&mut rec);
                self.handle = self.data.len();
                proof {
                    if old(self).wf() {
                        let es = old(self).records();
                        codec::lemma_log_bytes_push(es, entry@);
                        lemma_log_is(*self, es.push(entry@));
                    }
                }
                Ok(())
            },
        }
    }

    /// Truncate the image to zero length and move the handle to offset 0.
    pub fn clear(&mut self)
        ensures
            final(self).bytes() == Seq::<u8>::empty(),
            final(self).handle() == 0,
            final(self).wf(),
            final(self).records() == Seq::<Seq<u8>>::empty(),
    {
        self.handle = 0;
        self.data.clear();
        proof {
            lemma_log_is(*self, Seq::<Seq<u8>>::empty());
        }
    }

    /// Give up the engine and hand back the file image it holds: the bytes
    /// an I/O layer must persist.
    pub fn into_bytes(self) -> (r: Vec<u8>)
        ensures
            r@ == self.bytes(),
    {
        self.data
    }

    /// The current seek offset of the handle, as the compaction policy reads
    /// it.
    pub fn position(&self) -> (r: u64)
        ensures
            r == self.handle(),
    {
        self.handle as u64
    }
}

/// A well-formed image decomposes into entries in exactly one way; `es` is
/// that decomposition.
pub proof fn lemma_log_is(log: Log, es: Seq<Seq<u8>>)
    requires
        wf_entries(es),
        log.bytes() == log_bytes(es),
    ensures
        log.wf(),
        log.records() == es,
{
    assert(log.wf());
    let es2 = log.records();
    codec::lemma_log_bytes_injective(es2, es);
}

/// The walk is exhausted when `j` records remain unread: either none
/// remain, or only the very first record does and it is empty, so that its
/// trailer sits at offset 0 — the offset the cursor reserves for
/// "exhausted".
pub open spec fn exhausted_at(es: Seq<Seq<u8>>, j: int) -> bool {
    j <= 0 || (j == 1 && es[0].len() == 0)
}

/// The entries collected by the backward walk, continued from the state
/// where `j` records remain unread and `acc` has been collected: the walk
/// stops once `acc` holds `count` entries or the cursor is exhausted, and
/// otherwise consumes record `j - 1` (the newest unread one).
pub open spec fn walk_result(es: Seq<Seq<u8>>, j: int, acc: Seq<Seq<u8>>, count: int) -> Seq<
    Seq<u8>,
>
    decreases j,
{
    if acc.len() >= count || exhausted_at(es, j) {
        acc
    } else {
        walk_result(es, j - 1, dedup_step(acc, es[j - 1]), count)
    }
}

/// The number of records left unread when the walk stops.
pub open spec fn walk_stop(es: Seq<Seq<u8>>, j: int, acc: Seq<Seq<u8>>, count: int) -> int
    decreases j,
{
    if acc.len() >= count || exhausted_at(es, j) {
        j
    } else {
        walk_stop(es, j - 1, dedup_step(acc, es[j - 1]), count)
    }
}

/// The `count` most recent distinct text entries of a log holding `es`,
/// most-recent-first.
pub open spec fn recent_entries(es: Seq<Seq<u8>>, count: int) -> Seq<Seq<u8>> {
    walk_result(es, es.len() as int, Seq::empty(), count)
}

/// How many records a full query walk leaves unread.
pub open spec fn stop_index(es: Seq<Seq<u8>>, count: int) -> int {
    walk_stop(es, es.len() as int, Seq::empty(), count)
}

/// The seek offset the handle rests at after a query walk over a nonempty
/// well-formed log: the trailer offset of the last record read — or of the
/// first record of the file, if the walk read past it.
pub open spec fn final_position(es: Seq<Seq<u8>>, count: int) -> int {
    let j = stop_index(es, count);
    let k = if j >= 1 {
        j
    } else {
        1
    };
    log_bytes(es.take(k)).len() - 2
}

/// The entries compaction retains, oldest first: the recent distinct
/// entries, re-appended in chronological order.
pub open spec fn retained(es: Seq<Seq<u8>>, count: int) -> Seq<Seq<u8>> {
    recent_entries(es, count).reverse()
}

impl Log {
    /// Start a backward walk: seek to end-of-file minus the 2-byte trailer
    /// (or leave the handle alone if the file is too short to hold one) and
    /// return a cursor positioned at the newest record's trailer.
    pub fn iter(&mut self) -> (it: Iter)
        requires
            old(self).wf(),
        ensures
            final(self).bytes() == old(self).bytes(),
            it.wf_for(*final(self)),
            it.index() == old(self).records().len(),
            final(self).handle() == if old(self).bytes().len() >= 2 {
                old(self).bytes().len() - 2
            } else {
                old(self).handle()
            },
    {
        let ghost es = self.records();
        proof {
            codec::lemma_log_bytes_len(es);
            if es.len() > 0 {
                lemma_pos_zero(es, es.len() as int);
                assert(es.take(es.len() as int) =~= es);
            }
        }
        let flen = self.data.len();
        if flen >= 2 {
            self.handle = flen - 2;
            Iter { pos: (flen - 2) as u64, j: Ghost(es.len() as int) }
        } else {
            Iter { pos: 0, j: Ghost(0) }
        }
    }
}

/// A reverse cursor over a log: yields records newest first, one owned
/// payload per step, in O(1) seeks per record.
pub struct Iter {
    pos: u64,
    j: Ghost<int>,
}

impl Iter {
    /// How many records are still unread: the walk has yielded records
    /// `index()`, `index() + 1`, ... and will yield `index() - 1` next.
    pub closed spec fn index(&self) -> int {
        self.j@
    }

    /// The cursor's byte offset: the trailer offset of the newest unread
    /// record, or 0 when exhausted.
    pub closed spec fn pos_of(&self) -> int {
        self.pos as int
    }

    /// The cursor is bound to a well-formed log, sits at a record boundary,
    /// and, while records remain, the handle is parked at the cursor.
    pub open spec fn wf_for(&self, log: Log) -> bool {
        &&& log.wf()
        &&& 0 <= self.index() <= log.records().len()
        &&& self.pos_of() == if self.index() == 0 {
            0int
        } else {
            log_bytes(log.records().take(self.index())).len() - 2
        }
        &&& self.pos_of() != 0 ==> log.handle() == self.pos_of()
    }

    /// Read the previous record, newest unread first; `None` once the walk
    /// is exhausted.
    pub fn prev(&mut self, log: &mut Log) -> (r: Option<Vec<u8>>)
        requires
            old(self).wf_for(*old(log)),
        ensures
            final(self).wf_for(*final(log)),
            final(log).bytes() == old(log).bytes(),
            ({
                let es = old(log).records();
                let j = old(self).index();
                if exhausted_at(es, j) {
                    &&& r is None
                    &&& *final(self) == *old(self)
                    &&& *final(log) == *old(log)
                } else {
                    &&& r matches Some(v) && v@ == es[j - 1]
                    &&& final(self).index() == j - 1
                    &&& final(log).handle() == log_bytes(
                        es.take(if j - 1 >= 1 { j - 1 } else { 1 }),
                    ).len() - 2
                }
            }),
    {
        let ghost es = log.records();
        let ghost j = self.j@;
        proof {
            if j >= 1 {
                lemma_pos_zero(es, j);
            }
        }
        if self.pos == 0 {
            return None;
        }
        proof {
            // The cursor sits at the trailer of record j - 1; relate the
            // image's bytes there to that record.
            codec::lemma_log_bytes_split(es, j);
            codec::lemma_log_bytes_len(es.skip(j));
            codec::lemma_last_trailer(es.take(j));
            codec::lemma_last_payload(es.take(j));
            codec::lemma_trailer_roundtrip(es[j - 1].len());
            assert(es.take(j).last() == es[j - 1]);
            assert(es.take(j).drop_last() =~= es.take(j - 1));
            codec::lemma_log_bytes_len(es.take(j - 1));
        }
        let pos = self.pos as usize;
        let ghost plen = es[j - 1].len() as int;
        let ghost lj = log_bytes(es.take(j)).len() as int;
        // pos + 2 == lj <= data.len(), and the bytes below lj are those of
        // the first j records.
        assert(forall|i: int|
            0 <= i < lj ==> log.bytes()[i] == log_bytes(es.take(j))[i]);
        let flen = log.data.len();
        assert(pos + 2 <= flen);
        let lo = log.data[pos];
        let hi = log.data[pos + 1];
        let len = codec::decode_trailer(lo, hi) as usize;
        assert(len == plen);
        let start = pos - len;
        assert(start == log_bytes(es.take(j - 1)).len());
        let mut buf: Vec<u8> = Vec::new();
        let mut i = start;
        while i < pos
            invariant
                start <= i <= pos,
                pos + 2 <= log.bytes().len(),
                buf@ == log.bytes().subrange(start as int, i as int),
            decreases pos - i,
        {
            buf.push(log.data[i]);
            i += 1;
            proof {
                assert(buf@ =~= log.bytes().subrange(start as int, i as int));
            }
        }
        proof {
            // The payload of record j - 1 sits in [start, pos).
            assert(log.bytes().subrange(start as int, pos as int) =~= log_bytes(
                es.take(j),
            ).subrange(lj - plen - 2, lj - 2));
            assert(buf@ == es[j - 1]);
        }
        if start >= 2 {
            self.pos = (start - 2) as u64;
            log.handle = start - 2;
            proof {
                self.j@ = j - 1;
                lemma_pos_zero(es, j - 1);
            }
        } else {
            // The seek past the first record of the file underflows: the
            // handle stays at the end of the payload just read and the walk
            // is exhausted.
            self.pos = 0;
            log.handle = pos;
            proof {
                self.j@ = j - 1;
                // start < 2 can only be start == 0, i.e. record 0 was read.
                codec::lemma_log_bytes_len(es.take(j - 1));
                assert(j - 1 == 0);
                assert(es.take(1) =~= es.take(j));
            }
        }
        Some(buf)
    }
}

/// Every entry is valid UTF-8 text.
pub open spec fn all_text(s: Seq<Seq<u8>>) -> bool {
    forall|i: int| 0 <= i < s.len() ==> vstd::utf8::valid_utf8(#[trigger] s[i])
}

/// What the walk collects: distinct, bounded text entries extending what
/// was already collected, never more than `count` of them (unless it
/// started with more).
pub proof fn lemma_walk_result_props(es: Seq<Seq<u8>>, j: int, acc: Seq<Seq<u8>>, count: int)
    requires
        wf_entries(es),
        0 <= j <= es.len(),
        acc.no_duplicates(),
        all_text(acc),
        wf_entries(acc),
    ensures
        ({
            let r = walk_result(es, j, acc, count);
            &&& r.no_duplicates()
            &&& all_text(r)
            &&& wf_entries(r)
            &&& acc.is_prefix_of(r)
            &&& r.len() <= if acc.len() >= count {
                acc.len() as int
            } else {
                count
            }
        }),
    decreases j,
{
    let r = walk_result(es, j, acc, count);
    if acc.len() >= count || exhausted_at(es, j) {
        assert(acc.is_prefix_of(r)) by {
            assert(acc.take(acc.len() as int) =~= acc);
        }
    } else {
        let acc2 = dedup_step(acc, es[j - 1]);
        assert(acc2.no_duplicates() && all_text(acc2) && wf_entries(acc2)) by {
            if vstd::utf8::valid_utf8(es[j - 1]) && !acc.contains(es[j - 1]) {
                assert(forall|i: int| 0 <= i < acc.len() ==> acc2[i] == acc[i]);
            }
        }
        lemma_walk_result_props(es, j - 1, acc2, count);
        assert(acc.is_prefix_of(r)) by {
            assert(acc.is_prefix_of(acc2)) by {
                assert(acc2.take(acc.len() as int) =~= acc);
            }
            assert(acc2.take(acc.len() as int) == acc);
            assert(r.take(acc2.len() as int) =~= acc2);
            assert(r.take(acc.len() as int) =~= acc2.take(acc.len() as int)) by {
                assert(forall|i: int|
                    0 <= i < acc.len() ==> r.take(acc.len() as int)[i] == #[trigger] r[i]);
            }
        }
    }
}

impl Log {
    /// The `count` most recent distinct text entries, most-recent-first.
    ///
    /// Walks the log backward, skipping entries that are not valid UTF-8
    /// text and duplicates of entries already seen, until `count` entries
    /// are at hand or the walk is exhausted.  The handle is left where the
    /// walk stopped; [`Log::position`] then measures the bytes of the file
    /// older than the retained window.
    pub fn entries(&mut self, count: usize) -> (r: Vec<Vec<u8>>)
        requires
            old(self).wf(),
        ensures
            final(self).bytes() == old(self).bytes(),
            final(self).wf(),
            r.deep_view() == recent_entries(old(self).records(), count as int),
            forall|i: int| 0 <= i < r@.len() ==> (#[trigger] r@[i])@.len() <= MAX_ENTRY_LEN,
            final(self).handle() == if old(self).records().len() == 0 {
                old(self).handle()
            } else {
                final_position(old(self).records(), count as int)
            },
    {
        let ghost es = self.records();
        let ghost h0 = self.handle();
        proof {
            codec::lemma_log_bytes_len(es);
        }
        let mut coll = Collector::new(count);
        let mut it = self.iter();
        proof {
            if es.len() > 0 {
                assert(es.take(es.len() as int) =~= es);
            }
        }
        loop
            invariant
                it.wf_for(*self),
                self.bytes() == log_bytes(es),
                wf_entries(es),
                self.records() == es,
                coll.limit() == count,
                walk_result(es, it.index(), coll@, count as int) == recent_entries(es, count as int),
                walk_stop(es, it.index(), coll@, count as int) == stop_index(es, count as int),
                es.len() > 0 ==> self.handle() == log_bytes(
                    es.take(if it.index() >= 1 { it.index() } else { 1 }),
                ).len() - 2,
                es.len() == 0 ==> self.handle() == h0 && it.index() == 0,
            ensures
                it.wf_for(*self),
                self.bytes() == log_bytes(es),
                coll@ == recent_entries(es, count as int),
                walk_stop(es, it.index(), coll@, count as int) == stop_index(es, count as int),
                coll@.len() >= count || exhausted_at(es, it.index()),
                es.len() > 0 ==> self.handle() == log_bytes(
                    es.take(if it.index() >= 1 { it.index() } else { 1 }),
                ).len() - 2,
                es.len() == 0 ==> self.handle() == h0,
            decreases it.index(),
        {
            if coll.full() {
                break ;
            }
            let nxt = it.prev(self);
            match nxt {
                None => {
                    break ;
                },
                Some(e) => {
                    coll.offer(e);
                },
            }
        }
        proof {
            // The walk stopped exactly where the stop index says.
            assert(walk_stop(es, it.index(), coll@, count as int) == it.index());
            lemma_walk_result_props(es, es.len() as int, Seq::empty(), count as int);
        }
        let r = coll.into_entries();
        proof {
            assert(forall|i: int|
                0 <= i < r@.len() ==> r.deep_view()[i] == (#[trigger] r@[i]).deep_view());
            assert(forall|i: int| 0 <= i < r@.len() ==> (#[trigger] r@[i]).deep_view() =~= r@[i]@);
        }
        r
    }

    /// Whether the walk left enough stale bytes behind to warrant
    /// compaction: strictly more than `threshold`.
    pub fn should_compact(position: u64, threshold: u64) -> (r: bool)
        ensures
            r == (position > threshold),
    {
        position > threshold
    }

    /// Rewrite the log to hold exactly `kept` (given most-recent-first) in
    /// chronological order: clear, re-append oldest first, leaving the
    /// handle at the end of the file.
    fn rewrite(&mut self, kept: &Vec<Vec<u8>>)
        requires
            forall|i: int| 0 <= i < kept@.len() ==> (#[trigger] kept@[i])@.len() <= MAX_ENTRY_LEN,
        ensures
            final(self).wf(),
            final(self).records() == kept.deep_view().reverse(),
            final(self).bytes() == log_bytes(kept.deep_view().reverse()),
            final(self).handle() == final(self).bytes().len(),
    {
        let ghost goal = kept.deep_view().reverse();
        self.clear();
        let mut i = kept.len();
        proof {
            assert(goal.take(0) =~= Seq::<Seq<u8>>::empty());
        }
        while i > 0
            invariant
                i <= kept.len(),
                forall|k: int| 0 <= k < kept@.len() ==> (#[trigger] kept@[k])@.len()
                    <= MAX_ENTRY_LEN,
                goal == kept.deep_view().reverse(),
                goal.len() == kept@.len(),
                self.wf(),
                self.records() == goal.take(kept@.len() - i),
                self.bytes() == log_bytes(goal.take(kept@.len() - i)),
                self.handle() == self.bytes().len(),
            decreases i,
        {
            i = i - 1;
            let e = &kept[i];
            let ghost before = self.records();
            let res = self.append(e.as_slice());
            proof {
                assert(e@ == kept@[i as int]@);
                assert(kept.deep_view()[i as int] =~= e@);
                assert(goal[kept@.len() - 1 - i] == e@);
                assert(res is Ok);
                assert(self.records() == before.push(e@));
                assert(goal.take(kept@.len() - i) =~= before.push(e@));
            }
        }
        proof {
            assert(goal.take(kept@.len() as int) =~= goal);
        }
    }

    /// Remove stale entries: keep only the `count` most recent distinct
    /// text entries, rewritten in chronological order.
    pub fn clean(&mut self, count: usize)
        requires
            old(self).wf(),
            count >= 1,
        ensures
            final(self).wf(),
            final(self).records() == retained(old(self).records(), count as int),
            final(self).bytes() == log_bytes(retained(old(self).records(), count as int)),
            final(self).handle() == final(self).bytes().len(),
    {
        let kept = self.entries(count);
        self.rewrite(&kept);
    }

    /// The query behind a report of the cache's contents: return the
    /// `count` most recent distinct text entries, and compact the log when
    /// the walk left strictly more than `threshold` stale bytes behind.
    pub fn get(&mut self, count: usize, threshold: u64) -> (r: Vec<Vec<u8>>)
        requires
            old(self).wf(),
            count >= 1,
        ensures
            final(self).wf(),
            r.deep_view() == recent_entries(old(self).records(), count as int),
            ({
                let es = old(self).records();
                let stale = if es.len() == 0 {
                    old(self).handle()
                } else {
                    final_position(es, count as int)
                };
                if stale > threshold {
                    final(self).records() == retained(es, count as int) && final(self).bytes()
                        == log_bytes(retained(es, count as int))
                } else {
                    final(self).bytes() == old(self).bytes() && final(self).handle() == stale
                }
            }),
    {
        let kept = self.entries(count);
        let pos = self.position();
        if Log::should_compact(pos, threshold) {
            self.rewrite(&kept);
        }
        kept
    }
}

/// A record's trailer offset is 0 exactly for the first record of the file
/// when that record is empty.
pub proof fn lemma_pos_zero(es: Seq<Seq<u8>>, j: int)
    requires
        1 <= j <= es.len(),
    ensures
        log_bytes(es.take(j)).len() >= 2,
        (log_bytes(es.take(j)).len() - 2 == 0) <==> (j == 1 && es[0].len() == 0),
{
    codec::lemma_log_bytes_len(es.take(j));
    if j == 1 {
        assert(es.take(1).drop_last() =~= Seq::<Seq<u8>>::empty());
        assert(es.take(1).last() == es[0]);
    }
}

} // verus!
