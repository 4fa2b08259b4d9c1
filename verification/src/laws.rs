//! The laws the engine obeys, proved from the contracts the operations
//! state: round-tripping of one record, the order of the backward walk,
//! recency of deduplication, and idempotence of compaction.

use vstd::prelude::*;
use vstd::utf8::valid_utf8;

use crate::codec::{log_bytes, record_bytes, wf_entries, MAX_ENTRY_LEN};
use crate::log::{
    all_text, exhausted_at, lemma_walk_result_props, recent_entries, retained, walk_result, Log,
};
use crate::recent::dedup_step;

verus! {

/// Round-trip: appending an entry `p` writes `record_bytes(p)`, the bytes
/// so written decompose only as the old entries followed by `p`, and —
/// unless the whole log is the single empty record, whose trailer sits at
/// the offset the cursor reserves for "exhausted" — one step of the
/// backward walk yields back exactly `p`.
pub proof fn lemma_round_trip(es: Seq<Seq<u8>>, p: Seq<u8>)
    requires
        wf_entries(es),
        p.len() <= MAX_ENTRY_LEN,
    ensures
        log_bytes(es.push(p)) == log_bytes(es) + record_bytes(p),
        forall|es2: Seq<Seq<u8>>|
            wf_entries(es2) && log_bytes(es2) == log_bytes(es) + record_bytes(p) ==> es2 == es.push(
                p,
            ),
        es.len() + p.len() > 0 ==> {
            let full = es.push(p);
            &&& !exhausted_at(full, full.len() as int)
            &&& full[full.len() - 1] == p
        },
{
    crate::codec::lemma_log_bytes_push(es, p);
    assert forall|es2: Seq<Seq<u8>>|
        wf_entries(es2) && log_bytes(es2) == log_bytes(es) + record_bytes(p) implies es2
        == es.push(p) by {
        crate::codec::lemma_log_bytes_injective(es2, es.push(p));
    }
}

/// The full yield sequence of a backward walk started with `j` records
/// unread: while not exhausted, each step yields the newest unread record.
pub open spec fn walk_seq(es: Seq<Seq<u8>>, j: int) -> Seq<Seq<u8>>
    decreases j,
{
    if exhausted_at(es, j) {
        Seq::empty()
    } else {
        seq![es[j - 1]] + walk_seq(es, j - 1)
    }
}

/// Order: a full backward walk yields the appended entries in reverse
/// append order — newest first — whatever the entries hold.  The first
/// entry of the file must not be empty: an empty first record's trailer
/// sits at offset 0, which the cursor reads as "exhausted".
pub proof fn lemma_cursor_order(es: Seq<Seq<u8>>)
    requires
        es.len() > 0 ==> es[0].len() > 0,
    ensures
        walk_seq(es, es.len() as int) == es.reverse(),
{
    lemma_cursor_order_aux(es, es.len() as int);
    assert(es.take(es.len() as int) =~= es);
}

/// The inductive step behind [`lemma_cursor_order`]: from `j` records
/// unread, the walk yields the first `j` entries reversed.
proof fn lemma_cursor_order_aux(es: Seq<Seq<u8>>, j: int)
    requires
        0 <= j <= es.len(),
        es.len() > 0 ==> es[0].len() > 0,
    ensures
        walk_seq(es, j) == es.take(j).reverse(),
    decreases j,
{
    if exhausted_at(es, j) {
        assert(j == 0);
        assert(es.take(0).reverse() =~= Seq::<Seq<u8>>::empty());
    } else {
        lemma_cursor_order_aux(es, j - 1);
        assert(seq![es[j - 1]] + es.take(j - 1).reverse() =~= es.take(j).reverse());
    }
}

/// Order of the deduplicating query: when every entry is distinct text and
/// `count` asks for at least all of them, the query returns exactly the
/// entries in reverse append order — newest first.  The first entry of the
/// file must not be empty:
/// an empty first record's trailer sits at offset 0, which the cursor
/// reads as "exhausted".
pub proof fn lemma_walk_order(es: Seq<Seq<u8>>, count: int)
    requires
        wf_entries(es),
        all_text(es),
        es.no_duplicates(),
        count >= es.len(),
        es.len() > 0 ==> es[0].len() > 0,
    ensures
        recent_entries(es, count) == es.reverse(),
{
    assert(es.skip(es.len() as int).reverse() =~= Seq::<Seq<u8>>::empty());
    lemma_walk_order_aux(es, es.len() as int, count);
}

/// The inductive step behind [`lemma_walk_order`]: continuing the walk
/// with `j` records unread, having collected the newer records in reverse
/// order, ends with all of `es` reversed.
proof fn lemma_walk_order_aux(es: Seq<Seq<u8>>, j: int, count: int)
    requires
        wf_entries(es),
        all_text(es),
        es.no_duplicates(),
        count >= es.len(),
        es.len() > 0 ==> es[0].len() > 0,
        0 <= j <= es.len(),
    ensures
        walk_result(es, j, es.skip(j).reverse(), count) == es.reverse(),
    decreases j,
{
    let acc = es.skip(j).reverse();
    assert(acc.len() == es.len() - j);
    if j == 0 {
        assert(es.skip(0) =~= es);
    } else {
        assert(!exhausted_at(es, j));
        assert(acc.len() < count);
        let e = es[j - 1];
        assert(valid_utf8(e));
        assert(!acc.contains(e)) by {
            assert(forall|i: int| 0 <= i < acc.len() ==> acc[i] == es[es.len() - 1 - i]);
            if acc.contains(e) {
                let i = choose|i: int| 0 <= i < acc.len() && acc[i] == e;
                assert(es[es.len() - 1 - i] == es[j - 1]);
            }
        }
        assert(dedup_step(acc, e) =~= es.skip(j - 1).reverse());
        lemma_walk_order_aux(es, j - 1, count);
    }
}

/// Dedup recency: after appending `a, b, a, c`, the three most recent
/// distinct entries are `c, a, b` — the *most recent* occurrence of `a`
/// determines its rank.
pub proof fn lemma_dedup_recency(a: Seq<u8>, b: Seq<u8>, c: Seq<u8>)
    requires
        valid_utf8(a),
        valid_utf8(b),
        valid_utf8(c),
        a != b,
        a != c,
        b != c,
    ensures
        recent_entries(seq![a, b, a, c], 3) == seq![c, a, b],
{
    let es = seq![a, b, a, c];
    assert(walk_result(es, 4, Seq::empty(), 3) == walk_result(es, 3, seq![c], 3)) by {
        assert(dedup_step(Seq::empty(), c) =~= seq![c]);
    }
    assert(walk_result(es, 3, seq![c], 3) == walk_result(es, 2, seq![c, a], 3)) by {
        assert(dedup_step(seq![c], a) =~= seq![c, a]);
    }
    assert(walk_result(es, 2, seq![c, a], 3) == walk_result(es, 1, seq![c, a, b], 3)) by {
        assert(!seq![c, a].contains(b)) by {
            assert(forall|i: int| 0 <= i < 2 ==> seq![c, a][i] == c || seq![c, a][i] == a);
        }
        assert(dedup_step(seq![c, a], b) =~= seq![c, a, b]);
    }
    assert(walk_result(es, 1, seq![c, a, b], 3) == seq![c, a, b]);
}

/// Idempotence of compaction: compacting a compacted log once more, with
/// the same count and no intervening appends, retains exactly the same
/// entries — so the rewritten file is byte-identical.  The one exception is
/// a retained window whose oldest entry is the empty entry: rewritten to
/// the front of the file, its trailer lands on offset 0 and the next walk
/// skips it.
pub proof fn lemma_compaction_idempotent(es: Seq<Seq<u8>>, count: int)
    requires
        wf_entries(es),
    ensures
        ({
            let r = retained(es, count);
            (r.len() == 0 || r[0].len() > 0) ==> retained(r, count) == r
        }),
{
    let d = recent_entries(es, count);
    let r = retained(es, count);
    lemma_walk_result_props(es, es.len() as int, Seq::empty(), count);
    assert(r.len() == d.len());
    if r.len() == 0 {
        assert(recent_entries(r, count) == Seq::<Seq<u8>>::empty());
        assert(retained(r, count) =~= r);
    } else if r[0].len() > 0 {
        assert(wf_entries(r) && all_text(r) && r.no_duplicates()) by {
            assert(forall|i: int| 0 <= i < r.len() ==> r[i] == d[d.len() - 1 - i]);
        }
        assert(count >= r.len()) by {
            assert(d.len() <= if Seq::<Seq<u8>>::empty().len() >= count {
                0int
            } else {
                count
            });
        }
        lemma_walk_order(r, count);
        assert(r.reverse() =~= d);
        assert(retained(r, count) =~= r);
    }
}

/// Truncation: a cleared log holds no records, so a fresh backward walk is
/// exhausted at once; together with [`Log::clear`] leaving the handle at
/// offset 0, a query right after `clear` reports nothing and reads
/// position 0.
pub proof fn lemma_truncation(log: Log)
    requires
        log.bytes() == Seq::<u8>::empty(),
    ensures
        log.wf(),
        log.records() == Seq::<Seq<u8>>::empty(),
        exhausted_at(log.records(), log.records().len() as int),
        recent_entries(log.records(), log.records().len() as int) == Seq::<Seq<u8>>::empty(),
{
    crate::log::lemma_log_is(log, Seq::<Seq<u8>>::empty());
}

} // verus!
