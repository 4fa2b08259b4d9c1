//! The entry codec: the exact byte layout of one record and of a whole log.
//!
//! A record stores a payload `P` as `[ P bytes ][ u16 little-endian len(P) ]`;
//! a log file is a concatenation of zero or more records with no padding.

use vstd::prelude::*;

verus! {

/// Largest payload a record can carry: its length must fit the `u16` trailer.
pub const MAX_ENTRY_LEN: usize = 65535;

/// Errors of the log engine.
#[derive(Clone, Copy, Debug, PartialEq, Eq, Structural)]
pub enum LogError {
    /// A payload longer than [`MAX_ENTRY_LEN`] was rejected before any write.
    EntryTooLarge,
    /// A length trailer pointed outside the log; the walk was aborted.
    Malformed,
}

/// The two trailer bytes encoding a payload length `n <= MAX_ENTRY_LEN`,
/// little-endian.
pub open spec fn trailer_bytes(n: nat) -> Seq<u8> {
    seq![(n % 256) as u8, ((n / 256) % 256) as u8]
}

/// The on-disk encoding of one payload: the payload followed by its trailer.
pub open spec fn record_bytes(p: Seq<u8>) -> Seq<u8> {
    p + trailer_bytes(p.len())
}

/// The on-disk encoding of a whole log holding the entries `es`, oldest
/// first.
pub open spec fn log_bytes(es: Seq<Seq<u8>>) -> Seq<u8>
    decreases es.len(),
{
    if es.len() == 0 {
        Seq::empty()
    } else {
        log_bytes(es.drop_last()) + record_bytes(es.last())
    }
}

/// Every entry fits the `u16` length trailer.
pub open spec fn wf_entries(es: Seq<Seq<u8>>) -> bool {
    forall|i: int| 0 <= i < es.len() ==> (#[trigger] es[i]).len() <= MAX_ENTRY_LEN
}

/// Encode one entry as a record, or reject it as too large.
pub fn encode(entry: &[u8]) -> (r: Result<Vec<u8>, LogError>)
    ensures
        entry@.len() <= MAX_ENTRY_LEN <==> r is Ok,
        r is Ok ==> r->Ok_0@ == record_bytes(entry@),
        r is Err ==> r->Err_0 == LogError::EntryTooLarge,
{
    if entry.len() > MAX_ENTRY_LEN {
        return Err(LogError::EntryTooLarge);
    }
    let len: u16 = entry.len() as u16;
    let mut out: Vec<u8> = Vec::new();
    out.extend_from_slice(entry);
    out.push((len % 256) as u8);
    out.push((len / 256) as u8);
    proof {
        assert(out@ =~= record_bytes(entry@));
    }
    Ok(out)
}

/// Decode the two trailer bytes, little-endian, into the payload length.
pub fn decode_trailer(lo: u8, hi: u8) -> (n: u16)
    ensures
        n == lo + 256 * (hi as int),
        trailer_bytes(n as nat) == seq![lo, hi],
{
    let n: u16 = lo as u16 + 256 * (hi as u16);
    proof {
        lemma_trailer_of_parts(lo, hi);
        assert(trailer_bytes(n as nat) =~= seq![lo, hi]);
    }
    n
}

/// The little-endian split of `lo + 256 * hi` gives back `lo` and `hi`.
proof fn lemma_trailer_of_parts(lo: u8, hi: u8)
    ensures
        (lo + 256 * (hi as int)) % 256 == lo as int,
        (lo + 256 * (hi as int)) / 256 == hi as int,
{
    let l = lo as int;
    let h = hi as int;
    assert((l + 256 * h) % 256 == l && (l + 256 * h) / 256 == h) by (nonlinear_arith)
        requires
            0 <= l < 256,
            0 <= h < 256,
    ;
}

/// A payload length is recovered exactly from its trailer bytes.
pub proof fn lemma_trailer_roundtrip(n: nat)
    requires
        n <= MAX_ENTRY_LEN,
    ensures
        trailer_bytes(n)[0] + 256 * (trailer_bytes(n)[1] as int) == n,
{
    assert(n % 256 + 256 * ((n / 256) % 256) == n) by (nonlinear_arith)
        requires
            0 <= n <= 65535,
    ;
}

/// Appending one entry appends one record.
pub proof fn lemma_log_bytes_push(es: Seq<Seq<u8>>, p: Seq<u8>)
    ensures
        log_bytes(es.push(p)) == log_bytes(es) + record_bytes(p),
{
    assert(es.push(p).drop_last() =~= es);
    assert(es.push(p).last() == p);
}

/// The length of an encoded log: every record adds its payload length plus 2.
pub proof fn lemma_log_bytes_len(es: Seq<Seq<u8>>)
    ensures
        es.len() == 0 ==> log_bytes(es).len() == 0,
        es.len() > 0 ==> log_bytes(es).len() == log_bytes(es.drop_last()).len() + es.last().len() + 2,
        log_bytes(es).len() >= 2 * es.len(),
    decreases es.len(),
{
    if es.len() > 0 {
        lemma_log_bytes_len(es.drop_last());
    }
}

/// A log splits at any record boundary `j` into the bytes of its first `j`
/// entries followed by the bytes of the rest.
pub proof fn lemma_log_bytes_split(es: Seq<Seq<u8>>, j: int)
    requires
        0 <= j <= es.len(),
    ensures
        log_bytes(es) == log_bytes(es.take(j)) + log_bytes(es.skip(j)),
    decreases es.len() - j,
{
    if j == es.len() {
        assert(es.take(j) =~= es);
        assert(log_bytes(es.skip(j)) =~= Seq::<u8>::empty()) by {
            assert(es.skip(j) =~= Seq::<Seq<u8>>::empty());
        }
        assert(log_bytes(es) =~= log_bytes(es.take(j)) + log_bytes(es.skip(j)));
    } else {
        lemma_log_bytes_split(es, j + 1);
        // log_bytes(take(j+1)) == log_bytes(take(j)) + record_bytes(es[j])
        assert(es.take(j + 1) =~= es.take(j).push(es[j]));
        lemma_log_bytes_push(es.take(j), es[j]);
        // log_bytes(skip(j)) == record_bytes(es[j]) + log_bytes(skip(j+1))
        lemma_log_bytes_skip_first(es, j);
        assert(log_bytes(es) =~= log_bytes(es.take(j)) + log_bytes(es.skip(j)));
    }
}

/// Peeling the first remaining entry off the tail of a log.
proof fn lemma_log_bytes_skip_first(es: Seq<Seq<u8>>, j: int)
    requires
        0 <= j < es.len(),
    ensures
        log_bytes(es.skip(j)) == record_bytes(es[j]) + log_bytes(es.skip(j + 1)),
    decreases es.len() - j,
{
    let tail = es.skip(j);
    if tail.len() == 1 {
        assert(tail.drop_last() =~= Seq::<Seq<u8>>::empty());
        assert(es.skip(j + 1) =~= Seq::<Seq<u8>>::empty());
        assert(log_bytes(es.skip(j)) =~= record_bytes(es[j]) + log_bytes(es.skip(j + 1)));
    } else {
        assert(tail.drop_last() =~= es.take(es.len() - 1).skip(j));
        lemma_log_bytes_skip_first(es.take(es.len() - 1), j);
        assert(es.take(es.len() - 1).skip(j + 1) =~= es.skip(j + 1).drop_last());
        assert(es.take(es.len() - 1)[j] == es[j]);
        assert(log_bytes(es.skip(j + 1)) == log_bytes(es.skip(j + 1).drop_last()) + record_bytes(
            es.skip(j + 1).last(),
        ));
        assert(es.skip(j + 1).last() == es.last());
        assert(tail.last() == es.last());
        assert(log_bytes(es.skip(j)) =~= record_bytes(es[j]) + log_bytes(es.skip(j + 1)));
    }
}

/// Two well-formed logs with the same bytes hold the same entries: the
/// encoding is injective, because each record's length can be read back from
/// its trailer.
pub proof fn lemma_log_bytes_injective(es1: Seq<Seq<u8>>, es2: Seq<Seq<u8>>)
    requires
        wf_entries(es1),
        wf_entries(es2),
        log_bytes(es1) == log_bytes(es2),
    ensures
        es1 == es2,
    decreases es1.len(),
{
    lemma_log_bytes_len(es1);
    lemma_log_bytes_len(es2);
    if es1.len() == 0 {
        if es2.len() > 0 {
            assert(log_bytes(es2).len() >= 2);
        }
        assert(es1 =~= es2);
    } else if es2.len() == 0 {
        assert(log_bytes(es1).len() >= 2);
        assert(es1 =~= es2);
    } else {
        let b = log_bytes(es1);
        let n1 = es1.last().len();
        let n2 = es2.last().len();
        lemma_last_trailer(es1);
        lemma_last_trailer(es2);
        lemma_trailer_roundtrip(n1);
        lemma_trailer_roundtrip(n2);
        assert(n1 == n2);
        lemma_last_payload(es1);
        lemma_last_payload(es2);
        assert(es1.last() =~= es2.last());
        assert(log_bytes(es1.drop_last()) =~= log_bytes(es2.drop_last())) by {
            assert(log_bytes(es1.drop_last()) =~= b.take(b.len() - n1 - 2));
            assert(log_bytes(es2.drop_last()) =~= b.take(b.len() - n2 - 2));
        }
        lemma_log_bytes_injective(es1.drop_last(), es2.drop_last());
        assert(es1 =~= es2) by {
            assert(es1.drop_last() == es2.drop_last());
            assert(es1 =~= es1.drop_last().push(es1.last()));
            assert(es2 =~= es2.drop_last().push(es2.last()));
        }
    }
}

/// The last two bytes of a nonempty log are the trailer of its last entry.
pub proof fn lemma_last_trailer(es: Seq<Seq<u8>>)
    requires
        es.len() > 0,
    ensures
        log_bytes(es).len() >= 2,
        log_bytes(es)[log_bytes(es).len() - 2] == trailer_bytes(es.last().len())[0],
        log_bytes(es)[log_bytes(es).len() - 1] == trailer_bytes(es.last().len())[1],
{
    lemma_log_bytes_len(es);
    lemma_log_bytes_len(es.drop_last());
}

/// The bytes just before the final trailer are the last entry's payload.
pub proof fn lemma_last_payload(es: Seq<Seq<u8>>)
    requires
        es.len() > 0,
    ensures
        log_bytes(es).len() >= es.last().len() + 2,
        log_bytes(es).subrange(
            log_bytes(es).len() - es.last().len() - 2,
            log_bytes(es).len() - 2,
        ) == es.last(),
        log_bytes(es).take(log_bytes(es).len() - es.last().len() - 2) == log_bytes(es.drop_last()),
{
    lemma_log_bytes_len(es);
    lemma_log_bytes_len(es.drop_last());
    let b = log_bytes(es);
    let n = es.last().len() as int;
    assert(b.subrange(b.len() - n - 2, b.len() - 2) =~= es.last());
    assert(b.take(b.len() - n - 2) =~= log_bytes(es.drop_last()));
}

} // verus!
