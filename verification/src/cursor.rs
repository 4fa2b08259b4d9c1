//! Planning one step of the backward walk for an external I/O driver.
//!
//! A driver that walks a real log file keeps only a trailer offset `pos`
//! (`0` means exhausted).  For each record it reads the two trailer bytes at
//! `pos` and asks [`plan_step`] where the payload starts, where the previous
//! record's trailer lies, and whether the seek back to it stays inside the
//! file — so the driver itself computes no offsets.

use vstd::prelude::*;

use crate::codec::LogError;

verus! {

/// One planned step of the backward walk, at trailer offset `pos`.
pub struct Step {
    /// The payload length read back from the trailer.
    pub len: u16,
    /// Offset of the first payload byte: `pos - len`.
    pub payload_start: u64,
    /// Trailer offset of the previous record, or `0` when the walk is done.
    pub next_pos: u64,
    /// Whether the seek back to `next_pos` lands inside the file.  When it
    /// does not, a driver mirrors the engine by leaving its handle where the
    /// payload read ended and treating the walk as exhausted.
    pub next_seek_ok: bool,
}

/// Plan the step that reads the record whose trailer sits at `pos`, given
/// the two trailer bytes.  Fails with [`LogError::Malformed`] when the
/// implied payload would start before the beginning of the file.
pub fn plan_step(pos: u64, lo: u8, hi: u8) -> (r: Result<Step, LogError>)
    requires
        pos >= 1,
    ensures
        ({
            let len = lo + 256 * (hi as int);
            &&& (len <= pos <==> r is Ok)
            &&& r is Ok ==> {
                let st = r->Ok_0;
                &&& st.len == len
                &&& st.payload_start == pos - len
                &&& st.next_seek_ok == (pos - len >= 2)
                &&& st.next_pos == if pos - len >= 2 {
                    pos - len - 2
                } else {
                    0
                }
            }
            &&& r is Err ==> r->Err_0 == LogError::Malformed
        }),
{
    let len = crate::codec::decode_trailer(lo, hi);
    if (len as u64) > pos {
        return Err(LogError::Malformed);
    }
    let payload_start = pos - (len as u64);
    if payload_start >= 2 {
        Ok(Step { len, payload_start, next_pos: payload_start - 2, next_seek_ok: true })
    } else {
        Ok(Step { len, payload_start, next_pos: 0, next_seek_ok: false })
    }
}

} // verus!
