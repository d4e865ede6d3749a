//! How queries end: what they report, and what follows.

use crate::event::{
    BootstrapOk, GetRecordError, GetRecordOk, PutRecordError, PutRecordOk,
};
use crate::nearest::Peer;
use crate::query::ProgressStep;
use vstd::prelude::*;

verus! {

/// A count as a 32-bit number, held at the largest that fits.
pub open spec fn capped_u32(n: nat) -> u32 {
    if n > u32::MAX {
        u32::MAX
    } else {
        n as u32
    }
}

/// What a bootstrap does when one of its lookups is done.
pub struct BootstrapProgress {
    /// What is reported: the peer that was looked up, and the number of
    /// lookups that are yet to do.
    pub event: BootstrapOk,
    /// The step of the report. It is the last when no lookup is left.
    pub step: ProgressStep,
    /// The peer to look up next, with the peers to look up after it.
    pub next: Option<(Peer, Vec<Peer>)>,
}

/// Takes the bootstrap one lookup further: the lookup of `peer` is done, and
/// the peers `remaining` are yet to be looked up. The report carries their
/// number. With none left the report is the last; otherwise the first of
/// them is looked up next.
pub fn bootstrap_advance(peer: Peer, remaining: Vec<Peer>, step: ProgressStep) -> (r:
    BootstrapProgress)
    ensures
        r.event == (BootstrapOk { peer, num_remaining: capped_u32(remaining@.len()) }),
        r.step == (ProgressStep { count: step.count, last: remaining@.len() == 0 }),
        remaining@.len() == 0 ==> r.next is None,
        remaining@.len() > 0 ==> (r.next matches Some((target, rest)) && target == remaining@[0]
            && rest@ == remaining@.skip(1)),
        r.step.last <==> r.event.num_remaining == 0,
{
    let n = remaining.len();
    let num_remaining: u32 = if n > u32::MAX as usize {
        u32::MAX
    } else {
        n as u32
    };
    let event = BootstrapOk { peer, num_remaining };
    if n == 0 {
        BootstrapProgress { event, step: step.terminal(), next: None }
    } else {
        let mut rest = remaining;
        let target = rest.remove(0);
        proof {
            assert(rest@ =~= remaining@.skip(1));
        }
        BootstrapProgress {
            event,
            step: ProgressStep { count: step.count, last: false },
            next: Some((target, rest)),
        }
    }
}

/// What a query that stored a record reports when it is done: success if as
/// many peers as the quorum asks for have stored the record.
pub fn put_record_outcome(key: Vec<u8>, success: Vec<Peer>, quorum: usize) -> (r: Result<
    PutRecordOk,
    PutRecordError,
>)
    ensures
        r is Ok <==> success@.len() >= quorum,
        r is Ok ==> r->Ok_0 == (PutRecordOk { key }),
        r is Err ==> r->Err_0 == (PutRecordError::QuorumFailed { key, success, quorum }),
{
    if success.len() >= quorum {
        Ok(PutRecordOk { key })
    } else {
        Err(PutRecordError::QuorumFailed { key, success, quorum })
    }
}

/// What a lookup of a record reports when it is done: that no peer had the
/// record, that fewer records were found than the quorum asks for, or that
/// it is done, with the closest peers that answered.
pub fn get_record_outcome(key: Vec<u8>, found: usize, quorum: usize, closest: Vec<Peer>) -> (r:
    Result<GetRecordOk, GetRecordError>)
    ensures
        found == 0 ==> r == Err::<GetRecordOk, GetRecordError>(
            GetRecordError::NotFound { key, closest_peers: closest },
        ),
        0 < found < quorum ==> r == Err::<GetRecordOk, GetRecordError>(
            GetRecordError::QuorumFailed { key, found, quorum },
        ),
        found > 0 && found >= quorum ==> r == Ok::<GetRecordOk, GetRecordError>(
            GetRecordOk::FinishedWithNoAdditionalRecord { cache_candidates: closest },
        ),
{
    if found == 0 {
        Err(GetRecordError::NotFound { key, closest_peers: closest })
    } else if found < quorum {
        Err(GetRecordError::QuorumFailed { key, found, quorum })
    } else {
        Ok(GetRecordOk::FinishedWithNoAdditionalRecord { cache_candidates: closest })
    }
}

} // verus!
