//! Choosing between two stream multiplexer upgrades.
//!
//! Two upgrades are offered side by side. The protocols of the first are
//! advertised before those of the second, and the protocol that the
//! negotiation settles on decides which of the two upgrades is applied.

use vstd::prelude::*;

verus! {

/// A value that belongs to the first or to the second of two alternatives.
#[derive(Debug, Clone, Copy, PartialEq, Eq)]
pub enum Selected<A, B> {
    /// Of the first alternative.
    First(A),
    /// Of the second alternative.
    Second(B),
}

/// An upgrade that offers two multiplexer upgrades and applies the one whose
/// protocol was negotiated.
#[derive(Debug, Clone)]
pub struct SelectMuxerUpgrade<A, B>(pub A, pub B);

/// The protocols of `a`, tagged as the first alternative's.
pub open spec fn tag_first<IA, IB>(a: Seq<IA>) -> Seq<Selected<IA, IB>> {
    a.map_values(|i: IA| Selected::<IA, IB>::First(i))
}

/// The protocols of `b`, tagged as the second alternative's.
pub open spec fn tag_second<IA, IB>(b: Seq<IB>) -> Seq<Selected<IA, IB>> {
    b.map_values(|i: IB| Selected::<IA, IB>::Second(i))
}

/// Which upgrade is applied for a negotiated protocol, and with which
/// protocol of its own.
pub open spec fn selection<A, B, IA, IB>(
    upgrade: SelectMuxerUpgrade<A, B>,
    info: Selected<IA, IB>,
) -> Selected<(A, IA), (B, IB)> {
    match info {
        Selected::First(i) => Selected::First((upgrade.0, i)),
        Selected::Second(i) => Selected::Second((upgrade.1, i)),
    }
}

impl<A, B> SelectMuxerUpgrade<A, B> {
    /// Offers `a` and `b` side by side, `a` first.
    pub fn new(a: A, b: B) -> (s: Self)
        ensures
            s.0 == a,
            s.1 == b,
    {
        SelectMuxerUpgrade(a, b)
    }

    /// The protocols to advertise, given those of the two upgrades: all of
    /// the first upgrade's in their order, then all of the second's.
    pub fn protocol_info<IA, IB>(a: Vec<IA>, b: Vec<IB>) -> (out: Vec<Selected<IA, IB>>)
        ensures
            out@ == tag_first::<IA, IB>(a@) + tag_second::<IA, IB>(b@),
    {
        let mut out: Vec<Selected<IA, IB>> = Vec::new();
        let ghost a_seq = a@;
        let ghost b_seq = b@;
        for info in it: a
            invariant
                it.seq() == a_seq,
                out@ == tag_first::<IA, IB>(a_seq.subrange(0, it.index() as int)),
        {
            out.push(Selected::First(info));
            assert(out@ =~= tag_first::<IA, IB>(a_seq.subrange(0, it.index() + 1)));
        }
        assert(a_seq.subrange(0, a_seq.len() as int) =~= a_seq);
        for info in it: b
            invariant
                it.seq() == b_seq,
                out@ == tag_first::<IA, IB>(a_seq) + tag_second::<IA, IB>(
                    b_seq.subrange(0, it.index() as int),
                ),
        {
            out.push(Selected::Second(info));
            assert(out@ =~= tag_first::<IA, IB>(a_seq) + tag_second::<IA, IB>(
                b_seq.subrange(0, it.index() + 1),
            ));
        }
        assert(b_seq.subrange(0, b_seq.len() as int) =~= b_seq);
        out
    }

    /// The upgrade to apply to an inbound connection on which `info` was
    /// negotiated: the first upgrade for one of its protocols, the second
    /// upgrade for one of its own.
    pub fn upgrade_inbound<IA, IB>(self, info: Selected<IA, IB>) -> (r: Selected<(A, IA), (B, IB)>)
        ensures
            r == selection(self, info),
    {
        match info {
            Selected::First(i) => Selected::First((self.0, i)),
            Selected::Second(i) => Selected::Second((self.1, i)),
        }
    }

    /// The upgrade to apply to an outbound connection on which `info` was
    /// negotiated: the first upgrade for one of its protocols, the second
    /// upgrade for one of its own.
    pub fn upgrade_outbound<IA, IB>(self, info: Selected<IA, IB>) -> (r: Selected<(A, IA), (B, IB)>)
        ensures
            r == selection(self, info),
    {
        match info {
            Selected::First(i) => Selected::First((self.0, i)),
            Selected::Second(i) => Selected::Second((self.1, i)),
        }
    }
}

} // verus!
