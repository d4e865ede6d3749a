//! The decisions of a transport upgrade.
//!
//! A connection is upgraded in two steps: the transport produces the raw
//! connection together with the identity of the remote, and a protocol upgrade
//! is then applied to it. The futures that carry this out alternate between
//! polling outside work and deciding what to do with its outcome. The
//! decisions live here, as transitions from a state and an outcome to the next
//! state and a step for the driver to perform.

use crate::peer::PeerId;
use vstd::prelude::*;

verus! {

/// The negotiation flavour used when an upgrade is applied.
#[derive(Clone, Copy, Debug, PartialEq, Eq, Structural)]
pub enum Version {
    /// Wait for the negotiation to finish before any data is sent.
    V1,
    /// Send the protocol proposal together with the first payload.
    V1Lazy,
}

/// The outcome of polling a piece of outside work once.
pub enum Progress<T> {
    /// The work is finished and gave this value.
    Ready(T),
    /// The work is not finished; the task will be woken when it can go on.
    Pending,
}

/// Errors produced by a transport upgrade.
#[derive(Debug)]
pub enum TransportUpgradeError<T, U> {
    /// Error in the transport.
    Transport(T),
    /// Error while upgrading to a protocol.
    Upgrade(U),
}

/// What the driver of an upgrade future does after the connection was polled.
pub enum ConnectionStep<C, U, E, UE> {
    /// The connection is not there yet: return pending.
    Pending,
    /// The transport failed: complete with this error, which is one in the
    /// transport.
    Failed(TransportUpgradeError<E, UE>),
    /// The connection is there: apply `upgrade` to `conn` in the given
    /// negotiation flavour (none for an inbound upgrade), then poll the upgrade.
    Apply { conn: C, upgrade: U, version: Option<Version> },
}

/// Where an upgrade future stands.
pub enum Stage<U> {
    /// The transport is still producing the connection; the upgrade waits.
    Connecting(Option<U>),
    /// The connection to this peer is there and is being upgraded.
    Upgrading(PeerId),
}

/// The transition taken when the connection future was polled.
pub open spec fn connection_step<C, U, E, UE>(
    upgrade: U,
    version: Option<Version>,
    outcome: Progress<Result<(PeerId, C), E>>,
) -> (Stage<U>, ConnectionStep<C, U, E, UE>) {
    match outcome {
        Progress::Pending => (Stage::Connecting(Some(upgrade)), ConnectionStep::Pending),
        Progress::Ready(Err(e)) => (
            Stage::Connecting(Some(upgrade)),
            ConnectionStep::Failed(TransportUpgradeError::Transport(e)),
        ),
        Progress::Ready(Ok((peer, conn))) => (
            Stage::Upgrading(peer),
            ConnectionStep::Apply { conn, upgrade, version },
        ),
    }
}

/// The result of an upgrade future once the upgrade itself was polled.
pub open spec fn upgrade_step<D, TE, UE>(
    peer: PeerId,
    outcome: Progress<Result<D, UE>>,
) -> Progress<
    Result<(PeerId, D), TransportUpgradeError<TE, UE>>,
> {
    match outcome {
        Progress::Pending => Progress::Pending,
        Progress::Ready(Err(e)) => Progress::Ready(Err(TransportUpgradeError::Upgrade(e))),
        Progress::Ready(Ok(d)) => Progress::Ready(Ok((peer, d))),
    }
}

/// Takes what came of the attempt to connect: the step that
/// `connection_step` describes.
fn step_connection<C, U, E, UE>(
    stage: &mut Stage<U>,
    version: Option<Version>,
    outcome: Progress<Result<(PeerId, C), E>>,
) -> (step: ConnectionStep<C, U, E, UE>)
    requires
        *old(stage) matches Stage::Connecting(Some(_)),
    ensures
        (*final(stage), step) == connection_step::<C, U, E, UE>(
            old(stage)->Connecting_0->0,
            version,
            outcome,
        ),
{
    match outcome {
        Progress::Pending => ConnectionStep::Pending,
        Progress::Ready(Err(e)) => ConnectionStep::Failed(TransportUpgradeError::Transport(e)),
        Progress::Ready(Ok((peer, conn))) => {
            let taken = match stage {
                Stage::Connecting(upgrade) => upgrade.take(),
                Stage::Upgrading(_) => None,
            };
            *stage = Stage::Upgrading(peer);
            match taken {
                Some(upgrade) => ConnectionStep::Apply { conn, upgrade, version },
                None => {
                    assert(false);
                    ConnectionStep::Pending
                },
            }
        },
    }
}

/// Takes what came of the upgrade of a connection: the step that
/// `upgrade_step` describes.
fn step_upgrade<U, D, TE, UE>(stage: &Stage<U>, outcome: Progress<Result<D, UE>>) -> (r: Progress<
    Result<(PeerId, D), TransportUpgradeError<TE, UE>>,
>)
    requires
        *stage is Upgrading,
    ensures
        r == upgrade_step::<D, TE, UE>(stage->Upgrading_0, outcome),
{
    match outcome {
        Progress::Pending => Progress::Pending,
        Progress::Ready(Err(e)) => Progress::Ready(Err(TransportUpgradeError::Upgrade(e))),
        Progress::Ready(Ok(d)) => match stage {
            Stage::Upgrading(peer) => Progress::Ready(Ok((*peer, d))),
            Stage::Connecting(_) => Progress::Pending,
        },
    }
}

/// The state of the future that dials and then upgrades the connection as the
/// initiator.
pub struct DialUpgradeFuture<U> {
    pub stage: Stage<U>,
}

impl<U> DialUpgradeFuture<U> {
    /// The future before the transport was polled: `upgrade` waits for the connection.
    pub fn new(upgrade: U) -> (f: Self)
        ensures
            f.stage == Stage::Connecting(Some(upgrade)),
    {
        DialUpgradeFuture { stage: Stage::Connecting(Some(upgrade)) }
    }

    /// Whether the transport's future is the one to poll next.
    pub fn is_connecting(&self) -> (r: bool)
        ensures
            r == (self.stage is Connecting),
    {
        match self.stage {
            Stage::Connecting(_) => true,
            Stage::Upgrading(_) => false,
        }
    }

    /// Takes the outcome of polling the transport's future. A transport error
    /// ends the future, as an error in the transport; a connection starts
    /// the outbound upgrade, always in
    /// the flavour `V1`.
    pub fn on_connection<C, E, UE>(
        &mut self,
        outcome: Progress<Result<(PeerId, C), E>>,
    ) -> (step: ConnectionStep<C, U, E, UE>)
        requires
            old(self).stage matches Stage::Connecting(Some(_)),
        ensures
            (final(self).stage, step) == connection_step::<C, U, E, UE>(
                old(self).stage->Connecting_0->0,
                Some(Version::V1),
                outcome,
            ),
    {
        step_connection(&mut self.stage, Some(Version::V1), outcome)
    }

    /// Takes the outcome of polling the upgrade and gives the outcome of the
    /// whole future: the peer with the upgraded connection, or the upgrade's error.
    pub fn on_upgrade<D, TE, UE>(&self, outcome: Progress<Result<D, UE>>) -> (r: Progress<
        Result<(PeerId, D), TransportUpgradeError<TE, UE>>,
    >)
        requires
            self.stage is Upgrading,
        ensures
            r == upgrade_step::<D, TE, UE>(self.stage->Upgrading_0, outcome),
    {
        step_upgrade(&self.stage, outcome)
    }
}

/// The state of the future that accepts a connection and then upgrades it as
/// the responder.
pub struct ListenerUpgradeFuture<U> {
    pub stage: Stage<U>,
}

impl<U> ListenerUpgradeFuture<U> {
    /// The future before the transport was polled: `upgrade` waits for the connection.
    pub fn new(upgrade: U) -> (f: Self)
        ensures
            f.stage == Stage::Connecting(Some(upgrade)),
    {
        ListenerUpgradeFuture { stage: Stage::Connecting(Some(upgrade)) }
    }

    /// Whether the transport's future is the one to poll next.
    pub fn is_connecting(&self) -> (r: bool)
        ensures
            r == (self.stage is Connecting),
    {
        match self.stage {
            Stage::Connecting(_) => true,
            Stage::Upgrading(_) => false,
        }
    }

    /// Takes the outcome of polling the transport's future. A transport error
    /// ends the future; a connection starts the inbound upgrade, which has no
    /// negotiation flavour to choose.
    pub fn on_connection<C, E, UE>(
        &mut self,
        outcome: Progress<Result<(PeerId, C), E>>,
    ) -> (step: ConnectionStep<C, U, E, UE>)
        requires
            old(self).stage matches Stage::Connecting(Some(_)),
        ensures
            (final(self).stage, step) == connection_step::<C, U, E, UE>(
                old(self).stage->Connecting_0->0,
                None,
                outcome,
            ),
    {
        step_connection(&mut self.stage, None, outcome)
    }

    /// Takes the outcome of polling the upgrade and gives the outcome of the
    /// whole future: the peer with the upgraded connection, or the upgrade's error.
    pub fn on_upgrade<D, TE, UE>(&self, outcome: Progress<Result<D, UE>>) -> (r: Progress<
        Result<(PeerId, D), TransportUpgradeError<TE, UE>>,
    >)
        requires
            self.stage is Upgrading,
        ensures
            r == upgrade_step::<D, TE, UE>(self.stage->Upgrading_0, outcome),
    {
        step_upgrade(&self.stage, outcome)
    }
}

/// The text of an error with the text of its cause behind it.
fn prefixed(prefix: &str, cause: &str) -> (r: String)
    ensures
        r@ == prefix@ + cause@,
{
    String::from_str(prefix).concat(cause)
}

impl<T, U> TransportUpgradeError<T, U> {
    /// The text of the error, given the text of its cause: it says whether
    /// the transport failed or the upgrade.
    pub fn message(&self, cause: &str) -> (r: String)
        ensures
            r@ == match self {
                TransportUpgradeError::Transport(_) => "Transport error: "@ + cause@,
                TransportUpgradeError::Upgrade(_) => "Upgrade error: "@ + cause@,
            },
    {
        match self {
            TransportUpgradeError::Transport(_) => prefixed("Transport error: ", cause),
            TransportUpgradeError::Upgrade(_) => prefixed("Upgrade error: ", cause),
        }
    }

    /// Whether the transport failed, rather than the upgrade.
    pub fn is_transport(&self) -> (r: bool)
        ensures
            r == (self is Transport),
    {
        match self {
            TransportUpgradeError::Transport(_) => true,
            TransportUpgradeError::Upgrade(_) => false,
        }
    }
}

/// A transport whose connections are handed to a function when they are
/// there.
#[derive(Clone, Copy, Debug)]
pub struct AndThen<T, F> {
    pub transport: T,
    pub fun: F,
}

/// A transport whose connection setup is given up after a time, in seconds.
#[derive(Clone, Copy, Debug)]
pub struct TransportTimeout<T> {
    pub inner: T,
    pub outgoing_timeout: u64,
    pub incoming_timeout: u64,
}

/// The time after which a direction without a timeout of its own is given
/// up: a hundred years.
pub const NO_TIMEOUT: u64 = 3_153_600_000;

/// An upgrade that authenticates the remote peer, typically in the context
/// of negotiating a secure channel.
#[derive(Clone, Copy, Debug)]
pub struct Authenticate<U> {
    pub upgrade: U,
    pub version: Version,
}

impl<U> Authenticate<U> {
    /// Takes the outcome of polling the upgrade, which is the outcome of the
    /// authentication.
    pub fn poll<D, E>(&self, outcome: Progress<Result<(PeerId, D), E>>) -> (r: Progress<
        Result<(PeerId, D), E>,
    >)
        ensures
            r == outcome,
    {
        outcome
    }
}

/// An upgrade that negotiates a stream multiplexer on top of an
/// authenticated connection to a peer.
#[derive(Clone, Copy, Debug)]
pub struct Multiplex<U> {
    pub peer_id: Option<PeerId>,
    pub upgrade: U,
    pub version: Version,
}

impl<U> Multiplex<U> {
    /// Takes the outcome of polling the upgrade. When the multiplexer is
    /// there, it is handed out together with the peer, once.
    pub fn poll<M, E>(&mut self, outcome: Progress<Result<M, E>>) -> (r: Progress<
        Result<(PeerId, M), E>,
    >)
        requires
            outcome is Ready && outcome->Ready_0 is Ok ==> old(self).peer_id is Some,
        ensures
            r == match outcome {
                Progress::Pending => Progress::Pending,
                Progress::Ready(Err(e)) => Progress::Ready(Err(e)),
                Progress::Ready(Ok(m)) => Progress::Ready(Ok((old(self).peer_id->0, m))),
            },
            final(self).peer_id == if outcome is Ready && outcome->Ready_0 is Ok {
                None
            } else {
                old(self).peer_id
            },
            final(self).upgrade == old(self).upgrade,
            final(self).version == old(self).version,
    {
        match outcome {
            Progress::Pending => Progress::Pending,
            Progress::Ready(Err(e)) => Progress::Ready(Err(e)),
            Progress::Ready(Ok(m)) => {
                let peer = self.peer_id.take();
                match peer {
                    Some(i) => Progress::Ready(Ok((i, m))),
                    None => Progress::Pending,
                }
            },
        }
    }
}

/// A custom upgrade on an authenticated transport.
#[derive(Debug, Copy, Clone)]
pub struct Upgrade<T, U> {
    pub inner: T,
    pub upgrade: U,
}

/// What a transport that listens reports: `F` is the future of an incoming
/// connection, `E` the error of the transport. Addresses are byte strings.
pub enum TransportEvent<F, E> {
    /// A listener listens on a new address.
    NewAddress { listener_id: u64, listen_addr: Vec<u8> },
    /// A listener no longer listens on an address.
    AddressExpired { listener_id: u64, listen_addr: Vec<u8> },
    /// A connection comes in.
    Incoming { listener_id: u64, upgrade: F, local_addr: Vec<u8>, send_back_addr: Vec<u8> },
    /// A listener was closed, with or without an error.
    ListenerClosed { listener_id: u64, reason: Result<(), E> },
    /// A listener met an error that did not close it.
    ListenerError { listener_id: u64, error: E },
}

/// The stage is that of a future that waits for its connection with a
/// clone of `upgrade`.
pub open spec fn waits_with<U: Clone>(upgrade: U, stage: Stage<U>) -> bool {
    stage matches Stage::Connecting(Some(u)) && cloned(upgrade, u)
}

/// What a transport with `upgrade` on top reports when the transport
/// below reports `polled`: pending stays pending, and an event keeps its
/// kind, its listener and its addresses. The future of an incoming
/// connection is followed by a clone of the upgrade, not yet applied, and
/// an error is one in the transport.
pub open spec fn listener_polled<U: Clone, F, E, UE>(
    upgrade: U,
    polled: Progress<TransportEvent<F, E>>,
    r: Progress<TransportEvent<(F, ListenerUpgradeFuture<U>), TransportUpgradeError<E, UE>>>,
) -> bool {
    match polled {
        Progress::Pending => r is Pending,
        Progress::Ready(TransportEvent::NewAddress { listener_id, listen_addr }) => r
            == Progress::<
            TransportEvent<(F, ListenerUpgradeFuture<U>), TransportUpgradeError<E, UE>>,
        >::Ready(TransportEvent::NewAddress { listener_id, listen_addr }),
        Progress::Ready(TransportEvent::AddressExpired { listener_id, listen_addr }) => r
            == Progress::<
            TransportEvent<(F, ListenerUpgradeFuture<U>), TransportUpgradeError<E, UE>>,
        >::Ready(TransportEvent::AddressExpired { listener_id, listen_addr }),
        Progress::Ready(
            TransportEvent::Incoming { listener_id, upgrade: future, local_addr, send_back_addr },
        ) => {
            &&& r matches Progress::Ready(
                TransportEvent::Incoming {
                    listener_id: l,
                    upgrade: followed,
                    local_addr: la,
                    send_back_addr: sa,
                },
            )
            &&& l == listener_id
            &&& la == local_addr
            &&& sa == send_back_addr
            &&& followed.0 == future
            &&& waits_with(upgrade, followed.1.stage)
        },
        Progress::Ready(TransportEvent::ListenerClosed { listener_id, reason }) => r
            == Progress::<
            TransportEvent<(F, ListenerUpgradeFuture<U>), TransportUpgradeError<E, UE>>,
        >::Ready(
            TransportEvent::ListenerClosed {
                listener_id,
                reason: match reason {
                    Ok(()) => Ok(()),
                    Err(e) => Err(TransportUpgradeError::Transport(e)),
                },
            },
        ),
        Progress::Ready(TransportEvent::ListenerError { listener_id, error }) => r == Progress::<
            TransportEvent<(F, ListenerUpgradeFuture<U>), TransportUpgradeError<E, UE>>,
        >::Ready(
            TransportEvent::ListenerError {
                listener_id,
                error: TransportUpgradeError::Transport(error),
            },
        ),
    }
}

impl<T, U> Upgrade<T, U> {
    /// The transport `inner` with `upgrade` applied to its connections.
    pub fn new(inner: T, upgrade: U) -> (r: Self)
        ensures
            r.inner == inner,
            r.upgrade == upgrade,
    {
        Upgrade { inner, upgrade }
    }
}

impl<T, U: Clone> Upgrade<T, U> {
    /// Takes the result of dialing on the inner transport. A dial that is
    /// under way is followed by a clone of the upgrade of this transport; a
    /// dial that failed is an error in the transport.
    pub fn dial<F, E, UE>(&self, dialed: Result<F, E>) -> (r: Result<
        (F, DialUpgradeFuture<U>),
        TransportUpgradeError<E, UE>,
    >)
        ensures
            match dialed {
                Ok(future) => r matches Ok(followed) && followed.0 == future && waits_with(
                    self.upgrade,
                    followed.1.stage,
                ),
                Err(e) => r == Err::<
                    (F, DialUpgradeFuture<U>),
                    TransportUpgradeError<E, UE>,
                >(TransportUpgradeError::Transport(e)),
            },
    {
        match dialed {
            Ok(future) => Ok((future, DialUpgradeFuture::new(self.upgrade.clone()))),
            Err(e) => Err(TransportUpgradeError::Transport(e)),
        }
    }

    /// Takes the result of listening on the inner transport: a failure is an
    /// error in the transport.
    pub fn listen_on<E, UE>(&self, listening: Result<(), E>) -> (r: Result<
        (),
        TransportUpgradeError<E, UE>,
    >)
        ensures
            r == match listening {
                Ok(()) => Ok(()),
                Err(e) => Err(TransportUpgradeError::<E, UE>::Transport(e)),
            },
    {
        match listening {
            Ok(()) => Ok(()),
            Err(e) => Err(TransportUpgradeError::Transport(e)),
        }
    }

    /// Takes what the inner transport reports when it is polled, and gives
    /// what this transport reports: see `listener_polled`.
    pub fn poll<F, E, UE>(&self, polled: Progress<TransportEvent<F, E>>) -> (r: Progress<
        TransportEvent<(F, ListenerUpgradeFuture<U>), TransportUpgradeError<E, UE>>,
    >)
        ensures
            listener_polled(self.upgrade, polled, r),
    {
        match polled {
            Progress::Pending => Progress::Pending,
            Progress::Ready(event) => Progress::Ready(
                match event {
                    TransportEvent::NewAddress { listener_id, listen_addr } => {
                        TransportEvent::NewAddress { listener_id, listen_addr }
                    },
                    TransportEvent::AddressExpired { listener_id, listen_addr } => {
                        TransportEvent::AddressExpired { listener_id, listen_addr }
                    },
                    TransportEvent::Incoming {
                        listener_id,
                        upgrade,
                        local_addr,
                        send_back_addr,
                    } => TransportEvent::Incoming {
                        listener_id,
                        upgrade: (upgrade, ListenerUpgradeFuture::new(self.upgrade.clone())),
                        local_addr,
                        send_back_addr,
                    },
                    TransportEvent::ListenerClosed { listener_id, reason } => {
                        TransportEvent::ListenerClosed {
                            listener_id,
                            reason: match reason {
                                Ok(()) => Ok(()),
                                Err(e) => Err(TransportUpgradeError::Transport(e)),
                            },
                        }
                    },
                    TransportEvent::ListenerError { listener_id, error } => {
                        TransportEvent::ListenerError {
                            listener_id,
                            error: TransportUpgradeError::Transport(error),
                        }
                    },
                },
            ),
        }
    }
}

/// A `Builder` facilitates upgrading of a transport for use with a swarm.
///
/// The upgrade process is made of the stages `authenticate`, `apply` any
/// number of times, and `multiplex`. The types enforce that every transport
/// obtained from `multiplex` is authenticated and multiplexed, that
/// authentication precedes the negotiation of a multiplexer, and that
/// applying a multiplexer is the last step.
#[derive(Clone, Copy, Debug)]
pub struct Builder<T> {
    pub inner: T,
    pub version: Version,
}

impl<T> Builder<T> {
    /// Creates a `Builder` over the given (base) transport.
    pub fn new(inner: T, version: Version) -> (b: Builder<T>)
        ensures
            b.inner == inner,
            b.version == version,
    {
        Builder { inner, version }
    }

    /// Upgrades the transport to perform authentication of the remote: the
    /// connections of the transport are handed to the upgrade, in the
    /// negotiation flavour of the builder.
    pub fn authenticate<U>(self, upgrade: U) -> (a: Authenticated<AndThen<T, Authenticate<U>>>)
        ensures
            a.0.inner.transport == self.inner,
            a.0.inner.fun == (Authenticate { upgrade, version: self.version }),
            a.0.version == self.version,
    {
        let version = self.version;
        Authenticated(
            Builder::new(
                AndThen { transport: self.inner, fun: Authenticate { upgrade, version } },
                version,
            ),
        )
    }
}

/// A transport with peer authentication, obtained from `Builder::authenticate`.
#[derive(Clone, Copy, Debug)]
pub struct Authenticated<T>(pub Builder<T>);

impl<T> Authenticated<T> {
    /// Applies an arbitrary upgrade to the connections of the transport. Any
    /// number of such upgrades can be applied.
    pub fn apply<U>(self, upgrade: U) -> (a: Authenticated<Upgrade<T, U>>)
        ensures
            a.0.inner.inner == self.0.inner,
            a.0.inner.upgrade == upgrade,
            a.0.version == self.0.version,
    {
        Authenticated(Builder::new(Upgrade::new(self.0.inner, upgrade), self.0.version))
    }

    /// Upgrades the transport with a stream multiplexer. This ends the
    /// upgrade process.
    pub fn multiplex<U>(self, upgrade: U) -> (m: Multiplexed<AndThen<T, Multiplex<U>>>)
        ensures
            m.0.transport == self.0.inner,
            m.0.fun == (Multiplex { peer_id: None, upgrade, version: self.0.version }),
    {
        Multiplexed(
            AndThen {
                transport: self.0.inner,
                fun: Multiplex { peer_id: None, upgrade, version: self.0.version },
            },
        )
    }

    /// Like `multiplex`, but takes a function that gives the upgrade for
    /// each connection, from the peer and the endpoint.
    pub fn multiplex_ext<F>(self, up: F) -> (m: Multiplexed<AndThen<T, Multiplex<F>>>)
        ensures
            m.0.transport == self.0.inner,
            m.0.fun == (Multiplex { peer_id: None, upgrade: up, version: self.0.version }),
    {
        Multiplexed(
            AndThen {
                transport: self.0.inner,
                fun: Multiplex { peer_id: None, upgrade: up, version: self.0.version },
            },
        )
    }
}

/// An authenticated and multiplexed transport, obtained from
/// `Authenticated::multiplex`.
#[derive(Clone, Copy, Debug)]
pub struct Multiplexed<T>(pub T);

impl<T> Multiplexed<T> {
    /// Hands out the transport, for the caller to box it.
    pub fn boxed(self) -> (t: T)
        ensures
            t == self.0,
    {
        self.0
    }

    /// Adds a timeout to the setup and protocol upgrade process for all
    /// inbound and outbound connections established through the transport.
    pub fn timeout(self, timeout: u64) -> (m: Multiplexed<TransportTimeout<T>>)
        ensures
            m.0 == (TransportTimeout {
                inner: self.0,
                outgoing_timeout: timeout,
                incoming_timeout: timeout,
            }),
    {
        Multiplexed(
            TransportTimeout { inner: self.0, outgoing_timeout: timeout,
                incoming_timeout: timeout },
        )
    }

    /// Adds a timeout to the setup and protocol upgrade process for all
    /// outbound connections established through the transport.
    pub fn outbound_timeout(self, timeout: u64) -> (m: Multiplexed<TransportTimeout<T>>)
        ensures
            m.0 == (TransportTimeout {
                inner: self.0,
                outgoing_timeout: timeout,
                incoming_timeout: NO_TIMEOUT,
            }),
    {
        Multiplexed(
            TransportTimeout {
                inner: self.0,
                outgoing_timeout: timeout,
                incoming_timeout: NO_TIMEOUT,
            },
        )
    }

    /// Adds a timeout to the setup and protocol upgrade process for all
    /// inbound connections established through the transport.
    pub fn inbound_timeout(self, timeout: u64) -> (m: Multiplexed<TransportTimeout<T>>)
        ensures
            m.0 == (TransportTimeout {
                inner: self.0,
                outgoing_timeout: NO_TIMEOUT,
                incoming_timeout: timeout,
            }),
    {
        Multiplexed(
            TransportTimeout {
                inner: self.0,
                outgoing_timeout: NO_TIMEOUT,
                incoming_timeout: timeout,
            },
        )
    }
}

} // verus!
