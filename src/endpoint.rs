//! A rank's endpoint: the group descriptor's rank and size over a transport of
//! identity-addressed frames. It runs the rendezvous, frames each message as
//! the destination's identity followed by the payload, and drops the sender's
//! identity frame on receipt.
use vstd::prelude::*;
use crate::bootstrap::{BootStep, boot_plan, bootstrap_plan, count, lemma_probes_drained};
use crate::collectives::Backend;
use crate::config::{Params, digits_value};
use crate::lifecycle::{Lifecycle, LifecycleError, Phase};
use crate::wire::{decimal, identity_of, lemma_identity_round_trip};

verus! {

/// The sockets of one rank: an inbound socket bound to the rank's own address,
/// and an outbound socket that connects to the other ranks' addresses. Both
/// address messages by identity frames.
pub trait Transport {
    /// Connects the outbound socket to the address of rank `rank`.
    fn connect(&mut self, rank: usize);

    /// Receives and discards one probe (its identity and empty frames) from
    /// the outbound socket.
    fn drain_outbound(&mut self);

    /// Receives and discards one probe (its identity and empty frames) from
    /// the inbound socket.
    fn drain_inbound(&mut self);

    /// Sends a two-frame message from the outbound socket.
    fn send_multipart(&mut self, identity: Vec<u8>, payload: Vec<u8>);

    /// Receives the next two-frame message on the inbound socket: the
    /// sender's identity frame, then the payload frame.
    fn recv_multipart(&mut self) -> (Vec<u8>, Vec<u8>);

    /// Releases both sockets.
    fn release(&mut self);
}

/// One rank of a group, over a transport. The endpoint records each call it
/// makes on the transport, beside the call.
pub struct Endpoint<T: Transport> {
    transport: T,
    rank: usize,
    nranks: usize,
    life: Lifecycle,
    /// The rendezvous steps handed to the transport.
    boot_log: Ghost<Seq<BootStep>>,
    /// The messages handed to the transport: identity frame, payload frame.
    frames_sent: Ghost<Seq<(Seq<u8>, Seq<u8>)>>,
    /// The messages taken from the transport: identity frame, payload frame.
    frames_received: Ghost<Seq<(Seq<u8>, Seq<u8>)>>,
    /// The source each receive expected, in order.
    sources: Ghost<Seq<nat>>,
    /// Whether the transport was released.
    released_flag: Ghost<bool>,
}

impl<T: Transport> Endpoint<T> {
    /// The phase of this rank's life.
    pub closed spec fn phase(&self) -> Phase {
        self.life.phase
    }

    /// The rendezvous steps carried out on the transport: connects and probe drains.
    pub closed spec fn boot_steps(&self) -> Seq<BootStep> {
        self.boot_log@
    }

    /// The two-frame messages sent on the transport.
    pub closed spec fn messages_sent(&self) -> Seq<(Seq<u8>, Seq<u8>)> {
        self.frames_sent@
    }

    /// The two-frame messages received from the transport.
    pub closed spec fn messages_received(&self) -> Seq<(Seq<u8>, Seq<u8>)> {
        self.frames_received@
    }

    /// Whether the transport was released.
    pub closed spec fn released(&self) -> bool {
        self.released_flag@
    }

    /// The endpoint of the rank that `params` describes; not yet connected,
    /// with nothing sent or received.
    pub fn new(params: &Params, transport: T) -> (r: Endpoint<T>)
        requires
            params.wf(),
        ensures
            r.spec_rank() == params.rank,
            r.spec_n_ranks() == params.nranks,
            r.spec_rank() < r.spec_n_ranks(),
            r.inv(),
            r.phase() == Phase::Created,
            r.boot_steps() == Seq::<BootStep>::empty(),
            r.messages_sent() == Seq::<(Seq<u8>, Seq<u8>)>::empty(),
            r.messages_received() == Seq::<(Seq<u8>, Seq<u8>)>::empty(),
            !r.released(),
            r.sent() == Seq::<(nat, Seq<u8>)>::empty(),
            r.received() == Seq::<(nat, Seq<u8>)>::empty(),
    {
        let r = Endpoint {
            transport,
            rank: params.rank,
            nranks: params.nranks,
            life: Lifecycle::new(),
            boot_log: Ghost(Seq::empty()),
            frames_sent: Ghost(Seq::empty()),
            frames_received: Ghost(Seq::empty()),
            sources: Ghost(Seq::empty()),
            released_flag: Ghost(false),
        };
        assert(r.sent() =~= Seq::<(nat, Seq<u8>)>::empty());
        assert(r.received() =~= Seq::<(nat, Seq<u8>)>::empty());
        r
    }

    /// The transport beneath this endpoint.
    pub fn transport(&self) -> &T {
        &self.transport
    }

    /// Runs the rendezvous: the steps of `boot_plan` for this rank, in order
    /// (connect to each other rank in its own turn and drain each probe there,
    /// drain one inbound probe in every other rank's turn). It runs once; a
    /// second call, or one after `finalize`, is refused and changes nothing.
    pub fn initialize(&mut self) -> (r: Result<(), LifecycleError>)
        requires
            old(self).spec_rank() < old(self).spec_n_ranks(),
            old(self).inv(),
        ensures
            final(self).spec_rank() == old(self).spec_rank(),
            final(self).spec_n_ranks() == old(self).spec_n_ranks(),
            final(self).inv(),
            final(self).sent() == old(self).sent(),
            final(self).received() == old(self).received(),
            old(self).phase() == Phase::Created ==> r is Ok && final(self).phase()
                == Phase::Running && final(self).boot_steps() == old(
                self,
            ).boot_steps() + boot_plan(
                old(self).spec_n_ranks(),
                old(self).spec_rank(),
            ) && final(self).released() == old(self).released(),
            old(self).phase() == Phase::Created ==> ({
                let added = final(self).boot_steps().skip(old(self).boot_steps().len() as int);
                let n = old(self).spec_n_ranks();
                let me = old(self).spec_rank();
                &&& count(added, BootStep::DrainInbound) == n - 1
                &&& count(added, BootStep::DrainOutbound) == n - 1
                &&& forall|t: nat|
                    t < n ==> #[trigger] count(added, BootStep::Connect(t as usize)) == if t
                        != me {
                        1nat
                    } else {
                        0nat
                    }
            }),
            old(self).phase() != Phase::Created ==> r == Err::<(), LifecycleError>(
                LifecycleError::NotCreated,
            ) && *final(self) == *old(self),
    {
        match self.life.phase {
            Phase::Created => {},
            _ => {
                return Err(LifecycleError::NotCreated);
            },
        }
        let _ = self.life.begin();
        let plan = bootstrap_plan(self.nranks, self.rank);
        let ghost steps0 = self.boot_log@;
        let mut i: usize = 0;
        while i < plan.len()
            invariant
                i <= plan@.len(),
                plan@ == boot_plan(old(self).nranks as nat, old(self).rank as nat),
                self.rank == old(self).rank,
                self.nranks == old(self).nranks,
                self.life.phase == Phase::Running,
                self.sources == old(self).sources,
                self.frames_sent == old(self).frames_sent,
                self.frames_received == old(self).frames_received,
                self.released_flag == old(self).released_flag,
                steps0 == old(self).boot_log@,
                self.boot_log@ == steps0 + plan@.subrange(0, i as int),
            decreases plan.len() - i,
        {
            let step = plan[i];
            match step {
                BootStep::Connect(k) => {
                    self.transport.connect(k);
                },
                BootStep::DrainOutbound => {
                    self.transport.drain_outbound();
                },
                BootStep::DrainInbound => {
                    self.transport.drain_inbound();
                },
            }
            self.boot_log = Ghost(self.boot_log@.push(step));
            assert(plan@.subrange(0, i + 1) =~= plan@.subrange(0, i as int).push(plan@[i as int]));
            i = i + 1;
        }
        assert(plan@.subrange(0, i as int) =~= plan@);
        assert(self.boot_log@.skip(steps0.len() as int) =~= plan@);
        proof {
            lemma_probes_drained(self.nranks as nat, self.rank as nat);
        }
        assert(self.sent() =~= old(self).sent());
        assert(self.received() =~= old(self).received());
        Ok(())
    }

    /// Releases the transport the first time; calling it again changes nothing.
    pub fn finalize(&mut self)
        ensures
            final(self).phase() == Phase::Finalized,
            old(self).phase() != Phase::Finalized ==> final(self).released()
                && final(self).spec_rank() == old(self).spec_rank()
                && final(self).spec_n_ranks() == old(self).spec_n_ranks()
                && final(self).sent() == old(self).sent()
                && final(self).received() == old(self).received()
                && (old(self).inv() ==> final(self).inv()),
            old(self).phase() == Phase::Finalized ==> *final(self) == *old(self),
    {
        match self.life.phase {
            Phase::Finalized => {},
            _ => {
                let _ = self.life.finalize();
                self.transport.release();
                self.released_flag = Ghost(true);
                assert(self.sent() =~= old(self).sent());
                assert(self.received() =~= old(self).received());
            },
        }
    }

    /// Sends `payload` to rank `dst` as the two frames [identity of `dst`, payload].
    pub fn send_frames(&mut self, dst: usize, payload: Vec<u8>)
        requires
            old(self).inv(),
        ensures
            final(self).inv(),
            final(self).messages_sent() == old(
                self,
            ).messages_sent().push((decimal(dst as nat), payload@)),
            final(self).messages_received() == old(
                self,
            ).messages_received(),
            final(self).boot_steps() == old(self).boot_steps(),
            final(self).released() == old(self).released(),
            final(self).sent() == old(self).sent().push((dst as nat, payload@)),
            final(self).received() == old(self).received(),
            final(self).spec_rank() == old(self).spec_rank(),
            final(self).spec_n_ranks() == old(self).spec_n_ranks(),
            final(self).phase() == old(self).phase(),
    {
        let ghost p = payload@;
        proof {
            lemma_identity_round_trip(dst);
        }
        let identity = identity_of(dst);
        self.frames_sent = Ghost(self.frames_sent@.push((identity@, payload@)));
        self.transport.send_multipart(identity, payload);
        assert(self.sent() =~= old(self).sent().push((dst as nat, p)));
        assert(self.received() =~= old(self).received());
    }

    /// Receives the next message, expected from rank `src`: consumes its two
    /// frames from the inbound socket and returns the payload frame.
    pub fn recv_frames(&mut self, src: usize) -> (r: Vec<u8>)
        requires
            old(self).inv(),
        ensures
            final(self).inv(),
            final(self).messages_received().drop_last() == old(
                self,
            ).messages_received(),
            final(self).messages_received().len() == old(
                self,
            ).messages_received().len() + 1,
            final(self).messages_received().last().1 == r@,
            final(self).messages_sent() == old(self).messages_sent(),
            final(self).boot_steps() == old(self).boot_steps(),
            final(self).released() == old(self).released(),
            final(self).received() == old(self).received().push((src as nat, r@)),
            final(self).sent() == old(self).sent(),
            final(self).spec_rank() == old(self).spec_rank(),
            final(self).spec_n_ranks() == old(self).spec_n_ranks(),
            final(self).phase() == old(self).phase(),
    {
        let (sender, payload) = self.transport.recv_multipart();
        self.frames_received = Ghost(self.frames_received@.push((sender@, payload@)));
        assert(self.frames_received@.drop_last() =~= old(self).frames_received@);
        self.sources = Ghost(self.sources@.push(src as nat));
        assert(self.received() =~= old(self).received().push((src as nat, payload@)));
        assert(self.sent() =~= old(self).sent());
        payload
    }
}

impl<T: Transport> Backend for Endpoint<T> {
    closed spec fn spec_rank(&self) -> nat {
        self.rank as nat
    }

    closed spec fn spec_n_ranks(&self) -> nat {
        self.nranks as nat
    }

    closed spec fn inv(&self) -> bool {
        self.sources@.len() == self.frames_received@.len()
    }

    /// The messages sent: the destination read back from the identity frame,
    /// and the payload.
    closed spec fn sent(&self) -> Seq<(nat, Seq<u8>)> {
        let m = self.frames_sent@;
        Seq::new(m.len(), |i: int| (digits_value(m[i].0), m[i].1))
    }

    /// The messages received: the expected source, and the payload frame.
    closed spec fn received(&self) -> Seq<(nat, Seq<u8>)> {
        Seq::new(self.sources@.len(), |i: int| (self.sources@[i], self.frames_received@[i].1))
    }

    fn rank(&self) -> (r: usize) {
        self.rank
    }

    fn n_ranks(&self) -> (r: usize) {
        self.nranks
    }

    fn send(&mut self, dst: usize, payload: Vec<u8>) {
        self.send_frames(dst, payload);
    }

    fn recv(&mut self, src: usize) -> (r: Vec<u8>) {
        self.recv_frames(src)
    }
}

} // verus!
