//! The SSE broadcaster: a collection of bounded per-subscriber channels with
//! best-effort non-blocking fan-out and probe-based eviction of dead channels.

use crate::frame::{connected_frame, frame_message, ping_frame};
use crate::frame::{connected_payload, ping_payload, spec_frame};
use vstd::prelude::*;

verus! {

/// Capacity of a subscriber channel: at most this many pending messages.
pub const CAPACITY: usize = 100;

/// Mathematical model of a subscriber channel: the framed messages that are
/// enqueued but not yet consumed, oldest first, and whether the reader end
/// has been dropped.
pub struct ChannelModel {
    pub pending: Seq<Seq<u8>>,
    pub closed: bool,
}

/// A bounded queue of framed messages with one writer (the broadcaster) and
/// one reader (the subscription stream). A send is non-blocking: it fails
/// immediately when the queue is full or the reader is gone.
pub struct Channel {
    queue: Vec<Vec<u8>>,
    closed: bool,
}

/// The pending messages of a queue, as a sequence of byte sequences.
pub open spec fn messages_of(queue: Seq<Vec<u8>>) -> Seq<Seq<u8>> {
    queue.map_values(|m: Vec<u8>| m@)
}

impl View for Channel {
    type V = ChannelModel;

    closed spec fn view(&self) -> ChannelModel {
        ChannelModel { pending: messages_of(self.queue@), closed: self.closed }
    }
}

/// A channel accepts a message only while its reader end is attached and its
/// queue is not full.
pub open spec fn can_accept(c: ChannelModel) -> bool {
    &&& !c.closed
    &&& c.pending.len() < CAPACITY as int
}

/// The effect of one non-blocking send on a channel: the message is appended
/// when the channel can accept it, and the channel is left as it was
/// otherwise.
pub open spec fn deliver(c: ChannelModel, m: Seq<u8>) -> ChannelModel {
    if can_accept(c) {
        ChannelModel { pending: c.pending.push(m), closed: c.closed }
    } else {
        c
    }
}

impl Channel {
    /// A fresh channel: empty queue, reader attached.
    pub fn new() -> (c: Channel)
        ensures
            c@ == (ChannelModel { pending: Seq::<Seq<u8>>::empty(), closed: false }),
    {
        let c = Channel { queue: Vec::new(), closed: false };
        proof {
            assert(messages_of(c.queue@) =~= Seq::<Seq<u8>>::empty());
        }
        c
    }

    /// Non-blocking send: enqueues `msg` and reports success, or fails
    /// immediately when the queue is full or the reader end is gone.
    pub fn try_send(&mut self, msg: Vec<u8>) -> (ok: bool)
        ensures
            ok == can_accept(old(self)@),
            final(self)@ == deliver(old(self)@, msg@),
    {
        if self.closed || self.queue.len() >= CAPACITY {
            false
        } else {
            let ghost before = self.queue@;
            self.queue.push(msg);
            proof {
                assert(messages_of(before.push(msg)) =~= messages_of(before).push(msg@));
            }
            true
        }
    }

    /// Non-blocking receive: takes the oldest pending message, if any.
    pub fn try_recv(&mut self) -> (r: Option<Vec<u8>>)
        ensures
            final(self)@.closed == old(self)@.closed,
            old(self)@.pending.len() == 0 ==> r is None && final(self)@ == old(self)@,
            old(self)@.pending.len() > 0 ==> {
                &&& (r matches Some(m) && m@ == old(self)@.pending[0])
                &&& final(self)@.pending == old(self)@.pending.drop_first()
            },
    {
        if self.queue.len() == 0 {
            None
        } else {
            let ghost before = self.queue@;
            let m = self.queue.remove(0);
            proof {
                assert(messages_of(before.remove(0)) =~= messages_of(before).drop_first());
            }
            Some(m)
        }
    }

    /// Detaches the reader end: every later send to this channel fails.
    pub fn close(&mut self)
        ensures
            final(self)@.pending == old(self)@.pending,
            final(self)@.closed,
    {
        self.closed = true;
    }
}

/// Mathematical model of one subscriber: the identifier handed out at
/// subscribe time and the state of its channel.
pub struct ClientModel {
    pub id: u64,
    pub chan: ChannelModel,
}

/// One subscriber as stored by the broadcaster: a stable identifier and the
/// bounded channel whose reader end the subscription stream consumes.
pub struct Client {
    id: u64,
    chan: Channel,
}

impl View for Client {
    type V = ClientModel;

    closed spec fn view(&self) -> ClientModel {
        ClientModel { id: self.id, chan: self.chan@ }
    }
}

/// The models of a sequence of stored subscribers.
pub open spec fn models_of(s: Seq<Client>) -> Seq<ClientModel> {
    s.map_values(|c: Client| c@)
}

/// Mathematical model of the broadcaster: the live subscriber channels in
/// insertion order, and the identifier the next subscriber will get.
pub struct BroadcasterModel {
    pub clients: Seq<ClientModel>,
    pub next_id: u64,
}

/// The broadcaster: owns the collection of subscriber channels. A producer
/// publishes to every channel at once; a periodic sweep probes each channel
/// and evicts the ones whose probe send fails.
///
/// The collection is the only shared mutable state of the design; callers
/// share one `Broadcaster` behind a mutual-exclusion lock and keep each
/// operation inside one critical section.
pub struct Broadcaster {
    clients: Vec<Client>,
    next_id: u64,
}

impl View for Broadcaster {
    type V = BroadcasterModel;

    closed spec fn view(&self) -> BroadcasterModel {
        BroadcasterModel { clients: models_of(self.clients@), next_id: self.next_id }
    }
}

/// Well-formedness of the broadcaster state: subscriber identifiers are
/// distinct and below the next fresh one, and no queue exceeds its capacity.
pub open spec fn wf_clients(s: Seq<ClientModel>, next_id: u64) -> bool {
    &&& forall|i: int, j: int| 0 <= i < j < s.len() ==> s[i].id != s[j].id
    &&& forall|i: int| 0 <= i < s.len() ==> s[i].id < next_id
    &&& forall|i: int| 0 <= i < s.len() ==> s[i].chan.pending.len() <= CAPACITY as int
}

/// The channel of a fresh subscriber: exactly the framed `connected` greeting
/// is pending, and the reader end is attached.
pub open spec fn fresh_channel() -> ChannelModel {
    ChannelModel { pending: seq![spec_frame(connected_payload())], closed: false }
}

/// The model of a fresh subscriber with identifier `id`.
pub open spec fn fresh_client(id: u64) -> ClientModel {
    ClientModel { id, chan: fresh_channel() }
}

/// The effect of publishing a framed message: every channel that can accept
/// it has it appended; full or closed channels are left as they are, and no
/// channel is added or removed.
pub open spec fn spec_publish(s: Seq<ClientModel>, m: Seq<u8>) -> Seq<ClientModel> {
    s.map_values(|c: ClientModel| ClientModel { id: c.id, chan: deliver(c.chan, m) })
}

/// The effect of one sweep with probe message `probe`: channels that accept
/// the probe are retained (with the probe appended) in order; the rest are
/// evicted. This is the sole removal path for subscriber channels.
pub open spec fn spec_sweep(s: Seq<ClientModel>, probe: Seq<u8>) -> Seq<ClientModel>
    decreases s.len(),
{
    if s.len() == 0 {
        Seq::<ClientModel>::empty()
    } else {
        let rest = spec_sweep(s.drop_last(), probe);
        let last = s.last();
        if can_accept(last.chan) {
            rest.push(ClientModel { id: last.id, chan: deliver(last.chan, probe) })
        } else {
            rest
        }
    }
}

/// What polling a subscription stream yields: the next framed message, or
/// nothing yet (the reader should try again once new data may have arrived),
/// or the terminal state after the broadcaster evicted the channel.
pub enum Received {
    Message { bytes: Vec<u8> },
    Empty,
    Gone,
}

/// Whether some channel in the collection belongs to subscriber `id`.
pub open spec fn has_client(s: Seq<ClientModel>, id: u64) -> bool {
    exists|i: int| 0 <= i < s.len() && s[i].id == id
}

/// The identifiers of the channels in the collection, in order.
pub open spec fn ids_of(s: Seq<ClientModel>) -> Seq<u64> {
    s.map_values(|c: ClientModel| c.id)
}

/// Holds when `c` is what a sweep with probe `probe` would retain of some
/// channel of `s` that accepted the probe.
pub open spec fn sweep_source(s: Seq<ClientModel>, probe: Seq<u8>, c: ClientModel) -> bool {
    exists|i: int|
        0 <= i < s.len() && can_accept(#[trigger] s[i].chan) && c == (ClientModel {
            id: s[i].id,
            chan: deliver(s[i].chan, probe),
        })
}

/// Every channel that a sweep retains came from a channel of the old
/// collection that accepted the probe, with the probe appended; no channel is
/// invented, and the collection cannot grow.
pub proof fn lemma_sweep_shape(s: Seq<ClientModel>, probe: Seq<u8>)
    ensures
        spec_sweep(s, probe).len() <= s.len(),
        forall|j: int|
            0 <= j < spec_sweep(s, probe).len() ==> sweep_source(
                s,
                probe,
                #[trigger] spec_sweep(s, probe)[j],
            ),
    decreases s.len(),
{
    if s.len() == 0 {
    } else {
        let short = s.drop_last();
        lemma_sweep_shape(short, probe);
        let res = spec_sweep(s, probe);
        assert forall|j: int| 0 <= j < res.len() implies sweep_source(
            s,
            probe,
            #[trigger] res[j],
        ) by {
            if j < spec_sweep(short, probe).len() {
                assert(sweep_source(short, probe, spec_sweep(short, probe)[j]));
                let i = choose|i: int|
                    0 <= i < short.len() && can_accept(#[trigger] short[i].chan)
                        && spec_sweep(short, probe)[j] == (ClientModel {
                        id: short[i].id,
                        chan: deliver(short[i].chan, probe),
                    });
                assert(s[i] == short[i]);
                assert(can_accept(s[i].chan));
            } else {
                let i = s.len() - 1;
                assert(can_accept(s[i].chan));
                assert(res[j] == (ClientModel { id: s[i].id, chan: deliver(s[i].chan, probe) }));
            }
        }
    }
}

/// A sweep preserves well-formedness: retained identifiers stay distinct and
/// below the next fresh one, and appending the probe never exceeds capacity.
pub proof fn lemma_sweep_wf(s: Seq<ClientModel>, probe: Seq<u8>, next_id: u64)
    requires
        wf_clients(s, next_id),
    ensures
        wf_clients(spec_sweep(s, probe), next_id),
    decreases s.len(),
{
    if s.len() == 0 {
    } else {
        let short = s.drop_last();
        assert(wf_clients(short, next_id));
        lemma_sweep_wf(short, probe, next_id);
        lemma_sweep_shape(short, probe);
        let rest = spec_sweep(short, probe);
        let last = s.last();
        if can_accept(last.chan) {
            assert forall|j: int| 0 <= j < rest.len() implies rest[j].id != last.id by {
                assert(sweep_source(short, probe, rest[j]));
                let i = choose|i: int|
                    0 <= i < short.len() && can_accept(#[trigger] short[i].chan) && rest[j]
                        == (ClientModel { id: short[i].id, chan: deliver(short[i].chan, probe) });
                assert(s[i].id != s[s.len() - 1].id);
            }
        }
    }
}

impl Broadcaster {
    /// Well-formedness; established by `create` and preserved by every
    /// operation.
    pub open spec fn wf(&self) -> bool {
        wf_clients(self@.clients, self@.next_id)
    }

    /// A broadcaster with no subscribers.
    pub fn create() -> (b: Broadcaster)
        ensures
            b.wf(),
            b@.clients == Seq::<ClientModel>::empty(),
            b@.next_id == 0,
    {
        let b = Broadcaster { clients: Vec::new(), next_id: 0 };
        proof {
            assert(models_of(b.clients@) =~= Seq::<ClientModel>::empty());
        }
        b
    }

    /// Subscribes a new client: allocates a bounded channel, enqueues the
    /// framed `connected` greeting as its first message, appends the channel
    /// to the collection, and returns the subscriber's identifier.
    pub fn new_client(&mut self) -> (id: u64)
        requires
            old(self).wf(),
            old(self)@.next_id < u64::MAX,
        ensures
            final(self).wf(),
            id == old(self)@.next_id,
            final(self)@.next_id == old(self)@.next_id + 1,
            final(self)@.clients == old(self)@.clients.push(fresh_client(id)),
    {
        let mut ch = Channel::new();
        let ok = ch.try_send(connected_frame());
        assert(ok);
        assert(ch@ == fresh_channel());
        let id = self.next_id;
        self.next_id = self.next_id + 1;
        let ghost before = self.clients@;
        let c = Client { id, chan: ch };
        let ghost gc = c;
        self.clients.push(c);
        proof {
            assert(models_of(before.push(gc)) =~= models_of(before).push(gc@));
            assert(gc@ == fresh_client(id));
        }
        id
    }

    /// `new_client` behind its one machine limit: returns `None`, and changes
    /// nothing, only when the identifier space is exhausted.
    pub fn subscribe(&mut self) -> (r: Option<u64>)
        requires
            old(self).wf(),
        ensures
            final(self).wf(),
            old(self)@.next_id < u64::MAX ==> {
                &&& r == Some(old(self)@.next_id)
                &&& final(self)@.next_id == old(self)@.next_id + 1
                &&& final(self)@.clients == old(self)@.clients.push(
                    fresh_client(old(self)@.next_id),
                )
            },
            old(self)@.next_id == u64::MAX ==> r is None && final(self)@ == old(self)@,
    {
        if self.next_id < u64::MAX {
            Some(self.new_client())
        } else {
            None
        }
    }

    /// Publishes a payload: frames it as `data: <payload>\n\n` and attempts a
    /// non-blocking send to every channel in the collection. A failed send
    /// (full queue or dropped reader) is deliberately discarded: it neither
    /// aborts delivery to the remaining subscribers nor reaches the caller.
    /// This is best-effort, at-most-once fan-out without redelivery.
    #[verifier::loop_isolation(false)]
    pub fn send(&mut self, msg: &Vec<u8>)
        requires
            old(self).wf(),
        ensures
            final(self).wf(),
            final(self)@.next_id == old(self)@.next_id,
            final(self)@.clients == spec_publish(old(self)@.clients, spec_frame(msg@)),
    {
        let ghost orig = models_of(self.clients@);
        let ghost fm = spec_frame(msg@);
        let mut work: Vec<Client> = Vec::new();
        core::mem::swap(&mut work, &mut self.clients);
        let mut out: Vec<Client> = Vec::new();
        let n = work.len();
        let mut i: usize = 0;
        while i < n
            invariant
                i <= n,
                n == orig.len(),
                models_of(work@) =~= orig.skip(i as int),
                models_of(out@) =~= spec_publish(orig.take(i as int), fm),
            decreases n - i,
        {
            let ghost wpre = work@;
            let ghost outpre = out@;
            let mut c = work.remove(0);
            let ghost cpre = c;
            let f = frame_message(msg);
            let _ok = c.chan.try_send(f);
            let ghost gc = c;
            out.push(c);
            proof {
                assert(wpre.len() == n - i);
                assert(models_of(wpre.remove(0)) =~= models_of(wpre).remove(0));
                assert(models_of(wpre).remove(0) =~= orig.skip(i + 1));
                assert(cpre == wpre[0]);
                assert(cpre@ == models_of(wpre)[0]);
                assert(models_of(wpre)[0] == orig.skip(i as int)[0]);
                assert(orig.skip(i as int)[0] == orig[i as int]);
                assert(gc@ == (ClientModel {
                    id: orig[i as int].id,
                    chan: deliver(orig[i as int].chan, fm),
                }));
                assert(models_of(outpre.push(gc)) =~= models_of(outpre).push(gc@));
                assert(spec_publish(orig.take(i as int), fm).push(gc@) =~= spec_publish(
                    orig.take(i + 1),
                    fm,
                ));
            }
            i = i + 1;
        }
        self.clients = out;
        proof {
            assert(orig.take(n as int) =~= orig);
            let res = spec_publish(orig, fm);
            assert forall|k: int| 0 <= k < res.len() implies #[trigger] res[k] == (ClientModel {
                id: orig[k].id,
                chan: deliver(orig[k].chan, fm),
            }) by {}
            assert(wf_clients(res, self.next_id));
        }
    }

    /// One liveness sweep: attempts a non-blocking send of the framed `ping`
    /// probe to every channel; channels whose probe fails are evicted, the
    /// rest are retained in order. The probe send itself is the liveness
    /// test, so a full queue is treated exactly like a dropped reader.
    #[verifier::loop_isolation(false)]
    pub fn remove_stale_clients(&mut self)
        requires
            old(self).wf(),
        ensures
            final(self).wf(),
            final(self)@.next_id == old(self)@.next_id,
            final(self)@.clients == spec_sweep(old(self)@.clients, spec_frame(ping_payload())),
    {
        let ghost orig = models_of(self.clients@);
        let ghost pm = spec_frame(ping_payload());
        let mut work: Vec<Client> = Vec::new();
        core::mem::swap(&mut work, &mut self.clients);
        let mut out: Vec<Client> = Vec::new();
        let n = work.len();
        let mut i: usize = 0;
        while i < n
            invariant
                i <= n,
                n == orig.len(),
                models_of(work@) =~= orig.skip(i as int),
                models_of(out@) =~= spec_sweep(orig.take(i as int), pm),
            decreases n - i,
        {
            let ghost wpre = work@;
            let ghost outpre = out@;
            let mut c = work.remove(0);
            let ghost cpre = c;
            let probe = ping_frame();
            let ok = c.chan.try_send(probe);
            let ghost gc = c;
            proof {
                assert(wpre.len() == n - i);
                assert(models_of(wpre.remove(0)) =~= models_of(wpre).remove(0));
                assert(models_of(wpre).remove(0) =~= orig.skip(i + 1));
                assert(cpre == wpre[0]);
                assert(cpre@ == models_of(wpre)[0]);
                assert(models_of(wpre)[0] == orig.skip(i as int)[0]);
                assert(orig.skip(i as int)[0] == orig[i as int]);
                let t1 = orig.take(i + 1);
                assert(t1.drop_last() =~= orig.take(i as int));
                assert(t1.last() == orig[i as int]);
            }
            if ok {
                out.push(c);
                proof {
                    assert(models_of(outpre.push(gc)) =~= models_of(outpre).push(gc@));
                    assert(gc@ == (ClientModel {
                        id: orig[i as int].id,
                        chan: deliver(orig[i as int].chan, pm),
                    }));
                    assert(spec_sweep(orig.take(i as int), pm).push(gc@) == spec_sweep(
                        orig.take(i + 1),
                        pm,
                    ));
                }
            } else {
                proof {
                    assert(spec_sweep(orig.take(i as int), pm) == spec_sweep(orig.take(i + 1), pm));
                }
            }
            i = i + 1;
        }
        self.clients = out;
        proof {
            assert(orig.take(n as int) =~= orig);
            lemma_sweep_wf(orig, pm, self.next_id);
        }
    }

    /// Finds the position of subscriber `id`'s channel, or the collection's
    /// length when there is none.
    #[verifier::loop_isolation(false)]
    fn find_client(&self, id: u64) -> (idx: usize)
        ensures
            idx <= self@.clients.len(),
            idx == self@.clients.len() ==> !has_client(self@.clients, id),
            idx < self@.clients.len() ==> self@.clients[idx as int].id == id,
    {
        proof {
            assert(self@.clients.len() == self.clients@.len());
        }
        let n = self.clients.len();
        let mut idx: usize = n;
        let mut i: usize = 0;
        while i < n
            invariant
                i <= n,
                idx <= n,
                idx == n ==> forall|j: int| 0 <= j < i ==> self@.clients[j].id != id,
                idx < n ==> self@.clients[idx as int].id == id,
            decreases n - i,
        {
            if idx == n && self.clients[i].id == id {
                idx = i;
            }
            i = i + 1;
        }
        idx
    }

    /// Produces the next framed message of subscriber `id`'s stream, if one
    /// is pending. `Empty` asks the reader to wait for more data; `Gone`
    /// means the broadcaster no longer holds the channel (the sweep evicted
    /// it), which is the stream's normal terminal state.
    pub fn poll_next(&mut self, id: u64) -> (r: Received)
        requires
            old(self).wf(),
        ensures
            final(self).wf(),
            final(self)@.next_id == old(self)@.next_id,
            !has_client(old(self)@.clients, id) ==> r is Gone && final(self)@ == old(self)@,
            forall|i: int|
                0 <= i < old(self)@.clients.len() && old(self)@.clients[i].id == id ==> {
                    let ch = old(self)@.clients[i].chan;
                    if ch.pending.len() == 0 {
                        r is Empty && final(self)@ == old(self)@
                    } else {
                        &&& (r matches Received::Message { bytes } && bytes@ == ch.pending[0])
                        &&& final(self)@.clients == old(self)@.clients.update(
                            i,
                            ClientModel {
                                id,
                                chan: ChannelModel {
                                    pending: ch.pending.drop_first(),
                                    closed: ch.closed,
                                },
                            },
                        )
                    }
                },
    {
        let ghost prem = models_of(self.clients@);
        let idx = self.find_client(id);
        if idx == self.clients.len() {
            Received::Gone
        } else {
            proof {
                assert(prem[idx as int].id == id);
                assert forall|i2: int| 0 <= i2 < prem.len() && prem[i2].id == id implies i2
                    == idx as int by {}
            }
            let ghost oldc = prem[idx as int];
            let c = &mut self.clients[idx];
            let got = c.chan.try_recv();
            proof {
                assert(models_of(self.clients@) =~= prem.update(
                    idx as int,
                    self.clients@[idx as int]@,
                ));
            }
            match got {
                None => {
                    proof {
                        assert(oldc.chan.pending.len() == 0);
                        assert(self.clients@[idx as int]@ == oldc);
                        assert(prem.update(idx as int, oldc) =~= prem);
                    }
                    Received::Empty
                },
                Some(bytes) => {
                    proof {
                        assert(oldc.chan.pending.len() > 0);
                        assert(self.clients@[idx as int]@ == (ClientModel {
                            id,
                            chan: ChannelModel {
                                pending: oldc.chan.pending.drop_first(),
                                closed: oldc.chan.closed,
                            },
                        }));
                    }
                    Received::Message { bytes }
                },
            }
        }
    }

    /// Detaches subscriber `id`'s reader end, as dropping the subscription
    /// stream does: later sends to that channel fail, and the next sweep
    /// evicts it. Unknown identifiers are ignored.
    pub fn close_client(&mut self, id: u64)
        requires
            old(self).wf(),
        ensures
            final(self).wf(),
            final(self)@.next_id == old(self)@.next_id,
            !has_client(old(self)@.clients, id) ==> final(self)@ == old(self)@,
            forall|i: int|
                0 <= i < old(self)@.clients.len() && old(self)@.clients[i].id == id
                    ==> final(self)@.clients == old(self)@.clients.update(
                    i,
                    ClientModel {
                        id,
                        chan: ChannelModel {
                            pending: old(self)@.clients[i].chan.pending,
                            closed: true,
                        },
                    },
                ),
    {
        let ghost prem = models_of(self.clients@);
        let idx = self.find_client(id);
        if idx < self.clients.len() {
            proof {
                assert forall|i2: int| 0 <= i2 < prem.len() && prem[i2].id == id implies i2
                    == idx as int by {}
            }
            let c = &mut self.clients[idx];
            c.chan.close();
            proof {
                assert(models_of(self.clients@) =~= prem.update(
                    idx as int,
                    ClientModel {
                        id,
                        chan: ChannelModel {
                            pending: prem[idx as int].chan.pending,
                            closed: true,
                        },
                    },
                ));
            }
        }
    }

    /// How many subscriber channels are currently in the collection.
    pub fn client_count(&self) -> (n: usize)
        ensures
            n == self@.clients.len(),
    {
        self.clients.len()
    }

    /// The identifiers of the current subscriber channels, in order.
    #[verifier::loop_isolation(false)]
    pub fn client_ids(&self) -> (r: Vec<u64>)
        ensures
            r@ == ids_of(self@.clients),
    {
        let mut r: Vec<u64> = Vec::new();
        let n = self.clients.len();
        let mut i: usize = 0;
        while i < n
            invariant
                i <= n,
                r@ =~= ids_of(self@.clients.take(i as int)),
            decreases n - i,
        {
            r.push(self.clients[i].id);
            proof {
                assert(ids_of(self@.clients.take(i as int)).push(self@.clients[i as int].id)
                    =~= ids_of(self@.clients.take(i + 1)));
            }
            i = i + 1;
        }
        proof {
            assert(self@.clients.take(n as int) =~= self@.clients);
        }
        r
    }
}

} // verus!
