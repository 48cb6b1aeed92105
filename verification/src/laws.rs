//! The broadcaster's laws: properties of publishing, subscribing and
//! sweeping, stated over the mathematical model and proved once and for all.

use crate::broadcast::{
    can_accept, deliver, has_client, ids_of, spec_publish, spec_sweep, sweep_source, ClientModel,
    CAPACITY,
};
use crate::broadcast::{fresh_channel, lemma_sweep_shape};
use crate::frame::{connected_payload, spec_frame};
use vstd::prelude::*;

verus! {

/// Publishing a framed message reaches every subscriber at once: the
/// collection keeps its length and identifiers, every channel that can accept
/// the message (reader attached, queue not full) has it appended as its
/// newest pending message, and every other channel is left exactly as it was.
pub proof fn lemma_publish_fanout(s: Seq<ClientModel>, m: Seq<u8>)
    ensures
        spec_publish(s, m).len() == s.len(),
        forall|i: int| 0 <= i < s.len() ==> #[trigger] spec_publish(s, m)[i].id == s[i].id,
        forall|i: int|
            0 <= i < s.len() && can_accept(s[i].chan) ==> #[trigger] spec_publish(
                s,
                m,
            )[i].chan.pending == s[i].chan.pending.push(m),
        forall|i: int|
            0 <= i < s.len() && !can_accept(s[i].chan) ==> #[trigger] spec_publish(s, m)[i]
                == s[i],
{
}

/// A fresh subscription's channel holds exactly the framed `connected`
/// greeting, so `data: connected\n\n` is the first value the stream
/// produces, before any published message.
pub proof fn lemma_connected_first()
    ensures
        fresh_channel().pending.len() == 1,
        fresh_channel().pending[0] == spec_frame(connected_payload()),
        !fresh_channel().closed,
{
}

/// Once a subscriber's reader end is dropped, one sweep evicts its channel:
/// no channel with that identifier survives the sweep.
pub proof fn lemma_closed_client_evicted(s: Seq<ClientModel>, probe: Seq<u8>, id: u64)
    requires
        forall|i: int| 0 <= i < s.len() && #[trigger] s[i].id == id ==> s[i].chan.closed,
    ensures
        !has_client(spec_sweep(s, probe), id),
{
    lemma_sweep_shape(s, probe);
    let t = spec_sweep(s, probe);
    assert forall|j: int| 0 <= j < t.len() implies #[trigger] t[j].id != id by {
        assert(sweep_source(s, probe, t[j]));
        let i = choose|i: int|
            0 <= i < s.len() && can_accept(#[trigger] s[i].chan) && t[j] == (ClientModel {
                id: s[i].id,
                chan: deliver(s[i].chan, probe),
            });
        if s[i].id == id {
            assert(s[i].chan.closed);
        }
    }
}

/// After the sweep that follows a reader's disconnect, publishing never
/// attempts delivery to the dropped subscriber: its identifier is absent
/// from the fan-out, however many messages are published.
pub proof fn lemma_no_delivery_after_eviction(
    s: Seq<ClientModel>,
    probe: Seq<u8>,
    id: u64,
    m: Seq<u8>,
)
    requires
        forall|i: int| 0 <= i < s.len() && #[trigger] s[i].id == id ==> s[i].chan.closed,
    ensures
        !has_client(spec_publish(spec_sweep(s, probe), m), id),
{
    lemma_closed_client_evicted(s, probe, id);
    let t = spec_sweep(s, probe);
    lemma_publish_fanout(t, m);
    assert forall|j: int| 0 <= j < spec_publish(t, m).len() implies #[trigger] spec_publish(
        t,
        m,
    )[j].id != id by {
        assert(spec_publish(t, m)[j].id == t[j].id);
    }
}

/// A sweep of an empty collection is a no-op: it probes nothing and leaves
/// the collection empty.
pub proof fn lemma_sweep_empty(probe: Seq<u8>)
    ensures
        spec_sweep(Seq::<ClientModel>::empty(), probe) == Seq::<ClientModel>::empty(),
{
}

/// A full queue is skipped, not waited for: the send to it fails and changes
/// nothing, while delivery to every channel that can accept the message
/// proceeds untouched.
pub proof fn lemma_full_queue_isolated(s: Seq<ClientModel>, m: Seq<u8>, i: int)
    requires
        0 <= i < s.len(),
        s[i].chan.pending.len() == CAPACITY as int,
    ensures
        !can_accept(s[i].chan),
        spec_publish(s, m)[i] == s[i],
        forall|j: int|
            0 <= j < s.len() && can_accept(s[j].chan) ==> #[trigger] spec_publish(
                s,
                m,
            )[j].chan.pending == s[j].chan.pending.push(m),
{
    lemma_publish_fanout(s, m);
}

/// Sweeping a collection whose channels all accept the probe keeps every
/// channel, in order.
proof fn lemma_sweep_all_accepted(s: Seq<ClientModel>, probe: Seq<u8>)
    requires
        forall|i: int| 0 <= i < s.len() ==> can_accept(#[trigger] s[i].chan),
    ensures
        ids_of(spec_sweep(s, probe)) == ids_of(s),
    decreases s.len(),
{
    if s.len() == 0 {
        assert(ids_of(spec_sweep(s, probe)) =~= ids_of(s));
    } else {
        let short = s.drop_last();
        assert(forall|i: int| 0 <= i < short.len() ==> can_accept(#[trigger] short[i].chan));
        lemma_sweep_all_accepted(short, probe);
        let last = s.last();
        assert(can_accept(last.chan));
        assert(ids_of(spec_sweep(short, probe).push(ClientModel {
            id: last.id,
            chan: deliver(last.chan, probe),
        })) =~= ids_of(spec_sweep(short, probe)).push(last.id));
        assert(ids_of(short).push(last.id) =~= ids_of(s));
    }
}

/// Two sweeps in a row, with no activity in between, agree on the surviving
/// channel set, provided each channel that the first probe reaches still has
/// room for the second one. (A live channel that the first probe fills to
/// capacity would be evicted only by the second sweep, which is why the room
/// for both probes is assumed.)
pub proof fn lemma_sweep_idempotent(s: Seq<ClientModel>, probe: Seq<u8>)
    requires
        forall|i: int|
            0 <= i < s.len() && can_accept(#[trigger] s[i].chan) ==> s[i].chan.pending.len() + 1
                < CAPACITY as int,
    ensures
        ids_of(spec_sweep(spec_sweep(s, probe), probe)) == ids_of(spec_sweep(s, probe)),
{
    lemma_sweep_shape(s, probe);
    let t = spec_sweep(s, probe);
    assert forall|j: int| 0 <= j < t.len() implies can_accept(#[trigger] t[j].chan) by {
        assert(sweep_source(s, probe, t[j]));
        let i = choose|i: int|
            0 <= i < s.len() && can_accept(#[trigger] s[i].chan) && t[j] == (ClientModel {
                id: s[i].id,
                chan: deliver(s[i].chan, probe),
            });
        assert(t[j].chan.pending == s[i].chan.pending.push(probe));
    }
    lemma_sweep_all_accepted(t, probe);
}

} // verus!
