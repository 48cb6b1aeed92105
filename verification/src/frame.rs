//! SSE wire framing: a payload is delivered as the bytes `data: <payload>\n\n`.

use vstd::prelude::*;

verus! {

/// The bytes of the literal prefix `data: `.
pub open spec fn data_prefix() -> Seq<u8> {
    seq![100u8, 97u8, 116u8, 97u8, 58u8, 32u8]
}

/// The bytes of the reserved payload `connected`, sent once at subscribe time.
pub open spec fn connected_payload() -> Seq<u8> {
    seq![99u8, 111u8, 110u8, 110u8, 101u8, 99u8, 116u8, 101u8, 100u8]
}

/// The bytes of the reserved payload `ping`, sent by the periodic sweep.
pub open spec fn ping_payload() -> Seq<u8> {
    seq![112u8, 105u8, 110u8, 103u8]
}

/// The SSE frame for a payload: `data: <payload>\n\n`.
pub open spec fn spec_frame(payload: Seq<u8>) -> Seq<u8> {
    data_prefix() + payload + seq![10u8, 10u8]
}

/// Wraps a payload in the SSE text delimiter: `data: <payload>\n\n`.
pub fn frame_message(payload: &Vec<u8>) -> (r: Vec<u8>)
    ensures
        r@ == spec_frame(payload@),
{
    let mut r: Vec<u8> = Vec::new();
    r.push(100u8);
    r.push(97u8);
    r.push(116u8);
    r.push(97u8);
    r.push(58u8);
    r.push(32u8);
    assert(r@ =~= data_prefix());
    let mut i: usize = 0;
    while i < payload.len()
        invariant
            i <= payload@.len(),
            r@ == data_prefix() + payload@.take(i as int),
        decreases payload@.len() - i,
    {
        r.push(payload[i]);
        assert(data_prefix() + payload@.take(i as int) + seq![payload@[i as int]] =~= data_prefix()
            + payload@.take(i + 1));
        i = i + 1;
    }
    assert(payload@.take(payload@.len() as int) =~= payload@);
    r.push(10u8);
    r.push(10u8);
    assert(r@ =~= spec_frame(payload@));
    r
}

/// The framed `connected` greeting: `data: connected\n\n`.
pub fn connected_frame() -> (r: Vec<u8>)
    ensures
        r@ == spec_frame(connected_payload()),
{
    let mut payload: Vec<u8> = Vec::new();
    payload.push(99u8);
    payload.push(111u8);
    payload.push(110u8);
    payload.push(110u8);
    payload.push(101u8);
    payload.push(99u8);
    payload.push(116u8);
    payload.push(101u8);
    payload.push(100u8);
    assert(payload@ =~= connected_payload());
    frame_message(&payload)
}

/// The framed liveness probe: `data: ping\n\n`.
pub fn ping_frame() -> (r: Vec<u8>)
    ensures
        r@ == spec_frame(ping_payload()),
{
    let mut payload: Vec<u8> = Vec::new();
    payload.push(112u8);
    payload.push(105u8);
    payload.push(110u8);
    payload.push(103u8);
    assert(payload@ =~= ping_payload());
    frame_message(&payload)
}

} // verus!
