//! The decisions of the signature capture server: what each datagram asks
//! for, and how the count of recorded signatures moves.
use vstd::prelude::*;

verus! {

/// What a datagram from the headset asks the server to do.
#[derive(Debug, Clone, Copy, PartialEq, Eq, Structural)]
pub enum Request {
    /// `HFQ!`: the headset looks for the server and waits for `ACK`.
    Handshake,
    /// `NS`: the current signature is complete; the next one starts.
    NextSignature,
    /// Anything else: samples of the current signature, `;` between samples.
    Samples,
}

/// The bytes of the handshake datagram, `HFQ!`.
pub open spec fn handshake_bytes() -> Seq<u8> {
    seq![72u8, 70u8, 81u8, 33u8]
}

/// The bytes of the next-signature datagram, `NS`.
pub open spec fn next_signature_bytes() -> Seq<u8> {
    seq![78u8, 83u8]
}

/// The request that a datagram's bytes carry.
pub open spec fn request_of(message: Seq<u8>) -> Request {
    if message == handshake_bytes() {
        Request::Handshake
    } else if message == next_signature_bytes() {
        Request::NextSignature
    } else {
        Request::Samples
    }
}

/// Reads the request that a datagram carries.
pub fn classify(message: &[u8]) -> (r: Request)
    ensures
        r == request_of(message@),
{
    if message.len() == 4 && message[0] == 72u8 && message[1] == 70u8 && message[2] == 81u8
        && message[3] == 33u8 {
        assert(message@ =~= handshake_bytes());
        Request::Handshake
    } else if message.len() == 2 && message[0] == 78u8 && message[1] == 83u8 {
        assert(message@ =~= next_signature_bytes());
        Request::NextSignature
    } else {
        Request::Samples
    }
}

/// What the server does in answer to a datagram.
#[derive(Debug, Clone, Copy, PartialEq, Eq, Structural)]
pub enum Action {
    /// Send `ACK` back to the sender.
    Acknowledge,
    /// Write the number of the signature just completed to the
    /// visualization file.
    MarkSignature(u32),
    /// Append the samples to the files of the given signature.
    StoreSamples(u32),
}

/// One step of the server: from the number of completed signatures and a
/// datagram to the next number and the action to take.
pub fn server_step(signature_counter: u32, message: &[u8]) -> (r: (u32, Action))
    requires
        request_of(message@) == Request::NextSignature ==> signature_counter < u32::MAX,
    ensures
        r == (match request_of(message@) {
            Request::Handshake => (signature_counter, Action::Acknowledge),
            Request::NextSignature => (
                (signature_counter + 1) as u32,
                Action::MarkSignature(signature_counter),
            ),
            Request::Samples => (signature_counter, Action::StoreSamples(signature_counter)),
        }),
{
    match classify(message) {
        Request::Handshake => (signature_counter, Action::Acknowledge),
        Request::NextSignature => (signature_counter + 1, Action::MarkSignature(signature_counter)),
        Request::Samples => (signature_counter, Action::StoreSamples(signature_counter)),
    }
}

/// One step of the server as `server_step` takes it, or `None` when the
/// datagram completes a signature while the counter is at its largest value.
pub fn try_server_step(signature_counter: u32, message: &[u8]) -> (r: Option<(u32, Action)>)
    ensures
        r is None <==> (request_of(message@) == Request::NextSignature && signature_counter
            == u32::MAX),
        r matches Some(step) ==> step == (match request_of(message@) {
            Request::Handshake => (signature_counter, Action::Acknowledge),
            Request::NextSignature => (
                (signature_counter + 1) as u32,
                Action::MarkSignature(signature_counter),
            ),
            Request::Samples => (signature_counter, Action::StoreSamples(signature_counter)),
        }),
{
    if classify(message) == Request::NextSignature && signature_counter == u32::MAX {
        None
    } else {
        Some(server_step(signature_counter, message))
    }
}

/// The counter of completed signatures only moves on `NS`, and then by one;
/// samples are always stored under the signature being recorded.
pub proof fn lemma_counter_moves_on_next_only(
    signature_counter: u32,
    message: Seq<u8>,
    next: u32,
    action: Action,
)
    requires
        (next, action) == (match request_of(message) {
            Request::Handshake => (signature_counter, Action::Acknowledge),
            Request::NextSignature => (
                (signature_counter + 1) as u32,
                Action::MarkSignature(signature_counter),
            ),
            Request::Samples => (signature_counter, Action::StoreSamples(signature_counter)),
        }),
        request_of(message) == Request::NextSignature ==> signature_counter < u32::MAX,
    ensures
        next == signature_counter || (message == next_signature_bytes() && next
            == signature_counter + 1),
        action matches Action::StoreSamples(n) ==> n == signature_counter,
        action matches Action::MarkSignature(n) ==> n + 1 == next,
{
}

} // verus!
