use rust_dtw_algorithm::server::try_server_step;
use rust_dtw_algorithm::server::{classify, server_step, Action, Request};

#[test]
fn classify_requests() {
    assert_eq!(classify(b"HFQ!"), Request::Handshake);
    assert_eq!(classify(b"NS"), Request::NextSignature);
    assert_eq!(classify(b"1,2,3;4,5,6"), Request::Samples);
    assert_eq!(classify(b"HFQ"), Request::Samples);
    assert_eq!(classify(b"NSX"), Request::Samples);
    assert_eq!(classify(b""), Request::Samples);
}

#[test]
fn server_steps() {
    assert_eq!(server_step(0, b"HFQ!"), (0, Action::Acknowledge));
    assert_eq!(server_step(0, b"1,2,3;"), (0, Action::StoreSamples(0)));
    assert_eq!(server_step(0, b"NS"), (1, Action::MarkSignature(0)));
    assert_eq!(server_step(1, b"4,5,6;"), (1, Action::StoreSamples(1)));
}

#[test]
fn counter_moves_only_on_next_signature() {
    let mut counter = 7u32;
    for msg in [&b"HFQ!"[..], b"x", b"NS", b"y", b"NS"] {
        let (next, _) = server_step(counter, msg);
        if msg == b"NS" {
            assert_eq!(next, counter + 1);
        } else {
            assert_eq!(next, counter);
        }
        counter = next;
    }
    assert_eq!(counter, 9);
}

#[test]
fn try_server_step_refuses_counter_overflow() {
    assert_eq!(try_server_step(u32::MAX, b"NS"), None);
    assert_eq!(try_server_step(u32::MAX, b"HFQ!"), Some((u32::MAX, Action::Acknowledge)));
    assert_eq!(try_server_step(2, b"NS"), Some((3, Action::MarkSignature(2))));
}
