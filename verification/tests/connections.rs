use rinha_fraud::connection::{
    epoll_client_token, epoll_control_token, next_epoll_generation, next_event_step, send_all_step,
    slot_generation, token_owner, Conn, EventFlags, EventStage, EventStep, FlushStep, Outcome, Owner,
    ReadStep, ReceiveStep, SendAllStep, SendStep, Service, EPOLL_LISTENER_TOKEN,
};

fn score_length(body: &[u8]) -> u8 {
    if body.len() > 3 {
        5
    } else {
        0
    }
}

fn feed(conn: &mut Conn, bytes: &[u8]) {
    let used = conn.used;
    conn.buffer[used..used + bytes.len()].copy_from_slice(bytes);
    assert_eq!(
        conn.received(Service::EventLoop, Outcome::Moved(bytes.len())),
        ReceiveStep::GoOn
    );
}

fn sent_text(step: ReadStep) -> (String, bool) {
    match step {
        ReadStep::Send { response, close_after } => {
            (String::from_utf8(response.to_vec()).unwrap(), close_after)
        }
        _ => panic!("nothing to send"),
    }
}

#[test]
fn tokens_lead_back_to_their_sockets() {
    for (fd, generation) in [(0, 1), (5, 7), (i32::MAX, 0x7fff_ffff), (-1, 3)] {
        let client = epoll_client_token(fd, generation);
        let control = epoll_control_token(fd, generation);
        assert_eq!(client, ((generation as u64) << 32) | (fd as u32 as u64));
        assert_eq!(control, (1u64 << 63) | client);
        assert_eq!(token_owner(client), Owner::Client { fd, generation });
        assert_eq!(token_owner(control), Owner::Control { fd, generation });
    }
    assert_eq!(epoll_control_token(3, u32::MAX), (1u64 << 63) | epoll_client_token(3, u32::MAX));
    assert_eq!(token_owner(EPOLL_LISTENER_TOKEN), Owner::Listener);
}

#[test]
fn generations_go_round_without_zero() {
    assert_eq!(next_epoll_generation(0), 1);
    assert_eq!(next_epoll_generation(1), 2);
    assert_eq!(next_epoll_generation(0x7fff_ffff), 1);
    assert_eq!(next_epoll_generation(u32::MAX), 1);
    assert_eq!(slot_generation(None), 1);
    assert_eq!(slot_generation(Some(41)), 42);
}

#[test]
fn slots_are_reused_under_a_new_generation() {
    let mut conn = Conn::inactive();
    assert!(!conn.is_current(-1, 0));
    conn.reset(9, 1);
    assert!(conn.is_current(9, 1));
    feed(&mut conn, b"GET");
    conn.deactivate();
    assert!(!conn.is_current(9, 1));
    assert_eq!(conn.used, 0);
    let next = slot_generation(Some(conn.generation));
    conn.reset(9, next);
    assert!(!conn.is_current(9, 1));
    assert!(conn.is_current(9, 2));
}

#[test]
fn messages_are_answered_in_order() {
    let mut conn = Conn::new(4, 1);
    assert!(matches!(
        conn.next_read(Service::EventLoop, false, score_length),
        ReadStep::Receive
    ));
    feed(&mut conn, b"GET /ready HTTP/1.1\r\n\r\nPOST /fraud-score HTTP/1.1\r\nContent-Length: 005\r\n\r\nabc");
    let (text, close) = sent_text(conn.next_read(Service::EventLoop, false, score_length));
    assert!(text.ends_with("ok") && !close);
    assert!(matches!(
        conn.next_read(Service::EventLoop, true, score_length),
        ReadStep::Keep
    ));
    assert!(matches!(
        conn.next_read(Service::Worker, true, score_length),
        ReadStep::Receive
    ));
    feed(&mut conn, b"deDELETE / HTTP/1.1\r\nContent-Length: 001\r\n\r\nx");
    let (text, close) = sent_text(conn.next_read(Service::EventLoop, false, score_length));
    assert!(text.ends_with("{\"approved\":false,\"fraud_score\":1}") && !close);
    let (text, close) = sent_text(conn.next_read(Service::EventLoop, true, score_length));
    assert!(text.starts_with("HTTP/1.1 404") && close);
    assert_eq!(conn.used, 0);
}

#[test]
fn the_service_decides_about_closing() {
    for (service, known, unknown) in [
        (Service::EventLoop, false, true),
        (Service::Worker, false, false),
        (Service::OneShot, true, true),
    ] {
        let mut conn = Conn::new(4, 1);
        feed(&mut conn, b"POST /fraud-score HTTP/1.1\r\nContent-Length: 002\r\n\r\nab");
        let (text, close) = sent_text(conn.next_read(service, false, score_length));
        assert!(text.ends_with("{\"approved\":true,\"fraud_score\":0}"));
        assert_eq!(close, known);
        feed(&mut conn, b"X / HTTP/1.1\r\nContent-Length: 000\r\n\r\n");
        assert_eq!(sent_text(conn.next_read(service, false, score_length)).1, unknown);
    }
}

#[test]
fn other_routes_are_not_found() {
    for request in [
        "GET /other HTTP/1.1\r\n\r\n",
        "GET / HTTP/1.1\r\n\r\n",
        "GET /readyz HTTP/1.1\r\n\r\n",
        "POST / HTTP/1.1\r\nContent-Length: 002\r\n\r\nab",
        "POST /ready HTTP/1.1\r\nContent-Length: 002\r\n\r\nab",
        "PUT /fraud-score HTTP/1.1\r\nContent-Length: 002\r\n\r\nab",
    ] {
        let mut conn = Conn::new(4, 1);
        feed(&mut conn, request.as_bytes());
        let (text, close) = sent_text(conn.next_read(Service::EventLoop, false, score_length));
        assert!(text.starts_with("HTTP/1.1 404"), "{request}");
        assert!(close);
        assert_eq!(conn.used, 0);
    }
}

#[test]
fn a_full_buffer_without_a_message_is_closed() {
    let mut conn = Conn::new(4, 1);
    feed(&mut conn, &[b'x'; 1024]);
    assert!(matches!(
        conn.next_read(Service::EventLoop, false, score_length),
        ReadStep::Close
    ));
}

#[test]
fn receiving_ends_as_the_socket_says() {
    let mut conn = Conn::new(4, 1);
    assert_eq!(conn.received(Service::EventLoop, Outcome::Moved(0)), ReceiveStep::Close);
    assert_eq!(conn.received(Service::EventLoop, Outcome::WouldBlock), ReceiveStep::Keep);
    assert_eq!(conn.received(Service::Worker, Outcome::WouldBlock), ReceiveStep::Close);
    assert_eq!(conn.received(Service::EventLoop, Outcome::Interrupted), ReceiveStep::GoOn);
    assert_eq!(conn.received(Service::EventLoop, Outcome::Failed), ReceiveStep::Close);
    assert_eq!(conn.used, 0);
}

#[test]
fn partial_answers_are_flushed_in_order() {
    let response: &'static [u8] = b"0123456789";
    let mut conn = Conn::new(4, 1);
    assert_eq!(conn.sent(response, false, Outcome::Interrupted), SendStep::Again);
    assert_eq!(conn.sent(response, false, Outcome::Moved(10)), SendStep::Done);
    assert_eq!(conn.sent(response, true, Outcome::Moved(10)), SendStep::Close);
    assert_eq!(conn.sent(response, false, Outcome::Moved(0)), SendStep::Close);
    assert_eq!(conn.sent(response, false, Outcome::Failed), SendStep::Close);
    assert_eq!(conn.sent(response, true, Outcome::Moved(4)), SendStep::WatchWrite);
    assert!(matches!(
        conn.next_read(Service::EventLoop, false, score_length),
        ReadStep::Keep
    ));
    let mut out: Vec<u8> = response[..4].to_vec();
    assert_eq!(conn.next_flush(), FlushStep::Send);
    assert_eq!(conn.flushed(Outcome::WouldBlock), FlushStep::Wait);
    assert_eq!(conn.flushed(Outcome::Interrupted), FlushStep::Send);
    out.extend(&conn.pending[conn.pending_offset..conn.pending_offset + 3]);
    assert_eq!(conn.flushed(Outcome::Moved(3)), FlushStep::Send);
    out.extend(&conn.pending[conn.pending_offset..]);
    assert_eq!(conn.flushed(Outcome::Moved(3)), FlushStep::Close);
    assert_eq!(out, response);
    assert!(conn.pending.is_empty());
    assert_eq!(conn.sent(response, false, Outcome::WouldBlock), SendStep::WatchWrite);
    assert_eq!(conn.flushed(Outcome::Moved(0)), FlushStep::Close);
    assert_eq!(conn.flushed(Outcome::Failed), FlushStep::Close);
    assert_eq!(conn.flushed(Outcome::Moved(10)), FlushStep::WatchRead);
}

#[test]
fn prefixes_are_consumed() {
    let mut conn = Conn::new(4, 1);
    feed(&mut conn, b"abcdef");
    conn.consume(2);
    assert_eq!(&conn.buffer[..conn.used], b"cdef");
    conn.consume(4);
    assert_eq!(conn.used, 0);
    feed(&mut conn, b"xy");
    conn.consume(9);
    assert_eq!(conn.used, 0);
}

#[test]
fn events_are_handled_in_order() {
    let all = EventFlags { broken: false, writable: true, readable: true, peer_closed: true };
    assert_eq!(next_event_step(all, EventStage::Start, true), EventStep::Flush);
    assert_eq!(next_event_step(all, EventStage::Flushed, true), EventStep::Read);
    assert_eq!(next_event_step(all, EventStage::ReadThrough, true), EventStep::Close);
    assert_eq!(next_event_step(all, EventStage::Flushed, false), EventStep::Close);
    let broken = EventFlags { broken: true, ..all };
    assert_eq!(next_event_step(broken, EventStage::Start, true), EventStep::Close);
    let quiet = EventFlags { peer_closed: false, ..all };
    assert_eq!(next_event_step(quiet, EventStage::ReadThrough, true), EventStep::Done);
    let unreadable = EventFlags { readable: false, ..quiet };
    assert_eq!(next_event_step(unreadable, EventStage::Flushed, true), EventStep::Done);
}

#[test]
fn whole_answers_go_out_step_by_step() {
    assert_eq!(send_all_step(10, 0, Outcome::Moved(4)), SendAllStep::From(4));
    assert_eq!(send_all_step(10, 4, Outcome::Interrupted), SendAllStep::From(4));
    assert_eq!(send_all_step(10, 4, Outcome::Moved(6)), SendAllStep::Done);
    assert_eq!(send_all_step(10, 4, Outcome::Moved(0)), SendAllStep::Closed);
    assert_eq!(send_all_step(10, 4, Outcome::WouldBlock), SendAllStep::Failed);
    assert_eq!(send_all_step(10, 4, Outcome::Failed), SendAllStep::Failed);
}
