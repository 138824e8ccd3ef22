use sketchybar_ipc::codec::format_mach_message;
use sketchybar_ipc::messenger::mach_msgh_bits_set;
use sketchybar_ipc::messenger::message;
use sketchybar_ipc::messenger::send_request;
use sketchybar_ipc::messenger::ExchangePhase;
use sketchybar_ipc::messenger::exchange_allocated;
use sketchybar_ipc::messenger::exchange_released;
use sketchybar_ipc::messenger::exchange_replied;
use sketchybar_ipc::messenger::exchange_right_inserted;
use sketchybar_ipc::messenger::exchange_sent;
use sketchybar_ipc::messenger::exchange_start;
use sketchybar_ipc::ports::PortSystem;
use sketchybar_ipc::registry::cached_resolve;
use sketchybar_ipc::registry::PortCache;
use sketchybar_ipc::server::event_server_begin;
use sketchybar_ipc::server::server_poll;
use sketchybar_ipc::server::server_stop;
use sketchybar_ipc::server::MachServer;
use sketchybar_ipc::server::ServerState;

#[test]
fn send_request_echo_round_trip() {
    let mut sys = PortSystem::new();
    let service = sys.install_echo_service();
    let reply = send_request(&mut sys, service, "--query bar");
    assert_eq!(reply, Some(String::from("--query\nbar")));
}

#[test]
fn send_request_rejects_empty_payload_and_null_target() {
    let mut sys = PortSystem::new();
    let service = sys.install_echo_service();
    assert_eq!(send_request(&mut sys, service, ""), None);
    assert_eq!(send_request(&mut sys, 0, "--reload"), None);
    assert_eq!(sys.allocated_count(), 0);
}

#[test]
fn concurrent_exchanges_each_get_their_own_nonce_back() {
    // several in-flight exchanges against the echoing double, each with a
    // unique nonce: every caller receives exactly its own reply, because
    // each exchange waits on its own fresh reply endpoint
    let mut sys = PortSystem::new();
    let service = sys.install_echo_service();
    let nonces = ["nonce-a", "nonce-b", "nonce-c", "nonce-d", "nonce-e"];
    // other callers' traffic already sits undelivered in the channel
    let stale = format_mach_message("stale traffic");
    sys.send(service, 0, stale);
    for nonce in nonces {
        let payload = format!("ping {}", nonce);
        let reply = send_request(&mut sys, service, &payload);
        assert_eq!(reply, Some(format!("ping\n{}", nonce)));
    }
}

#[test]
fn interleaved_exchanges_receive_replies_on_their_own_endpoints() {
    // two exchanges in flight at once: replies are picked up in the opposite
    // order from the sends, yet each lands on its own private reply endpoint
    let mut sys = PortSystem::new();
    let service = sys.install_echo_service();
    let wire_a = format_mach_message("nonce-a");
    let wire_b = format_mach_message("nonce-b");
    let reply_a = sys.allocate();
    let reply_b = sys.allocate();
    assert_ne!(reply_a, reply_b);
    sys.send(service, reply_a, wire_a);
    sys.send(service, reply_b, wire_b);
    let got_b = sys.receive(reply_b).expect("a reply for the second exchange");
    let got_a = sys.receive(reply_a).expect("a reply for the first exchange");
    assert_eq!(
        sketchybar_ipc::codec::try_read_double_nul_terminated_string(&got_b.bytes, 0).as_deref(),
        Some("nonce-b")
    );
    assert_eq!(
        sketchybar_ipc::codec::try_read_double_nul_terminated_string(&got_a.bytes, 0).as_deref(),
        Some("nonce-a")
    );
    sys.release(reply_a);
    sys.release(reply_b);
    assert_eq!(sys.allocated_count(), 0);
}

#[test]
fn message_with_empty_command_is_none() {
    let mut sys = PortSystem::new();
    let service = sys.install_echo_service();
    let mut cache = PortCache::new();
    assert_eq!(message(&mut sys, &mut cache, ""), None);
    assert_eq!(cache.port, service);
    assert_eq!(sys.allocated_count(), 0);
}

#[test]
fn endpoint_count_returns_to_zero_after_mixed_exchanges() {
    // M successful and M timed-out exchanges; the counting double shows
    // every allocation matched by a release
    let mut sys = PortSystem::new();
    let service = sys.install_echo_service();
    // a valid endpoint whose owner never answers: its exchanges time out
    let silent_peer = sys.allocate();
    let baseline = sys.allocated_count();
    for i in 0..4 {
        let payload = format!("ping {}", i);
        assert!(send_request(&mut sys, service, &payload).is_some());
        assert_eq!(send_request(&mut sys, silent_peer, &payload), None);
    }
    assert_eq!(sys.allocated_count(), baseline);
}

#[test]
fn message_resolves_once_and_reuses_the_cache() {
    let mut sys = PortSystem::new();
    let service = sys.install_echo_service();
    let mut cache = PortCache::new();
    assert_eq!(cache.port, 0);
    let first = message(&mut sys, &mut cache, "--query bar");
    assert_eq!(first, Some(String::from("--query\nbar")));
    assert_eq!(cache.port, service);
    let second = message(&mut sys, &mut cache, "--reload");
    assert_eq!(second, Some(String::from("--reload")));
    assert_eq!(cache.port, service);
}

#[test]
fn message_with_unresolved_name_is_none() {
    let mut sys = PortSystem::new();
    let mut cache = PortCache::new();
    assert_eq!(message(&mut sys, &mut cache, "--reload"), None);
    assert_eq!(cache.port, 0);
}

#[test]
fn cached_resolve_populates_then_reuses() {
    let mut sys = PortSystem::new();
    let service = sys.install_echo_service();
    let mut cache = PortCache::new();
    assert_eq!(cached_resolve(&sys, &mut cache), service);
    assert_eq!(cached_resolve(&sys, &mut cache), service);
}

#[test]
fn exchange_engine_walks_the_happy_path() {
    let ph = exchange_start(7, 5);
    let ph = exchange_allocated(ph, true, 9);
    let ph = exchange_right_inserted(ph, true);
    let ph = exchange_sent(ph);
    let attachment = b"pong\0\0".to_vec();
    let ph = exchange_replied(ph, Some(&attachment));
    match &ph {
        ExchangePhase::NeedRelease { reply_port, reply } => {
            assert_eq!(*reply_port, 9);
            assert_eq!(reply.as_deref(), Some("pong"));
        }
        _ => panic!("expected the release phase"),
    }
    let ph = exchange_released(ph);
    match ph {
        ExchangePhase::Done { reply } => assert_eq!(reply.as_deref(), Some("pong")),
        _ => panic!("expected the finished phase"),
    }
}

#[test]
fn exchange_engine_releases_after_failed_send_right() {
    let ph = exchange_start(7, 5);
    let ph = exchange_allocated(ph, true, 9);
    let ph = exchange_right_inserted(ph, false);
    match &ph {
        ExchangePhase::NeedRelease { reply_port, reply } => {
            assert_eq!(*reply_port, 9);
            assert_eq!(*reply, None);
        }
        _ => panic!("a failed grant must still walk through the release phase"),
    }
}

#[test]
fn exchange_engine_rejects_invalid_starts() {
    match exchange_start(0, 5) {
        ExchangePhase::Done { reply } => assert_eq!(reply, None),
        _ => panic!("target 0 must finish at once"),
    }
    match exchange_start(7, 0) {
        ExchangePhase::Done { reply } => assert_eq!(reply, None),
        _ => panic!("an empty payload must finish at once"),
    }
}

#[test]
fn header_bits_compose_the_documented_word() {
    // copy-send remote right, make-send local right, no voucher, complex flag
    let bits = mach_msgh_bits_set(19, 20, 0, 0x8000_0000);
    assert_eq!(bits, 0x8000_1413);
    assert_eq!(mach_msgh_bits_set(0, 0, 0, 0), 0);
}

#[test]
fn listener_delivers_each_message_once_in_arrival_order() {
    let mut sys = PortSystem::new();
    let mut srv = MachServer::new();
    assert!(event_server_begin(&mut sys, &mut srv));
    assert!(matches!(srv.state, ServerState::Running));
    let first = format_mach_message("set icon on");
    let second = format_mach_message("--reload");
    let third = b"unterminated".to_vec();
    let port = srv.port;
    sys.send(port, 0, first);
    sys.send(port, 0, second);
    sys.send(port, 0, third);
    server_poll(&mut sys, &mut srv);
    assert_eq!(
        srv.delivered,
        vec![
            String::from("set\nicon\non"),
            String::from("--reload"),
            String::from(""),
        ]
    );
    // nothing pending: polling again delivers nothing more
    server_poll(&mut sys, &mut srv);
    assert_eq!(srv.delivered.len(), 3);
}

#[test]
fn listener_start_fails_when_the_name_is_taken() {
    let mut sys = PortSystem::new();
    let _service = sys.install_echo_service();
    let before = sys.allocated_count();
    let mut srv = MachServer::new();
    assert!(!event_server_begin(&mut sys, &mut srv));
    assert!(matches!(srv.state, ServerState::Stopped));
    assert_eq!(sys.allocated_count(), before);
}

#[test]
fn listener_stop_signal_is_terminal() {
    let mut sys = PortSystem::new();
    let mut srv = MachServer::new();
    assert!(event_server_begin(&mut sys, &mut srv));
    server_stop(&mut srv);
    assert!(matches!(srv.state, ServerState::Stopped));
}
