use stomp_broker::connection::{client_request, ClientRequest};
use stomp_broker::listener::{peer_event, PeerAddr, PeerEvent, PeerRegistry, RegistrarAction};
use stomp_broker::proto::stomp::{Frame, STOMPParser};
use stomp_broker::queue::Queue;

fn addr(port: u16) -> PeerAddr {
    PeerAddr { ip: 0x7f00_0001, port, is_v6: false, flowinfo: 0, scope_id: 0 }
}

fn subscribe(port: u16) -> PeerEvent {
    let frame = STOMPParser::new().parse("SUBSCRIBE\nid:0\ndestination:/queue/foo");
    peer_event(addr(port), frame)
}

fn send(port: u16) -> PeerEvent {
    let frame = STOMPParser::new().parse("SEND\ndestination:/queue/foo");
    peer_event(addr(port), frame)
}

fn recipients(action: RegistrarAction) -> Vec<u16> {
    match action {
        RegistrarAction::Forward { recipients, .. } => {
            let mut ports: Vec<u16> = recipients.iter().map(|a| a.port).collect();
            ports.sort();
            ports
        }
        other => panic!("expected a forward, got {:?}", other),
    }
}

#[test]
fn subscribe_frames_announce_peers() {
    assert!(matches!(subscribe(1), PeerEvent::NewPeer { addr: a, .. } if a == addr(1)));
    assert!(matches!(send(2), PeerEvent::Message { from: a, .. } if a == addr(2)));
}

#[test]
fn new_peer_gets_a_dispatcher_once() {
    let mut reg = PeerRegistry::new();
    assert!(!reg.contains(addr(1)));
    assert!(matches!(reg.handle(subscribe(1)), RegistrarAction::StartDispatcher { addr: a } if a == addr(1)));
    assert!(reg.contains(addr(1)));
    assert!(matches!(reg.handle(subscribe(1)), RegistrarAction::Nothing));
    assert!(reg.contains(addr(1)));
}

#[test]
fn messages_reach_every_other_peer() {
    let mut reg = PeerRegistry::new();
    reg.handle(subscribe(1));
    reg.handle(subscribe(2));
    reg.handle(subscribe(3));
    reg.handle(subscribe(2));
    assert_eq!(recipients(reg.handle(send(2))), vec![1, 3]);
    assert_eq!(recipients(reg.handle(send(9))), vec![1, 2, 3]);
}

#[test]
fn message_without_peers_goes_nowhere() {
    let mut reg = PeerRegistry::new();
    assert_eq!(recipients(reg.handle(send(1))), Vec::<u16>::new());
    assert!(!reg.contains(addr(1)));
}

#[test]
fn forwarded_frame_is_the_message() {
    let mut reg = PeerRegistry::new();
    reg.handle(subscribe(1));
    match reg.handle(send(2)) {
        RegistrarAction::Forward { frame, .. } => {
            assert_eq!(frame.kind, Frame::Send);
            assert_eq!(frame.get_header("destination").unwrap(), "/queue/foo");
        }
        _ => panic!("expected a forward"),
    }
}

#[test]
fn addresses_differ_by_every_field() {
    let mut reg = PeerRegistry::new();
    reg.handle(subscribe(1));
    let v6 = PeerAddr { is_v6: true, ..addr(1) };
    assert!(!reg.contains(v6));
    let other_scope = PeerAddr { scope_id: 3, ..addr(1) };
    assert!(!reg.contains(other_scope));
}

#[test]
fn client_requests() {
    let parser = STOMPParser::new();
    match client_request(&parser.parse("SUBSCRIBE\ndestination:/queue/a\nid:1")) {
        ClientRequest::Subscribe { destination } => assert_eq!(destination, "/queue/a"),
        other => panic!("unexpected {:?}", other),
    }
    match client_request(&parser.parse("SEND\ndestination:/topic/b")) {
        ClientRequest::Publish { destination } => assert_eq!(destination, "/topic/b"),
        other => panic!("unexpected {:?}", other),
    }
    match client_request(&parser.parse("UNSUBSCRIBE\nid:1\ndestination:/queue/a")) {
        ClientRequest::Unsubscribe { destination } => {
            assert_eq!(destination.as_deref(), Some("/queue/a"))
        }
        other => panic!("unexpected {:?}", other),
    }
    assert!(matches!(
        client_request(&parser.parse("UNSUBSCRIBE\nid:1")),
        ClientRequest::Unsubscribe { destination: None }
    ));
    assert!(matches!(client_request(&parser.parse("ACK\nid:1")), ClientRequest::Ignore));
    assert!(matches!(client_request(&parser.parse("BOGUS")), ClientRequest::Ignore));
}

#[test]
fn queue_keeps_its_routing_key() {
    let q = Queue::new(String::from("/queue/foo"));
    assert_eq!(q.routing_key(), "/queue/foo");
    assert_eq!(Queue::new(String::new()).routing_key(), "");
}

#[test]
fn registered_peers_are_the_subscribers_of_the_run() {
    let mut reg = PeerRegistry::new();
    let mut started = 0;
    let events = vec![subscribe(1), send(4), subscribe(2), subscribe(1), send(2), subscribe(3), send(3)];
    let mut forwards = Vec::new();
    for e in events {
        match reg.handle(e) {
            RegistrarAction::StartDispatcher { .. } => started += 1,
            RegistrarAction::Forward { recipients, .. } => {
                let mut ports: Vec<u16> = recipients.iter().map(|a| a.port).collect();
                ports.sort();
                forwards.push(ports);
            }
            RegistrarAction::Nothing => {}
        }
    }
    assert_eq!(started, 3);
    for p in [1, 2, 3].iter() {
        assert!(reg.contains(addr(*p)));
    }
    assert!(!reg.contains(addr(4)));
    assert_eq!(forwards, vec![vec![1], vec![1], vec![1, 2]]);
}
