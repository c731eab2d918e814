use layer0::client::{
    application_reply, application_text, bounce_packet, connection_request_peer, Dispatch,
    InitialAction, RequestAction, RequestError,
};
use layer0::connections::Node;
use layer0::ppacket::PPacket;

#[test]
fn receive_dispatches_by_command() {
    let mut n = Node::new();
    assert_eq!(n.receive_packet(&PPacket::new(1, b"a"), 1), Dispatch::ConnectionRequest);
    assert_eq!(n.receive_packet(&PPacket::new(2, b"a"), 1), Dispatch::PingPong);
    assert_eq!(n.receive_packet(&PPacket::new(3, b"a"), 1), Dispatch::Reserved);
    assert_eq!(n.receive_packet(&PPacket::new(4, b"a"), 1), Dispatch::Reserved);
    assert_eq!(n.receive_packet(&PPacket::new(9, b"a"), 1), Dispatch::UnknownCommand);
}

#[test]
fn second_receipt_is_duplicate() {
    let mut n = Node::new();
    let p = PPacket::new(1, b"hello");
    assert_eq!(n.receive_packet(&p, 10), Dispatch::ConnectionRequest);
    assert!(n.does_hash_exist(&p.overall_checksum()));
    assert_eq!(n.receive_packet(&p, 20), Dispatch::Duplicate);
}

#[test]
fn invalid_packet_is_dropped() {
    let mut n = Node::new();
    let mut p = PPacket::new(1, b"hello");
    p.payload = b"other".to_vec();
    assert_eq!(n.receive_packet(&p, 10), Dispatch::Invalid);
    assert!(!n.does_hash_exist(&p.overall_checksum()));
}

#[test]
fn ping_gets_pong() {
    let mut n = Node::new();
    let r = n.handle_ping_pong(&PPacket::ping(), "1.2.3.4", 5).unwrap();
    assert!(r.is_pong());
    assert!(n.handle_ping_pong(&PPacket::pong(), "1.2.3.4", 5).is_none());
    assert!(n.handle_ping_pong(&PPacket::new(2, b"x"), "1.2.3.4", 5).is_none());
}

#[test]
fn application_text_and_reply() {
    assert_eq!(application_text(b"{'command':'lol'}"), "{\"command\":\"lol\"}");
    assert_eq!(application_text(&[0xe9]), "\u{e9}");
    assert_eq!(application_reply(None), "command does not exist");
    assert_eq!(application_reply(Some("sendMessage")), "Message sent");
    assert_eq!(application_reply(Some("lol")), "lol");
    assert_eq!(application_reply(Some("{}")), "Unknown command");
}

#[test]
fn application_answers() {
    use_answer(b"{'command':{}}", Some("Unknown command"));
    use_answer(b"{'command':'sendMessage'}", Some("command does not exist"));
    use_answer(b"{}", Some("command does not exist"));
    use_answer(b"not json", None);
}

fn use_answer(message: &[u8], want: Option<&str>) {
    assert_eq!(layer0::client::application_answer(message), want);
}

#[test]
fn connection_request_reading() {

    assert_eq!(connection_request_peer(&[0xff]).err(), Some(RequestError::PayloadNotUtf8));
    assert_eq!(connection_request_peer(b"{oops").err(), Some(RequestError::PayloadNotJson));
    assert!(connection_request_peer(br#"{"ip":"1.2.3.4","port":"80"}"#).unwrap().is_none());
    let req = connection_request_peer(br#"{"ip":{},"port":{"p":1}}"#).unwrap().unwrap();
    assert!(req.ip.is_object && req.port.is_object);
    assert_eq!(req.port.shown, r#"{"p":1}"#);
    let b = bounce_packet(&req.json);
    assert_eq!(b.command, 1);
    assert_eq!(b.payload, br#"{"ip":{},"port":{"p":1}}"#.to_vec());
}

#[test]
fn request_actions() {

    let mut n = Node::new();
    assert_eq!(n.request_action(None), RequestAction::AskPeer);
    assert_eq!(n.request_action(Some(&PPacket::con_ans(false))), RequestAction::Stop);
    assert_eq!(n.request_action(Some(&PPacket::con_ans(true))), RequestAction::BounceAndConnect);
    assert_eq!(n.request_action(Some(&PPacket::ping())), RequestAction::BounceAndConnect);
    for p in 0..8 {
        n.add_connection("h", p).unwrap();
    }
    assert_eq!(n.request_action(None), RequestAction::BounceAndConnect);
}

#[test]
fn initial_actions() {

    let mut n = Node::new();
    match n.initial_action(&PPacket::con_ques()) {
        InitialAction::Answer(p) => assert!(p.is_con_ans() && p.get_ans()),
        _ => panic!("expected an answer"),
    }
    assert!(matches!(n.initial_action(&PPacket::con_req("a", 1)), InitialAction::Accept));
    assert!(matches!(n.initial_action(&PPacket::ping()), InitialAction::Ignore));
    for p in 0..8 {
        n.add_connection("h", p).unwrap();
    }
    assert!(matches!(n.initial_action(&PPacket::con_req("a", 1)), InitialAction::Ignore));
    match n.initial_action(&PPacket::con_ques()) {
        InitialAction::Answer(p) => assert!(!p.get_ans()),
        _ => panic!("expected an answer"),
    }
}
