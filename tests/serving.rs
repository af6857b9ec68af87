use newton::messages::{decode_server_message, encode_client_message, encode_server_message, FromClientMessage, FromServerMessage};
use newton::model::{Inputs, NavMode, State};
use newton::server::Server;

#[test]
fn broadcast_reaches_remaining_subscriber_only() {
    let mut server: Server<&str> = Server::new();
    server.accept(1, "A");
    server.accept(2, "B");
    server.disconnect(1);
    assert_eq!(server.targets(), vec!["B"]);
    assert!(!server.is_subscribed(1));
    assert!(server.is_subscribed(2));
}

#[test]
fn malformed_message_changes_nothing() {
    let mut server: Server<&str> = Server::new();
    server.accept(2, "B");
    let mut inputs = Inputs { navmode: NavMode::MAN, throttle: 0.3f32.to_bits() };
    assert!(!server.on_message(&mut inputs, &[7, 7, 7]));
    assert!(!server.on_message(&mut inputs, &[5, 0, 0, 0, 0, 0, 0, 0]));
    assert_eq!(inputs, Inputs { navmode: NavMode::MAN, throttle: 0.3f32.to_bits() });
    assert_eq!(server.targets(), vec!["B"]);
}

#[test]
fn throttle_is_replaced_without_clamping() {
    let server: Server<u32> = Server::new();
    let mut inputs = Inputs::default();
    let data = encode_client_message(&FromClientMessage::Throttle(7.5f32.to_bits()));
    assert!(server.on_message(&mut inputs, &data));
    assert_eq!(f32::from_bits(inputs.throttle), 7.5);
    let data = encode_client_message(&FromClientMessage::NavMode(NavMode::MAN));
    assert!(server.on_message(&mut inputs, &data));
    assert_eq!(f32::from_bits(inputs.throttle), 7.5);
    assert_eq!(inputs.navmode, NavMode::MAN);
}

#[test]
fn repeated_accept_and_unknown_disconnect_are_harmless() {
    let mut server: Server<char> = Server::new();
    server.accept(3, 'x');
    server.accept(3, 'y');
    server.disconnect(9);
    server.accept(4, 'z');
    assert_eq!(server.targets(), vec!['x', 'z']);
    server.disconnect(3);
    server.disconnect(3);
    assert_eq!(server.targets(), vec!['z']);
}

#[test]
fn tick_encodes_the_snapshot_once() {
    let mut server: Server<u8> = Server::new();
    server.accept(1, 1);
    let state = State { ships: vec![], planets: vec![], inputs: Inputs::default() };
    let expected = encode_server_message(&FromServerMessage::Update(state.clone()));
    let bytes = server.encode_update(state).to_vec();
    assert_eq!(bytes, expected);
    assert!(matches!(decode_server_message(&bytes), Some(FromServerMessage::Update(_))));
    assert_eq!(server.targets(), vec![1]);
}
