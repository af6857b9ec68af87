use newton::messages::{
    decode_client_message, decode_server_message, encode_client_message, encode_server_message,
    BincodeEncoder, FromClientMessage, FromServerMessage,
};
use newton::model::{HabData, Inputs, NavMode, Object, Planet, Ship, ShipType, State, Vec2};

fn v2(x: f64, y: f64) -> Vec2 {
    Vec2 { x: x.to_bits(), y: y.to_bits() }
}

fn body(mass: f64, x: f64, y: f64) -> Object {
    Object {
        mass: mass.to_bits(),
        position: v2(x, y),
        velocity: v2(1.5, -2.25),
        acceleration: v2(0.125, 3.0e-7),
        heading: 0.75f64.to_bits(),
        spin: (-0.5f64).to_bits(),
    }
}

fn ship(thrust: f32) -> Ship {
    Ship { object: body(1.0, 100.0, 0.0), ship_type: ShipType::HAB(HabData { thrust: thrust.to_bits() }) }
}

fn planet(mass: f64, radius: f64) -> Planet {
    Planet { object: body(mass, 0.0, 0.0), radius: radius.to_bits() }
}

fn inputs(throttle: f32) -> Inputs {
    Inputs { navmode: NavMode::MAN, throttle: throttle.to_bits() }
}

type ObjectTuple = (f64, (f64, f64), (f64, f64), (f64, f64), f64, f64);

fn object_tuple(o: &Object) -> ObjectTuple {
    let f = f64::from_bits;
    (
        f(o.mass),
        (f(o.position.x), f(o.position.y)),
        (f(o.velocity.x), f(o.velocity.y)),
        (f(o.acceleration.x), f(o.acceleration.y)),
        f(o.heading),
        f(o.spin),
    )
}

fn reference_update(state: &State) -> Vec<u8> {
    let ships: Vec<(ObjectTuple, (u32, f32))> = state
        .ships
        .iter()
        .map(|s| match s.ship_type {
            ShipType::HAB(d) => (object_tuple(&s.object), (0u32, f32::from_bits(d.thrust))),
        })
        .collect();
    let planets: Vec<(ObjectTuple, f64)> =
        state.planets.iter().map(|p| (object_tuple(&p.object), f64::from_bits(p.radius))).collect();
    let inputs = (0u32, f32::from_bits(state.inputs.throttle));
    bincode::serialize(&(0u32, ships, planets, inputs)).unwrap()
}

fn same_state(a: &State, b: &State) -> bool {
    a.ships == b.ships && a.planets == b.planets && a.inputs == b.inputs
}

#[test]
fn throttle_message_matches_bincode_layout() {
    let bytes = encode_client_message(&FromClientMessage::Throttle(0.5f32.to_bits()));
    assert_eq!(bytes, bincode::serialize(&(1u32, 0.5f32)).unwrap());
    assert_eq!(bytes, vec![1, 0, 0, 0, 0, 0, 0, 0x3f]);
}

#[test]
fn navmode_message_is_two_zero_tags() {
    let bytes = encode_client_message(&FromClientMessage::NavMode(NavMode::MAN));
    assert_eq!(bytes, vec![0u8; 8]);
    assert_eq!(bytes, bincode::serialize(&(0u32, 0u32)).unwrap());
}

#[test]
fn client_messages_round_trip() {
    for m in [
        FromClientMessage::NavMode(NavMode::MAN),
        FromClientMessage::Throttle(0.0f32.to_bits()),
        FromClientMessage::Throttle((-3.5f32).to_bits()),
        FromClientMessage::Throttle(f32::NAN.to_bits() | 0x1234),
    ] {
        let bytes = encode_client_message(&m);
        assert_eq!(decode_client_message(&bytes), Some(m));
    }
}

#[test]
fn client_message_ignores_trailing_bytes() {
    let mut bytes = encode_client_message(&FromClientMessage::Throttle(2.0f32.to_bits()));
    bytes.extend_from_slice(&[9, 9, 9]);
    assert_eq!(decode_client_message(&bytes), Some(FromClientMessage::Throttle(2.0f32.to_bits())));
}

#[test]
fn malformed_client_messages_are_rejected() {
    assert_eq!(decode_client_message(&[]), None);
    assert_eq!(decode_client_message(&[1, 0, 0, 0, 0, 0, 0]), None);
    assert_eq!(decode_client_message(&[2, 0, 0, 0, 0, 0, 0, 0]), None);
    assert_eq!(decode_client_message(&[0, 0, 0, 0, 1, 0, 0, 0]), None);
    assert_eq!(BincodeEncoder::decode(&[0, 0, 0, 1, 0, 0, 0, 0]), None);
}

#[test]
fn empty_state_round_trips() {
    let state = State { ships: vec![], planets: vec![], inputs: inputs(0.0) };
    let bytes = encode_server_message(&FromServerMessage::Update(state.clone()));
    assert_eq!(bytes.len(), 4 + 8 + 8 + 8);
    assert_eq!(bytes, reference_update(&state));
    match decode_server_message(&bytes) {
        Some(FromServerMessage::Update(back)) => assert!(same_state(&back, &state)),
        None => panic!("the encoding of an empty state did not decode"),
    }
}

#[test]
fn populated_state_round_trips_bit_exact() {
    let state = State {
        ships: vec![ship(12.5), ship(f32::from_bits(0x7fc0_0001))],
        planets: vec![planet(1e11, 6.4e6), planet(f64::MIN_POSITIVE, -0.0), planet(3.0, 1.0)],
        inputs: inputs(-0.25),
    };
    let bytes = encode_server_message(&FromServerMessage::Update(state.clone()));
    assert_eq!(bytes.len(), 4 + 8 + 2 * 80 + 8 + 3 * 80 + 8);
    assert_eq!(bytes, reference_update(&state));
    let mut with_tail = bytes.clone();
    with_tail.push(0xaa);
    match decode_server_message(&with_tail) {
        Some(FromServerMessage::Update(back)) => assert!(same_state(&back, &state)),
        None => panic!("the encoding of a state did not decode"),
    }
}

#[test]
fn truncated_or_mistagged_update_is_rejected() {
    let state = State { ships: vec![ship(1.0)], planets: vec![planet(2.0, 1.0)], inputs: inputs(1.0) };
    let bytes = encode_server_message(&FromServerMessage::Update(state));
    for cut in [0, 3, 4, 11, 12, 91, 92, bytes.len() - 1] {
        assert!(decode_server_message(&bytes[..cut]).is_none(), "cut at {}", cut);
    }
    let mut bad_tag = bytes.clone();
    bad_tag[0] = 1;
    assert!(decode_server_message(&bad_tag).is_none());
    let mut bad_ship_type = bytes.clone();
    bad_ship_type[12 + 72] = 1;
    assert!(decode_server_message(&bad_ship_type).is_none());
    let mut huge_count = bytes.clone();
    huge_count[4 + 7] = 0xff;
    assert!(decode_server_message(&huge_count).is_none());
}

#[test]
fn encoder_reuses_its_buffer() {
    let mut encoder = BincodeEncoder::new();
    let big = State { ships: vec![ship(1.0)], planets: vec![planet(2.0, 1.0)], inputs: inputs(1.0) };
    let small = State { ships: vec![], planets: vec![], inputs: inputs(0.5) };
    let first = encoder.encode(&FromServerMessage::Update(big.clone())).to_vec();
    assert_eq!(first, encode_server_message(&FromServerMessage::Update(big)));
    let second = encoder.encode(&FromServerMessage::Update(small.clone())).to_vec();
    assert_eq!(second, encode_server_message(&FromServerMessage::Update(small)));
    assert_eq!(second.len(), 28);
}
