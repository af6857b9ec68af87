use newton::model::{HabData, Inputs, NavMode, Object, Objects, Planet, Ship, ShipType, State, Vec2};

fn body(mass: f64) -> Object {
    let zero = Vec2 { x: 0, y: 0 };
    Object { mass: mass.to_bits(), position: zero, velocity: zero, acceleration: zero, heading: 0, spin: 0 }
}

#[test]
fn default_inputs_are_manual_and_idle() {
    let i = Inputs::default();
    assert_eq!(i.navmode, NavMode::MAN);
    assert_eq!(f32::from_bits(i.throttle), 0.0);
}

#[test]
fn objects_lists_ships_then_planets() {
    let ships = vec![
        Ship { object: body(1.0), ship_type: ShipType::HAB(HabData { thrust: 0 }) },
        Ship { object: body(2.0), ship_type: ShipType::HAB(HabData { thrust: 0 }) },
    ];
    let planets = vec![Planet { object: body(3.0), radius: 0 }];
    let state = State { ships, planets, inputs: Inputs::default() };
    let masses: Vec<f64> = state.objects().iter().map(|o| f64::from_bits(o.mass)).collect();
    assert_eq!(masses, vec![1.0, 2.0, 3.0]);
}

#[test]
fn snapshot_copies_world_and_inputs() {
    let objects: Objects = (
        vec![Ship { object: body(1.0), ship_type: ShipType::HAB(HabData { thrust: 7 }) }],
        vec![Planet { object: body(5.0), radius: 9 }],
    );
    let inputs = Inputs { navmode: NavMode::MAN, throttle: 0.5f32.to_bits() };
    let state = State::snapshot(&objects, &inputs);
    assert_eq!(state.ships, objects.0);
    assert_eq!(state.planets, objects.1);
    assert_eq!(state.inputs, inputs);
}
