//! Encoding and decoding of the world model in the wire format of `wire`.
use vstd::prelude::*;

use crate::bytes::{occurs_at, push_u32, push_u64, read_u32, read_u64, u32_le, u64_le};
use crate::model::{HabData, Inputs, NavMode, Object, Planet, Ship, ShipType, Vec2};
use crate::wire::{
    concat_map, inputs_wire, lemma_concat_map_len, lemma_concat_map_occurs, lemma_occurs_concat,
    navmode_wire, object_wire, object_words, planet_items_wire, planet_wire, planet_words,
    planets_wire, ship_items_wire, ship_type_wire, ship_wire, ships_wire, words_wire,
};

verus! {

pub proof fn lemma_words_wire_occurs(ws: Seq<u64>, b: Seq<u8>, pos: int)
    requires
        0 <= pos,
    ensures
        words_wire(ws).len() == 8 * ws.len(),
        occurs_at(words_wire(ws), b, pos) <==> pos + 8 * ws.len() <= b.len() && forall|i: int|
            0 <= i < ws.len() ==> occurs_at(#[trigger] u64_le(ws[i]), b, pos + 8 * i),
{
    let f = |w: u64| u64_le(w);
    lemma_concat_map_len(ws, f, 8);
    lemma_concat_map_occurs(ws, f, 8, b, pos);
    assert forall|i: int| 0 <= i < ws.len() implies f(ws[i]) == u64_le(ws[i]) by {}
}

fn push_words(out: &mut Vec<u8>, ws: &Vec<u64>)
    ensures
        final(out)@ == old(out)@ + words_wire(ws@),
{
    let mut i: usize = 0;
    while i < ws.len()
        invariant
            i <= ws@.len(),
            out@ == old(out)@ + words_wire(ws@.subrange(0, i as int)),
        decreases ws@.len() - i,
    {
        push_u64(out, ws[i]);
        proof {
            let t = ws@.subrange(0, i + 1);
            assert(t.drop_last() =~= ws@.subrange(0, i as int));
            assert(words_wire(t) == words_wire(t.drop_last()) + u64_le(t.last()));
        }
        i += 1;
        assert(out@ =~= old(out)@ + words_wire(ws@.subrange(0, i as int)));
    }
    assert(ws@.subrange(0, i as int) =~= ws@);
}

fn read_words(b: &[u8], pos: usize, n: usize) -> (r: Vec<u64>)
    requires
        pos + 8 * n <= b@.len(),
    ensures
        r@.len() == n,
        forall|ws: Seq<u64>|
            ws.len() == n ==> (occurs_at(words_wire(ws), b@, pos as int) <==> ws == r@),
{
    let mut r: Vec<u64> = Vec::new();
    let mut i: usize = 0;
    let mut p: usize = pos;
    let len = b.len();
    while i < n
        invariant
            i <= n,
            pos + 8 * n <= b@.len(),
            len == b@.len(),
            p == pos + 8 * i,
            r@.len() == i,
            forall|j: int| 0 <= j < i ==> occurs_at(#[trigger] u64_le(r@[j]), b@, pos + 8 * j),
        decreases n - i,
    {
        let w = read_u64(b, p);
        assert(occurs_at(u64_le(w), b@, p as int));
        r.push(w);
        i += 1;
        p += 8;
    }
    proof {
        assert forall|ws: Seq<u64>| ws.len() == n implies (occurs_at(
            words_wire(ws),
            b@,
            pos as int,
        ) <==> ws == r@) by {
            lemma_words_wire_occurs(ws, b@, pos as int);
            lemma_words_wire_occurs(r@, b@, pos as int);
            if occurs_at(words_wire(ws), b@, pos as int) {
                assert forall|j: int| 0 <= j < n implies ws[j] == r@[j] by {
                    assert(occurs_at(u64_le(ws[j]), b@, pos + 8 * j));
                    assert(occurs_at(u64_le(r@[j]), b@, pos + 8 * j));
                    crate::bytes::lemma_u64_le_inverse(ws[j]);
                    crate::bytes::lemma_u64_le_inverse(r@[j]);
                }
                assert(ws =~= r@);
            }
        }
    }
    r
}

pub proof fn lemma_object_wire_len(o: Object)
    ensures
        object_wire(o).len() == 72,
{
    lemma_words_wire_occurs(object_words(o), Seq::empty(), 0);
}

pub proof fn lemma_planet_wire_len(p: Planet)
    ensures
        planet_wire(p).len() == 80,
{
    lemma_words_wire_occurs(planet_words(p), Seq::empty(), 0);
}

pub proof fn lemma_ship_wire_len(s: Ship)
    ensures
        ship_wire(s).len() == 80,
{
    lemma_object_wire_len(s.object);
}

proof fn lemma_object_words_injective(o1: Object, o2: Object)
    requires
        object_words(o1) == object_words(o2),
    ensures
        o1 == o2,
{
    let (w1, w2) = (object_words(o1), object_words(o2));
    assert(w1[0] == w2[0] && w1[1] == w2[1] && w1[2] == w2[2] && w1[3] == w2[3] && w1[4] == w2[4]
        && w1[5] == w2[5] && w1[6] == w2[6] && w1[7] == w2[7] && w1[8] == w2[8]);
}

fn object_of_words(ws: &Vec<u64>) -> (r: Object)
    requires
        9 <= ws@.len(),
    ensures
        object_words(r) == ws@.subrange(0, 9),
{
    let r = Object {
        mass: ws[0],
        position: Vec2 { x: ws[1], y: ws[2] },
        velocity: Vec2 { x: ws[3], y: ws[4] },
        acceleration: Vec2 { x: ws[5], y: ws[6] },
        heading: ws[7],
        spin: ws[8],
    };
    assert(object_words(r) =~= ws@.subrange(0, 9));
    r
}

fn object_words_vec(o: &Object) -> (r: Vec<u64>)
    ensures
        r@ == object_words(*o),
{
    let mut r: Vec<u64> = Vec::new();
    r.push(o.mass);
    r.push(o.position.x);
    r.push(o.position.y);
    r.push(o.velocity.x);
    r.push(o.velocity.y);
    r.push(o.acceleration.x);
    r.push(o.acceleration.y);
    r.push(o.heading);
    r.push(o.spin);
    assert(r@ =~= object_words(*o));
    r
}

/// Appends the encoding of a body.
pub fn push_object(out: &mut Vec<u8>, o: &Object)
    ensures
        final(out)@ == old(out)@ + object_wire(*o),
{
    let ws = object_words_vec(o);
    push_words(out, &ws);
}

/// Reads a body at `pos`; every 72 bytes encode exactly one.
pub fn read_object(b: &[u8], pos: usize) -> (r: Object)
    requires
        pos + 72 <= b@.len(),
    ensures
        forall|o: Object| occurs_at(object_wire(o), b@, pos as int) <==> o == r,
{
    let ws = read_words(b, pos, 9);
    let r = object_of_words(&ws);
    proof {
        assert(ws@.subrange(0, 9) =~= ws@);
        assert forall|o: Object| occurs_at(object_wire(o), b@, pos as int) <==> o == r by {
            if object_words(o) == ws@ {
                lemma_object_words_injective(o, r);
            }
        }
    }
    r
}

/// Appends the encoding of a planet.
pub fn push_planet(out: &mut Vec<u8>, p: &Planet)
    ensures
        final(out)@ == old(out)@ + planet_wire(*p),
{
    let mut ws = object_words_vec(&p.object);
    ws.push(p.radius);
    push_words(out, &ws);
}

/// Reads a planet at `pos`; every 80 bytes encode exactly one.
pub fn read_planet(b: &[u8], pos: usize) -> (r: Planet)
    requires
        pos + 80 <= b@.len(),
    ensures
        forall|p: Planet| occurs_at(planet_wire(p), b@, pos as int) <==> p == r,
{
    let ws = read_words(b, pos, 10);
    let object = object_of_words(&ws);
    let r = Planet { object, radius: ws[9] };
    proof {
        assert(planet_words(r) =~= ws@);
        assert forall|p: Planet| occurs_at(planet_wire(p), b@, pos as int) <==> p == r by {
            if planet_words(p) == ws@ {
                assert(object_words(p.object) =~= planet_words(p).drop_last());
                assert(object_words(r.object) =~= planet_words(r).drop_last());
                lemma_object_words_injective(p.object, r.object);
                assert(planet_words(p)[9] == planet_words(r)[9]);
            }
        }
    }
    r
}

/// Appends the encoding of a ship.
pub fn push_ship(out: &mut Vec<u8>, s: &Ship)
    ensures
        final(out)@ == old(out)@ + ship_wire(*s),
{
    push_object(out, &s.object);
    match s.ship_type {
        ShipType::HAB(d) => {
            push_u32(out, 0);
            push_u32(out, d.thrust);
        },
    }
    assert(final(out)@ =~= old(out)@ + ship_wire(*s));
}

/// Reads a ship at `pos`: `None` when its type tag names no ship type.
pub fn read_ship(b: &[u8], pos: usize) -> (r: Option<Ship>)
    requires
        pos + 80 <= b.len(),
    ensures
        forall|s: Ship| occurs_at(ship_wire(s), b@, pos as int) <==> r == Some(s),
{
    let object = read_object(b, pos);
    let tag = read_u32(b, pos + 72);
    let thrust = read_u32(b, pos + 76);
    let r = if tag == 0 {
        Some(Ship { object, ship_type: ShipType::HAB(HabData { thrust }) })
    } else {
        None
    };
    proof {
        assert forall|s: Ship| occurs_at(ship_wire(s), b@, pos as int) <==> r == Some(s) by {
            lemma_ship_wire_len(s);
            lemma_occurs_concat(object_wire(s.object), ship_type_wire(s.ship_type), b@, pos as int);
            match s.ship_type {
                ShipType::HAB(d) => {
                    lemma_occurs_concat(u32_le(0), u32_le(d.thrust), b@, pos + 72);
                },
            }
        }
    }
    r
}

/// Appends the encoding of the inputs.
pub fn push_inputs(out: &mut Vec<u8>, i: &Inputs)
    ensures
        final(out)@ == old(out)@ + inputs_wire(*i),
{
    match i.navmode {
        NavMode::MAN => push_u32(out, 0),
    }
    push_u32(out, i.throttle);
    assert(final(out)@ =~= old(out)@ + inputs_wire(*i));
}

/// Reads inputs at `pos`: `None` when the navigation tag names no mode.
pub fn read_inputs(b: &[u8], pos: usize) -> (r: Option<Inputs>)
    requires
        pos + 8 <= b.len(),
    ensures
        forall|i: Inputs| occurs_at(inputs_wire(i), b@, pos as int) <==> r == Some(i),
{
    let tag = read_u32(b, pos);
    let throttle = read_u32(b, pos + 4);
    let r = if tag == 0 {
        Some(Inputs { navmode: NavMode::MAN, throttle })
    } else {
        None
    };
    proof {
        assert forall|i: Inputs| occurs_at(inputs_wire(i), b@, pos as int) <==> r == Some(i) by {
            lemma_occurs_concat(navmode_wire(i.navmode), u32_le(i.throttle), b@, pos as int);
        }
    }
    r
}

proof fn lemma_ship_items(s: Seq<Ship>, b: Seq<u8>, pos: int)
    requires
        0 <= pos,
    ensures
        ship_items_wire(s).len() == 80 * s.len(),
        occurs_at(ship_items_wire(s), b, pos) <==> pos + 80 * s.len() <= b.len() && forall|i: int|
            0 <= i < s.len() ==> occurs_at(#[trigger] ship_wire(s[i]), b, pos + 80 * i),
{
    let f = |x: Ship| ship_wire(x);
    assert forall|x: Ship| #[trigger] f(x).len() == 80 by {
        lemma_ship_wire_len(x);
    }
    lemma_concat_map_len(s, f, 80);
    lemma_concat_map_occurs(s, f, 80, b, pos);
    assert forall|i: int| 0 <= i < s.len() implies f(s[i]) == ship_wire(s[i]) by {}
}

/// Appends the encoding of a sequence of ships: its length, then each ship.
pub fn push_ships(out: &mut Vec<u8>, ships: &Vec<Ship>)
    ensures
        final(out)@ == old(out)@ + ships_wire(ships@),
{
    push_u64(out, ships.len() as u64);
    let ghost start = out@;
    let mut i: usize = 0;
    while i < ships.len()
        invariant
            i <= ships@.len(),
            start == old(out)@ + u64_le(ships@.len() as u64),
            out@ == start + ship_items_wire(ships@.subrange(0, i as int)),
        decreases ships@.len() - i,
    {
        push_ship(out, &ships[i]);
        proof {
            let t = ships@.subrange(0, i + 1);
            assert(t.drop_last() =~= ships@.subrange(0, i as int));
            assert(ship_items_wire(t) == ship_items_wire(t.drop_last()) + ship_wire(t.last()));
        }
        i += 1;
        assert(out@ =~= start + ship_items_wire(ships@.subrange(0, i as int)));
    }
    assert(ships@.subrange(0, i as int) =~= ships@);
    assert(out@ =~= old(out)@ + ships_wire(ships@));
}

/// Reads a sequence of ships at `pos`; on success, also the offset after it.
pub fn read_ships(b: &[u8], pos: usize) -> (r: Option<(Vec<Ship>, usize)>)
    requires
        pos <= b.len(),
    ensures
        forall|s: Seq<Ship>|
            occurs_at(ships_wire(s), b@, pos as int) <==> (r matches Some((v, p)) && v@ == s && p
                == pos + ships_wire(s).len()),
        r matches Some((v, p)) ==> pos <= p <= b@.len() && occurs_at(ships_wire(v@), b@, pos as int)
            && p == pos + ships_wire(v@).len(),
{
    let len = b.len();
    if len - pos < 8 {
        return None;
    }
    let count = read_u64(b, pos);
    let avail = (len - pos - 8) / 80;
    if count > avail as u64 {
        proof {
            assert forall|s: Seq<Ship>| !occurs_at(ships_wire(s), b@, pos as int) by {
                lemma_ship_items(s, b@, pos + 8);
                lemma_occurs_concat(u64_le(s.len() as u64), ship_items_wire(s), b@, pos as int);
                crate::bytes::lemma_u64_le_inverse(s.len() as u64);
            }
        }
        return None;
    }
    let n = count as usize;
    let mut v: Vec<Ship> = Vec::new();
    let mut i: usize = 0;
    let mut p: usize = pos + 8;
    while i < n
        invariant
            i <= n <= avail,
            n == count,
            forall|x: u64| #[trigger] occurs_at(u64_le(x), b@, pos as int) <==> x == count,
            avail == (len - pos - 8) / 80,
            len == b@.len(),
            p == pos + 8 + 80 * i,
            v@.len() == i,
            forall|j: int, x: Ship|
                #![trigger ship_wire(x), v@[j]]
                0 <= j < i ==> (occurs_at(ship_wire(x), b@, pos + 8 + 80 * j) <==> x == v@[j]),
        decreases n - i,
    {
        let ship = read_ship(b, p);
        match ship {
            Some(x) => {
                v.push(x);
            },
            None => {
                proof {
                    assert forall|s: Seq<Ship>| !occurs_at(ships_wire(s), b@, pos as int) by {
                        lemma_ship_items(s, b@, pos + 8);
                        lemma_occurs_concat(
                            u64_le(s.len() as u64),
                            ship_items_wire(s),
                            b@,
                            pos as int,
                        );
                        crate::bytes::lemma_u64_le_inverse(s.len() as u64);
                        if occurs_at(ships_wire(s), b@, pos as int) {
                            assert(occurs_at(u64_le(s.len() as u64), b@, pos as int));
                            assert(s.len() == n);
                            assert(occurs_at(ship_wire(s[i as int]), b@, pos + 8 + 80 * i));
                        }
                    }
                }
                return None;
            },
        }
        i += 1;
        p += 80;
    }
    proof {
        assert forall|s: Seq<Ship>|
            occurs_at(ships_wire(s), b@, pos as int) <==> (v@ == s && p == pos
                + ships_wire(s).len()) by {
            lemma_ship_items(s, b@, pos + 8);
            lemma_occurs_concat(u64_le(s.len() as u64), ship_items_wire(s), b@, pos as int);
            crate::bytes::lemma_u64_le_inverse(s.len() as u64);
            if occurs_at(ships_wire(s), b@, pos as int) {
                assert forall|j: int| 0 <= j < n implies s[j] == v@[j] by {
                    assert(occurs_at(ship_wire(s[j]), b@, pos + 8 + 80 * j));
                }
                assert(s =~= v@);
            }
            if v@ == s {
                assert forall|j: int| 0 <= j < s.len() implies occurs_at(
                    #[trigger] ship_wire(s[j]),
                    b@,
                    pos + 8 + 80 * j,
                ) by {
                    assert(v@[j] == s[j]);
                }
            }
        }
        let s = v@;
        lemma_ship_items(s, b@, pos + 8);
        lemma_occurs_concat(u64_le(s.len() as u64), ship_items_wire(s), b@, pos as int);
        assert(occurs_at(ships_wire(s), b@, pos as int) <==> (v@ == s && p == pos + ships_wire(s).len()));
    }
    Some((v, p))
}

proof fn lemma_planet_items(s: Seq<Planet>, b: Seq<u8>, pos: int)
    requires
        0 <= pos,
    ensures
        planet_items_wire(s).len() == 80 * s.len(),
        occurs_at(planet_items_wire(s), b, pos) <==> pos + 80 * s.len() <= b.len() && forall|i: int|
            0 <= i < s.len() ==> occurs_at(#[trigger] planet_wire(s[i]), b, pos + 80 * i),
{
    let f = |x: Planet| planet_wire(x);
    assert forall|x: Planet| #[trigger] f(x).len() == 80 by {
        lemma_planet_wire_len(x);
    }
    lemma_concat_map_len(s, f, 80);
    lemma_concat_map_occurs(s, f, 80, b, pos);
    assert forall|i: int| 0 <= i < s.len() implies f(s[i]) == planet_wire(s[i]) by {}
}

/// Appends the encoding of a sequence of planets: its length, then each planet.
pub fn push_planets(out: &mut Vec<u8>, planets: &Vec<Planet>)
    ensures
        final(out)@ == old(out)@ + planets_wire(planets@),
{
    push_u64(out, planets.len() as u64);
    let ghost start = out@;
    let mut i: usize = 0;
    while i < planets.len()
        invariant
            i <= planets@.len(),
            start == old(out)@ + u64_le(planets@.len() as u64),
            out@ == start + planet_items_wire(planets@.subrange(0, i as int)),
        decreases planets@.len() - i,
    {
        push_planet(out, &planets[i]);
        proof {
            let t = planets@.subrange(0, i + 1);
            assert(t.drop_last() =~= planets@.subrange(0, i as int));
            assert(planet_items_wire(t) == planet_items_wire(t.drop_last()) + planet_wire(t.last()));
        }
        i += 1;
        assert(out@ =~= start + planet_items_wire(planets@.subrange(0, i as int)));
    }
    assert(planets@.subrange(0, i as int) =~= planets@);
    assert(out@ =~= old(out)@ + planets_wire(planets@));
}

/// Reads a sequence of planets at `pos`; on success, also the offset after it.
pub fn read_planets(b: &[u8], pos: usize) -> (r: Option<(Vec<Planet>, usize)>)
    requires
        pos <= b.len(),
    ensures
        forall|s: Seq<Planet>|
            occurs_at(planets_wire(s), b@, pos as int) <==> (r matches Some((v, p)) && v@ == s && p
                == pos + planets_wire(s).len()),
        r matches Some((v, p)) ==> pos <= p <= b@.len() && occurs_at(planets_wire(v@), b@, pos as int)
            && p == pos + planets_wire(v@).len(),
{
    let len = b.len();
    if len - pos < 8 {
        return None;
    }
    let count = read_u64(b, pos);
    let avail = (len - pos - 8) / 80;
    if count > avail as u64 {
        proof {
            assert forall|s: Seq<Planet>| !occurs_at(planets_wire(s), b@, pos as int) by {
                lemma_planet_items(s, b@, pos + 8);
                lemma_occurs_concat(u64_le(s.len() as u64), planet_items_wire(s), b@, pos as int);
                crate::bytes::lemma_u64_le_inverse(s.len() as u64);
            }
        }
        return None;
    }
    let n = count as usize;
    let mut v: Vec<Planet> = Vec::new();
    let mut i: usize = 0;
    let mut p: usize = pos + 8;
    while i < n
        invariant
            i <= n <= avail,
            n == count,
            forall|x: u64| #[trigger] occurs_at(u64_le(x), b@, pos as int) <==> x == count,
            avail == (len - pos - 8) / 80,
            len == b@.len(),
            p == pos + 8 + 80 * i,
            v@.len() == i,
            forall|j: int, x: Planet|
                #![trigger planet_wire(x), v@[j]]
                0 <= j < i ==> (occurs_at(planet_wire(x), b@, pos + 8 + 80 * j) <==> x == v@[j]),
        decreases n - i,
    {
        let x = read_planet(b, p);
        v.push(x);
        i += 1;
        p += 80;
    }
    proof {
        assert forall|s: Seq<Planet>|
            occurs_at(planets_wire(s), b@, pos as int) <==> (v@ == s && p == pos
                + planets_wire(s).len()) by {
            lemma_planet_items(s, b@, pos + 8);
            lemma_occurs_concat(u64_le(s.len() as u64), planet_items_wire(s), b@, pos as int);
            crate::bytes::lemma_u64_le_inverse(s.len() as u64);
            if occurs_at(planets_wire(s), b@, pos as int) {
                assert forall|j: int| 0 <= j < n implies s[j] == v@[j] by {
                    assert(occurs_at(planet_wire(s[j]), b@, pos + 8 + 80 * j));
                }
                assert(s =~= v@);
            }
            if v@ == s {
                assert forall|j: int| 0 <= j < s.len() implies occurs_at(
                    #[trigger] planet_wire(s[j]),
                    b@,
                    pos + 8 + 80 * j,
                ) by {
                    assert(v@[j] == s[j]);
                }
            }
        }
        let s = v@;
        lemma_planet_items(s, b@, pos + 8);
        lemma_occurs_concat(u64_le(s.len() as u64), planet_items_wire(s), b@, pos as int);
        assert(occurs_at(planets_wire(s), b@, pos as int) <==> (v@ == s && p == pos + planets_wire(s).len()));
    }
    Some((v, p))
}

proof fn lemma_same_place(w1: Seq<u8>, w2: Seq<u8>, b: Seq<u8>, p: int)
    requires
        occurs_at(w1, b, p),
        occurs_at(w2, b, p),
        w1.len() == w2.len(),
    ensures
        w1 == w2,
{
}

proof fn lemma_u32_unique(x: u32, y: u32, b: Seq<u8>, p: int)
    requires
        occurs_at(u32_le(x), b, p),
        occurs_at(u32_le(y), b, p),
    ensures
        x == y,
{
    crate::bytes::lemma_u32_le_inverse(x);
    crate::bytes::lemma_u32_le_inverse(y);
    lemma_same_place(u32_le(x), u32_le(y), b, p);
}

proof fn lemma_u64_unique(x: u64, y: u64, b: Seq<u8>, p: int)
    requires
        occurs_at(u64_le(x), b, p),
        occurs_at(u64_le(y), b, p),
    ensures
        x == y,
{
    crate::bytes::lemma_u64_le_inverse(x);
    crate::bytes::lemma_u64_le_inverse(y);
    lemma_same_place(u64_le(x), u64_le(y), b, p);
}

proof fn lemma_words_unique(w1: Seq<u64>, w2: Seq<u64>, b: Seq<u8>, p: int)
    requires
        0 <= p,
        w1.len() == w2.len(),
        occurs_at(words_wire(w1), b, p),
        occurs_at(words_wire(w2), b, p),
    ensures
        w1 == w2,
{
    lemma_words_wire_occurs(w1, b, p);
    lemma_words_wire_occurs(w2, b, p);
    assert forall|i: int| 0 <= i < w1.len() implies w1[i] == w2[i] by {
        lemma_u64_unique(w1[i], w2[i], b, p + 8 * i);
    }
    assert(w1 =~= w2);
}

/// At most one planet is encoded at a given place.
pub proof fn lemma_planet_unique(x: Planet, y: Planet, b: Seq<u8>, p: int)
    requires
        0 <= p,
        occurs_at(planet_wire(x), b, p),
        occurs_at(planet_wire(y), b, p),
    ensures
        x == y,
{
    lemma_words_unique(planet_words(x), planet_words(y), b, p);
    assert(object_words(x.object) =~= planet_words(x).drop_last());
    assert(object_words(y.object) =~= planet_words(y).drop_last());
    lemma_object_words_injective(x.object, y.object);
    assert(planet_words(x)[9] == planet_words(y)[9]);
}

/// At most one ship is encoded at a given place.
pub proof fn lemma_ship_unique(x: Ship, y: Ship, b: Seq<u8>, p: int)
    requires
        0 <= p,
        occurs_at(ship_wire(x), b, p),
        occurs_at(ship_wire(y), b, p),
    ensures
        x == y,
{
    lemma_object_wire_len(x.object);
    lemma_object_wire_len(y.object);
    lemma_occurs_concat(object_wire(x.object), ship_type_wire(x.ship_type), b, p);
    lemma_occurs_concat(object_wire(y.object), ship_type_wire(y.ship_type), b, p);
    lemma_words_unique(object_words(x.object), object_words(y.object), b, p);
    lemma_object_words_injective(x.object, y.object);
    let (ShipType::HAB(dx), ShipType::HAB(dy)) = (x.ship_type, y.ship_type);
    lemma_occurs_concat(u32_le(0), u32_le(dx.thrust), b, p + 72);
    lemma_occurs_concat(u32_le(0), u32_le(dy.thrust), b, p + 72);
    lemma_u32_unique(dx.thrust, dy.thrust, b, p + 76);
}

/// At most one inputs value is encoded at a given place.
pub proof fn lemma_inputs_unique(x: Inputs, y: Inputs, b: Seq<u8>, p: int)
    requires
        occurs_at(inputs_wire(x), b, p),
        occurs_at(inputs_wire(y), b, p),
    ensures
        x == y,
{
    lemma_occurs_concat(navmode_wire(x.navmode), u32_le(x.throttle), b, p);
    lemma_occurs_concat(navmode_wire(y.navmode), u32_le(y.throttle), b, p);
    lemma_u32_unique(x.throttle, y.throttle, b, p + 4);
}

/// At most one sequence of ships that a `Vec` can hold is encoded at a given place.
pub proof fn lemma_ships_unique(x: Seq<Ship>, y: Seq<Ship>, b: Seq<u8>, p: int)
    requires
        0 <= p,
        x.len() <= usize::MAX,
        y.len() <= usize::MAX,
        occurs_at(ships_wire(x), b, p),
        occurs_at(ships_wire(y), b, p),
    ensures
        x == y,
{
    lemma_occurs_concat(u64_le(x.len() as u64), ship_items_wire(x), b, p);
    lemma_occurs_concat(u64_le(y.len() as u64), ship_items_wire(y), b, p);
    crate::bytes::lemma_u64_le_inverse(x.len() as u64);
    crate::bytes::lemma_u64_le_inverse(y.len() as u64);
    lemma_u64_unique(x.len() as u64, y.len() as u64, b, p);
    lemma_ship_items(x, b, p + 8);
    lemma_ship_items(y, b, p + 8);
    assert forall|i: int| 0 <= i < x.len() implies x[i] == y[i] by {
        lemma_ship_unique(x[i], y[i], b, p + 8 + 80 * i);
    }
    assert(x =~= y);
}

/// At most one sequence of planets that a `Vec` can hold is encoded at a given place.
pub proof fn lemma_planets_unique(x: Seq<Planet>, y: Seq<Planet>, b: Seq<u8>, p: int)
    requires
        0 <= p,
        x.len() <= usize::MAX,
        y.len() <= usize::MAX,
        occurs_at(planets_wire(x), b, p),
        occurs_at(planets_wire(y), b, p),
    ensures
        x == y,
{
    lemma_occurs_concat(u64_le(x.len() as u64), planet_items_wire(x), b, p);
    lemma_occurs_concat(u64_le(y.len() as u64), planet_items_wire(y), b, p);
    crate::bytes::lemma_u64_le_inverse(x.len() as u64);
    crate::bytes::lemma_u64_le_inverse(y.len() as u64);
    lemma_u64_unique(x.len() as u64, y.len() as u64, b, p);
    lemma_planet_items(x, b, p + 8);
    lemma_planet_items(y, b, p + 8);
    assert forall|i: int| 0 <= i < x.len() implies x[i] == y[i] by {
        lemma_planet_unique(x[i], y[i], b, p + 8 + 80 * i);
    }
    assert(x =~= y);
}

} // verus!
