//! The wire format of the world model: each field in declaration order, no
//! padding, integers and reals little-endian at their full width, enum tags as
//! `u32` and sequence lengths as `u64`.
use vstd::prelude::*;

use crate::bytes::{occurs_at, u32_le, u64_le};
use crate::model::{Inputs, NavMode, Object, Planet, Ship, ShipType, StateView};

verus! {

/// The encodings of the items of `s`, one after the other.
pub open spec fn concat_map<T>(s: Seq<T>, f: spec_fn(T) -> Seq<u8>) -> Seq<u8>
    decreases s.len(),
{
    if s.len() == 0 {
        Seq::empty()
    } else {
        concat_map(s.drop_last(), f) + f(s.last())
    }
}

/// The fields of a body, in declaration order.
pub open spec fn object_words(o: Object) -> Seq<u64> {
    seq![
        o.mass,
        o.position.x,
        o.position.y,
        o.velocity.x,
        o.velocity.y,
        o.acceleration.x,
        o.acceleration.y,
        o.heading,
        o.spin,
    ]
}

/// The fields of a planet, in declaration order.
pub open spec fn planet_words(p: Planet) -> Seq<u64> {
    object_words(p.object).push(p.radius)
}

pub open spec fn words_wire(ws: Seq<u64>) -> Seq<u8> {
    concat_map(ws, |w: u64| u64_le(w))
}

pub open spec fn object_wire(o: Object) -> Seq<u8> {
    words_wire(object_words(o))
}

pub open spec fn planet_wire(p: Planet) -> Seq<u8> {
    words_wire(planet_words(p))
}

pub open spec fn ship_type_wire(t: ShipType) -> Seq<u8> {
    match t {
        ShipType::HAB(d) => u32_le(0) + u32_le(d.thrust),
    }
}

pub open spec fn ship_wire(s: Ship) -> Seq<u8> {
    object_wire(s.object) + ship_type_wire(s.ship_type)
}

pub open spec fn navmode_wire(m: NavMode) -> Seq<u8> {
    match m {
        NavMode::MAN => u32_le(0),
    }
}

pub open spec fn inputs_wire(i: Inputs) -> Seq<u8> {
    navmode_wire(i.navmode) + u32_le(i.throttle)
}

pub open spec fn ship_items_wire(s: Seq<Ship>) -> Seq<u8> {
    concat_map(s, |x: Ship| ship_wire(x))
}

pub open spec fn planet_items_wire(s: Seq<Planet>) -> Seq<u8> {
    concat_map(s, |x: Planet| planet_wire(x))
}

pub open spec fn ships_wire(s: Seq<Ship>) -> Seq<u8> {
    u64_le(s.len() as u64) + ship_items_wire(s)
}

pub open spec fn planets_wire(s: Seq<Planet>) -> Seq<u8> {
    u64_le(s.len() as u64) + planet_items_wire(s)
}

pub open spec fn state_wire(v: StateView) -> Seq<u8> {
    ships_wire(v.ships) + planets_wire(v.planets) + inputs_wire(v.inputs)
}

pub proof fn lemma_occurs_concat(x: Seq<u8>, y: Seq<u8>, b: Seq<u8>, pos: int)
    ensures
        occurs_at(x + y, b, pos) <==> occurs_at(x, b, pos) && occurs_at(y, b, pos + x.len()),
{
    if occurs_at(x + y, b, pos) {
        let whole = b.subrange(pos, pos + x.len() + y.len());
        assert(whole == x + y);
        assert forall|i: int| 0 <= i < x.len() implies b.subrange(pos, pos + x.len())[i] == x[i] by {
            assert(whole[i] == (x + y)[i]);
        }
        assert(b.subrange(pos, pos + x.len()) =~= x);
        assert forall|i: int| 0 <= i < y.len() implies b.subrange(
            pos + x.len(),
            pos + x.len() + y.len(),
        )[i] == y[i] by {
            assert(whole[x.len() + i] == (x + y)[x.len() + i]);
        }
        assert(b.subrange(pos + x.len(), pos + x.len() + y.len()) =~= y);
    }
    if occurs_at(x, b, pos) && occurs_at(y, b, pos + x.len()) {
        assert(b.subrange(pos, pos + (x + y).len()) =~= x + y);
    }
}

pub proof fn lemma_concat_map_len<T>(s: Seq<T>, f: spec_fn(T) -> Seq<u8>, k: nat)
    requires
        forall|t: T| #[trigger] f(t).len() == k,
    ensures
        concat_map(s, f).len() == k * s.len(),
    decreases s.len(),
{
    if s.len() > 0 {
        lemma_concat_map_len(s.drop_last(), f, k);
        assert(k * (s.len() - 1) + k == k * s.len()) by (nonlinear_arith);
    }
}

/// The concatenation of fixed-size encodings occurs exactly where each of them
/// occurs at its own offset.
pub proof fn lemma_concat_map_occurs<T>(s: Seq<T>, f: spec_fn(T) -> Seq<u8>, k: nat, b: Seq<u8>, pos: int)
    requires
        forall|t: T| #[trigger] f(t).len() == k,
        0 <= pos,
    ensures
        occurs_at(concat_map(s, f), b, pos) <==> pos + k * s.len() <= b.len() && forall|i: int|
            0 <= i < s.len() ==> occurs_at(#[trigger] f(s[i]), b, pos + k * i),
    decreases s.len(),
{
    lemma_concat_map_len(s, f, k);
    if s.len() > 0 {
        let d = s.drop_last();
        lemma_concat_map_occurs(d, f, k, b, pos);
        lemma_concat_map_len(d, f, k);
        lemma_occurs_concat(concat_map(d, f), f(s.last()), b, pos);
        assert(k * (s.len() - 1) + k == k * s.len()) by (nonlinear_arith);
        if occurs_at(concat_map(s, f), b, pos) {
            assert forall|i: int| 0 <= i < s.len() implies occurs_at(
                #[trigger] f(s[i]),
                b,
                pos + k * i,
            ) by {
                if i < d.len() {
                    assert(f(d[i]) == f(s[i]));
                }
            }
        }
        if pos + k * s.len() <= b.len() && forall|i: int|
            0 <= i < s.len() ==> occurs_at(#[trigger] f(s[i]), b, pos + k * i) {
            assert forall|i: int| 0 <= i < d.len() implies occurs_at(
                #[trigger] f(d[i]),
                b,
                pos + k * i,
            ) by {
                assert(d[i] == s[i]);
            }
            assert(f(s.last()) == f(s[s.len() - 1]));
        }
    } else if 0 <= pos <= b.len() {
        assert(b.subrange(pos, pos) =~= concat_map(s, f));
    }
}

} // verus!
