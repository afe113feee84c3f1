//! The contact phase of a step over the whole body collection, and what it
//! guarantees.
use crate::body::{response_of, Behavior, Response, PIN_COLLISIONS};
use crate::detect::{
    contacts, contacts_of, lemma_contacts_len, lemma_contacts_members, lemma_no_contacts, rows,
};
use crate::resolve::{
    has_value, lemma_pinned_velocity, lemma_repeated_average, lemma_settle_pinned,
    lemma_settle_single_partner, lemma_settle_without_average, resolve, settle, velocity_after,
    Adjustment, Resolution,
};
use vstd::prelude::*;

verus! {

/// `touching` is a square contact graph over the bodies whose behaviors are
/// `kinds`: `touching[i][j]` tells whether some collider of body `i` overlaps
/// some collider of body `j`.
pub open spec fn is_contact_graph(kinds: Seq<Behavior>, touching: Seq<Seq<bool>>) -> bool {
    &&& touching.len() == kinds.len()
    &&& forall|i: int| 0 <= i < touching.len() ==> #[trigger] touching[i].len() == kinds.len()
}

/// The body collection is small enough for every collision counter to fit.
pub open spec fn counters_fit(kinds: Seq<Behavior>) -> bool {
    kinds.len() + PIN_COLLISIONS <= u32::MAX
}

/// The adjustments and final counter of body `i` after the contact phase: its
/// counter is reset, then it meets every body it touches, in scan order.
pub open spec fn resolution_of(kinds: Seq<Behavior>, touching: Seq<Seq<bool>>, i: int) -> (Seq<Adjustment>, nat) {
    settle(kinds[i], kinds, contacts_of(touching[i], i))
}

/// Runs the contact phase of a step: resets every body's collision counter,
/// then resolves every ordered pair of touching bodies, each body taking the
/// "self" role against the others in scan order.
///
/// Entry `i` of the result lists the velocity adjustments of body `i`, each of
/// which reads only that body's own velocity and the velocities that the other
/// bodies had when the step began, and gives the counter it ends with.
pub fn collision_pass(kinds: &Vec<Behavior>, touching: &Vec<Vec<bool>>) -> (r: Vec<Resolution>)
    requires
        is_contact_graph(kinds@, rows(touching)),
        counters_fit(kinds@),
    ensures
        r@.len() == kinds@.len(),
        forall|i: int|
            0 <= i < kinds@.len() ==> {
                let (adjs, count) = #[trigger] resolution_of(kinds@, rows(touching), i);
                r@[i].adjustments@ == adjs && r@[i].collisions == count
            },
{
    let ghost g = rows(touching);
    let mut r: Vec<Resolution> = Vec::new();
    let mut i: usize = 0;
    while i < kinds.len()
        invariant
            g == rows(touching),
            is_contact_graph(kinds@, g),
            counters_fit(kinds@),
            0 <= i <= kinds@.len(),
            r@.len() == i,
            forall|x: int|
                0 <= x < i ==> {
                    let (adjs, count) = #[trigger] resolution_of(kinds@, g, x);
                    r@[x].adjustments@ == adjs && r@[x].collisions == count
                },
        decreases kinds@.len() - i,
    {
        let row = &touching[i];
        assert(row@ == g[i as int]);
        let partners = contacts(row, i);
        let ghost js = partners@.map_values(|j: usize| j as int);
        proof {
            lemma_contacts_members(row@, i as int);
            assert forall|k: int| 0 <= k < partners@.len() implies partners@[k] < kinds@.len() by {
                assert(js[k] == partners@[k] as int);
            }
            lemma_contacts_len(row@, i as int);
        }
        let res = resolve(kinds[i], kinds, &partners);
        r.push(res);
        i = i + 1;
    }
    r
}

/// The contact phase is deterministic: the same behaviors and the same contact
/// graph give the same adjustments and counters for every body, and so, from
/// the same starting velocities, the same velocities.
pub proof fn lemma_deterministic(
    kinds1: Seq<Behavior>,
    touching1: Seq<Seq<bool>>,
    kinds2: Seq<Behavior>,
    touching2: Seq<Seq<bool>>,
    before: Seq<int>,
    i: int,
)
    requires
        kinds1 == kinds2,
        touching1 == touching2,
        0 <= i < kinds1.len(),
    ensures
        resolution_of(kinds1, touching1, i) == resolution_of(kinds2, touching2, i),
        velocity_after(resolution_of(kinds1, touching1, i).0, before[i], before) == velocity_after(
            resolution_of(kinds2, touching2, i).0,
            before[i],
            before,
        ),
{
}

/// A body that touches a static body ends the contact phase with a counter of
/// at least the pin value, whatever else it touches, so that contacts resolved
/// after the pin barely move it.
pub proof fn lemma_static_damps(kinds: Seq<Behavior>, touching: Seq<Seq<bool>>, a: int, b: int)
    requires
        is_contact_graph(kinds, touching),
        0 <= a < kinds.len(),
        0 <= b < kinds.len(),
        a != b,
        touching[a][b],
        kinds[b] == Behavior::Static,
    ensures
        resolution_of(kinds, touching, a).1 >= PIN_COLLISIONS,
{
    let js = contacts_of(touching[a], a);
    lemma_contacts_members(touching[a], a);
    assert(js.contains(b));
    let x = choose|x: int| 0 <= x < js.len() && js[x] == b;
    lemma_settle_pinned(kinds[a], kinds, js, x);
}

/// A body that touches a static body, and that is either not a normal body or
/// touches no other non-static body, leaves the contact phase with velocity
/// zero and with the pin value as its counter.
pub proof fn lemma_static_pin(
    kinds: Seq<Behavior>,
    touching: Seq<Seq<bool>>,
    a: int,
    b: int,
    before: Seq<int>,
)
    requires
        is_contact_graph(kinds, touching),
        0 <= a < kinds.len(),
        0 <= b < kinds.len(),
        a != b,
        touching[a][b],
        kinds[b] == Behavior::Static,
        forall|j: int|
            0 <= j < kinds.len() && j != a && touching[a][j] && kinds[j] != Behavior::Static
                ==> kinds[a] != Behavior::Normal,
    ensures
        has_value(velocity_after(resolution_of(kinds, touching, a).0, before[a], before), 0),
        resolution_of(kinds, touching, a).1 == PIN_COLLISIONS,
{
    let js = contacts_of(touching[a], a);
    lemma_contacts_members(touching[a], a);
    assert(js.contains(b));
    let x = choose|x: int| 0 <= x < js.len() && js[x] == b;
    assert forall|y: int| 0 <= y < js.len() implies response_of(kinds[a], kinds[js[y]])
        != Response::Average by {
        let j = js[y];
        assert(0 <= j < kinds.len() && j != a && touching[a][j]);
    }
    lemma_settle_without_average(kinds[a], kinds, js, x);
    lemma_pinned_velocity(resolution_of(kinds, touching, a).0, before[a], before);
}

/// A normal body whose only contact is the non-static body `b` leaves the
/// contact phase with the negated velocity that `b` entered the step with.
pub proof fn lemma_single_contact(
    kinds: Seq<Behavior>,
    touching: Seq<Seq<bool>>,
    a: int,
    b: int,
    before: Seq<int>,
)
    requires
        is_contact_graph(kinds, touching),
        counters_fit(kinds),
        0 <= a < kinds.len(),
        0 <= b < kinds.len(),
        a != b,
        kinds[a] == Behavior::Normal,
        kinds[b] != Behavior::Static,
        touching[a][b],
        forall|j: int| 0 <= j < kinds.len() && j != a && j != b ==> !touching[a][j],
    ensures
        has_value(velocity_after(resolution_of(kinds, touching, a).0, before[a], before), -before[b]),
{
    let js = contacts_of(touching[a], a);
    lemma_contacts_members(touching[a], a);
    lemma_contacts_len(touching[a], a);
    assert(js.contains(b));
    assert forall|y: int| 0 <= y < js.len() implies js[y] == b by {
        let j = js[y];
        assert(0 <= j < kinds.len() && j != a && touching[a][j]);
    }
    lemma_settle_single_partner(kinds, js, b);
    lemma_repeated_average(resolution_of(kinds, touching, a).0, b as usize, before[a], before);
}

/// Two normal bodies that touch each other and nothing else each leave the
/// contact phase with the negated velocity that the other entered the step with.
pub proof fn lemma_pair_symmetry(
    kinds: Seq<Behavior>,
    touching: Seq<Seq<bool>>,
    a: int,
    b: int,
    before: Seq<int>,
)
    requires
        is_contact_graph(kinds, touching),
        counters_fit(kinds),
        0 <= a < kinds.len(),
        0 <= b < kinds.len(),
        a != b,
        kinds[a] == Behavior::Normal,
        kinds[b] == Behavior::Normal,
        touching[a][b],
        touching[b][a],
        forall|j: int| 0 <= j < kinds.len() && j != a && j != b ==> !touching[a][j] && !touching[b][j],
    ensures
        has_value(velocity_after(resolution_of(kinds, touching, a).0, before[a], before), -before[b]),
        has_value(velocity_after(resolution_of(kinds, touching, b).0, before[b], before), -before[a]),
{
    lemma_single_contact(kinds, touching, a, b, before);
    lemma_single_contact(kinds, touching, b, a, before);
}

/// A body that touches no other body gets no adjustment and a counter of
/// zero, and keeps the velocity it entered the step with.
pub proof fn lemma_untouched(kinds: Seq<Behavior>, touching: Seq<Seq<bool>>, a: int, before: Seq<int>)
    requires
        is_contact_graph(kinds, touching),
        0 <= a < kinds.len(),
        forall|j: int| 0 <= j < kinds.len() && j != a ==> !touching[a][j],
    ensures
        resolution_of(kinds, touching, a).0.len() == 0,
        resolution_of(kinds, touching, a).1 == 0,
        velocity_after(resolution_of(kinds, touching, a).0, before[a], before) == (before[a], 1int),
{
    lemma_no_contacts(touching[a], a);
}

} // verus!
