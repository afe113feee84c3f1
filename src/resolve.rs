//! Contact resolution for one body: the velocity adjustments it receives in a
//! step and the collision counter it ends with.
use crate::body::{response, response_of, Behavior, Response, PIN_COLLISIONS};
use vstd::prelude::*;

verus! {

/// One change to a body's angular velocity, made when the body is the "self"
/// side of a contact.
#[derive(Clone, Copy, Debug, PartialEq, Eq, Structural)]
pub enum Adjustment {
    /// The velocity becomes zero.
    Pin,
    /// With `n = prior` contacts averaged so far, the velocity `v` becomes
    /// `(v * n - w) / (n + 1)`, where `w` is the velocity that body `other`
    /// had when the step began.
    Average { other: usize, prior: u32 },
}

/// What a step's contacts did to one body.
#[derive(Clone, Debug)]
pub struct Resolution {
    /// The velocity adjustments, in the order they are to be applied.
    pub adjustments: Vec<Adjustment>,
    /// The collision counter at the end of the contact phase.
    pub collisions: u32,
}

/// The adjustments and final counter of a body with behavior `me` that meets
/// the bodies `js`, in that order, starting from a counter of zero.
pub open spec fn settle(me: Behavior, kinds: Seq<Behavior>, js: Seq<int>) -> (Seq<Adjustment>, nat)
    decreases js.len(),
{
    if js.len() == 0 {
        (Seq::empty(), 0)
    } else {
        let (adjs, count) = settle(me, kinds, js.drop_last());
        let j = js.last();
        match response_of(me, kinds[j]) {
            Response::Pin => (adjs.push(Adjustment::Pin), PIN_COLLISIONS as nat),
            Response::Average => (
                adjs.push(Adjustment::Average { other: j as usize, prior: count as u32 }),
                count + 1,
            ),
            Response::Ignore => (adjs, count),
        }
    }
}

/// A body's counter never exceeds the pin value plus its number of contacts.
pub proof fn lemma_settle_bound(me: Behavior, kinds: Seq<Behavior>, js: Seq<int>)
    ensures
        settle(me, kinds, js).1 <= PIN_COLLISIONS + js.len(),
    decreases js.len(),
{
    if js.len() > 0 {
        lemma_settle_bound(me, kinds, js.drop_last());
    }
}

/// Resolves the contacts of a body with behavior `me` with the bodies listed in
/// `partners`, in that order. The counter starts at zero: a static body pins
/// it, every averaged contact raises it by one.
pub fn resolve(me: Behavior, kinds: &Vec<Behavior>, partners: &Vec<usize>) -> (r: Resolution)
    requires
        forall|k: int| 0 <= k < partners@.len() ==> partners@[k] < kinds@.len(),
        partners@.len() + PIN_COLLISIONS <= u32::MAX,
    ensures
        ({
            let (adjs, count) = settle(me, kinds@, partners@.map_values(|j: usize| j as int));
            r.adjustments@ == adjs && r.collisions == count
        }),
{
    let ghost js = partners@.map_values(|j: usize| j as int);
    let mut adjustments: Vec<Adjustment> = Vec::new();
    let mut collisions: u32 = 0;
    let mut k: usize = 0;
    while k < partners.len()
        invariant
            js == partners@.map_values(|j: usize| j as int),
            forall|x: int| 0 <= x < partners@.len() ==> partners@[x] < kinds@.len(),
            partners@.len() + PIN_COLLISIONS <= u32::MAX,
            0 <= k <= partners@.len(),
            adjustments@ == settle(me, kinds@, js.take(k as int)).0,
            collisions == settle(me, kinds@, js.take(k as int)).1,
        decreases partners@.len() - k,
    {
        let j = partners[k];
        proof {
            assert(js.take(k + 1).drop_last() =~= js.take(k as int));
            lemma_settle_bound(me, kinds@, js.take(k as int));
        }
        match response(me, kinds[j]) {
            Response::Pin => {
                adjustments.push(Adjustment::Pin);
                collisions = PIN_COLLISIONS;
            },
            Response::Average => {
                adjustments.push(Adjustment::Average { other: j, prior: collisions });
                collisions = collisions + 1;
            },
            Response::Ignore => {},
        }
        k = k + 1;
    }
    assert(js.take(k as int) =~= js);
    Resolution { adjustments, collisions }
}

/// The velocity of a body after `adjs`, in exact arithmetic, as a fraction
/// `(numerator, denominator)`. `start` is the velocity the body entered the step
/// with, and `before[j]` the one body `j` entered it with.
pub open spec fn velocity_after(adjs: Seq<Adjustment>, start: int, before: Seq<int>) -> (int, int)
    decreases adjs.len(),
{
    if adjs.len() == 0 {
        (start, 1)
    } else {
        let (num, den) = velocity_after(adjs.drop_last(), start, before);
        match adjs.last() {
            Adjustment::Pin => (0, 1),
            Adjustment::Average { other, prior } => (
                num * prior - before[other as int] * den,
                den * (prior + 1),
            ),
        }
    }
}

/// The fraction `f` has a positive denominator and the value `v`.
pub open spec fn has_value(f: (int, int), v: int) -> bool {
    f.1 > 0 && f.0 == v * f.1
}

/// The adjustments never leave a zero or negative denominator.
pub proof fn lemma_velocity_denominator(adjs: Seq<Adjustment>, start: int, before: Seq<int>)
    ensures
        velocity_after(adjs, start, before).1 > 0,
    decreases adjs.len(),
{
    if adjs.len() > 0 {
        lemma_velocity_denominator(adjs.drop_last(), start, before);
        let den = velocity_after(adjs.drop_last(), start, before).1;
        if let Adjustment::Average { other, prior } = adjs.last() {
            assert(den * (prior + 1) > 0) by (nonlinear_arith)
                requires
                    den > 0,
                    prior >= 0,
            ;
        }
    }
}

/// A body's velocity is zero once its last adjustment is a pin.
pub proof fn lemma_pinned_velocity(adjs: Seq<Adjustment>, start: int, before: Seq<int>)
    requires
        adjs.len() > 0,
        adjs.last() == Adjustment::Pin,
    ensures
        has_value(velocity_after(adjs, start, before), 0),
{
}

/// Averaging, from a counter of zero, against one and the same body `b` any
/// number of times gives the negated velocity of `b`.
pub proof fn lemma_repeated_average(adjs: Seq<Adjustment>, b: usize, start: int, before: Seq<int>)
    requires
        adjs.len() > 0,
        forall|x: int| 0 <= x < adjs.len() ==> adjs[x] == (Adjustment::Average { other: b, prior: x as u32 }),
    ensures
        has_value(velocity_after(adjs, start, before), -before[b as int]),
    decreases adjs.len(),
{
    lemma_velocity_denominator(adjs, start, before);
    let w = before[b as int];
    let (num, den) = velocity_after(adjs.drop_last(), start, before);
    lemma_velocity_denominator(adjs.drop_last(), start, before);
    let p = (adjs.len() - 1) as u32;
    assert(adjs.last() == Adjustment::Average { other: b, prior: p });
    if adjs.len() == 1 {
        assert(p == 0);
        assert(num * p - w * den == -w * (den * (p + 1))) by (nonlinear_arith)
            requires
                p == 0,
        ;
    } else {
        lemma_repeated_average(adjs.drop_last(), b, start, before);
        assert(num * p - w * den == -w * (den * (p + 1))) by (nonlinear_arith)
            requires
                num == -w * den,
        ;
    }
}

/// Once a body has met a static body, its counter stays at the pin value or above.
pub proof fn lemma_settle_pinned(me: Behavior, kinds: Seq<Behavior>, js: Seq<int>, x: int)
    requires
        0 <= x < js.len(),
        kinds[js[x]] == Behavior::Static,
    ensures
        settle(me, kinds, js).1 >= PIN_COLLISIONS,
    decreases js.len(),
{
    if x < js.len() - 1 {
        lemma_settle_pinned(me, kinds, js.drop_last(), x);
    }
}

/// A body that averages against nobody ends with a pin as its last adjustment
/// and the pin value as its counter, as soon as it has met a static body.
pub proof fn lemma_settle_without_average(me: Behavior, kinds: Seq<Behavior>, js: Seq<int>, x: int)
    requires
        0 <= x < js.len(),
        kinds[js[x]] == Behavior::Static,
        forall|y: int| 0 <= y < js.len() ==> response_of(me, kinds[js[y]]) != Response::Average,
    ensures
        settle(me, kinds, js).0.len() > 0,
        settle(me, kinds, js).0.last() == Adjustment::Pin,
        settle(me, kinds, js).1 == PIN_COLLISIONS,
    decreases js.len(),
{
    if x < js.len() - 1 && kinds[js.last()] != Behavior::Static {
        lemma_settle_without_average(me, kinds, js.drop_last(), x);
    }
}

/// A normal body that meets only the non-static body `b` averages against `b`
/// at each meeting, with the counter counting up from zero.
pub proof fn lemma_settle_single_partner(kinds: Seq<Behavior>, js: Seq<int>, b: int)
    requires
        0 <= b < kinds.len(),
        b <= usize::MAX,
        js.len() <= u32::MAX,
        kinds[b] != Behavior::Static,
        forall|y: int| 0 <= y < js.len() ==> js[y] == b,
    ensures
        settle(Behavior::Normal, kinds, js).1 == js.len(),
        settle(Behavior::Normal, kinds, js).0.len() == js.len(),
        forall|y: int|
            0 <= y < js.len() ==> settle(Behavior::Normal, kinds, js).0[y] == (Adjustment::Average {
                other: b as usize,
                prior: y as u32,
            }),
    decreases js.len(),
{
    if js.len() > 0 {
        lemma_settle_single_partner(kinds, js.drop_last(), b);
        let adjs = settle(Behavior::Normal, kinds, js).0;
        let prev = settle(Behavior::Normal, kinds, js.drop_last()).0;
        assert forall|y: int| 0 <= y < js.len() implies adjs[y] == (Adjustment::Average {
            other: b as usize,
            prior: y as u32,
        }) by {
            if y < js.len() - 1 {
                assert(adjs[y] == prev[y]);
            }
        }
    }
}

} // verus!
