use motio::body::Behavior;
use motio::resolve::{resolve, Adjustment};
use motio::world::collision_pass;

#[test]
fn resolve_counts_averages_from_zero() {
    let kinds = vec![Behavior::Normal, Behavior::Normal, Behavior::Spring, Behavior::Normal];
    let r = resolve(Behavior::Normal, &kinds, &vec![1, 2, 3]);
    assert_eq!(
        r.adjustments,
        vec![
            Adjustment::Average { other: 1, prior: 0 },
            Adjustment::Average { other: 2, prior: 1 },
            Adjustment::Average { other: 3, prior: 2 },
        ]
    );
    assert_eq!(r.collisions, 3);
}

#[test]
fn resolve_after_pin_weights_from_pin_value() {
    let kinds = vec![Behavior::Normal, Behavior::Static, Behavior::Normal];
    let r = resolve(Behavior::Normal, &kinds, &vec![1, 2]);
    assert_eq!(
        r.adjustments,
        vec![Adjustment::Pin, Adjustment::Average { other: 2, prior: 100 }]
    );
    assert_eq!(r.collisions, 101);
}

#[test]
fn resolve_spring_ignores_moving_bodies() {
    let kinds = vec![Behavior::Spring, Behavior::Normal, Behavior::Static];
    let r = resolve(Behavior::Spring, &kinds, &vec![1]);
    assert!(r.adjustments.is_empty());
    assert_eq!(r.collisions, 0);
    let r = resolve(Behavior::Spring, &kinds, &vec![1, 2]);
    assert_eq!(r.adjustments, vec![Adjustment::Pin]);
    assert_eq!(r.collisions, 100);
}

#[test]
fn empty_world_is_a_no_op() {
    let r = collision_pass(&Vec::new(), &Vec::new());
    assert!(r.is_empty());
}

#[test]
fn two_gears_swap_negated_velocities() {
    let kinds = vec![Behavior::Normal, Behavior::Normal];
    let touching = vec![vec![false, true], vec![true, false]];
    let r = collision_pass(&kinds, &touching);
    assert_eq!(r[0].adjustments, vec![Adjustment::Average { other: 1, prior: 0 }]);
    assert_eq!(r[1].adjustments, vec![Adjustment::Average { other: 0, prior: 0 }]);
    assert_eq!(r[0].collisions, 1);
    assert_eq!(r[1].collisions, 1);

    let before: Vec<f32> = vec![10.0, -5.0];
    let dt: f32 = 1.0 / 60.0;
    let mut after = before.clone();
    for (i, res) in r.iter().enumerate() {
        for adj in &res.adjustments {
            match *adj {
                Adjustment::Pin => after[i] = 0.0,
                Adjustment::Average { other, prior } => {
                    after[i] = (after[i] * prior as f32 - before[other]) / (prior as f32 + 1.0)
                }
            }
        }
    }
    assert_eq!(after, vec![5.0, -10.0]);
    let theta: Vec<f32> = after.iter().map(|v| v * dt).collect();
    assert!((theta[0] - 5.0 / 60.0).abs() < 1e-6);
    assert!((theta[1] + 10.0 / 60.0).abs() < 1e-6);
}

#[test]
fn anchor_pins_whatever_touches_it() {
    let kinds = vec![Behavior::Normal, Behavior::Static, Behavior::Spring];
    let touching = vec![
        vec![false, true, false],
        vec![true, false, true],
        vec![false, true, false],
    ];
    let r = collision_pass(&kinds, &touching);
    assert_eq!(r[0].adjustments, vec![Adjustment::Pin]);
    assert_eq!(r[0].collisions, 100);
    assert_eq!(r[2].adjustments, vec![Adjustment::Pin]);
    assert_eq!(r[2].collisions, 100);
    assert!(r[1].adjustments.is_empty());
    assert_eq!(r[1].collisions, 0);
}

#[test]
fn pin_then_neighbour_barely_moves() {
    let kinds = vec![Behavior::Normal, Behavior::Static, Behavior::Normal];
    let touching = vec![
        vec![false, true, true],
        vec![true, false, false],
        vec![true, false, false],
    ];
    let r = collision_pass(&kinds, &touching);
    assert_eq!(
        r[0].adjustments,
        vec![Adjustment::Pin, Adjustment::Average { other: 2, prior: 100 }]
    );
    assert_eq!(r[0].collisions, 101);
    assert_eq!(r[2].adjustments, vec![Adjustment::Average { other: 0, prior: 0 }]);
}

#[test]
fn neighbour_before_anchor_is_overridden() {
    let kinds = vec![Behavior::Normal, Behavior::Normal, Behavior::Static];
    let touching = vec![
        vec![false, true, true],
        vec![true, false, false],
        vec![true, false, false],
    ];
    let r = collision_pass(&kinds, &touching);
    assert_eq!(
        r[0].adjustments,
        vec![Adjustment::Average { other: 1, prior: 0 }, Adjustment::Pin]
    );
    assert_eq!(r[0].collisions, 100);
}

#[test]
fn untouched_body_keeps_its_velocity() {
    let kinds = vec![Behavior::Normal, Behavior::Normal, Behavior::Normal];
    let touching = vec![
        vec![false, true, false],
        vec![true, false, false],
        vec![false, false, false],
    ];
    let r = collision_pass(&kinds, &touching);
    assert!(r[2].adjustments.is_empty());
    assert_eq!(r[2].collisions, 0);
}

#[test]
fn last_body_meets_the_others_in_order() {
    let kinds = vec![Behavior::Normal, Behavior::Normal, Behavior::Normal];
    let touching = vec![
        vec![false, true, true],
        vec![true, false, true],
        vec![true, true, false],
    ];
    let r = collision_pass(&kinds, &touching);
    assert_eq!(
        r[1].adjustments,
        vec![
            Adjustment::Average { other: 2, prior: 0 },
            Adjustment::Average { other: 0, prior: 1 },
        ]
    );
    assert_eq!(
        r[2].adjustments,
        vec![
            Adjustment::Average { other: 0, prior: 0 },
            Adjustment::Average { other: 1, prior: 1 },
        ]
    );
    assert_eq!(r[2].collisions, 2);
}

#[test]
fn same_inputs_same_plan() {
    let kinds = vec![Behavior::Normal, Behavior::Spring, Behavior::Static, Behavior::Normal];
    let touching = vec![
        vec![false, true, false, true],
        vec![true, false, true, false],
        vec![false, true, false, true],
        vec![true, false, true, false],
    ];
    let a = collision_pass(&kinds, &touching);
    let b = collision_pass(&kinds, &touching);
    for i in 0..4 {
        assert_eq!(a[i].adjustments, b[i].adjustments);
        assert_eq!(a[i].collisions, b[i].collisions);
    }
}
