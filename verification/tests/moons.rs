use intcomputer::moons::{
    cycle_length, periods, simulate, total_energy, update_bodies, Body, Vec3,
};

#[test]
fn test_create() {
    let position = "<x=-1, y=0, z=2>";
    let body = Body::new(&position);
    assert_eq!(body.position, Vec3 { x: -1, y: 0, z: 2 });
    assert_eq!(body.velocity, Vec3 { x: 0, y: 0, z: 0 });
}

#[test]
fn test_interact() {
    let mut b1 = Body::new("<x=3,y=0,z=5>");
    let b2 = Body::new("<x=5,y=0,z=3>");
    b1.interact(&b2);
    assert_eq!(b1.position, Vec3 { x: 3, y: 0, z: 5 });
    assert_eq!(b1.velocity, Vec3 { x: 1, y: 0, z: -1 });
}

#[test]
fn test_update() {
    let mut b1 = Body::new("<x=1,y=2,z=3>");
    b1.velocity = Vec3 { x: -2, y: 0, z: 3 };
    b1.update_position();
    assert_eq!(b1.position, Vec3 { x: -1, y: 2, z: 6 });
    assert_eq!(b1.velocity, Vec3 { x: -2, y: 0, z: 3 });
}

#[test]
fn test_energy() {
    let mut b1 = Body::new("<x=2,y=1,z=-3>");
    b1.velocity = Vec3 { x: -3, y: -2, z: 1 };
    assert_eq!(b1.energy(), 36);
}

#[test]
fn description_may_repeat_brackets_and_carry_more_fields() {
    let body = Body::new("<<x=+7,y=-8,z=9=1,w=4>>>");
    assert_eq!(body.position, Vec3 { x: 7, y: -8, z: 9 });
    let body = Body::new("a=-9223372036854775808,b=9223372036854775807,c=0");
    assert_eq!(body.position, Vec3 { x: i64::MIN, y: i64::MAX, z: 0 });
}

#[test]
fn vector_energy_sums_absolute_values() {
    assert_eq!(Vec3 { x: -3, y: 4, z: -5 }.energy(), 12);
    assert_eq!(Vec3 { x: 0, y: 0, z: 0 }.energy(), 0);
}

#[test]
fn body_is_written_with_padded_numbers() {
    let mut body = Body::new("<x=-1, y=0, z=2>");
    body.velocity = Vec3 { x: 10, y: -200, z: 3000 };
    assert_eq!(body.to_string(), "px:  -1 py:   0 pz:   2 | vx:  10 vy: -200 vz: 3000");
    let body = Body {
        position: Vec3 { x: i64::MIN, y: i64::MAX, z: 100 },
        velocity: Vec3 { x: -10, y: 99, z: -9 },
    };
    assert_eq!(
        body.to_string(),
        format!(
            "px: {:3} py: {:3} pz: {:3} | vx: {:3} vy: {:3} vz: {:3}",
            i64::MIN,
            i64::MAX,
            100,
            -10,
            99,
            -9
        )
    );
}

fn example() -> Vec<Body> {
    vec![
        Body::new("<x=-1, y=0, z=2>"),
        Body::new("<x=2, y=-10, z=-7>"),
        Body::new("<x=4, y=-8, z=8>"),
        Body::new("<x=3, y=5, z=-1>"),
    ]
}

#[test]
fn one_step_applies_gravity_then_velocity() {
    let mut bodies = example();
    update_bodies(&mut bodies);
    assert_eq!(bodies[0].position, Vec3 { x: 2, y: -1, z: 1 });
    assert_eq!(bodies[0].velocity, Vec3 { x: 3, y: -1, z: -1 });
    assert_eq!(bodies[1].position, Vec3 { x: 3, y: -7, z: -4 });
    assert_eq!(bodies[1].velocity, Vec3 { x: 1, y: 3, z: 3 });
    assert_eq!(bodies[2].position, Vec3 { x: 1, y: -7, z: 5 });
    assert_eq!(bodies[2].velocity, Vec3 { x: -3, y: 1, z: -3 });
    assert_eq!(bodies[3].position, Vec3 { x: 2, y: 2, z: 0 });
    assert_eq!(bodies[3].velocity, Vec3 { x: -1, y: -3, z: 1 });
}

#[test]
fn ten_steps_give_the_known_energy() {
    let mut bodies = example();
    for _ in 0..10 {
        update_bodies(&mut bodies);
    }
    let total: i64 = bodies.iter().map(|b| b.energy()).sum();
    assert_eq!(total, 179);
}

#[test]
fn a_lone_body_and_no_body_at_all_just_drift() {
    let mut bodies: Vec<Body> = vec![];
    update_bodies(&mut bodies);
    assert!(bodies.is_empty());
    let mut bodies = vec![Body {
        position: Vec3 { x: 1, y: 2, z: 3 },
        velocity: Vec3 { x: 1, y: 0, z: -1 },
    }];
    update_bodies(&mut bodies);
    assert_eq!(bodies[0].position, Vec3 { x: 2, y: 2, z: 2 });
    assert_eq!(bodies[0].velocity, Vec3 { x: 1, y: 0, z: -1 });
}

#[test]
fn simulation_takes_steps_one_after_the_other() {
    let mut bodies = example();
    simulate(&mut bodies, 10);
    assert_eq!(bodies[0].position, Vec3 { x: 2, y: 1, z: -3 });
    assert_eq!(bodies[0].velocity, Vec3 { x: -3, y: -2, z: 1 });
    assert_eq!(bodies[3].position, Vec3 { x: 2, y: 0, z: 4 });
    assert_eq!(bodies[3].velocity, Vec3 { x: 1, y: -1, z: -1 });
    assert_eq!(total_energy(&bodies), 179);
    let mut still = example();
    simulate(&mut still, 0);
    assert_eq!(still, example());
    assert_eq!(total_energy(&still), 0);
    assert_eq!(total_energy(&vec![]), 0);
}

#[test]
fn second_example_has_the_known_energy() {
    let mut bodies = vec![
        Body::new("<x=-8, y=-10, z=0>"),
        Body::new("<x=5, y=5, z=10>"),
        Body::new("<x=2, y=-7, z=3>"),
        Body::new("<x=9, y=-8, z=-3>"),
    ];
    simulate(&mut bodies, 100);
    assert_eq!(total_energy(&bodies), 1940);
}

#[test]
fn each_axis_has_its_period() {
    let mut bodies = example();
    assert_eq!(periods(&mut bodies), (18, 28, 44));
    let mut expected = example();
    simulate(&mut expected, 44);
    assert_eq!(bodies, expected);
    assert_eq!(cycle_length(18, 28, 44), 2772);
}

#[test]
fn second_example_repeats_after_billions_of_steps() {
    let mut bodies = vec![
        Body::new("<x=-8, y=-10, z=0>"),
        Body::new("<x=5, y=5, z=10>"),
        Body::new("<x=2, y=-7, z=3>"),
        Body::new("<x=9, y=-8, z=-3>"),
    ];
    let (x, y, z) = periods(&mut bodies);
    assert_eq!(cycle_length(x, y, z), 4686774924);
}

#[test]
fn cycle_length_is_the_least_common_multiple() {
    assert_eq!(cycle_length(1, 1, 1), 1);
    assert_eq!(cycle_length(7, 3, 1), 21);
    assert_eq!(cycle_length(2, 4, 8), 8);
    assert_eq!(cycle_length(6, 10, 15), 30);
    assert_eq!(cycle_length(4294967296, 4294967295, 3), 18446744069414584320);
}
