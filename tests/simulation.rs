use slime::agent::{ink, sense, update_agent, Agent, Parameters};
use slime::field::{Rgba, TrailField};
use slime::simulation::{update_agents, Simulation};
use slime::SimError;

const BLACK: Rgba = Rgba { r: 0, g: 0, b: 0, a: 0 };

fn still_params(speed: u32) -> Parameters {
    Parameters {
        agent_speed: speed,
        agent_turn_speed: 0,
        sensor_radius: 0,
        sensor_angle_spacing: 8192,
        evaporate_speed: 0,
        delta_time_ms: 1000,
    }
}

fn lively_params() -> Parameters {
    Parameters {
        agent_speed: 30000,
        agent_turn_speed: 40000,
        sensor_radius: 1,
        sensor_angle_spacing: 8192,
        evaporate_speed: 200,
        delta_time_ms: 16,
    }
}

#[test]
fn one_agent_moves_one_cell_and_inks_its_start() {
    // Deposits go to the cell the agent stood on before it moved.
    let agent = Agent { x: 5000, y: 5000, heading: 0 };
    let p = still_params(1000);
    let snapshot = TrailField::new(10, 10).unwrap();
    let mut live = TrailField::new(10, 10).unwrap();
    let mut agents = vec![agent];
    update_agents(&p, &snapshot, &mut live, &mut agents);
    assert_eq!(agents[0], Agent { x: 6000, y: 5000, heading: 0 });
    assert_eq!(live.get(5, 5), ink());
    assert_eq!(live.get(6, 5), BLACK);

    let mut sim = Simulation::new(10, 10, vec![agent]).unwrap();
    sim.step(&p).unwrap();
    assert_eq!(sim.agents()[0], Agent { x: 6000, y: 5000, heading: 0 });
    // The inked cell is blurred over its 3x3 neighbourhood.
    assert_eq!(sim.field().get(5, 5), Rgba { r: 111, g: 0, b: 55, a: 111 });
    assert_eq!(sim.field().get(6, 6), Rgba { r: 111, g: 0, b: 55, a: 111 });
    assert_eq!(sim.field().get(7, 5), BLACK);
}

#[test]
fn agent_crossing_left_edge_is_held_inside_and_faces_right() {
    let p = still_params(1000);
    let mut sim = Simulation::new(10, 10, vec![Agent { x: 0, y: 5000, heading: 32768 }]).unwrap();
    sim.step(&p).unwrap();
    let a = sim.agents()[0];
    assert_eq!(a.x, 10);
    assert_eq!(a.y, 5000);
    assert!(a.heading >= 49152 || a.heading < 16384);
}

#[test]
fn agent_crossing_corner_faces_into_field() {
    // Heading five eighths of a turn points left and up, toward the corner at the origin.
    let p = still_params(2000);
    let mut sim = Simulation::new(10, 10, vec![Agent { x: 500, y: 500, heading: 40960 }]).unwrap();
    sim.step(&p).unwrap();
    let a = sim.agents()[0];
    assert_eq!((a.x, a.y), (10, 10));
    assert!(a.heading < 16384);
}

#[test]
fn agent_crossing_bottom_right_corner() {
    let p = still_params(2000);
    let mut sim = Simulation::new(10, 10, vec![Agent { x: 9500, y: 9500, heading: 8192 }]).unwrap();
    sim.step(&p).unwrap();
    let a = sim.agents()[0];
    assert_eq!((a.x, a.y), (9990, 9990));
    assert!(a.heading >= 32768 && a.heading < 49152);
}

#[test]
fn uniform_field_evaporates_evenly() {
    let full = Rgba { r: 1000, g: 1000, b: 1000, a: 1000 };
    let f = TrailField::from_cells(5, 4, vec![full; 20]).unwrap();
    let mut out = TrailField::new(5, 4).unwrap();
    f.diffuse_into(&mut out, 100);
    for y in 0..4 {
        for x in 0..5 {
            assert_eq!(out.get(x, y), Rgba { r: 900, g: 900, b: 900, a: 900 });
        }
    }
}

#[test]
fn diffusion_averages_over_cells_inside_the_field() {
    let mut f = TrailField::new(3, 3).unwrap();
    f.set(0, 0, Rgba { r: 900, g: 0, b: 0, a: 0 });
    let mut out = TrailField::new(3, 3).unwrap();
    f.diffuse_into(&mut out, 0);
    assert_eq!(out.get(0, 0).r, 225);
    assert_eq!(out.get(1, 0).r, 150);
    assert_eq!(out.get(1, 1).r, 100);
    assert_eq!(out.get(2, 2).r, 0);
    f.diffuse_into(&mut out, 120);
    assert_eq!(out.get(0, 0).r, 105);
    assert_eq!(out.get(1, 0).r, 30);
    assert_eq!(out.get(1, 1).r, 0);
}

#[test]
fn diffusion_of_black_stays_black() {
    let f = TrailField::new(6, 5).unwrap();
    let mut out = TrailField::from_cells(6, 5, vec![ink(); 30]).unwrap();
    f.diffuse_into(&mut out, 7);
    for y in 0..5 {
        for x in 0..6 {
            assert_eq!(out.get(x, y), BLACK);
        }
    }
}

#[test]
fn diffusion_decays_the_brightest_channel() {
    let mut f = TrailField::new(7, 7).unwrap();
    f.set(3, 3, Rgba { r: 1000, g: 400, b: 0, a: 1000 });
    f.set(0, 6, Rgba { r: 300, g: 1000, b: 50, a: 0 });
    let mut bound: u16 = 1000;
    let mut out = TrailField::new(7, 7).unwrap();
    for _ in 0..20 {
        f.diffuse_into(&mut out, 10);
        let mut max: u16 = 0;
        for y in 0..7 {
            for x in 0..7 {
                let c = out.get(x, y);
                max = max.max(c.r).max(c.g).max(c.b).max(c.a);
            }
        }
        assert!(max <= bound.saturating_sub(10));
        assert!(max < bound || bound == 0);
        bound = max;
        f.copy_from(&out);
    }
}

#[test]
fn sensing_reads_the_snapshot_only() {
    let p = lively_params();
    let mut snapshot = TrailField::new(20, 20).unwrap();
    snapshot.set(19, 10, ink());
    let a = Agent { x: 10500, y: 10500, heading: 0 };
    let b = Agent { x: 10500, y: 10500, heading: 16384 };
    let mut live1 = TrailField::new(20, 20).unwrap();
    let mut live2 = TrailField::from_cells(20, 20, vec![ink(); 400]).unwrap();
    let mut order1 = vec![a, b];
    let mut order2 = vec![a, b];
    update_agents(&p, &snapshot, &mut live1, &mut order1);
    update_agents(&p, &snapshot, &mut live2, &mut order2);
    assert_eq!(order1, order2);
    assert_eq!(order1[0], update_agent(&p, &snapshot, 0, a));
    assert_eq!(order1[1], update_agent(&p, &snapshot, 1, b));

    // The same two agents in the other order sense the same values and ink the same cells.
    let mut live3 = TrailField::new(20, 20).unwrap();
    let mut swapped = vec![b, a];
    update_agents(&p, &snapshot, &mut live3, &mut swapped);
    assert_eq!(swapped[0], update_agent(&p, &snapshot, 0, b));
    assert_eq!(swapped[1], update_agent(&p, &snapshot, 1, a));
    for y in 0..20 {
        for x in 0..20 {
            assert_eq!(live1.get(x, y), live3.get(x, y));
        }
    }
    assert_eq!(sense(&snapshot, a, 0, 1), 1500);
    assert_eq!(sense(&snapshot, b, 16384, 1), 0);
}

#[test]
fn sensing_sums_color_over_the_clipped_square() {
    let mut f = TrailField::new(20, 20).unwrap();
    f.set(0, 0, Rgba { r: 10, g: 20, b: 30, a: 1000 });
    f.set(1, 0, Rgba { r: 1, g: 1, b: 1, a: 0 });
    // Facing left from (5.5, 0.5): the sensor centre lies outside the field at x = -4.
    let a = Agent { x: 5500, y: 500, heading: 32768 };
    assert_eq!(sense(&f, a, 32768, 4), 60);
    assert_eq!(sense(&f, a, 32768, 5), 63);
    assert_eq!(sense(&f, a, 32768, 3), 0);
}

#[test]
fn agents_stay_inside_the_field() {
    let p = lively_params();
    let mut sim = Simulation::init(40, 30, 300).unwrap();
    for _ in 0..200 {
        sim.step(&p).unwrap();
        for a in sim.agents().iter() {
            assert!(a.x < 40 * 1000);
            assert!(a.y < 30 * 1000);
        }
    }
}

#[test]
fn replay_is_deterministic() {
    let agents: Vec<Agent> = (0..50u32)
        .map(|i| Agent { x: (i * 777) % 25000, y: (i * 1313) % 20000, heading: (i * 4099) as u16 })
        .collect();
    let mut s1 = Simulation::new(25, 20, agents.clone()).unwrap();
    let mut s2 = Simulation::new(25, 20, agents).unwrap();
    let mut p = lively_params();
    for t in 0..100u32 {
        p.delta_time_ms = 10 + t % 7;
        s1.step(&p).unwrap();
        s2.step(&p).unwrap();
    }
    assert_eq!(s1.agents(), s2.agents());
    for y in 0..20 {
        for x in 0..25 {
            assert_eq!(s1.field().get(x, y), s2.field().get(x, y));
        }
    }
}

#[test]
fn init_places_agents_on_whole_cells() {
    let sim = Simulation::init(3, 2, 100).unwrap();
    assert_eq!(sim.agents().len(), 100);
    for a in sim.agents().iter() {
        assert!(a.x < 3000 && a.y < 2000);
        assert_eq!(a.x % 1000, 0);
        assert_eq!(a.y % 1000, 0);
    }
    assert_eq!(sim.field().get(2, 1), BLACK);
    assert_eq!(sim.field().width(), 3);
    assert_eq!(sim.field().height(), 2);
}

#[test]
fn init_rejects_bad_sizes() {
    assert_eq!(Simulation::init(0, 10, 5).err(), Some(SimError::ZeroDimension));
    assert_eq!(Simulation::init(10, 40000, 5).err(), Some(SimError::TooLarge));
}

#[test]
fn new_rejects_agents_outside() {
    let r = Simulation::new(10, 10, vec![Agent { x: 1, y: 1, heading: 0 }, Agent { x: 10000, y: 0, heading: 0 }]);
    assert_eq!(r.err(), Some(SimError::AgentOutOfBounds));
    assert_eq!(Simulation::new(0, 10, vec![]).err(), Some(SimError::ZeroDimension));
}

#[test]
fn zero_delta_time_is_rejected_and_changes_nothing() {
    let agent = Agent { x: 5000, y: 5000, heading: 0 };
    let mut sim = Simulation::new(10, 10, vec![agent]).unwrap();
    let mut p = still_params(1000);
    p.delta_time_ms = 0;
    assert_eq!(sim.step(&p), Err(SimError::ZeroDeltaTime));
    assert_eq!(sim.agents()[0], agent);
    assert_eq!(sim.field().get(5, 5), BLACK);
}

#[test]
fn step_without_agents_keeps_black_field() {
    let mut sim = Simulation::new(6, 4, vec![]).unwrap();
    let p = lively_params();
    for _ in 0..10 {
        sim.step(&p).unwrap();
    }
    for y in 0..4 {
        for x in 0..6 {
            assert_eq!(sim.field().get(x, y), BLACK);
        }
    }
}

#[test]
fn trail_fades_after_agents_leave() {
    let agent = Agent { x: 5500, y: 5500, heading: 0 };
    let mut sim = Simulation::new(10, 10, vec![agent]).unwrap();
    let mut p = still_params(0);
    p.evaporate_speed = 20;
    sim.step(&p).unwrap();
    // Ink at (5, 5) blurred to 1000 / 9 = 111 red, less 20 evaporated.
    assert_eq!(sim.field().get(5, 5).r, 91);
}

#[test]
fn agent_crossing_right_edge_faces_left() {
    let mut sim = Simulation::new(10, 10, vec![Agent { x: 9900, y: 5000, heading: 0 }]).unwrap();
    sim.step(&still_params(1000)).unwrap();
    let a = sim.agents()[0];
    assert_eq!((a.x, a.y), (9990, 5000));
    assert!(a.heading >= 16384 && a.heading < 49152);
}

#[test]
fn agent_crossing_bottom_edge_faces_up() {
    let mut sim = Simulation::new(10, 10, vec![Agent { x: 5000, y: 9900, heading: 16384 }]).unwrap();
    sim.step(&still_params(1000)).unwrap();
    let a = sim.agents()[0];
    assert_eq!((a.x, a.y), (5000, 9990));
    assert!(a.heading >= 32768);
}

#[test]
fn agent_crossing_top_edge_faces_down() {
    let mut sim = Simulation::new(10, 10, vec![Agent { x: 5000, y: 100, heading: 49152 }]).unwrap();
    sim.step(&still_params(1000)).unwrap();
    let a = sim.agents()[0];
    assert_eq!((a.x, a.y), (5000, 10));
    assert!(a.heading < 32768);
}
