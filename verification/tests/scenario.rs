use snake_chain::{
    angle_between, move_chain, spawn_snake, Angle, Chain, ChainEnd, ChainHead, ChainNode, Settings,
    Tick, Vector,
};

fn twenty_degrees() -> Angle {
    Angle::new(940, 342)
}

fn node(next: Option<usize>, x: i64, y: i64) -> Option<ChainNode> {
    Some(ChainNode {
        next,
        distance: 20,
        angle_threshold: twenty_degrees(),
        position: Vector::new(x, y),
        facing: Vector::new(0, 1),
    })
}

fn settings() -> Settings {
    Settings { speed: 500, max_turn: twenty_degrees(), stop_radius_sq: 100 }
}

fn upward() -> ChainHead {
    ChainHead { target: Vector::new(0, 20), direction: Vector::new(0, 1073741824) }
}

fn positions(chain: &Chain) -> Vec<Option<Vector>> {
    let mut all = Vec::new();
    let mut id: usize = 0;
    while id < chain.len() {
        all.push(chain.node(id).map(|n| n.position));
        id += 1;
    }
    all
}

fn hanging(count: usize) -> Chain {
    let mut nodes = Vec::new();
    let mut i: usize = 0;
    while i < count {
        let next = if i + 1 < count { Some(i + 1) } else { None };
        nodes.push(node(next, 0, -20 * (i as i64)));
        i += 1;
    }
    Chain::new(nodes, 0, upward(), settings()).unwrap()
}

#[test]
fn head_runs_fifty_and_the_next_segment_follows_at_twenty() {
    let nodes = vec![node(Some(1), 0, 0), node(None, 0, -20)];
    let mut chain = Chain::new(nodes, 0, upward(), settings()).unwrap();
    let tick = chain.propagate(Some(Vector::new(0, 100)), 100_000);
    assert_eq!(tick, Tick::Moved(ChainEnd::Tail));
    assert_eq!(chain.node(0).unwrap().position, Vector::new(0, 50));
    assert_eq!(chain.node(1).unwrap().position, Vector::new(0, 30));
    assert_eq!(chain.head().target, Vector::new(0, 100));
    assert_eq!(chain.head().direction, Vector::new(0, 1073741824));
    assert_eq!(chain.node(0).unwrap().facing, Vector::new(0, 1073741824));
    assert_eq!(chain.node(1).unwrap().facing, Vector::new(0, 20));
}

#[test]
fn broken_link_stops_the_pass() {
    let nodes = vec![
        node(Some(1), 0, 0),
        node(Some(2), 0, -20),
        node(Some(9), 0, -40),
        node(Some(4), 0, -60),
        node(None, 0, -80),
    ];
    let mut chain = Chain::new(nodes, 0, upward(), settings()).unwrap();
    assert_eq!(chain.order(), vec![0, 1, 2]);
    let tick = chain.propagate(Some(Vector::new(300, 400)), 100_000);
    assert_eq!(tick, Tick::Moved(ChainEnd::BrokenLink(9)));
    assert_eq!(
        positions(&chain),
        vec![
            Some(Vector::new(17, 46)),
            Some(Vector::new(13, 27)),
            Some(Vector::new(10, 8)),
            Some(Vector::new(0, -60)),
            Some(Vector::new(0, -80)),
        ]
    );
    assert_eq!(chain.node(1).unwrap().facing, Vector::new(4, 19));
    assert_eq!(chain.node(2).unwrap().facing, Vector::new(3, 19));
    assert_eq!(chain.node(3).unwrap().facing, Vector::new(0, 1));
    assert_eq!(chain.node(4).unwrap().facing, Vector::new(0, 1));
    assert_eq!(chain.order(), vec![0, 1, 2]);
}

#[test]
fn empty_slot_stops_the_pass() {
    let nodes = vec![
        node(Some(1), 0, 0),
        node(Some(2), 0, -20),
        node(Some(3), 0, -40),
        None,
        node(None, 0, -80),
    ];
    let mut chain = Chain::new(nodes, 0, upward(), settings()).unwrap();
    let tick = chain.propagate(Some(Vector::new(300, 400)), 100_000);
    assert_eq!(tick, Tick::Moved(ChainEnd::BrokenLink(3)));
    assert_eq!(
        positions(&chain),
        vec![
            Some(Vector::new(17, 46)),
            Some(Vector::new(13, 27)),
            Some(Vector::new(10, 8)),
            None,
            Some(Vector::new(0, -80)),
        ]
    );
}

#[test]
fn nothing_moves_without_time() {
    let nodes = vec![node(Some(1), 0, 0), node(Some(2), 35, -3), node(None, 90, 90)];
    let mut chain = Chain::new(nodes, 0, upward(), settings()).unwrap();
    let before = positions(&chain);
    assert_eq!(chain.propagate(Some(Vector::new(0, 100)), 0), Tick::AtRest);
    assert_eq!(positions(&chain), before);
    assert_eq!(chain.propagate(Some(Vector::new(0, 100)), -16_666), Tick::AtRest);
    assert_eq!(positions(&chain), before);
    assert_eq!(chain.head(), upward());
    assert_eq!(chain.node(1).unwrap().facing, Vector::new(0, 1));
}

#[test]
fn nothing_moves_within_the_stopping_radius() {
    let nodes = vec![node(Some(1), 0, 0), node(Some(2), 35, -3), node(None, 90, 90)];
    let mut chain = Chain::new(nodes, 0, upward(), settings()).unwrap();
    let before = positions(&chain);
    assert_eq!(chain.propagate(Some(Vector::new(-8, 6)), 100_000), Tick::AtRest);
    assert_eq!(positions(&chain), before);
    assert_eq!(chain.head(), upward());
}

#[test]
fn nothing_moves_without_a_target() {
    let nodes = vec![node(Some(1), 0, 0), node(Some(2), 35, -3), node(None, 90, 90)];
    let mut chain = Chain::new(nodes, 0, upward(), settings()).unwrap();
    let before = positions(&chain);
    assert_eq!(chain.propagate(None, 100_000), Tick::NoTarget);
    assert_eq!(chain.propagate(None, 0), Tick::NoTarget);
    assert_eq!(positions(&chain), before);
    assert_eq!(chain.head(), upward());
}

#[test]
fn pass_alone_leaves_the_head_and_moves_the_rest() {
    let mut nodes = vec![node(Some(1), 0, 0), node(Some(2), 30, -40), node(None, 100, -40)];
    nodes[2].as_mut().unwrap().distance = 30;
    let head = ChainHead { target: Vector::new(0, 20), direction: Vector::new(0, 100) };
    let mut chain = Chain::new(nodes, 0, head, settings()).unwrap();
    assert_eq!(move_chain(&mut chain), ChainEnd::Tail);
    assert_eq!(
        positions(&chain),
        vec![Some(Vector::new(0, 0)), Some(Vector::new(6, -18)), Some(Vector::new(18, -33))]
    );
    assert_eq!(chain.node(0).unwrap().facing, Vector::new(0, 100));
    assert_eq!(chain.node(1).unwrap().facing, Vector::new(-6, 18));
    assert_eq!(chain.node(2).unwrap().facing, Vector::new(-12, 15));
    assert_eq!(chain.head(), head);
}

#[test]
fn cut_back_joint_uses_the_link_of_the_anchor() {
    let mut nodes = vec![node(Some(1), 0, 0), node(None, 100, 0)];
    nodes[0].as_mut().unwrap().distance = 50;
    nodes[1].as_mut().unwrap().angle_threshold = Angle::new(1, 1);
    let head = ChainHead { target: Vector::new(0, 20), direction: Vector::new(0, 100) };
    let mut chain = Chain::new(nodes, 0, head, settings()).unwrap();
    move_chain(&mut chain);
    assert_eq!(chain.node(1).unwrap().position, Vector::new(35, -35));
}

#[test]
fn segment_on_its_anchor_stays_there() {
    let nodes = vec![node(Some(1), 0, 0), node(None, 0, 0)];
    let head = ChainHead { target: Vector::new(0, 20), direction: Vector::new(0, 100) };
    let mut chain = Chain::new(nodes, 0, head, settings()).unwrap();
    move_chain(&mut chain);
    assert_eq!(chain.node(1).unwrap().position, Vector::new(0, 0));
    assert_eq!(chain.node(1).unwrap().facing, Vector::new(0, 0));
}

#[test]
fn head_stops_at_the_border_of_the_world() {
    let world: i64 = 0x100_0000_0000;
    let nodes = vec![node(Some(1), world - 5, 0), node(None, world - 25, 0)];
    let head = ChainHead { target: Vector::new(0, 20), direction: Vector::new(1073741824, 0) };
    let slow = Settings { speed: 500, max_turn: twenty_degrees(), stop_radius_sq: 0 };
    let mut chain = Chain::new(nodes, 0, head, slow).unwrap();
    chain.propagate(Some(Vector::new(world, 0)), 1_000_000);
    assert_eq!(
        positions(&chain),
        vec![Some(Vector::new(world, 0)), Some(Vector::new(world - 20, 0))]
    );
}

#[test]
fn tail_first_slots_work_as_head_first_ones() {
    let nodes = vec![
        node(None, 0, -80),
        node(Some(0), 0, -60),
        node(Some(1), 0, -40),
        node(Some(2), 0, -20),
        node(Some(3), 0, 0),
    ];
    let mut chain = Chain::new(nodes, 4, upward(), settings()).unwrap();
    assert_eq!(chain.order(), vec![4, 3, 2, 1, 0]);
    let mut tick: u32 = 0;
    while tick < 3 {
        chain.propagate(Some(Vector::new(300, 400)), 100_000);
        tick += 1;
    }
    assert_eq!(
        positions(&chain),
        vec![
            Some(Vector::new(37, 58)),
            Some(Vector::new(44, 76)),
            Some(Vector::new(53, 93)),
            Some(Vector::new(63, 110)),
            Some(Vector::new(74, 126)),
        ]
    );
    assert_eq!(chain.head().direction, Vector::new(682678569, 828777096));
    assert_eq!(chain.head().target, Vector::new(300, 400));
    assert_eq!(chain.node(4).unwrap().facing, Vector::new(682678569, 828777096));
    assert_eq!(chain.node(0).unwrap().facing, Vector::new(7, 18));
}

fn check_joints(chain: &Chain) {
    let order = chain.order();
    let wide = Angle::new(913, 407);
    let mut k: usize = 1;
    while k < order.len() {
        let anchor = chain.node(order[k - 1]).unwrap();
        let segment = chain.node(order[k]).unwrap();
        let gap = anchor.position.minus(&segment.position);
        assert_eq!(segment.facing, gap);
        assert!(gap.norm_sq() < 21 * 21);
        assert!(gap.norm_sq() >= 18 * 18);
        // One grid step across at eighteen steps away is less than four
        // degrees: the bend stays below twenty-four.
        assert!(angle_between(anchor.facing, segment.facing).within(&wide));
        k += 1;
    }
}

#[test]
fn links_and_bends_hold_while_the_head_wanders() {
    let mut chain = hanging(8);
    let targets = [
        Vector::new(400, 300),
        Vector::new(-250, 500),
        Vector::new(-600, -100),
        Vector::new(50, -700),
        Vector::new(900, 900),
    ];
    for target in targets {
        let mut tick: u32 = 0;
        while tick < 40 {
            chain.propagate(Some(target), 16_666);
            check_joints(&chain);
            tick += 1;
        }
    }
    assert_eq!(
        positions(&chain),
        vec![
            Some(Vector::new(52, 5)),
            Some(Vector::new(37, -7)),
            Some(Vector::new(22, -19)),
            Some(Vector::new(7, -31)),
            Some(Vector::new(-8, -43)),
            Some(Vector::new(-23, -55)),
            Some(Vector::new(-39, -66)),
            Some(Vector::new(-57, -74)),
        ]
    );
}

#[test]
fn chain_straightens_behind_a_head_that_runs_straight() {
    let mut chain = hanging(6);
    let mut tick: u32 = 0;
    while tick < 30 {
        chain.propagate(Some(Vector::new(3000, 0)), 16_666);
        tick += 1;
    }
    assert_eq!(chain.node(0).unwrap().position, Vector::new(184, 62));
    assert_eq!(chain.node(5).unwrap().position, Vector::new(86, 56));
    tick = 0;
    while tick < 400 {
        let head = chain.node(0).unwrap().position;
        chain.propagate(Some(Vector::new(head.x, head.y + 1000)), 16_666);
        tick += 1;
    }
    let mut id: usize = 0;
    while id < 6 {
        let segment = chain.node(id).unwrap();
        assert_eq!(segment.position, Vector::new(246, 3222 - 20 * (id as i64)));
        if id > 0 {
            assert_eq!(segment.facing, Vector::new(0, 20));
        }
        id += 1;
    }
    assert_eq!(chain.head().direction, Vector::new(0, 1073741824));
}

#[test]
fn straight_chain_keeps_its_shape_when_pulled_along_its_line() {
    let mut chain = spawn_snake(60, 20, twenty_degrees(), Vector::new(0, 0), settings()).unwrap();
    chain.propagate(Some(Vector::new(0, 500)), 100_000);
    let mut j: usize = 0;
    while j < 60 {
        let segment = chain.node(j).unwrap();
        assert_eq!(segment.position, Vector::new(0, 50 - 20 * (59 - j as i64)));
        j += 1;
    }
}

#[test]
fn pass_says_where_it_ended() {
    let nodes = vec![node(Some(2), 0, 0), None, node(Some(1), 0, -20)];
    let mut chain = Chain::new(nodes, 0, upward(), settings()).unwrap();
    assert_eq!(move_chain(&mut chain), ChainEnd::BrokenLink(1));
    let nodes = vec![node(Some(7), 0, 0)];
    let mut chain = Chain::new(nodes, 0, upward(), settings()).unwrap();
    assert_eq!(move_chain(&mut chain), ChainEnd::BrokenLink(7));
    let nodes = vec![node(None, 0, 0)];
    let mut chain = Chain::new(nodes, 0, upward(), settings()).unwrap();
    assert_eq!(move_chain(&mut chain), ChainEnd::Tail);
}

#[test]
fn links_hold_to_a_ten_thousandth_on_a_fine_grid() {
    // Twenty thousand grid steps to the unit; links of twenty units.
    let grid: i64 = 20_000;
    let fine = |next: Option<usize>, x: i64, y: i64| {
        Some(ChainNode {
            next,
            distance: 400_000,
            angle_threshold: twenty_degrees(),
            position: Vector::new(x * grid, y * grid),
            facing: Vector::new(0, 1),
        })
    };
    let nodes = vec![fine(Some(1), 0, 0), fine(Some(2), 0, -20), fine(None, 0, -40)];
    let fast = Settings {
        speed: 500 * 20_000,
        max_turn: twenty_degrees(),
        stop_radius_sq: 100 * 20_000 * 20_000,
    };
    let mut chain = Chain::new(nodes, 0, upward(), fast).unwrap();
    let targets = [Vector::new(30 * grid, 100 * grid), Vector::new(-400 * grid, 90 * grid)];
    for target in targets {
        let mut tick: u32 = 0;
        while tick < 50 {
            chain.propagate(Some(target), 100_000);
            let mut k: usize = 1;
            while k < 3 {
                let anchor = chain.node(k - 1).unwrap().position;
                let segment = chain.node(k).unwrap().position;
                let gap = anchor.minus(&segment);
                let length = (gap.norm_sq() as f64).sqrt() / 20_000.0;
                assert!((length - 20.0).abs() <= 0.0001);
                k += 1;
            }
            tick += 1;
        }
    }
    assert_eq!(chain.propagate(Some(Vector::new(0, 5_000 * grid)), 2_000_000), Tick::Moved(ChainEnd::Tail));
}
