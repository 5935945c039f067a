use snake_chain::{spawn_snake, Angle, Chain, ChainHead, ChainNode, ConfigError, Settings, Vector};

const WORLD: i64 = 0x100_0000_0000;

fn twenty_degrees() -> Angle {
    Angle::new(940, 342)
}

fn link(next: Option<usize>) -> Option<ChainNode> {
    Some(ChainNode {
        next,
        distance: 20,
        angle_threshold: twenty_degrees(),
        position: Vector::new(0, 0),
        facing: Vector::new(0, 1),
    })
}

fn good_settings() -> Settings {
    Settings { speed: 500, max_turn: twenty_degrees(), stop_radius_sq: 100 }
}

fn good_head() -> ChainHead {
    ChainHead { target: Vector::new(0, 20), direction: Vector::new(0, 1073741824) }
}

fn error_of(nodes: Vec<Option<ChainNode>>, head_id: usize) -> Option<ConfigError> {
    Chain::new(nodes, head_id, good_head(), good_settings()).err()
}

#[test]
fn new_keeps_what_it_is_given() {
    let nodes = vec![link(None), None, link(Some(0))];
    let chain = Chain::new(nodes, 2, good_head(), good_settings()).unwrap();
    assert_eq!(chain.len(), 3);
    assert_eq!(chain.head_id(), 2);
    assert_eq!(chain.head(), good_head());
    assert_eq!(chain.settings(), good_settings());
    assert_eq!(chain.node(0), link(None));
    assert_eq!(chain.node(1), None);
    assert_eq!(chain.node(3), None);
    assert_eq!(chain.order(), vec![2, 0]);
}

#[test]
fn new_makes_the_head_look_where_it_is_heading() {
    let chain = Chain::new(vec![link(None)], 0, good_head(), good_settings()).unwrap();
    assert_eq!(chain.node(0).unwrap().facing, Vector::new(0, 1073741824));
    assert_eq!(chain.node(0).unwrap().position, Vector::new(0, 0));
    assert_eq!(chain.node(0).unwrap().distance, 20);
}

#[test]
fn new_refuses_too_many_slots() {
    let mut nodes = vec![link(None)];
    while nodes.len() < 4097 {
        nodes.push(None);
    }
    assert_eq!(error_of(nodes, 0), Some(ConfigError::TooManySegments));
}

#[test]
fn new_takes_the_largest_number_of_slots() {
    let mut nodes = vec![link(None)];
    while nodes.len() < 4096 {
        let before: usize = nodes.len() - 1;
        nodes.push(link(Some(before)));
    }
    let chain = Chain::new(nodes, 4095, good_head(), good_settings()).unwrap();
    assert_eq!(chain.order().len(), 4096);
}

#[test]
fn new_refuses_a_missing_head() {
    assert_eq!(error_of(vec![], 0), Some(ConfigError::NoHead));
    assert_eq!(error_of(vec![link(None)], 1), Some(ConfigError::NoHead));
    assert_eq!(error_of(vec![link(None), None], 1), Some(ConfigError::NoHead));
}

#[test]
fn new_refuses_a_link_without_length() {
    let mut nodes = vec![link(Some(1)), link(None)];
    nodes[1].as_mut().unwrap().distance = 0;
    assert_eq!(error_of(nodes, 0), Some(ConfigError::ZeroDistance));
    let mut nodes = vec![link(None), link(None)];
    nodes[1].as_mut().unwrap().distance = 0;
    assert_eq!(error_of(nodes, 0), Some(ConfigError::ZeroDistance));
}

#[test]
fn new_refuses_a_joint_without_a_limit() {
    let mut nodes = vec![link(Some(1)), link(None)];
    nodes[1].as_mut().unwrap().angle_threshold = Angle::new(0, 0);
    assert_eq!(error_of(nodes, 0), Some(ConfigError::BadAngle));
    let mut nodes = vec![link(Some(1)), link(None)];
    nodes[0].as_mut().unwrap().angle_threshold = Angle::new(940, -342);
    assert_eq!(error_of(nodes, 0), Some(ConfigError::BadAngle));
    let mut nodes = vec![link(Some(1)), link(None)];
    nodes[0].as_mut().unwrap().angle_threshold = Angle::new(20000, 1);
    assert_eq!(error_of(nodes, 0), Some(ConfigError::BadAngle));
}

#[test]
fn new_refuses_a_turn_without_a_limit() {
    let settings = Settings { speed: 500, max_turn: Angle::new(0, 0), stop_radius_sq: 100 };
    let r = Chain::new(vec![link(None)], 0, good_head(), settings);
    assert_eq!(r.err(), Some(ConfigError::BadAngle));
}

#[test]
fn new_refuses_what_is_out_of_range() {
    let mut nodes = vec![link(Some(1)), link(None)];
    nodes[1].as_mut().unwrap().position = Vector::new(0, 0x2000_0000_0001);
    assert_eq!(error_of(nodes, 0), Some(ConfigError::OutOfRange));
    let mut nodes = vec![link(Some(1)), link(None)];
    nodes[0].as_mut().unwrap().position = Vector::new(-WORLD - 1, 0);
    assert_eq!(error_of(nodes, 0), Some(ConfigError::OutOfRange));
    let mut nodes = vec![link(Some(1)), link(None)];
    nodes[1].as_mut().unwrap().facing = Vector::new(0x4000_0000_0001, 0);
    assert_eq!(error_of(nodes, 0), Some(ConfigError::OutOfRange));
    let far = ChainHead { target: Vector::new(WORLD + 1, 0), direction: Vector::new(0, 1) };
    let r = Chain::new(vec![link(None)], 0, far, good_settings());
    assert_eq!(r.err(), Some(ConfigError::OutOfRange));
    let long = ChainHead { target: Vector::new(0, 0), direction: Vector::new(0, 0x4000_0000_0001) };
    let r = Chain::new(vec![link(None)], 0, long, good_settings());
    assert_eq!(r.err(), Some(ConfigError::OutOfRange));
}

#[test]
fn new_takes_what_is_just_in_range() {
    let mut nodes = vec![link(Some(1)), link(None)];
    nodes[1].as_mut().unwrap().position = Vector::new(-0x2000_0000_0000, 0x2000_0000_0000);
    nodes[1].as_mut().unwrap().facing = Vector::new(0x4000_0000_0000, -0x4000_0000_0000);
    nodes[0].as_mut().unwrap().position = Vector::new(WORLD, -WORLD);
    nodes[0].as_mut().unwrap().distance = u32::MAX;
    nodes[0].as_mut().unwrap().angle_threshold = Angle::new(-0x4000, 0x4000);
    let head = ChainHead {
        target: Vector::new(-WORLD, WORLD),
        direction: Vector::new(0x4000_0000_0000, 0x4000_0000_0000),
    };
    assert!(Chain::new(nodes, 0, head, good_settings()).is_ok());
}

#[test]
fn new_refuses_links_that_come_back() {
    assert_eq!(error_of(vec![link(Some(0))], 0), Some(ConfigError::Cycle));
    assert_eq!(error_of(vec![link(Some(1)), link(Some(0))], 0), Some(ConfigError::Cycle));
    assert_eq!(
        error_of(vec![link(Some(1)), link(Some(2)), link(Some(1))], 0),
        Some(ConfigError::Cycle)
    );
}

#[test]
fn new_takes_a_ring_that_the_head_does_not_reach() {
    let nodes = vec![link(None), link(Some(2)), link(Some(1))];
    let chain = Chain::new(nodes, 0, good_head(), good_settings()).unwrap();
    assert_eq!(chain.order(), vec![0]);
}

#[test]
fn new_takes_a_broken_link() {
    let nodes = vec![link(Some(7)), link(None)];
    let chain = Chain::new(nodes, 0, good_head(), good_settings()).unwrap();
    assert_eq!(chain.order(), vec![0]);
    let nodes = vec![link(Some(1)), None, link(None)];
    let chain = Chain::new(nodes, 0, good_head(), good_settings()).unwrap();
    assert_eq!(chain.order(), vec![0]);
}

#[test]
fn new_names_the_first_of_several_faults() {
    let mut nodes = vec![link(Some(0)), link(None)];
    nodes[1].as_mut().unwrap().distance = 0;
    nodes[1].as_mut().unwrap().angle_threshold = Angle::new(0, 0);
    nodes[1].as_mut().unwrap().position = Vector::new(0, 0x2000_0000_0001);
    assert_eq!(error_of(nodes.clone(), 0), Some(ConfigError::ZeroDistance));
    nodes[1].as_mut().unwrap().distance = 1;
    assert_eq!(error_of(nodes.clone(), 0), Some(ConfigError::BadAngle));
    nodes[1].as_mut().unwrap().angle_threshold = twenty_degrees();
    assert_eq!(error_of(nodes.clone(), 0), Some(ConfigError::OutOfRange));
    nodes[1].as_mut().unwrap().position = Vector::new(0, 0);
    assert_eq!(error_of(nodes.clone(), 0), Some(ConfigError::Cycle));
    assert_eq!(error_of(nodes, 5), Some(ConfigError::NoHead));
}

#[test]
fn spawn_hangs_the_chain_below_its_head() {
    let chain = spawn_snake(60, 20, twenty_degrees(), Vector::new(0, 0), good_settings()).unwrap();
    assert_eq!(chain.len(), 60);
    assert_eq!(chain.head_id(), 59);
    assert_eq!(chain.head().target, Vector::new(0, 20));
    assert_eq!(chain.head().direction, Vector::new(0, 1073741824));
    assert_eq!(chain.settings(), good_settings());
    let mut j: usize = 0;
    while j < 60 {
        let node = chain.node(j).unwrap();
        assert_eq!(node.position, Vector::new(0, -20 * (59 - j as i64)));
        assert_eq!(node.next, if j == 0 { None } else { Some(j - 1) });
        assert_eq!(node.distance, 20);
        assert_eq!(node.angle_threshold, twenty_degrees());
        assert_eq!(node.facing, Vector::new(0, 1073741824));
        j += 1;
    }
    let order = chain.order();
    assert_eq!(order.len(), 60);
    assert_eq!(order[0], 59);
    assert_eq!(order[59], 0);
}

#[test]
fn spawn_of_one_segment_is_a_head_alone() {
    let chain = spawn_snake(1, 7, twenty_degrees(), Vector::new(3, 4), good_settings()).unwrap();
    assert_eq!(chain.order(), vec![0]);
    assert_eq!(chain.node(0).unwrap().position, Vector::new(3, 4));
    assert_eq!(chain.node(0).unwrap().next, None);
    assert_eq!(chain.head().target, Vector::new(3, 11));
}

#[test]
fn spawn_at_the_border_aims_into_the_world() {
    let chain = spawn_snake(3, 20, twenty_degrees(), Vector::new(0, WORLD), good_settings());
    assert_eq!(chain.unwrap().head().target, Vector::new(0, WORLD));
}

#[test]
fn spawn_of_the_longest_chain_with_the_longest_links() {
    let chain = spawn_snake(4096, u32::MAX, twenty_degrees(), Vector::new(0, -WORLD), good_settings())
        .unwrap();
    assert_eq!(chain.node(0).unwrap().position, Vector::new(0, -WORLD - 4095 * 4294967295));
    assert_eq!(chain.order().len(), 4096);
}

#[test]
fn spawn_refuses_what_new_refuses() {
    let at = Vector::new(0, 0);
    let ok = twenty_degrees();
    let err = |r: Result<Chain, ConfigError>| r.err();
    assert_eq!(err(spawn_snake(4097, 20, ok, at, good_settings())), Some(ConfigError::TooManySegments));
    assert_eq!(err(spawn_snake(0, 20, ok, at, good_settings())), Some(ConfigError::NoHead));
    assert_eq!(err(spawn_snake(5, 0, ok, at, good_settings())), Some(ConfigError::ZeroDistance));
    assert_eq!(
        err(spawn_snake(5, 20, Angle::new(0, 0), at, good_settings())),
        Some(ConfigError::BadAngle)
    );
    let bad = Settings { speed: 500, max_turn: Angle::new(1, -1), stop_radius_sq: 100 };
    assert_eq!(err(spawn_snake(5, 20, ok, at, bad)), Some(ConfigError::BadAngle));
    assert_eq!(
        err(spawn_snake(5, 20, ok, Vector::new(WORLD + 1, 0), good_settings())),
        Some(ConfigError::OutOfRange)
    );
    assert_eq!(
        err(spawn_snake(0, 0, Angle::new(0, 0), Vector::new(WORLD + 1, 0), good_settings())),
        Some(ConfigError::NoHead)
    );
}

#[test]
fn longest_chain_stays_in_reach() {
    let mut chain = spawn_snake(4096, u32::MAX, twenty_degrees(), Vector::new(0, -WORLD), good_settings())
        .unwrap();
    let mut tick: u32 = 0;
    while tick < 3 {
        chain.propagate(Some(Vector::new(-WORLD, -WORLD)), 1_000_000);
        tick += 1;
    }
    let mut j: usize = 0;
    while j < 4096 {
        assert!(chain.node(j).unwrap().position.is_within(0x2000_0000_0000));
        j += 1;
    }
}
