use troll_bot::astar::{a_star, check_in_close, get_neigh, get_pos_at_dist, Node};

#[test]
fn positions_at_a_distance_go_by_x_offset() {
    assert_eq!(get_pos_at_dist((0, 0), 1), vec![(0, -1), (0, 1), (-1, 0), (1, 0)]);
    assert_eq!(
        get_pos_at_dist((3, 4), 2),
        vec![(3, 2), (3, 6), (2, 3), (4, 5), (2, 5), (4, 3), (1, 4), (5, 4)]
    );
    // At distance zero the position itself comes twice, as the two corners.
    assert_eq!(get_pos_at_dist((5, 5), 0), vec![(5, 5), (5, 5)]);
    assert_eq!(get_pos_at_dist((5, 5), -1), vec![]);
}

#[test]
fn neighbours_come_nearest_first() {
    assert_eq!(get_neigh((0, 0), 1), vec![(0, -1), (0, 1), (-1, 0), (1, 0)]);
    let two = get_neigh((0, 0), 2);
    assert_eq!(two.len(), 12);
    assert_eq!(&two[..4], &[(0, -1), (0, 1), (-1, 0), (1, 0)]);
    assert_eq!(&two[4..], &get_pos_at_dist((0, 0), 2)[..]);
    assert_eq!(get_neigh((7, 7), 0), vec![]);
}

#[test]
fn nodes_count_moves_and_estimate() {
    let start = Node::new((0, 0), (3, 4), 0);
    assert_eq!((start.pos, start.cost, start.value, start.index, start.parent), ((0, 0), 0, 7, 0, None));
    let next = Node::from(0, 2, (1, 1), (3, 4), 5);
    assert_eq!((next.pos, next.cost, next.value, next.index, next.parent), ((1, 1), 3, 8, 5, Some(0)));
}

#[test]
fn a_path_is_collected_back_from_the_goal() {
    let n0 = Node::new((0, 0), (2, 0), 0);
    let n1 = Node::from(0, 0, (1, 0), (2, 0), 1);
    let n2 = Node::from(1, 1, (2, 0), (2, 0), 2);
    let ram = vec![n0, n1, n2];
    assert_eq!(n2.collect(&ram), vec![(2, 0), (1, 0)]);
    assert_eq!(n0.collect(&ram), vec![]);
}

#[test]
fn a_node_reopens_only_when_it_got_cheaper() {
    let seen = Node::from(0, 4, (1, 0), (9, 0), 1);
    assert_eq!(seen.value, 13);
    let mut close = vec![seen];
    let mut open = vec![];
    let mut ram = vec![Node::new((0, 0), (9, 0), 0), seen];
    check_in_close(Node::from(0, 6, (1, 0), (9, 0), 2), &mut close, &mut open, &mut ram);
    assert_eq!((close.len(), open.len(), ram.len()), (1, 0, 2));
    check_in_close(Node::from(0, 0, (1, 0), (9, 0), 2), &mut close, &mut open, &mut ram);
    assert_eq!((close.len(), open.len(), ram.len()), (0, 1, 3));
    assert_eq!(open[0].value, 9);
    check_in_close(Node::from(0, 0, (0, 1), (9, 0), 3), &mut close, &mut open, &mut ram);
    assert_eq!((close.len(), open.len(), ram.len()), (0, 2, 4));
}

#[test]
fn the_search_finds_a_way_on_the_open_plane() {
    assert_eq!(a_star((0, 0), (0, 0), 1, &vec![]), Some(vec![]));
    assert_eq!(a_star((0, 0), (2, 0), 1, &vec![]), Some(vec![(2, 0), (1, 0)]));
    assert_eq!(a_star((0, 0), (0, 3), 3, &vec![]), Some(vec![(0, 3)]));
    assert_eq!(a_star((0, 0), (3, 0), 0, &vec![]), None);
    // One move away: the goal is the only position on the way.
    assert_eq!(a_star((5, 5), (3, 6), 3, &vec![]), Some(vec![(3, 6)]));
    assert_eq!(a_star((-2, 7), (-2, 6), 1, &vec![]), Some(vec![(-2, 6)]));
    let path = a_star((1, 1), (4, 3), 2, &vec![vec![(2, 2)]]).unwrap();
    assert_eq!(path[0], (4, 3));
    let mut prev = (1, 1);
    for p in path.iter().rev() {
        let d = (p.0 - prev.0).abs() + (p.1 - prev.1).abs();
        assert!(1 <= d && d <= 2);
        prev = *p;
    }
}

#[test]
fn neighbours_within_three_and_a_first_step() {
    assert_eq!(
        get_neigh((5, 5), 3),
        vec![
            (5, 4), (5, 6), (4, 5), (6, 5),
            (5, 3), (5, 7), (4, 4), (6, 6), (4, 6), (6, 4), (3, 5), (7, 5),
            (5, 2), (5, 8), (4, 3), (6, 7), (4, 7), (6, 3), (3, 4), (7, 6), (3, 6), (7, 4), (2, 5), (8, 5),
        ]
    );
    let a = Node::new((0, 0), (5, 4), 0);
    assert_eq!((a.pos, a.cost, a.value), ((0, 0), 0, 9));
    let b = Node::from(a.index, a.cost, (0, 1), (5, 4), 1);
    assert_eq!((b.pos, b.cost, b.value), ((0, 1), 1, 9));
    assert_eq!(b.parent, Some(a.index));
}

#[test]
fn moves_of_one_step_take_the_shortest_way() {
    for (from, to) in [((0, 0), (3, 2)), ((-4, 1), (2, -3)), ((7, 7), (7, 0)), ((1, -1), (-1, 1))] {
        let path = a_star(from, to, 1, &vec![]).unwrap();
        let d = (from.0 - to.0).abs() + (from.1 - to.1).abs();
        assert_eq!(path.len() as i32, d);
        assert_eq!(path[0], to);
        let mut prev = from;
        for p in path.iter().rev() {
            assert_eq!((p.0 - prev.0).abs() + (p.1 - prev.1).abs(), 1);
            prev = *p;
        }
    }
}

#[test]
fn longer_moves_still_reach_the_goal() {
    for (from, to, speed) in [((0, 0), (10, 7), 3), ((-20, 5), (13, -9), 2), ((4, 4), (4, 40), 5), ((0, 0), (1, 1), 2)] {
        let path = a_star(from, to, speed, &vec![]).unwrap();
        assert!(!path.is_empty());
        assert_eq!(path[0], to);
        assert!(!path.contains(&from));
        let mut prev = from;
        for p in path.iter().rev() {
            let d = (p.0 - prev.0).abs() + (p.1 - prev.1).abs();
            assert!(1 <= d && d <= speed);
            prev = *p;
        }
    }
}

#[test]
fn moves_longer_than_a_thousand_steps_reach_the_goal() {
    let (from, to, speed) = ((0, 0), (1500, -1000), 1100);
    let path = a_star(from, to, speed, &vec![]).unwrap();
    assert_eq!(path[0], to);
    assert!(!path.contains(&from));
    let mut prev = from;
    for p in path.iter().rev() {
        let d = (p.0 - prev.0).abs() + (p.1 - prev.1).abs();
        assert!(1 <= d && d <= speed);
        prev = *p;
    }
}
