use roguelike_core::bsp::BSPNode;
use roguelike_core::dungeon::DungeonGenerator;
use roguelike_core::rng::SeededRng;
use roguelike_core::tile::{Rect, Room};

fn leaves(node: &BSPNode, out: &mut Vec<(i32, i32, i32, i32, u32)>) {
    match (&node.left, &node.right) {
        (Some(l), Some(r)) => {
            leaves(l, out);
            leaves(r, out);
        }
        _ => out.push((node.x, node.y, node.width, node.height, node.id)),
    }
}

fn ids(node: &BSPNode, out: &mut Vec<u32>) {
    out.push(node.id);
    if let Some(l) = &node.left {
        ids(l, out);
    }
    if let Some(r) = &node.right {
        ids(r, out);
    }
}

#[test]
fn new_node_is_a_bare_leaf() {
    let node = BSPNode::new(1, 2, 30, 40, 7);
    assert_eq!((node.x, node.y, node.width, node.height, node.id), (1, 2, 30, 40, 7));
    assert!(node.left.is_none());
    assert!(node.right.is_none());
    assert!(node.room.is_none());
}

#[test]
fn can_split_needs_both_sides_long() {
    assert!(BSPNode::new(0, 0, 21, 21, 0).can_split(10));
    assert!(!BSPNode::new(0, 0, 20, 21, 0).can_split(10));
    assert!(!BSPNode::new(0, 0, 21, 20, 0).can_split(10));
    assert!(!BSPNode::new(0, 0, 100, 20, 0).can_split(10));
    assert!(!BSPNode::new(0, 0, 20, 100, 0).can_split(10));
    assert!(BSPNode::new(0, 0, 1, 1, 0).can_split(0));
}

#[test]
fn split_refuses_a_node_that_is_too_small() {
    let mut node = BSPNode::new(1, 1, 20, 40, 0);
    let mut next_id = 1;
    let mut rng = SeededRng::new(3);
    assert!(!node.split(&mut next_id, 10, &mut rng));
    assert!(node.left.is_none() && node.right.is_none());
    assert_eq!(next_id, 1);
    assert_eq!(rng.state, 3);
}

#[test]
fn split_refuses_when_ids_run_out() {
    let mut node = BSPNode::new(1, 1, 60, 60, 0);
    let mut next_id = u32::MAX - 1;
    let mut rng = SeededRng::new(3);
    assert!(!node.split(&mut next_id, 10, &mut rng));
    assert!(node.left.is_none() && node.right.is_none());
    assert_eq!(next_id, u32::MAX - 1);
}

#[test]
fn wide_node_is_cut_side_by_side() {
    // 50 >= 1.25 * 40: no draw for the direction, one for the cut.
    let mut node = BSPNode::new(1, 1, 50, 40, 0);
    let mut next_id = 1;
    let mut rng = SeededRng::new(42);
    assert!(node.split(&mut next_id, 10, &mut rng));
    assert_eq!(rng.state, 1083814273);
    let cut = 10 + (1083814273u32 % 30) as i32;
    let l = node.left.as_ref().unwrap();
    let r = node.right.as_ref().unwrap();
    assert_eq!((l.x, l.y, l.width, l.height, l.id), (1, 1, cut, 40, 1));
    assert_eq!((r.x, r.y, r.width, r.height, r.id), (1 + cut, 1, 50 - cut, 40, 2));
    assert_eq!(next_id, 3);
}

#[test]
fn tall_node_is_stacked() {
    // 50 >= 1.25 * 40.
    let mut node = BSPNode::new(3, 4, 40, 50, 9);
    let mut next_id = 20;
    let mut rng = SeededRng::new(42);
    assert!(node.split(&mut next_id, 12, &mut rng));
    let cut = 12 + (1083814273u32 % 26) as i32;
    let l = node.left.as_ref().unwrap();
    let r = node.right.as_ref().unwrap();
    assert_eq!((l.x, l.y, l.width, l.height, l.id), (3, 4, 40, cut, 20));
    assert_eq!((r.x, r.y, r.width, r.height, r.id), (3, 4 + cut, 40, 50 - cut, 21));
    assert_eq!(next_id, 22);
    assert_eq!(node.id, 9);
}

#[test]
fn square_node_draws_its_direction() {
    // State 0 steps to 1013904223 (odd: side by side), then to 1196435762.
    let mut node = BSPNode::new(0, 0, 40, 40, 0);
    let mut next_id = 1;
    let mut rng = SeededRng::new(0);
    assert!(node.split(&mut next_id, 10, &mut rng));
    assert_eq!(rng.state, 1196435762);
    let cut = 10 + (1196435762u32 % 20) as i32;
    let l = node.left.as_ref().unwrap();
    assert_eq!((l.width, l.height), (cut, 40));
}

#[test]
fn ratio_exactly_five_to_four_needs_no_draw() {
    let mut node = BSPNode::new(0, 0, 50, 40, 0);
    let mut next_id = 1;
    let mut rng = SeededRng::new(0);
    assert!(node.split(&mut next_id, 10, &mut rng));
    // One draw only: the cut.
    assert_eq!(rng.state, 1013904223);
}

#[test]
fn children_are_at_least_min_size() {
    for seed in 0..200u32 {
        let mut node = BSPNode::new(1, 1, 78, 48, 0);
        let mut next_id = 1;
        let mut rng = SeededRng::new(seed);
        DungeonGenerator::split_node_recursive(&mut node, &mut next_id, 12, 5, &mut rng);
        let mut found = Vec::new();
        leaves(&node, &mut found);
        let mut area = 0;
        for (x, y, w, h, _) in &found {
            assert!(*w >= 12 && *h >= 12);
            assert!(*x >= 1 && *y >= 1 && x + w <= 79 && y + h <= 49);
            area += w * h;
        }
        assert_eq!(area, 78 * 48);
    }
}

#[test]
fn ids_are_handed_out_in_sequence() {
    let mut node = BSPNode::new(1, 1, 78, 48, 0);
    let mut next_id = 1;
    let mut rng = SeededRng::new(0x12345678);
    DungeonGenerator::split_node_recursive(&mut node, &mut next_id, 12, 5, &mut rng);
    let mut found = Vec::new();
    ids(&node, &mut found);
    found.sort();
    let expected: Vec<u32> = (0..next_id).collect();
    assert_eq!(found, expected);
}

#[test]
fn depth_zero_splits_nothing() {
    let mut node = BSPNode::new(1, 1, 78, 48, 0);
    let mut next_id = 1;
    let mut rng = SeededRng::new(5);
    DungeonGenerator::split_node_recursive(&mut node, &mut next_id, 12, 0, &mut rng);
    assert!(node.left.is_none() && node.right.is_none());
    assert_eq!(next_id, 1);
    assert_eq!(rng.state, 5);
}

#[test]
fn leaf_too_small_gets_no_room() {
    let mut node = BSPNode::new(1, 1, 8, 20, 0);
    let mut rng = SeededRng::new(5);
    node.create_rooms(5, 8, &mut rng);
    assert!(node.room.is_none());
    assert_eq!(rng.state, 5);
}

#[test]
fn leaf_room_keeps_its_margin() {
    for seed in 0..200u32 {
        let mut node = BSPNode::new(10, 20, 18, 15, 4);
        let mut rng = SeededRng::new(seed);
        node.create_rooms(5, 8, &mut rng);
        let room = node.room.unwrap();
        assert!(5 <= room.width && room.width <= 8);
        assert!(5 <= room.height && room.height <= 8);
        assert!(room.x >= 12 && room.x + room.width <= 26);
        assert!(room.y >= 22 && room.y + room.height <= 33);
    }
}

#[test]
fn leaf_room_is_drawn_in_order() {
    // Width, height, then the offsets: four draws from seed 42.
    let mut node = BSPNode::new(1, 1, 18, 18, 0);
    let mut rng = SeededRng::new(42);
    node.create_rooms(5, 8, &mut rng);
    let mut check = SeededRng::new(42);
    let w = check.next_range(5, 9);
    let h = check.next_range(5, 9);
    let x = 3 + check.next_range(0, 18 - w - 4 + 1);
    let y = 3 + check.next_range(0, 18 - h - 4 + 1);
    assert_eq!(node.room, Some(Rect { x, y, width: w, height: h }));
    assert_eq!(rng.state, check.state);
}

#[test]
fn inner_nodes_get_no_rooms() {
    let mut node = BSPNode::new(1, 1, 78, 48, 0);
    let mut next_id = 1;
    let mut rng = SeededRng::new(11);
    DungeonGenerator::split_node_recursive(&mut node, &mut next_id, 12, 5, &mut rng);
    node.create_rooms(5, 8, &mut rng);
    fn check(node: &BSPNode) {
        if node.left.is_some() {
            assert!(node.right.is_some());
            assert!(node.room.is_none());
            check(node.left.as_ref().unwrap());
            check(node.right.as_ref().unwrap());
        } else {
            assert!(node.right.is_none());
        }
    }
    check(&node);
}

#[test]
fn rooms_are_collected_first_child_first() {
    let mut node = BSPNode::new(0, 0, 40, 20, 0);
    let mut left = BSPNode::new(0, 0, 20, 20, 1);
    left.room = Some(Rect { x: 2, y: 2, width: 5, height: 5 });
    let mut right = BSPNode::new(20, 0, 20, 20, 2);
    right.room = Some(Rect { x: 22, y: 2, width: 6, height: 7 });
    node.left = Some(Box::new(left));
    node.right = Some(Box::new(right));
    let mut rooms: Vec<Room> = Vec::new();
    node.get_rooms(&mut rooms);
    assert_eq!(rooms.len(), 2);
    assert_eq!((rooms[0].id, rooms[0].x, rooms[0].width), (1, 2, 5));
    assert_eq!((rooms[1].id, rooms[1].x, rooms[1].height), (2, 22, 7));
    assert!(rooms[0].connected_rooms.is_empty());
    assert!(!rooms[0].is_illuminated);
}

#[test]
fn room_center_is_the_middle_of_the_room() {
    let mut node = BSPNode::new(0, 0, 20, 20, 1);
    assert_eq!(node.get_room_center(), None);
    node.room = Some(Rect { x: 2, y: 3, width: 5, height: 8 });
    assert_eq!(node.get_room_center(), Some((4, 7)));
}

#[test]
fn connection_center_of_a_bare_leaf_is_its_middle() {
    let node = BSPNode::new(10, 20, 8, 6, 1);
    assert_eq!(node.get_connection_center(), (14, 23));
}

#[test]
fn connection_center_of_one_room_is_its_middle() {
    // The subtree has one room, in its second child.
    let mut node = BSPNode::new(0, 0, 40, 20, 0);
    let left = BSPNode::new(0, 0, 20, 20, 1);
    let mut right = BSPNode::new(20, 0, 20, 20, 2);
    right.room = Some(Rect { x: 22, y: 2, width: 6, height: 8 });
    node.left = Some(Box::new(left));
    node.right = Some(Box::new(right));
    assert_eq!(node.get_connection_center(), (25, 6));
}

#[test]
fn connection_center_of_two_rooms_is_the_middle_of_the_first() {
    let mut node = BSPNode::new(0, 0, 40, 20, 0);
    let mut left = BSPNode::new(0, 0, 20, 20, 1);
    left.room = Some(Rect { x: 2, y: 2, width: 5, height: 5 });
    let mut right = BSPNode::new(20, 0, 20, 20, 2);
    right.room = Some(Rect { x: 22, y: 2, width: 6, height: 8 });
    node.left = Some(Box::new(left));
    node.right = Some(Box::new(right));
    assert_eq!(node.get_connection_center(), (4, 4));
    assert_eq!(node.first_room(), Some(Rect { x: 2, y: 2, width: 5, height: 5 }));
    // Three rooms, the first in the second child of the first child.
    let mut top = BSPNode::new(0, 0, 80, 20, 7);
    let mut bare = BSPNode::new(40, 0, 40, 20, 8);
    bare.left = Some(Box::new(BSPNode::new(40, 0, 20, 20, 9)));
    let mut far = BSPNode::new(60, 0, 20, 20, 10);
    far.room = Some(Rect { x: 63, y: 3, width: 7, height: 7 });
    bare.right = Some(Box::new(far));
    top.left = Some(Box::new(bare));
    top.right = Some(Box::new(node));
    assert_eq!(top.get_connection_center(), (66, 6));
}

#[test]
fn connection_center_without_rooms_is_the_middle_of_the_node() {
    let mut node = BSPNode::new(0, 0, 40, 20, 0);
    node.left = Some(Box::new(BSPNode::new(0, 0, 10, 20, 1)));
    node.right = Some(Box::new(BSPNode::new(10, 0, 30, 20, 2)));
    assert_eq!(node.get_connection_center(), (20, 10));
    assert_eq!(node.first_room(), None);
    let low = BSPNode::new(-9, -7, 4, 3, 1);
    assert_eq!(low.get_connection_center(), (-7, -6));
}

#[test]
fn split_below_zero_and_with_a_negative_minimum() {
    // The node lies left of and above the origin.
    for seed in 0..60u32 {
        let mut node = BSPNode::new(-50, -40, 30, 30, 0);
        let mut next_id = 1u32;
        let mut rng = SeededRng::new(seed);
        assert!(node.split(&mut next_id, 10, &mut rng));
        let l = node.left.as_ref().unwrap();
        let r = node.right.as_ref().unwrap();
        assert_eq!((l.x, l.y), (-50, -40));
        if l.height == 30 {
            assert!(10 <= l.width && l.width <= 20);
            assert_eq!((r.x, r.y, r.width, r.height), (-50 + l.width, -40, 30 - l.width, 30));
        } else {
            assert!(10 <= l.height && l.height <= 20);
            assert_eq!((r.x, r.y, r.width, r.height), (-50, -40 + l.height, 30, 30 - l.height));
        }
    }
    // A negative minimum lets the cut fall as far outside the node.
    let mut low = 0;
    for seed in 0..60u32 {
        let mut node = BSPNode::new(0, 0, 10, 30, 0);
        let mut next_id = 1u32;
        let mut rng = SeededRng::new(seed);
        assert!(node.can_split(-3));
        assert!(node.split(&mut next_id, -3, &mut rng));
        let l = node.left.as_ref().unwrap();
        let r = node.right.as_ref().unwrap();
        // Higher than wide: cut across.
        assert_eq!((l.x, l.y, l.width), (0, 0, 10));
        assert!(-3 <= l.height && l.height < 33);
        assert_eq!((r.x, r.y, r.width, r.height), (0, l.height, 10, 30 - l.height));
        if l.height < 0 {
            low += 1;
        }
    }
    assert!(low > 0);
}
