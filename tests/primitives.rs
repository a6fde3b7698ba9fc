use sahomedb::{BaseNode, LayerID, Search, SearchPool, UpperNode, Vector, VectorID, Visited, SENTINEL, UNIT};

fn fixed(xs: &[f32]) -> Vector {
    Vector(xs.iter().map(|x| (x * UNIT as f32) as i32).collect())
}

#[test]
fn vector_id_validity() {
    assert!(VectorID(0).is_valid());
    assert!(VectorID(7).is_valid());
    assert!(!VectorID(u32::MAX).is_valid());
    assert!(!VectorID::invalid().is_valid());
    assert_eq!(VectorID::invalid().0, SENTINEL);
}

#[test]
fn vector_len_and_empty() {
    let v = fixed(&[1.0, 2.0, 3.0]);
    assert_eq!(v.len(), 3);
    assert!(!v.is_empty());
    assert!(Vector(vec![]).is_empty());
}

#[test]
fn vector_distance_is_exact_square() {
    let a = fixed(&[0.0, 0.0, 0.0]);
    let b = fixed(&[3.0, 4.0, 0.0]);
    let u = UNIT as u128;
    assert_eq!(a.distance(&b), 25 * u * u);
    assert_eq!(b.distance(&a), 25 * u * u);
    assert_eq!(a.distance(&a), 0);
}

#[test]
fn vector_distance_extreme_coordinates() {
    let a = Vector(vec![i32::MIN, i32::MAX]);
    let b = Vector(vec![i32::MAX, i32::MIN]);
    let d = (u32::MAX as u128) * (u32::MAX as u128);
    assert_eq!(a.distance(&b), 2 * d);
}

#[test]
fn vector_random_in_unit_range() {
    let v = Vector::random(64);
    assert_eq!(v.len(), 64);
    assert!(v.0.iter().all(|&x| (0..UNIT).contains(&x)));
}

#[test]
fn visited_insert_once() {
    let mut v = Visited::with_capacity(4);
    assert!(v.insert(&VectorID(2)));
    assert!(!v.insert(&VectorID(2)));
    assert!(v.insert(&VectorID(0)));
}

#[test]
fn visited_out_of_range_is_rejected() {
    let mut v = Visited::with_capacity(3);
    assert!(!v.insert(&VectorID(3)));
    assert!(!v.insert(&VectorID(u32::MAX)));
}

#[test]
fn visited_clear_forgets() {
    let mut v = Visited::with_capacity(3);
    assert!(v.insert(&VectorID(1)));
    v.clear();
    assert!(v.insert(&VectorID(1)));
}

#[test]
fn visited_fresh_after_three_hundred_clears() {
    let mut v = Visited::with_capacity(10);
    for _ in 0..300 {
        v.clear();
    }
    for id in 0..10u32 {
        assert!(v.insert(&VectorID(id)));
    }
    for id in 0..10u32 {
        assert!(!v.insert(&VectorID(id)));
    }
}

#[test]
fn visited_every_clear_across_the_wrap() {
    let mut v = Visited::with_capacity(5);
    for round in 0..600 {
        let id = VectorID((round % 5) as u32);
        assert!(v.insert(&id));
        assert!(!v.insert(&id));
        v.clear();
    }
}

#[test]
fn visited_resize_and_extend() {
    let mut v = Visited::with_capacity(2);
    assert!(v.insert(&VectorID(1)));
    v.resize_capacity(5);
    assert!(!v.insert(&VectorID(1)));
    assert!(v.insert(&VectorID(4)));
    v.extend(&vec![VectorID(0), VectorID(3), VectorID(9)]);
    assert!(!v.insert(&VectorID(0)));
    assert!(!v.insert(&VectorID(3)));
    assert!(v.insert(&VectorID(2)));
    v.resize_capacity(1);
    assert!(!v.insert(&VectorID(4)));
}

#[test]
fn base_node_insert_shifts_and_drops_last() {
    let mut node = BaseNode::new();
    node.insert(0, &VectorID(5));
    node.insert(0, &VectorID(3));
    node.insert(1, &VectorID(4));
    let s = node.to_vec();
    assert_eq!(&s[..4], &[VectorID(3), VectorID(4), VectorID(5), VectorID(SENTINEL)]);
    for i in 0..64u32 {
        node.set(i as usize, &VectorID(100 + i));
    }
    node.insert(0, &VectorID(1));
    let s = node.to_vec();
    assert_eq!(s.len(), 64);
    assert_eq!(s[0], VectorID(1));
    assert_eq!(s[1], VectorID(100));
    assert_eq!(s[63], VectorID(162));
    node.insert(64, &VectorID(2));
    assert_eq!(node.to_vec(), s);
}

#[test]
fn base_node_allocate_clears_stale_tail() {
    let mut node = BaseNode::new();
    node.allocate(&vec![VectorID(1), VectorID(2), VectorID(3)]);
    node.allocate(&vec![VectorID(9)]);
    let s = node.to_vec();
    assert_eq!(s[0], VectorID(9));
    assert!(s[1..].iter().all(|id| !id.is_valid()));
}

#[test]
fn nearest_iter_stops_at_first_empty_slot() {
    let mut node = UpperNode::new();
    node.set(0, &VectorID(4));
    node.set(1, &VectorID(8));
    node.set(3, &VectorID(6));
    let mut it = node.nearest_iter();
    assert_eq!(it.next(), Some(VectorID(4)));
    assert_eq!(it.next(), Some(VectorID(8)));
    assert_eq!(it.next(), None);
    assert_eq!(it.next(), None);
}

#[test]
fn upper_node_from_zero_keeps_first_slots() {
    let mut base = BaseNode::new();
    for i in 0..40u32 {
        base.set(i as usize, &VectorID(i));
    }
    let upper = UpperNode::from_zero(&base);
    let s = upper.to_vec();
    assert_eq!(s.len(), 32);
    assert_eq!(s[31], VectorID(31));
}

#[test]
fn layer_descend_counts_down_to_zero() {
    let layers = LayerID(3).descend();
    assert_eq!(layers, vec![LayerID(3), LayerID(2), LayerID(1), LayerID(0)]);
    assert_eq!(LayerID(0).descend(), vec![LayerID(0)]);
    assert!(LayerID(0).is_zero());
    assert!(!LayerID(2).is_zero());
}

#[test]
fn search_push_keeps_nearest_sorted_and_bounded() {
    let vectors: Vec<Vector> = (0..6).map(|i| Vector(vec![i * 10, 0])).collect();
    let query = Vector(vec![25, 0]);
    let mut s = Search::new(6);
    s.set_ef(3);
    for id in [0u32, 5, 2, 3, 1, 4] {
        s.push(&VectorID(id), &query, &vectors);
    }
    // distances: 0->625, 1->225, 2->25, 3->25, 4->225, 5->625; 4 lands at
    // place 3 and is dropped, the others enter at places below 3
    let near: Vec<u32> = s.iter().iter().map(|c| c.vector_id.0).collect();
    assert_eq!(near, vec![2, 3, 1, 0, 5]);
    s.truncate(3);
    let near: Vec<u32> = s.iter().iter().map(|c| c.vector_id.0).collect();
    assert_eq!(near, vec![2, 3, 1]);
    assert_eq!(s.select_simple()[0].distance, 25);
    s.push(&VectorID(2), &query, &vectors);
    assert_eq!(s.iter().len(), 3);
    s.reset();
    assert!(s.iter().is_empty());
}

#[test]
fn search_cull_seeds_frontier() {
    let vectors: Vec<Vector> = (0..3).map(|i| Vector(vec![i])).collect();
    let query = Vector(vec![0]);
    let mut s = Search::new(3);
    s.set_ef(2);
    s.push(&VectorID(1), &query, &vectors);
    s.cull();
    assert_eq!(s.iter().len(), 1);
    s.push(&VectorID(1), &query, &vectors);
    s.push(&VectorID(0), &query, &vectors);
    let near: Vec<u32> = s.iter().iter().map(|c| c.vector_id.0).collect();
    assert_eq!(near, vec![0, 1]);
}

#[test]
fn search_pool_reuses_pairs() {
    let mut pool = SearchPool::new(8);
    let (a, b) = pool.pop();
    assert!(a.iter().is_empty() && b.iter().is_empty());
    pool.push((a, b));
    let (mut a, _b) = pool.pop();
    assert!(a.visited.insert(&VectorID(7)));
}

#[test]
fn search_walks_a_layer_to_the_nearest() {
    // A path 0 - 1 - 2 - 3 - 4 along a line; the query sits next to 4.
    let vectors: Vec<Vector> = (0..5).map(|i| Vector(vec![i * 10])).collect();
    let mut layer: Vec<BaseNode> = (0..5).map(|_| BaseNode::new()).collect();
    for i in 0..5u32 {
        let mut ids = Vec::new();
        if i + 1 < 5 {
            ids.push(VectorID(i + 1));
        }
        if i > 0 {
            ids.push(VectorID(i - 1));
        }
        layer[i as usize].allocate(&ids);
    }
    let query = Vector(vec![41]);
    let mut s = Search::new(5);
    s.set_ef(2);
    s.push(&VectorID(0), &query, &vectors);
    s.search(&layer, &query, &vectors, 64);
    let near: Vec<(u32, u128)> = s.iter().iter().map(|c| (c.vector_id.0, c.distance)).collect();
    assert_eq!(near, vec![(4, 1), (3, 121)]);
}

#[test]
fn search_pool_pops_the_last_pushed_pair_reset() {
    let vectors: Vec<Vector> = (0..4).map(|i| Vector(vec![i])).collect();
    let mut pool = SearchPool::new(4);
    let (mut a, b) = pool.pop();
    a.set_ef(2);
    a.push(&VectorID(1), &Vector(vec![0]), &vectors);
    assert_eq!(a.iter().len(), 1);
    pool.push((a, b));
    let (mut a, _) = pool.pop();
    assert!(a.iter().is_empty());
    assert_eq!(a.ef, 2);
    assert!(a.visited.insert(&VectorID(1)));
    let (fresh, _) = pool.pop();
    assert_eq!(fresh.ef, 5);
}
