use sahomedb::{layer_of, Error, Index, Vector, VectorID, MAX_LAYER, UNIT};

fn random_index(n: usize, dim: usize, ef_search: usize, ef_construction: usize, seed: u64) -> (Index, Vec<Vector>) {
    let mut state = seed;
    let mut next = move || {
        state = state.wrapping_mul(6364136223846793005).wrapping_add(1442695040888963407);
        state
    };
    let mut index = Index::new(dim, ef_search, ef_construction);
    let mut vectors = Vec::new();
    for _ in 0..n {
        let v = Vector((0..dim).map(|_| (next() >> 48) as i32).collect());
        vectors.push(v.clone());
        index.insert(v, next()).unwrap();
    }
    (index, vectors)
}

fn check_graph(index: &Index, vectors: &[Vector]) {
    let n = index.len();
    for l in 0..index.num_layers() {
        for i in 0..n {
            let slots = index.node(l, i);
            assert_eq!(slots.len(), if l == 0 { 64 } else { 32 });
            // once a slot is empty, every later one is
            if let Some(first_empty) = slots.iter().position(|s| !s.is_valid()) {
                assert!(slots[first_empty..].iter().all(|s| !s.is_valid()));
            }
            let valid: Vec<VectorID> = slots.iter().copied().filter(|s| s.is_valid()).collect();
            // no self-loop, no duplicate
            assert!(valid.iter().all(|s| s.0 as usize != i));
            let mut ids: Vec<u32> = valid.iter().map(|s| s.0).collect();
            ids.sort();
            ids.dedup();
            assert_eq!(ids.len(), valid.len());
            // sorted by distance from the node's own vector
            let d: Vec<u128> = valid.iter().map(|s| vectors[i].distance(&vectors[s.0 as usize])).collect();
            assert!(d.windows(2).all(|w| w[0] <= w[1]));
            // every listed vector is present on this layer
            for s in &valid {
                assert!(index.top_layer(s.0 as usize) as usize >= l);
            }
        }
    }
}

#[test]
fn layer_of_follows_the_geometric_bounds() {
    assert_eq!(layer_of(u64::MAX), 0);
    assert_eq!(layer_of(1 << 59), 0);
    assert_eq!(layer_of((1 << 59) - 1), 1);
    assert_eq!(layer_of((1 << 54) - 1), 2);
    assert_eq!(layer_of(0), 12);
    assert!(layer_of(0) <= MAX_LAYER);
}

#[test]
fn empty_index_search_is_empty() {
    let index = Index::new(3, 16, 100);
    assert_eq!(index.search(&Vector(vec![0, 0, 0]), 5).unwrap(), vec![]);
    assert!(!index.entry().is_valid());
}

#[test]
fn index_rejects_wrong_dimension() {
    let mut index = Index::new(3, 16, 100);
    assert_eq!(index.insert(Vector(vec![1, 2]), 0).unwrap_err(), Error::InvalidDimension);
    assert_eq!(index.len(), 0);
    assert_eq!(index.search(&Vector(vec![1, 2]), 1).unwrap_err(), Error::InvalidDimension);
}

#[test]
fn index_exact_hit() {
    let mut index = Index::new(3, 4, 8);
    let u = UNIT;
    index.insert(Vector(vec![u, 0, 0]), u64::MAX).unwrap();
    index.insert(Vector(vec![0, u, 0]), 1 << 58).unwrap();
    index.insert(Vector(vec![0, 0, u]), u64::MAX).unwrap();
    let hits = index.search(&Vector(vec![u, 0, 0]), 1).unwrap();
    assert_eq!(hits.len(), 1);
    assert_eq!(hits[0].vector_id, VectorID(0));
    assert_eq!(hits[0].distance, 0);
    assert_eq!(index.entry(), VectorID(1));
    assert_eq!(index.num_layers(), 2);
}

#[test]
fn index_results_are_sorted_and_bounded() {
    let (index, vectors) = random_index(300, 8, 32, 64, 7);
    let q = Vector(vec![100, -200, 300, 0, 5000, -7000, 1, 2]);
    let hits = index.search(&q, 10).unwrap();
    assert_eq!(hits.len(), 10);
    for h in &hits {
        assert_eq!(h.distance, q.distance(&vectors[h.vector_id.0 as usize]));
    }
    assert!(hits.windows(2).all(|w| (w[0].distance, w[0].vector_id.0) < (w[1].distance, w[1].vector_id.0)));
    assert!(index.search(&q, 0).unwrap().is_empty());
}

#[test]
fn index_graph_invariants_hold() {
    let (index, vectors) = random_index(400, 4, 16, 32, 11);
    check_graph(&index, &vectors);
    let e = index.entry();
    assert!(e.is_valid());
    for i in 0..index.len() {
        assert!(index.top_layer(i) <= index.top_layer(e.0 as usize));
    }
}

#[test]
fn index_recall_on_uniform_data() {
    let dim = 32;
    let n = 10000;
    let (index, vectors) = random_index(n, dim, 64, 100, 3);
    let mut hits_total = 0;
    let queries = 20;
    for qi in 0..queries {
        let q = &vectors[(qi * 97) % n];
        let q = Vector(q.0.iter().map(|x| x + 17).collect());
        let mut truth: Vec<(u128, u32)> = vectors.iter().enumerate().map(|(i, v)| (q.distance(v), i as u32)).collect();
        truth.sort();
        let truth: Vec<u32> = truth[..10].iter().map(|t| t.1).collect();
        let found = index.search(&q, 10).unwrap();
        hits_total += found.iter().filter(|c| truth.contains(&c.vector_id.0)).count();
    }
    let recall = hits_total as f64 / (queries * 10) as f64;
    assert!(recall >= 0.90, "recall {}", recall);
}

#[test]
fn index_delete_removes_back_links() {
    let (mut index, vectors) = random_index(300, 4, 16, 32, 23);
    for d in [0u32, 17, 150, 299] {
        index.delete(VectorID(d)).unwrap();
    }
    assert_eq!(index.delete(VectorID(17)).unwrap_err(), Error::NotFound);
    assert_eq!(index.delete(VectorID(300)).unwrap_err(), Error::NotFound);
    check_graph(&index, &vectors);
    for l in 0..index.num_layers() {
        for i in 0..index.len() {
            let slots = index.node(l, i);
            assert!(slots.iter().all(|s| ![0u32, 17, 150, 299].contains(&s.0)));
        }
    }
    for q in &vectors[..20] {
        let hits = index.search(q, 10).unwrap();
        assert!(hits.iter().all(|h| ![0u32, 17, 150, 299].contains(&h.vector_id.0)));
        assert_eq!(hits.len(), 10);
    }
    assert!(index.entry().is_valid());
}

#[test]
fn index_delete_entry_point_moves_it() {
    let mut index = Index::new(2, 8, 8);
    index.insert(Vector(vec![0, 0]), u64::MAX).unwrap();
    index.insert(Vector(vec![1, 0]), 1 << 50).unwrap();
    index.insert(Vector(vec![2, 0]), 1 << 57).unwrap();
    assert_eq!(index.entry(), VectorID(1));
    index.delete(VectorID(1)).unwrap();
    assert_eq!(index.entry(), VectorID(2));
    index.delete(VectorID(2)).unwrap();
    assert_eq!(index.entry(), VectorID(0));
    index.delete(VectorID(0)).unwrap();
    assert!(!index.entry().is_valid());
    assert!(index.search(&Vector(vec![0, 0]), 3).unwrap().is_empty());
    let bytes = index.save();
    let vectors = vec![Vector(vec![0, 0]), Vector(vec![1, 0]), Vector(vec![2, 0])];
    assert_eq!(Index::load(&bytes, vectors).unwrap().save(), bytes);
}

#[test]
fn index_delete_shifts_each_list() {
    let (mut index, _vectors) = random_index(120, 3, 16, 32, 41);
    let before: Vec<Vec<Vec<VectorID>>> =
        (0..index.num_layers()).map(|l| (0..index.len()).map(|i| index.node(l, i)).collect()).collect();
    let gone = VectorID(57);
    index.delete(gone).unwrap();
    for l in 0..index.num_layers() {
        for i in 0..index.len() {
            let now = index.node(l, i);
            if i == 57 {
                assert!(now.iter().all(|s| !s.is_valid()));
                continue;
            }
            let mut expected: Vec<VectorID> = before[l][i].iter().copied().filter(|s| *s != gone).collect();
            while expected.len() < now.len() {
                expected.push(VectorID::invalid());
            }
            assert_eq!(now, expected);
        }
    }
}
