use sahomedb::{Collection, Error, Index, Vector, UNIT};

fn lcg(state: &mut u64) -> u64 {
    *state = state.wrapping_mul(6364136223846793005).wrapping_add(1442695040888963407);
    *state
}

fn sample_vectors(n: usize, dim: usize, seed: u64) -> Vec<Vector> {
    let mut s = seed;
    (0..n).map(|_| Vector((0..dim).map(|_| (lcg(&mut s) >> 48) as i32).collect())).collect()
}

fn filled_collection(n: usize, dim: usize, seed: u64) -> Collection {
    let mut c = Collection::new(dim);
    for (i, v) in sample_vectors(n, dim, seed).into_iter().enumerate() {
        c.insert(format!("key-{}", i), v, vec![("i".to_string(), i.to_string())]).unwrap();
    }
    c
}

#[test]
fn index_round_trip() {
    let vectors = sample_vectors(200, 6, 5);
    let mut s = 99u64;
    let mut g = Index::new(6, 16, 40);
    for v in &vectors {
        g.insert(v.clone(), lcg(&mut s)).unwrap();
    }
    let bytes = g.save();
    let h = Index::load(&bytes, vectors.clone()).unwrap();
    assert_eq!(h.save(), bytes);
    assert_eq!(h.len(), g.len());
    assert_eq!(h.num_layers(), g.num_layers());
    assert_eq!(h.entry(), g.entry());
    for l in 0..g.num_layers() {
        for i in 0..g.len() {
            assert_eq!(h.node(l, i), g.node(l, i));
        }
    }
    let q = Vector(vec![1, 2, 3, 4, 5, 6]);
    assert_eq!(h.search(&q, 7).unwrap(), g.search(&q, 7).unwrap());
}

#[test]
fn empty_index_round_trip() {
    let g = Index::new(3, 16, 100);
    let bytes = g.save();
    assert_eq!(bytes.len(), 4 * 12);
    let h = Index::load(&bytes, vec![]).unwrap();
    assert_eq!(h.save(), bytes);
    assert!(!h.entry().is_valid());
}

#[test]
fn load_rejects_malformed_bytes() {
    let vectors = sample_vectors(20, 3, 8);
    let mut g = Index::new(3, 8, 8);
    for (i, v) in vectors.iter().enumerate() {
        g.insert(v.clone(), i as u64 * 0x0123_4567_89ab_cdef).unwrap();
    }
    let bytes = g.save();
    // truncated
    assert_eq!(Index::load(&bytes[..bytes.len() - 4].to_vec(), vectors.clone()).unwrap_err(), Error::SerializationError);
    // not a whole number of words
    assert_eq!(Index::load(&bytes[..bytes.len() - 1].to_vec(), vectors.clone()).unwrap_err(), Error::SerializationError);
    // wrong magic
    let mut bad = bytes.clone();
    bad[0] ^= 1;
    assert_eq!(Index::load(&bad, vectors.clone()).unwrap_err(), Error::SerializationError);
    // wrong number of vectors
    assert_eq!(Index::load(&bytes, vectors[..19].to_vec()).unwrap_err(), Error::SerializationError);
    // a neighbour list pointing at the node itself
    let mut bad = bytes.clone();
    let first_slot = 4 * (12 + 2 * 20);
    bad[first_slot..first_slot + 4].copy_from_slice(&0u32.to_le_bytes());
    assert_eq!(Index::load(&bad, vectors.clone()).unwrap_err(), Error::SerializationError);
    // other vectors than the graph was built over break the distance order
    let other = sample_vectors(20, 3, 1234);
    assert_eq!(Index::load(&bytes, other).unwrap_err(), Error::SerializationError);
    assert!(Index::load(&bytes, vectors).is_ok());
}

#[test]
fn builds_with_one_seed_are_identical() {
    let mut a = filled_collection(300, 8, 21);
    let mut b = filled_collection(300, 8, 21);
    a.build(16, 50, 777);
    b.build(16, 50, 777);
    assert_eq!(a.save_index().unwrap(), b.save_index().unwrap());
}

#[test]
fn building_twice_gives_the_same_bytes() {
    let mut c = filled_collection(300, 8, 4);
    c.build(16, 50, 5);
    let first = c.save_index().unwrap();
    c.build(16, 50, 5);
    assert_eq!(c.save_index().unwrap(), first);
}

#[test]
fn reload_gives_identical_results() {
    let mut c = filled_collection(250, 5, 17);
    c.build(16, 64, 3);
    let q = Vector(vec![UNIT, 0, -UNIT, 12, 40000]);
    let before = c.search(&q, 8).unwrap();
    let bytes = c.save_index().unwrap();

    let mut restarted = filled_collection(250, 5, 17);
    assert_eq!(restarted.search(&q, 8).unwrap_err(), Error::IndexNotBuilt);
    restarted.load_index(&bytes).unwrap();
    assert_eq!(restarted.search(&q, 8).unwrap(), before);
}

#[test]
fn save_before_build_fails() {
    let c = filled_collection(3, 2, 1);
    assert_eq!(c.save_index().unwrap_err(), Error::IndexNotBuilt);
}

#[test]
fn load_index_rejects_other_dimension() {
    let mut c = filled_collection(10, 4, 2);
    c.build(8, 8, 1);
    let bytes = c.save_index().unwrap();
    let mut other = filled_collection(10, 3, 2);
    assert_eq!(other.load_index(&bytes).unwrap_err(), Error::SerializationError);
}
