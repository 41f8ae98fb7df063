use splay_bands::exclusions::Au;
use splay_bands::map::Cmp;
use splay_bands::map::SplayMap;

#[test]
fn insert_get_basic() {
    let mut m: SplayMap<Au, i32> = SplayMap::new();
    assert_eq!(m.insert(Au(5), 50), None);
    assert_eq!(m.insert(Au(1), 10), None);
    assert_eq!(m.insert(Au(9), 90), None);
    assert_eq!(m.get(&Au(1)), Some(&10));
    assert_eq!(m.get(&Au(5)), Some(&50));
    assert_eq!(m.get(&Au(9)), Some(&90));
    assert_eq!(m.get(&Au(7)), None);
}

#[test]
fn insert_existing_returns_previous() {
    let mut m: SplayMap<Au, i32> = SplayMap::new();
    assert_eq!(m.insert(Au(3), 1), None);
    assert_eq!(m.insert(Au(3), 2), Some(1));
    assert_eq!(m.get(&Au(3)), Some(&2));
    let it = m.into_iter();
    assert_eq!(it.size_hint(), (1, Some(1)));
}

#[test]
fn remove_present_and_absent() {
    let mut m: SplayMap<Au, i32> = SplayMap::new();
    m.insert(Au(2), 20);
    m.insert(Au(4), 40);
    assert_eq!(m.remove(&Au(3)), None);
    assert_eq!(m.remove(&Au(2)), Some(20));
    assert_eq!(m.get(&Au(2)), None);
    assert_eq!(m.get(&Au(4)), Some(&40));
    assert_eq!(m.remove(&Au(4)), Some(40));
    let it = m.into_iter();
    assert_eq!(it.size_hint(), (0, Some(0)));
}

#[test]
fn iteration_ascending() {
    let mut m: SplayMap<Au, i32> = SplayMap::new();
    for &k in &[8, 3, 5, 1, 9, 2, 7] {
        m.insert(Au(k), k * 10);
    }
    let mut it = m.into_iter();
    let mut seen = Vec::new();
    while let Some((k, v)) = it.next() {
        assert_eq!(v, k.0 * 10);
        seen.push(k.0);
    }
    assert_eq!(seen, vec![1, 2, 3, 5, 7, 8, 9]);
}

#[test]
fn iteration_descending() {
    let mut m: SplayMap<Au, i32> = SplayMap::new();
    for &k in &[4, 6, 2] {
        m.insert(Au(k), k);
    }
    let mut it = m.into_iter();
    assert_eq!(it.next_back(), Some((Au(6), 6)));
    assert_eq!(it.next_back(), Some((Au(4), 4)));
    assert_eq!(it.next_back(), Some((Au(2), 2)));
    assert_eq!(it.next_back(), None);
}

#[test]
fn interleaved_iteration_exact() {
    let mut m: SplayMap<Au, i32> = SplayMap::new();
    for k in 1..=6 {
        m.insert(Au(k), k);
    }
    let mut it = m.into_iter();
    assert_eq!(it.size_hint(), (6, Some(6)));
    assert_eq!(it.next(), Some((Au(1), 1)));
    assert_eq!(it.next_back(), Some((Au(6), 6)));
    assert_eq!(it.size_hint(), (4, Some(4)));
    assert_eq!(it.next(), Some((Au(2), 2)));
    assert_eq!(it.next(), Some((Au(3), 3)));
    assert_eq!(it.next_back(), Some((Au(5), 5)));
    assert_eq!(it.size_hint(), (1, Some(1)));
    assert_eq!(it.next(), Some((Au(4), 4)));
    assert_eq!(it.next(), None);
    assert_eq!(it.next_back(), None);
    assert_eq!(it.size_hint(), (0, Some(0)));
}

#[test]
fn clear_empties_any_shape() {
    let mut m: SplayMap<Au, i32> = SplayMap::new();
    // a deliberately degenerate insertion order: a long one-sided chain
    for k in 0..500 {
        m.insert(Au(k), k);
    }
    m.clear();
    for k in 0..500 {
        assert_eq!(m.get(&Au(k)), None);
    }
    let it = m.into_iter();
    assert_eq!(it.size_hint(), (0, Some(0)));
}

#[test]
fn get_mut_writes_through() {
    let mut m: SplayMap<Au, i32> = SplayMap::new();
    m.insert(Au(1), 100);
    match m.get_mut(&Au(1)) {
        Some(v) => *v = 777,
        None => panic!("key should be present"),
    }
    assert_eq!(m.get(&Au(1)), Some(&777));
    assert!(m.get_mut(&Au(2)).is_none());
}

#[test]
fn lower_bound_finds_lowest_match() {
    let mut m: SplayMap<Au, i32> = SplayMap::new();
    for &k in &[10, 20, 30, 40] {
        m.insert(Au(k), k);
    }
    // lowest key at or above 25
    let r = m.lower_bound_with(|k: &Au, _v: &i32| {
        if k.0 < 25 {
            Cmp::Greater
        } else {
            Cmp::Equal
        }
    });
    assert_eq!(r.map(|p| p.0), Some(Au(30)));
    // nothing at or above 50
    let r = m.lower_bound_with(|k: &Au, _v: &i32| {
        if k.0 < 50 {
            Cmp::Greater
        } else {
            Cmp::Equal
        }
    });
    assert!(r.is_none());
}

#[test]
fn get_with_mut_finds_judged_equal() {
    let mut m: SplayMap<Au, i32> = SplayMap::new();
    for &k in &[10, 20, 30] {
        m.insert(Au(k), k * 2);
    }
    let r = m.get_with_mut(|k: &Au, _v: &i32| {
        if k.0 < 20 {
            Cmp::Greater
        } else if k.0 > 20 {
            Cmp::Less
        } else {
            Cmp::Equal
        }
    });
    assert_eq!(r, Some((Au(20), 40)));
    let r = m.get_with_mut(|k: &Au, _v: &i32| {
        if k.0 < 25 {
            Cmp::Greater
        } else {
            Cmp::Less
        }
    });
    assert_eq!(r, None);
}

#[test]
fn default_is_empty() {
    let m: SplayMap<Au, i32> = Default::default();
    let it = m.into_iter();
    assert_eq!(it.size_hint(), (0, Some(0)));
}

#[test]
fn last_value_wins_per_key() {
    let mut m: SplayMap<Au, i32> = SplayMap::new();
    for round in 0..3 {
        for k in 0..10 {
            m.insert(Au(k), k * 100 + round);
        }
    }
    for k in 0..10 {
        assert_eq!(m.get(&Au(k)), Some(&(k * 100 + 2)));
    }
}

#[test]
fn bulk_build_last_wins() {
    let m = SplayMap::from_vec(vec![
        (Au(3), 30),
        (Au(1), 10),
        (Au(3), 31),
        (Au(2), 20),
    ]);
    let mut m = m;
    assert_eq!(m.get(&Au(3)), Some(&31));
    assert_eq!(m.get(&Au(1)), Some(&10));
    assert_eq!(m.get(&Au(2)), Some(&20));
    let it = m.into_iter();
    assert_eq!(it.size_hint(), (3, Some(3)));
}

#[test]
fn extend_adds_pairs() {
    let mut m: SplayMap<Au, i32> = SplayMap::new();
    m.insert(Au(1), 1);
    m.extend_vec(vec![(Au(2), 2), (Au(1), 11)]);
    assert_eq!(m.get(&Au(1)), Some(&11));
    assert_eq!(m.get(&Au(2)), Some(&2));
}

#[test]
fn clone_is_deep_and_equal() {
    let mut m: SplayMap<Au, i32> = SplayMap::new();
    for k in 0..20 {
        m.insert(Au(k), k * 3);
    }
    let mut c = m.clone();
    c.insert(Au(5), -1);
    assert_eq!(m.get(&Au(5)), Some(&15));
    assert_eq!(c.get(&Au(5)), Some(&-1));
    for k in 0..20 {
        if k != 5 {
            assert_eq!(c.get(&Au(k)), Some(&(k * 3)));
        }
    }
}
