use stable_bst::map::{Backward, Forward, Iter, TreeMap};
use stable_bst::order::{natural, rev};
use stable_bst::Bound;

#[test]
fn find_empty() {
    let m: TreeMap<i32, i32> = TreeMap::new();
    assert!(m.get(&5) == None);
}

#[test]
fn find_not_found() {
    let mut m = TreeMap::new();
    assert!(m.insert(1, 2).is_none());
    assert!(m.insert(5, 3).is_none());
    assert!(m.insert(9, 3).is_none());
    assert_eq!(m.get(&2), None);
}

#[test]
fn test_find_mut() {
    let mut m = TreeMap::new();
    assert!(m.insert(1, 12).is_none());
    assert!(m.insert(2, 8).is_none());
    assert!(m.insert(5, 14).is_none());
    let new = 100;
    match m.get_mut(&5) {
        None => panic!(),
        Some(x) => *x = new,
    }
    assert_eq!(m.get(&5), Some(&new));
}

#[test]
fn insert_replace() {
    let mut m = TreeMap::new();
    assert!(m.insert(5, 2).is_none());
    assert!(m.insert(2, 9).is_none());
    assert!(!m.insert(2, 11).is_none());
    assert_eq!(m.get(&2).unwrap(), &11);
}

#[test]
fn test_get_or_insert() {
    let mut m = TreeMap::new();
    assert_eq!(*m.get_or_insert(5, || 2), 2);
    assert_eq!(*m.get_or_insert(2, || 9), 9);
    assert_eq!(*m.get_or_insert(2, || 7), 9);
    *m.get_or_insert(2, || 7) = 8;
    assert_eq!(*m.get(&2).unwrap(), 8);
}

#[test]
fn test_clear() {
    let mut m = TreeMap::new();
    m.clear();
    assert!(m.insert(5, 11).is_none());
    assert!(m.insert(12, -3).is_none());
    assert!(m.insert(19, 2).is_none());
    m.clear();
    assert!(m.get(&5).is_none());
    assert!(m.get(&12).is_none());
    assert!(m.get(&19).is_none());
    assert!(m.is_empty());
}

#[test]
fn test_len() {
    let mut m = TreeMap::new();
    assert!(m.insert(3, 6).is_none());
    assert_eq!(m.len(), 1);
    assert!(m.insert(0, 0).is_none());
    assert_eq!(m.len(), 2);
    assert!(m.insert(4, 8).is_none());
    assert_eq!(m.len(), 3);
    assert!(m.remove(&3).is_some());
    assert_eq!(m.len(), 2);
    assert!(!m.remove(&5).is_some());
    assert_eq!(m.len(), 2);
    assert!(m.insert(2, 4).is_none());
    assert_eq!(m.len(), 3);
    assert!(m.insert(1, 2).is_none());
    assert_eq!(m.len(), 4);
}

#[test]
fn test_iterator() {
    let mut m = TreeMap::new();

    assert!(m.insert(3, 6).is_none());
    assert!(m.insert(0, 0).is_none());
    assert!(m.insert(4, 8).is_none());
    assert!(m.insert(2, 4).is_none());
    assert!(m.insert(1, 2).is_none());

    let mut n = 0;
    let mut it = m.iter();
    while let Some((k, v)) = it.next() {
        assert_eq!(*k, n);
        assert_eq!(*v, n * 2);
        n += 1;
    }
    assert_eq!(n, 5);
}

#[test]
fn test_lazy_iterator() {
    let mut m = TreeMap::new();
    let (x1, y1) = (2, 5);
    let (x2, y2) = (9, 12);
    let (x3, y3) = (20, -3);
    let (x4, y4) = (29, 5);
    let (x5, y5) = (103, 3);

    assert!(m.insert(x1, y1).is_none());
    assert!(m.insert(x2, y2).is_none());
    assert!(m.insert(x3, y3).is_none());
    assert!(m.insert(x4, y4).is_none());
    assert!(m.insert(x5, y5).is_none());

    let m = m;
    let mut a = m.iter();

    assert_eq!(a.next().unwrap(), (&x1, &y1));
    assert_eq!(a.next().unwrap(), (&x2, &y2));
    assert_eq!(a.next().unwrap(), (&x3, &y3));
    assert_eq!(a.next().unwrap(), (&x4, &y4));
    assert_eq!(a.next().unwrap(), (&x5, &y5));

    assert!(a.next().is_none());

    let mut b = m.iter();

    let expected = [(&x1, &y1), (&x2, &y2), (&x3, &y3), (&x4, &y4), (&x5, &y5)];
    let mut i = 0;

    while let Some(x) = b.next() {
        assert_eq!(expected[i], x);
        i += 1;

        if i == 2 {
            break;
        }
    }

    while let Some(x) = b.next() {
        assert_eq!(expected[i], x);
        i += 1;
    }
    assert_eq!(i, 5);
}

#[test]
fn test_keys() {
    let vec = vec![(1, 'a'), (2, 'b'), (3, 'c')];
    let map: TreeMap<i32, char> = TreeMap::from_iter(vec);
    let mut keys = Vec::new();
    let mut it = map.keys();
    while let Some(k) = it.next() {
        keys.push(*k);
    }
    assert_eq!(keys, vec![1, 2, 3]);
}

#[test]
fn test_values() {
    let vec = vec![(1, 'a'), (2, 'b'), (3, 'c')];
    let map: TreeMap<i32, char> = TreeMap::from_iter(vec);
    let mut values = Vec::new();
    let mut it = map.values();
    while let Some(v) = it.next() {
        values.push(*v);
    }
    assert_eq!(values, vec!['a', 'b', 'c']);
}

#[test]
fn test_from_iter() {
    let xs = [(1, 1), (2, 2), (3, 3), (4, 4), (5, 5), (6, 6)];

    let map: TreeMap<i32, i32> = TreeMap::from_iter(xs.to_vec());

    for &(k, v) in xs.iter() {
        assert_eq!(map.get(&k), Some(&v));
    }
}

#[test]
fn test_index() {
    let mut map: TreeMap<i32, i32> = TreeMap::new();

    map.insert(1, 2);
    map.insert(2, 1);
    map.insert(3, 4);

    assert_eq!(*map.index(&2), 1);
}

#[test]
fn test_swap() {
    let mut m = TreeMap::new();
    assert_eq!(m.insert(1, 2), None);
    assert_eq!(m.insert(1, 3), Some(2));
    assert_eq!(m.insert(1, 4), Some(3));
}

#[test]
fn test_pop() {
    let mut m = TreeMap::new();
    m.insert(1, 2);
    assert_eq!(m.remove(&1), Some(2));
    assert_eq!(m.remove(&1), None);
}

#[test]
fn test_into_iter() {
    let mut m = TreeMap::new();
    m.insert("a", 1);
    m.insert("c", 3);
    m.insert("b", 2);

    // hold the keys as integers so the natural order is verified
    let mut m2 = TreeMap::new();
    m2.insert(1, "a");
    m2.insert(3, "c");
    m2.insert(2, "b");
    let mut it = m2.into_iter();
    assert_eq!(it.size_hint(), (3, Some(3)));
    assert_eq!(it.next(), Some((1, "a")));
    assert_eq!(it.next(), Some((2, "b")));
    assert_eq!(it.next(), Some((3, "c")));
    assert_eq!(it.next(), None);
}

#[test]
fn test_comparator_iterator() {
    let mut m = TreeMap::with_comparator(rev(natural()));

    assert!(m.insert(3, 6).is_none());
    assert!(m.insert(0, 0).is_none());
    assert!(m.insert(4, 8).is_none());
    assert!(m.insert(2, 4).is_none());
    assert!(m.insert(1, 2).is_none());

    let mut n = 5;
    let mut it: Iter<i32, i32, Forward> = m.iter();
    while let Some((k, v)) = it.next() {
        n -= 1;
        assert_eq!(*k, n);
        assert_eq!(*v, n * 2);
    }
    assert_eq!(n, 0);
}

#[test]
fn test_find_with_found() {
    let mut m = TreeMap::new();
    assert!(m.insert(10, 2).is_none());
    assert!(m.insert(20, 3).is_none());
    assert!(m.insert(30, 4).is_none());
    assert_eq!(m.find_with(|&k| 20.cmp(&k)), Some(&3));
}

#[test]
fn test_find_with_not_found() {
    let mut m = TreeMap::new();
    assert!(m.insert(10, 2).is_none());
    assert!(m.insert(20, 3).is_none());
    assert!(m.insert(30, 3).is_none());
    assert_eq!(m.find_with(|&k| 40.cmp(&k)), None);
}

#[test]
fn test_find_with_mut_found() {
    let mut m = TreeMap::new();
    assert!(m.insert(1, 12).is_none());
    assert!(m.insert(2, 8).is_none());
    assert!(m.insert(5, 14).is_none());
    let new = 100;

    match m.find_with_mut(|&k| 5.cmp(&k)) {
        None => panic!(),
        Some(x) => *x = new,
    }
    assert_eq!(m.find_with(|&k| 5.cmp(&k)), Some(&new));
}

#[test]
fn test_rand_like_sequences() {
    // a fixed pseudo-random workload, cross-checked against a plain list
    let mut map: TreeMap<i64, i64> = TreeMap::new();
    let mut ctrl: Vec<(i64, i64)> = vec![];
    let mut state: i64 = 42;
    let mut step = || {
        state = state.wrapping_mul(6364136223846793005).wrapping_add(1442695040888963407);
        (state >> 16) % 1000
    };

    for _ in 0..3 {
        for _ in 0..90 {
            let k = step();
            let v = step();
            if !ctrl.iter().any(|x| x.0 == k) {
                assert!(map.insert(k, v).is_none());
                ctrl.push((k, v));
            }
        }
        for _ in 0..30 {
            let r = (step().unsigned_abs() as usize) % ctrl.len();
            let (key, _) = ctrl.remove(r);
            assert!(map.remove(&key).is_some());
        }
        // ascending traversal stays sorted, duplicate-free, and matches
        ctrl.sort();
        assert_eq!(map.len(), ctrl.len());
        let mut it = map.iter();
        let mut got: Vec<(i64, i64)> = vec![];
        while let Some((k, v)) = it.next() {
            if let Some(last) = got.last() {
                assert!(last.0 < *k);
            }
            got.push((*k, *v));
        }
        assert_eq!(got, ctrl);
    }
}

#[test]
fn test_direction_markers() {
    assert!(<Forward as stable_bst::map::Direction>::forward());
    assert!(!<Backward as stable_bst::map::Direction>::forward());
}

fn range_values(mut r: stable_bst::map::Range<i32, i32, stable_bst::Natural<i32>>) -> Vec<i32> {
    let mut out = Vec::new();
    while let Some((_, v)) = r.next() {
        out.push(*v);
    }
    out
}

fn skip_range(
    mut r: stable_bst::map::Range<i32, i32, stable_bst::Natural<i32>>,
    mut f: u32,
    mut b: u32,
) -> stable_bst::map::Range<i32, i32, stable_bst::Natural<i32>> {
    while f > 0 {
        r.next();
        f -= 1;
    }
    while b > 0 {
        r.next_back();
        b -= 1;
    }
    r
}

#[test]
fn test_range() {
    let mut m = TreeMap::new();
    for i in 0..10 {
        assert!(m.insert(i * 10, 100 * i).is_none());
    }

    assert_eq!(
        range_values(m.range(Bound::Unbounded, Bound::Unbounded)),
        vec![0, 100, 200, 300, 400, 500, 600, 700, 800, 900]
    );
    assert_eq!(
        range_values(m.range(Bound::Included(&50), Bound::Unbounded)),
        vec![500, 600, 700, 800, 900]
    );
    assert_eq!(
        range_values(m.range(Bound::Excluded(&50), Bound::Unbounded)),
        vec![600, 700, 800, 900]
    );
    assert_eq!(
        range_values(m.range(Bound::Unbounded, Bound::Included(&70))),
        vec![0, 100, 200, 300, 400, 500, 600, 700]
    );
    assert_eq!(
        range_values(m.range(Bound::Unbounded, Bound::Excluded(&70))),
        vec![0, 100, 200, 300, 400, 500, 600]
    );
    assert_eq!(range_values(m.range(Bound::Included(&70), Bound::Included(&70))), vec![700]);
    assert_eq!(range_values(m.range(Bound::Included(&60), Bound::Excluded(&50))), vec![]);
    assert_eq!(range_values(m.range(Bound::Unbounded, Bound::Excluded(&0))), vec![]);

    let mut r = m.range(Bound::Unbounded, Bound::Unbounded);
    assert_eq!(r.next_back(), Some((&90, &900)));
    let mut r = m.range(Bound::Unbounded, Bound::Included(&60));
    assert_eq!(r.next_back(), Some((&60, &600)));
    let mut r = m.range(Bound::Unbounded, Bound::Excluded(&60));
    assert_eq!(r.next_back(), Some((&50, &500)));

    assert_eq!(
        range_values(skip_range(m.range(Bound::Unbounded, Bound::Unbounded), 3, 3)),
        vec![300, 400, 500, 600]
    );
    assert_eq!(range_values(skip_range(m.range(Bound::Unbounded, Bound::Unbounded), 5, 5)), vec![]);
    assert_eq!(range_values(skip_range(m.range(Bound::Unbounded, Bound::Unbounded), 3, 7)), vec![]);
    assert_eq!(range_values(skip_range(m.range(Bound::Unbounded, Bound::Unbounded), 7, 3)), vec![]);
    assert_eq!(range_values(skip_range(m.range(Bound::Unbounded, Bound::Unbounded), 8, 3)), vec![]);
}

#[test]
fn test_range_scenario_small() {
    let mut m = TreeMap::new();
    m.insert(3, "a");
    m.insert(5, "b");
    m.insert(8, "c");
    let mut it = m.iter();
    assert_eq!(it.next(), Some((&3, &"a")));
    assert_eq!(it.next(), Some((&5, &"b")));
    assert_eq!(it.next(), Some((&8, &"c")));
    assert_eq!(it.next(), None);
    let mut r = m.range(Bound::Included(&4), Bound::Included(&8));
    assert_eq!(r.next(), Some((&5, &"b")));
    assert_eq!(r.next(), Some((&8, &"c")));
    assert_eq!(r.next(), None);
    let mut r2 = m.range(Bound::Included(&4), Bound::Unbounded);
    assert_eq!(r2.next(), Some((&5, &"b")));
}

#[test]
fn test_interval_iteration() {
    let mut m = TreeMap::new();
    for i in 1..100 {
        assert!(m.insert(i * 2, i * 4).is_none());
    }

    for i in 1..198 {
        let mut lb_it = m.range(Bound::Included(&i), Bound::Unbounded);
        let (&k, &v) = lb_it.next().unwrap();
        let lb = i + i % 2;
        assert_eq!(lb, k);
        assert_eq!(lb * 2, v);

        let mut ub_it = m.range(Bound::Excluded(&i), Bound::Unbounded);
        let (&k, &v) = ub_it.next().unwrap();
        let ub = i + 2 - i % 2;
        assert_eq!(ub, k);
        assert_eq!(ub * 2, v);
    }
    let mut end_it = m.range(Bound::Included(&199), Bound::Unbounded);
    assert_eq!(end_it.next(), None);
}
