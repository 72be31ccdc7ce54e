use avl_tree::Tree;

#[test]
fn lib_it_works() {
    let mut tree = Tree::new();
    for ch in "qwertyuiopasdfghjklzxcvbnmklasjfal;jasjfsa;".chars() {
        tree.insert(ch as u64, 5);
    }
    println!("{:#?}", tree);
}

#[test]
fn update_or_insert_and_update() {
    let mut tree = Tree::new();
    let key: u64 = 'b' as u64;

    match tree.get_mut(&key) {
        Some(value) => *value += 7,
        None => {
            tree.insert(key, 7);
        }
    }
}

#[test]
fn tree_it_works() {
    let mut tree = Tree::new();
    for ch in "qwertyuiopasdfghjklzxcvbnmklasjfal;jasjfsa;".chars() {
        tree.insert(ch as u64, 5);
    }
    for ch in "qwertyuiopafsa;".chars() {
        tree.remove(&(ch as u64));
    }
    println!("{:#?}", tree);
}

#[test]
fn new_tree_is_empty() {
    let tree = Tree::<i64>::new();
    assert!(tree.is_empty());
    assert_eq!(tree.get(&1), None);
    assert_eq!(tree.get_nth(0), None);
}

#[test]
fn remove_on_empty_returns_none() {
    let mut tree = Tree::<i64>::new();
    assert_eq!(tree.remove(&7), None);
    assert!(tree.is_empty());
}

#[test]
fn new_with_insert_holds_one_entry() {
    let tree = Tree::new_with_insert(3u64, 30i64);
    assert!(!tree.is_empty());
    assert_eq!(tree.get(&3), Some(&30));
    assert_eq!(tree.get(&4), None);
}

#[test]
fn new_and_insert_holds_one_entry() {
    let tree = Tree::new_and_insert(3u64, 30i64);
    assert!(!tree.is_empty());
    assert_eq!(tree.get(&3), Some(&30));
}

#[test]
fn insert_get_round_trip() {
    let mut tree = Tree::new();
    let keys: [u64; 9] = [14, 2, 77, 31, 8, 55, 21, 90, 1];
    for &k in keys.iter() {
        assert_eq!(tree.insert(k, (k * 3) as i64), None);
        assert_eq!(tree.get(&k), Some(&((k * 3) as i64)));
    }
    for &k in keys.iter() {
        assert_eq!(tree.get(&k), Some(&((k * 3) as i64)));
    }
}

#[test]
fn update_returns_prior_value_and_keeps_size() {
    let mut tree = Tree::new();
    for k in [5u64, 3, 8, 1] {
        tree.insert(k, (k * 10) as i64);
    }
    assert_eq!(tree.insert(3, 999), Some(30));
    assert_eq!(tree.get(&3), Some(&999));
    // still exactly four entries: ranks 0..4 are filled, rank 4 is not
    assert!(tree.get_nth(3).is_some());
    assert_eq!(tree.get_nth(4), None);
}

#[test]
fn remove_then_get_returns_none() {
    let mut tree = Tree::new();
    for k in [5u64, 3, 8, 1, 4] {
        tree.insert(k, (k * 10) as i64);
    }
    assert_eq!(tree.remove(&3), Some(30));
    assert_eq!(tree.get(&3), None);
    assert_eq!(tree.remove(&3), None);
    assert_eq!(tree.get_nth(3).is_some(), true);
    assert_eq!(tree.get_nth(4), None);
}

#[test]
fn inorder_keys_strictly_increase() {
    let mut tree = Tree::new();
    // duplicates on purpose: the second insert of a key must not add a node
    for k in [41u64, 7, 23, 7, 88, 2, 41, 60, 15, 2, 99, 33] {
        tree.insert(k, k as i64);
    }
    let mut expected: Vec<u64> = vec![2, 7, 15, 23, 33, 41, 60, 88, 99];
    expected.sort();
    let mut seen: Vec<u64> = Vec::new();
    let mut i: usize = 0;
    while let Some((k, _)) = tree.get_nth(i) {
        seen.push(*k);
        i += 1;
    }
    assert_eq!(seen, expected);
    for w in seen.windows(2) {
        assert!(w[0] < w[1]);
    }
}

#[test]
fn scenario_nine_keys() {
    let mut tree = Tree::new();
    for k in [5u64, 3, 8, 1, 4, 7, 9, 2, 6] {
        tree.insert(k, (k * 10) as i64);
    }
    for i in 0..9usize {
        let (k, v) = tree.get_nth(i).unwrap();
        assert_eq!(*k, (i + 1) as u64);
        assert_eq!(*v, ((i + 1) * 10) as i64);
    }
    assert_eq!(*tree.get_nth(0).unwrap().0, 1);
    assert_eq!(*tree.get_nth(8).unwrap().0, 9);
    assert_eq!(tree.get_nth(9), None);
    assert!(tree.is_balanced());
}

#[test]
fn scenario_remove_root_key() {
    let mut tree = Tree::new();
    for k in [5u64, 3, 8, 1, 4, 7, 9, 2, 6] {
        tree.insert(k, (k * 10) as i64);
    }
    assert_eq!(tree.remove(&5), Some(50));
    assert_eq!(tree.get(&5), None);
    let remaining: [u64; 8] = [1, 2, 3, 4, 6, 7, 8, 9];
    for i in 0..8usize {
        let (k, _) = tree.get_nth(i).unwrap();
        assert_eq!(*k, remaining[i]);
    }
    assert_eq!(tree.get_nth(8), None);
    assert!(tree.is_balanced());
}

#[test]
fn scenario_single_key_rank() {
    let mut tree = Tree::new();
    tree.insert(42u64, 7i64);
    let (k, v) = tree.get_nth(0).unwrap();
    assert_eq!((*k, *v), (42, 7));
    assert_eq!(tree.get_nth(1), None);
    assert_eq!(tree.get_nth(usize::MAX), None);
}

#[test]
fn get_mut_writes_through() {
    let mut tree = Tree::new();
    for k in [10u64, 20, 30] {
        tree.insert(k, (k as i64) * 2);
    }
    match tree.get_mut(&20) {
        Some(v) => *v = -1,
        None => panic!("key 20 should be present"),
    }
    assert_eq!(tree.get(&20), Some(&-1));
    assert_eq!(tree.get(&10), Some(&20));
    assert_eq!(tree.get_mut(&99), None);
}

#[test]
fn ascending_inserts_stay_consistent() {
    let mut tree = Tree::new();
    for k in 1u64..=32 {
        tree.insert(k, k as i64);
    }
    for k in 1u64..=32 {
        assert_eq!(tree.get(&k), Some(&(k as i64)));
    }
    for i in 0..32usize {
        assert_eq!(*tree.get_nth(i).unwrap().0, (i + 1) as u64);
    }
    assert_eq!(tree.get_nth(32), None);
}

#[test]
fn interleaved_inserts_and_removes() {
    let mut tree = Tree::new();
    for k in [1u64, 2, 6, 5, 3, 4] {
        tree.insert(k, k as i64);
    }
    for k in [1u64, 2, 3, 4, 5, 6] {
        assert_eq!(tree.get(&k), Some(&(k as i64)));
    }
    assert_eq!(tree.remove(&2), Some(2));
    assert_eq!(tree.remove(&5), Some(5));
    assert_eq!(tree.remove(&2), None);
    let remaining: [u64; 4] = [1, 3, 4, 6];
    for i in 0..4usize {
        assert_eq!(*tree.get_nth(i).unwrap().0, remaining[i]);
    }
    assert_eq!(tree.get_nth(4), None);
    for k in remaining {
        assert_eq!(tree.get(&k), Some(&(k as i64)));
    }
}

#[test]
fn balance_bound_is_approximate() {
    // Height is measured as floor(log2(weight)), not as true node depth, so
    // a rebalancing pass can leave a node one step beyond the AVL bound
    // while every lookup and rank query stays correct.
    let mut tree = Tree::new();
    for k in [1u64, 2, 6, 5, 3, 4] {
        tree.insert(k, k as i64);
    }
    assert!(!tree.is_balanced());
    for i in 0..6usize {
        assert_eq!(*tree.get_nth(i).unwrap().0, (i + 1) as u64);
    }
}

#[test]
fn agrees_with_a_sorted_list_model() {
    let mut tree = Tree::new();
    let mut model: Vec<(u64, i64)> = Vec::new();
    let mut state: u64 = 0x2545F4914F6CDD1D;
    for step in 0..400u32 {
        state = state
            .wrapping_mul(6364136223846793005)
            .wrapping_add(1442695040888963407);
        let k = (state >> 33) % 64;
        let v = step as i64;
        if (state >> 1) % 3 == 0 {
            let expected = match model.iter().position(|e| e.0 == k) {
                Some(i) => Some(model.remove(i).1),
                None => None,
            };
            assert_eq!(tree.remove(&k), expected);
        } else {
            let expected = match model.iter_mut().find(|e| e.0 == k) {
                Some(e) => {
                    let prior = e.1;
                    e.1 = v;
                    Some(prior)
                }
                None => {
                    model.push((k, v));
                    model.sort();
                    None
                }
            };
            assert_eq!(tree.insert(k, v), expected);
        }
        assert_eq!(model.is_empty(), tree.is_empty());
        for (i, e) in model.iter().enumerate() {
            let (kk, vv) = tree.get_nth(i).unwrap();
            assert_eq!((*kk, *vv), *e);
        }
        assert_eq!(tree.get_nth(model.len()), None);
        for e in model.iter() {
            assert_eq!(tree.get(&e.0), Some(&e.1));
        }
    }
}
