use maglev::Maglev;

fn names(list: &[&str]) -> Vec<String> {
    list.iter().map(|s| String::from(*s)).collect()
}

fn slots(m: &Maglev, size: usize) -> Vec<Option<String>> {
    (0..size).map(|i| m.get_backend(i)).collect()
}

#[test]
fn maglev_hash_requires_prime_table_size() {
    assert_eq!(
        Err("Table size should be a prime"),
        Maglev::new(&vec!["b1".to_string(), "b2".to_string()], 50)
    )
}

#[test]
fn maglev_hash_works() {
    let backends = vec!["b0", "b1", "b2"]
        .into_iter()
        .map(|s| String::from(s))
        .collect();
    let m = Maglev::new(&backends, 11).unwrap();
    assert_eq!(Some("b1".to_string()), m.get_backend(5))
}

// Each name's digest alone fixes its preference list, so adding "b3" and
// then removing "b2" (keeping the order of the others) leaves slot 5 with "b1".
#[test]
fn maglev_backend_update_works() {
    let backends = vec!["b0", "b1", "b2"]
        .into_iter()
        .map(|s| String::from(s))
        .collect();
    let mut m = Maglev::new(&backends, 11).unwrap();
    assert_eq!(Ok(()), m.put_backend(&String::from("b3")));
    // get backend should continue to work
    assert_eq!(Some("b1".to_string()), m.get_backend(5));
    assert_eq!(Ok(()), m.remove_backend(&String::from("b2")));
    assert_eq!(Some("b1".to_string()), m.get_backend(5))
}

#[test]
fn non_prime_sizes_are_rejected() {
    let backends = names(&["b0", "b1"]);
    for size in [0u64, 1, 4, 9, 50, 65535] {
        assert_eq!(Err("Table size should be a prime"), Maglev::new(&backends, size));
    }
}

#[test]
fn prime_sizes_are_accepted() {
    let backends = names(&["b0", "b1", "b2"]);
    for size in [2u64, 3, 11, 65537] {
        assert!(Maglev::new(&backends, size).is_ok());
    }
}

#[test]
fn full_table_of_three_backends() {
    let m = Maglev::new(&names(&["b0", "b1", "b2"]), 11).unwrap();
    let expected = ["b0", "b2", "b0", "b0", "b0", "b1", "b1", "b2", "b2", "b1", "b1"];
    for (i, b) in expected.iter().enumerate() {
        assert_eq!(Some(b.to_string()), m.get_backend(i));
    }
}

#[test]
fn full_table_after_add_and_remove() {
    let mut m = Maglev::new(&names(&["b0", "b1", "b2"]), 11).unwrap();
    m.put_backend(&"b3".to_string()).unwrap();
    let added = ["b0", "b2", "b0", "b1", "b0", "b1", "b3", "b2", "b2", "b3", "b1"];
    for (i, b) in added.iter().enumerate() {
        assert_eq!(Some(b.to_string()), m.get_backend(i));
    }
    m.remove_backend(&"b2".to_string()).unwrap();
    let removed = ["b0", "b3", "b0", "b1", "b0", "b1", "b3", "b0", "b1", "b3", "b1"];
    for (i, b) in removed.iter().enumerate() {
        assert_eq!(Some(b.to_string()), m.get_backend(i));
    }
    // The same list built at once gives the same table.
    let direct = Maglev::new(&names(&["b0", "b1", "b3"]), 11).unwrap();
    assert_eq!(direct, m);
}

#[test]
fn construction_is_deterministic() {
    let backends = names(&["alpha", "beta", "gamma", "delta"]);
    let a = Maglev::new(&backends, 101).unwrap();
    let b = Maglev::new(&backends, 101).unwrap();
    assert_eq!(a, b);
    assert_eq!(slots(&a, 101), slots(&b, 101));
}

#[test]
fn every_slot_has_a_current_backend() {
    let backends = names(&["alpha", "beta", "gamma", "delta", "epsilon"]);
    let m = Maglev::new(&backends, 1009).unwrap();
    for i in 0..1009 {
        let b = m.get_backend(i).unwrap();
        assert!(backends.contains(&b));
    }
}

#[test]
fn more_backends_than_slots_still_fill_every_slot() {
    let backends = names(&["a", "b", "c", "d", "e", "f", "g"]);
    let m = Maglev::new(&backends, 5).unwrap();
    for i in 0..5 {
        assert!(backends.contains(&m.get_backend(i).unwrap()));
    }
}

#[test]
fn repeated_lookups_agree() {
    let m = Maglev::new(&names(&["b0", "b1", "b2"]), 11).unwrap();
    for i in 0..11 {
        assert_eq!(m.get_backend(i), m.get_backend(i));
    }
}

#[test]
fn removal_moves_few_other_slots() {
    let backends: Vec<String> = (0..5).map(|i| format!("backend-{}", i)).collect();
    let mut m = Maglev::new(&backends, 1009).unwrap();
    let before = slots(&m, 1009);
    m.remove_backend(&"backend-2".to_string()).unwrap();
    let after = slots(&m, 1009);
    let mut moved_elsewhere = 0;
    for (b, a) in before.iter().zip(after.iter()) {
        assert_ne!(a.as_deref(), Some("backend-2"));
        if b.as_deref() != Some("backend-2") && a != b {
            moved_elsewhere += 1;
        }
    }
    assert!(moved_elsewhere <= 1009 / 5);
}

#[test]
fn duplicate_backend_is_rejected_and_table_kept() {
    let backends = names(&["b0", "b1", "b2"]);
    let mut m = Maglev::new(&backends, 11).unwrap();
    assert_eq!(Err("Backend already exists"), m.put_backend(&"b1".to_string()));
    assert_eq!(Maglev::new(&backends, 11).unwrap(), m);
}

#[test]
fn missing_backend_is_rejected_and_table_kept() {
    let backends = names(&["b0", "b1", "b2"]);
    let mut m = Maglev::new(&backends, 11).unwrap();
    assert_eq!(Err("Backend not found"), m.remove_backend(&"b9".to_string()));
    assert_eq!(Maglev::new(&backends, 11).unwrap(), m);
}

#[test]
fn out_of_range_lookup_is_none() {
    let m = Maglev::new(&names(&["b0", "b1", "b2"]), 11).unwrap();
    assert_eq!(None, m.get_backend(11));
    assert_eq!(None, m.get_backend(12));
    assert_eq!(None, m.get_backend(usize::MAX));
}

#[test]
fn empty_backend_list_has_no_owners() {
    let mut m = Maglev::new(&Vec::new(), 11).unwrap();
    assert_eq!(None, m.get_backend(0));
    m.put_backend(&"only".to_string()).unwrap();
    for i in 0..11 {
        assert_eq!(Some("only".to_string()), m.get_backend(i));
    }
    m.remove_backend(&"only".to_string()).unwrap();
    assert_eq!(None, m.get_backend(3));
}

#[test]
fn remove_takes_the_first_of_equal_names() {
    let mut m = Maglev::new(&names(&["x", "y", "x"]), 13).unwrap();
    m.remove_backend(&"x".to_string()).unwrap();
    let direct = Maglev::new(&names(&["y", "x"]), 13).unwrap();
    assert_eq!(direct, m);
}
