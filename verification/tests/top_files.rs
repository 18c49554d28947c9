use dm_core::top_files::TopKFiles;

fn sizes_and_names(t: &TopKFiles) -> Vec<(u64, String)> {
    let mut v: Vec<(u64, String)> = t
        .to_sorted_vec_desc()
        .into_iter()
        .map(|f| (f.size, f.name))
        .collect();
    v.sort();
    v
}

#[test]
fn zero_capacity_keeps_nothing() {
    let mut t = TopKFiles::new(0);
    t.offer("a".to_string(), 10);
    assert!(t.to_sorted_vec_desc().is_empty());
}

#[test]
fn keeps_all_while_not_full() {
    let mut t = TopKFiles::new(3);
    t.offer("a".to_string(), 1);
    t.offer("b".to_string(), 2);
    let v = t.to_sorted_vec_desc();
    assert_eq!(v.len(), 2);
    assert_eq!(v[0].name, "b");
    assert_eq!(v[0].size, 2);
    assert_eq!(v[1].name, "a");
    assert_eq!(v[0].mtime, 0);
}

#[test]
fn larger_file_replaces_smallest() {
    let mut t = TopKFiles::new(2);
    t.offer("a".to_string(), 5);
    t.offer("b".to_string(), 3);
    t.offer("c".to_string(), 4);
    assert_eq!(sizes_and_names(&t), vec![(4, "c".to_string()), (5, "a".to_string())]);
}

#[test]
fn smaller_file_is_rejected_when_full() {
    let mut t = TopKFiles::new(1);
    t.offer("a".to_string(), 5);
    t.offer("b".to_string(), 4);
    assert_eq!(sizes_and_names(&t), vec![(5, "a".to_string())]);
}

#[test]
fn equal_size_replaces_greatest_name() {
    let mut t = TopKFiles::new(2);
    t.offer("x".to_string(), 5);
    t.offer("y".to_string(), 5);
    t.offer("z".to_string(), 5);
    assert_eq!(sizes_and_names(&t), vec![(5, "x".to_string()), (5, "z".to_string())]);
    let mut u = TopKFiles::new(1);
    u.offer("b".to_string(), 5);
    u.offer("a".to_string(), 5);
    assert_eq!(sizes_and_names(&u), vec![(5, "a".to_string())]);
}

#[test]
fn keeps_the_largest_of_many() {
    let mut t = TopKFiles::new(3);
    for (i, size) in [7u64, 1, 9, 3, 10, 2, 8, 4].iter().enumerate() {
        t.offer(format!("f{}", i), *size);
    }
    let v = t.to_sorted_vec_desc();
    let sizes: Vec<u64> = v.iter().map(|f| f.size).collect();
    assert_eq!(sizes, vec![10, 9, 8]);
}

#[test]
fn sorted_output_is_descending() {
    let mut t = TopKFiles::new(5);
    for (i, size) in [3u64, 8, 1, 8, 5].iter().enumerate() {
        t.offer(format!("f{}", i), *size);
    }
    let sizes: Vec<u64> = t.to_sorted_vec_desc().iter().map(|f| f.size).collect();
    assert_eq!(sizes, vec![8, 8, 5, 3, 1]);
}

#[test]
fn clone_keeps_files() {
    let mut t = TopKFiles::new(2);
    t.offer("a".to_string(), 1);
    let c = t.clone();
    assert_eq!(sizes_and_names(&c), vec![(1, "a".to_string())]);
}

#[test]
fn a_collection_never_holds_more_than_k() {
    let mut t = TopKFiles::new(2);
    for (i, size) in [5u64, 9, 1, 7, 3].iter().enumerate() {
        t.offer(format!("f{}", i), *size);
        assert!(t.to_sorted_vec_desc().len() <= 2);
    }
    let sizes: Vec<u64> = t.to_sorted_vec_desc().iter().map(|f| f.size).collect();
    assert_eq!(sizes, vec![9, 7]);
}
