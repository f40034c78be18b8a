use iqdb_rs::Bucket;

fn variant(b: &Bucket) -> &'static str {
    match b {
        Bucket::Empty => "empty",
        Bucket::Array { .. } => "array",
        Bucket::Vec(_) => "vec",
        Bucket::Mask { .. } => "mask",
    }
}

#[test]
fn bucket_growth_from_zero() {
    let mut b = Bucket::new();
    assert_eq!(variant(&b), "empty");
    b.append(0);
    match &b {
        Bucket::Array { ids, len } => {
            assert_eq!(ids[0], 0);
            assert_eq!(*len, 1);
        }
        _ => panic!("expected the array variant"),
    }
    for id in 1..15u16 {
        b.append(id);
        assert_eq!(variant(&b), "array");
    }
    b.append(15);
    match &b {
        Bucket::Vec(v) => assert_eq!(*v, (0..16u16).collect::<Vec<_>>()),
        _ => panic!("expected the vector variant"),
    }
    assert!(b.contains(0));
    assert!(b.contains(15));
    assert!(!b.contains(16));
}

#[test]
fn bucket_variant_by_size() {
    let mut b = Bucket::new();
    let mut seen = vec![(0usize, variant(&b))];
    for id in 0..512u16 {
        b.append(id * 3);
        let n = b.len();
        if [1, 15, 16, 511, 512].contains(&n) {
            seen.push((n, variant(&b)));
        }
    }
    assert_eq!(
        seen,
        vec![
            (0, "empty"),
            (1, "array"),
            (15, "array"),
            (16, "vec"),
            (511, "vec"),
            (512, "mask")
        ]
    );
}

#[test]
fn bucket_append_remove_all_is_empty() {
    let mut b = Bucket::new();
    let ids: Vec<u16> = (0..600u16).map(|i| (i * 97) % 65521).collect();
    for &id in &ids {
        b.append(id);
    }
    assert_eq!(variant(&b), "mask");
    assert_eq!(b.len(), 600);
    for &id in ids.iter().rev() {
        b.remove(id);
    }
    assert_eq!(variant(&b), "empty");
    assert_eq!(b.len(), 0);
}

#[test]
fn bucket_mask_demotes_to_sorted_vec() {
    let mut b = Bucket::new();
    for id in (0..512u16).rev() {
        b.append(id * 100);
    }
    assert_eq!(variant(&b), "mask");
    b.remove(700);
    match &b {
        Bucket::Vec(v) => {
            assert_eq!(v.len(), 511);
            assert!(v.windows(2).all(|w| w[0] < w[1]));
            assert!(!v.contains(&700));
        }
        _ => panic!("expected the vector variant"),
    }
}

#[test]
fn bucket_array_remove_shifts_left() {
    let mut b = Bucket::new();
    for id in [5u16, 0, 9, 7] {
        b.append(id);
    }
    b.remove(0);
    match &b {
        Bucket::Array { ids, len } => {
            assert_eq!(*len, 3);
            assert_eq!(&ids[..4], &[5, 9, 7, 0]);
        }
        _ => panic!("expected the array variant"),
    }
    b.remove(42);
    assert_eq!(b.len(), 3);
    b.remove(5);
    b.remove(9);
    b.remove(7);
    assert_eq!(variant(&b), "empty");
}

#[test]
fn bucket_vec_single_remove_is_empty() {
    let mut b = Bucket::new();
    for id in 0..16u16 {
        b.append(id);
    }
    for id in 0..15u16 {
        b.remove(id);
    }
    assert_eq!(variant(&b), "vec");
    assert_eq!(b.ids(), vec![15]);
    b.remove(15);
    assert_eq!(variant(&b), "empty");
}

#[test]
fn bucket_ids_lists_members_once() {
    let mut b = Bucket::new();
    for id in [300u16, 2, 65535, 17] {
        b.append(id);
    }
    let mut ids = b.ids();
    ids.sort();
    assert_eq!(ids, vec![2, 17, 300, 65535]);
}

#[test]
fn bucket_remove_absent_changes_nothing() {
    let mut b = Bucket::new();
    for id in [4u16, 8, 1] {
        b.append(id);
    }
    b.remove(5);
    match &b {
        Bucket::Array { ids, len } => {
            assert_eq!(*len, 3);
            assert_eq!(&ids[..], &[4, 8, 1, 0, 0, 0, 0, 0, 0, 0, 0, 0, 0, 0, 0]);
        }
        _ => panic!("expected the array variant"),
    }
}

#[test]
fn bucket_full_array_remove_keeps_order() {
    let mut b = Bucket::new();
    for id in 1..16u16 {
        b.append(id);
    }
    b.remove(1);
    match &b {
        Bucket::Array { ids, len } => {
            assert_eq!(*len, 14);
            assert_eq!(&ids[..14], &(2..16u16).collect::<Vec<_>>()[..]);
            assert_eq!(ids[14], 0);
        }
        _ => panic!("expected the array variant"),
    }
    assert_eq!(b.ids(), (2..16u16).collect::<Vec<_>>());
}
