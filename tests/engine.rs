use iqdb_rs::index::weight_band;
use iqdb_rs::{ImageData, Signature, DB};

const WEIGHTS: [[f32; 3]; 6] = [
    [5.00, 19.21, 34.37],
    [0.83, 1.26, 0.36],
    [1.01, 0.44, 0.45],
    [0.52, 0.53, 0.14],
    [0.47, 0.28, 0.18],
    [0.30, 0.14, 0.27],
];

/// Scores every chunk in `f32` the way the server does and lets the library
/// select and merge.
fn query(db: &DB, sig: &Signature, limit: usize) -> Vec<(f32, i64)> {
    if limit == 0 {
        return Vec::new();
    }
    let qy = f64::from_bits(sig.avgl.0) as f32;
    let qi = f64::from_bits(sig.avgl.1) as f32;
    let qq = f64::from_bits(sig.avgl.2) as f32;
    let mut shards = Vec::new();
    for c in 0..db.chunk_count() {
        let chunk = db.chunk(c);
        let n = chunk.len();
        let mut scores = vec![0f32; n + 16];
        for (i, score) in scores.iter_mut().enumerate().take(n) {
            let (y, ci, cq) = chunk.avgl(i);
            let mut s = 0.;
            s += WEIGHTS[0][0] * (f64::from_bits(y) as f32 - qy).abs();
            s += WEIGHTS[0][1] * (f64::from_bits(ci) as f32 - qi).abs();
            s += WEIGHTS[0][2] * (f64::from_bits(cq) as f32 - qq).abs();
            *score = s;
        }
        let mut scale = 0f32;
        for (p, &coef) in sig.sig.iter().enumerate() {
            let weight = WEIGHTS[weight_band(coef)][p / 40];
            scale -= weight;
            for id in chunk.bucket(p / 40, coef).ids() {
                scores[id as usize] -= weight;
            }
        }
        let bits: Vec<u32> = scores.iter().map(|s| s.to_bits()).collect();
        if scale != 0. {
            scale = 1. / scale;
        }
        for (b, dense) in chunk.select_top(&bits, limit) {
            shards.push(((f32::from_bits(b) * 100. * scale).to_bits(), dense));
        }
    }
    db.merge(&shards, limit)
        .into_iter()
        .map(|(b, id)| (f32::from_bits(b), id))
        .collect()
}

fn signature(seed: i16, y: f64) -> Signature {
    let mut sig = Vec::new();
    for color in 0..3i16 {
        let mut block: Vec<i16> = (0..40i16)
            .map(|k| {
                let m = 1 + (k * 37 + seed * 11 + color * 5) % 2000;
                if k % 2 == 0 {
                    m
                } else {
                    -m
                }
            })
            .collect();
        block.sort();
        block.dedup();
        while block.len() < 40 {
            let next = block.iter().max().unwrap() + 1;
            block.push(next);
        }
        sig.extend(block);
    }
    Signature {
        avgl: (y.to_bits(), 0.01f64.to_bits(), (-0.02f64).to_bits()),
        sig,
    }
}

fn image(id: i64, sig: &Signature) -> ImageData {
    ImageData {
        id,
        avgl: sig.avgl,
        sig: sig.sig.clone(),
    }
}

#[test]
fn empty_db_query_is_empty() {
    let db = DB::new(Vec::new());
    assert_eq!(query(&db, &signature(1, 0.5), 10), vec![]);
    assert_eq!(db.image_count(), 0);
}

#[test]
fn single_image_scores_hundred() {
    let mut db = DB::new(Vec::new());
    let s = signature(3, 0.6);
    db.insert(image(42, &s));
    let r = query(&db, &s, 5);
    assert_eq!(r.len(), 1);
    assert_eq!(r[0].1, 42);
    assert!((r[0].0 - 100.0).abs() < 1e-3, "{}", r[0].0);
}

#[test]
fn inserted_image_is_top_hit() {
    let mut db = DB::new(Vec::new());
    for i in 0..20 {
        db.insert(image(1000 + i, &signature(i as i16, 0.3 + i as f64 / 100.)));
    }
    let s = signature(7, 0.37);
    let r = query(&db, &s, 1);
    assert_eq!(r.len(), 1);
    assert_eq!(r[0].1, 1007);
    assert!((r[0].0 - 100.0).abs() < 1e-3);
}

#[test]
fn identical_signatures_tie() {
    let mut db = DB::new(Vec::new());
    let s = signature(5, 0.4);
    db.insert(image(11, &s));
    db.insert(image(12, &s));
    let r = query(&db, &s, 2);
    assert_eq!(r.len(), 2);
    assert_eq!(r[0].0, r[1].0);
    assert_eq!(r[0].1, 12);
    assert_eq!(r[1].1, 11);
}

#[test]
fn delete_then_contains_is_false() {
    let mut db = DB::new(Vec::new());
    let s = signature(2, 0.5);
    db.insert(image(7, &s));
    assert!(db.contains(7));
    assert_eq!(db.image_count(), 1);
    db.delete(image(7, &s));
    assert!(!db.contains(7));
    assert_eq!(db.image_count(), 0);
    assert_eq!(query(&db, &s, 5), vec![]);
}

#[test]
fn delete_then_reinsert_under_new_id() {
    let mut db = DB::new(Vec::new());
    let s = signature(4, 0.45);
    let other = signature(9, 0.8);
    db.insert(image(1, &s));
    db.insert(image(2, &other));
    db.delete(image(1, &s));
    assert_eq!(db.image_count(), 1);
    assert!(query(&db, &s, 10).iter().all(|&(_, id)| id != 1));
    db.insert(image(3, &s));
    let r = query(&db, &s, 1);
    assert_eq!(r[0].1, 3);
    assert!((r[0].0 - 100.0).abs() < 1e-3);
    db.delete(image(99, &s));
    assert_eq!(db.image_count(), 2);
}

#[test]
fn zero_y_is_not_indexed() {
    let mut db = DB::new(Vec::new());
    let s = signature(6, 0.0);
    db.insert(image(5, &s));
    assert!(db.contains(5));
    assert_eq!(query(&db, &s, 3), vec![]);
}

#[test]
fn query_is_deterministic_and_limited() {
    let mut db = DB::new(Vec::new());
    for i in 0..30 {
        db.insert(image(i, &signature((i % 10) as i16, 0.5)));
    }
    let s = signature(3, 0.5);
    let a = query(&db, &s, 4);
    let b = query(&db, &s, 4);
    assert_eq!(a, b);
    assert_eq!(a.len(), 4);
    assert!(a.windows(2).all(|w| w[0].0 > w[1].0 || (w[0].0 == w[1].0 && w[0].1 > w[1].1)));
    assert_eq!(query(&db, &s, 0), vec![]);
}

#[test]
fn chunks_roll_over_when_full() {
    let mut db = DB::new(Vec::new());
    let s = signature(1, 0.0);
    for i in 0..65537 {
        db.insert(image(i, &s));
    }
    assert_eq!(db.chunk_count(), 2);
    assert_eq!(db.chunk(1).offset(), 65536);
    assert_eq!(db.chunk(0).len(), 65536);
    assert!(db.chunk(0).is_full());
    assert_eq!(db.external_id(65536), 65536);
    let live = signature(2, 0.7);
    db.insert(image(70000, &live));
    let r = query(&db, &live, 3);
    assert_eq!(r.len(), 1);
    assert_eq!(r[0].1, 70000);
}

#[test]
fn weight_bands() {
    assert_eq!(weight_band(0), 0);
    assert_eq!(weight_band(3), 3);
    assert_eq!(weight_band(-4), 4);
    assert_eq!(weight_band(7), 5);
    assert_eq!(weight_band(128), 1);
    assert_eq!(weight_band(-256), 2);
    assert_eq!(weight_band(640), 5);
    assert_eq!(weight_band(16383), 5);
}

#[test]
fn select_top_orders_by_score_then_slot() {
    let mut db = DB::new(Vec::new());
    for i in 0..5 {
        db.insert(image(100 + i, &signature(i as i16, 0.5)));
    }
    let chunk = db.chunk(0);
    let scores: Vec<u32> = [3.0f32, -1.0, 3.0, f32::MAX, 0.5]
        .iter()
        .map(|s| s.to_bits())
        .collect();
    let top = chunk.select_top(&scores, 3);
    assert_eq!(
        top,
        vec![
            ((-1.0f32).to_bits(), 1),
            (0.5f32.to_bits(), 4),
            (3.0f32.to_bits(), 0)
        ]
    );
    assert_eq!(chunk.select_top(&scores, 10).len(), 4);
    assert_eq!(chunk.select_top(&scores, 0), vec![]);
}

#[test]
fn merge_orders_best_first() {
    let mut db = DB::new(Vec::new());
    for i in 0..4 {
        db.insert(image(50 - i, &signature(i as i16, 0.5)));
    }
    let shards = vec![
        (10.0f32.to_bits(), 0),
        (90.0f32.to_bits(), 1),
        (10.0f32.to_bits(), 2),
        ((-5.0f32).to_bits(), 3),
    ];
    let r = db.merge(&shards, 3);
    assert_eq!(
        r,
        vec![
            (90.0f32.to_bits(), 49),
            (10.0f32.to_bits(), 50),
            (10.0f32.to_bits(), 48)
        ]
    );
}

#[test]
fn new_inserts_in_order() {
    let a = signature(1, 0.5);
    let b = signature(2, 0.0);
    let db = DB::new(vec![image(9, &a), image(4, &b)]);
    assert_eq!(db.image_count(), 2);
    assert!(db.contains(9) && db.contains(4));
    assert_eq!(db.external_id(0), 9);
    assert_eq!(db.external_id(1), 4);
    assert_eq!(db.dense_len(), 2);
    assert!(db.chunk(0).live(0));
    assert!(!db.chunk(0).live(1));
}

#[test]
fn ties_keep_lowest_slots_then_sort_descending() {
    let s = signature(8, 0.55);
    let images: Vec<ImageData> = (0..600).map(|i| image(i, &s)).collect();
    let db = DB::new(images);
    match db.chunk(0).bucket(0, s.sig[0]) {
        iqdb_rs::Bucket::Mask { len, .. } => assert_eq!(*len, 600),
        _ => panic!("expected the mask variant"),
    }
    let r = query(&db, &s, 5);
    let ids: Vec<i64> = r.iter().map(|&(_, id)| id).collect();
    assert_eq!(ids, vec![4, 3, 2, 1, 0]);
    assert!(r.iter().all(|&(score, _)| (score - 100.0).abs() < 1e-3));
}

#[test]
fn y_below_smallest_f32_is_not_found() {
    let s = signature(3, 1e-50);
    let db = DB::new(vec![image(8, &s)]);
    assert!(db.contains(8));
    assert!(!db.chunk(0).live(0));
    assert_eq!(query(&db, &s, 3), vec![]);
    let t = signature(3, 1.5e-45);
    let db = DB::new(vec![image(9, &t)]);
    assert!(db.chunk(0).live(0));
}
