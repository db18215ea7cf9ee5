use openvdb::index::InMemoryIndex;
use openvdb::snapshot::load_index;

fn bits(xs: &[f32]) -> Vec<u32> {
    xs.iter().map(|x| x.to_bits()).collect()
}

fn cosine(a: &[f32], b: &[f32]) -> f32 {
    let dot: f32 = a.iter().zip(b).map(|(x, y)| x * y).sum();
    let na: f32 = a.iter().map(|x| x * x).sum::<f32>().sqrt();
    let nb: f32 = b.iter().map(|x| x * x).sum::<f32>().sqrt();
    dot / (na * nb)
}

/// Scores of every exported record against `q`, in export order.
fn scores(idx: &InMemoryIndex, q: &[f32]) -> Vec<u32> {
    idx.export_vectors()
        .iter()
        .map(|e| {
            let v: Vec<f32> = e.values.iter().map(|b| f32::from_bits(*b)).collect();
            cosine(&v, q).to_bits()
        })
        .collect()
}

#[test]
fn identical_vector_ranks_first_with_similarity_one() {
    let data: Vec<(&str, Vec<f32>)> = vec![
        ("a", vec![0.3, -1.2, 4.0]),
        ("b", vec![1.0, 1.0, 1.0]),
        ("c", vec![-2.0, 0.5, 0.25]),
        ("d", vec![0.31, -1.1, 4.2]),
    ];
    let mut idx = InMemoryIndex::new(3).unwrap();
    for (id, v) in &data {
        idx.upsert(id.to_string(), bits(v), None).unwrap();
    }
    for (id, v) in &data {
        let out = idx.rank_exact(&scores(&idx, v), 2);
        assert_eq!(out.len(), 2);
        assert_eq!(out[0].id, *id);
        assert!((f32::from_bits(out[0].score) - 1.0).abs() < 1e-5);
        assert!(f32::from_bits(out[0].score) >= f32::from_bits(out[1].score));
    }
}

#[test]
fn ranking_orders_by_total_order_with_ties_to_earlier_records() {
    let mut idx = InMemoryIndex::new(1).unwrap();
    for id in ["p", "q", "r", "s", "t", "u"] {
        idx.upsert(id.to_string(), bits(&[1.0]), None).unwrap();
    }
    let sc = bits(&[0.5, -0.25, 0.5, -0.0, 0.0, -3.0]);
    let out = idx.rank_exact(&sc, 10);
    let ids: Vec<&str> = out.iter().map(|p| p.id.as_str()).collect();
    assert_eq!(ids, vec!["p", "r", "t", "s", "q", "u"]);
    let top3: Vec<String> = idx.rank_exact(&sc, 3).into_iter().map(|p| p.id).collect();
    assert_eq!(top3, vec!["p", "r", "t"]);
    assert!(idx.rank_exact(&sc, 0).is_empty());
}

#[test]
fn exact_results_survive_export_and_reload() {
    let mut idx = InMemoryIndex::new(2).unwrap();
    idx.upsert("a".to_string(), bits(&[1.0, 0.0]), None).unwrap();
    idx.upsert("b".to_string(), bits(&[0.0, 1.0]), None).unwrap();
    idx.upsert("c".to_string(), bits(&[1.0, 1.0]), None).unwrap();
    idx.upsert("d".to_string(), bits(&[-1.0, 1.0]), None).unwrap();
    idx.delete(&"b".to_string());
    idx.upsert("a".to_string(), bits(&[2.0, 1.0]), None).unwrap();
    let reloaded = load_index(2, &idx.export_vectors()).unwrap();
    for probe in [[1.0f32, 0.0], [0.0, 1.0], [-1.0, -1.0], [0.5, 0.5]] {
        let left: Vec<(String, u32)> = idx.rank_exact(&scores(&idx, &probe), 3).into_iter().map(|p| (p.id, p.score)).collect();
        let right: Vec<(String, u32)> =
            reloaded.rank_exact(&scores(&reloaded, &probe), 3).into_iter().map(|p| (p.id, p.score)).collect();
        assert_eq!(left, right);
    }
}
