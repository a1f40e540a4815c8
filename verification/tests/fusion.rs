//! Final rankings.

use minnal_db::semantic_search::evaluation::{corpus_body, count_hits, doc_u64, parse_judgement, str_field, Graded};
use minnal_db::semantic_search::fusion::{
    dense_ranks, fuse as fuse_scored, order_key, ranks_desc, single_signal, sparse_ranks, Candidate, QueryResult, RankFusion,
    RankingError, RankingOverride, RankingParams, DEFAULT_RRF_K, DEFAULT_SPARSE_WEIGHT,
};
use minnal_db::doc_store::json::{DocumentField, FieldValue};

fn cand(id: &str, sparse: f32, dense: f32) -> Candidate {
    Candidate {
        document_id: id.as_bytes().to_vec(),
        sparse_score: sparse.to_bits(),
        dense_score: dense.to_bits(),
        error_bound: 0,
    }
}

fn ids(r: &[QueryResult]) -> Vec<&str> {
    r.iter().map(|q| std::str::from_utf8(&q.document_id).unwrap()).collect()
}

fn params(mode: RankFusion, w: f32) -> RankingParams {
    RankingParams {
        mode,
        sparse_weight: w.to_bits(),
        ..Default::default()
    }
}

fn z_scores(scores: &[f32]) -> Vec<f32> {
    let n = scores.len() as f64;
    let mean = scores.iter().map(|&s| s as f64).sum::<f64>() / n;
    let var = scores.iter().map(|&s| (s as f64 - mean).powi(2)).sum::<f64>() / n;
    let std = var.sqrt();
    if !std.is_finite() || std <= f64::EPSILON {
        return vec![0.0; scores.len()];
    }
    scores.iter().map(|&s| ((s as f64 - mean) / std) as f32).collect()
}

/// Blends the scores where the mode asks for it, then fuses.
fn fuse(candidates: Vec<Candidate>, params: &RankingParams, top_k: usize) -> Vec<QueryResult> {
    let w = f32::from_bits(params.sparse_weight);
    let fused = match single_signal(&candidates, params.mode) {
        Some(scores) => scores,
        None if params.mode == RankFusion::Rrf => {
            let k = f32::from_bits(params.rrf_k);
            sparse_ranks(&candidates)
                .iter()
                .zip(dense_ranks(&candidates))
                .map(|(&rs, rd)| (w / (k + rs as f32) + (1.0 - w) / (k + rd as f32)).to_bits())
                .collect()
        }
        None => {
            let sparse: Vec<f32> = candidates.iter().map(|c| f32::from_bits(c.sparse_score)).collect();
            let dense: Vec<f32> = candidates.iter().map(|c| f32::from_bits(c.dense_score)).collect();
            z_scores(&sparse)
                .iter()
                .zip(z_scores(&dense))
                .map(|(&s, d)| (w * s + (1.0 - w) * d).to_bits())
                .collect()
        }
    };
    fuse_scored(&candidates, &fused, top_k)
}

/// a: dense best, sparse worst; c: sparse best, dense 2nd — a doc strong on both.
fn sample() -> Vec<Candidate> {
    vec![cand("a", 1.0, 0.90), cand("b", 2.0, 0.50), cand("c", 4.0, 0.85), cand("d", 3.0, 0.10)]
}

#[test]
fn dense_mode_orders_by_dense_score() {
    let r = fuse(sample(), &params(RankFusion::Dense, 0.5), 10);
    assert_eq!(ids(&r), ["a", "c", "b", "d"]);
    for q in &r {
        assert_eq!(q.fused_score, q.dense_score);
    }
    assert_eq!(r.iter().map(|q| q.dense_rank).collect::<Vec<_>>(), [1, 2, 3, 4]);
}

#[test]
fn sparse_mode_orders_by_sparse_score() {
    let r = fuse(sample(), &params(RankFusion::Sparse, 0.5), 10);
    assert_eq!(ids(&r), ["c", "d", "b", "a"]);
    assert_eq!(r.iter().map(|q| q.sparse_rank).collect::<Vec<_>>(), [1, 2, 3, 4]);
}

#[test]
fn rrf_promotes_doc_ranked_well_by_both() {
    let r = fuse(sample(), &params(RankFusion::Rrf, 0.5), 10);
    assert_eq!(r[0].document_id, b"c", "c is 1st sparse + 2nd dense, so it beats dense-only winner a");
    assert_eq!(r[0].dense_rank, 2);
    assert_eq!(r[0].sparse_rank, 1);
    assert_eq!(r[0].dense_score, 0.85f32.to_bits(), "dense score is reported unchanged");
}

#[test]
fn weight_extremes_reduce_to_single_list_order() {
    for mode in [RankFusion::Rrf, RankFusion::Zscore] {
        assert_eq!(ids(&fuse(sample(), &params(mode, 0.0), 10)), ["a", "c", "b", "d"], "{mode:?} w=0");
        assert_eq!(ids(&fuse(sample(), &params(mode, 1.0), 10)), ["c", "d", "b", "a"], "{mode:?} w=1");
    }
}

#[test]
fn zscore_with_flat_signal_falls_back_to_other_signal() {
    let flat = vec![cand("a", 1.0, 0.2), cand("b", 1.0, 0.9), cand("c", 1.0, 0.5)];
    let r = fuse(flat, &params(RankFusion::Zscore, 0.5), 10);
    assert_eq!(ids(&r), ["b", "c", "a"]);
    assert!(r.iter().all(|q| f32::from_bits(q.fused_score).is_finite()));
}

#[test]
fn ties_are_deterministic() {
    // Symmetric ranks → equal RRF scores for a and b; tie broken by dense rank.
    let c = vec![cand("a", 2.0, 0.1), cand("b", 1.0, 0.2)];
    for _ in 0..5 {
        assert_eq!(ids(&fuse(c.clone(), &params(RankFusion::Rrf, 0.5), 10)), ["b", "a"]);
    }
    // Identical scores → ranks tie-broken by doc id.
    let same = vec![cand("z", 1.0, 1.0), cand("y", 1.0, 1.0)];
    let r = fuse(same, &params(RankFusion::Dense, 0.5), 10);
    assert_eq!(ids(&r), ["y", "z"]);
}

#[test]
fn top_k_truncates_and_ranks_span_full_set() {
    let r = fuse(sample(), &params(RankFusion::Dense, 0.5), 2);
    assert_eq!(ids(&r), ["a", "c"]);
    // sparse ranks are over all 4 candidates, not just the returned 2.
    assert_eq!(r[0].sparse_rank, 4);
    assert!(fuse(sample(), &params(RankFusion::Dense, 0.5), 0).is_empty());
    assert!(fuse(vec![], &params(RankFusion::Rrf, 0.5), 10).is_empty());
}

#[test]
fn validate_and_override() {
    let base = RankingParams::default();
    assert!(base.validate().is_ok());
    let o = RankingOverride {
        mode: Some(RankFusion::Rrf),
        ..Default::default()
    };
    let p = base.with_override(&o).unwrap();
    assert_eq!(p.mode, RankFusion::Rrf);
    assert_eq!(p.rrf_k, DEFAULT_RRF_K);
    let bad_k = RankingOverride {
        rrf_k: Some(0.0f32.to_bits()),
        ..Default::default()
    };
    assert_eq!(base.with_override(&bad_k), Err(RankingError::InvalidRrfK(0.0f32.to_bits())));
    let bad_w = RankingOverride {
        sparse_weight: Some(1.5f32.to_bits()),
        ..Default::default()
    };
    assert_eq!(base.with_override(&bad_w), Err(RankingError::InvalidSparseWeight(1.5f32.to_bits())));
    assert!(RankingParams { rrf_k: f32::NAN.to_bits(), ..base }.validate().is_err());
}

#[test]
fn parameter_checks_agree_with_the_machine() {
    let samples = [
        0.0f32, -0.0, 1.0, -1.0, 0.5, 1.5, 1e-45, -1e-45, 0.99999994, 1.0000001, f32::MAX, f32::MIN, f32::INFINITY,
        f32::NEG_INFINITY, f32::NAN, -f32::NAN,
    ];
    for k in samples {
        let p = RankingParams { rrf_k: k.to_bits(), ..Default::default() };
        assert_eq!(p.validate().is_ok(), k.is_finite() && k > 0.0, "rrf_k {k}");
    }
    for w in samples {
        let p = RankingParams { sparse_weight: w.to_bits(), ..Default::default() };
        assert_eq!(p.validate().is_ok(), (0.0..=1.0).contains(&w), "weight {w}");
    }
    assert_eq!(DEFAULT_RRF_K, 1.0f32.to_bits());
    assert_eq!(DEFAULT_SPARSE_WEIGHT, 0.1f32.to_bits());
}

#[test]
fn order_keys_agree_with_the_total_order() {
    let samples = [
        0.0f32, -0.0, 1.0, -1.0, 1e-45, -1e-45, f32::MAX, f32::MIN, f32::INFINITY, f32::NEG_INFINITY, f32::NAN, -f32::NAN, 2.5, -2.5,
    ];
    for a in samples {
        for b in samples {
            assert_eq!(order_key(a.to_bits()).cmp(&order_key(b.to_bits())), a.total_cmp(&b), "{a} {b}");
        }
    }
}

#[test]
fn ranks_descend_with_ties_by_id() {
    let scores: Vec<u32> = [2.0f32, 5.0, 2.0, -1.0].iter().map(|s| s.to_bits()).collect();
    let ids: Vec<Vec<u8>> = ["m", "a", "k", "z"].iter().map(|s| s.as_bytes().to_vec()).collect();
    assert_eq!(ranks_desc(&scores, &ids), vec![3, 1, 2, 4]);
}

#[test]
fn single_signals() {
    let c = sample();
    let dense: Vec<u32> = c.iter().map(|x| x.dense_score).collect();
    let sparse: Vec<u32> = c.iter().map(|x| x.sparse_score).collect();
    assert_eq!(single_signal(&c, RankFusion::Dense), Some(dense));
    assert_eq!(single_signal(&c, RankFusion::Sparse), Some(sparse));
    assert_eq!(single_signal(&c, RankFusion::Rrf), None);
    assert_eq!(single_signal(&c, RankFusion::Zscore), None);
    assert_eq!(RankFusion::default(), RankFusion::Dense);
}

// ── Evaluation ──────────────────────────────────────────────────────────

struct Metrics {
    ndcg: f64,
    mrr: f64,
    recall: f64,
    cand_recall: f64,
}

fn score(ranked: &[&str], rels: &[(&str, u32)]) -> Metrics {
    let ranked: Vec<String> = ranked.iter().map(|s| s.to_string()).collect();
    let rels: Vec<Graded> = rels.iter().map(|&(d, grade)| Graded { document: d.to_string(), grade }).collect();
    let c = count_hits(&ranked, &rels);
    let gain = |grades: &[u32]| {
        grades.iter().take(10).enumerate().map(|(i, &g)| g as f64 / ((i + 2) as f64).log2()).sum::<f64>()
    };
    let (dcg, idcg) = (gain(&c.gains), gain(&c.ideal));
    Metrics {
        ndcg: if idcg > 0.0 { dcg / idcg } else { 0.0 },
        mrr: c.first_hit.map_or(0.0, |p| 1.0 / (p + 1) as f64),
        recall: c.hits_at_recall as f64 / rels.len() as f64,
        cand_recall: c.hits_at_all as f64 / rels.len() as f64,
    }
}

#[test]
fn perfect_ranking_scores_one() {
    let m = score(&["a", "b", "x"], &[("a", 2), ("b", 1)]);
    assert!((m.ndcg - 1.0).abs() < 1e-12);
    assert_eq!((m.mrr, m.recall, m.cand_recall), (1.0, 1.0, 1.0));
}

#[test]
fn candidate_recall_uses_the_whole_candidate_list() {
    let ranked: Vec<String> = (0..150).map(|i| format!("d{i}")).collect();
    let ranked: Vec<&str> = ranked.iter().map(String::as_str).collect();
    let m = score(&ranked, &[("d5", 1), ("d120", 1)]);
    assert_eq!(m.recall, 0.5, "d120 is outside the top 100");
    assert_eq!(m.cand_recall, 1.0, "but it is among the candidates");
}

#[test]
fn counts_of_a_mixed_ranking() {
    let ranked: Vec<String> = ["x", "b", "y", "a"].iter().map(|s| s.to_string()).collect();
    let rels = vec![
        Graded { document: "a".to_string(), grade: 3 },
        Graded { document: "b".to_string(), grade: 1 },
        Graded { document: "c".to_string(), grade: 2 },
    ];
    let c = count_hits(&ranked, &rels);
    assert_eq!(c.gains, vec![0, 1, 0, 3]);
    assert_eq!(c.ideal, vec![3, 2, 1]);
    assert_eq!(c.first_hit, Some(1));
    assert_eq!((c.hits_at_recall, c.hits_at_all), (2, 2));
    assert_eq!(count_hits(&[], &rels).first_hit, None);
}

#[test]
fn judgement_lines() {
    let j = parse_judgement("q1\tdoc 7\t 2 \textra").unwrap();
    assert_eq!((j.query.as_str(), j.document.as_str(), j.grade), ("q1", "doc 7", 2));
    assert!(parse_judgement("q1\tdoc\t0").is_none());
    assert!(parse_judgement("q1\tdoc\t-3").is_none());
    assert!(parse_judgement("q1\tdoc\tmany").is_none());
    assert!(parse_judgement("q1\tdoc").is_none());
    assert!(parse_judgement("").is_none());
    let empty = parse_judgement("\t\t1").unwrap();
    assert_eq!((empty.query.as_str(), empty.document.as_str()), ("", ""));
}

#[test]
fn corpus_fields() {
    let fields = vec![
        DocumentField { name: "title".to_string(), value: FieldValue::Text("  A title \n".to_string()) },
        DocumentField { name: "year".to_string(), value: FieldValue::Number(Some(1999)) },
    ];
    assert_eq!(str_field(&fields, &"title".to_string()), "A title");
    assert_eq!(str_field(&fields, &"year".to_string()), "");
    assert_eq!(str_field(&fields, &"text".to_string()), "");
    assert_eq!(corpus_body(&"T".to_string(), &"body".to_string()), "T. body");
    assert_eq!(corpus_body(&String::new(), &"body".to_string()), "body");
    assert_eq!(doc_u64(&[0, 0, 0, 0, 0, 0, 1, 2]), 258);
}
