use colorguess::{build_all_configs, count_outcomes, list_scores, score_index, Pegs, Score, N_SCORE};

#[test]
fn test_score_index() {
    assert_eq!(score_index(&Score { b: 2, w: 1 }), 8);
}

#[test]
fn score_index_follows_triangle_layout() {
    assert_eq!(score_index(&Score { b: 0, w: 4 }), 0);
    assert_eq!(score_index(&Score { b: 0, w: 3 }), 1);
    assert_eq!(score_index(&Score { b: 1, w: 3 }), 2);
    assert_eq!(score_index(&Score { b: 0, w: 0 }), 10);
    assert_eq!(score_index(&Score { b: 4, w: 0 }), 14);
    assert_eq!(score_index(&Score { b: 3, w: 1 }), 9);
}

#[test]
fn score_index_is_injective() {
    let mut seen = [false; 15];
    for b in 0..=4u8 {
        for w in 0..=(4 - b) {
            let i = score_index(&Score { b, w });
            assert!(i < N_SCORE);
            assert!(!seen[i]);
            seen[i] = true;
        }
    }
    assert!(seen.iter().all(|x| *x));
}

#[test]
fn list_scores_orders_by_total_then_white() {
    let l = list_scores();
    assert_eq!(l.len(), 15);
    assert_eq!(l[0], Score { b: 0, w: 0 });
    assert_eq!(l[1], Score { b: 1, w: 0 });
    assert_eq!(l[2], Score { b: 0, w: 1 });
    assert_eq!(l[3], Score { b: 2, w: 0 });
    assert_eq!(l[14], Score { b: 0, w: 4 });
    assert_eq!(l[10], Score { b: 4, w: 0 });
}

#[test]
fn outcomes_sum_to_candidate_count() {
    let all = build_all_configs();
    let g = Pegs::new(&[1, 2, 3, 4]).unwrap();
    let h = count_outcomes(&g, &all);
    let total: u32 = h.iter().map(|x| *x as u32).sum();
    assert_eq!(total, 4096);
    assert_eq!(h[score_index(&Score { b: 4, w: 0 })], 1);
    assert_eq!(h[score_index(&Score { b: 3, w: 1 })], 0);
    assert_eq!(h[score_index(&Score { b: 0, w: 0 })], 256);
    assert_eq!(h[score_index(&Score { b: 0, w: 4 })], 9);

    let some = &all[100..130];
    let h = count_outcomes(&g, some);
    let total: u32 = h.iter().map(|x| *x as u32).sum();
    assert_eq!(total, 30);
}

#[test]
fn outcomes_of_no_candidates_are_empty() {
    let g = Pegs::new(&[0, 0, 0, 0]).unwrap();
    assert_eq!(count_outcomes(&g, &[]), [0u16; 15]);
}

#[test]
fn universe_has_every_code_once_in_order() {
    let all = build_all_configs();
    assert_eq!(all.len(), 4096);
    let mut seen = vec![false; 4096];
    for p in &all {
        let v = p.values();
        let k = ((v[0] as usize * 8 + v[1] as usize) * 8 + v[2] as usize) * 8 + v[3] as usize;
        assert!(!seen[k]);
        seen[k] = true;
    }
    assert_eq!(all[0].values(), &[0, 0, 0, 0]);
    assert_eq!(all[1].values(), &[0, 0, 0, 1]);
    assert_eq!(all[8].values(), &[0, 0, 1, 0]);
    assert_eq!(all[512].values(), &[1, 0, 0, 0]);
    assert_eq!(all[4095].values(), &[7, 7, 7, 7]);
}
