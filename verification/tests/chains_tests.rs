use plot_digitizer::chains::{build_pixel_chains, thin_columns};

#[test]
fn no_pixels_no_chain() {
    assert!(build_pixel_chains(&[]).is_empty());
}

#[test]
fn one_or_two_pixels_are_one_chain() {
    assert_eq!(build_pixel_chains(&[(3, 4)]), vec![vec![(3, 4)]]);
    assert_eq!(build_pixel_chains(&[(9, 1), (3, 4)]), vec![vec![(9, 1), (3, 4)]]);
}

#[test]
fn columns_thin_to_their_middle_row() {
    let px = [(1, 9), (2, 3), (1, 5), (1, 7)];
    assert_eq!(thin_columns(&px), vec![(1, 7), (2, 3)]);
    // An even count takes the upper of the two middle rows.
    assert_eq!(thin_columns(&[(4, 8), (4, 3)]), vec![(4, 8)]);
}

#[test]
fn thinned_points_run_left_to_right_one_per_column() {
    let px = [(7, 1), (3, 2), (7, 9), (5, 5), (3, 8), (0, 0)];
    let t = thin_columns(&px);
    assert_eq!(t, vec![(0, 0), (3, 8), (5, 5), (7, 9)]);
    for k in 1..t.len() {
        assert!(t[k - 1].0 < t[k].0);
    }
}

#[test]
fn few_columns_give_thinned_chain() {
    let px = [(1, 9), (2, 3), (1, 5), (1, 7)];
    assert_eq!(build_pixel_chains(&px), vec![vec![(1, 7), (2, 3)]]);
}

#[test]
fn straight_line_is_one_chain() {
    let px: Vec<(u32, u32)> = (0..10).rev().map(|x| (x, 2 * x)).collect();
    let expected: Vec<(u32, u32)> = (0..10).map(|x| (x, 2 * x)).collect();
    assert_eq!(build_pixel_chains(&px), vec![expected]);
}

#[test]
fn long_gap_splits_chains() {
    let mut px: Vec<(u32, u32)> = (0..5).map(|x| (x, 10)).collect();
    px.extend((200..205).map(|x| (x, 10)));
    let chains = build_pixel_chains(&px);
    assert_eq!(chains.len(), 2);
    assert_eq!(chains[0], (0..5).map(|x| (x, 10)).collect::<Vec<_>>());
    assert_eq!(chains[1], (200..205).map(|x| (x, 10)).collect::<Vec<_>>());
}

#[test]
fn step_of_exactly_one_hundred_keeps_chain() {
    let px = [(0, 0), (1, 0), (101, 0), (102, 0)];
    assert_eq!(build_pixel_chains(&px), vec![vec![(0, 0), (1, 0), (101, 0), (102, 0)]]);
}

#[test]
fn lone_point_after_gap_is_dropped() {
    let mut px: Vec<(u32, u32)> = (0..5).map(|x| (x, 0)).collect();
    px.push((300, 0));
    assert_eq!(build_pixel_chains(&px), vec![(0..5).map(|x| (x, 0)).collect::<Vec<_>>()]);
}

#[test]
fn all_points_isolated_fall_back_to_thinned_points() {
    let px = [(400, 0), (0, 0), (200, 0)];
    assert_eq!(build_pixel_chains(&px), vec![vec![(0, 0), (200, 0), (400, 0)]]);
}

#[test]
fn walk_goes_to_nearest_point() {
    // From (0,0), (2,0) is nearer than (1,5); from (2,0), (1,5) and (3,5) are equally near and
    // the one further left comes first.
    let px = [(0, 0), (2, 0), (1, 5), (3, 5)];
    let chains = build_pixel_chains(&px);
    assert_eq!(chains, vec![vec![(0, 0), (2, 0), (1, 5), (3, 5)]]);
}

#[test]
fn ties_go_to_the_leftmost_point() {
    let px = [(2, 1), (1, 2), (0, 0)];
    assert_eq!(build_pixel_chains(&px), vec![vec![(0, 0), (1, 2), (2, 1)]]);
}

#[test]
fn chains_use_each_thinned_point_at_most_once() {
    let mut px: Vec<(u32, u32)> = Vec::new();
    for x in 0..40u32 {
        px.push((x, (x * 7) % 13));
        px.push((x, (x * 3) % 11 + 20));
    }
    px.push((400, 5));
    px.push((401, 6));
    let thin = thin_columns(&px);
    let chains = build_pixel_chains(&px);
    let mut seen: Vec<(u32, u32)> = Vec::new();
    for chain in &chains {
        assert!(chain.len() >= 2);
        for p in chain {
            assert!(thin.contains(p));
            assert!(!seen.contains(p));
            seen.push(*p);
        }
        for k in 1..chain.len() {
            let dx = chain[k].0 as i64 - chain[k - 1].0 as i64;
            let dy = chain[k].1 as i64 - chain[k - 1].1 as i64;
            assert!(dx * dx + dy * dy <= 10000);
        }
    }
    assert_eq!(chains.len(), 2);
    assert_eq!(seen.len(), thin.len());
}

#[test]
fn chains_ignore_pixel_order() {
    let mut px: Vec<(u32, u32)> = Vec::new();
    for x in 0..30u32 {
        px.push((x, (x * 5) % 9));
        px.push((x, (x * 2) % 7 + 3));
        px.push((x, 1));
    }
    px.extend([(250, 4), (251, 4), (252, 5)]);
    let forward = build_pixel_chains(&px);
    let mut reversed = px.clone();
    reversed.reverse();
    assert_eq!(build_pixel_chains(&reversed), forward);
    let mut rotated = px.clone();
    rotated.rotate_left(17);
    assert_eq!(build_pixel_chains(&rotated), forward);
}
