use neo_replay::kernel::{build_round_tables, build_tone_tables, tone_level_of};

#[test]
fn round_tables_have_a_mask_for_each_diameter() {
    let t = build_round_tables();
    assert_eq!(t.len(), 31);
    assert!(t[0].is_empty());
    for d in 1..=30usize {
        assert_eq!(t[d].len(), d * d);
        assert!(t[d].iter().all(|&c| c == 0 || c == 1));
    }
}

#[test]
fn round_masks_are_circles_but_for_three_and_five() {
    let t = build_round_tables();
    for d in 1..=30usize {
        if d == 3 || d == 5 {
            continue;
        }
        for i in 0..d {
            for j in 0..d {
                let x = i as f64 + 0.5 - d as f64 / 2.0;
                let y = j as f64 + 0.5 - d as f64 / 2.0;
                let inside = x * x + y * y <= (d * d) as f64 / 4.0;
                assert_eq!(t[d][i * d + j] == 1, inside, "d {} cell {} {}", d, i, j);
            }
        }
    }
}

#[test]
fn round_mask_three_is_a_plus_of_five_cells() {
    let t = build_round_tables();
    assert_eq!(t[3], vec![0, 1, 0, 1, 1, 1, 0, 1, 0]);
    assert_eq!(t[3].iter().filter(|&&c| c == 1).count(), 5);
}

#[test]
fn round_mask_five_has_thirteen_cells() {
    let t = build_round_tables();
    assert_eq!(
        t[5],
        vec![0, 0, 1, 0, 0, 0, 1, 1, 1, 0, 1, 1, 1, 1, 1, 0, 1, 1, 1, 0, 0, 0, 1, 0, 0]
    );
    assert_eq!(t[5].iter().filter(|&&c| c == 1).count(), 13);
}

#[test]
fn round_masks_one_two_and_four() {
    let t = build_round_tables();
    assert_eq!(t[1], vec![1]);
    assert_eq!(t[2], vec![1, 1, 1, 1]);
    assert_eq!(t[4], vec![0, 1, 1, 0, 1, 1, 1, 1, 1, 1, 1, 1, 0, 1, 1, 0]);
}

#[test]
fn tone_masks_follow_the_dither_thresholds() {
    let base = [0u8, 8, 2, 10, 12, 4, 14, 6, 3, 11, 1, 9, 15, 7, 13, 5];
    let t = build_tone_tables();
    assert_eq!(t.len(), 16);
    for k in 0..16usize {
        assert_eq!(t[k].len(), 16);
        for j in 0..16usize {
            assert_eq!(t[k][j] == 1, k as u8 >= base[j]);
        }
        assert_eq!(t[k].iter().filter(|&&c| c == 1).count(), k + 1);
    }
}

#[test]
fn tone_level_is_the_first_threshold_above_the_alpha() {
    let table = [23u8, 47, 69, 92, 114, 114, 114, 138, 161, 184, 184, 207, 230, 230, 253];
    for alpha in 0..=255u8 {
        let want = table.iter().position(|&t| alpha < t).unwrap_or(15);
        assert_eq!(tone_level_of(alpha), want, "alpha {}", alpha);
    }
    assert_eq!(tone_level_of(0), 0);
    assert_eq!(tone_level_of(22), 0);
    assert_eq!(tone_level_of(23), 1);
    assert_eq!(tone_level_of(113), 4);
    assert_eq!(tone_level_of(114), 7);
    assert_eq!(tone_level_of(252), 14);
    assert_eq!(tone_level_of(253), 15);
    assert_eq!(tone_level_of(255), 15);
}
