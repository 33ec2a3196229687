use catan_cli::backend::round::budget::{capped_sum, pick_weighted};
use catan_cli::backend::setup::dice::{sum_u32, Dice};

#[test]
fn new_dice_have_not_been_thrown() {
    let dice = Dice::new(2, 6, 42);
    assert_eq!(dice.n_dice, 2);
    assert_eq!(dice.n_faces, 6);
    assert_eq!(dice.seed, 42);
    assert_eq!(dice.n_throws, 0);
    assert_eq!(dice.draw, None);
    assert!(dice.is_valid());
    assert!(!Dice::new(2, 0, 1).is_valid());
    assert!(!Dice::new(u32::MAX, 2, 1).is_valid());
    assert!(Dice::new(0, 6, 1).is_valid());
}

#[test]
fn throws_stay_in_range_and_move_the_seed() {
    let mut seen = [false; 13];
    for seed in 0u64..400 {
        let dice = Dice::new(2, 6, seed).throw();
        let sum = dice.draw.unwrap();
        assert!((2..=12).contains(&sum));
        seen[sum as usize] = true;
        assert_eq!(dice.seed, seed + 1);
        assert_eq!(dice.n_dice, 2);
        assert_eq!(dice.n_faces, 6);
        assert_eq!(dice.n_throws, 0);
    }
    for sum in 2..=12 {
        assert!(seen[sum]);
    }
}

#[test]
fn throws_repeat_for_equal_seeds() {
    for seed in [0u64, 1, 42, 4444, u64::MAX] {
        let first = Dice::new(3, 8, seed).throw();
        let second = Dice::new(3, 8, seed).throw();
        assert_eq!(first.draw, second.draw);
        assert_eq!(first.seed, second.seed);
    }
    assert_eq!(Dice::new(2, 6, u64::MAX).throw().seed, 0);
}

#[test]
fn dice_without_dice_or_with_one_face_are_certain() {
    assert_eq!(Dice::new(0, 6, 7).throw().draw, Some(0));
    assert_eq!(Dice::new(5, 1, 7).throw().draw, Some(5));
}

#[test]
fn sums_add_up() {
    assert_eq!(sum_u32(&vec![]), 0);
    assert_eq!(sum_u32(&vec![1, 2, 3, 4]), 10);
    assert_eq!(sum_u32(&vec![u32::MAX]), u32::MAX);
    assert_eq!(capped_sum(&vec![1, 2, 3, 4], 100), 10);
    assert_eq!(capped_sum(&vec![1, 2, 3, 4], 7), 7);
    assert_eq!(capped_sum(&vec![u32::MAX, u32::MAX], u32::MAX), u32::MAX);
    assert_eq!(capped_sum(&vec![], 5), 0);
}

#[test]
fn weighted_picks_follow_the_running_sum() {
    let weights = vec![5, 14, 2, 2, 2];
    assert_eq!(pick_weighted(&weights, 0), 0);
    assert_eq!(pick_weighted(&weights, 4), 0);
    assert_eq!(pick_weighted(&weights, 5), 1);
    assert_eq!(pick_weighted(&weights, 18), 1);
    assert_eq!(pick_weighted(&weights, 19), 2);
    assert_eq!(pick_weighted(&weights, 21), 3);
    assert_eq!(pick_weighted(&weights, 24), 4);
    let gaps = vec![0, 3, 0, 1];
    assert_eq!(pick_weighted(&gaps, 0), 1);
    assert_eq!(pick_weighted(&gaps, 2), 1);
    assert_eq!(pick_weighted(&gaps, 3), 3);
}
