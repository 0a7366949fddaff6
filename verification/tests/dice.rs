use mahjong::dice::Dice;

#[test]
fn dice_range() {
    for _ in 0..100 {
        let dice = Dice::new();
        let (a, b) = (dice.get(0), dice.get(1));
        assert!(1 <= a && a <= 6);
        assert!(1 <= b && b <= 6);
    }
}

#[test]
fn dice_sum_matches_faces() {
    for _ in 0..100 {
        let dice = Dice::new();
        assert_eq!(dice.sum(), dice.get(0) + dice.get(1));
        assert!(2 <= dice.sum() && dice.sum() <= 12);
    }
}

#[test]
fn dice_shuffle_keeps_range() {
    let mut dice = Dice::new();
    for _ in 0..20 {
        dice.shuffle();
        assert!(dice.raw() < 36);
    }
}
