use lazy_boone::score::{Expectedscore, Score};

#[test]
fn expected_scores_add_their_amounts() {
    let total = Expectedscore::new(55) + Expectedscore::new(-3);
    assert_eq!(total.s, 52);
    assert!(total == Expectedscore::new(52));
}

#[test]
fn expected_scores_compare_by_amount() {
    assert!(Expectedscore::new(5) > Expectedscore::new(4));
    assert!(Expectedscore::new(-1) < Expectedscore::new(0));
    assert!(!(Expectedscore::new(3) > Expectedscore::new(3)));
    assert_eq!(
        Expectedscore::new(3).partial_cmp(&Expectedscore::new(3)),
        Some(std::cmp::Ordering::Equal)
    );
}

#[test]
fn running_score_adds_and_subtracts() {
    let mut s = Score { s: 10 };
    s.add_assign(Score { s: 25 });
    assert_eq!(s.s, 35);
    s.sub_assign(Score { s: 40 });
    assert_eq!(s.s, -5);
    assert_eq!(Expectedscore::new(7).to_score().s, 7);
}
