use prisoner::{determine, Choice, Outcome};

#[test]
fn determine_resolves_every_pair_of_choices() {
    assert_eq!(determine(Choice::COOPERATE, Choice::COOPERATE), (Outcome::REWARD, Outcome::REWARD));
    assert_eq!(determine(Choice::CHEAT, Choice::CHEAT), (Outcome::PUNISH, Outcome::PUNISH));
    assert_eq!(determine(Choice::COOPERATE, Choice::CHEAT), (Outcome::SUCKER, Outcome::TEMPTATION));
    assert_eq!(determine(Choice::CHEAT, Choice::COOPERATE), (Outcome::TEMPTATION, Outcome::SUCKER));
}

#[test]
fn determine_swaps_outcomes_with_choices() {
    let choices = [Choice::CHEAT, Choice::COOPERATE];
    for a in choices {
        for b in choices {
            let (first, second) = determine(a, b);
            assert_eq!(determine(b, a), (second, first));
        }
    }
}

#[test]
fn positive_scores() {
    assert_eq!(Outcome::positive(&Outcome::PUNISH), 0);
    assert_eq!(Outcome::positive(&Outcome::SUCKER), -1);
    assert_eq!(Outcome::positive(&Outcome::REWARD), 2);
    assert_eq!(Outcome::positive(&Outcome::TEMPTATION), 3);
}

#[test]
fn traditional_scores() {
    assert_eq!(Outcome::traditional(&Outcome::PUNISH), -2);
    assert_eq!(Outcome::traditional(&Outcome::SUCKER), -3);
    assert_eq!(Outcome::traditional(&Outcome::REWARD), -1);
    assert_eq!(Outcome::traditional(&Outcome::TEMPTATION), 0);
}

#[test]
fn both_schemes_order_the_outcomes() {
    let ordered = [Outcome::TEMPTATION, Outcome::REWARD, Outcome::PUNISH, Outcome::SUCKER];
    for pair in ordered.windows(2) {
        assert!(Outcome::positive(&pair[0]) > Outcome::positive(&pair[1]));
        assert!(Outcome::traditional(&pair[0]) > Outcome::traditional(&pair[1]));
    }
}

#[test]
fn algebraic_symbols() {
    assert_eq!(Outcome::algebraic(&Outcome::PUNISH), 'P');
    assert_eq!(Outcome::algebraic(&Outcome::SUCKER), 'S');
    assert_eq!(Outcome::algebraic(&Outcome::REWARD), 'R');
    assert_eq!(Outcome::algebraic(&Outcome::TEMPTATION), 'T');
}
