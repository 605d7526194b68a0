use prisoner::entity::{Entity, Personality, Player};
use prisoner::memory::{InMemoryStore, Meme, MemoryStore};
use prisoner::text::decimal;
use prisoner::Choice;

#[test]
fn decimal_writes_numbers_as_text() {
    assert_eq!(decimal(0), "0");
    assert_eq!(decimal(7), "7");
    assert_eq!(decimal(10), "10");
    assert_eq!(decimal(105), "105");
    assert_eq!(decimal(-1), "-1");
    assert_eq!(decimal(-90), "-90");
    assert_eq!(decimal(i32::MAX), "2147483647");
    assert_eq!(decimal(i32::MIN), "-2147483648");
    for number in [-1000, -999, -11, -10, -9, 9, 11, 99, 100, 101, 12345, 1_000_000] {
        assert_eq!(decimal(number), format!("{}", number));
    }
}

#[test]
fn choices_by_name() {
    assert_eq!(Choice::CHEAT.to_text(), "CHEAT");
    assert_eq!(Choice::COOPERATE.to_text(), "COOPERATE");
    assert_eq!(Choice::CHEAT.to_text(), format!("{:?}", Choice::CHEAT));
    assert_eq!(Choice::COOPERATE.to_text(), format!("{:?}", Choice::COOPERATE));
}

#[test]
fn personalities_by_name() {
    assert_eq!(Personality::AlwaysCooperate.to_text(), "AlwaysCooperate");
    assert_eq!(Personality::AlwaysCheat.to_text(), "AlwaysCheat");
    assert_eq!(Personality::CopyCat.to_text(), "CopyCat");
    assert_eq!(Personality::Vengeful.to_text(), "Vengeful");
    assert_eq!(Personality::SlowLearner.to_text(), "SlowLearner");
    for index in 0..5 {
        let personality = Personality::from_index(index);
        assert_eq!(personality.to_text(), format!("{:?}", personality));
    }
}

#[test]
fn a_meme_as_text() {
    let meme = Meme::new("b".to_string(), Choice::COOPERATE, Choice::CHEAT);
    assert_eq!(meme.to_text(), "Player Choice: COOPERATE, Opponent () Choice: CHEAT");
}

#[test]
fn a_memory_as_text() {
    let mut store = InMemoryStore::new();
    assert_eq!(store.to_text(), "");
    store.add("b", (Choice::COOPERATE, Choice::CHEAT));
    store.add("c", (Choice::CHEAT, Choice::COOPERATE));
    assert_eq!(
        store.to_text(),
        "Player Choice: CHEAT, Opponent () Choice: COOPERATE\n\
         Player Choice: COOPERATE, Opponent () Choice: CHEAT\n"
    );
}

#[test]
fn an_entity_as_text() {
    let mut e = Entity::with_name("Ann".to_string(), Personality::CopyCat, "a1".to_string());
    assert_eq!(e.to_text(), "Ann");
    assert_eq!(e.full_info(), "Name: Ann\tScore: 0\tPersonality: CopyCat");
    e.add_memory("b", (Choice::COOPERATE, Choice::CHEAT));
    assert_eq!(e.full_info(), "Name: Ann\tScore: -1\tPersonality: CopyCat");
    for _ in 0..4 {
        e.add_memory("b", (Choice::CHEAT, Choice::COOPERATE));
    }
    assert_eq!(e.full_info(), "Name: Ann\tScore: 11\tPersonality: CopyCat");
    assert_eq!(e.to_text(), "Ann");
}
