use prisoner::memory::{InMemoryStore, Meme, Memory, MemoryStore};
use prisoner::Choice;

fn seen(store: &InMemoryStore) -> Vec<(String, Choice, Choice)> {
    store
        .history()
        .iter()
        .map(|meme| (meme.opp_tag.clone(), meme.player_choice, meme.opp_choice))
        .collect()
}

#[test]
fn a_new_memory_is_empty_and_starts_nice() {
    let store = InMemoryStore::new();
    assert!(store.history().is_empty());
    assert_eq!(store.len(), 0);
    assert_eq!(store.last_move(), Choice::COOPERATE);
    assert_eq!(store.betrayed_count(), 0);
    assert_eq!(store.betrayed(), 0);
}

#[test]
fn add_puts_the_newest_interaction_first() {
    let mut store = InMemoryStore::new();
    store.add("b", (Choice::COOPERATE, Choice::CHEAT));
    store.add("c", (Choice::CHEAT, Choice::COOPERATE));
    store.add("d", (Choice::CHEAT, Choice::CHEAT));
    assert_eq!(
        seen(&store),
        vec![
            ("d".to_string(), Choice::CHEAT, Choice::CHEAT),
            ("c".to_string(), Choice::CHEAT, Choice::COOPERATE),
            ("b".to_string(), Choice::COOPERATE, Choice::CHEAT),
        ]
    );
    assert_eq!(store.len(), 3);
}

#[test]
fn last_move_is_the_opponents_newest_choice() {
    let mut store = InMemoryStore::new();
    store.add("b", (Choice::COOPERATE, Choice::CHEAT));
    assert_eq!(store.last_move(), Choice::CHEAT);
    store.add("c", (Choice::CHEAT, Choice::COOPERATE));
    assert_eq!(store.last_move(), Choice::COOPERATE);
    store.add("b", (Choice::CHEAT, Choice::CHEAT));
    assert_eq!(store.last_move(), Choice::CHEAT);
}

#[test]
fn betrayals_count_the_opponents_cheats_only() {
    let mut store = InMemoryStore::new();
    store.add("b", (Choice::CHEAT, Choice::COOPERATE));
    assert_eq!(store.betrayed_count(), 0);
    store.add("b", (Choice::COOPERATE, Choice::CHEAT));
    assert_eq!(store.betrayed_count(), 1);
    store.add("c", (Choice::CHEAT, Choice::CHEAT));
    assert_eq!(store.betrayed_count(), 2);
    store.add("d", (Choice::COOPERATE, Choice::COOPERATE));
    assert_eq!(store.betrayed_count(), 2);
    assert_eq!(store.betrayed(), 2);
    assert!(store.betrayed_count() as usize <= store.len());
}

#[test]
fn a_copy_of_a_memory_holds_the_same_interactions() {
    let mut store = InMemoryStore::new();
    store.add("b", (Choice::COOPERATE, Choice::CHEAT));
    store.add("c", (Choice::CHEAT, Choice::COOPERATE));
    let copy = store.clone();
    store.add("d", (Choice::CHEAT, Choice::CHEAT));
    assert_eq!(
        seen(&copy),
        vec![
            ("c".to_string(), Choice::CHEAT, Choice::COOPERATE),
            ("b".to_string(), Choice::COOPERATE, Choice::CHEAT),
        ]
    );
    assert_eq!(copy.last_move(), Choice::COOPERATE);
    assert_eq!(store.len(), 3);
}

#[test]
fn memory_is_the_store_of_an_entity() {
    let mut memory: Memory = Memory::new();
    memory.add("x", (Choice::CHEAT, Choice::CHEAT));
    assert_eq!(memory.betrayed(), 1);
}

#[test]
fn a_meme_keeps_what_it_is_made_of() {
    let meme = Meme::new("q7".to_string(), Choice::CHEAT, Choice::COOPERATE);
    assert_eq!(meme.opp_tag, "q7");
    assert_eq!(meme.player_choice, Choice::CHEAT);
    assert_eq!(meme.opp_choice, Choice::COOPERATE);
    let copy = meme.clone();
    assert_eq!(copy.opp_tag, "q7");
    assert_eq!(copy.player_choice, Choice::CHEAT);
    assert_eq!(copy.opp_choice, Choice::COOPERATE);
}
