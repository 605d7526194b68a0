use prisoner::entity::{choose_move, find, find_mut, position, tags_are_unique};
use prisoner::entity::{Entity, Personality, Player, PERSONALITY_COUNT};
use prisoner::memory::{InMemoryStore, MemoryStore};
use prisoner::Choice;

fn agent(name: &str, personality: Personality, tag: &str) -> Entity {
    Entity::with_name(name.to_string(), personality, tag.to_string())
}

fn betrayed_times(times: usize) -> InMemoryStore {
    let mut store = InMemoryStore::new();
    for _ in 0..times {
        store.add("x", (Choice::COOPERATE, Choice::CHEAT));
    }
    store
}

#[test]
fn last_move_tracks_latest() {
    let mut e = Entity::new(Personality::CopyCat, "a".to_string());

    // First interaction: opponent cheats
    e.add_memory("b", (Choice::COOPERATE, Choice::CHEAT));
    assert_eq!(e.memory().last_move(), Choice::CHEAT);

    // Second interaction: opponent cooperates
    e.add_memory("c", (Choice::COOPERATE, Choice::COOPERATE));
    assert_eq!(e.memory().last_move(), Choice::COOPERATE);

    // CopyCat should mirror the last move
    assert_eq!(e.choose_move("c"), Choice::COOPERATE);
}

#[test]
fn a_new_entity_has_not_played() {
    let e = Entity::new(Personality::Vengeful, "k3".to_string());
    assert_eq!(e.tag(), "k3");
    assert_eq!(e.personality(), Personality::Vengeful);
    assert_eq!(e.current_score(), 0);
    assert!(e.memory().history().is_empty());
    assert!(e.get_memory().history().is_empty());
}

#[test]
fn with_name_keeps_the_name() {
    let e = agent("Ada", Personality::SlowLearner, "t1");
    assert_eq!(e.name(), "Ada");
    assert_eq!(e.tag(), "t1");
    assert_eq!(e.personality(), Personality::SlowLearner);
    assert_eq!(e.current_score(), 0);
}

#[test]
fn personalities_by_index() {
    assert_eq!(PERSONALITY_COUNT, 5);
    assert_eq!(Personality::from_index(0), Personality::AlwaysCooperate);
    assert_eq!(Personality::from_index(1), Personality::AlwaysCheat);
    assert_eq!(Personality::from_index(2), Personality::CopyCat);
    assert_eq!(Personality::from_index(3), Personality::Vengeful);
    assert_eq!(Personality::from_index(4), Personality::SlowLearner);
    assert_eq!(Personality::from_index(5), Personality::AlwaysCooperate);
    assert_eq!(Personality::from_index(usize::MAX), Personality::AlwaysCooperate);
}

#[test]
fn always_cooperate_and_always_cheat_ignore_memory() {
    for times in [0usize, 1, 2, 6, 10] {
        let store = betrayed_times(times);
        assert_eq!(choose_move(&Personality::AlwaysCooperate, &store, "x"), Choice::COOPERATE);
        assert_eq!(choose_move(&Personality::AlwaysCheat, &store, "x"), Choice::CHEAT);
    }
}

#[test]
fn copycat_mirrors_the_last_move_of_any_opponent() {
    let mut store = InMemoryStore::new();
    assert_eq!(choose_move(&Personality::CopyCat, &store, "b"), Choice::COOPERATE);
    store.add("b", (Choice::COOPERATE, Choice::CHEAT));
    assert_eq!(choose_move(&Personality::CopyCat, &store, "b"), Choice::CHEAT);
    // the memory is the agent's, not the pair's: what "b" did decides against "c" too
    assert_eq!(choose_move(&Personality::CopyCat, &store, "c"), Choice::CHEAT);
    store.add("c", (Choice::CHEAT, Choice::COOPERATE));
    assert_eq!(choose_move(&Personality::CopyCat, &store, "b"), Choice::COOPERATE);
}

#[test]
fn copycat_cheats_from_its_second_game_with_a_cheater() {
    let mut copycat = agent("Cat", Personality::CopyCat, "c");
    let cheater = agent("Max", Personality::AlwaysCheat, "m");
    let mut chosen: Vec<Choice> = Vec::new();
    for _ in 0..4 {
        let mine = copycat.choose_move(cheater.tag());
        let theirs = cheater.choose_move(copycat.tag());
        copycat.add_memory(cheater.tag(), (mine, theirs));
        chosen.push(mine);
    }
    assert_eq!(chosen, vec![Choice::COOPERATE, Choice::CHEAT, Choice::CHEAT, Choice::CHEAT]);
}

#[test]
fn vengeful_cheats_after_more_than_one_betrayal() {
    assert_eq!(choose_move(&Personality::Vengeful, &betrayed_times(0), "x"), Choice::COOPERATE);
    assert_eq!(choose_move(&Personality::Vengeful, &betrayed_times(1), "x"), Choice::COOPERATE);
    assert_eq!(choose_move(&Personality::Vengeful, &betrayed_times(2), "x"), Choice::CHEAT);
    assert_eq!(choose_move(&Personality::Vengeful, &betrayed_times(3), "x"), Choice::CHEAT);
}

#[test]
fn vengeful_never_forgives() {
    let mut e = agent("Vera", Personality::Vengeful, "v");
    e.add_memory("x", (Choice::COOPERATE, Choice::CHEAT));
    assert_eq!(e.choose_move("x"), Choice::COOPERATE);
    e.add_memory("x", (Choice::COOPERATE, Choice::CHEAT));
    assert_eq!(e.choose_move("x"), Choice::CHEAT);
    for _ in 0..10 {
        e.add_memory("x", (Choice::CHEAT, Choice::COOPERATE));
        assert_eq!(e.choose_move("x"), Choice::CHEAT);
        assert_eq!(e.choose_move("y"), Choice::CHEAT);
    }
}

#[test]
fn slow_learner_cheats_after_more_than_five_betrayals() {
    assert_eq!(choose_move(&Personality::SlowLearner, &betrayed_times(0), "x"), Choice::COOPERATE);
    assert_eq!(choose_move(&Personality::SlowLearner, &betrayed_times(5), "x"), Choice::COOPERATE);
    assert_eq!(choose_move(&Personality::SlowLearner, &betrayed_times(6), "x"), Choice::CHEAT);
    assert_eq!(choose_move(&Personality::SlowLearner, &betrayed_times(7), "x"), Choice::CHEAT);
}

#[test]
fn add_memory_scores_the_whole_history() {
    let mut e = agent("Sam", Personality::AlwaysCooperate, "s");
    e.add_memory("x", (Choice::COOPERATE, Choice::COOPERATE));
    assert_eq!(e.current_score(), 2);
    e.add_memory("y", (Choice::COOPERATE, Choice::CHEAT));
    assert_eq!(e.current_score(), 1);
    e.add_memory("z", (Choice::CHEAT, Choice::COOPERATE));
    assert_eq!(e.current_score(), 4);
    e.add_memory("z", (Choice::CHEAT, Choice::CHEAT));
    assert_eq!(e.current_score(), 4);
    let tags: Vec<&str> = e.memory().history().iter().map(|meme| meme.opp_tag.as_str()).collect();
    assert_eq!(tags, vec!["z", "z", "y", "x"]);
}

#[test]
fn scoring_twice_gives_the_same_score() {
    let mut e = agent("Sam", Personality::AlwaysCheat, "s");
    assert_eq!(e.score(), 0);
    assert_eq!(e.score(), 0);
    e.add_memory("x", (Choice::CHEAT, Choice::COOPERATE));
    e.add_memory("y", (Choice::CHEAT, Choice::CHEAT));
    e.add_memory("z", (Choice::CHEAT, Choice::COOPERATE));
    let first: i32 = e.score();
    let second: i32 = e.score();
    assert_eq!(first, 6);
    assert_eq!(second, 6);
    assert_eq!(e.current_score(), 6);
    assert_eq!(e.memory().history().len(), 3);
    assert_eq!(e.memory().last_move(), Choice::COOPERATE);
}

#[test]
fn a_copy_of_an_entity_is_the_same_agent() {
    let mut e = agent("Eve", Personality::CopyCat, "e");
    e.add_memory("x", (Choice::COOPERATE, Choice::CHEAT));
    let copy = e.clone();
    assert_eq!(copy.name(), "Eve");
    assert_eq!(copy.tag(), "e");
    assert_eq!(copy.personality(), Personality::CopyCat);
    assert_eq!(copy.current_score(), -1);
    assert_eq!(copy.memory().history().len(), 1);
    assert_eq!(copy.choose_move("x"), Choice::CHEAT);
}

#[test]
fn find_looks_players_up_by_tag() {
    let players = vec![
        agent("Ann", Personality::AlwaysCooperate, "a"),
        agent("Bob", Personality::AlwaysCheat, "b"),
        agent("Cy", Personality::CopyCat, "c"),
    ];
    assert_eq!(find("b", &players).map(|p| p.name()), Some("Bob"));
    assert_eq!(find("c", &players).map(|p| p.name()), Some("Cy"));
    assert_eq!(position("a", &players), Some(0));
    assert_eq!(position("c", &players), Some(2));
}

#[test]
fn a_missing_tag_is_not_found() {
    let mut players = vec![
        agent("Ann", Personality::AlwaysCooperate, "a"),
        agent("Bob", Personality::AlwaysCheat, "b"),
    ];
    assert!(find("z", &players).is_none());
    assert!(find("", &players).is_none());
    assert!(find("A", &players).is_none());
    assert_eq!(position("ab", &players), None);
    assert!(find_mut("z", &mut players).is_none());
    let nobody: Vec<Entity> = Vec::new();
    assert!(find("a", &nobody).is_none());
}

#[test]
fn find_takes_the_first_of_two_players_with_one_tag() {
    let players = vec![
        agent("Ann", Personality::AlwaysCooperate, "a"),
        agent("Bob", Personality::AlwaysCheat, "b"),
        agent("Ben", Personality::CopyCat, "b"),
    ];
    assert_eq!(find("b", &players).map(|p| p.name()), Some("Bob"));
    assert_eq!(position("b", &players), Some(1));
}

#[test]
fn find_mut_changes_the_player_found_and_no_other() {
    let mut players = vec![
        agent("Ann", Personality::AlwaysCooperate, "a"),
        agent("Bob", Personality::AlwaysCheat, "b"),
        agent("Cy", Personality::CopyCat, "c"),
    ];
    find_mut("b", &mut players).unwrap().add_memory("a", (Choice::CHEAT, Choice::COOPERATE));
    assert_eq!(players[0].current_score(), 0);
    assert_eq!(players[1].current_score(), 3);
    assert_eq!(players[2].current_score(), 0);
    assert_eq!(players[1].memory().history().len(), 1);
    assert!(players[0].memory().history().is_empty());
    assert!(players[2].memory().history().is_empty());
}

#[test]
fn unique_tags_are_told_from_shared_ones() {
    let mut players = vec![
        agent("Ann", Personality::AlwaysCooperate, "a"),
        agent("Bob", Personality::AlwaysCheat, "b"),
        agent("Cy", Personality::CopyCat, "c"),
    ];
    assert!(tags_are_unique(&players));
    players.push(agent("Al", Personality::Vengeful, "a"));
    assert!(!tags_are_unique(&players));
    let nobody: Vec<Entity> = Vec::new();
    assert!(tags_are_unique(&nobody));
    assert!(tags_are_unique(&players[..1]));
}
