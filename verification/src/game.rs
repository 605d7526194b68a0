//! The round scheduler: it makes a population and plays it, one pass or many.
//!
//! One pass is a round-robin over the schedule of [`crate::schedule`]. Agents
//! are paired by their places in the population, so a pairing can neither miss
//! an agent nor pit an agent against itself. [`round_robin`] is what one pass
//! makes of a population, [`tournament`] what several passes make of it, and
//! [`game`] what [`play_game`] makes of it for a given number of rounds.
use vstd::prelude::*;
use crate::entity::{has_unique_tags, is_first_tagged, score_of, views};
use crate::entity::{Entity, EntityView, Personality, Player, PERSONALITY_COUNT};
use crate::memory::MAX_HISTORY;
use crate::schedule::{games_played, opponent, pairings, pairings_before, pairings_until};
use crate::schedule::{lemma_pairings, lemma_pairings_until};
use crate::source::{block_id_text, draw_below, draw_u64, encode_id};
use crate::Choice;

verus! {

/// The population after the agents at places `first` and `second` have played
/// each other. Both choose from what they remembered before this game; then
/// each records the game under the other's tag, and is scored anew.
pub open spec fn play_pair(population: Seq<EntityView>, first: int, second: int) -> Seq<
    EntityView,
> {
    let one = population[first];
    let two = population[second];
    let one_chose = one.decision();
    let two_chose = two.decision();
    population.update(first, one.remembered(two.tag, one_chose, two_chose)).update(
        second,
        two.remembered(one.tag, two_chose, one_chose),
    )
}

/// The population after the games of `schedule` have been played one after
/// another, each on the population that the games before it left.
pub open spec fn play_all(population: Seq<EntityView>, schedule: Seq<(int, int)>) -> Seq<
    EntityView,
>
    decreases schedule.len(),
{
    if schedule.len() == 0 {
        population
    } else {
        play_pair(play_all(population, schedule.drop_last()), schedule.last().0, schedule.last().1)
    }
}

/// The population after one pass.
pub open spec fn round_robin(population: Seq<EntityView>) -> Seq<EntityView> {
    play_all(population, pairings(population.len()))
}

/// The population after `rounds` passes, each played on what the pass before
/// it left.
pub open spec fn tournament(population: Seq<EntityView>, rounds: nat) -> Seq<EntityView>
    decreases rounds,
{
    if rounds == 0 {
        population
    } else {
        round_robin(tournament(population, (rounds - 1) as nat))
    }
}

/// The number of passes that a game of `rounds` rounds plays: one pass for one
/// round or fewer, and `rounds` passes otherwise.
pub open spec fn passes(rounds: int) -> nat {
    if rounds <= 1 {
        1
    } else {
        rounds as nat
    }
}

/// How many a signed count asks for: none, where it is below zero.
pub open spec fn count_of(number: int) -> nat {
    if number > 0 {
        number as nat
    } else {
        0
    }
}

/// The population after a game of `rounds` rounds.
pub open spec fn game(population: Seq<EntityView>, rounds: int) -> Seq<EntityView> {
    tournament(population, passes(rounds))
}

/// Whether every memory of `population` can take what `rounds` passes add to it.
pub open spec fn has_room(population: Seq<EntityView>, rounds: nat) -> bool {
    forall|place: int|
        0 <= place < population.len() ==> (#[trigger] population[place]).history.len() + rounds
            * (population.len() - 1) <= MAX_HISTORY
}

/// The schedule of a pass by tags: for each game, the tags of the two agents
/// that play it.
pub open spec fn tag_pairs(population: Seq<EntityView>) -> Seq<(Seq<char>, Seq<char>)> {
    pairings(population.len()).map_values(
        |pair: (int, int)| (population[pair.0].tag, population[pair.1].tag),
    )
}

/// The views of a list of pairs of tags.
pub open spec fn pair_views(pairs: Seq<(String, String)>) -> Seq<(Seq<char>, Seq<char>)> {
    pairs.map_values(|pair: (String, String)| (pair.0@, pair.1@))
}

/// The seed from which tags are encoded.
pub const TAG_SEED: u128 = 106;

/// The least number of characters in a tag.
pub const TAG_LENGTH: u8 = 3;

/// The number that stands `steps` after `start`, going round to zero after the
/// greatest number.
pub open spec fn id_after(start: u64, steps: int) -> u64 {
    ((start + steps) % 0x1_0000_0000_0000_0000) as u64
}

/// Whether the agents of `population` have the tags of consecutive numbers,
/// the first agent that of `start`.
pub open spec fn is_tagged_from(population: Seq<EntityView>, start: u64) -> bool {
    forall|place: int|
        0 <= place < population.len() ==> (#[trigger] population[place]).tag == block_id_text(
            TAG_SEED,
            TAG_LENGTH,
            id_after(start, place),
        )
}

/// The tag that stands for `value`: a short run of letters and digits, always
/// the same for the same number and never the same for two numbers.
pub fn tag_for(value: u64) -> (tag: String)
    ensures
        tag@ == block_id_text(TAG_SEED, TAG_LENGTH, value),
        forall|other: u64|
            other != value ==> #[trigger] block_id_text(TAG_SEED, TAG_LENGTH, other) != tag@,
{
    encode_id(TAG_SEED, TAG_LENGTH, value)
}

/// make_players will assemble a Vector of basic entities using fake data
/// and a random distribution of personalities
///
/// Personalities and names are drawn at random, and nothing is promised of
/// them. Tags stand for consecutive numbers, the first of them drawn at
/// random, so that no two players of the population share a tag.
pub fn make_players(num: i32) -> (players: Vec<Entity>)
    ensures
        players@.len() == count_of(num as int),
        forall|place: int| 0 <= place < players@.len() ==> (#[trigger] players@[place])@.is_fresh(),
        exists|start: u64| is_tagged_from(views(players@), start),
        has_unique_tags(views(players@)),
{
    let mut player_gen: Vec<Entity> = Vec::new();
    let mut rng = rand::thread_rng();
    let start: u64 = draw_u64(&mut rng);
    let mut made: i32 = 0;
    while made < num
        invariant
            0 <= made <= count_of(num as int),
            player_gen@.len() == made,
            forall|place: int|
                0 <= place < player_gen@.len() ==> (#[trigger] player_gen@[place])@.is_fresh(),
            is_tagged_from(views(player_gen@), start),
            has_unique_tags(views(player_gen@)),
        decreases num - made,
    {
        let ghost before = views(player_gen@);
        let id: u64 = ((start as u128 + made as u128) % 0x1_0000_0000_0000_0000) as u64;
        let personality = Personality::from_index(draw_below(&mut rng, PERSONALITY_COUNT));
        let tmp = Entity::new(personality, tag_for(id));
        player_gen.push(tmp);
        proof {
            let after = views(player_gen@);
            assert(id == id_after(start, made as int));
            assert forall|place: int| 0 <= place < after.len() implies (#[trigger] after[place]).tag
                == block_id_text(TAG_SEED, TAG_LENGTH, id_after(start, place)) by {
                if place < made {
                    assert(after[place] == before[place]);
                }
            }
            assert forall|i: int, j: int| 0 <= i < j < after.len() implies (#[trigger] after[i]).tag
                != (#[trigger] after[j]).tag by {
                assert(after[i] == before[i]);
                if j < made {
                    assert(after[j] == before[j]);
                } else {
                    assert(id_after(start, i) != id);
                }
            }
        }
        made = made + 1;
    }
    player_gen
}

/// Tests whether every memory in the population can take what a game of
/// `rounds` rounds adds to it, which is what [`play_game`] asks for.
pub fn can_play<P: Player>(players: &[P], rounds: i32) -> (ok: bool)
    ensures
        ok == has_room(views(players@), passes(rounds as int)),
{
    let n: usize = players.len();
    if n == 0 {
        return true;
    }
    let count: u128 = if rounds <= 1 {
        1
    } else {
        rounds as u128
    };
    let others: u128 = (n - 1) as u128;
    assert(count * others <= 0x8000_0000 * 0x1_0000_0000_0000_0000) by (nonlinear_arith)
        requires
            count <= 0x8000_0000,
            others < 0x1_0000_0000_0000_0000,
    ;
    let added: u128 = count * others;
    let ghost population = views(players@);
    let mut i: usize = 0;
    while i < n
        invariant
            n == players@.len(),
            population == views(players@),
            i <= n,
            count == passes(rounds as int),
            added == count * (n - 1),
            added <= 0x8000_0000_0000_0000_0000_0000,
            forall|place: int|
                0 <= place < i ==> (#[trigger] population[place]).history.len() + added
                    <= MAX_HISTORY,
        decreases n - i,
    {
        let held: usize = players[i].memory().len();
        if held as u128 + added > MAX_HISTORY as u128 {
            assert(population[i as int].history.len() + passes(rounds as int) * (population.len()
                - 1) > MAX_HISTORY);
            return false;
        }
        i = i + 1;
    }
    true
}

/// play_game determines what kind of game to play, 0 or 1 will be a straight
/// round robin, anything more will be round robin with multiple rounds
pub fn play_game<P: Player>(players: &mut [P], rounds: i32)
    requires
        has_room(views(old(players)@), passes(rounds as int)),
    ensures
        final(players)@.len() == old(players)@.len(),
        views(final(players)@) == game(views(old(players)@), rounds as int),
{
    if rounds <= 1 {
        proof {
            reveal_with_fuel(tournament, 2);
        }
        play_round_robin(players)
    } else {
        play_tournament(players, rounds)
    }
}

/// A tournament is a round robin played `rounds` times over, each pass on the
/// memories that the pass before it left.
pub fn play_tournament<P: Player>(players: &mut [P], rounds: i32)
    requires
        has_room(views(old(players)@), count_of(rounds as int)),
    ensures
        final(players)@.len() == old(players)@.len(),
        views(final(players)@) == tournament(views(old(players)@), count_of(rounds as int)),
{
    let ghost start = views(players@);
    let mut round: i32 = 0;
    while round < rounds
        invariant
            0 <= round <= count_of(rounds as int),
            players@.len() == start.len(),
            views(players@) == tournament(start, round as nat),
            has_room(views(players@), count_of(rounds - round)),
        decreases rounds - round,
    {
        proof {
            lemma_room_after_pass(views(players@), count_of(rounds - round));
        }
        play_round_robin(players);
        round = round + 1;
    }
}

/// One pass: every player meets every other player once, in the order of
/// [`pairings`]. In each game both choose before either learns what the other
/// chose; then both remember the game, and both are scored anew.
pub fn play_round_robin<P: Player>(players: &mut [P])
    requires
        has_room(views(old(players)@), 1),
    ensures
        final(players)@.len() == old(players)@.len(),
        views(final(players)@) == round_robin(views(old(players)@)),
{
    let n: usize = players.len();
    let ghost start = views(players@);
    let ghost m = n as int;
    let mut i: usize = 0;
    proof {
        assert(pairings_before(m, 0) =~= Seq::<(int, int)>::empty());
    }
    while i < n
        invariant
            n == players@.len(),
            m == n,
            start.len() == n,
            i <= n,
            has_room(start, 1),
            views(players@) == play_all(start, pairings_before(m, i as int)),
        decreases n - i,
    {
        let mut j: usize = i + 1;
        proof {
            lemma_pairings_until(m, i as int, 0);
        }
        while j < n
            invariant
                n == players@.len(),
                m == n,
                start.len() == n,
                i < j <= n,
                has_room(start, 1),
                views(players@) == play_all(start, pairings_until(m, i as int, j - i - 1)),
            decreases n - j,
        {
            let ghost done = j - i - 1;
            let ghost before = views(players@);
            proof {
                lemma_pass_so_far(start, i as int, done);
                lemma_pairings_until(m, i as int, done);
                lemma_play_one_more(start, pairings_until(m, i as int, done), (i as int, j as int));
                assert(before[i as int].history.len() < MAX_HISTORY);
                assert(before[j as int].history.len() < MAX_HISTORY);
            }
            let tag_one: String = players[i].tag().to_owned();
            let tag_two: String = players[j].tag().to_owned();
            let c1: Choice = players[i].choose_move(tag_two.as_str());
            let c2: Choice = players[j].choose_move(tag_one.as_str());
            players[i].add_memory(tag_two.as_str(), (c1, c2));
            players[j].add_memory(tag_one.as_str(), (c2, c1));
            proof {
                assert(views(players@) =~= play_pair(before, i as int, j as int));
            }
            j = j + 1;
        }
        proof {
            lemma_pairings_until(m, i as int, n - 1 - i);
        }
        i = i + 1;
    }
}

/// set_rounds takes a slice of players and produces the order they will compete
/// against each other, as pairs of tags.
pub fn set_rounds<P: Player>(players: &[P]) -> (round_list: Vec<(String, String)>)
    ensures
        pair_views(round_list@) == tag_pairs(views(players@)),
        round_list@.len() * 2 == players@.len() * (players@.len() - 1),
{
    let n: usize = players.len();
    let ghost m = n as int;
    let ghost population = views(players@);
    let ghost tags = |pair: (int, int)| (population[pair.0].tag, population[pair.1].tag);
    let mut round_list: Vec<(String, String)> = Vec::new();
    let mut i: usize = 0;
    proof {
        assert(pairings_before(m, 0) =~= Seq::<(int, int)>::empty());
        assert(pair_views(round_list@) =~= pairings_before(m, 0).map_values(tags));
    }
    while i < n
        invariant
            n == players@.len(),
            m == n,
            population == views(players@),
            tags == |pair: (int, int)| (population[pair.0].tag, population[pair.1].tag),
            i <= n,
            pair_views(round_list@) == pairings_before(m, i as int).map_values(tags),
        decreases n - i,
    {
        let mut j: usize = i + 1;
        proof {
            lemma_pairings_until(m, i as int, 0);
        }
        while j < n
            invariant
                n == players@.len(),
                m == n,
                population == views(players@),
                tags == |pair: (int, int)| (population[pair.0].tag, population[pair.1].tag),
                i < j <= n,
                pair_views(round_list@) == pairings_until(m, i as int, j - i - 1).map_values(tags),
            decreases n - j,
        {
            let ghost before = round_list@;
            let ghost games = pairings_until(m, i as int, j - i - 1);
            proof {
                lemma_pairings_until(m, i as int, j - i - 1);
            }
            round_list.push((players[i].tag().to_owned(), players[j].tag().to_owned()));
            proof {
                let more = games.push((i as int, j as int));
                assert(before.len() == pair_views(before).len());
                assert(games.len() == games.map_values(tags).len());
                assert(population[i as int] == players@[i as int]@);
                assert(population[j as int] == players@[j as int]@);
                assert forall|k: int| 0 <= k < more.len() implies pair_views(round_list@)[k]
                    == more.map_values(tags)[k] by {
                    if k < games.len() {
                        assert(pair_views(before)[k] == games.map_values(tags)[k]);
                    }
                }
                assert(pair_views(round_list@) =~= more.map_values(tags));
            }
            j = j + 1;
        }
        proof {
            lemma_pairings_until(m, i as int, n - 1 - i);
        }
        i = i + 1;
    }
    proof {
        lemma_pairings(n as nat);
        assert(round_list@.len() == pair_views(round_list@).len());
    }
    round_list
}

/// Playing a schedule and then one more game is playing the schedule with that
/// game added at its end.
pub proof fn lemma_play_one_more(population: Seq<EntityView>, schedule: Seq<(int, int)>, next: (
    int,
    int,
))
    ensures
        play_all(population, schedule.push(next)) == play_pair(
            play_all(population, schedule),
            next.0,
            next.1,
        ),
{
    assert(schedule.push(next).drop_last() =~= schedule);
}

/// What a pass has done to each agent at any point on its way. No agent has
/// come or gone, and none has changed its tag, its name or its personality.
/// Each has recorded exactly the games it has played so far, in front of what
/// it remembered before the pass, and its `turn`-th game of the pass is on
/// record under the tag of the agent at [`opponent`]`(place, turn)`.
pub proof fn lemma_pass_so_far(population: Seq<EntityView>, row: int, done: int)
    requires
        0 <= row < population.len(),
        0 <= done <= population.len() - 1 - row,
    ensures
        ({
            let n = population.len() as int;
            let now = play_all(population, pairings_until(n, row, done));
            &&& now.len() == n
            &&& forall|place: int|
                #![trigger now[place]]
                0 <= place < n ==> {
                    let played = games_played(n, row, done, place);
                    &&& now[place].tag == population[place].tag
                    &&& now[place].name == population[place].name
                    &&& now[place].personality == population[place].personality
                    &&& 0 <= played <= n - 1
                    &&& now[place].history.len() == population[place].history.len() + played
                    &&& now[place].history.skip(played) == population[place].history
                    &&& played == 0 ==> now[place] == population[place]
                    &&& played > 0 ==> now[place].score == score_of(now[place].history)
                    &&& forall|turn: int|
                        #![trigger opponent(place, turn)]
                        0 <= turn < played ==> now[place].history[played - 1 - turn].opp_tag
                            == population[opponent(place, turn)].tag
                }
        }),
    decreases row, done,
{
    let n = population.len() as int;
    let now = play_all(population, pairings_until(n, row, done));
    if done == 0 && row == 0 {
        assert(pairings_until(n, 0, 0) =~= Seq::<(int, int)>::empty());
        assert forall|place: int| #![trigger now[place]] 0 <= place < n implies now[place].history.skip(
            0,
        ) == population[place].history by {
            assert(now[place].history.skip(0) =~= population[place].history);
        }
    } else if done == 0 {
        lemma_pairings_until(n, row, 0);
        lemma_pairings_until(n, row - 1, n - row);
        lemma_pass_so_far(population, row - 1, n - row);
        assert(pairings_until(n, row, 0) == pairings_until(n, row - 1, n - row));
        assert forall|place: int| 0 <= place < n implies games_played(n, row, 0, place)
            == games_played(n, row - 1, n - row, place) by {}
    } else {
        let second = row + done;
        lemma_pairings_until(n, row, done - 1);
        lemma_pass_so_far(population, row, done - 1);
        let before = play_all(population, pairings_until(n, row, done - 1));
        lemma_play_one_more(population, pairings_until(n, row, done - 1), (row, second));
        assert(now == play_pair(before, row, second));
        assert forall|place: int| #![trigger now[place]] 0 <= place < n implies {
            let played = games_played(n, row, done, place);
            &&& now[place].tag == population[place].tag
            &&& now[place].name == population[place].name
            &&& now[place].personality == population[place].personality
            &&& 0 <= played <= n - 1
            &&& now[place].history.len() == population[place].history.len() + played
            &&& now[place].history.skip(played) == population[place].history
            &&& played == 0 ==> now[place] == population[place]
            &&& played > 0 ==> now[place].score == score_of(now[place].history)
            &&& forall|turn: int|
                #![trigger opponent(place, turn)]
                0 <= turn < played ==> now[place].history[played - 1 - turn].opp_tag
                    == population[opponent(place, turn)].tag
        } by {
            let played = games_played(n, row, done, place);
            let earlier = games_played(n, row, done - 1, place);
            assert(before[place].history.skip(earlier) == population[place].history);
            if place == row || place == second {
                let other = if place == row {
                    second
                } else {
                    row
                };
                assert(played == earlier + 1);
                assert(now[place].history.skip(1) =~= before[place].history);
                assert(now[place].history.skip(played) =~= before[place].history.skip(earlier));
                assert(now[place].history[0].opp_tag == before[other].tag);
                assert(opponent(place, earlier) == other);
                assert forall|turn: int|
                    #![trigger opponent(place, turn)]
                    0 <= turn < played implies now[place].history[played - 1 - turn].opp_tag
                    == population[opponent(place, turn)].tag by {
                    if turn < earlier {
                        assert(now[place].history[played - 1 - turn]
                            == before[place].history[earlier - 1 - turn]);
                    }
                }
            } else {
                assert(now[place] == before[place]);
                assert(played == earlier);
            }
        }
    }
}

/// What one pass does to each agent. No agent comes or goes, and none changes
/// its tag, its name or its personality. Each records one game with every
/// other agent, `n - 1` in all, in front of what it remembered before, so that
/// memory only grows; and the games are on record in the order in which the
/// opponents stand, the agent's own place passed over, the latest game first.
pub proof fn lemma_round_robin(population: Seq<EntityView>)
    ensures
        round_robin(population).len() == population.len(),
        forall|place: int|
            #![trigger round_robin(population)[place]]
            0 <= place < population.len() ==> {
                let n = population.len() as int;
                let after = round_robin(population)[place];
                &&& after.tag == population[place].tag
                &&& after.name == population[place].name
                &&& after.personality == population[place].personality
                &&& after.history.len() == population[place].history.len() + n - 1
                &&& after.history.skip(n - 1) == population[place].history
                &&& n == 1 ==> after == population[place]
                &&& n > 1 ==> after.score == score_of(after.history)
                &&& forall|turn: int|
                    #![trigger opponent(place, turn)]
                    0 <= turn < n - 1 ==> after.history[n - 2 - turn].opp_tag
                        == population[opponent(place, turn)].tag
            },
{
    let n = population.len() as int;
    if n == 0 {
        assert(pairings_before(0, 0) =~= Seq::<(int, int)>::empty());
    } else {
        lemma_pairings_until(n, n - 1, 0);
        lemma_pass_so_far(population, n - 1, 0);
    }
}

/// A population with room for `rounds` passes has room for the first of them,
/// and after it for the rest.
pub proof fn lemma_room_after_pass(population: Seq<EntityView>, rounds: nat)
    requires
        has_room(population, rounds),
        rounds >= 1,
    ensures
        has_room(population, 1),
        has_room(round_robin(population), (rounds - 1) as nat),
{
    let n = population.len() as int;
    let after = round_robin(population);
    lemma_round_robin(population);
    assert(rounds * (n - 1) == (rounds - 1) * (n - 1) + (n - 1)) by (nonlinear_arith);
    assert(n >= 1 ==> (rounds - 1) * (n - 1) >= 0) by (nonlinear_arith)
        requires
            rounds >= 1,
    ;
    assert forall|place: int| 0 <= place < n implies (#[trigger] population[place]).history.len()
        + 1 * (n - 1) <= MAX_HISTORY by {
        assert(population[place].history.len() + rounds * (n - 1) <= MAX_HISTORY);
    }
    assert forall|place: int| 0 <= place < n implies (#[trigger] after[place]).history.len() + (
    rounds - 1) * (n - 1) <= MAX_HISTORY by {
        assert(population[place].history.len() + rounds * (n - 1) <= MAX_HISTORY);
    }
}

/// Where no two agents share a tag, the schedule by tags names the same games
/// as the schedule by places: looking up the two tags of a game finds the two
/// agents that play it, and no others.
pub proof fn lemma_tags_find_the_players(population: Seq<EntityView>, k: int)
    requires
        has_unique_tags(population),
        0 <= k < pairings(population.len()).len(),
    ensures
        tag_pairs(population).len() == pairings(population.len()).len(),
        is_first_tagged(population, tag_pairs(population)[k].0, pairings(population.len())[k].0),
        is_first_tagged(population, tag_pairs(population)[k].1, pairings(population.len())[k].1),
        tag_pairs(population)[k].0 != tag_pairs(population)[k].1,
{
    lemma_pairings(population.len());
    let pair = pairings(population.len())[k];
    assert(0 <= pair.0 < pair.1 < population.len());
    assert(population[pair.0].tag != population[pair.1].tag);
}

} // verus!
