//! What holds of every game: how passes add up to a tournament, what a
//! tournament leaves in memory, and how the simplest meetings end.
use vstd::prelude::*;
use crate::entity::{has_unique_tags, lemma_grudges_are_permanent, lemma_remembered_score};
use crate::entity::{score_of, EntityView, Personality};
use crate::game::{game, lemma_round_robin, passes};
use crate::game::{play_all, play_pair, round_robin, tournament};
use crate::schedule::{opponent, pairings, pairings_before, row_pairs};
use crate::memory::MemeView;
use crate::{Choice, Outcome};

verus! {

/// Playing `first` passes and then `then` more is playing `first + then`
/// passes: a tournament is its passes, one after another.
pub proof fn lemma_tournament_adds_up(population: Seq<EntityView>, first: nat, then: nat)
    ensures
        tournament(population, first + then) == tournament(tournament(population, first), then),
    decreases then,
{
    if then > 0 {
        lemma_tournament_adds_up(population, first, (then - 1) as nat);
        assert(first + then - 1 == first + (then - 1) as nat);
    }
}

/// A game of one round or fewer is one pass, and a game of more rounds is one
/// pass after a game of one round fewer.
pub proof fn lemma_game_is_passes(population: Seq<EntityView>, rounds: int)
    ensures
        rounds <= 1 ==> game(population, rounds) == round_robin(population),
        rounds > 1 ==> game(population, rounds) == round_robin(game(population, rounds - 1)),
{
    reveal_with_fuel(tournament, 2);
}

/// What the agent at `place` records during the pass that starts from
/// `population`, latest game first.
pub open spec fn pass_record(population: Seq<EntityView>, place: int) -> Seq<MemeView> {
    round_robin(population)[place].history.take(population.len() - 1)
}

/// What the agent at `place` records during the first `rounds` passes of a
/// tournament that starts from `population`: the record of the last of these
/// passes, in front of the record of the passes before it.
pub open spec fn tournament_record(population: Seq<EntityView>, rounds: nat, place: int) -> Seq<
    MemeView,
>
    decreases rounds,
{
    if rounds == 0 {
        Seq::empty()
    } else {
        pass_record(tournament(population, (rounds - 1) as nat), place) + tournament_record(
            population,
            (rounds - 1) as nat,
            place,
        )
    }
}

/// After any number of passes the population is made of the same agents, with
/// the same tags, names and personalities. The memory of each is the record of
/// all the passes played, pass by pass, in front of what it remembered at the
/// start; each pass has added one game with every other agent.
pub proof fn lemma_tournament_memory(population: Seq<EntityView>, rounds: nat, place: int)
    requires
        0 <= place < population.len(),
    ensures
        tournament(population, rounds).len() == population.len(),
        tournament(population, rounds)[place].tag == population[place].tag,
        tournament(population, rounds)[place].name == population[place].name,
        tournament(population, rounds)[place].personality == population[place].personality,
        tournament(population, rounds)[place].history == tournament_record(
            population,
            rounds,
            place,
        ) + population[place].history,
        tournament_record(population, rounds, place).len() == rounds * (population.len() - 1),
    decreases rounds,
{
    let n = population.len() as int;
    if rounds == 0 {
        assert(population[place].history =~= Seq::<MemeView>::empty() + population[place].history);
    } else {
        let earlier = tournament(population, (rounds - 1) as nat);
        lemma_tournament_memory(population, (rounds - 1) as nat, place);
        lemma_round_robin(earlier);
        let after = round_robin(earlier)[place];
        assert(after.history =~= after.history.take(n - 1) + after.history.skip(n - 1));
        assert(after.history =~= tournament_record(population, rounds, place)
            + population[place].history);
        assert(rounds * (n - 1) == (rounds - 1) * (n - 1) + (n - 1)) by (nonlinear_arith);
    }
}

/// Tags that differ at the start differ for the whole of a tournament: no
/// pass changes a tag.
pub proof fn lemma_tags_stay_unique(population: Seq<EntityView>, rounds: nat)
    requires
        has_unique_tags(population),
    ensures
        has_unique_tags(tournament(population, rounds)),
{
    let after = tournament(population, rounds);
    if population.len() == 0 {
        lemma_tournament_of_none(population, rounds);
    } else {
        lemma_tournament_memory(population, rounds, 0);
    }
    assert forall|i: int, j: int| 0 <= i < j < after.len() implies (#[trigger] after[i]).tag != (
    #[trigger] after[j]).tag by {
        lemma_tournament_memory(population, rounds, i);
        lemma_tournament_memory(population, rounds, j);
        assert(population[i].tag != population[j].tag);
    }
}

/// Where there is nobody, nothing is played.
pub proof fn lemma_tournament_of_none(population: Seq<EntityView>, rounds: nat)
    requires
        population.len() == 0,
    ensures
        tournament(population, rounds) == population,
    decreases rounds,
{
    if rounds > 0 {
        lemma_tournament_of_none(population, (rounds - 1) as nat);
        assert(pairings_before(0, 0) =~= Seq::<(int, int)>::empty());
    }
}

/// An agent that holds a grudge holds it to the end of the tournament: a
/// Vengeful agent or a SlowLearner that has come to cheat cheats after every
/// further pass, whatever the others do in it.
pub proof fn lemma_grudges_outlast_passes(population: Seq<EntityView>, rounds: nat, place: int)
    requires
        0 <= place < population.len(),
        population[place].personality == Personality::Vengeful || population[place].personality
            == Personality::SlowLearner,
        population[place].decision() == Choice::CHEAT,
    ensures
        tournament(population, rounds)[place].decision() == Choice::CHEAT,
{
    lemma_tournament_memory(population, rounds, place);
    lemma_grudges_are_permanent(
        population[place].history,
        tournament_record(population, rounds, place),
    );
}

/// The games of a pass as one agent records them: one for each other agent, the
/// latest first, each under the tag of the agent that [`opponent`] names.
pub proof fn lemma_pass_record(population: Seq<EntityView>, place: int, game: int)
    requires
        0 <= place < population.len(),
        0 <= game < population.len() - 1,
    ensures
        pass_record(population, place).len() == population.len() - 1,
        0 <= opponent(place, population.len() - 2 - game) < population.len(),
        opponent(place, population.len() - 2 - game) != place,
        pass_record(population, place)[game].opp_tag == population[opponent(
            place,
            population.len() - 2 - game,
        )].tag,
{
    let n = population.len() as int;
    let after = round_robin(population)[place];
    let turn = n - 2 - game;
    lemma_round_robin(population);
    assert(after.history[n - 2 - turn].opp_tag == population[opponent(place, turn)].tag);
}

/// The turn at which the agent at `place` meets the agent at `rival`: the
/// inverse of [`opponent`].
pub open spec fn turn_against(place: int, rival: int) -> int {
    if rival < place {
        rival
    } else {
        rival - 1
    }
}

/// In one pass every agent meets every other agent: its game with the agent at
/// `rival` is on record, under that agent's tag.
pub proof fn lemma_every_opponent_is_met(population: Seq<EntityView>, place: int, rival: int)
    requires
        0 <= place < population.len(),
        0 <= rival < population.len(),
        rival != place,
    ensures
        0 <= population.len() - 2 - turn_against(place, rival) < population.len() - 1,
        pass_record(population, place)[population.len() - 2 - turn_against(place, rival)].opp_tag
            == population[rival].tag,
{
    let n = population.len() as int;
    lemma_pass_record(population, place, n - 2 - turn_against(place, rival));
}

/// In one pass among agents with different tags, every agent records as many
/// games as it has opponents, none of them under its own tag and no two of
/// them under the same tag.
pub proof fn lemma_one_game_per_opponent(
    population: Seq<EntityView>,
    place: int,
    one: int,
    other: int,
)
    requires
        has_unique_tags(population),
        0 <= place < population.len(),
        0 <= one < population.len() - 1,
        0 <= other < population.len() - 1,
    ensures
        pass_record(population, place).len() == population.len() - 1,
        pass_record(population, place)[one].opp_tag != population[place].tag,
        one != other ==> pass_record(population, place)[one].opp_tag != pass_record(
            population,
            place,
        )[other].opp_tag,
{
    let n = population.len() as int;
    lemma_pass_record(population, place, one);
    lemma_pass_record(population, place, other);
    let first = opponent(place, n - 2 - one);
    let second = opponent(place, n - 2 - other);
    lemma_tags_differ(population, first, place);
    if one != other {
        lemma_tags_differ(population, first, second);
    }
}

/// Among agents with different tags, agents at different places have
/// different tags.
pub proof fn lemma_tags_differ(population: Seq<EntityView>, one: int, other: int)
    requires
        has_unique_tags(population),
        0 <= one < population.len(),
        0 <= other < population.len(),
        one != other,
    ensures
        population[one].tag != population[other].tag,
{
    if one < other {
        assert(population[one].tag != population[other].tag);
    } else {
        assert(population[other].tag != population[one].tag);
    }
}

/// Between two agents a pass is a single game.
pub proof fn lemma_duel(population: Seq<EntityView>)
    requires
        population.len() == 2,
    ensures
        pairings(2) == seq![(0int, 1int)],
        round_robin(population) == play_pair(population, 0, 1),
{
    reveal_with_fuel(pairings_before, 3);
    assert(row_pairs(2, 1) =~= Seq::<(int, int)>::empty());
    assert(row_pairs(2, 0) =~= seq![(0int, 1int)]);
    assert(pairings(2) =~= seq![(0int, 1int)]);
    let schedule = seq![(0int, 1int)];
    assert(schedule.drop_last() =~= Seq::<(int, int)>::empty());
    reveal_with_fuel(play_all, 2);
}

/// Two agents that always cooperate earn the reward in every pass: after
/// `rounds` passes the history of each is worth `rounds` times the reward more
/// than it was at the start, and once a pass has been played that is its score.
pub proof fn lemma_cooperators_are_rewarded(population: Seq<EntityView>, rounds: nat, place: int)
    requires
        population.len() == 2,
        population[0].personality == Personality::AlwaysCooperate,
        population[1].personality == Personality::AlwaysCooperate,
        0 <= place < 2,
    ensures
        score_of(tournament(population, rounds)[place].history) == score_of(
            population[place].history,
        ) + rounds * Outcome::REWARD.spec_positive(),
        rounds > 0 ==> tournament(population, rounds)[place].score == score_of(
            population[place].history,
        ) + rounds * Outcome::REWARD.spec_positive(),
    decreases rounds,
{
    if rounds > 0 {
        let before = (rounds - 1) as nat;
        let earlier = tournament(population, before);
        lemma_cooperators_are_rewarded(population, before, place);
        lemma_tournament_memory(population, before, 0);
        lemma_tournament_memory(population, before, 1);
        lemma_duel(earlier);
        assert(tournament(population, rounds) == play_pair(earlier, 0, 1));
        lemma_remembered_score(
            earlier[place],
            earlier[1 - place].tag,
            Choice::COOPERATE,
            Choice::COOPERATE,
        );
    }
}

/// Two fresh agents that always cooperate, after a game of `rounds` rounds:
/// both scores are `rounds` times the reward.
pub proof fn lemma_cooperators_game(population: Seq<EntityView>, rounds: int)
    requires
        population.len() == 2,
        population[0].personality == Personality::AlwaysCooperate,
        population[1].personality == Personality::AlwaysCooperate,
        population[0].is_fresh(),
        population[1].is_fresh(),
        rounds >= 1,
    ensures
        game(population, rounds)[0].score == rounds * Outcome::REWARD.spec_positive(),
        game(population, rounds)[1].score == rounds * Outcome::REWARD.spec_positive(),
{
    lemma_cooperators_are_rewarded(population, passes(rounds), 0);
    lemma_cooperators_are_rewarded(population, passes(rounds), 1);
    assert(population[0].history =~= Seq::<MemeView>::empty());
    assert(population[1].history =~= Seq::<MemeView>::empty());
}

/// A fresh agent that always cheats meets a fresh agent that always
/// cooperates, for one round: the cheater scores the temptation, and the
/// cooperator the sucker's payoff.
pub proof fn lemma_cheater_is_tempted(population: Seq<EntityView>, cheater: int)
    requires
        population.len() == 2,
        0 <= cheater < 2,
        population[cheater].personality == Personality::AlwaysCheat,
        population[1 - cheater].personality == Personality::AlwaysCooperate,
        population[0].is_fresh(),
        population[1].is_fresh(),
    ensures
        game(population, 1)[cheater].score == Outcome::TEMPTATION.spec_positive(),
        game(population, 1)[1 - cheater].score == Outcome::SUCKER.spec_positive(),
{
    lemma_game_is_passes(population, 1);
    lemma_duel(population);
    assert(population[0].history =~= Seq::<MemeView>::empty());
    assert(population[1].history =~= Seq::<MemeView>::empty());
    lemma_remembered_score(
        population[cheater],
        population[1 - cheater].tag,
        Choice::CHEAT,
        Choice::COOPERATE,
    );
    lemma_remembered_score(
        population[1 - cheater],
        population[cheater].tag,
        Choice::COOPERATE,
        Choice::CHEAT,
    );
}

} // verus!
