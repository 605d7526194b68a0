//! Entity is a concrete base type and Player implementation
//!
//! Entity provides a memory structure which keeps track of who this entity
//! has played in its lifetime, and the outcomes. Names are generated on
//! creation of a new entity.
//!
//! Contracts speak of an agent through its view, an [`EntityView`]. What an
//! agent chooses is [`strategy`] applied to its personality and its memory, and
//! what it scores is [`score_of`] applied to its memory.
use vstd::prelude::*;
use crate::memory::{betrayals, last_move_of, meme_views, recorded};
use crate::memory::{lemma_betrayals_add, lemma_recorded};
use crate::memory::{Meme, MemeView, Memory, MemoryStore, MAX_HISTORY};
use crate::source::{fake_first_name, same_text};
use crate::{determine, spec_determine, Choice, Outcome};

verus! {

/// Personality is an enum used to select an entity's behavior. The function
/// [`choose_move`] holds the logic for each personality. Some personalities
/// require access to memory.
#[derive(Clone, Copy, Debug, PartialEq, Eq, Structural)]
pub enum Personality {
    /// Will always choose COOPERATE
    AlwaysCooperate,
    /// Will always choose CHEAT
    AlwaysCheat,
    /// Will do the move its opponent did the last round
    CopyCat,
    /// Once betrayed more than once, will always CHEAT
    Vengeful,
    /// Will only CHEAT if betrayed more than 5 times
    SlowLearner,
}

/// The number of personalities.
pub const PERSONALITY_COUNT: usize = 5;

/// The betrayals that a Vengeful agent puts up with.
pub const VENGEFUL_PATIENCE: i32 = 1;

/// The betrayals that a SlowLearner puts up with.
pub const SLOW_LEARNER_PATIENCE: i32 = 5;

impl Personality {
    /// The personality that stands at `index` in the order of declaration.
    /// An index past the last one gives AlwaysCooperate.
    pub open spec fn spec_from_index(index: int) -> Personality {
        if index == 1 {
            Personality::AlwaysCheat
        } else if index == 2 {
            Personality::CopyCat
        } else if index == 3 {
            Personality::Vengeful
        } else if index == 4 {
            Personality::SlowLearner
        } else {
            Personality::AlwaysCooperate
        }
    }

    /// Where a personality stands in the order of declaration.
    pub open spec fn spec_index(self) -> int {
        match self {
            Personality::AlwaysCooperate => 0,
            Personality::AlwaysCheat => 1,
            Personality::CopyCat => 2,
            Personality::Vengeful => 3,
            Personality::SlowLearner => 4,
        }
    }

    /// Turns a draw from `0..PERSONALITY_COUNT` into a personality, so that a
    /// uniform draw gives each personality the same chance.
    pub fn from_index(index: usize) -> (personality: Personality)
        ensures
            personality == Self::spec_from_index(index as int),
    {
        match index {
            0 => Personality::AlwaysCooperate,
            1 => Personality::AlwaysCheat,
            2 => Personality::CopyCat,
            3 => Personality::Vengeful,
            4 => Personality::SlowLearner,
            _ => Personality::AlwaysCooperate,
        }
    }
}

/// Every personality is reached from exactly one index below
/// [`PERSONALITY_COUNT`], its own.
pub proof fn lemma_from_index_is_onto(personality: Personality)
    ensures
        0 <= personality.spec_index() < PERSONALITY_COUNT,
        Personality::spec_from_index(personality.spec_index()) == personality,
        forall|index: int|
            0 <= index < PERSONALITY_COUNT && #[trigger] Personality::spec_from_index(index)
                == personality ==> index == personality.spec_index(),
{
}

/// What an agent with personality `p` chooses when its memory holds `log`.
///
/// CopyCat mirrors the last move made against it by any opponent, not the last
/// move of the opponent it is about to meet.
pub open spec fn strategy(p: Personality, log: Seq<MemeView>) -> Choice {
    match p {
        Personality::AlwaysCooperate => Choice::COOPERATE,
        Personality::AlwaysCheat => Choice::CHEAT,
        Personality::CopyCat => last_move_of(log),
        Personality::Vengeful => if betrayals(log) > VENGEFUL_PATIENCE {
            Choice::CHEAT
        } else {
            Choice::COOPERATE
        },
        Personality::SlowLearner => if betrayals(log) > SLOW_LEARNER_PATIENCE {
            Choice::CHEAT
        } else {
            Choice::COOPERATE
        },
    }
}

/// Choose parses all personalities
pub fn choose_move<M: MemoryStore>(p: &Personality, m: &M, _opp_tag: &str) -> (choice: Choice)
    ensures
        choice == strategy(*p, m.log()),
{
    match p {
        Personality::AlwaysCooperate => Choice::COOPERATE,
        Personality::AlwaysCheat => Choice::CHEAT,
        Personality::CopyCat => m.last_move(),
        Personality::Vengeful => {
            if m.betrayed_count() > VENGEFUL_PATIENCE {
                return Choice::CHEAT;
            }
            Choice::COOPERATE
        },
        Personality::SlowLearner => {
            if m.betrayed_count() > SLOW_LEARNER_PATIENCE {
                return Choice::CHEAT;
            }
            Choice::COOPERATE
        },
    }
}

/// What one recorded interaction is worth to the agent that recorded it.
pub open spec fn payoff(meme: MemeView) -> int {
    spec_determine(meme.player_choice, meme.opp_choice).0.spec_positive()
}

/// The score that a memory amounts to: every interaction on record is resolved
/// again, and the payoffs are added up.
pub open spec fn score_of(log: Seq<MemeView>) -> int
    decreases log.len(),
{
    if log.len() == 0 {
        0
    } else {
        score_of(log.drop_last()) + payoff(log.last())
    }
}

/// Scores add up over the two parts of a log.
pub proof fn lemma_score_add(front: Seq<MemeView>, back: Seq<MemeView>)
    ensures
        score_of(front + back) == score_of(front) + score_of(back),
    decreases back.len(),
{
    if back.len() == 0 {
        assert(front + back =~= front);
    } else {
        assert((front + back).drop_last() =~= front + back.drop_last());
        lemma_score_add(front, back.drop_last());
    }
}

/// A score lies between the sucker's payoff and the temptation, each taken
/// once for every interaction on record.
pub proof fn lemma_score_bounded(log: Seq<MemeView>)
    ensures
        -log.len() <= score_of(log) <= 3 * log.len(),
    decreases log.len(),
{
    if log.len() > 0 {
        lemma_score_bounded(log.drop_last());
    }
}

/// An agent as contracts see it.
pub struct EntityView {
    /// The display name. No rule of the game reads it.
    pub name: Seq<char>,
    /// The tag by which other agents remember this one.
    pub tag: Seq<char>,
    pub personality: Personality,
    /// The score as last computed.
    pub score: int,
    /// The interactions on record, most recent first.
    pub history: Seq<MemeView>,
}

impl EntityView {
    /// What the agent chooses next, whoever the opponent is.
    pub open spec fn decision(self) -> Choice {
        strategy(self.personality, self.history)
    }

    /// The agent after one more interaction: the record is added in front of
    /// its history, and the score is computed anew from the whole history.
    pub open spec fn remembered(self, opp_tag: Seq<char>, mine: Choice, theirs: Choice) -> EntityView {
        let history = recorded(self.history, opp_tag, mine, theirs);
        EntityView { score: score_of(history), history, ..self }
    }

    /// The agent with its score computed anew from its history.
    pub open spec fn rescored(self) -> EntityView {
        EntityView { score: score_of(self.history), ..self }
    }

    /// An agent that has not played yet.
    pub open spec fn is_fresh(self) -> bool {
        self.score == 0 && self.history.len() == 0
    }
}

/// Computing the score again changes nothing: a score that was just computed
/// is the score that the next computation gives.
pub proof fn lemma_rescoring_is_idempotent(agent: EntityView)
    ensures
        agent.rescored().rescored() == agent.rescored(),
        agent.rescored().score == score_of(agent.history),
        agent.score == score_of(agent.history) ==> agent.rescored() == agent,
{
}

/// After an interaction the score is the old history's score plus what the new
/// interaction is worth, and it needs no recomputing.
pub proof fn lemma_remembered_score(agent: EntityView, opp_tag: Seq<char>, mine: Choice, theirs: Choice)
    ensures
        agent.remembered(opp_tag, mine, theirs).score == score_of(agent.history) + spec_determine(
            mine,
            theirs,
        ).0.spec_positive(),
        agent.remembered(opp_tag, mine, theirs).rescored() == agent.remembered(opp_tag, mine, theirs),
{
    let front = seq![MemeView { opp_tag, player_choice: mine, opp_choice: theirs }];
    lemma_score_add(front, agent.history);
    assert(score_of(front) == payoff(front.last())) by {
        assert(front.drop_last() =~= Seq::<MemeView>::empty());
        reveal_with_fuel(score_of, 2);
    }
}

/// A CopyCat with nothing on record cooperates, and after any interaction it
/// does what its opponent did in that interaction.
pub proof fn lemma_copycat_mirrors(log: Seq<MemeView>, opp_tag: Seq<char>, mine: Choice, theirs: Choice)
    ensures
        strategy(Personality::CopyCat, Seq::<MemeView>::empty()) == Choice::COOPERATE,
        strategy(Personality::CopyCat, recorded(log, opp_tag, mine, theirs)) == theirs,
{
    lemma_recorded(log, opp_tag, mine, theirs);
}

/// Betrayals are never forgotten: however a memory is extended, it holds at
/// least the betrayals it held before.
pub proof fn lemma_betrayals_only_grow(earlier: Seq<MemeView>, since: Seq<MemeView>)
    ensures
        betrayals(since + earlier) >= betrayals(earlier),
{
    lemma_betrayals_add(since, earlier);
}

/// A Vengeful agent cooperates until it has been betrayed more than once.
/// From then on it cheats, whatever is recorded afterwards. The same holds of
/// a SlowLearner, with more than five betrayals.
pub proof fn lemma_grudges_are_permanent(earlier: Seq<MemeView>, since: Seq<MemeView>)
    ensures
        strategy(Personality::Vengeful, earlier) == Choice::CHEAT <==> betrayals(earlier)
            > VENGEFUL_PATIENCE,
        strategy(Personality::Vengeful, earlier) == Choice::CHEAT ==> strategy(
            Personality::Vengeful,
            since + earlier,
        ) == Choice::CHEAT,
        strategy(Personality::SlowLearner, earlier) == Choice::CHEAT <==> betrayals(earlier)
            > SLOW_LEARNER_PATIENCE,
        strategy(Personality::SlowLearner, earlier) == Choice::CHEAT ==> strategy(
            Personality::SlowLearner,
            since + earlier,
        ) == Choice::CHEAT,
{
    lemma_betrayals_only_grow(earlier, since);
}

/// A concrete base class to hold game data.
#[derive(Debug)]
pub struct Entity {
    name: String,
    tag: String,
    score: i32,
    memory: Memory,
    personality_type: Personality,
}

impl View for Entity {
    type V = EntityView;

    closed spec fn view(&self) -> EntityView {
        EntityView {
            name: self.name@,
            tag: self.tag@,
            personality: self.personality_type,
            score: self.score as int,
            history: self.memory@,
        }
    }
}

impl Clone for Entity {
    fn clone(&self) -> (copy: Self)
        ensures
            copy@ == self@,
    {
        proof {
            use_type_invariant(self);
        }
        Entity {
            name: self.name.clone(),
            tag: self.tag.clone(),
            score: self.score,
            memory: self.memory.clone(),
            personality_type: self.personality_type,
        }
    }
}

impl Entity {
    /// The score is what the memory amounts to: it is kept beside the memory
    /// so that it need not be computed to be read, and it never departs from it.
    #[verifier::type_invariant]
    spec fn score_is_current(self) -> bool {
        self.score == score_of(self.memory@)
    }

    /// A new agent with a made-up first name, no score and nothing on record.
    pub fn new(personality_type: Personality, tag: String) -> (entity: Self)
        ensures
            entity@.tag == tag@,
            entity@.personality == personality_type,
            entity@.is_fresh(),
    {
        Self::with_name(fake_first_name(), personality_type, tag)
    }

    /// A new agent with the name given, no score and nothing on record.
    pub fn with_name(name: String, personality_type: Personality, tag: String) -> (entity: Self)
        ensures
            entity@ == (EntityView {
                name: name@,
                tag: tag@,
                personality: personality_type,
                score: 0,
                history: Seq::<MemeView>::empty(),
            }),
    {
        Self { name, score: 0, memory: Memory::new(), personality_type, tag }
    }

    /// What the agent remembers.
    pub fn get_memory(&self) -> (memory: &Memory)
        ensures
            memory@ == self@.history,
    {
        &self.memory
    }

    /// The personality that the agent was made with.
    pub fn personality(&self) -> (personality: Personality)
        ensures
            personality == self@.personality,
    {
        self.personality_type
    }

    /// The score, read without computing it again.
    pub fn current_score(&self) -> (score: i32)
        ensures
            score == self@.score,
            score == score_of(self@.history),
    {
        proof {
            use_type_invariant(self);
        }
        self.score
    }
}

/// Adds up what the interactions of `memes` are worth, resolving each again.
fn tally(memes: &[Meme]) -> (sum: i32)
    requires
        memes@.len() <= MAX_HISTORY,
    ensures
        sum == score_of(meme_views(memes@)),
{
    let mut new_sum: i32 = 0;
    let n: usize = memes.len();
    let mut i: usize = 0;
    while i < n
        invariant
            n == memes@.len(),
            n <= MAX_HISTORY,
            i <= n,
            new_sum == score_of(meme_views(memes@).take(i as int)),
            -i <= new_sum <= 3 * i,
        decreases n - i,
    {
        assert(meme_views(memes@).take(i + 1).drop_last() =~= meme_views(memes@).take(i as int));
        let (o1, _) = determine(memes[i].player_choice, memes[i].opp_choice);
        new_sum = new_sum + Outcome::positive(&o1);
        i = i + 1;
    }
    assert(meme_views(memes@).take(n as int) =~= meme_views(memes@));
    new_sum
}

/// Any concrete type which provides the methods required to play the
/// Prisoner's Dilemma, and information for display.
///
/// Whatever the type, it plays as its view says: it chooses by [`strategy`]
/// and it scores by [`score_of`].
pub trait Player: View<V = EntityView> + Sized {
    /// The agent's next choice. It is made from the agent's own memory alone.
    fn choose_move(&self, opp_tag: &str) -> (choice: Choice)
        ensures
            choice == self@.decision(),
    ;

    fn name(&self) -> (name: &str)
        ensures
            name@ == self@.name,
    ;

    fn memory(&self) -> (memory: &Memory)
        ensures
            memory@ == self@.history,
    ;

    /// score derives the player's current score from the move history
    fn score(&mut self) -> (score: i32)
        ensures
            final(self)@ == old(self)@.rescored(),
            score == score_of(old(self)@.history),
    ;

    fn tag(&self) -> (tag: &str)
        ensures
            tag@ == self@.tag,
    ;

    /// add_memory adds a new memory, updates the top level fields and updates the score
    fn add_memory(&mut self, tag: &str, other: (Choice, Choice))
        requires
            old(self)@.history.len() < MAX_HISTORY,
        ensures
            final(self)@ == old(self)@.remembered(tag@, other.0, other.1),
    ;
}

impl Player for Entity {
    fn choose_move(&self, opp_tag: &str) -> (choice: Choice) {
        choose_move(&self.personality_type, &self.memory, opp_tag)
    }

    fn score(&mut self) -> (score: i32)
        ensures
            final(self)@ == old(self)@,
    {
        proof {
            use_type_invariant(&*self);
        }
        let new_sum: i32 = tally(self.memory.history());
        self.score = new_sum;
        new_sum
    }

    fn add_memory(&mut self, tag: &str, choices: (Choice, Choice)) {
        // The memory and the score change together: the agent is taken out
        // whole and put back whole, so that it is never seen with a score that
        // is not the score of its memory.
        let mut taken = Entity {
            name: String::new(),
            tag: String::new(),
            score: 0,
            memory: Memory::new(),
            personality_type: self.personality_type,
        };
        core::mem::swap(self, &mut taken);
        let Entity { name, tag: own_tag, score: _, mut memory, personality_type } = taken;
        memory.add(tag, choices);
        let score: i32 = tally(memory.history());
        *self = Entity { name, tag: own_tag, score, memory, personality_type };
    }

    fn name(&self) -> (name: &str) {
        self.name.as_str()
    }

    fn memory(&self) -> (memory: &Memory) {
        &self.memory
    }

    fn tag(&self) -> (tag: &str) {
        self.tag.as_str()
    }
}

/// Whether `index` is the first place in `population` at which an agent with
/// the tag `tag` stands.
pub open spec fn is_first_tagged(population: Seq<EntityView>, tag: Seq<char>, index: int) -> bool {
    &&& 0 <= index < population.len()
    &&& population[index].tag == tag
    &&& forall|before: int| 0 <= before < index ==> (#[trigger] population[before]).tag != tag
}

/// Whether no agent in `population` has the tag `tag`.
pub open spec fn is_untagged(population: Seq<EntityView>, tag: Seq<char>) -> bool {
    forall|index: int| 0 <= index < population.len() ==> (#[trigger] population[index]).tag != tag
}

/// Whether no two agents of `population` share a tag.
pub open spec fn has_unique_tags(population: Seq<EntityView>) -> bool {
    forall|i: int, j: int|
        0 <= i < j < population.len() ==> (#[trigger] population[i]).tag != (
        #[trigger] population[j]).tag
}

/// The views of a population, agent by agent.
pub open spec fn views<P: Player>(players: Seq<P>) -> Seq<EntityView> {
    players.map_values(|p: P| p@)
}

/// Where the agent with the tag `tag` stands among `players`: the first such
/// place, or `None` when there is no agent with that tag.
pub fn position<P: Player>(tag: &str, players: &[P]) -> (place: Option<usize>)
    ensures
        match place {
            Some(index) => is_first_tagged(views(players@), tag@, index as int),
            None => is_untagged(views(players@), tag@),
        },
{
    let n: usize = players.len();
    let mut i: usize = 0;
    while i < n
        invariant
            n == players@.len(),
            i <= n,
            forall|before: int| 0 <= before < i ==> (#[trigger] views(players@)[before]).tag != tag@,
        decreases n - i,
    {
        if same_text(players[i].tag(), tag) {
            return Some(i);
        }
        i = i + 1;
    }
    None
}

/// Tests whether no two players share a tag, which is what looking players up
/// by tag relies on.
pub fn tags_are_unique<P: Player>(players: &[P]) -> (unique: bool)
    ensures
        unique == has_unique_tags(views(players@)),
{
    let n: usize = players.len();
    let ghost population = views(players@);
    let mut j: usize = 0;
    while j < n
        invariant
            n == players@.len(),
            population == views(players@),
            j <= n,
            forall|a: int, b: int|
                0 <= a < b < j ==> (#[trigger] population[a]).tag != (#[trigger] population[b]).tag,
        decreases n - j,
    {
        let mut i: usize = 0;
        while i < j
            invariant
                n == players@.len(),
                population == views(players@),
                i <= j < n,
                forall|a: int| 0 <= a < i ==> (#[trigger] population[a]).tag != population[j as int].tag,
            decreases j - i,
        {
            if same_text(players[i].tag(), players[j].tag()) {
                assert(population[i as int].tag == population[j as int].tag);
                return false;
            }
            i = i + 1;
        }
        j = j + 1;
    }
    true
}

/// Finds the agent with the tag `tag`. `None` says that there is no such
/// agent in the population.
pub fn find<'a, P: Player>(tag: &str, players: &'a [P]) -> (found: Option<&'a P>)
    ensures
        match found {
            Some(player) => exists|index: int|
                is_first_tagged(views(players@), tag@, index) && *player == players@[index],
            None => is_untagged(views(players@), tag@),
        },
{
    match position(tag, players) {
        Some(index) => Some(&players[index]),
        None => None,
    }
}

/// Finds the agent with the tag `tag` so that it can be changed. `None` says
/// that there is no such agent in the population. Whatever the caller does to
/// the agent found, every other agent stays as it was.
pub fn find_mut<'a, P: Player>(tag: &str, players: &'a mut [P]) -> (found: Option<&'a mut P>)
    ensures
        match found {
            Some(player) => exists|index: int|
                is_first_tagged(views(old(players)@), tag@, index) && *player == old(
                    players,
                )@[index] && final(players)@ == old(players)@.update(index, *final(player)),
            None => is_untagged(views(old(players)@), tag@) && final(players)@ == old(players)@,
        },
{
    match position(tag, players) {
        Some(index) => Some(&mut players[index]),
        None => None,
    }
}

} // verus!
