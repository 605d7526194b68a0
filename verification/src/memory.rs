//! What an agent remembers of the games it has played.
//!
//! A memory is a log of interactions, most recent first, that only grows.
//! Contracts speak of it through its view, a `Seq<MemeView>`, and through the
//! three functions of that view that strategies read: [`last_move_of`],
//! [`betrayals`] and the log itself.
use vstd::prelude::*;
use crate::Choice;

verus! {

/// The most interactions one memory holds. With this many games on record a
/// score still fits in an `i32` under either scoring scheme, and so does the
/// count of betrayals.
pub const MAX_HISTORY: usize = 715_827_882;

/// Represents an interaction with another player
#[derive(Debug)]
pub struct Meme {
    pub opp_tag: String,
    pub player_choice: Choice,
    pub opp_choice: Choice,
}

/// An interaction as contracts see it: the opponent's tag as a sequence of
/// characters, and the two choices.
pub struct MemeView {
    pub opp_tag: Seq<char>,
    pub player_choice: Choice,
    pub opp_choice: Choice,
}

impl View for Meme {
    type V = MemeView;

    open spec fn view(&self) -> MemeView {
        MemeView {
            opp_tag: self.opp_tag@,
            player_choice: self.player_choice,
            opp_choice: self.opp_choice,
        }
    }
}

impl Clone for Meme {
    fn clone(&self) -> (copy: Self)
        ensures
            copy@ == self@,
    {
        Meme {
            opp_tag: self.opp_tag.clone(),
            player_choice: self.player_choice,
            opp_choice: self.opp_choice,
        }
    }
}

impl Meme {
    /// The record of one interaction with the agent tagged `opp_tag`.
    pub fn new(opp_tag: String, p_choice: Choice, opp_choice: Choice) -> (meme: Self)
        ensures
            meme@ == (MemeView { opp_tag: opp_tag@, player_choice: p_choice, opp_choice }),
    {
        Self { opp_tag, player_choice: p_choice, opp_choice }
    }
}

/// The views of a run of interactions, in the same order.
pub open spec fn meme_views(memes: Seq<Meme>) -> Seq<MemeView> {
    memes.map_values(|m: Meme| m@)
}

/// The log after one more interaction: the new record stands in front, and
/// everything that was there before follows unchanged.
pub open spec fn recorded(
    log: Seq<MemeView>,
    opp_tag: Seq<char>,
    mine: Choice,
    theirs: Choice,
) -> Seq<MemeView> {
    seq![MemeView { opp_tag, player_choice: mine, opp_choice: theirs }] + log
}

/// What the opponent chose in the most recent interaction of any kind.
/// Everyone starts nice: with nothing on record it is COOPERATE.
pub open spec fn last_move_of(log: Seq<MemeView>) -> Choice {
    if log.len() == 0 {
        Choice::COOPERATE
    } else {
        log.first().opp_choice
    }
}

/// How many of the recorded interactions had the opponent CHEAT.
pub open spec fn betrayals(log: Seq<MemeView>) -> nat
    decreases log.len(),
{
    if log.len() == 0 {
        0
    } else if log.last().opp_choice == Choice::CHEAT {
        betrayals(log.drop_last()) + 1
    } else {
        betrayals(log.drop_last())
    }
}

/// Betrayals add up over the two parts of a log.
pub proof fn lemma_betrayals_add(front: Seq<MemeView>, back: Seq<MemeView>)
    ensures
        betrayals(front + back) == betrayals(front) + betrayals(back),
    decreases back.len(),
{
    if back.len() == 0 {
        assert(front + back =~= front);
    } else {
        assert((front + back).drop_last() =~= front + back.drop_last());
        lemma_betrayals_add(front, back.drop_last());
    }
}

/// No memory holds more betrayals than interactions.
pub proof fn lemma_betrayals_bounded(log: Seq<MemeView>)
    ensures
        betrayals(log) <= log.len(),
    decreases log.len(),
{
    if log.len() > 0 {
        lemma_betrayals_bounded(log.drop_last());
    }
}

/// What recording does to the three things a strategy reads: the log grows by
/// exactly the new record, the last move is the opponent's newest, and the
/// count of betrayals goes up by one if that move was CHEAT and stays otherwise.
pub proof fn lemma_recorded(log: Seq<MemeView>, opp_tag: Seq<char>, mine: Choice, theirs: Choice)
    ensures
        recorded(log, opp_tag, mine, theirs).len() == log.len() + 1,
        recorded(log, opp_tag, mine, theirs).skip(1) == log,
        recorded(log, opp_tag, mine, theirs).first() == (MemeView {
            opp_tag,
            player_choice: mine,
            opp_choice: theirs,
        }),
        last_move_of(recorded(log, opp_tag, mine, theirs)) == theirs,
        betrayals(recorded(log, opp_tag, mine, theirs)) == betrayals(log) + (if theirs
            == Choice::CHEAT {
            1nat
        } else {
            0nat
        }),
{
    let front = seq![MemeView { opp_tag, player_choice: mine, opp_choice: theirs }];
    assert(recorded(log, opp_tag, mine, theirs).skip(1) =~= log);
    lemma_betrayals_add(front, log);
    assert(betrayals(front) == (if theirs == Choice::CHEAT { 1nat } else { 0nat })) by {
        assert(front.drop_last() =~= Seq::<MemeView>::empty());
        reveal_with_fuel(betrayals, 2);
    }
}

/// A store of interactions. [`InMemoryStore`] is the one every
/// [`crate::entity::Entity`] is built with.
pub trait MemoryStore {
    /// The interactions on record, most recent first.
    spec fn log(&self) -> Seq<MemeView>;

    /// Records one interaction in front of the others. This is the only way a
    /// memory changes.
    fn add(&mut self, tag: &str, choices: (Choice, Choice))
        requires
            old(self).log().len() < MAX_HISTORY,
        ensures
            final(self).log() == recorded(old(self).log(), tag@, choices.0, choices.1),
    ;

    /// The opponent's choice in the most recent interaction.
    fn last_move(&self) -> (choice: Choice)
        ensures
            choice == last_move_of(self.log()),
    ;

    /// The interactions on record, most recent first.
    fn history(&self) -> (memes: &[Meme])
        ensures
            meme_views(memes@) == self.log(),
    ;

    /// The number of interactions in which the opponent chose CHEAT.
    fn betrayed_count(&self) -> (count: i32)
        ensures
            count == betrayals(self.log()),
    ;
}

/// A memory kept in a vector, together with the last move seen.
#[derive(Debug)]
pub struct InMemoryStore {
    history: Vec<Meme>,
    opp_last_move: Choice,
}

/// The memory of an [`crate::entity::Entity`].
pub type Memory = InMemoryStore;

impl View for InMemoryStore {
    type V = Seq<MemeView>;

    closed spec fn view(&self) -> Seq<MemeView> {
        meme_views(self.history@)
    }
}

impl Clone for InMemoryStore {
    fn clone(&self) -> (copy: Self)
        ensures
            copy@ == self@,
    {
        proof {
            use_type_invariant(self);
        }
        let n: usize = self.history.len();
        let mut history: Vec<Meme> = Vec::new();
        let mut i: usize = 0;
        while i < n
            invariant
                n == self.history@.len(),
                i <= n,
                history@.len() == i,
                meme_views(history@) == self@.take(i as int),
            decreases n - i,
        {
            let ghost before = history@;
            history.push(self.history[i].clone());
            assert forall|k: int| 0 <= k < i + 1 implies meme_views(history@)[k] == self@[k] by {
                if k < i {
                    assert(meme_views(before)[k] == self@.take(i as int)[k]);
                }
            }
            i = i + 1;
            assert(meme_views(history@) =~= self@.take(i as int));
        }
        assert(meme_views(history@) =~= self@);
        InMemoryStore { history, opp_last_move: self.opp_last_move }
    }
}

impl InMemoryStore {
    /// The cached last move agrees with the log, and the log is within its limit.
    #[verifier::type_invariant]
    spec fn well_formed(self) -> bool {
        &&& self.opp_last_move == last_move_of(meme_views(self.history@))
        &&& self.history@.len() <= MAX_HISTORY
    }

    /// An empty memory.
    pub fn new() -> (store: Self)
        ensures
            store@ == Seq::<MemeView>::empty(),
    {
        let store = Self { history: Vec::new(), opp_last_move: Choice::COOPERATE };  // everyone starts nice
        assert(store@ =~= Seq::<MemeView>::empty());
        store
    }

    /// Total betrayals.
    pub fn betrayed(&self) -> (count: i32)
        ensures
            count == betrayals(self@),
            count <= self@.len() <= MAX_HISTORY,
    {
        proof {
            use_type_invariant(self);
        }
        let n: usize = self.history.len();
        let mut count: i32 = 0;
        let mut i: usize = 0;
        while i < n
            invariant
                n == self.history@.len(),
                n <= MAX_HISTORY,
                i <= n,
                count == betrayals(self@.take(i as int)),
                count <= i,
            decreases n - i,
        {
            assert(self@.take(i + 1).drop_last() =~= self@.take(i as int));
            if self.history[i].opp_choice == Choice::CHEAT {
                count = count + 1;
            }
            i = i + 1;
        }
        assert(self@.take(n as int) =~= self@);
        count
    }

    /// The number of interactions on record.
    pub fn len(&self) -> (n: usize)
        ensures
            n == self@.len(),
            n <= MAX_HISTORY,
    {
        proof {
            use_type_invariant(self);
        }
        self.history.len()
    }
}

impl MemoryStore for InMemoryStore {
    open spec fn log(&self) -> Seq<MemeView> {
        self@
    }

    fn add(&mut self, tag: &str, choices: (Choice, Choice)) {
        proof {
            use_type_invariant(&*self);
        }
        // The log and the last move change together: the store is taken out
        // whole and put back whole, so that it is never seen half-updated.
        let mut taken = InMemoryStore::new();
        core::mem::swap(self, &mut taken);
        let mut history: Vec<Meme> = taken.history;
        history.insert(0, Meme::new(tag.to_owned(), choices.0, choices.1));
        *self = InMemoryStore { history, opp_last_move: choices.1 };
        assert(self@ =~= recorded(old(self)@, tag@, choices.0, choices.1));
    }

    fn last_move(&self) -> (choice: Choice) {
        proof {
            use_type_invariant(self);
        }
        self.opp_last_move
    }

    fn history(&self) -> (memes: &[Meme])
        ensures
            memes@.len() <= MAX_HISTORY,
    {
        proof {
            use_type_invariant(self);
        }
        self.history.as_slice()
    }

    fn betrayed_count(&self) -> (count: i32) {
        self.betrayed()
    }
}

} // verus!
