//! How choices, personalities, memories and agents are written out for a
//! reader. Each type has a `to_text` method, and contracts say character by
//! character what it returns.
use vstd::prelude::*;
use crate::entity::{Entity, EntityView, Personality, Player};
use crate::memory::{meme_views, InMemoryStore, Meme, MemeView, MemoryStore};
use crate::Choice;

verus! {

/// The character that stands for the digit `digit`.
pub open spec fn digit_char(digit: int) -> char {
    if digit == 1 {
        '1'
    } else if digit == 2 {
        '2'
    } else if digit == 3 {
        '3'
    } else if digit == 4 {
        '4'
    } else if digit == 5 {
        '5'
    } else if digit == 6 {
        '6'
    } else if digit == 7 {
        '7'
    } else if digit == 8 {
        '8'
    } else if digit == 9 {
        '9'
    } else {
        '0'
    }
}

/// The decimal digits of `number`, without leading zeros.
pub open spec fn digits_text(number: nat) -> Seq<char>
    decreases number,
{
    if number < 10 {
        seq![digit_char(number as int)]
    } else {
        digits_text(number / 10).push(digit_char((number % 10) as int))
    }
}

/// `number` in decimal, with a minus sign in front if it is below zero.
pub open spec fn decimal_text(number: int) -> Seq<char> {
    if number < 0 {
        seq!['-'] + digits_text((-number) as nat)
    } else {
        digits_text(number as nat)
    }
}

/// The characters of `digits` in reverse order: `digits` holds the lowest
/// digit first, and the text has the highest first.
spec fn high_first(digits: Seq<u8>) -> Seq<char> {
    Seq::new(digits.len(), |k: int| digit_char(digits[digits.len() - 1 - k] as int))
}

/// The text of one digit.
fn digit_str(digit: u8) -> (text: &'static str)
    requires
        digit < 10,
    ensures
        text@ == seq![digit_char(digit as int)],
{
    proof {
        reveal_strlit("0");
        reveal_strlit("1");
        reveal_strlit("2");
        reveal_strlit("3");
        reveal_strlit("4");
        reveal_strlit("5");
        reveal_strlit("6");
        reveal_strlit("7");
        reveal_strlit("8");
        reveal_strlit("9");
    }
    let text = match digit {
        1 => "1",
        2 => "2",
        3 => "3",
        4 => "4",
        5 => "5",
        6 => "6",
        7 => "7",
        8 => "8",
        9 => "9",
        _ => "0",
    };
    assert(text@ =~= seq![digit_char(digit as int)]);
    text
}

/// Writes a number in decimal.
pub fn decimal(number: i32) -> (text: String)
    ensures
        text@ == decimal_text(number as int),
{
    let size: i64 = if number < 0 {
        -(number as i64)
    } else {
        number as i64
    };
    let mut rest: i64 = size;
    let mut low_first: Vec<u8> = Vec::new();
    proof {
        assert(digits_text(rest as nat) + high_first(low_first@) =~= digits_text(size as nat));
    }
    while rest >= 10
        invariant
            0 <= rest <= size,
            forall|k: int| 0 <= k < low_first@.len() ==> low_first@[k] < 10,
            digits_text(size as nat) == digits_text(rest as nat) + high_first(low_first@),
        decreases rest,
    {
        let ghost before = low_first@;
        let ghost whole = rest;
        let digit: u8 = (rest % 10) as u8;
        low_first.push(digit);
        rest = rest / 10;
        proof {
            assert(high_first(low_first@) =~= seq![digit_char(digit as int)] + high_first(before));
            assert(digits_text(whole as nat) == digits_text(rest as nat).push(
                digit_char(digit as int),
            ));
            assert(digits_text(rest as nat) + high_first(low_first@) =~= digits_text(whole as nat)
                + high_first(before));
        }
    }
    proof {
        let before = low_first@;
        assert(high_first(before.push(rest as u8)) =~= seq![digit_char(rest as int)] + high_first(
            before,
        ));
    }
    low_first.push(rest as u8);
    let mut text: String = if number < 0 {
        proof {
            reveal_strlit("-");
        }
        "-".to_owned()
    } else {
        String::new()
    };
    let ghost sign = text@;
    let count: usize = low_first.len();
    let mut left: usize = count;
    proof {
        assert(sign =~= if number < 0 {
            seq!['-']
        } else {
            Seq::<char>::empty()
        });
        assert(text@ =~= sign + high_first(low_first@).take(0));
    }
    while left > 0
        invariant
            count == low_first@.len(),
            left <= count,
            forall|k: int| 0 <= k < low_first@.len() ==> low_first@[k] < 10,
            text@ == sign + high_first(low_first@).take(count - left),
        decreases left,
    {
        left = left - 1;
        text.append(digit_str(low_first[left]));
        proof {
            assert(high_first(low_first@).take(count - left) =~= high_first(low_first@).take(
                count - left - 1,
            ).push(digit_char(low_first@[left as int] as int)));
            assert(text@ =~= sign + high_first(low_first@).take(count - left));
        }
    }
    proof {
        assert(high_first(low_first@).take(count as int) =~= high_first(low_first@));
        assert(sign + digits_text(size as nat) =~= decimal_text(number as int));
    }
    text
}

/// The name of a choice.
pub open spec fn choice_text(choice: Choice) -> Seq<char> {
    match choice {
        Choice::CHEAT => "CHEAT"@,
        Choice::COOPERATE => "COOPERATE"@,
    }
}

/// The name of a personality.
pub open spec fn personality_text(personality: Personality) -> Seq<char> {
    match personality {
        Personality::AlwaysCooperate => "AlwaysCooperate"@,
        Personality::AlwaysCheat => "AlwaysCheat"@,
        Personality::CopyCat => "CopyCat"@,
        Personality::Vengeful => "Vengeful"@,
        Personality::SlowLearner => "SlowLearner"@,
    }
}

/// One interaction, written out.
pub open spec fn meme_text(meme: MemeView) -> Seq<char> {
    "Player Choice: "@ + choice_text(meme.player_choice) + ", Opponent () Choice: "@ + choice_text(
        meme.opp_choice,
    )
}

/// A memory written out: its interactions, most recent first, one to a line.
pub open spec fn log_text(log: Seq<MemeView>) -> Seq<char>
    decreases log.len(),
{
    if log.len() == 0 {
        Seq::empty()
    } else {
        log_text(log.drop_last()) + meme_text(log.last()) + "\n"@
    }
}

/// What is known of an agent, on one line.
pub open spec fn info_text(agent: EntityView) -> Seq<char> {
    "Name: "@ + agent.name + "\tScore: "@ + decimal_text(agent.score) + "\tPersonality: "@
        + personality_text(agent.personality)
}

impl Choice {
    /// The name of the choice: `CHEAT` or `COOPERATE`.
    pub fn to_text(&self) -> (text: String)
        ensures
            text@ == choice_text(*self),
    {
        match self {
            Choice::CHEAT => "CHEAT".to_owned(),
            Choice::COOPERATE => "COOPERATE".to_owned(),
        }
    }
}

impl Personality {
    /// The name of the personality, as it is declared.
    pub fn to_text(&self) -> (text: String)
        ensures
            text@ == personality_text(*self),
    {
        match self {
            Personality::AlwaysCooperate => "AlwaysCooperate".to_owned(),
            Personality::AlwaysCheat => "AlwaysCheat".to_owned(),
            Personality::CopyCat => "CopyCat".to_owned(),
            Personality::Vengeful => "Vengeful".to_owned(),
            Personality::SlowLearner => "SlowLearner".to_owned(),
        }
    }
}

impl Meme {
    /// The two choices of the interaction.
    pub fn to_text(&self) -> (text: String)
        ensures
            text@ == meme_text(self@),
    {
        let mut text: String = "Player Choice: ".to_owned();
        text.append(self.player_choice.to_text().as_str());
        text.append(", Opponent () Choice: ");
        text.append(self.opp_choice.to_text().as_str());
        text
    }
}

impl InMemoryStore {
    /// Every interaction on record, most recent first, each on a line of its own.
    pub fn to_text(&self) -> (text: String)
        ensures
            text@ == log_text(self@),
    {
        let memes: &[Meme] = self.history();
        let n: usize = memes.len();
        let mut text: String = String::new();
        let mut i: usize = 0;
        while i < n
            invariant
                n == memes@.len(),
                i <= n,
                text@ == log_text(meme_views(memes@).take(i as int)),
            decreases n - i,
        {
            assert(meme_views(memes@).take(i + 1).drop_last() =~= meme_views(memes@).take(
                i as int,
            ));
            text.append(memes[i].to_text().as_str());
            text.append("\n");
            i = i + 1;
        }
        assert(meme_views(memes@).take(n as int) =~= meme_views(memes@));
        text
    }
}

impl Entity {
    /// The agent's name.
    pub fn to_text(&self) -> (text: String)
        ensures
            text@ == self@.name,
    {
        self.name().to_owned()
    }

    /// The agent's name, score and personality on one line, with tabs between.
    pub fn full_info(&self) -> (text: String)
        ensures
            text@ == info_text(self@),
    {
        let mut text: String = "Name: ".to_owned();
        text.append(self.name());
        text.append("\tScore: ");
        text.append(decimal(self.current_score()).as_str());
        text.append("\tPersonality: ");
        text.append(self.personality().to_text().as_str());
        text
    }
}

} // verus!
