//! Scoring a strategy guide for rock, paper, scissors.
//!
//! Each round pairs the opponent's hand with a second column. Read as a hand,
//! the round scores the hand's value plus the outcome; read as a wanted
//! outcome, the hand that produces it is chosen first.
use vstd::prelude::*;

verus! {

/// The outcome of one round, seen from the player.
#[derive(Clone, Copy, Debug, PartialEq, Eq, Structural)]
pub enum GameResult {
    Win,
    Draw,
    Loose,
}

/// A hand; read as a wanted outcome it means lose, draw or win in turn.
#[derive(Clone, Copy, Debug, PartialEq, Eq, Structural)]
pub enum Hand {
    StoneOrLoose,
    PaperOrDraw,
    ScissorsOrWin,
}

pub open spec fn result_points(r: GameResult) -> int {
    match r {
        GameResult::Win => 6,
        GameResult::Draw => 3,
        GameResult::Loose => 0,
    }
}

/// Stone, paper and scissors count 1, 2 and 3.
pub open spec fn hand_points(h: Hand) -> int {
    match h {
        Hand::StoneOrLoose => 1,
        Hand::PaperOrDraw => 2,
        Hand::ScissorsOrWin => 3,
    }
}

/// The hand that `h` beats.
pub open spec fn beats(h: Hand) -> Hand {
    match h {
        Hand::StoneOrLoose => Hand::ScissorsOrWin,
        Hand::PaperOrDraw => Hand::StoneOrLoose,
        Hand::ScissorsOrWin => Hand::PaperOrDraw,
    }
}

/// The outcome for a player showing `mine` against `theirs`.
pub open spec fn outcome(mine: Hand, theirs: Hand) -> GameResult {
    if mine == theirs {
        GameResult::Draw
    } else if beats(mine) == theirs {
        GameResult::Win
    } else {
        GameResult::Loose
    }
}

/// The outcome that the second column asks for.
pub open spec fn wanted(h: Hand) -> GameResult {
    match h {
        Hand::StoneOrLoose => GameResult::Loose,
        Hand::PaperOrDraw => GameResult::Draw,
        Hand::ScissorsOrWin => GameResult::Win,
    }
}

impl GameResult {
    /// Points for this outcome: 6, 3 or 0.
    pub fn score(&self) -> (r: u64)
        ensures
            r as int == result_points(*self),
    {
        match self {
            GameResult::Win => 6,
            GameResult::Draw => 3,
            GameResult::Loose => 0,
        }
    }
}

impl Hand {
    /// Points for showing this hand.
    pub fn score(&self) -> (r: u64)
        ensures
            r as int == hand_points(*self),
    {
        match self {
            Hand::StoneOrLoose => 1,
            Hand::PaperOrDraw => 2,
            Hand::ScissorsOrWin => 3,
        }
    }

    /// Points for the outcome that this hand asks for.
    pub fn result_score(&self) -> (r: u64)
        ensures
            r as int == result_points(wanted(*self)),
    {
        match self {
            Hand::StoneOrLoose => 0,
            Hand::PaperOrDraw => 3,
            Hand::ScissorsOrWin => 6,
        }
    }

    /// The outcome of showing this hand against `other`.
    pub fn play(&self, other: &Self) -> (r: GameResult)
        ensures
            r == outcome(*self, *other),
    {
        match (self, other) {
            (Hand::StoneOrLoose, Hand::ScissorsOrWin) => GameResult::Win,
            (Hand::PaperOrDraw, Hand::StoneOrLoose) => GameResult::Win,
            (Hand::ScissorsOrWin, Hand::PaperOrDraw) => GameResult::Win,
            (Hand::StoneOrLoose, Hand::StoneOrLoose) => GameResult::Draw,
            (Hand::PaperOrDraw, Hand::PaperOrDraw) => GameResult::Draw,
            (Hand::ScissorsOrWin, Hand::ScissorsOrWin) => GameResult::Draw,
            _ => GameResult::Loose,
        }
    }

    /// The hand that beats this one (`opponent_win`) or that this one beats.
    pub fn get_opponent(&self, opponent_win: bool) -> (r: Hand)
        ensures
            opponent_win ==> beats(r) == *self,
            !opponent_win ==> r == beats(*self),
    {
        if opponent_win {
            match self {
                Hand::StoneOrLoose => Hand::PaperOrDraw,
                Hand::PaperOrDraw => Hand::ScissorsOrWin,
                Hand::ScissorsOrWin => Hand::StoneOrLoose,
            }
        } else {
            match self {
                Hand::StoneOrLoose => Hand::ScissorsOrWin,
                Hand::PaperOrDraw => Hand::StoneOrLoose,
                Hand::ScissorsOrWin => Hand::PaperOrDraw,
            }
        }
    }

    /// The hand to show against `other` so that the round ends as this hand asks.
    pub fn get_part2_matching(&self, other: &Self) -> (r: Hand)
        ensures
            outcome(r, *other) == wanted(*self),
    {
        match self {
            Hand::PaperOrDraw => *other,
            Hand::ScissorsOrWin => other.get_opponent(true),
            Hand::StoneOrLoose => other.get_opponent(false),
        }
    }

    /// Reads a column letter: `A`/`X`, `B`/`Y`, `C`/`Z`.
    pub fn from_letter(c: char) -> (r: Option<Hand>)
        ensures
            r == letter_hand(c),
    {
        match c {
            'A' | 'X' => Some(Hand::StoneOrLoose),
            'B' | 'Y' => Some(Hand::PaperOrDraw),
            'C' | 'Z' => Some(Hand::ScissorsOrWin),
            _ => None,
        }
    }
}

pub open spec fn letter_hand(c: char) -> Option<Hand> {
    if c == 'A' || c == 'X' {
        Some(Hand::StoneOrLoose)
    } else if c == 'B' || c == 'Y' {
        Some(Hand::PaperOrDraw)
    } else if c == 'C' || c == 'Z' {
        Some(Hand::ScissorsOrWin)
    } else {
        None
    }
}

/// Score of one round `(theirs, mine)` when the second column is a hand.
pub open spec fn round_by_hand(g: (Hand, Hand)) -> int {
    hand_points(g.1) + result_points(outcome(g.1, g.0))
}

/// Score of one round `(theirs, wanted)` when the second column is an outcome.
pub open spec fn round_by_outcome(g: (Hand, Hand)) -> int {
    let mine = choose|h: Hand| outcome(h, g.0) == wanted(g.1);
    hand_points(mine) + result_points(wanted(g.1))
}

pub open spec fn total_by_hand(games: Seq<(Hand, Hand)>) -> int
    decreases games.len(),
{
    if games.len() == 0 {
        0
    } else {
        total_by_hand(games.drop_last()) + round_by_hand(games.last())
    }
}

pub open spec fn total_by_outcome(games: Seq<(Hand, Hand)>) -> int
    decreases games.len(),
{
    if games.len() == 0 {
        0
    } else {
        total_by_outcome(games.drop_last()) + round_by_outcome(games.last())
    }
}

proof fn lemma_total_bounds(games: Seq<(Hand, Hand)>)
    ensures
        0 <= total_by_hand(games) <= 9 * games.len(),
        0 <= total_by_outcome(games) <= 9 * games.len(),
    decreases games.len(),
{
    if games.len() > 0 {
        lemma_total_bounds(games.drop_last());
        let g = games.last();
        let mine = choose|h: Hand| outcome(h, g.0) == wanted(g.1);
        assert(hand_points(mine) <= 3);
    }
}

/// The only hand that gives `wanted` against `theirs`.
proof fn lemma_matching_unique(h: Hand, theirs: Hand, w: GameResult)
    requires
        outcome(h, theirs) == w,
    ensures
        h == choose|k: Hand| outcome(k, theirs) == w,
{
    let k = choose|k: Hand| outcome(k, theirs) == w;
    assert(outcome(k, theirs) == w);
}

/// Total score when the second column is the hand to show.
pub fn total_score_by_hand(games: &Vec<(Hand, Hand)>) -> (r: u64)
    requires
        games@.len() <= 1_000_000_000,
    ensures
        r as int == total_by_hand(games@),
{
    let mut score: u64 = 0;
    let mut i: usize = 0;
    while i < games.len()
        invariant
            0 <= i <= games@.len(),
            games@.len() <= 1_000_000_000,
            score as int == total_by_hand(games@.subrange(0, i as int)),
        decreases games@.len() - i,
    {
        let g = games[i];
        proof {
            assert(games@.subrange(0, i + 1).drop_last() == games@.subrange(0, i as int));
            lemma_total_bounds(games@.subrange(0, i as int));
        }
        score = score + g.1.play(&g.0).score() + g.1.score();
        i = i + 1;
    }
    proof {
        assert(games@.subrange(0, i as int) == games@);
    }
    score
}

/// Total score when the second column is the wanted outcome.
pub fn total_score_by_outcome(games: &Vec<(Hand, Hand)>) -> (r: u64)
    requires
        games@.len() <= 1_000_000_000,
    ensures
        r as int == total_by_outcome(games@),
{
    let mut score: u64 = 0;
    let mut i: usize = 0;
    while i < games.len()
        invariant
            0 <= i <= games@.len(),
            games@.len() <= 1_000_000_000,
            score as int == total_by_outcome(games@.subrange(0, i as int)),
        decreases games@.len() - i,
    {
        let g = games[i];
        proof {
            assert(games@.subrange(0, i + 1).drop_last() == games@.subrange(0, i as int));
            lemma_total_bounds(games@.subrange(0, i as int));
        }
        let mine = g.1.get_part2_matching(&g.0);
        proof {
            lemma_matching_unique(mine, g.0, wanted(g.1));
        }
        score = score + mine.score() + g.1.result_score();
        i = i + 1;
    }
    proof {
        assert(games@.subrange(0, i as int) == games@);
    }
    score
}

} // verus!
