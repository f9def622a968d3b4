use vstd::prelude::*;

verus! {

/// The errors that the game's operations report instead of aborting.
#[derive(Debug, Clone, Copy, PartialEq, Eq, Structural)]
pub enum GameError {
    /// A card code outside `1..=52`.
    InvalidCardCode,
    /// The deck holds fewer codes than a deal or an exchange needs.
    DeckExhausted,
    /// A hand position outside `0..5`, or one given twice in an exchange.
    IndexOutOfRange,
    /// An operation called in a state of the round where it is not allowed.
    InvalidStateTransition,
}

/// The number of cards in a full deck.
pub const DECK_SIZE: u8 = 52;

/// Whether `code` names one of the 52 cards.
pub open spec fn valid_code(code: int) -> bool {
    1 <= code <= 52
}

/// The rank of a card code: 1 is the Ace, 11 to 13 are Jack, Queen and King.
pub open spec fn rank_of(code: int) -> int {
    if code % 13 == 0 {
        13
    } else {
        code % 13
    }
}

/// The suit index of a card code: 0 Spades, 1 Hearts, 2 Diamonds, 3 Clubs.
pub open spec fn suit_of(code: int) -> int {
    (code - 1) / 13
}

/// The name of a suit index.
pub open spec fn suit_name(suit: int) -> Seq<char> {
    if suit == 0 {
        "Spades"@
    } else if suit == 1 {
        "Hearts"@
    } else if suit == 2 {
        "Diamonds"@
    } else {
        "Clubs"@
    }
}

/// The label of a rank: `A`, `2` to `10`, `J`, `Q`, `K`.
pub open spec fn rank_label(rank: int) -> Seq<char> {
    if rank == 1 {
        "A"@
    } else if rank == 2 {
        "2"@
    } else if rank == 3 {
        "3"@
    } else if rank == 4 {
        "4"@
    } else if rank == 5 {
        "5"@
    } else if rank == 6 {
        "6"@
    } else if rank == 7 {
        "7"@
    } else if rank == 8 {
        "8"@
    } else if rank == 9 {
        "9"@
    } else if rank == 10 {
        "10"@
    } else if rank == 11 {
        "J"@
    } else if rank == 12 {
        "Q"@
    } else {
        "K"@
    }
}

/// A playing card, derived from its code in `1..=52`.
#[derive(Clone, Debug, PartialEq)]
pub struct Card {
    pub suit: String,
    pub rank: u8,
    pub value: u8,
}

impl Card {
    /// A card is well formed when its rank and suit are those of its code.
    pub open spec fn wf(&self) -> bool {
        &&& valid_code(self.value as int)
        &&& self.rank as int == rank_of(self.value as int)
        &&& self.suit@ == suit_name(suit_of(self.value as int))
    }

    /// The card of a valid code.
    pub fn new(v: u8) -> (c: Card)
        requires
            valid_code(v as int),
        ensures
            c.wf(),
            c.value == v,
    {
        let value = v;
        let suit = if (value - 1) / 13 == 0 {
            "Spades".to_string()
        } else if (value - 1) / 13 == 1 {
            "Hearts".to_string()
        } else if (value - 1) / 13 == 2 {
            "Diamonds".to_string()
        } else {
            "Clubs".to_string()
        };
        let rank: u8 = if value % 13 == 0 {
            13
        } else {
            value % 13
        };
        Card { suit, rank, value }
    }

    /// The card of a code, or `InvalidCardCode` when the code is outside `1..=52`.
    pub fn try_new(v: u8) -> (r: Result<Card, GameError>)
        ensures
            valid_code(v as int) <==> r.is_ok(),
            r.is_ok() ==> r.unwrap().wf() && r.unwrap().value == v,
            !valid_code(v as int) ==> r == Err::<Card, GameError>(GameError::InvalidCardCode),
    {
        if 1 <= v && v <= DECK_SIZE {
            Ok(Card::new(v))
        } else {
            Err(GameError::InvalidCardCode)
        }
    }

    /// The card as text: its rank label (`A`, `2` to `10`, `J`, `Q`, `K`) and
    /// its suit name.
    pub fn get_card(&self) -> (r: (String, String))
        requires
            self.wf(),
        ensures
            r.0@ == rank_label(self.rank as int),
            r.1@ == self.suit@,
    {
        let rank = match self.rank {
            1 => "A".to_string(),
            2 => "2".to_string(),
            3 => "3".to_string(),
            4 => "4".to_string(),
            5 => "5".to_string(),
            6 => "6".to_string(),
            7 => "7".to_string(),
            8 => "8".to_string(),
            9 => "9".to_string(),
            10 => "10".to_string(),
            11 => "J".to_string(),
            12 => "Q".to_string(),
            _ => "K".to_string(),
        };
        (rank, self.suit.clone())
    }
}

} // verus!
