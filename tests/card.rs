use single_player_poker::{Card, GameError};

// The first and last card of each suit get the right suit and rank
#[test]
fn aces() {
    assert_eq!(
        Card::new(1),
        Card {
            suit: "Spades".to_string(),
            rank: 1,
            value: 1,
        }
    );

    assert_eq!(
        Card::new(13),
        Card {
            suit: "Spades".to_string(),
            rank: 13,
            value: 13,
        }
    );
}

#[test]
fn hearts() {
    assert_eq!(
        Card::new(14),
        Card {
            suit: "Hearts".to_string(),
            rank: 1,
            value: 14,
        }
    );

    assert_eq!(
        Card::new(26),
        Card {
            suit: "Hearts".to_string(),
            rank: 13,
            value: 26,
        }
    );
}

#[test]
fn diamonds() {
    assert_eq!(
        Card::new(27),
        Card {
            suit: "Diamonds".to_string(),
            rank: 1,
            value: 27,
        }
    );

    assert_eq!(
        Card::new(39),
        Card {
            suit: "Diamonds".to_string(),
            rank: 13,
            value: 39,
        }
    );
}

#[test]
fn clubs() {
    assert_eq!(
        Card::new(40),
        Card {
            suit: "Clubs".to_string(),
            rank: 1,
            value: 40,
        }
    );

    assert_eq!(
        Card::new(52),
        Card {
            suit: "Clubs".to_string(),
            rank: 13,
            value: 52,
        }
    );
}

#[test]
fn rank_wraps_every_thirteen_codes() {
    assert_eq!(Card::new(12).rank, 12);
    assert_eq!(Card::new(25).rank, 12);
    assert_eq!(Card::new(38).rank, 12);
    assert_eq!(Card::new(51).rank, 12);
    assert_eq!(Card::new(44).rank, 5);
    assert_eq!(Card::new(44).suit, "Clubs");
}

#[test]
fn try_new_accepts_valid_codes() {
    assert_eq!(Card::try_new(1), Ok(Card::new(1)));
    assert_eq!(Card::try_new(52), Ok(Card::new(52)));
}

#[test]
fn try_new_rejects_invalid_codes() {
    assert_eq!(Card::try_new(0), Err(GameError::InvalidCardCode));
    assert_eq!(Card::try_new(53), Err(GameError::InvalidCardCode));
    assert_eq!(Card::try_new(255), Err(GameError::InvalidCardCode));
}

#[test]
fn get_card_labels() {
    assert_eq!(Card::new(1).get_card(), ("A".to_string(), "Spades".to_string()));
    assert_eq!(Card::new(23).get_card(), ("10".to_string(), "Hearts".to_string()));
    assert_eq!(Card::new(28).get_card(), ("2".to_string(), "Diamonds".to_string()));
    assert_eq!(Card::new(50).get_card(), ("J".to_string(), "Clubs".to_string()));
    assert_eq!(Card::new(12).get_card(), ("Q".to_string(), "Spades".to_string()));
    assert_eq!(Card::new(26).get_card(), ("K".to_string(), "Hearts".to_string()));
    assert_eq!(Card::new(7).get_card(), ("7".to_string(), "Spades".to_string()));
}
