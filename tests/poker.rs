use single_player_poker::{
    change_cards, check_hand, deal, draw_hand, generate_deck, reset_deck, straight, Card, GameError,
};

fn hand_of(codes: &[u8]) -> Vec<Card> {
    codes.iter().map(|c| Card::new(*c)).collect()
}

fn codes_of(hand: &[Card]) -> Vec<u8> {
    hand.iter().map(|c| c.value).collect()
}

#[test]
fn test_change() {
    let mut deck = generate_deck();
    let mut hand = deal(&mut deck).unwrap();
    let hand_copy = hand.clone();
    let to_change: Vec<usize> = vec![0, 1, 4];
    let _discarded = change_cards(&mut deck, &mut hand, &to_change).unwrap();

    // Deck has 5 cards removed from the dealing and
    // 3 more after changing cards
    assert_eq!(44, deck.len());

    // hand cards should be different after changing
    assert_ne!(hand_copy, hand);
}

#[test]
fn test_deal() {
    let mut deck = generate_deck();
    let hand = deal(&mut deck).unwrap();

    // Hands always contain 5 random cards
    assert_eq!(5, hand.len());

    // Hand cards are removed from the deck to avoid
    // duplicates in case of changing cards
    assert_eq!(47, deck.len());
}

#[test]
fn test_reset() {
    let mut deck = generate_deck();
    let mut hand = deal(&mut deck).unwrap();
    let to_change: Vec<usize> = vec![1, 2, 3];
    let mut discarded = change_cards(&mut deck, &mut hand, &to_change).unwrap();

    reset_deck(&mut deck, &mut hand, &mut discarded);
    deck.sort();

    let deck2 = generate_deck();

    // After reset, deck should contain the same
    // values it had when created
    assert_eq!(deck2, deck);

    // The discarded pile is cleared
    assert_eq!(0, discarded.len());
}

#[test]
fn hand_nothing() {
    let hand = hand_of(&[10, 8, 42, 17, 26]);
    assert_eq!(0, check_hand(&hand));
}

#[test]
fn hand_pair() {
    let hand = hand_of(&[1, 4, 18, 14, 45]);
    // A pair returns 1 point
    assert_eq!(1, check_hand(&hand));
}

#[test]
fn hand_two_pair() {
    let hand = hand_of(&[13, 51, 25, 26, 2]);
    // Two pairs return 3 points
    assert_eq!(3, check_hand(&hand));
}

#[test]
fn hand_three_of_a_kind() {
    let hand = hand_of(&[5, 25, 31, 47, 44]);
    // Three of a kind return 5 points
    assert_eq!(5, check_hand(&hand));
}

#[test]
fn hand_straight() {
    // First straight starts with ace and ends in 5
    let hand = hand_of(&[1, 43, 15, 44, 29]);
    assert_eq!(10, check_hand(&hand));

    // Second straight starts with 10 and ends in A
    let hand2 = hand_of(&[1, 24, 23, 26, 25]);
    assert_eq!(10, check_hand(&hand2));

    // Third hand doesn't have a straight
    let hand3 = hand_of(&[5, 5, 3, 2, 4]);
    assert_ne!(10, check_hand(&hand3));

    // Fourth hand doesn't have a straight
    let hand4 = hand_of(&[15, 14, 12, 11, 13]);
    assert_ne!(10, check_hand(&hand4));
}

#[test]
fn hand_flush() {
    // All have the spades suit
    let hand = hand_of(&[13, 10, 2, 1, 5]);
    assert_eq!(15, check_hand(&hand));
}

#[test]
fn hand_full_house() {
    let hand = hand_of(&[44, 5, 14, 1, 27]);
    assert_eq!(18, check_hand(&hand));

    let hand = hand_of(&[44, 40, 14, 1, 27]);
    // Four of a kind is returned
    assert_ne!(18, check_hand(&hand));
}

#[test]
fn hand_four_of_a_kind() {
    let hand = hand_of(&[11, 24, 37, 4, 50]);
    // Four of a kind return 20 points
    assert_eq!(20, check_hand(&hand));
}

#[test]
fn hand_straight_flush() {
    let hand = hand_of(&[20, 19, 17, 16, 18]);
    assert_eq!(30, check_hand(&hand));
}

#[test]
fn hand_royal_flush() {
    let hand = hand_of(&[52, 51, 49, 40, 50]);
    assert_eq!(40, check_hand(&hand));

    let hand2 = hand_of(&[52, 51, 49, 27, 50]);
    assert_ne!(40, check_hand(&hand2));
}

#[test]
fn scoring_scenarios_from_listed_codes() {
    let cases: [([u8; 5], i32); 10] = [
        ([10, 8, 42, 17, 26], 0),
        ([1, 4, 18, 14, 45], 1),
        ([13, 51, 25, 26, 2], 3),
        ([5, 25, 31, 47, 44], 5),
        ([1, 43, 15, 44, 29], 10),
        ([1, 2, 5, 10, 13], 15),
        ([5, 14, 1, 27, 44], 18),
        ([11, 24, 37, 4, 50], 20),
        ([16, 17, 18, 19, 20], 30),
        ([40, 49, 50, 51, 52], 40),
    ];
    for (codes, expected) in cases.iter() {
        assert_eq!(*expected, check_hand(&hand_of(codes)), "hand {:?}", codes);
    }
}

#[test]
fn ace_low_straight_flush_is_not_royal() {
    // Ace to five of Spades
    assert_eq!(30, check_hand(&hand_of(&[1, 2, 3, 4, 5])));
}

#[test]
fn wrap_around_is_no_straight() {
    // Queen, King, Ace, 2, 3 of mixed suits
    assert_eq!(0, check_hand(&hand_of(&[12, 26, 27, 41, 3])));
}

#[test]
fn score_ignores_card_order() {
    let codes = [40u8, 49, 50, 51, 52];
    let base = check_hand(&hand_of(&codes));
    let orders = [[4, 3, 2, 1, 0], [1, 0, 3, 2, 4], [2, 4, 0, 3, 1]];
    for order in orders.iter() {
        let reordered: Vec<u8> = order.iter().map(|i| codes[*i]).collect();
        assert_eq!(base, check_hand(&hand_of(&reordered)));
    }
    let pair = [1u8, 4, 18, 14, 45];
    assert_eq!(check_hand(&hand_of(&pair)), check_hand(&hand_of(&[45, 14, 18, 4, 1])));
}

#[test]
fn straight_checks_consecutive_values() {
    assert!(straight(&[1, 2, 3, 4, 5]));
    assert!(straight(&[10, 11, 12, 13, 14]));
    assert!(straight(&[7]));
    assert!(!straight(&[1, 2, 4, 5, 6]));
    assert!(!straight(&[2, 1]));
}

#[test]
fn draw_hand_pops_from_the_top() {
    let mut deck: Vec<u8> = (1..=10).collect();
    let hand = draw_hand(&mut deck).unwrap();
    assert_eq!(codes_of(&hand), vec![10, 9, 8, 7, 6]);
    assert_eq!(deck, vec![1, 2, 3, 4, 5]);
}

#[test]
fn draw_hand_with_too_few_codes_fails() {
    let mut deck: Vec<u8> = vec![1, 2, 3, 4];
    assert_eq!(draw_hand(&mut deck), Err(GameError::DeckExhausted));
    assert_eq!(deck, vec![1, 2, 3, 4]);
}

#[test]
fn deal_with_too_few_codes_fails() {
    let mut deck: Vec<u8> = vec![7, 8];
    assert_eq!(deal(&mut deck), Err(GameError::DeckExhausted));
    assert_eq!(deck, vec![7, 8]);
}

#[test]
fn deal_yields_distinct_codes_taken_from_the_deck() {
    for _ in 0..200 {
        let mut deck = generate_deck();
        let hand = deal(&mut deck).unwrap();
        let mut codes = codes_of(&hand);
        codes.sort();
        codes.dedup();
        assert_eq!(codes.len(), 5);
        for c in codes.iter() {
            assert!(!deck.contains(c));
        }
        let mut all = deck.clone();
        all.extend(codes.iter());
        all.sort();
        assert_eq!(all, generate_deck());
    }
}

#[test]
fn deal_shuffles_the_deck() {
    // Without a shuffle every deal from a fresh deck would take 52 down to 48
    let unshuffled = vec![52u8, 51, 50, 49, 48];
    let mut differs = false;
    for _ in 0..20 {
        let mut deck = generate_deck();
        let hand = deal(&mut deck).unwrap();
        if codes_of(&hand) != unshuffled {
            differs = true;
        }
    }
    assert!(differs);
}

#[test]
fn dealt_codes_spread_over_the_deck() {
    let mut seen = [0u32; 53];
    let mut deck = generate_deck();
    for _ in 0..2000 {
        let mut hand = deal(&mut deck).unwrap();
        for c in hand.iter() {
            seen[c.value as usize] += 1;
        }
        let mut discarded: Vec<u8> = Vec::new();
        reset_deck(&mut deck, &mut hand, &mut discarded);
    }
    // 10000 codes drawn: each of the 52 is expected about 192 times
    for code in 1..=52 {
        assert!(seen[code] > 100 && seen[code] < 300, "code {} seen {} times", code, seen[code]);
    }
}

#[test]
fn change_replaces_from_the_top_in_order() {
    let mut deck: Vec<u8> = (1..=20).collect();
    let mut hand = hand_of(&[30, 31, 32, 33, 34]);
    let discarded = change_cards(&mut deck, &mut hand, &vec![3, 0]).unwrap();
    assert_eq!(discarded, vec![33, 30]);
    assert_eq!(codes_of(&hand), vec![19, 31, 32, 20, 34]);
    assert_eq!(deck, (1..=18).collect::<Vec<u8>>());
}

#[test]
fn change_sizes_zero_to_three() {
    for k in 0..=3usize {
        let mut deck = generate_deck();
        let mut hand = deal(&mut deck).unwrap();
        let to_change: Vec<usize> = (0..k).collect();
        let discarded = change_cards(&mut deck, &mut hand, &to_change).unwrap();
        assert_eq!(discarded.len(), k);
        assert_eq!(deck.len(), 47 - k);
        assert_eq!(hand.len(), 5);
    }
}

#[test]
fn change_rejects_position_outside_hand() {
    let mut deck: Vec<u8> = (1..=20).collect();
    let mut hand = hand_of(&[30, 31, 32, 33, 34]);
    let before = hand.clone();
    assert_eq!(change_cards(&mut deck, &mut hand, &vec![1, 5]), Err(GameError::IndexOutOfRange));
    assert_eq!(hand, before);
    assert_eq!(deck.len(), 20);
}

#[test]
fn change_rejects_repeated_position() {
    let mut deck: Vec<u8> = (1..=20).collect();
    let mut hand = hand_of(&[30, 31, 32, 33, 34]);
    assert_eq!(change_cards(&mut deck, &mut hand, &vec![2, 2]), Err(GameError::IndexOutOfRange));
    assert_eq!(deck.len(), 20);
}

#[test]
fn change_with_short_deck_fails_without_change() {
    let mut deck: Vec<u8> = vec![1, 2];
    let mut hand = hand_of(&[30, 31, 32, 33, 34]);
    let before = hand.clone();
    assert_eq!(change_cards(&mut deck, &mut hand, &vec![0, 1, 2]), Err(GameError::DeckExhausted));
    assert_eq!(hand, before);
    assert_eq!(deck, vec![1, 2]);
}

#[test]
fn reset_puts_discards_then_hand_on_top() {
    let mut deck: Vec<u8> = vec![1, 2];
    let mut hand = hand_of(&[30, 31, 32, 33, 34]);
    let mut discarded: Vec<u8> = vec![7, 8];
    reset_deck(&mut deck, &mut hand, &mut discarded);
    assert_eq!(deck, vec![1, 2, 7, 8, 30, 31, 32, 33, 34]);
    assert!(hand.is_empty());
    assert!(discarded.is_empty());
}

#[test]
fn reset_after_many_rounds_restores_every_code() {
    let mut deck = generate_deck();
    for round in 0..50usize {
        let mut hand = deal(&mut deck).unwrap();
        let to_change: Vec<usize> = (0..(round % 4)).collect();
        let mut discarded = change_cards(&mut deck, &mut hand, &to_change).unwrap();
        reset_deck(&mut deck, &mut hand, &mut discarded);
        assert!(discarded.is_empty());
        let mut sorted = deck.clone();
        sorted.sort();
        assert_eq!(sorted, generate_deck());
    }
}
