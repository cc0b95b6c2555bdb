use aoc2023::camel_cards::{input_generator, total_winnings, Card, Hand, HandType};

fn hand(cards: &str, bid: u32) -> Hand {
    let c: Vec<Card> = cards
        .bytes()
        .map(|b| Card::from_symbol(b).unwrap())
        .collect();
    Hand {
        cards: [c[0], c[1], c[2], c[3], c[4]],
        bid,
    }
}

#[test]
fn day7_example_part2() {
    let input = "32T3K 765\nT55J5 684\nKK677 28\nKTJJT 220\nQQQJA 483";
    assert_eq!(total_winnings(&input_generator(input).unwrap()), Some(5905));
}

#[test]
fn reading_hands() {
    let hands = input_generator("32T3K 765\nT55J5 684\n").unwrap();
    assert_eq!(hands, vec![hand("32T3K", 765), hand("T55J5", 684)]);
    assert!(input_generator("32T3 765").is_none());
    assert!(input_generator("32T3X 765").is_none());
    assert!(input_generator("32T3K 4294967296").is_none());
    assert!(input_generator("32T3K").is_none());
}

#[test]
fn jokers_join_the_largest_group() {
    assert_eq!(hand("32T3K", 0).hand_type(), HandType::OnePair);
    assert_eq!(hand("KK677", 0).hand_type(), HandType::TwoPair);
    assert_eq!(hand("T55J5", 0).hand_type(), HandType::FourOfAKind);
    assert_eq!(hand("KTJJT", 0).hand_type(), HandType::FourOfAKind);
    assert_eq!(hand("JJJJJ", 0).hand_type(), HandType::FiveOfAKind);
    assert_eq!(hand("JJJJ2", 0).hand_type(), HandType::FiveOfAKind);
    assert_eq!(hand("2345J", 0).hand_type(), HandType::OnePair);
    assert_eq!(hand("23456", 0).hand_type(), HandType::HighCard);
    assert_eq!(hand("22333", 0).hand_type(), HandType::FullHouse);
    assert_eq!(hand("2233J", 0).hand_type(), HandType::FullHouse);
    assert_eq!(hand("2223J", 0).hand_type(), HandType::FourOfAKind);
    assert_eq!(hand("22234", 0).hand_type(), HandType::ThreeOfAKind);
}

#[test]
fn card_symbols() {
    assert_eq!(Card::from_symbol(b'J'), Some(Card { value: 0 }));
    assert_eq!(Card::from_symbol(b'2'), Some(Card { value: 1 }));
    assert_eq!(Card::from_symbol(b'T'), Some(Card { value: 9 }));
    assert_eq!(Card::from_symbol(b'A'), Some(Card { value: 12 }));
    assert_eq!(Card::from_symbol(b'1'), None);
}

#[test]
fn weaker_hands() {
    assert!(hand("2345J", 0).is_weaker(&hand("22345", 0)) == false);
    assert!(hand("J2345", 0).is_weaker(&hand("22345", 0)));
    assert!(!hand("22345", 0).is_weaker(&hand("22345", 0)));
    assert!(hand("23456", 0).is_weaker(&hand("22345", 0)));
}

#[test]
fn equal_hands_keep_their_order() {
    let hands = vec![hand("23456", 10), hand("23456", 1)];
    assert_eq!(total_winnings(&hands), Some(12));
    assert_eq!(total_winnings(&[]), Some(0));
}
