use euler_library::cards::{self, Card, Hand, Suit, Val};

fn hand_from(text: &str) -> Hand {
    let cs = text
        .chars()
        .filter(|&x| x != ' ' && x != '\n')
        .collect::<Vec<char>>();
    cards::get_hand(cs.len() / 2, cs)
}

#[test]
fn get_hand_reads_cards_from_the_tail() {
    let hand_cs = "TS AC"
        .chars()
        .filter(|&x| x != ' ' && x != '\n')
        .collect::<Vec<char>>();
    let hand1 = cards::get_hand(2, hand_cs);
    let hand2 = Hand {
        cards: vec![
            Card { val: Val::Ace, suit: Suit::Clubs },
            Card { val: Val::Ten, suit: Suit::Spades },
        ],
    };
    assert_eq!(hand1, hand2);
}

#[test]
fn show_renders_the_hand() {
    let hand = hand_from("AD AS JH JS 2C");
    assert_eq!(
        hand.show(),
        "[(Two, Clubs), (Jack, Spades), (Jack, Hearts), (Ace, Spades), (Ace, Diamonds)]"
    );
}

#[test]
fn show_grp_renders_one_hand_per_line() {
    let hand_loser = hand_from("AD AS JH JS 2C");
    let hand_winner = hand_from("3D 3H 3C 2S 2D");
    assert_eq!(
        cards::show_grp(vec![hand_loser, hand_winner]),
        "[(Two, Clubs), (Jack, Spades), (Jack, Hearts), (Ace, Spades), (Ace, Diamonds)]\n[(Two, Diamonds), (Two, Spades), (Three, Clubs), (Three, Hearts), (Three, Diamonds)]\n"
    );
}

#[test]
fn char_conversions() {
    assert_eq!(cards::char_to_suit('H'), Suit::Hearts);
    assert_eq!(cards::char_to_suit('S'), Suit::Spades);
    assert_eq!(cards::char_to_val('A'), Val::Ace);
    assert_eq!(cards::char_to_val('9'), Val::Nine);
    assert_eq!(cards::char_to_val('T'), Val::Ten);
    assert_eq!(cards::char_to_val('K'), Val::King);
}

#[test]
fn full_house_beats_two_pair() {
    let hand_loser = hand_from("AD AS JH JS 2C");
    let hand_winner = hand_from("3D 3H 3C 2S 2D");
    assert!(hand_winner.get_rank() > hand_loser.get_rank());
}

#[test]
fn three_of_a_kind_beats_any_pair() {
    let trips = hand_from("2C 2D 2H 3S 4C");
    let strong_pair = hand_from("AD AS KH QS JC");
    assert!(trips.get_rank() > strong_pair.get_rank());
}

#[test]
fn straight_flush_beats_four_of_a_kind() {
    let straight_flush = hand_from("2H 3H 4H 5H 6H");
    let quads = hand_from("AC AD AH AS KC");
    assert!(straight_flush.get_rank() > quads.get_rank());
}

#[test]
fn rank_ignores_card_order() {
    let a = hand_from("AD 2C JH JS AS");
    let b = hand_from("JS AS 2C AD JH");
    assert_eq!(a.get_rank(), b.get_rank());
}

#[test]
fn ace_low_straight_is_recognized() {
    let wheel = hand_from("AD 2C 3H 4S 5C");
    let pair = hand_from("KD KS 2H 3S 4C");
    assert!(wheel.get_rank() > pair.get_rank());
    assert!(wheel.get_rank() >= 4_000_000);
    assert!(wheel.get_rank() < 5_000_000);
}

#[test]
fn high_card_hand_ranks_below_a_million() {
    let nothing = hand_from("2C 5D 7H 9S JC");
    assert!(nothing.get_rank() < 1_000_000);
}

#[test]
fn group_splits_runs_of_equal_values() {
    let hand = hand_from("3D 3H 3C 2S 2D");
    let groups = hand.group();
    assert_eq!(groups.len(), 2);
    assert_eq!(groups[0].cards.len(), 2);
    assert_eq!(groups[1].cards.len(), 3);
}
