//! Poker hands: parsing cards from characters, grouping equal values, and
//! ranking five-card hands.

use vstd::prelude::*;
use vstd::string::StringExecFns;

verus! {

/// Card face value, two through ace.
#[derive(Copy, Clone, PartialEq, Eq, Structural, Debug)]
pub enum Val {
    Two,
    Three,
    Four,
    Five,
    Six,
    Seven,
    Eight,
    Nine,
    Ten,
    Jack,
    Queen,
    King,
    Ace,
}

/// Card suit.
#[derive(Copy, Clone, PartialEq, Eq, Structural, Debug)]
pub enum Suit {
    Spades,
    Hearts,
    Diamonds,
    Clubs,
}

/// A playing card.
#[derive(Copy, Clone, PartialEq, Eq, Structural, Debug)]
pub struct Card {
    pub val: Val,
    pub suit: Suit,
}

/// A hand of cards.
#[derive(Clone, PartialEq, Eq, Debug)]
pub struct Hand {
    pub cards: Vec<Card>,
}

/// Numeric strength of a face value: two is `2`, ace is `14`.
pub open spec fn score(v: Val) -> nat {
    match v {
        Val::Two => 2,
        Val::Three => 3,
        Val::Four => 4,
        Val::Five => 5,
        Val::Six => 6,
        Val::Seven => 7,
        Val::Eight => 8,
        Val::Nine => 9,
        Val::Ten => 10,
        Val::Jack => 11,
        Val::Queen => 12,
        Val::King => 13,
        Val::Ace => 14,
    }
}

/// Order of the suits as declared: spades first.
pub open spec fn suit_index(s: Suit) -> nat {
    match s {
        Suit::Spades => 0,
        Suit::Hearts => 1,
        Suit::Diamonds => 2,
        Suit::Clubs => 3,
    }
}

/// Card order: by value, then by suit.
pub open spec fn card_le(a: Card, b: Card) -> bool {
    score(a.val) < score(b.val) || (score(a.val) == score(b.val) && suit_index(a.suit)
        <= suit_index(b.suit))
}

/// The card order as a first-class relation, for sorting.
pub open spec fn card_leq() -> spec_fn(Card, Card) -> bool {
    |a: Card, b: Card| card_le(a, b)
}

/// The card order is a total order.
pub proof fn lemma_card_total_ordering()
    ensures
        vstd::relations::total_ordering(card_leq()),
{
    let leq = card_leq();
    assert forall|a: Card| #[trigger] leq(a, a) by {}
    assert forall|a: Card, b: Card| #[trigger] leq(a, b) && #[trigger] leq(b, a) implies a
        == b by {
        assert(score(a.val) == score(b.val) && suit_index(a.suit) == suit_index(b.suit));
        assert(a.val == b.val);
        assert(a.suit == b.suit);
    }
    assert forall|a: Card, b: Card, c: Card| #[trigger] leq(a, b) && #[trigger] leq(b, c)
        implies leq(a, c) by {}
    assert forall|a: Card, b: Card| true implies #[trigger] leq(a, b) || #[trigger] leq(
        b,
        a,
    ) by {}
}

/// The sorted arrangement of a sequence of cards.
pub open spec fn sorted_cards(s: Seq<Card>) -> Seq<Card> {
    s.sort_by(card_leq())
}

fn card_le_exec(a: &Card, b: &Card) -> (r: bool)
    ensures
        r == card_le(*a, *b),
{
    let sa: usize = match a.val {
        Val::Two => 2,
        Val::Three => 3,
        Val::Four => 4,
        Val::Five => 5,
        Val::Six => 6,
        Val::Seven => 7,
        Val::Eight => 8,
        Val::Nine => 9,
        Val::Ten => 10,
        Val::Jack => 11,
        Val::Queen => 12,
        Val::King => 13,
        Val::Ace => 14,
    };
    let sb: usize = match b.val {
        Val::Two => 2,
        Val::Three => 3,
        Val::Four => 4,
        Val::Five => 5,
        Val::Six => 6,
        Val::Seven => 7,
        Val::Eight => 8,
        Val::Nine => 9,
        Val::Ten => 10,
        Val::Jack => 11,
        Val::Queen => 12,
        Val::King => 13,
        Val::Ace => 14,
    };
    if sa != sb {
        return sa < sb;
    }
    let ia: usize = match a.suit {
        Suit::Spades => 0,
        Suit::Hearts => 1,
        Suit::Diamonds => 2,
        Suit::Clubs => 3,
    };
    let ib: usize = match b.suit {
        Suit::Spades => 0,
        Suit::Hearts => 1,
        Suit::Diamonds => 2,
        Suit::Clubs => 3,
    };
    ia <= ib
}

/// Sorts cards by value, then suit: the unique sorted arrangement.
fn sort_cards(v: &Vec<Card>) -> (r: Vec<Card>)
    ensures
        r@ == sorted_cards(v@),
{
    let mut r: Vec<Card> = Vec::new();
    let mut t: usize = 0;
    proof {
        assert(v@.take(0) =~= Seq::<Card>::empty());
        assert(r@.to_multiset() =~= v@.take(0).to_multiset());
    }
    while t < v.len()
        invariant
            t <= v@.len(),
            r@.to_multiset() == v@.take(t as int).to_multiset(),
            vstd::relations::sorted_by(r@, card_leq()),
        decreases v@.len() - t,
    {
        let x = v[t];
        let mut p: usize = 0;
        while p < r.len() && card_le_exec(&r[p], &x)
            invariant
                p <= r@.len(),
                forall|u: int| 0 <= u < p ==> card_le(#[trigger] r@[u], x),
            decreases r@.len() - p,
        {
            p = p + 1;
        }
        let ghost old_r = r@;
        r.insert(p, x);
        proof {
            broadcast use vstd::seq_lib::to_multiset_insert;
            broadcast use vstd::seq_lib::to_multiset_build;

            assert(r@ == old_r.insert(p as int, x));
            assert(v@.take(t + 1) =~= v@.take(t as int).push(x));
            assert(r@.to_multiset() =~= v@.take(t + 1).to_multiset());
            let leq = card_leq();
            assert forall|i: int, j: int| 0 <= i < j < r@.len() implies #[trigger] leq(
                r@[i],
                r@[j],
            ) by {
                if p < old_r.len() {
                    assert(!card_le(old_r[p as int], x));
                }
                assert(forall|u: int| 0 <= u < p ==> old_r[u] == #[trigger] r@[u]);
                assert(forall|u: int| p < u < r@.len() ==> old_r[u - 1] == #[trigger] r@[u]);
                assert(r@[p as int] == x);
                if j < p {
                    assert(leq(old_r[i], old_r[j]));
                } else if i > p {
                    assert(leq(old_r[i - 1], old_r[j - 1]));
                } else if i == p {
                    assert(r@[j] == old_r[j - 1]);
                    if j - 1 > p {
                        assert(leq(old_r[p as int], old_r[j - 1]));
                    }
                } else if j == p {
                    assert(card_le(old_r[i], x));
                } else {
                    assert(card_le(old_r[i], x));
                    if j - 1 > p {
                        assert(leq(old_r[p as int], old_r[j - 1]));
                    }
                }
            }
        }
        t = t + 1;
    }
    proof {
        assert(v@.take(v@.len() as int) =~= v@);
        lemma_card_total_ordering();
        v@.lemma_sort_by_ensures(card_leq());
        vstd::seq_lib::lemma_sorted_unique(r@, v@.sort_by(card_leq()), card_leq());
    }
    r
}


/// The views of a list of hands.
pub open spec fn hand_views(s: Seq<Hand>) -> Seq<Seq<Card>> {
    s.map_values(|h: Hand| h.cards@)
}

/// Runs of equal face value in a sequence (meant for a sorted one): each
/// new card either extends the last run or opens a new one.
pub open spec fn group_seq(s: Seq<Card>) -> Seq<Seq<Card>>
    decreases s.len(),
{
    if s.len() == 0 {
        Seq::empty()
    } else {
        let u = group_seq(s.drop_last());
        if u.len() > 0 && u.last().len() > 0 && s.last().val == u.last().last().val {
            u.update(u.len() - 1, u.last().push(s.last()))
        } else {
            u.push(seq![s.last()])
        }
    }
}

/// Next face value in the cycle two, three, ..., ace, two.
pub open spec fn next_score(v: nat) -> nat {
    if v == 14 {
        2
    } else {
        v + 1
    }
}

impl Card {
    /// The following face value, wrapping from ace back to two.
    pub fn next_val(&self) -> (r: Val)
        ensures
            score(r) == next_score(score(self.val)),
    {
        match self.val {
            Val::Ace => Val::Two,
            Val::Two => Val::Three,
            Val::Three => Val::Four,
            Val::Four => Val::Five,
            Val::Five => Val::Six,
            Val::Six => Val::Seven,
            Val::Seven => Val::Eight,
            Val::Eight => Val::Nine,
            Val::Nine => Val::Ten,
            Val::Ten => Val::Jack,
            Val::Jack => Val::Queen,
            Val::Queen => Val::King,
            Val::King => Val::Ace,
        }
    }
}

/// All five cards share one suit.
pub open spec fn flush_spec(s: Seq<Card>) -> bool {
    forall|i: int| 0 <= i < s.len() ==> #[trigger] s[i].suit == s[0].suit
}

/// The five sorted cards run in consecutive values, counting the ace
/// either high or low.
pub open spec fn straight_spec(s: Seq<Card>) -> bool {
    straight_chain(s) || (s.len() == 5 && score(s[0].val) == 2 && score(s[4].val) == 14
        && score(s[1].val) == 3 && score(s[2].val) == 4 && score(s[3].val) == 5)
}

/// Each card is followed by its successor value.
pub open spec fn straight_chain(s: Seq<Card>) -> bool {
    forall|i: int| 0 <= i < s.len() - 1 ==> score(s[i + 1].val) == next_score(
        #[trigger] score(s[i].val),
    )
}

/// Some group has exactly `n` cards.
pub open spec fn has_group_of(gs: Seq<Seq<Card>>, n: nat) -> bool {
    exists|t: int| 0 <= t < gs.len() && #[trigger] gs[t].len() == n
}

/// At least two distinct groups are pairs.
pub open spec fn has_two_pairs(gs: Seq<Seq<Card>>) -> bool {
    exists|t1: int, t2: int|
        0 <= t1 < t2 < gs.len() && #[trigger] gs[t1].len() == 2 && #[trigger] gs[t2].len() == 2
}

/// Value of a high-card hand read in sorted order, base fourteen.
pub open spec fn high_card_value(s: Seq<Card>) -> nat
    decreases s.len(),
{
    if s.len() == 0 {
        0
    } else {
        high_card_value(s.drop_last()) + score(s.last().val) * crate::big::pow_nat(
            14,
            (s.len() - 1) as nat,
        )
    }
}

/// Score of the last pair group, zero when none exists.
pub open spec fn last_pair_score(gs: Seq<Seq<Card>>) -> nat
    decreases gs.len(),
{
    if gs.len() == 0 {
        0
    } else if gs.last().len() == 2 {
        score(gs.last()[0].val)
    } else {
        last_pair_score(gs.drop_last())
    }
}

/// Score of the first pair group, zero when none exists.
pub open spec fn first_pair_score(gs: Seq<Seq<Card>>) -> nat
    decreases gs.len(),
{
    if gs.len() == 0 {
        0
    } else if first_pair_score(gs.drop_last()) != 0 {
        first_pair_score(gs.drop_last())
    } else if gs.last().len() == 2 {
        score(gs.last()[0].val)
    } else {
        0
    }
}

/// Number of pair groups.
pub open spec fn pair_group_count(gs: Seq<Seq<Card>>) -> nat
    decreases gs.len(),
{
    if gs.len() == 0 {
        0
    } else {
        pair_group_count(gs.drop_last()) + (if gs.last().len() == 2 {
            1nat
        } else {
            0nat
        })
    }
}

/// The bonus the pair groups contribute to a one-pair hand.
pub open spec fn pair_bonus(gs: Seq<Seq<Card>>) -> nat
    decreases gs.len(),
{
    if gs.len() == 0 {
        0
    } else {
        pair_bonus(gs.drop_last()) + (if gs.last().len() == 2 {
            2744 * score(gs.last()[0].val)
        } else {
            0nat
        })
    }
}

/// Number of cards of `s` whose value is not `skip`.
pub open spec fn kicker_count(s: Seq<Card>, skip: nat) -> nat
    decreases s.len(),
{
    if s.len() == 0 {
        0
    } else {
        kicker_count(s.drop_last(), skip) + (if score(s.last().val) != skip {
            1nat
        } else {
            0nat
        })
    }
}

/// Value of the cards of `s` other than the pair value, base fourteen in
/// sorted order.
pub open spec fn kicker_value(s: Seq<Card>, skip: nat) -> nat
    decreases s.len(),
{
    if s.len() == 0 {
        0
    } else {
        kicker_value(s.drop_last(), skip) + (if score(s.last().val) != skip {
            score(s.last().val) * crate::big::pow_nat(14, kicker_count(s.drop_last(), skip))
        } else {
            0nat
        })
    }
}

/// Sum of the first-card scores of the non-pair groups.
pub open spec fn non_pair_sum(gs: Seq<Seq<Card>>) -> nat
    decreases gs.len(),
{
    if gs.len() == 0 {
        0
    } else {
        non_pair_sum(gs.drop_last()) + (if gs.last().len() != 2 && gs.last().len() > 0 {
            score(gs.last()[0].val)
        } else {
            0nat
        })
    }
}

/// Value of a one-pair hand: the pair, then the kickers.
pub open spec fn one_pair_value(s: Seq<Card>, gs: Seq<Seq<Card>>) -> nat {
    pair_bonus(gs) + kicker_value(s, last_pair_score(gs))
}

/// Value of a two-pair hand: the higher pair, the lower pair, the rest.
pub open spec fn two_pair_value(gs: Seq<Seq<Card>>) -> nat {
    let p1 = first_pair_score(gs);
    let p2 = if pair_group_count(gs) >= 2 {
        last_pair_score(gs)
    } else {
        0
    };
    non_pair_sum(gs) + (if p1 > p2 {
        196 * p1 + 114 * p2
    } else {
        196 * p2 + 114 * p1
    })
}

/// The rank class a five-card hand falls in, from straight flush (eight)
/// down to high card (zero).
pub open spec fn hand_category(cards: Seq<Card>) -> int {
    let s = sorted_cards(cards);
    let gs = group_seq(s);
    if flush_spec(s) && straight_spec(s) {
        8
    } else if has_group_of(gs, 4) {
        7
    } else if has_group_of(gs, 2) && has_group_of(gs, 3) {
        6
    } else if flush_spec(s) {
        5
    } else if straight_spec(s) {
        4
    } else if has_group_of(gs, 3) {
        3
    } else if has_two_pairs(gs) {
        2
    } else if has_group_of(gs, 2) {
        1
    } else if gs.len() == 5 {
        0
    } else {
        -1
    }
}

/// The numeric rank of a five-card hand: a million times the category,
/// plus the tie-breaking value of the cards.
pub open spec fn rank_spec(cards: Seq<Card>) -> int {
    let s = sorted_cards(cards);
    let gs = group_seq(s);
    let c = hand_category(cards);
    if c == 8 {
        8000000int + high_card_value(s)
    } else if c == 7 {
        7000000int + score(s[2].val)
    } else if c == 6 {
        6000000int + score(s[2].val)
    } else if c == 5 {
        5000000int + high_card_value(s)
    } else if c == 4 {
        4000000int + high_card_value(s)
    } else if c == 3 {
        3000000int + score(s[2].val)
    } else if c == 2 {
        2000000int + two_pair_value(gs)
    } else if c == 1 {
        1000000int + one_pair_value(s, gs)
    } else if c == 0 {
        high_card_value(s) as int
    } else {
        0
    }
}


/// Powers of fourteen stay small for five-card hands.
proof fn lemma_pow14_values()
    ensures
        crate::big::pow_nat(14, 0) == 1,
        crate::big::pow_nat(14, 1) == 14,
        crate::big::pow_nat(14, 2) == 196,
        crate::big::pow_nat(14, 3) == 2744,
        crate::big::pow_nat(14, 4) == 38416,
        crate::big::pow_nat(14, 5) == 537824,
{
    assert(crate::big::pow_nat(14, 0) == 1);
    assert(crate::big::pow_nat(14, 1) == 14);
    assert(crate::big::pow_nat(14, 2) == 196);
    assert(crate::big::pow_nat(14, 3) == 2744);
    assert(crate::big::pow_nat(14, 4) == 38416);
    assert(crate::big::pow_nat(14, 5) == 537824);
}

/// Base-fourteen value of at most `c` digits, each at most fourteen.
pub open spec fn value_cap(c: nat) -> nat
    decreases c,
{
    if c == 0 {
        0
    } else {
        value_cap((c - 1) as nat) + 14 * crate::big::pow_nat(14, (c - 1) as nat)
    }
}

proof fn lemma_pow14_bound(e: nat)
    requires
        e <= 5,
    ensures
        crate::big::pow_nat(14, e) <= 537824,
        crate::big::pow_nat(14, e) >= 1,
{
    lemma_pow14_values();
    if e == 0 {
    } else if e == 1 {
    } else if e == 2 {
    } else if e == 3 {
    } else if e == 4 {
    } else {
        assert(e == 5);
    }
}

proof fn lemma_value_cap_le(c: nat)
    requires
        c <= 5,
    ensures
        value_cap(c) <= 579194,
{
    lemma_value_cap_5();
    lemma_pow14_values();
    if c == 0 {
    } else if c == 1 {
    } else if c == 2 {
    } else if c == 3 {
    } else if c == 4 {
    } else {
        assert(c == 5);
    }
}

proof fn lemma_value_cap_5()
    ensures
        value_cap(0) == 0,
        value_cap(1) == 14,
        value_cap(2) == 210,
        value_cap(3) == 2954,
        value_cap(4) == 41370,
        value_cap(5) == 579194,
{
    lemma_pow14_values();
    assert(value_cap(0) == 0);
    assert(value_cap(1) == 14);
    assert(value_cap(2) == value_cap(1) + 14 * 14);
    assert(value_cap(3) == value_cap(2) + 14 * 196);
    assert(value_cap(4) == value_cap(3) + 14 * 2744);
    assert(value_cap(5) == value_cap(4) + 14 * 38416);
}

proof fn lemma_kicker_bound(s: Seq<Card>, skip: nat)
    ensures
        kicker_count(s, skip) <= s.len(),
        kicker_value(s, skip) <= value_cap(kicker_count(s, skip)),
    decreases s.len(),
{
    if s.len() > 0 {
        lemma_kicker_bound(s.drop_last(), skip);
        if score(s.last().val) != skip {
            let c = kicker_count(s.drop_last(), skip);
            assert(score(s.last().val) * crate::big::pow_nat(14, c) <= 14
                * crate::big::pow_nat(14, c)) by (nonlinear_arith)
                requires
                    score(s.last().val) <= 14,
                    crate::big::pow_nat(14, c) >= 0,
            ;
            assert(value_cap(c + 1) == value_cap(c) + 14 * crate::big::pow_nat(14, c));
        }
    }
}

proof fn lemma_hcv_bound(s: Seq<Card>)
    ensures
        high_card_value(s) <= value_cap(s.len()),
    decreases s.len(),
{
    if s.len() > 0 {
        lemma_hcv_bound(s.drop_last());
        let c = (s.len() - 1) as nat;
        assert(score(s.last().val) * crate::big::pow_nat(14, c) <= 14 * crate::big::pow_nat(
            14,
            c,
        )) by (nonlinear_arith)
            requires
                score(s.last().val) <= 14,
                crate::big::pow_nat(14, c) >= 0,
        ;
        assert(value_cap(c + 1) == value_cap(c) + 14 * crate::big::pow_nat(14, c));
    }
}

impl Hand {
    /// Splits the hand, sorted, into its runs of equal face value.
    pub fn group(&self) -> (r: Vec<Hand>)
        ensures
            hand_views(r@) == group_seq(sorted_cards(self.cards@)),
    {
        let sorted = sort_cards(&self.cards);
        let ghost s = sorted@;
        let mut res: Vec<Hand> = Vec::new();
        let mut hand: Vec<Card> = Vec::new();
        let mut i: usize = 0;
        proof {
            assert(hand_views(res@) =~= Seq::<Seq<Card>>::empty());
        }
        while i < sorted.len()
            invariant
                i <= s.len(),
                s == sorted_cards(self.cards@),
                sorted@ == s,
                hand@.len() == 0 ==> (i == 0 && res@.len() == 0),
                hand@.len() > 0 ==> hand_views(res@).push(hand@) == group_seq(s.take(i as int)),
            decreases s.len() - i,
        {
            let v = sorted[i];
            proof {
                assert(s.take(i + 1).drop_last() =~= s.take(i as int));
                assert(s.take(i + 1).last() == s[i as int]);
            }
            if hand.len() == 0 {
                hand.push(v);
                proof {
                    assert(group_seq(s.take(0)) =~= Seq::<Seq<Card>>::empty());
                    assert(group_seq(s.take(1)) =~= Seq::<Seq<Card>>::empty().push(
                        seq![s[0]],
                    ));
                    assert(hand@ =~= seq![s[0]]);
                    assert(hand_views(res@).push(hand@) =~= group_seq(s.take(1)));
                }
            } else if v.val == hand[hand.len() - 1].val {
                let ghost oldh = hand@;
                hand.push(v);
                proof {
                    let u = group_seq(s.take(i as int));
                    assert(u == hand_views(res@).push(oldh));
                    assert(u.last() == oldh && oldh.len() > 0);
                    assert(s.take(i + 1).last().val == u.last().last().val);
                    assert(group_seq(s.take(i + 1)) == u.update(u.len() - 1, oldh.push(
                        s[i as int],
                    )));
                    assert(hand_views(res@).push(oldh).update(
                        hand_views(res@).len() as int,
                        oldh.push(s[i as int]),
                    ) =~= hand_views(res@).push(oldh.push(s[i as int])));
                    assert(hand@ == oldh.push(s[i as int]));
                }
            } else {
                let ghost oldh = hand@;
                let done = Hand { cards: hand };
                res.push(done);
                hand = Vec::new();
                hand.push(v);
                proof {
                    let ghost old_res = res@.drop_last();
                    assert(hand_views(res@) =~= hand_views(old_res).push(oldh));
                    let u = group_seq(s.take(i as int));
                    assert(u == hand_views(old_res).push(oldh));
                    assert(u.len() > 0 && u.last() == oldh && oldh.len() > 0);
                    assert(s.take(i + 1).last().val != u.last().last().val);
                    assert(group_seq(s.take(i + 1)) == u.push(seq![s[i as int]]));
                    assert(hand@ =~= seq![s[i as int]]);
                    assert(hand_views(res@).push(hand@) =~= u.push(seq![s[i as int]]));
                }
            }
            i = i + 1;
        }
        if hand.len() > 0 {
            let ghost oldh = hand@;
            let done = Hand { cards: hand };
            res.push(done);
            proof {
                let ghost old_res = res@.drop_last();
                assert(hand_views(res@) =~= hand_views(old_res).push(oldh));
                assert(s.take(s.len() as int) =~= s);
            }
        } else {
            proof {
                assert(s.take(0) =~= s);
                assert(group_seq(s) =~= Seq::<Seq<Card>>::empty());
                assert(hand_views(res@) =~= Seq::<Seq<Card>>::empty());
            }
        }
        res
    }

    /// All cards share a suit.
    pub fn is_flush(&self) -> (r: bool)
        requires
            self.cards@.len() >= 1,
        ensures
            r == flush_spec(self.cards@),
    {
        let first = self.cards[0].suit;
        let mut i: usize = 1;
        while i < self.cards.len()
            invariant
                1 <= i <= self.cards@.len(),
                first == self.cards@[0].suit,
                forall|u: int| 0 <= u < i ==> #[trigger] self.cards@[u].suit == first,
            decreases self.cards@.len() - i,
        {
            if !(matches!((self.cards[i].suit, first), (Suit::Spades, Suit::Spades)
                | (Suit::Hearts, Suit::Hearts) | (Suit::Diamonds, Suit::Diamonds)
                | (Suit::Clubs, Suit::Clubs))) {
                return false;
            }
            i = i + 1;
        }
        true
    }

    /// The five cards run consecutively, the ace counting high or low.
    #[verifier::rlimit(100)]
    pub fn is_straight(&self) -> (r: bool)
        requires
            self.cards@.len() == 5,
        ensures
            r == straight_spec(self.cards@),
    {
        let ghost s = self.cards@;
        let low_two = matches!(self.cards[0].val, Val::Two);
        let high_ace = matches!(self.cards[4].val, Val::Ace);
        if low_two && high_ace {
            // Ace-low candidate: the wheel `A 2 3 4 5`.
            let ok = matches!(self.cards[1].val, Val::Three) && matches!(
                self.cards[2].val,
                Val::Four,
            ) && matches!(self.cards[3].val, Val::Five);
            proof {
                if ok {
                    assert(straight_spec(s));
                } else {
                    assert(!(s.len() == 5 && score(s[0].val) == 2 && score(s[4].val) == 14
                        && score(s[1].val) == 3 && score(s[2].val) == 4 && score(s[3].val)
                        == 5));
                    if straight_chain(s) {
                        assert(score(s[1].val) == next_score(score(s[0].val)));
                        assert(score(s[2].val) == next_score(score(s[1].val)));
                        assert(score(s[3].val) == next_score(score(s[2].val)));
                        assert(score(s[4].val) == next_score(score(s[3].val)));
                        assert(false);
                    }
                }
            }
            return ok;
        }
        let mut i: usize = 0;
        while i < 4
            invariant
                i <= 4,
                s == self.cards@,
                s.len() == 5,
                !(score(s[0].val) == 2 && score(s[4].val) == 14),
                forall|u: int| 0 <= u < i ==> score(s[u + 1].val) == next_score(
                    #[trigger] score(s[u].val),
                ),
            decreases 4 - i,
        {
            let want = self.cards[i].next_val();
            let have = self.cards[i + 1].val;
            let sw: usize = match want {
                Val::Two => 2,
                Val::Three => 3,
                Val::Four => 4,
                Val::Five => 5,
                Val::Six => 6,
                Val::Seven => 7,
                Val::Eight => 8,
                Val::Nine => 9,
                Val::Ten => 10,
                Val::Jack => 11,
                Val::Queen => 12,
                Val::King => 13,
                Val::Ace => 14,
            };
            let sh: usize = match have {
                Val::Two => 2,
                Val::Three => 3,
                Val::Four => 4,
                Val::Five => 5,
                Val::Six => 6,
                Val::Seven => 7,
                Val::Eight => 8,
                Val::Nine => 9,
                Val::Ten => 10,
                Val::Jack => 11,
                Val::Queen => 12,
                Val::King => 13,
                Val::Ace => 14,
            };
            if sw != sh {
                proof {
                    assert(score(s[i + 1].val) != next_score(score(s[i as int].val)));
                    assert(!straight_chain(s));
                    assert(!(score(s[0].val) == 2 && score(s[4].val) == 14));
                }
                return false;
            }
            i = i + 1;
        }
        proof {
            assert(straight_chain(s));
        }
        true
    }

    /// A flush whose cards also run consecutively.
    pub fn is_straight_flush(&self) -> (r: bool)
        requires
            self.cards@.len() == 5,
        ensures
            r == (flush_spec(self.cards@) && straight_spec(self.cards@)),
    {
        if !self.is_flush() {
            return false;
        }
        self.is_straight()
    }

    /// Some group holds exactly three cards.
    pub fn is_3_of_kind(&self, gss: &[Hand]) -> (r: bool)
        ensures
            r == has_group_of(hand_views(gss@), 3),
    {
        let mut i: usize = 0;
        while i < gss.len()
            invariant
                i <= gss@.len(),
                forall|t: int| 0 <= t < i ==> #[trigger] gss@[t].cards@.len() != 3,
            decreases gss@.len() - i,
        {
            if gss[i].cards.len() == 3 {
                assert(hand_views(gss@)[i as int].len() == 3);
                return true;
            }
            i = i + 1;
        }
        assert(forall|t: int| 0 <= t < gss@.len() ==> #[trigger] hand_views(gss@)[t].len() != 3);
        false
    }

    /// Some group holds exactly four cards.
    pub fn is_4_of_kind(&self, gss: &[Hand]) -> (r: bool)
        ensures
            r == has_group_of(hand_views(gss@), 4),
    {
        let mut i: usize = 0;
        while i < gss.len()
            invariant
                i <= gss@.len(),
                forall|t: int| 0 <= t < i ==> #[trigger] gss@[t].cards@.len() != 4,
            decreases gss@.len() - i,
        {
            if gss[i].cards.len() == 4 {
                assert(hand_views(gss@)[i as int].len() == 4);
                return true;
            }
            i = i + 1;
        }
        assert(forall|t: int| 0 <= t < gss@.len() ==> #[trigger] hand_views(gss@)[t].len() != 4);
        false
    }

    /// Some group holds exactly two cards.
    pub fn is_pair(&self, gss: &[Hand]) -> (r: bool)
        ensures
            r == has_group_of(hand_views(gss@), 2),
    {
        let mut i: usize = 0;
        while i < gss.len()
            invariant
                i <= gss@.len(),
                forall|t: int| 0 <= t < i ==> #[trigger] gss@[t].cards@.len() != 2,
            decreases gss@.len() - i,
        {
            if gss[i].cards.len() == 2 {
                assert(hand_views(gss@)[i as int].len() == 2);
                return true;
            }
            i = i + 1;
        }
        assert(forall|t: int| 0 <= t < gss@.len() ==> #[trigger] hand_views(gss@)[t].len() != 2);
        false
    }

    /// Two distinct groups hold exactly two cards each.
    pub fn is_2_pair(&self, gss: &[Hand]) -> (r: bool)
        ensures
            r == has_two_pairs(hand_views(gss@)),
    {
        let mut p1 = false;
        let mut p2 = false;
        let mut i: usize = 0;
        while i < gss.len()
            invariant
                i <= gss@.len(),
                p1 == exists|t: int|
                    0 <= t < i && #[trigger] hand_views(gss@)[t].len() == 2,
                p2 == exists|t1: int, t2: int|
                    0 <= t1 < t2 < i && #[trigger] hand_views(gss@)[t1].len() == 2
                        && #[trigger] hand_views(gss@)[t2].len() == 2,
            decreases gss@.len() - i,
        {
            if gss[i].cards.len() == 2 {
                proof {
                    assert(hand_views(gss@)[i as int].len() == 2);
                }
                if p1 {
                    p2 = true;
                } else {
                    p1 = true;
                }
            }
            i = i + 1;
        }
        if !p1 || !p2 {
            return false;
        }
        true
    }

    /// A pair and a three-of-a-kind together.
    pub fn is_full_house(&self, gss: &[Hand]) -> (r: bool)
        ensures
            r == (has_group_of(hand_views(gss@), 2) && has_group_of(hand_views(gss@), 3)),
    {
        if !self.is_pair(gss) {
            return false;
        }
        self.is_3_of_kind(gss)
    }

    /// Five groups: every card stands alone.
    pub fn is_high_card(&self, gss: &[Hand]) -> (r: bool)
        ensures
            r == (gss@.len() == 5),
    {
        if gss.len() == 5 {
            return true;
        }
        false
    }
}


fn score_exec(v: Val) -> (r: usize)
    ensures
        r == score(v),
{
    match v {
        Val::Two => 2,
        Val::Three => 3,
        Val::Four => 4,
        Val::Five => 5,
        Val::Six => 6,
        Val::Seven => 7,
        Val::Eight => 8,
        Val::Nine => 9,
        Val::Ten => 10,
        Val::Jack => 11,
        Val::Queen => 12,
        Val::King => 13,
        Val::Ace => 14,
    }
}

impl Hand {
    /// Base-fourteen value of the hand read in its present order.
    pub fn value_high_card(&self) -> (r: usize)
        requires
            self.cards@.len() <= 5,
        ensures
            r == high_card_value(self.cards@),
    {
        let ghost s = self.cards@;
        let mut mult: usize = 1;
        let mut res: usize = 0;
        let mut i: usize = 0;
        proof {
            lemma_pow14_values();
            lemma_value_cap_5();
            assert(s.take(0) =~= Seq::<Card>::empty());
        }
        while i < self.cards.len()
            invariant
                i <= s.len(),
                s == self.cards@,
                s.len() <= 5,
                mult == crate::big::pow_nat(14, i as nat),
                res == high_card_value(s.take(i as int)),
            decreases s.len() - i,
        {
            proof {
                lemma_pow14_values();
                lemma_value_cap_5();
                lemma_hcv_bound(s.take(i as int));
                lemma_value_cap_le(i as nat);
                lemma_pow14_bound(i as nat);
                assert(s.take(i + 1).drop_last() =~= s.take(i as int));
                assert(s.take(i + 1).last() == s[i as int]);
                assert(high_card_value(s.take(i + 1)) == high_card_value(s.take(i as int))
                    + score(s[i as int].val) * crate::big::pow_nat(14, i as nat));
                assert(score(s[i as int].val) * crate::big::pow_nat(14, i as nat) <= 14
                    * crate::big::pow_nat(14, i as nat)) by (nonlinear_arith)
                    requires
                        score(s[i as int].val) <= 14,
                        crate::big::pow_nat(14, i as nat) >= 0,
                ;
            }
            let sc = score_exec(self.cards[i].val);
            proof {
                assert(mult * sc <= 537824 * 14) by (nonlinear_arith)
                    requires
                        mult <= 537824,
                        sc <= 14,
                        mult >= 0,
                        sc >= 0,
                ;
            }
            let ghost m0 = mult as nat;
            let ghost r0 = res as nat;
            res = res + mult * sc;
            mult = mult * 14;
            proof {
                assert(res == r0 + m0 * sc);
                assert(m0 * sc == score(s[i as int].val) * crate::big::pow_nat(14, i as nat))
                    by (nonlinear_arith)
                    requires
                        m0 == crate::big::pow_nat(14, i as nat),
                        sc == score(s[i as int].val),
                ;
                assert(res == high_card_value(s.take(i + 1)));
            }
            i = i + 1;
        }
        proof {
            assert(s.take(s.len() as int) =~= s);
        }
        res
    }

    /// Value of a one-pair hand: the pair counts most, then the other
    /// cards in order.
    pub fn value_pair(&self, gss: &[Hand]) -> (r: usize)
        requires
            self.cards@.len() <= 5,
            gss@.len() <= 5,
            forall|t: int| 0 <= t < gss@.len() ==> #[trigger] gss@[t].cards@.len() >= 1,
        ensures
            r == one_pair_value(self.cards@, hand_views(gss@)),
    {
        let ghost gv = hand_views(gss@);
        let ghost s = self.cards@;
        let mut res: usize = 0;
        let mut pair: usize = 0;
        let mut i: usize = 0;
        proof {
            lemma_pow14_values();
            lemma_value_cap_5();
            assert(gv.take(0) =~= Seq::<Seq<Card>>::empty());
        }
        while i < gss.len()
            invariant
                i <= gv.len(),
                gv == hand_views(gss@),
                gv.len() <= 5,
                forall|t: int| 0 <= t < gv.len() ==> #[trigger] gv[t].len() >= 1,
                pair == last_pair_score(gv.take(i as int)),
                res == pair_bonus(gv.take(i as int)),
                res <= 38416 * i,
            decreases gv.len() - i,
        {
            proof {
                assert(gv.take(i + 1).drop_last() =~= gv.take(i as int));
                assert(gv.take(i + 1).last() == gv[i as int]);
            }
            proof {
                assert forall|t: int| 0 <= t < gv.take(i + 1).len() implies #[trigger] gv.take(
                    i + 1,
                )[t].len() >= 1 by {
                    assert(gv.take(i + 1)[t] == gv[t]);
                }
                lemma_pair_bonus_bound(gv.take(i + 1));
            }
            if gss[i].cards.len() == 2 {
                let p = score_exec(gss[i].cards[0].val);
                pair = p;
                res = res + 2744 * p;
            }
            i = i + 1;
        }
        proof {
            assert(gv.take(gv.len() as int) =~= gv);
            assert(s.take(0) =~= Seq::<Card>::empty());
            assert forall|t: int| 0 <= t < gv.len() implies #[trigger] gv[t].len() >= 1 by {}
            lemma_pair_bonus_bound(gv);
        }
        let mut mult: usize = 1;
        let mut j: usize = 0;
        while j < self.cards.len()
            invariant
                j <= s.len(),
                s == self.cards@,
                s.len() <= 5,
                gv.len() <= 5,
                forall|t: int| 0 <= t < gv.len() ==> #[trigger] gv[t].len() >= 1,
                pair == last_pair_score(gv),
                pair_bonus(gv) <= 192080,
                mult == crate::big::pow_nat(14, kicker_count(s.take(j as int), pair as nat)),
                kicker_count(s.take(j as int), pair as nat) <= 5,
                res == pair_bonus(gv) + kicker_value(s.take(j as int), pair as nat),
                res <= 771274,
            decreases s.len() - j,
        {
            proof {
                lemma_pow14_values();
                lemma_value_cap_5();
                lemma_kicker_bound(s.take(j as int), pair as nat);
                assert(s.take(j + 1).drop_last() =~= s.take(j as int));
                assert(s.take(j + 1).last() == s[j as int]);
                assert(score(s[j as int].val) * crate::big::pow_nat(
                    14,
                    kicker_count(s.take(j as int), pair as nat),
                ) <= 14 * crate::big::pow_nat(
                    14,
                    kicker_count(s.take(j as int), pair as nat),
                )) by (nonlinear_arith)
                    requires
                        score(s[j as int].val) <= 14,
                        crate::big::pow_nat(
                            14,
                            kicker_count(s.take(j as int), pair as nat),
                        ) >= 0,
                ;
                lemma_value_cap_le(kicker_count(s.take(j as int), pair as nat));
                lemma_pow14_bound(kicker_count(s.take(j as int), pair as nat));
                assert(kicker_value(s.take(j as int), pair as nat) <= 579194);
                assert(mult <= 537824);
            }
            proof {
                lemma_kicker_bound(s.take(j + 1), pair as nat);
            }
            let sc = score_exec(self.cards[j].val);
            if sc != pair {
                proof {
                    assert(kicker_count(s.take(j + 1), pair as nat) == kicker_count(
                        s.take(j as int),
                        pair as nat,
                    ) + 1);
                    lemma_pow14_bound(kicker_count(s.take(j + 1), pair as nat));
                    assert(mult * sc <= 537824 * 14) by (nonlinear_arith)
                        requires
                            mult <= 537824,
                            sc <= 14,
                            mult >= 0,
                            sc >= 0,
                    ;
                }
                let ghost m0 = mult as nat;
                let ghost r0 = res as nat;
                res = res + mult * sc;
                mult = mult * 14;
                proof {
                    assert(res == r0 + m0 * sc);
                    assert(m0 * sc == score(s[j as int].val) * crate::big::pow_nat(
                        14,
                        kicker_count(s.take(j as int), pair as nat),
                    )) by (nonlinear_arith)
                        requires
                            m0 == crate::big::pow_nat(
                                14,
                                kicker_count(s.take(j as int), pair as nat),
                            ),
                            sc == score(s[j as int].val),
                    ;
                    assert(kicker_value(s.take(j + 1), pair as nat) == kicker_value(
                        s.take(j as int),
                        pair as nat,
                    ) + score(s[j as int].val) * crate::big::pow_nat(
                        14,
                        kicker_count(s.take(j as int), pair as nat),
                    ));
                }
            }
            j = j + 1;
        }
        proof {
            assert(s.take(s.len() as int) =~= s);
        }
        res
    }

    /// Value of a two-pair hand: the higher pair, the lower pair, then the
    /// remaining card.
    pub fn value_2_pair(&self, gss: &[Hand]) -> (r: usize)
        requires
            gss@.len() <= 5,
            forall|t: int| 0 <= t < gss@.len() ==> #[trigger] gss@[t].cards@.len() >= 1,
        ensures
            r == two_pair_value(hand_views(gss@)),
    {
        let ghost gv = hand_views(gss@);
        let mut res: usize = 0;
        let mut pair1: usize = 0;
        let mut pair2: usize = 0;
        let mut i: usize = 0;
        proof {
            assert(gv.take(0) =~= Seq::<Seq<Card>>::empty());
        }
        while i < gss.len()
            invariant
                i <= gv.len(),
                gv == hand_views(gss@),
                gv.len() <= 5,
                forall|t: int| 0 <= t < gv.len() ==> #[trigger] gv[t].len() >= 1,
                pair1 == first_pair_score(gv.take(i as int)),
                pair2 == (if pair_group_count(gv.take(i as int)) >= 2 {
                    last_pair_score(gv.take(i as int))
                } else {
                    0nat
                }),
                res == non_pair_sum(gv.take(i as int)),
                res <= 14 * i,
                pair1 <= 14,
                pair2 <= 14,
                pair1 == 0 <==> pair_group_count(gv.take(i as int)) == 0,
            decreases gv.len() - i,
        {
            proof {
                assert(gv.take(i + 1).drop_last() =~= gv.take(i as int));
                assert(gv.take(i + 1).last() == gv[i as int]);
            }
            if gss[i].cards.len() == 2 {
                let p = score_exec(gss[i].cards[0].val);
                if pair1 == 0 {
                    pair1 = p;
                } else {
                    pair2 = p;
                }
            } else {
                let p = score_exec(gss[i].cards[0].val);
                res = res + p;
            }
            i = i + 1;
        }
        proof {
            assert(gv.take(gv.len() as int) =~= gv);
        }
        if pair1 > pair2 {
            res = res + 196 * pair1 + 114 * pair2;
        } else {
            res = res + 196 * pair2 + 114 * pair1;
        }
        res
    }

    /// Ranks the hand: a million times its category (straight flush eight,
    /// high card zero) plus the tie-breaking value of its cards.
    pub fn get_rank(&self) -> (r: usize)
        requires
            self.cards@.len() == 5,
        ensures
            r == rank_spec(self.cards@),
    {
        let ghost s0 = self.cards@;
        let cards = sort_cards(&self.cards);
        let hand = Hand { cards };
        proof {
            lemma_card_total_ordering();
            s0.lemma_sort_by_ensures(card_leq());
            hand.cards@.lemma_sort_by_ensures(card_leq());
            vstd::seq_lib::lemma_sorted_unique(
                hand.cards@.sort_by(card_leq()),
                hand.cards@,
                card_leq(),
            );
            vstd::seq_lib::to_multiset_len(s0);
            vstd::seq_lib::to_multiset_len(hand.cards@);
            assert(hand.cards@.len() == 5);
        }
        let group = hand.group();
        let ghost s = sorted_cards(s0);
        let ghost gs = group_seq(s);
        proof {
            assert(hand_views(group@) == gs);
            lemma_group_lens(s);
            assert forall|t: int| 0 <= t < group@.len() implies #[trigger] group@[t].cards@.len()
                >= 1 by {
                assert(gs[t] == hand_views(group@)[t]);
                assert(hand_views(group@)[t] == group@[t].cards@);
            }
            assert(group@.len() <= 5) by {
                assert(hand_views(group@).len() == gs.len());
            }
            lemma_pow14_values();
            lemma_value_cap_5();
            lemma_hcv_bound(s);
            lemma_value_cap_le(s.len());
            lemma_kicker_bound(s, last_pair_score(gs));
            lemma_value_cap_le(kicker_count(s, last_pair_score(gs)));
            lemma_pair_bonus_bound(gs);
            lemma_non_pair_sum_bound(gs);
        }
        let mut rank: usize = 0;
        if hand.is_straight_flush() {
            rank = 8000000 + hand.value_high_card();
        } else if hand.is_4_of_kind(group.as_slice()) {
            rank = 7000000 + score_exec(hand.cards[2].val);
        } else if hand.is_full_house(group.as_slice()) {
            rank = 6000000 + score_exec(hand.cards[2].val);
        } else if hand.is_flush() {
            rank = 5000000 + hand.value_high_card();
        } else if hand.is_straight() {
            rank = 4000000 + hand.value_high_card();
        } else if hand.is_3_of_kind(group.as_slice()) {
            rank = 3000000 + score_exec(hand.cards[2].val);
        } else if hand.is_2_pair(group.as_slice()) {
            rank = 2000000 + hand.value_2_pair(group.as_slice());
        } else if hand.is_pair(group.as_slice()) {
            rank = 1000000 + hand.value_pair(group.as_slice());
        } else if hand.is_high_card(group.as_slice()) {
            rank = hand.value_high_card();
        }
        rank
    }
}

/// Every group a sorted hand splits into is nonempty, and there are no
/// more groups than cards.
proof fn lemma_group_lens(s: Seq<Card>)
    ensures
        group_seq(s).len() <= s.len(),
        forall|t: int| 0 <= t < group_seq(s).len() ==> #[trigger] group_seq(s)[t].len() >= 1,
    decreases s.len(),
{
    if s.len() > 0 {
        lemma_group_lens(s.drop_last());
    }
}

proof fn lemma_pair_bonus_bound(gs: Seq<Seq<Card>>)
    requires
        forall|t: int| 0 <= t < gs.len() ==> #[trigger] gs[t].len() >= 1,
    ensures
        pair_bonus(gs) <= 38416 * gs.len(),
        last_pair_score(gs) <= 14,
    decreases gs.len(),
{
    if gs.len() > 0 {
        assert forall|t: int| 0 <= t < gs.drop_last().len() implies #[trigger] gs.drop_last(
        )[t].len() >= 1 by {
            assert(gs.drop_last()[t] == gs[t]);
        }
        lemma_pair_bonus_bound(gs.drop_last());
    }
}

proof fn lemma_non_pair_sum_bound(gs: Seq<Seq<Card>>)
    ensures
        non_pair_sum(gs) <= 14 * gs.len(),
        first_pair_score(gs) <= 14,
    decreases gs.len(),
{
    if gs.len() > 0 {
        lemma_non_pair_sum_bound(gs.drop_last());
    }
}


/// The suit a letter stands for: `S`, `H`, `D` or `C`.
pub open spec fn suit_of_char(c: char) -> Suit {
    if c == 'S' {
        Suit::Spades
    } else if c == 'H' {
        Suit::Hearts
    } else if c == 'D' {
        Suit::Diamonds
    } else {
        Suit::Clubs
    }
}

/// The letter is a valid suit character.
pub open spec fn is_suit_char(c: char) -> bool {
    c == 'S' || c == 'H' || c == 'D' || c == 'C'
}

/// The face value a character stands for: `2` to `9`, `T`, `J`, `Q`, `K`,
/// `A`.
pub open spec fn val_of_char(c: char) -> Val {
    if c == '2' {
        Val::Two
    } else if c == '3' {
        Val::Three
    } else if c == '4' {
        Val::Four
    } else if c == '5' {
        Val::Five
    } else if c == '6' {
        Val::Six
    } else if c == '7' {
        Val::Seven
    } else if c == '8' {
        Val::Eight
    } else if c == '9' {
        Val::Nine
    } else if c == 'T' {
        Val::Ten
    } else if c == 'J' {
        Val::Jack
    } else if c == 'Q' {
        Val::Queen
    } else if c == 'K' {
        Val::King
    } else {
        Val::Ace
    }
}

/// The character is a valid face-value character.
pub open spec fn is_val_char(c: char) -> bool {
    c == '2' || c == '3' || c == '4' || c == '5' || c == '6' || c == '7' || c == '8' || c == '9'
        || c == 'T' || c == 'J' || c == 'Q' || c == 'K' || c == 'A'
}

/// Returns the suit a letter stands for; other letters are rejected by the
/// precondition (the original aborted on them).
pub fn char_to_suit(c: char) -> (r: Suit)
    requires
        is_suit_char(c),
    ensures
        r == suit_of_char(c),
{
    if c == 'S' {
        Suit::Spades
    } else if c == 'H' {
        Suit::Hearts
    } else if c == 'D' {
        Suit::Diamonds
    } else {
        Suit::Clubs
    }
}

/// Returns the face value a character stands for; other characters are
/// rejected by the precondition (the original aborted on them).
pub fn char_to_val(c: char) -> (r: Val)
    requires
        is_val_char(c),
    ensures
        r == val_of_char(c),
{
    if c == '2' {
        Val::Two
    } else if c == '3' {
        Val::Three
    } else if c == '4' {
        Val::Four
    } else if c == '5' {
        Val::Five
    } else if c == '6' {
        Val::Six
    } else if c == '7' {
        Val::Seven
    } else if c == '8' {
        Val::Eight
    } else if c == '9' {
        Val::Nine
    } else if c == 'T' {
        Val::Ten
    } else if c == 'J' {
        Val::Jack
    } else if c == 'Q' {
        Val::Queen
    } else if c == 'K' {
        Val::King
    } else {
        Val::Ace
    }
}

/// Returns a hand of `cnt` cards read from the tail of the characters:
/// each pair of characters, taken from the end, is a value and a suit.
pub fn get_hand(cnt: usize, cs: Vec<char>) -> (r: Hand)
    requires
        cs@.len() >= 2 * cnt,
        forall|t: int| 0 <= t < cnt ==> is_suit_char(#[trigger] cs@[cs@.len() - 1 - 2 * t]),
        forall|t: int| 0 <= t < cnt ==> is_val_char(#[trigger] cs@[cs@.len() - 2 - 2 * t]),
    ensures
        r.cards@.len() == cnt,
        forall|t: int| 0 <= t < cnt ==> #[trigger] r.cards@[t] == (Card {
            val: val_of_char(cs@[cs@.len() - 2 - 2 * t]),
            suit: suit_of_char(cs@[cs@.len() - 1 - 2 * t]),
        }),
{
    let ghost orig = cs@;
    let mut cs = cs;
    let mut cards: Vec<Card> = Vec::new();
    let mut t: usize = 0;
    while t < cnt
        invariant
            t <= cnt,
            orig.len() >= 2 * cnt,
            cs@ == orig.take(orig.len() - 2 * t),
            forall|u: int| 0 <= u < cnt ==> is_suit_char(#[trigger] orig[orig.len() - 1 - 2 * u]),
            forall|u: int| 0 <= u < cnt ==> is_val_char(#[trigger] orig[orig.len() - 2 - 2 * u]),
            cards@.len() == t,
            forall|u: int| 0 <= u < t ==> #[trigger] cards@[u] == (Card {
                val: val_of_char(orig[orig.len() - 2 - 2 * u]),
                suit: suit_of_char(orig[orig.len() - 1 - 2 * u]),
            }),
        decreases cnt - t,
    {
        let c1 = cs.pop().unwrap();
        let c2 = cs.pop().unwrap();
        proof {
            assert(c1 == orig[orig.len() - 1 - 2 * (t as int)]);
            assert(c2 == orig[orig.len() - 2 - 2 * (t as int)]);
            assert(cs@ =~= orig.take(orig.len() - 2 * (t + 1)));
        }
        let suit = char_to_suit(c1);
        let val = char_to_val(c2);
        cards.push(Card { suit: suit, val: val });
        t = t + 1;
    }
    Hand { cards }
}

/// The printed name of a face value.
pub open spec fn val_name(v: Val) -> Seq<char> {
    match v {
        Val::Two => "Two"@,
        Val::Three => "Three"@,
        Val::Four => "Four"@,
        Val::Five => "Five"@,
        Val::Six => "Six"@,
        Val::Seven => "Seven"@,
        Val::Eight => "Eight"@,
        Val::Nine => "Nine"@,
        Val::Ten => "Ten"@,
        Val::Jack => "Jack"@,
        Val::Queen => "Queen"@,
        Val::King => "King"@,
        Val::Ace => "Ace"@,
    }
}

/// The printed name of a suit.
pub open spec fn suit_name(s: Suit) -> Seq<char> {
    match s {
        Suit::Spades => "Spades"@,
        Suit::Hearts => "Hearts"@,
        Suit::Diamonds => "Diamonds"@,
        Suit::Clubs => "Clubs"@,
    }
}

/// A card printed as `(Value, Suit)`.
pub open spec fn card_chars(c: Card) -> Seq<char> {
    "("@ + val_name(c.val) + ", "@ + suit_name(c.suit) + ")"@
}

/// Cards joined with comma-space separators.
pub open spec fn joined_cards(s: Seq<Card>) -> Seq<char>
    decreases s.len(),
{
    if s.len() == 0 {
        Seq::empty()
    } else if s.len() == 1 {
        card_chars(s[0])
    } else {
        joined_cards(s.drop_last()) + ", "@ + card_chars(s.last())
    }
}

/// A hand printed as a bracketed list of cards (an empty hand degenerates
/// to a lone closing bracket, as the original's trimming did).
pub open spec fn hand_chars(s: Seq<Card>) -> Seq<char> {
    if s.len() == 0 {
        "]"@
    } else {
        "["@ + joined_cards(s) + "]"@
    }
}

fn push_card_text(out: &mut String, c: &Card)
    ensures
        final(out)@ == old(out)@ + card_chars(*c),
{
    out.append("(");
    match c.val {
        Val::Two => out.append("Two"),
        Val::Three => out.append("Three"),
        Val::Four => out.append("Four"),
        Val::Five => out.append("Five"),
        Val::Six => out.append("Six"),
        Val::Seven => out.append("Seven"),
        Val::Eight => out.append("Eight"),
        Val::Nine => out.append("Nine"),
        Val::Ten => out.append("Ten"),
        Val::Jack => out.append("Jack"),
        Val::Queen => out.append("Queen"),
        Val::King => out.append("King"),
        Val::Ace => out.append("Ace"),
    }
    out.append(", ");
    match c.suit {
        Suit::Spades => out.append("Spades"),
        Suit::Hearts => out.append("Hearts"),
        Suit::Diamonds => out.append("Diamonds"),
        Suit::Clubs => out.append("Clubs"),
    }
    out.append(")");
    proof {
        assert(out@ =~= old(out)@ + card_chars(*c));
    }
}

impl Hand {
    /// Renders the hand as `[(Value, Suit), ...]`.
    pub fn show(&self) -> (r: String)
        ensures
            r@ == hand_chars(self.cards@),
    {
        let ghost s = self.cards@;
        if self.cards.len() == 0 {
            let mut out = String::new();
            out.append("]");
            proof {
                assert(out@ =~= "]"@);
            }
            return out;
        }
        let mut out = String::new();
        out.append("[");
        let mut i: usize = 0;
        proof {
            assert(out@ =~= "["@);
            assert(out@ =~= "["@ + joined_cards(s.take(0)));
        }
        while i < self.cards.len()
            invariant
                i <= s.len(),
                s == self.cards@,
                s.len() >= 1,
                out@ == "["@ + joined_cards(s.take(i as int)),
            decreases s.len() - i,
        {
            if i > 0 {
                out.append(", ");
            }
            push_card_text(&mut out, &self.cards[i]);
            proof {
                assert(s.take(i + 1).drop_last() =~= s.take(i as int));
                assert(s.take(i + 1).last() == s[i as int]);
                if i == 0 {
                    assert(joined_cards(s.take(1)) == card_chars(s[0]));
                    assert(out@ =~= "["@ + joined_cards(s.take(1)));
                } else {
                    assert(joined_cards(s.take(i + 1)) == joined_cards(s.take(i as int))
                        + ", "@ + card_chars(s[i as int]));
                    assert(out@ =~= "["@ + joined_cards(s.take(i + 1)));
                }
            }
            i = i + 1;
        }
        out.append("]");
        proof {
            assert(s.take(s.len() as int) =~= s);
            assert(out@ =~= hand_chars(s));
        }
        out
    }
}

/// Returns the hands rendered one per line.
pub fn show_grp(gss: Vec<Hand>) -> (r: String)
    ensures
        r@ == grp_chars(hand_views(gss@)),
{
    let mut out = String::new();
    let mut i: usize = 0;
    proof {
        assert(hand_views(gss@).take(0) =~= Seq::<Seq<Card>>::empty());
        assert(out@ =~= grp_chars(hand_views(gss@).take(0)));
    }
    while i < gss.len()
        invariant
            i <= gss@.len(),
            out@ == grp_chars(hand_views(gss@).take(i as int)),
        decreases gss@.len() - i,
    {
        let line = gss[i].show();
        out.append(line.as_str());
        out.append("\n");
        proof {
            let hv = hand_views(gss@);
            assert(hv.take(i + 1).drop_last() =~= hv.take(i as int));
            assert(hv.take(i + 1).last() == hv[i as int]);
            assert(hv[i as int] == gss@[i as int].cards@);
            assert(out@ =~= grp_chars(hv.take(i + 1)));
        }
        i = i + 1;
    }
    proof {
        assert(hand_views(gss@).take(gss@.len() as int) =~= hand_views(gss@));
    }
    out
}

/// Hands rendered one per line, each followed by a newline.
pub open spec fn grp_chars(hs: Seq<Seq<Card>>) -> Seq<char>
    decreases hs.len(),
{
    if hs.len() == 0 {
        Seq::empty()
    } else {
        grp_chars(hs.drop_last()) + hand_chars(hs.last()) + "\n"@
    }
}


/// A hand's rank class is three of a kind exactly when the chain of tests
/// says so; these laws compare whole rank numbers across classes.
///
/// Any three-of-a-kind hand ranks strictly above any single-pair hand.
pub proof fn lemma_three_of_a_kind_beats_pair(a: Seq<Card>, b: Seq<Card>)
    requires
        a.len() == 5,
        b.len() == 5,
        hand_category(a) == 3,
        hand_category(b) == 1,
    ensures
        rank_spec(a) > rank_spec(b),
{
    let sa = sorted_cards(a);
    let sb = sorted_cards(b);
    let gb = group_seq(sb);
    lemma_card_total_ordering();
    b.lemma_sort_by_ensures(card_leq());
    vstd::seq_lib::to_multiset_len(b);
    vstd::seq_lib::to_multiset_len(sb);
    lemma_group_lens(sb);
    lemma_pair_bonus_bound(gb);
    lemma_kicker_bound(sb, last_pair_score(gb));
    lemma_value_cap_le(kicker_count(sb, last_pair_score(gb)));
    assert(rank_spec(b) == 1000000 + one_pair_value(sb, gb));
    assert(one_pair_value(sb, gb) <= 38416 * 5 + 579194);
    assert(rank_spec(a) == 3000000 + score(sa[2].val));
}

/// Any straight flush ranks strictly above any four-of-a-kind hand.
pub proof fn lemma_straight_flush_beats_four_of_a_kind(a: Seq<Card>, b: Seq<Card>)
    requires
        a.len() == 5,
        b.len() == 5,
        hand_category(a) == 8,
        hand_category(b) == 7,
    ensures
        rank_spec(a) > rank_spec(b),
{
    let sa = sorted_cards(a);
    let sb = sorted_cards(b);
    assert(rank_spec(a) == 8000000 + high_card_value(sa));
    assert(rank_spec(b) == 7000000 + score(sb[2].val));
    assert(score(sb[2].val) <= 14);
}

/// The rank of a hand does not depend on the order its cards are given in.
pub proof fn lemma_rank_order_invariant(a: Seq<Card>, b: Seq<Card>)
    requires
        a.to_multiset() == b.to_multiset(),
    ensures
        rank_spec(a) == rank_spec(b),
{
    lemma_card_total_ordering();
    a.lemma_sort_by_ensures(card_leq());
    b.lemma_sort_by_ensures(card_leq());
    vstd::seq_lib::lemma_sorted_unique(
        a.sort_by(card_leq()),
        b.sort_by(card_leq()),
        card_leq(),
    );
    assert(sorted_cards(a) == sorted_cards(b));
}

} // verus!
