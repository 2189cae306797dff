//! Camel cards: hands of five cards, ranked by their kind and then card by card,
//! and the total winnings of a list of bids.

use crate::text::chars_of;
use std::cmp::Ordering;
use vstd::prelude::*;

verus! {

/// A card's value: 2 to 9, then T 10, J 11, Q 12, K 13, A 14.
pub type Card = u32;

/// Five cards in the order they were dealt.
pub type CardSet = [Card; 5];

/// A hand's kind, from 1 (high card) to 7 (five of a kind).
pub type CardType = u32;

pub open spec fn is_card(c: char) -> bool {
    ('2' <= c && c <= '9') || c == 'T' || c == 'J' || c == 'Q' || c == 'K' || c == 'A'
}

pub open spec fn card_value(c: char) -> Card {
    if '2' <= c && c <= '9' {
        (c as u32 - '0' as u32) as u32
    } else if c == 'T' {
        10
    } else if c == 'J' {
        11
    } else if c == 'Q' {
        12
    } else if c == 'K' {
        13
    } else {
        14
    }
}

/// How many of the first `n` cards of `cs` equal `v`.
pub open spec fn count_in(cs: Seq<Card>, v: Card, n: int) -> nat
    decreases n,
{
    if n <= 0 {
        0
    } else {
        count_in(cs, v, n - 1) + if cs[n - 1] == v {
            1nat
        } else {
            0nat
        }
    }
}

/// How many cards of the hand equal the `i`-th.
pub open spec fn mult(cs: Seq<Card>, i: int) -> nat {
    count_in(cs, cs[i], 5)
}

/// The largest number of equal cards among the first `n` cards' counts.
pub open spec fn top_upto(cs: Seq<Card>, n: int) -> nat
    decreases n,
{
    if n <= 0 {
        0
    } else if top_upto(cs, n - 1) > mult(cs, n - 1) {
        top_upto(cs, n - 1)
    } else {
        mult(cs, n - 1)
    }
}

/// The largest number of equal cards in the hand.
pub open spec fn top_mult(cs: Seq<Card>) -> nat {
    top_upto(cs, 5)
}

/// How many cards of the hand belong to a pair (exactly two equal cards).
pub open spec fn paired_cards(cs: Seq<Card>) -> nat {
    count_pairs(cs, 5)
}

pub open spec fn count_pairs(cs: Seq<Card>, n: int) -> nat
    decreases n,
{
    if n <= 0 {
        0
    } else {
        count_pairs(cs, n - 1) + if mult(cs, n - 1) == 2 {
            1nat
        } else {
            0nat
        }
    }
}

/// The kind of a hand: five of a kind 7, four 6, full house 5, three 4,
/// two pair 3, one pair 2, high card 1.
pub open spec fn hand_type(cs: Seq<Card>) -> CardType {
    let m = top_mult(cs);
    if m >= 5 {
        7
    } else if m == 4 {
        6
    } else if m == 3 {
        if paired_cards(cs) > 0 {
            5
        } else {
            4
        }
    } else if m == 2 {
        if paired_cards(cs) == 4 {
            3
        } else {
            2
        }
    } else {
        1
    }
}

/// Card-by-card order of two hands of equal kind: the first differing card decides.
pub open spec fn cmp_cards(a: Seq<Card>, b: Seq<Card>, i: int) -> Ordering
    decreases 5 - i,
{
    if i >= 5 {
        Ordering::Equal
    } else if a[i] < b[i] {
        Ordering::Less
    } else if a[i] > b[i] {
        Ordering::Greater
    } else {
        cmp_cards(a, b, i + 1)
    }
}

/// The order of two hands: by kind, then card by card.
pub open spec fn cmp_hands(a: Seq<Card>, b: Seq<Card>) -> Ordering {
    if hand_type(a) > hand_type(b) {
        Ordering::Greater
    } else if hand_type(b) > hand_type(a) {
        Ordering::Less
    } else {
        cmp_cards(a, b, 0)
    }
}

/// The rank of the `i`-th hand of `sets` once they are sorted weakest first,
/// equal hands keeping their order: one more than the number of hands below
/// it and of equal hands before it.
pub open spec fn rank_of(sets: Seq<(CardSet, u64)>, i: int) -> int {
    1 + count_below(sets, i, sets.len() as int)
}

/// How many of the first `n` hands of `sets` come before the `i`-th when sorted.
pub open spec fn count_below(sets: Seq<(CardSet, u64)>, i: int, n: int) -> int
    decreases n,
{
    if n <= 0 {
        0
    } else {
        count_below(sets, i, n - 1) + if cmp_hands(sets[n - 1].0@, sets[i].0@) == Ordering::Less
            || (cmp_hands(sets[n - 1].0@, sets[i].0@) == Ordering::Equal && n - 1 < i) {
            1int
        } else {
            0int
        }
    }
}

/// The sum of rank times bid over the first `n` hands.
pub open spec fn winnings(sets: Seq<(CardSet, u64)>, n: int) -> int
    decreases n,
{
    if n <= 0 {
        0
    } else {
        winnings(sets, n - 1) + rank_of(sets, n - 1) * sets[n - 1].1
    }
}

/// The value of a card symbol.
pub fn parse_card(c: char) -> (r: Card)
    requires
        is_card(c),
    ensures
        r == card_value(c),
{
    if '2' <= c && c <= '9' {
        (c as u32) - ('0' as u32)
    } else if c == 'T' {
        10
    } else if c == 'J' {
        11
    } else if c == 'Q' {
        12
    } else if c == 'K' {
        13
    } else {
        14
    }
}

/// The five cards of a hand written as five card symbols.
pub fn parse_cardset(s: &str) -> (r: CardSet)
    requires
        s@.len() == 5,
        forall|i: int| 0 <= i < 5 ==> is_card(#[trigger] s@[i]),
    ensures
        forall|i: int| 0 <= i < 5 ==> #[trigger] r@[i] == card_value(s@[i]),
{
    let cs = chars_of(s);
    [
        parse_card(cs[0]),
        parse_card(cs[1]),
        parse_card(cs[2]),
        parse_card(cs[3]),
        parse_card(cs[4]),
    ]
}

/// The kind of a hand.
pub fn detect_card_type(cs: &CardSet) -> (r: CardType)
    ensures
        r == hand_type(cs@),
{
    let mut top: u32 = 0;
    let mut pairs: u32 = 0;
    let mut i: usize = 0;
    while i < 5
        invariant
            0 <= i <= 5,
            top == top_upto(cs@, i as int),
            top <= 5,
            pairs == count_pairs(cs@, i as int),
            pairs <= i,
        decreases 5 - i,
    {
        let mut cnt: u32 = 0;
        let mut j: usize = 0;
        while j < 5
            invariant
                0 <= i < 5,
                0 <= j <= 5,
                cnt == count_in(cs@, cs@[i as int], j as int),
                cnt <= j,
            decreases 5 - j,
        {
            if cs[j] == cs[i] {
                cnt = cnt + 1;
            }
            j = j + 1;
        }
        if cnt >= top {
            top = cnt;
        }
        if cnt == 2 {
            pairs = pairs + 1;
        }
        i = i + 1;
    }
    if top >= 5 {
        7
    } else if top == 4 {
        6
    } else if top == 3 {
        if pairs > 0 {
            5
        } else {
            4
        }
    } else if top == 2 {
        if pairs == 4 {
            3
        } else {
            2
        }
    } else {
        1
    }
}

/// The order of two hands: by kind, then by the first card that differs.
pub fn compare_card_set(cs1: &CardSet, cs2: &CardSet) -> (r: Ordering)
    ensures
        r == cmp_hands(cs1@, cs2@),
{
    let t1 = detect_card_type(cs1);
    let t2 = detect_card_type(cs2);
    if t1 > t2 {
        return Ordering::Greater;
    } else if t2 > t1 {
        return Ordering::Less;
    }
    let mut i: usize = 0;
    while i < 5
        invariant
            0 <= i <= 5,
            hand_type(cs1@) == hand_type(cs2@),
            cmp_hands(cs1@, cs2@) == cmp_cards(cs1@, cs2@, i as int),
        decreases 5 - i,
    {
        if cs1[i] < cs2[i] {
            return Ordering::Less;
        } else if cs1[i] > cs2[i] {
            return Ordering::Greater;
        }
        i = i + 1;
    }
    Ordering::Equal
}

proof fn lemma_winnings_mono(sets: Seq<(CardSet, u64)>, m: int, n: int)
    requires
        0 <= m <= n <= sets.len(),
    ensures
        0 <= winnings(sets, m) <= winnings(sets, n),
    decreases n,
{
    if n > 0 {
        lemma_winnings_mono(sets, if m < n { m } else { n - 1 }, n - 1);
        lemma_count_below_bound(sets, n - 1, sets.len() as int);
        assert(rank_of(sets, n - 1) * sets[n - 1].1 >= 0) by (nonlinear_arith)
            requires
                rank_of(sets, n - 1) >= 1,
                sets[n - 1].1 >= 0,
        ;
    }
}

proof fn lemma_cmp_cards_self(a: Seq<Card>, i: int)
    ensures
        cmp_cards(a, a, i) == Ordering::Equal,
    decreases 5 - i,
{
    if i < 5 {
        lemma_cmp_cards_self(a, i + 1);
    }
}

proof fn lemma_count_below_bound(sets: Seq<(CardSet, u64)>, i: int, n: int)
    requires
        0 <= i < sets.len(),
        n <= sets.len(),
    ensures
        0 <= count_below(sets, i, n),
        count_below(sets, i, n) <= if n <= 0 {
            0
        } else if i < n {
            n - 1
        } else {
            n
        },
    decreases n,
{
    if n > 0 {
        lemma_count_below_bound(sets, i, n - 1);
        if n - 1 == i {
            lemma_cmp_cards_self(sets[i].0@, 0);
        }
    }
}

/// Total winnings: each hand's bid times its rank, the weakest hand ranking 1
/// and equal hands ranking in their given order.
pub fn calculate_bids(sets: Vec<(CardSet, u64)>) -> (r: u64)
    requires
        winnings(sets@, sets@.len() as int) <= u64::MAX,
    ensures
        r == winnings(sets@, sets@.len() as int),
{
    let n = sets.len();
    let mut acc: u64 = 0;
    let mut i: usize = 0;
    while i < n
        invariant
            n == sets@.len(),
            0 <= i <= n,
            winnings(sets@, n as int) <= u64::MAX,
            acc == winnings(sets@, i as int),
        decreases n - i,
    {
        let mut below: u64 = 0;
        let mut j: usize = 0;
        while j < n
            invariant
                n == sets@.len(),
                0 <= i < n,
                0 <= j <= n,
                below == count_below(sets@, i as int, j as int),
                below <= j,
            decreases n - j,
        {
            let o = compare_card_set(&sets[j].0, &sets[i].0);
            let counts = match o {
                Ordering::Less => true,
                Ordering::Equal => j < i,
                Ordering::Greater => false,
            };
            if counts {
                below = below + 1;
            }
            j = j + 1;
        }
        proof {
            lemma_count_below_bound(sets@, i as int, n as int);
            lemma_winnings_mono(sets@, i + 1, n as int);
            lemma_winnings_mono(sets@, 0, i as int);
            assert(rank_of(sets@, i as int) * sets@[i as int].1 <= u64::MAX);
        }
        let rank = below + 1;
        acc = acc + rank * sets[i].1;
        i = i + 1;
    }
    acc
}

/// Pairs each hand with its bid, as far as both lists go.
pub fn parse_inputs(strs: Vec<String>, bids: Vec<u64>) -> (r: Vec<(CardSet, u64)>)
    requires
        forall|i: int|
            0 <= i < strs@.len() && i < bids@.len() ==> (#[trigger] strs@[i])@.len() == 5 && forall|
                k: int,
            | 0 <= k < 5 ==> is_card(#[trigger] strs@[i]@[k]),
    ensures
        r@.len() == if strs@.len() < bids@.len() {
            strs@.len()
        } else {
            bids@.len()
        },
        forall|i: int|
            0 <= i < r@.len() ==> (#[trigger] r@[i]).1 == bids@[i] && forall|k: int|
                0 <= k < 5 ==> #[trigger] r@[i].0@[k] == card_value(strs@[i]@[k]),
{
    let n = if strs.len() < bids.len() {
        strs.len()
    } else {
        bids.len()
    };
    let mut v: Vec<(CardSet, u64)> = Vec::new();
    let mut i: usize = 0;
    while i < n
        invariant
            n <= strs@.len(),
            n <= bids@.len(),
            n == strs@.len() || n == bids@.len(),
            0 <= i <= n,
            v@.len() == i,
            forall|i: int|
                0 <= i < strs@.len() && i < bids@.len() ==> (#[trigger] strs@[i])@.len() == 5
                    && forall|k: int| 0 <= k < 5 ==> is_card(#[trigger] strs@[i]@[k]),
            forall|j: int|
                0 <= j < i ==> (#[trigger] v@[j]).1 == bids@[j] && forall|k: int|
                    0 <= k < 5 ==> #[trigger] v@[j].0@[k] == card_value(strs@[j]@[k]),
        decreases n - i,
    {
        let cs = parse_cardset(strs[i].as_str());
        v.push((cs, bids[i]));
        i = i + 1;
    }
    v
}

} // verus!
