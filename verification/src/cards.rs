use vstd::prelude::*;

verus! {

/// The four suits of a standard deck.
#[derive(Debug, Eq, PartialEq, Clone, Copy, Hash, Structural)]
pub enum Suit {
    Spades,
    Hearts,
    Diamonds,
    Clubs,
}

/// The thirteen ranks of a standard deck.
#[derive(Debug, Eq, PartialEq, Clone, Copy, Hash, Structural)]
pub enum Rank {
    Ace,
    Two,
    Three,
    Four,
    Five,
    Six,
    Seven,
    Eight,
    Nine,
    Ten,
    Jack,
    Queen,
    King,
}

impl Rank {
    /// The comparison value of a rank: Two is 2, the pips count up, and Ace is high at 14.
    pub open spec fn spec_value(self) -> nat {
        match self {
            Rank::Two => 2,
            Rank::Three => 3,
            Rank::Four => 4,
            Rank::Five => 5,
            Rank::Six => 6,
            Rank::Seven => 7,
            Rank::Eight => 8,
            Rank::Nine => 9,
            Rank::Ten => 10,
            Rank::Jack => 11,
            Rank::Queen => 12,
            Rank::King => 13,
            Rank::Ace => 14,
        }
    }

    /// The value by which ranks are compared.
    pub fn value(&self) -> (v: u8)
        ensures
            v == self.spec_value(),
            2 <= v <= 14,
    {
        match self {
            Rank::Two => 2,
            Rank::Three => 3,
            Rank::Four => 4,
            Rank::Five => 5,
            Rank::Six => 6,
            Rank::Seven => 7,
            Rank::Eight => 8,
            Rank::Nine => 9,
            Rank::Ten => 10,
            Rank::Jack => 11,
            Rank::Queen => 12,
            Rank::King => 13,
            Rank::Ace => 14,
        }
    }
}

/// One playing card. A card never changes.
#[derive(Debug, Eq, PartialEq, Clone, Copy, Hash, Structural)]
pub struct Card {
    pub suit: Suit,
    pub rank: Rank,
}

/// The suit that stands at this place in a new deck.
pub open spec fn suit_at(i: int) -> Suit {
    if i == 0 {
        Suit::Spades
    } else if i == 1 {
        Suit::Hearts
    } else if i == 2 {
        Suit::Diamonds
    } else {
        Suit::Clubs
    }
}

/// The rank that stands at this place within a suit of a new deck: the Ace first.
pub open spec fn rank_at(i: int) -> Rank {
    if i == 0 {
        Rank::Ace
    } else if i == 1 {
        Rank::Two
    } else if i == 2 {
        Rank::Three
    } else if i == 3 {
        Rank::Four
    } else if i == 4 {
        Rank::Five
    } else if i == 5 {
        Rank::Six
    } else if i == 6 {
        Rank::Seven
    } else if i == 7 {
        Rank::Eight
    } else if i == 8 {
        Rank::Nine
    } else if i == 9 {
        Rank::Ten
    } else if i == 10 {
        Rank::Jack
    } else if i == 11 {
        Rank::Queen
    } else {
        Rank::King
    }
}

/// A new deck, from the bottom up: the suits in the order Spades, Hearts,
/// Diamonds, Clubs, and within each suit the ranks from the Ace to the King.
pub open spec fn new_deck() -> Seq<Card> {
    Seq::new(52, |i: int| Card { suit: suit_at(i / 13), rank: rank_at(i % 13) })
}

/// The name of a suit in the file name of its texture.
pub open spec fn suit_text(suit: Suit) -> Seq<char> {
    match suit {
        Suit::Spades => "Spades"@,
        Suit::Hearts => "Hearts"@,
        Suit::Diamonds => "Diamonds"@,
        Suit::Clubs => "Clubs"@,
    }
}

/// The name of a rank in the file name of its texture.
pub open spec fn rank_text(rank: Rank) -> Seq<char> {
    match rank {
        Rank::Ace => "A"@,
        Rank::Two => "2"@,
        Rank::Three => "3"@,
        Rank::Four => "4"@,
        Rank::Five => "5"@,
        Rank::Six => "6"@,
        Rank::Seven => "7"@,
        Rank::Eight => "8"@,
        Rank::Nine => "9"@,
        Rank::Ten => "10"@,
        Rank::Jack => "Jack"@,
        Rank::Queen => "Queen"@,
        Rank::King => "King"@,
    }
}

/// Trusted: `format!` with five `{}` places and nothing between them writes the
/// five strings one after the other.
#[verifier::external_body]
fn concat5(a: &str, b: &str, c: &str, d: &str, e: &str) -> (joined: String)
    ensures
        joined@ == a@ + b@ + c@ + d@ + e@,
{
    format!("{a}{b}{c}{d}{e}")
}

fn suit_for(i: usize) -> (suit: Suit)
    ensures
        suit == suit_at(i as int),
{
    if i == 0 {
        Suit::Spades
    } else if i == 1 {
        Suit::Hearts
    } else if i == 2 {
        Suit::Diamonds
    } else {
        Suit::Clubs
    }
}

fn rank_for(i: usize) -> (rank: Rank)
    ensures
        rank == rank_at(i as int),
{
    if i == 0 {
        Rank::Ace
    } else if i == 1 {
        Rank::Two
    } else if i == 2 {
        Rank::Three
    } else if i == 3 {
        Rank::Four
    } else if i == 4 {
        Rank::Five
    } else if i == 5 {
        Rank::Six
    } else if i == 6 {
        Rank::Seven
    } else if i == 7 {
        Rank::Eight
    } else if i == 8 {
        Rank::Nine
    } else if i == 9 {
        Rank::Ten
    } else if i == 10 {
        Rank::Jack
    } else if i == 11 {
        Rank::Queen
    } else {
        Rank::King
    }
}

impl Card {
    /// The card of this suit and rank.
    pub fn new(suit: Suit, rank: Rank) -> (card: Card)
        ensures
            card == (Card { suit, rank }),
    {
        Card { suit, rank }
    }

    /// The path of the card's texture: `cards/`, the suit, `_`, the rank, `_white.png`.
    pub open spec fn texture_path(self) -> Seq<char> {
        "cards/"@ + suit_text(self.suit) + "_"@ + rank_text(self.rank) + "_white.png"@
    }

    /// The path of the image that shows the card's face.
    pub fn get_texture_path(&self) -> (path: String)
        ensures
            path@ == self.texture_path(),
    {
        let suit = match self.suit {
            Suit::Spades => "Spades",
            Suit::Hearts => "Hearts",
            Suit::Diamonds => "Diamonds",
            Suit::Clubs => "Clubs",
        };
        let rank = match self.rank {
            Rank::Ace => "A",
            Rank::Two => "2",
            Rank::Three => "3",
            Rank::Four => "4",
            Rank::Five => "5",
            Rank::Six => "6",
            Rank::Seven => "7",
            Rank::Eight => "8",
            Rank::Nine => "9",
            Rank::Ten => "10",
            Rank::Jack => "Jack",
            Rank::Queen => "Queen",
            Rank::King => "King",
        };
        concat5("cards/", suit, "_", rank, "_white.png")
    }

    /// The 52 cards of a new deck, each exactly once, from the bottom up.
    pub fn get_new_deck() -> (cards: Vec<Card>)
        ensures
            cards@ == new_deck(),
    {
        let mut cards: Vec<Card> = Vec::new();
        let mut s: usize = 0;
        while s < 4
            invariant
                s <= 4,
                cards@.len() == s * 13,
                forall|k: int| 0 <= k < cards@.len() ==> cards@[k] == new_deck()[k],
            decreases 4 - s,
        {
            let suit = suit_for(s);
            let mut r: usize = 0;
            while r < 13
                invariant
                    s < 4,
                    r <= 13,
                    suit == suit_at(s as int),
                    cards@.len() == s * 13 + r,
                    forall|k: int| 0 <= k < cards@.len() ==> cards@[k] == new_deck()[k],
                decreases 13 - r,
            {
                cards.push(Card::new(suit, rank_for(r)));
                r += 1;
            }
            s += 1;
        }
        assert(cards@ =~= new_deck());
        cards
    }
}

/// No card occurs twice in a new deck.
pub proof fn new_deck_has_no_duplicates()
    ensures
        new_deck().no_duplicates(),
        new_deck().len() == 52,
{
    assert forall|i: int, j: int| 0 <= i < 52 && 0 <= j < 52 && i != j implies new_deck()[i]
        != new_deck()[j] by {
        if new_deck()[i] == new_deck()[j] {
            assert(suit_at(i / 13) == suit_at(j / 13));
            assert(rank_at(i % 13) == rank_at(j % 13));
            assert(i / 13 == j / 13);
            assert(i % 13 == j % 13);
        }
    }
}

} // verus!
