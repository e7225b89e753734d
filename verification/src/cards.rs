//! Playing cards as plain values, their wire and display renderings, and
//! the trusted boundary to the outside hand evaluator and deck shuffler.

use vstd::prelude::*;
use vstd::string::StringExecFns;

verus! {

/// A playing card held as plain values: `rank` is 2 through 14 (11 jack,
/// 12 queen, 13 king, 14 ace) and `suit` is 0 clubs, 1 hearts, 2 spades,
/// 3 diamonds.
#[derive(Eq, PartialEq, Structural, Debug, Copy, Clone)]
pub struct Card {
    pub rank: u8,
    pub suit: u8,
}

/// Prints a card in its two-character ASCII wire form.
pub trait CardPrinting {
    /// The characters the printing yields.
    spec fn spec_ascii_chars(&self) -> Seq<char>;

    fn to_ascii_string(&self) -> (s: String)
        ensures
            s@ == self.spec_ascii_chars(),
    ;
}

impl CardPrinting for Card {
    open spec fn spec_ascii_chars(&self) -> Seq<char> {
        self.spec_ascii()
    }

    fn to_ascii_string(&self) -> (s: String)
        ensures
            s@ == self.spec_ascii(),
    {
        self.ascii_string()
    }
}

impl Card {
    /// A card is valid when its rank and suit lie in their ranges.
    pub open spec fn valid(self) -> bool {
        2 <= self.rank <= 14 && self.suit < 4
    }

    /// The rank character of the ASCII wire form: 2-9, T, J, Q, K, A.
    pub open spec fn spec_rank_char(self) -> char {
        if self.rank == 2 {
            '2'
        } else if self.rank == 3 {
            '3'
        } else if self.rank == 4 {
            '4'
        } else if self.rank == 5 {
            '5'
        } else if self.rank == 6 {
            '6'
        } else if self.rank == 7 {
            '7'
        } else if self.rank == 8 {
            '8'
        } else if self.rank == 9 {
            '9'
        } else if self.rank == 10 {
            'T'
        } else if self.rank == 11 {
            'J'
        } else if self.rank == 12 {
            'Q'
        } else if self.rank == 13 {
            'K'
        } else {
            'A'
        }
    }

    /// The upper-case suit letter of the ASCII wire form.
    pub open spec fn spec_suit_char(self) -> char {
        if self.suit == 0 {
            'C'
        } else if self.suit == 1 {
            'H'
        } else if self.suit == 2 {
            'S'
        } else {
            'D'
        }
    }

    /// The suit symbol used in display strings.
    pub open spec fn spec_suit_pretty(self) -> char {
        if self.suit == 0 {
            '\u{2663}'
        } else if self.suit == 1 {
            '\u{2665}'
        } else if self.suit == 2 {
            '\u{2660}'
        } else {
            '\u{2666}'
        }
    }

    /// The two-character ASCII wire form, "AC" for the ace of clubs.
    pub open spec fn spec_ascii(self) -> Seq<char> {
        seq![self.spec_rank_char(), self.spec_suit_char()]
    }

    /// The bracketed display form, "[ A♣ ]" for the ace of clubs.
    pub open spec fn spec_display(self) -> Seq<char> {
        seq!['[', ' ', self.spec_rank_char(), self.spec_suit_pretty(), ' ', ']']
    }

    /// Make a card from its rank and suit numbers.
    pub fn new(rank: u8, suit: u8) -> (c: Card)
        ensures
            c == (Card { rank, suit }),
    {
        Card { rank, suit }
    }

    /// The rank character as a value.
    pub fn rank_char(&self) -> (c: char)
        ensures
            c == self.spec_rank_char(),
    {
        if self.rank == 2 {
            '2'
        } else if self.rank == 3 {
            '3'
        } else if self.rank == 4 {
            '4'
        } else if self.rank == 5 {
            '5'
        } else if self.rank == 6 {
            '6'
        } else if self.rank == 7 {
            '7'
        } else if self.rank == 8 {
            '8'
        } else if self.rank == 9 {
            '9'
        } else if self.rank == 10 {
            'T'
        } else if self.rank == 11 {
            'J'
        } else if self.rank == 12 {
            'Q'
        } else if self.rank == 13 {
            'K'
        } else {
            'A'
        }
    }

    /// The lower-case suit letter, the form the outside card parser takes.
    pub fn suit_lchar(&self) -> (c: char)
        ensures
            (self.suit == 0 ==> c == 'c') && (self.suit == 1 ==> c == 'h') && (self.suit == 2
                ==> c == 's') && (self.suit >= 3 ==> c == 'd'),
    {
        if self.suit == 0 {
            'c'
        } else if self.suit == 1 {
            'h'
        } else if self.suit == 2 {
            's'
        } else {
            'd'
        }
    }

    /// Append the rank character to a string.
    pub fn append_rank(&self, s: &mut String)
        ensures
            final(s)@ == old(s)@ + seq![self.spec_rank_char()],
    {
        proof {
            reveal_strlit("2");
            reveal_strlit("3");
            reveal_strlit("4");
            reveal_strlit("5");
            reveal_strlit("6");
            reveal_strlit("7");
            reveal_strlit("8");
            reveal_strlit("9");
            reveal_strlit("T");
            reveal_strlit("J");
            reveal_strlit("Q");
            reveal_strlit("K");
            reveal_strlit("A");
        }
        if self.rank == 2 {
            s.append("2");
        } else if self.rank == 3 {
            s.append("3");
        } else if self.rank == 4 {
            s.append("4");
        } else if self.rank == 5 {
            s.append("5");
        } else if self.rank == 6 {
            s.append("6");
        } else if self.rank == 7 {
            s.append("7");
        } else if self.rank == 8 {
            s.append("8");
        } else if self.rank == 9 {
            s.append("9");
        } else if self.rank == 10 {
            s.append("T");
        } else if self.rank == 11 {
            s.append("J");
        } else if self.rank == 12 {
            s.append("Q");
        } else if self.rank == 13 {
            s.append("K");
        } else {
            s.append("A");
        }
        proof {
            assert(s@ =~= old(s)@ + seq![self.spec_rank_char()]);
        }
    }

    /// Append the upper-case suit letter to a string.
    pub fn append_suit(&self, s: &mut String)
        ensures
            final(s)@ == old(s)@ + seq![self.spec_suit_char()],
    {
        proof {
            reveal_strlit("C");
            reveal_strlit("H");
            reveal_strlit("S");
            reveal_strlit("D");
        }
        if self.suit == 0 {
            s.append("C");
        } else if self.suit == 1 {
            s.append("H");
        } else if self.suit == 2 {
            s.append("S");
        } else {
            s.append("D");
        }
        proof {
            assert(s@ =~= old(s)@ + seq![self.spec_suit_char()]);
        }
    }

    /// Append the suit symbol to a string.
    pub fn append_suit_pretty(&self, s: &mut String)
        ensures
            final(s)@ == old(s)@ + seq![self.spec_suit_pretty()],
    {
        proof {
            reveal_strlit("\u{2663}");
            reveal_strlit("\u{2665}");
            reveal_strlit("\u{2660}");
            reveal_strlit("\u{2666}");
        }
        if self.suit == 0 {
            s.append("\u{2663}");
        } else if self.suit == 1 {
            s.append("\u{2665}");
        } else if self.suit == 2 {
            s.append("\u{2660}");
        } else {
            s.append("\u{2666}");
        }
        proof {
            assert(s@ =~= old(s)@ + seq![self.spec_suit_pretty()]);
        }
    }

    /// The two-character ASCII wire form as a fresh string.
    pub fn ascii_string(&self) -> (r: String)
        ensures
            r@ == self.spec_ascii(),
    {
        let mut s = String::new();
        self.append_rank(&mut s);
        self.append_suit(&mut s);
        proof {
            assert(s@ =~= self.spec_ascii());
        }
        s
    }

    /// Append the bracketed display form to a string.
    pub fn append_display(&self, s: &mut String)
        ensures
            final(s)@ == old(s)@ + self.spec_display(),
    {
        proof {
            reveal_strlit("[ ");
            reveal_strlit(" ]");
        }
        s.append("[ ");
        self.append_rank(s);
        self.append_suit_pretty(s);
        s.append(" ]");
        proof {
            assert(s@ =~= old(s)@ + self.spec_display());
        }
    }

    /// The bracketed display form as a fresh string.
    pub fn display_string(&self) -> (r: String)
        ensures
            r@ == self.spec_display(),
    {
        let mut s = String::new();
        self.append_display(&mut s);
        proof {
            assert(s@ =~= self.spec_display());
        }
        s
    }
}

/// A single number that determines a card, used to state what the outside
/// evaluator depends on.  The factor keeps the map injective over every
/// possible pair of byte fields, valid or not.
pub open spec fn card_code(c: Card) -> int {
    c.suit as int * 256 + c.rank as int
}

/// The card numbers of a sequence of cards.
pub open spec fn codes_of(s: Seq<Card>) -> Seq<int> {
    s.map_values(|c: Card| card_code(c))
}

/// The ordinal strength that the outside evaluator assigns to a set of
/// cards: a larger value is a better poker hand.  The value depends on
/// the cards alone.
pub uninterp spec fn hand_strength(cards: Seq<int>) -> int;

#[verifier::external_type_specification]
#[verifier::external_body]
pub struct ExEvaluator(poker::Evaluator);

/// Relies on poker::Evaluator::new, which builds the lookup tables the
/// evaluator works from.  Nothing is assumed of the value.
#[verifier::external_body]
pub fn make_evaluator() -> poker::Evaluator {
    poker::Evaluator::new()
}

/// Relies on poker::deck::shuffled: the result is a permutation of the
/// standard 52-card deck, so it holds 52 valid, pairwise distinct cards.
/// The order is random; nothing is assumed of it.
#[verifier::external_body]
pub fn shuffled_deck() -> (r: Vec<Card>)
    ensures
        r@.len() == 52,
        forall|i: int| 0 <= i < 52 ==> (#[trigger] r@[i]).valid(),
        forall|i: int, j: int| 0 <= i < 52 && 0 <= j < 52 && i != j ==> r@[i] != r@[j],
{
    poker::deck::shuffled().into_iter().map(
        |c| Card { rank: c.rank() as u8 + 2, suit: c.suit() as u8 },
    ).collect()
}

/// Relies on poker::Evaluator::evaluate_five, which ranks the best
/// five-card poker hand out of the cards given and depends on the card
/// set alone, and on poker::Eval::is_better_than, which compares two
/// evaluations by that rank.  Each card is rebuilt for the evaluator by
/// poker::Card::try_from_chars from its rank character and lower-case
/// suit letter.  The result reports which of the two card sets
/// evaluates to the stronger hand.
#[verifier::external_body]
pub fn compare_hands(ev: &poker::Evaluator, a: &Vec<Card>, b: &Vec<Card>) -> (r: i8)
    ensures
        -1 <= r <= 1,
        (r == 1) <==> hand_strength(codes_of(a@)) > hand_strength(codes_of(b@)),
        (r == -1) <==> hand_strength(codes_of(a@)) < hand_strength(codes_of(b@)),
{
    let f = |v: &Vec<Card>| v.iter().map(
        |c| poker::Card::try_from_chars(c.rank_char(), c.suit_lchar()).unwrap_or(
            poker::Card::new(poker::Rank::Two, poker::Suit::Clubs),
        ),
    ).collect::<Vec<poker::Card>>();
    match (ev.evaluate_five(f(a)), ev.evaluate_five(f(b))) {
        (Ok(x), Ok(y)) => (x.is_better_than(y) as i8) - (y.is_better_than(x) as i8),
        (Ok(_), Err(_)) => 1,
        (Err(_), Ok(_)) => -1,
        _ => 0,
    }
}

} // verus!
