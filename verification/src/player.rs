//! One seat at the table: its money, its per-hand state, its turn flag,
//! the hand it died on, and its JSON renderings.

use vstd::prelude::*;
use vstd::string::StringExecFns;
use crate::cards::Card;
use crate::strings::{dec_rep, append_dec_i32};

verus! {

/// The money every seat starts with.
pub const DEFAULT_START_MONEY: i32 = 500;

/// The per-hand state of an active seat: its two hole cards and the
/// money it has pushed into the pot this hand, the ante included.
#[derive(Copy, Clone)]
pub struct ActiveState {
    pub hand: [Card; 2],
    pub current_bet: i32,
}

/// A seat is folded or active in the current hand.
#[derive(Copy, Clone)]
pub enum PlayerState {
    Folded,
    Active(ActiveState),
}

/// One seat.
#[derive(Copy, Clone)]
pub struct Player {
    pub player_state: PlayerState,
    pub total_money: i32,
    pub death_hand_number: Option<i32>,
    pub id: i8,
    pub has_had_turn_this_round: bool,
}

impl PlayerState {
    /// Whether this state is the active one.
    pub open spec fn spec_is_active(self) -> bool {
        self is Active
    }

    /// The per-hand contribution, zero when folded.
    pub open spec fn spec_bet(self) -> int {
        match self {
            PlayerState::Folded => 0,
            PlayerState::Active(a) => a.current_bet as int,
        }
    }

    /// Whether this state is the active one.
    pub fn is_active(&self) -> (r: bool)
        ensures
            r == self.spec_is_active(),
    {
        match self {
            PlayerState::Folded => false,
            PlayerState::Active(_) => true,
        }
    }

    /// The JSON form of the state, the hole cards included.
    pub open spec fn spec_json(self) -> Seq<char> {
        match self {
            PlayerState::Folded => "{\"state_type\":\"folded\",\"details\":{}}"@,
            PlayerState::Active(a) => "{\"state_type\":\"active\",\"details\":{\"hand\":\""@
                + a.hand[0].spec_display() + " "@ + a.hand[1].spec_display() + "\",\"bet\":"@
                + dec_rep(a.current_bet as int) + "}}"@,
        }
    }

    /// The JSON form of the state with the hole cards left out.
    pub open spec fn spec_json_no_secret(self) -> Seq<char> {
        match self {
            PlayerState::Folded => "{\"state_type\":\"folded\",\"details\":{}}"@,
            PlayerState::Active(a) => "{\"state_type\":\"active\",\"details\":{\"bet\":"@ + dec_rep(
                a.current_bet as int,
            ) + "}}"@,
        }
    }

    /// The per-hand contribution, zero when folded.
    pub fn get_bet(&self) -> (r: i32)
        ensures
            r as int == self.spec_bet(),
    {
        match self {
            PlayerState::Folded => 0,
            PlayerState::Active(a) => a.current_bet,
        }
    }

    /// The JSON array of the hole cards' wire names, empty when folded.
    pub open spec fn spec_cards_json(self) -> Seq<char> {
        match self {
            PlayerState::Folded => "[]"@,
            PlayerState::Active(a) => "[\""@ + a.hand[0].spec_ascii() + "\",\""@
                + a.hand[1].spec_ascii() + "\"]"@,
        }
    }

    /// The JSON array of the hole cards' wire names, empty when folded.
    pub fn get_cards_json(&self) -> (r: String)
        ensures
            r@ == self.spec_cards_json(),
    {
        match self {
            PlayerState::Folded => String::from_str("[]"),
            PlayerState::Active(a) => {
                let mut s = String::from_str("[\"");
                a.hand[0].append_rank(&mut s);
                a.hand[0].append_suit(&mut s);
                s.append("\",\"");
                a.hand[1].append_rank(&mut s);
                a.hand[1].append_suit(&mut s);
                s.append("\"]");
                proof {
                    assert(s@ =~= self.spec_cards_json());
                }
                s
            },
        }
    }

    /// The JSON form of the state, the hole cards included.
    pub fn as_json(&self) -> (r: String)
        requires
            self.spec_bet() >= 0,
        ensures
            r@ == self.spec_json(),
    {
        match self {
            PlayerState::Folded => String::from_str("{\"state_type\":\"folded\",\"details\":{}}"),
            PlayerState::Active(a) => {
                let mut s = String::from_str("{\"state_type\":\"active\",\"details\":{\"hand\":\"");
                a.hand[0].append_display(&mut s);
                s.append(" ");
                a.hand[1].append_display(&mut s);
                s.append("\",\"bet\":");
                append_dec_i32(&mut s, a.current_bet);
                s.append("}}");
                proof {
                    assert(s@ =~= self.spec_json());
                }
                s
            },
        }
    }

    /// The JSON form of the state with the hole cards left out.
    pub fn as_json_no_secret_data(&self) -> (r: String)
        requires
            self.spec_bet() >= 0,
        ensures
            r@ == self.spec_json_no_secret(),
    {
        match self {
            PlayerState::Folded => String::from_str("{\"state_type\":\"folded\",\"details\":{}}"),
            PlayerState::Active(a) => {
                let mut s = String::from_str("{\"state_type\":\"active\",\"details\":{\"bet\":");
                append_dec_i32(&mut s, a.current_bet);
                s.append("}}");
                proof {
                    assert(s@ =~= self.spec_json_no_secret());
                }
                s
            },
        }
    }
}

impl Player {
    /// The seat number this player was created with.
    pub open spec fn spec_id(self) -> i8 {
        self.id
    }

    /// Alive means not yet marked dead.
    pub open spec fn spec_is_alive(self) -> bool {
        self.death_hand_number is None
    }

    /// Shorthand for the state being active.
    pub open spec fn spec_is_active(self) -> bool {
        self.player_state.spec_is_active()
    }

    /// The per-hand contribution, zero when folded.
    pub open spec fn spec_bet(self) -> int {
        self.player_state.spec_bet()
    }

    /// A new player: folded, alive, with the starting money.
    pub fn new(id: i8) -> (p: Player)
        ensures
            p.player_state is Folded,
            p.total_money == DEFAULT_START_MONEY,
            p.death_hand_number is None,
            p.spec_id() == id,
            !p.has_had_turn_this_round,
    {
        Player {
            player_state: PlayerState::Folded,
            total_money: DEFAULT_START_MONEY,
            death_hand_number: None,
            id,
            has_had_turn_this_round: false,
        }
    }

    /// Give the player new hole cards and make it active with no bet.
    pub fn deal(&mut self, cards: [Card; 2])
        requires
            old(self).spec_is_alive(),
        ensures
            final(self).player_state == PlayerState::Active(
                ActiveState { hand: cards, current_bet: 0 },
            ),
            !final(self).has_had_turn_this_round,
            final(self).total_money == old(self).total_money,
            final(self).death_hand_number == old(self).death_hand_number,
            final(self).spec_id() == old(self).spec_id(),
    {
        self.player_state = PlayerState::Active(ActiveState { hand: cards, current_bet: 0 });
        self.has_had_turn_this_round = false;
    }

    /// Fold the player's hand.  Folding a folded player is a programming
    /// error, so an active state is required.
    pub fn fold(&mut self)
        requires
            old(self).spec_is_active(),
        ensures
            final(self).player_state is Folded,
            final(self).has_had_turn_this_round,
            final(self).total_money == old(self).total_money,
            final(self).death_hand_number == old(self).death_hand_number,
            final(self).spec_id() == old(self).spec_id(),
    {
        self.has_had_turn_this_round = true;
        self.player_state = PlayerState::Folded;
    }

    /// Alive means not yet marked dead.
    pub fn is_alive(self) -> (r: bool)
        ensures
            r == self.spec_is_alive(),
    {
        self.death_hand_number.is_none()
    }

    /// The seat number.
    pub fn get_id(&self) -> (r: i8)
        ensures
            r == self.spec_id(),
    {
        self.id
    }

    /// Move money into the pot: the paid amount is the bet, capped at
    /// the player's stack, and is returned.  Betting on a folded player
    /// is a programming error, so an active state is required.
    pub fn bet(&mut self, bet: i32) -> (paid: i32)
        requires
            old(self).spec_is_active(),
            bet >= 0,
            old(self).total_money >= 0,
            old(self).spec_bet() + old(self).total_money <= i32::MAX,
        ensures
            paid == if bet >= old(self).total_money {
                old(self).total_money as int
            } else {
                bet as int
            },
            final(self).spec_is_active(),
            final(self).spec_bet() == old(self).spec_bet() + paid,
            final(self).total_money == old(self).total_money - paid,
            final(self).has_had_turn_this_round,
            final(self).death_hand_number == old(self).death_hand_number,
            final(self).spec_id() == old(self).spec_id(),
            final(self).player_state matches PlayerState::Active(a2) && old(self).player_state
                matches PlayerState::Active(a1) ==> a2.hand == a1.hand,
    {
        self.has_had_turn_this_round = true;
        match &mut self.player_state {
            PlayerState::Active(a) => {
                if bet >= self.total_money {
                    let all_in_amount = self.total_money;
                    a.current_bet = a.current_bet + all_in_amount;
                    self.total_money = 0;
                    all_in_amount
                } else {
                    a.current_bet = a.current_bet + bet;
                    self.total_money = self.total_money - bet;
                    bet
                }
            },
            PlayerState::Folded => {
                // unreachable: the precondition asks for an active state
                0
            },
        }
    }

    /// The order used for final results, as a sign: both alive compare
    /// by money; an alive player beats a dead one; two dead players
    /// compare by the hand they died on, a later death being better.
    pub open spec fn spec_result_order(a: Player, b: Player) -> int {
        if a.spec_is_alive() && b.spec_is_alive() {
            if a.total_money < b.total_money {
                -1
            } else if a.total_money > b.total_money {
                1
            } else {
                0
            }
        } else if a.spec_is_alive() {
            1
        } else if b.spec_is_alive() {
            -1
        } else {
            let da = a.death_hand_number->0;
            let db = b.death_hand_number->0;
            if da < db {
                -1
            } else if da > db {
                1
            } else {
                0
            }
        }
    }

    /// The result order of two players, as a sign.
    pub fn result_order(a: &Player, b: &Player) -> (r: i8)
        ensures
            r as int == Self::spec_result_order(*a, *b),
    {
        match (a.death_hand_number, b.death_hand_number) {
            (None, None) => {
                if a.total_money < b.total_money {
                    -1
                } else if a.total_money > b.total_money {
                    1
                } else {
                    0
                }
            },
            (None, Some(_)) => 1,
            (Some(_), None) => -1,
            (Some(da), Some(db)) => {
                if da < db {
                    -1
                } else if da > db {
                    1
                } else {
                    0
                }
            },
        }
    }

    /// The JSON form of the player, the hole cards included.
    pub open spec fn spec_json(self) -> Seq<char> {
        "{\"id\":"@ + dec_rep(self.spec_id() as int) + ",\"player_state\":"@
            + self.player_state.spec_json() + ",\"total_money\":"@ + dec_rep(
            self.total_money as int,
        ) + "}"@
    }

    /// The JSON form of the player with the hole cards left out.
    pub open spec fn spec_json_no_secret(self) -> Seq<char> {
        "{\"id\":"@ + dec_rep(self.spec_id() as int) + ",\"player_state\":"@
            + self.player_state.spec_json_no_secret() + ",\"total_money\":"@ + dec_rep(
            self.total_money as int,
        ) + "}"@
    }

    /// The hidden-card projection never depends on the hole cards: two
    /// players that differ only in their hands render identically, so
    /// no hand can reach the wire through it.
    pub proof fn lemma_no_secret_is_hand_blind(a: Player, b: Player)
        requires
            a.total_money == b.total_money,
            a.spec_id() == b.spec_id(),
            a.spec_bet() == b.spec_bet(),
            a.spec_is_active() == b.spec_is_active(),
        ensures
            a.spec_json_no_secret() == b.spec_json_no_secret(),
    {
    }

    /// The JSON form of the player, the hole cards included.
    pub fn as_json(&self) -> (r: String)
        requires
            self.spec_id() >= 0,
            self.total_money >= 0,
            self.spec_bet() >= 0,
        ensures
            r@ == self.spec_json(),
    {
        let mut s = String::from_str("{\"id\":");
        append_dec_i32(&mut s, self.id as i32);
        s.append(",\"player_state\":");
        let st = self.player_state.as_json();
        s.append(st.as_str());
        s.append(",\"total_money\":");
        append_dec_i32(&mut s, self.total_money);
        s.append("}");
        proof {
            assert(s@ =~= self.spec_json());
        }
        s
    }

    /// The JSON form of the player with the hole cards left out.
    pub fn as_json_no_secret_data(&self) -> (r: String)
        requires
            self.spec_id() >= 0,
            self.total_money >= 0,
            self.spec_bet() >= 0,
        ensures
            r@ == self.spec_json_no_secret(),
    {
        let mut s = String::from_str("{\"id\":");
        append_dec_i32(&mut s, self.id as i32);
        s.append(",\"player_state\":");
        let st = self.player_state.as_json_no_secret_data();
        s.append(st.as_str());
        s.append(",\"total_money\":");
        append_dec_i32(&mut s, self.total_money);
        s.append("}");
        proof {
            assert(s@ =~= self.spec_json_no_secret());
        }
        s
    }
}

} // verus!
