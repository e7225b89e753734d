//! The engine aggregate: the hand lifecycle, the betting state machine,
//! side-pot resolution, the dealer rotation, the escalating ante, and
//! the view each seat is shown.

use vstd::prelude::*;
use vstd::string::StringExecFns;
use crate::actions::HandAction;
use crate::bet_stage::BetStage;
use crate::cards::{Card, compare_hands, hand_strength, codes_of, make_evaluator, shuffled_deck};
use crate::player::{ActiveState, Player, PlayerState, DEFAULT_START_MONEY};
use crate::strings::{dec_rep, append_dec_i32, append_dec_u64, json_escaped, append_json_escaped, pad_left, append_dec_padded};
use crate::table_action::{DealInformation, TableAction};

verus! {

/// The most money a table is allowed to hold over all stacks and bets
/// together, so that pot arithmetic stays well inside `i32`.
pub const MAX_TABLE_MONEY: i32 = 0x4000_0000;

/// How much the ante grows by at each escalation.
pub const ANTE_INCREASE_AMOUNT: i32 = 1;

/// The most seats one table takes.
pub const MAX_PLAYERS: usize = 23;

pub struct Table {
    /// All players, in seat order.
    pub players: Vec<Player>,
    /// The hand evaluator the showdown ranks hands with.
    pub evaluator: poker::Evaluator,
    /// The three flop cards, dealt face down until the flop stage.
    pub flop: Option<[Card; 3]>,
    /// The turn card.
    pub turn: Option<Card>,
    /// The river card.
    pub river: Option<Card>,
    /// Where the dealer button sits; the first actor is past it.
    pub dealer_button_index: usize,
    /// The ante every alive player pays at the deal.
    pub ante: i32,
    /// How many hands have been dealt, the first being 1.
    pub hand_number: i32,
    /// Whose turn it is.
    pub current_player_index: usize,
    /// The betting stage the hand is in.
    pub table_state: BetStage,
    /// How much each seat has pushed into the pot this hand.
    pub player_bets: Vec<i32>,
    /// Every so many hands the ante goes up by one.
    pub ante_round_increase: i32,
    /// The log of this hand, in order.
    pub round_actions: Vec<TableAction>,
    /// The log of the last completed hand.
    pub previous_round_actions: Vec<TableAction>,
}

/// The players' stacks summed over the first `n` seats.
pub open spec fn sum_money(ps: Seq<Player>, n: int) -> int
    decreases n,
{
    if n <= 0 {
        0
    } else {
        sum_money(ps, n - 1) + ps[n - 1].total_money
    }
}

/// The bets summed over the first `n` seats.
pub open spec fn sum_bets(bets: Seq<i32>, n: int) -> int
    decreases n,
{
    if n <= 0 {
        0
    } else {
        sum_bets(bets, n - 1) + bets[n - 1]
    }
}

/// The largest per-hand contribution over the first `n` seats, a folded
/// seat counting as zero.
pub open spec fn max_bet(ps: Seq<Player>, n: int) -> int
    decreases n,
{
    if n <= 1 {
        ps[0].spec_bet()
    } else if ps[n - 1].spec_bet() > max_bet(ps, n - 1) {
        ps[n - 1].spec_bet()
    } else {
        max_bet(ps, n - 1)
    }
}

/// How many of the first `n` seats are active.
pub open spec fn active_count(ps: Seq<Player>, n: int) -> int
    decreases n,
{
    if n <= 0 {
        0
    } else {
        active_count(ps, n - 1) + if ps[n - 1].spec_is_active() {
            1int
        } else {
            0int
        }
    }
}

/// How many of the first `n` seats are alive.
pub open spec fn alive_count(ps: Seq<Player>, n: int) -> int
    decreases n,
{
    if n <= 0 {
        0
    } else {
        alive_count(ps, n - 1) + if ps[n - 1].spec_is_alive() {
            1int
        } else {
            0int
        }
    }
}

/// Every active seat among the first `n` has had its turn or is all-in.
pub open spec fn all_ready(ps: Seq<Player>, n: int) -> bool {
    forall|i: int|
        0 <= i < n && (#[trigger] ps[i]).spec_is_active() ==> ps[i].has_had_turn_this_round
            || ps[i].total_money == 0
}

/// Every active seat among the first `n` is all-in or matches bet `m`.
pub open spec fn all_same_bet(ps: Seq<Player>, n: int, m: int) -> bool {
    forall|i: int|
        0 <= i < n && (#[trigger] ps[i]).spec_is_active() ==> ps[i].total_money == 0
            || ps[i].spec_bet() == m
}

/// A seat that may be asked to act: active, with money behind.
pub open spec fn eligible(ps: Seq<Player>, i: int) -> bool {
    ps[i].spec_is_active() && ps[i].total_money != 0
}

/// Whether some seat may be asked to act.
pub open spec fn exists_eligible(ps: Seq<Player>) -> bool {
    exists|i: int| 0 <= i < ps.len() && eligible(ps, i)
}

/// The first index after `start`, walking cyclically, that satisfies
/// `eligible`; meaningful only when one exists.
pub open spec fn cyclic_distance(len: int, start: int, i: int) -> int {
    if i > start {
        i - start
    } else {
        i + len - start
    }
}

impl Table {
    /// The number of seats.
    pub open spec fn n(self) -> int {
        self.players.len() as int
    }

    /// The structural facts every engine operation keeps: seat ids match
    /// indices, the bet ledger matches the active players' bets, nothing
    /// is negative, the indices are in range, and the total money on the
    /// table is bounded.
    pub open spec fn wf_base(self) -> bool {
        let n = self.n();
        &&& 1 <= n <= MAX_PLAYERS
        &&& self.player_bets.len() == n
        &&& self.dealer_button_index < n
        &&& self.current_player_index < n
        &&& self.ante >= 0
        &&& self.ante_round_increase >= 1
        &&& 0 <= self.hand_number < 0x4000_0000
        &&& forall|i: int| 0 <= i < n ==> (#[trigger] self.players@[i]).spec_id() == i
        &&& forall|i: int| 0 <= i < n ==> (#[trigger] self.players@[i]).total_money >= 0
        &&& forall|i: int| 0 <= i < n ==> (#[trigger] self.player_bets@[i]) >= 0
        &&& forall|i: int| 0 <= i < n ==> (#[trigger] self.players@[i]).spec_bet() >= 0
        &&& sum_money(self.players@, n) + sum_bets(self.player_bets@, n) <= MAX_TABLE_MONEY
        &&& forall|i: int|
            0 <= i < self.round_actions@.len() ==> (#[trigger] self.round_actions@[i]).wire_ok()
        &&& forall|i: int|
            0 <= i < self.previous_round_actions@.len() ==> (#[trigger] self
                .previous_round_actions@[i]).wire_ok()
    }

    /// The bet ledger agrees with every active seat's own bet.
    pub open spec fn ledger_matches(self) -> bool {
        forall|i: int|
            0 <= i < self.n() && (#[trigger] self.players@[i]).spec_is_active()
                ==> self.players@[i].spec_bet() == self.player_bets@[i]
    }

    /// A dead seat holds no live hand: every active seat is alive.
    pub open spec fn deaths_folded(self) -> bool {
        forall|i: int|
            0 <= i < self.n() && (#[trigger] self.players@[i]).spec_is_active() ==> self.players@[i].spec_is_alive()
    }

    /// The structural facts with the ledger agreement and the dead
    /// seats folded; between the log roll and the fresh deal the parts
    /// are briefly out of step, so they are also usable apart.
    pub open spec fn wf(self) -> bool {
        self.wf_base() && self.ledger_matches() && self.deaths_folded()
    }

    /// The game is over when exactly one player is alive.
    pub open spec fn spec_game_over(self) -> bool {
        alive_count(self.players@, self.n()) == 1
    }

    /// The pot: every seat's bet this hand, summed.
    pub open spec fn spec_pot(self) -> int {
        sum_bets(self.player_bets@, self.n())
    }

    /// The amount a caller must match.
    pub open spec fn spec_max_bet(self) -> int {
        max_bet(self.players@, self.n())
    }

    /// The number of seats.
    pub fn get_player_count(&self) -> (r: usize)
        ensures
            r == self.n(),
    {
        self.players.len()
    }

    /// Whose turn it is.
    pub fn get_current_player_index(&self) -> (r: usize)
        ensures
            r == self.current_player_index,
    {
        self.current_player_index
    }

    /// The pot: every seat's bet this hand, summed.
    pub fn get_pot_size(&self) -> (r: i32)
        requires
            self.wf_base(),
    ensures
            r == self.spec_pot(),
            r >= 0,
    {
        let n = self.player_bets.len();
        let mut total: i32 = 0;
        let mut i: usize = 0;
        while i < n
            invariant
                self.wf_base(),
                n == self.n(),
                i <= n,
                total == sum_bets(self.player_bets@, i as int),
                0 <= total <= MAX_TABLE_MONEY,
            decreases n - i,
        {
            proof {
                lemma_sum_bets_bound(self.player_bets@, i as int + 1, n as int);
                lemma_sum_money_nonneg_range(self.players@, n as int);
            }
            total = total + self.player_bets[i];
            i = i + 1;
        }
        total
    }

    /// The game is over when exactly one player is alive.
    pub fn is_game_over(&self) -> (r: bool)
        requires
            self.players.len() >= 1,
        ensures
            r == self.spec_game_over(),
    {
        let n = self.players.len();
        let mut count: usize = 0;
        let mut i: usize = 0;
        while i < n
            invariant
                n == self.n(),
                i <= n,
                count == alive_count(self.players@, i as int),
                count <= i,
            decreases n - i,
        {
            if self.players[i].is_alive() {
                count = count + 1;
            }
            i = i + 1;
        }
        count == 1
    }

    /// The amount a caller must match: the largest bet of any active
    /// seat, a folded seat counting as zero.
    pub fn get_largest_active_bet(&self) -> (r: i32)
        requires
            self.wf(),
        ensures
            r == self.spec_max_bet(),
            r >= 0,
    {
        let n = self.players.len();
        let mut best: i32 = match self.players[0].player_state {
            PlayerState::Folded => 0,
            PlayerState::Active(a) => a.current_bet,
        };
        let mut i: usize = 1;
        while i < n
            invariant
                self.wf(),
                n == self.n(),
                1 <= i <= n,
                best == max_bet(self.players@, i as int),
                best >= 0,
            decreases n - i,
        {
            let b = match self.players[i].player_state {
                PlayerState::Folded => 0,
                PlayerState::Active(a) => a.current_bet,
            };
            if b > best {
                best = b;
            }
            i = i + 1;
        }
        best
    }

    /// How many seats are active.
    pub fn get_active_player_count(&self) -> (r: usize)
        requires
            self.players.len() >= 1,
        ensures
            r == active_count(self.players@, self.n()),
    {
        let n = self.players.len();
        let mut count: usize = 0;
        let mut i: usize = 0;
        while i < n
            invariant
                n == self.n(),
                i <= n,
                count == active_count(self.players@, i as int),
                count <= i,
            decreases n - i,
        {
            match self.players[i].player_state {
                PlayerState::Folded => {},
                PlayerState::Active(_) => {
                    count = count + 1;
                },
            }
            i = i + 1;
        }
        count
    }

    /// Every active seat has had its turn this round or is all-in.
    pub fn check_all_players_ready_for_next_round(&self) -> (r: bool)
        requires
            self.players.len() >= 1,
        ensures
            r == all_ready(self.players@, self.n()),
    {
        let n = self.players.len();
        let mut i: usize = 0;
        while i < n
            invariant
                n == self.n(),
                i <= n,
                all_ready(self.players@, i as int),
            decreases n - i,
        {
            let p = &self.players[i];
            match p.player_state {
                PlayerState::Folded => {},
                PlayerState::Active(_) => {
                    if !(p.has_had_turn_this_round || p.total_money == 0) {
                        return false;
                    }
                },
            }
            i = i + 1;
        }
        true
    }

    /// Every active seat is all-in or matches the largest active bet.
    pub fn check_all_active_players_same_bet(&self) -> (r: bool)
        requires
            self.wf(),
        ensures
            r == all_same_bet(self.players@, self.n(), self.spec_max_bet()),
    {
        let max = self.get_largest_active_bet();
        let n = self.players.len();
        let mut i: usize = 0;
        while i < n
            invariant
                self.wf(),
                n == self.n(),
                i <= n,
                max == self.spec_max_bet(),
                all_same_bet(self.players@, i as int, max as int),
            decreases n - i,
        {
            let p = &self.players[i];
            match p.player_state {
                PlayerState::Folded => {},
                PlayerState::Active(a) => {
                    if !(p.total_money == 0 || a.current_bet == max) {
                        return false;
                    }
                },
            }
            i = i + 1;
        }
        true
    }

    /// The betting round is over when every active seat is ready and all
    /// active seats that are not all-in share the largest bet.
    pub open spec fn spec_betting_over(self) -> bool {
        all_ready(self.players@, self.n()) && all_same_bet(
            self.players@,
            self.n(),
            self.spec_max_bet(),
        )
    }

    /// The betting round is over when every active seat is ready and all
    /// active seats that are not all-in share the largest bet.
    pub fn is_betting_over(&self) -> (r: bool)
        requires
            self.wf(),
        ensures
            r == self.spec_betting_over(),
    {
        let ready = self.check_all_players_ready_for_next_round();
        let same = self.check_all_active_players_same_bet();
        ready && same
    }
}

impl Table {
    /// All five board cards have been dealt.
    pub open spec fn board_dealt(self) -> bool {
        self.flop is Some && self.turn is Some && self.river is Some
    }

    /// Move the turn to the next seat, cyclically, that is active and
    /// not all-in.  Asking for a turn when no seat can act is a
    /// programming error, so one such seat is required.
    pub fn update_current_player_index_to_next_active(&mut self)
        requires
            old(self).wf_base(),
            exists_eligible(old(self).players@),
        ensures
            final(self).wf_base(),
            old(self).ledger_matches() ==> final(self).ledger_matches(),
            final(self).players == old(self).players,
            final(self).player_bets == old(self).player_bets,
            final(self).flop == old(self).flop,
            final(self).turn == old(self).turn,
            final(self).river == old(self).river,
            final(self).dealer_button_index == old(self).dealer_button_index,
            final(self).ante == old(self).ante,
            final(self).hand_number == old(self).hand_number,
            final(self).table_state == old(self).table_state,
            final(self).ante_round_increase == old(self).ante_round_increase,
            final(self).round_actions == old(self).round_actions,
            final(self).previous_round_actions == old(self).previous_round_actions,
            eligible(final(self).players@, final(self).current_player_index as int),
            forall|j: int|
                0 <= j < old(self).n() && cyclic_distance(
                    old(self).n(),
                    old(self).current_player_index as int,
                    j,
                ) < cyclic_distance(
                    old(self).n(),
                    old(self).current_player_index as int,
                    final(self).current_player_index as int,
                ) ==> !eligible(old(self).players@, j),
    {
        let n = self.players.len();
        let start = self.current_player_index;
        let mut idx = start;
        let mut k: usize = 0;
        loop
            invariant
                self.wf_base(),
                exists_eligible(old(self).players@),
                self.players == old(self).players,
                self.player_bets == old(self).player_bets,
                self.flop == old(self).flop,
                self.turn == old(self).turn,
                self.river == old(self).river,
                self.dealer_button_index == old(self).dealer_button_index,
                self.ante == old(self).ante,
                self.hand_number == old(self).hand_number,
                self.current_player_index == old(self).current_player_index,
                self.table_state == old(self).table_state,
                self.ante_round_increase == old(self).ante_round_increase,
                self.round_actions == old(self).round_actions,
                self.previous_round_actions == old(self).previous_round_actions,
                n == self.n(),
                start == self.current_player_index < n,
                idx < n,
                k <= n,
                k == 0 && idx == start || k == cyclic_distance(n as int, start as int, idx as int),
                forall|j: int|
                    0 <= j < n && 0 < cyclic_distance(n as int, start as int, j) <= k
                        ==> !eligible(self.players@, j),
            decreases n - k,
        {
            if k >= n {
                proof {
                    assert forall|j: int| 0 <= j < n implies !eligible(self.players@, j) by {
                        assert(1 <= cyclic_distance(n as int, start as int, j) <= n);
                    }
                    assert(self.players@ == old(self).players@);
                    assert(!exists_eligible(self.players@));
                    assert(false);
                }
                return ;
            }
            idx = idx + 1;
            if idx >= n {
                idx = 0;
            }
            k = k + 1;
            proof {
                assert(k == cyclic_distance(n as int, start as int, idx as int));
                assert forall|j: int|
                    0 <= j < n && 0 < cyclic_distance(n as int, start as int, j) <= k && j
                        != idx implies !eligible(self.players@, j) by {
                    assert(cyclic_distance(n as int, start as int, j) < k);
                }
            }
            let p = &self.players[idx];
            if p.total_money != 0 {
                match p.player_state {
                    PlayerState::Folded => {},
                    PlayerState::Active(_) => {
                        proof {
                            assert(eligible(self.players@, idx as int));
                            assert(exists_eligible(self.players@));
                        }
                        self.current_player_index = idx;
                        return ;
                    },
                }
            }
        }
    }

    /// Mark every alive player that cannot pay the ante as dead on this
    /// hand.
    fn check_for_player_death(&mut self)
        requires
            old(self).wf_base(),
        ensures
            final(self).wf_base(),
            final(self).players@.len() == old(self).players@.len(),
            forall|i: int|
                0 <= i < old(self).n() ==> (#[trigger] final(self).players@[i]) == if old(self).players@[i].spec_is_alive() && old(self).players@[i].total_money < old(self).ante {
                    Player {
                        death_hand_number: Some(old(self).hand_number),
                        ..old(self).players@[i]
                    }
                } else {
                    old(self).players@[i]
                },
            final(self).player_bets == old(self).player_bets,
            final(self).flop == old(self).flop,
            final(self).turn == old(self).turn,
            final(self).river == old(self).river,
            final(self).dealer_button_index == old(self).dealer_button_index,
            final(self).ante == old(self).ante,
            final(self).hand_number == old(self).hand_number,
            final(self).current_player_index == old(self).current_player_index,
            final(self).table_state == old(self).table_state,
            final(self).ante_round_increase == old(self).ante_round_increase,
            final(self).round_actions == old(self).round_actions,
            final(self).previous_round_actions == old(self).previous_round_actions,
            sum_money(final(self).players@, final(self).n()) == sum_money(
                old(self).players@,
                old(self).n(),
            ),
    {
        let n = self.players.len();
        let mut i: usize = 0;
        while i < n
            invariant
                n == old(self).n(),
                i <= n,
                self.players@.len() == n,
                self.player_bets == old(self).player_bets,
                self.flop == old(self).flop,
                self.turn == old(self).turn,
                self.river == old(self).river,
                self.dealer_button_index == old(self).dealer_button_index,
                self.ante == old(self).ante,
                self.hand_number == old(self).hand_number,
                self.current_player_index == old(self).current_player_index,
                self.table_state == old(self).table_state,
                self.ante_round_increase == old(self).ante_round_increase,
                self.round_actions == old(self).round_actions,
                self.previous_round_actions == old(self).previous_round_actions,
                old(self).wf_base(),
                forall|j: int|
                    0 <= j < i ==> (#[trigger] self.players@[j]) == if old(self).players@[j].spec_is_alive() && old(self).players@[j].total_money < old(self).ante {
                        Player {
                            death_hand_number: Some(old(self).hand_number),
                            ..old(self).players@[j]
                        }
                    } else {
                        old(self).players@[j]
                    },
                forall|j: int| i <= j < n ==> self.players@[j] == old(self).players@[j],
            decreases n - i,
        {
            let p = &self.players[i];
            if p.death_hand_number.is_none() && p.total_money < self.ante {
                let hn = self.hand_number;
                let pm = &mut self.players;
                let q = &mut pm[i];
                q.death_hand_number = Some(hn);
            }
            i = i + 1;
        }
        proof {
            lemma_sum_money_same(old(self).players@, self.players@, n as int);
        }
    }
}

/// Whether some seat is alive.
pub open spec fn exists_alive(ps: Seq<Player>) -> bool {
    exists|i: int| 0 <= i < ps.len() && (#[trigger] ps[i]).spec_is_alive()
}

impl Table {
    /// No card appears twice among the board and the active players'
    /// hole cards.
    pub open spec fn distinct_cards_in_play(self) -> bool {
        let n = self.n();
        &&& self.board_dealt()
        &&& (forall|b1: int, b2: int|
            0 <= b1 < b2 < 5 ==> self.board_card(b1) != self.board_card(b2))
        &&& (forall|i: int, k: int, b: int|
            0 <= i < n && self.players@[i].spec_is_active() && 0 <= k < 2 && 0 <= b < 5 ==> (
            #[trigger] self.hole_card(i, k)) != (#[trigger] self.board_card(b)))
        &&& (forall|i: int, k: int, j: int, l: int|
            0 <= i < n && 0 <= j < n && 0 <= k < 2 && 0 <= l < 2 && (i != j || k != l)
                && self.players@[i].spec_is_active() && self.players@[j].spec_is_active() ==> (
            #[trigger] self.hole_card(i, k)) != (#[trigger] self.hole_card(j, l)))
    }

    /// The seat at the dealer button is alive.
    pub open spec fn button_alive(self) -> bool {
        self.players@[self.dealer_button_index as int].spec_is_alive()
    }

    /// One of the five board cards, in deal order.
    pub open spec fn board_card(self, b: int) -> Card {
        if b < 3 {
            self.flop->0[b]
        } else if b == 3 {
            self.turn->0
        } else {
            self.river->0
        }
    }

    /// One hole card of an active seat.
    pub open spec fn hole_card(self, i: int, k: int) -> Card {
        self.players@[i].player_state->Active_0.hand[k]
    }

    /// Advance the dealer button to the next alive seat and then the
    /// turn to the next seat past it that can act.
    pub fn find_next_deal_button_index_and_update_current_player(&mut self)
        requires
            old(self).wf_base(),
        ensures
            final(self).wf_base(),
            old(self).ledger_matches() ==> final(self).ledger_matches(),
            final(self).players == old(self).players,
            final(self).player_bets == old(self).player_bets,
            final(self).flop == old(self).flop,
            final(self).turn == old(self).turn,
            final(self).river == old(self).river,
            final(self).ante == old(self).ante,
            final(self).hand_number == old(self).hand_number,
            final(self).table_state == old(self).table_state,
            final(self).ante_round_increase == old(self).ante_round_increase,
            final(self).round_actions == old(self).round_actions,
            final(self).previous_round_actions == old(self).previous_round_actions,
            !exists_alive(old(self).players@) ==> final(self).dealer_button_index == old(self).dealer_button_index,
            exists_alive(old(self).players@) ==> final(self).button_alive() && forall|j: int|
                0 <= j < old(self).n() && cyclic_distance(
                    old(self).n(),
                    old(self).dealer_button_index as int,
                    j,
                ) < cyclic_distance(
                    old(self).n(),
                    old(self).dealer_button_index as int,
                    final(self).dealer_button_index as int,
                ) ==> !(#[trigger] old(self).players@[j]).spec_is_alive(),
            !exists_eligible(old(self).players@) ==> final(self).current_player_index
                == final(self).dealer_button_index,
            exists_eligible(old(self).players@) ==> eligible(
                final(self).players@,
                final(self).current_player_index as int,
            ) && forall|j: int|
                0 <= j < old(self).n() && cyclic_distance(
                    old(self).n(),
                    final(self).dealer_button_index as int,
                    j,
                ) < cyclic_distance(
                    old(self).n(),
                    final(self).dealer_button_index as int,
                    final(self).current_player_index as int,
                ) ==> !eligible(old(self).players@, j),
    {
        let n = self.players.len();
        let start = self.dealer_button_index;
        let mut idx = start;
        let mut k: usize = 0;
        loop
            invariant_except_break
                self.dealer_button_index == start,
                idx < n,
                k <= n,
                k == 0 && idx == start || k == cyclic_distance(n as int, start as int, idx as int),
                forall|j: int|
                    0 <= j < n && 0 < cyclic_distance(n as int, start as int, j) <= k ==> !(
                    #[trigger] self.players@[j]).spec_is_alive(),
            invariant
                self.wf_base(),
                self.players == old(self).players,
                self.player_bets == old(self).player_bets,
                self.flop == old(self).flop,
                self.turn == old(self).turn,
                self.river == old(self).river,
                self.ante == old(self).ante,
                self.hand_number == old(self).hand_number,
                self.current_player_index == old(self).current_player_index,
                self.table_state == old(self).table_state,
                self.ante_round_increase == old(self).ante_round_increase,
                self.round_actions == old(self).round_actions,
                self.previous_round_actions == old(self).previous_round_actions,
                n == self.n(),
                start == old(self).dealer_button_index < n,
                self.dealer_button_index < n,
            ensures
                (self.dealer_button_index == start && forall|j: int|
                    0 <= j < n ==> !(#[trigger] self.players@[j]).spec_is_alive()) || (
                self.players@[self.dealer_button_index as int].spec_is_alive() && forall|j: int|
                    0 <= j < n && cyclic_distance(n as int, start as int, j) < cyclic_distance(
                        n as int,
                        start as int,
                        self.dealer_button_index as int,
                    ) ==> !(#[trigger] self.players@[j]).spec_is_alive()),
            decreases n - k,
        {
            if k >= n {
                proof {
                    assert forall|j: int| 0 <= j < n implies !(
                    #[trigger] self.players@[j]).spec_is_alive() by {
                        assert(1 <= cyclic_distance(n as int, start as int, j) <= n);
                    }
                }
                break ;
            }
            idx = idx + 1;
            if idx >= n {
                idx = 0;
            }
            k = k + 1;
            if self.players[idx].is_alive() {
                self.dealer_button_index = idx;
                break ;
            }
        }
        proof {
            if !exists_alive(old(self).players@) {
                assert(self.dealer_button_index == old(self).dealer_button_index);
            }
        }
        self.current_player_index = self.dealer_button_index;
        let mut any_eligible = false;
        let mut e: usize = 0;
        while e < n
            invariant
                n == self.n(),
                self.wf_base(),
                e <= n,
                any_eligible ==> exists_eligible(self.players@),
                !any_eligible ==> forall|j: int| 0 <= j < e ==> !eligible(self.players@, j),
            decreases n - e,
        {
            let p = &self.players[e];
            if p.total_money != 0 && p.player_state.is_active() {
                proof {
                    assert(eligible(self.players@, e as int));
                }
                any_eligible = true;
            }
            e = e + 1;
        }
        if any_eligible {
            self.update_current_player_index_to_next_active();
        }
        // a deal that leaves no seat able to act is a dead end: the turn
        // stays at the button, and the next request for an action fails
        // its precondition instead of dying here
    }

    /// Lay the first five cards of the deck out as the board.
    fn deal_table_cards(&mut self, deck: &Vec<Card>)
        requires
            deck@.len() >= 5,
        ensures
            final(self).flop == Some([deck@[0], deck@[1], deck@[2]]),
            final(self).turn == Some(deck@[3]),
            final(self).river == Some(deck@[4]),
            final(self).players == old(self).players,
            final(self).player_bets == old(self).player_bets,
            final(self).dealer_button_index == old(self).dealer_button_index,
            final(self).ante == old(self).ante,
            final(self).hand_number == old(self).hand_number,
            final(self).current_player_index == old(self).current_player_index,
            final(self).table_state == old(self).table_state,
            final(self).ante_round_increase == old(self).ante_round_increase,
            final(self).round_actions == old(self).round_actions,
            final(self).previous_round_actions == old(self).previous_round_actions,
    {
        self.flop = Some([deck[0], deck[1], deck[2]]);
        self.turn = Some(deck[3]);
        self.river = Some(deck[4]);
    }
}

impl Table {
    /// What an alive seat pays at the deal: the ante, capped at its
    /// stack.
    pub open spec fn ante_paid(ante: int, money: int) -> int {
        if ante >= money {
            money
        } else {
            ante
        }
    }

    /// Deal two hole cards to every alive seat, in seat order, from the
    /// deck cursor onward, and collect the ante; dead seats are forced
    /// to folded.
    fn deal_player_cards_collect_ante(&mut self, deck: &Vec<Card>)
        requires
            old(self).wf_base(),
            forall|i: int| 0 <= i < old(self).n() ==> #[trigger] old(self).player_bets@[i] == 0,
            deck@.len() >= 5 + 2 * old(self).n(),
        ensures
            final(self).wf(),
            final(self).players@.len() == old(self).n(),
            forall|i: int|
                0 <= i < old(self).n() && old(self).players@[i].spec_is_alive()
                    ==> ((#[trigger] final(self).players@[i]).player_state matches
                        PlayerState::Active(a) && a.hand[0] == deck@[5 + 2 * alive_count(
                        old(self).players@,
                        i,
                    )] && a.hand[1] == deck@[6 + 2 * alive_count(old(self).players@, i)]
                        && a.current_bet == Table::ante_paid(
                        old(self).ante as int,
                        old(self).players@[i].total_money as int,
                    )),
            forall|i: int|
                0 <= i < old(self).n() && old(self).players@[i].spec_is_alive()
                    ==> (#[trigger] final(self).players@[i]).total_money == old(self).players@[i].total_money - Table::ante_paid(
                    old(self).ante as int,
                    old(self).players@[i].total_money as int,
                ) && !final(self).players@[i].has_had_turn_this_round && final(self).player_bets@[i] == Table::ante_paid(
                    old(self).ante as int,
                    old(self).players@[i].total_money as int,
                ),
            forall|i: int|
                0 <= i < old(self).n() && !old(self).players@[i].spec_is_alive()
                    ==> (#[trigger] final(self).players@[i]).player_state is Folded && final(self).players@[i].total_money == old(self).players@[i].total_money && final(self).player_bets@[i] == 0 && final(self).players@[i].has_had_turn_this_round == old(self).players@[i].has_had_turn_this_round,
            forall|i: int|
                0 <= i < old(self).n() ==> (#[trigger] final(self).players@[i]).death_hand_number
                    == old(self).players@[i].death_hand_number && final(self).players@[i].spec_id()
                    == old(self).players@[i].spec_id(),
            sum_money(final(self).players@, final(self).n()) + sum_bets(
                final(self).player_bets@,
                final(self).n(),
            ) == sum_money(old(self).players@, old(self).n()),
            final(self).flop == old(self).flop,
            final(self).turn == old(self).turn,
            final(self).river == old(self).river,
            final(self).dealer_button_index == old(self).dealer_button_index,
            final(self).ante == old(self).ante,
            final(self).hand_number == old(self).hand_number,
            final(self).current_player_index == old(self).current_player_index,
            final(self).table_state == old(self).table_state,
            final(self).ante_round_increase == old(self).ante_round_increase,
            final(self).round_actions == old(self).round_actions,
            final(self).previous_round_actions == old(self).previous_round_actions,
    {
        let n = self.players.len();
        let ante = self.ante;
        let mut cursor: usize = 5;
        let mut i: usize = 0;
        while i < n
            invariant
                old(self).wf_base(),
                forall|t: int| 0 <= t < old(self).n() ==> #[trigger] old(self).player_bets@[t] == 0,
                deck@.len() >= 5 + 2 * old(self).n(),
                n == old(self).n(),
                self.players@.len() == n,
                self.player_bets@.len() == n,
                ante == old(self).ante,
                i <= n,
                cursor as int == 5 + 2 * alive_count(old(self).players@, i as int),
                forall|j: int|
                    0 <= j < i && old(self).players@[j].spec_is_alive() ==> ((#[trigger] self
                        .players@[j]).player_state matches PlayerState::Active(a) && a.hand[0]
                        == deck@[5 + 2 * alive_count(old(self).players@, j)] && a.hand[1] == deck@[6
                        + 2 * alive_count(old(self).players@, j)] && a.current_bet
                        == Table::ante_paid(
                        old(self).ante as int,
                        old(self).players@[j].total_money as int,
                    )),
                forall|j: int|
                    0 <= j < i && old(self).players@[j].spec_is_alive() ==> (#[trigger] self
                        .players@[j]).total_money == old(self).players@[j].total_money
                        - Table::ante_paid(
                        old(self).ante as int,
                        old(self).players@[j].total_money as int,
                    ) && !self.players@[j].has_had_turn_this_round && self.player_bets@[j]
                        == Table::ante_paid(
                        old(self).ante as int,
                        old(self).players@[j].total_money as int,
                    ),
                forall|j: int|
                    0 <= j < i && !old(self).players@[j].spec_is_alive() ==> (#[trigger] self
                        .players@[j]).player_state is Folded && self.players@[j].total_money == old(self).players@[j].total_money && self.player_bets@[j] == 0 && self.players@[j]
                        .has_had_turn_this_round == old(self).players@[j].has_had_turn_this_round,
                forall|j: int|
                    0 <= j < n ==> (#[trigger] self.players@[j]).death_hand_number == old(self).players@[j].death_hand_number && self.players@[j].spec_id() == old(self).players@[j].spec_id(),
                forall|j: int| i <= j < n ==> #[trigger] self.players@[j] == old(self).players@[j],
                forall|j: int|
                    i <= j < n ==> #[trigger] self.player_bets@[j] == old(self).player_bets@[j],
                forall|j: int| 0 <= j < n ==> (#[trigger] self.players@[j]).total_money >= 0,
                forall|j: int| 0 <= j < n ==> (#[trigger] self.player_bets@[j]) >= 0,
                forall|j: int| 0 <= j < n ==> (#[trigger] self.players@[j]).spec_bet() >= 0,
                self.flop == old(self).flop,
                self.turn == old(self).turn,
                self.river == old(self).river,
                self.dealer_button_index == old(self).dealer_button_index,
                self.ante == old(self).ante,
                self.hand_number == old(self).hand_number,
                self.current_player_index == old(self).current_player_index,
                self.table_state == old(self).table_state,
                self.ante_round_increase == old(self).ante_round_increase,
                self.round_actions == old(self).round_actions,
                self.previous_round_actions == old(self).previous_round_actions,
            decreases n - i,
        {
            if self.players[i].is_alive() {
                proof {
                    lemma_alive_count_le(old(self).players@, i as int);
                }
                let card1 = deck[cursor];
                let card2 = deck[cursor + 1];
                cursor = cursor + 2;
                proof {
                    lemma_money_le_sum(old(self).players@, old(self).player_bets@, i as int, n as int);
                }
                let pm = &mut self.players;
                let q = &mut pm[i];
                q.deal([card1, card2]);
                let paid = q.bet(ante);
                q.has_had_turn_this_round = false;
                let bm = &mut self.player_bets;
                let slot = &mut bm[i];
                *slot = *slot + paid;
            } else {
                let pm = &mut self.players;
                let q = &mut pm[i];
                q.player_state = PlayerState::Folded;
            }
            i = i + 1;
        }
        proof {
            lemma_sum_after_antes(
                old(self).players@,
                self.players@,
                self.player_bets@,
                old(self).ante as int,
                n as int,
            );
            lemma_sum_bets_nonneg_range(old(self).player_bets@, n as int);
        }
    }
}

impl Table {
    /// Start a fresh hand's bookkeeping: the stage returns to the first
    /// betting round, the bet ledger is cleared, the finished hand's log
    /// becomes the previous log, and a new log opens with the deal entry.
    fn reset_state_for_new_round(&mut self)
        requires
            old(self).wf_base(),
        ensures
            final(self).wf_base(),
            final(self).table_state == BetStage::PreFlop,
            final(self).player_bets@.len() == old(self).n(),
            forall|i: int| 0 <= i < old(self).n() ==> #[trigger] final(self).player_bets@[i] == 0,
            final(self).previous_round_actions == old(self).round_actions,
            final(self).round_actions@.len() == 1,
            final(self).round_actions@[0] == TableAction::DealCards(
                DealInformation {
                    round_number: old(self).hand_number,
                    dealer_button_index: old(self).dealer_button_index,
                },
            ),
            final(self).players == old(self).players,
            final(self).flop == old(self).flop,
            final(self).turn == old(self).turn,
            final(self).river == old(self).river,
            final(self).dealer_button_index == old(self).dealer_button_index,
            final(self).ante == old(self).ante,
            final(self).hand_number == old(self).hand_number,
            final(self).current_player_index == old(self).current_player_index,
            final(self).ante_round_increase == old(self).ante_round_increase,
    {
        self.table_state = BetStage::PreFlop;
        let n = self.players.len();
        let mut zeros: Vec<i32> = Vec::new();
        let mut i: usize = 0;
        while i < n
            invariant
                i <= n,
                zeros@.len() == i,
                forall|j: int| 0 <= j < i ==> #[trigger] zeros@[j] == 0,
            decreases n - i,
        {
            zeros.push(0);
            i = i + 1;
        }
        self.player_bets = zeros;
        let mut new_log: Vec<TableAction> = Vec::new();
        new_log.push(
            TableAction::DealCards(
                DealInformation {
                    round_number: self.hand_number,
                    dealer_button_index: self.dealer_button_index,
                },
            ),
        );
        core::mem::swap(&mut self.round_actions, &mut new_log);
        self.previous_round_actions = new_log;
        proof {
            lemma_sum_bets_zero(self.player_bets@, n as int);
            lemma_sum_money_nonneg_range(self.players@, n as int);
            lemma_sum_bets_nonneg_range(old(self).player_bets@, n as int);
        }
    }

    /// Deal the next hand: roll the logs, mark the players that cannot
    /// pay the ante as dead, lay out a fresh shuffled board, give every
    /// alive player two hole cards and collect the ante, move the dealer
    /// button to the next alive seat, hand the turn to the first seat
    /// past it that can act, and escalate the ante on schedule.  When
    /// the game is over nothing happens.
    #[verifier::rlimit(100)]
    pub fn deal(&mut self)
        requires
            old(self).wf_base(),
            old(self).hand_number < 0x3fff_ffff,
            old(self).ante < 0x7fff_ffff,
        ensures
            final(self).wf_base(),
            !old(self).spec_game_over() ==> final(self).wf(),
            old(self).ledger_matches() ==> final(self).ledger_matches(),
            final(self).players@.len() == old(self).players@.len(),
            final(self).ante_round_increase == old(self).ante_round_increase,
            old(self).spec_game_over() ==> *final(self) == *old(self),
            !old(self).spec_game_over() ==> {
                &&& final(self).hand_number == old(self).hand_number + 1
                &&& final(self).table_state == BetStage::PreFlop
                &&& final(self).previous_round_actions == old(self).round_actions
                &&& final(self).round_actions@.len() == 1
                &&& final(self).round_actions@[0] == TableAction::DealCards(
                    DealInformation {
                        round_number: (old(self).hand_number + 1) as i32,
                        dealer_button_index: old(self).dealer_button_index,
                    },
                )
                &&& final(self).distinct_cards_in_play()
                &&& final(self).ante as int == (if (old(self).hand_number + 1) % (
                old(self).ante_round_increase as int) == 0 {
                    old(self).ante + ANTE_INCREASE_AMOUNT
                } else {
                    old(self).ante as int
                })
                &&& forall|i: int|
                    0 <= i < old(self).n() ==> (#[trigger] final(self).players@[i]).death_hand_number == (if old(self).players@[i].spec_is_alive()
                        && old(self).players@[i].total_money < old(self).ante {
                        Some((old(self).hand_number + 1) as i32)
                    } else {
                        old(self).players@[i].death_hand_number
                    })
                &&& forall|i: int|
                    0 <= i < old(self).n() && old(self).players@[i].spec_is_alive() && old(self).players@[i].total_money >= old(self).ante ==> (#[trigger] final(self).players@[i]).spec_is_active() && final(self).players@[i].spec_bet() == old(self).ante && final(self).players@[i].total_money == old(self).players@[i].total_money
                        - old(self).ante && final(self).player_bets@[i] == old(self).ante && !final(self).players@[i].has_had_turn_this_round
                &&& forall|i: int|
                    0 <= i < old(self).n() && !(old(self).players@[i].spec_is_alive() && old(self).players@[i].total_money >= old(self).ante) ==> (#[trigger] final(self).players@[i]).player_state is Folded && final(self).players@[i].total_money
                        == old(self).players@[i].total_money && final(self).player_bets@[i] == 0
                &&& sum_money(final(self).players@, final(self).n()) + sum_bets(
                    final(self).player_bets@,
                    final(self).n(),
                ) == sum_money(old(self).players@, old(self).n())
                &&& (exists_eligible(final(self).players@) ==> eligible(
                    final(self).players@,
                    final(self).current_player_index as int,
                ) && forall|j: int|
                    0 <= j < old(self).n() && cyclic_distance(
                        old(self).n(),
                        final(self).dealer_button_index as int,
                        j,
                    ) < cyclic_distance(
                        old(self).n(),
                        final(self).dealer_button_index as int,
                        final(self).current_player_index as int,
                    ) ==> !eligible(final(self).players@, j))
                &&& ((exists|i: int|
                    0 <= i < old(self).n() && (#[trigger] old(self).players@[i]).spec_is_alive()
                        && old(self).players@[i].total_money >= old(self).ante) ==> final(self).players@[final(self).dealer_button_index as int].spec_is_alive() && forall|j: int|
                    0 <= j < old(self).n() && cyclic_distance(
                        old(self).n(),
                        old(self).dealer_button_index as int,
                        j,
                    ) < cyclic_distance(
                        old(self).n(),
                        old(self).dealer_button_index as int,
                        final(self).dealer_button_index as int,
                    ) ==> !(#[trigger] final(self).players@[j]).spec_is_alive())
            },
    {
        if self.is_game_over() {
            return ;
        }
        self.hand_number = self.hand_number + 1;
        self.reset_state_for_new_round();
        self.check_for_player_death();
        let deck = shuffled_deck();
        self.deal_table_cards(&deck);
        let ghost mid = *self;
        self.deal_player_cards_collect_ante(&deck);
        self.find_next_deal_button_index_and_update_current_player();
        if self.hand_number % self.ante_round_increase == 0 {
            self.ante = self.ante + ANTE_INCREASE_AMOUNT;
        }
        proof {
            if exists|i: int|
                0 <= i < old(self).n() && (#[trigger] old(self).players@[i]).spec_is_alive() && old(self).players@[i].total_money >= old(self).ante {
                let i0 = choose|i: int|
                    0 <= i < old(self).n() && (#[trigger] old(self).players@[i]).spec_is_alive()
                        && old(self).players@[i].total_money >= old(self).ante;
                assert(self.players@[i0].spec_is_alive());
                assert(exists_alive(self.players@));
            }
        }
        proof {
            assert forall|i: int, k: int, b: int|
                0 <= i < self.n() && self.players@[i].spec_is_active() && 0 <= k < 2 && 0 <= b
                    < 5 implies (#[trigger] self.hole_card(i, k)) != (#[trigger] self.board_card(
                b,
            )) by {
                lemma_alive_count_le(mid.players@, i);
                assert(mid.players@[i].spec_is_alive());
                let di = 5 + 2 * alive_count(mid.players@, i) + k;
                assert(self.hole_card(i, k) == deck@[di]);
                assert(self.board_card(b) == deck@[b]);
                assert(deck@[b] != deck@[di]);
            }
            assert forall|i: int, k: int, j: int, l: int|
                0 <= i < self.n() && 0 <= j < self.n() && 0 <= k < 2 && 0 <= l < 2 && (i != j || k
                    != l) && self.players@[i].spec_is_active()
                    && self.players@[j].spec_is_active() implies (#[trigger] self.hole_card(i, k))
                != (#[trigger] self.hole_card(j, l)) by {
                lemma_alive_count_le(mid.players@, i);
                lemma_alive_count_le(mid.players@, j);
                if i != j {
                    if i < j {
                        lemma_alive_count_strict_mono(mid.players@, i, j);
                    } else {
                        lemma_alive_count_strict_mono(mid.players@, j, i);
                    }
                }
                let di = 5 + 2 * alive_count(mid.players@, i) + k;
                let dj = 5 + 2 * alive_count(mid.players@, j) + l;
                assert(self.hole_card(i, k) == deck@[di]);
                assert(self.hole_card(j, l) == deck@[dj]);
                assert(di != dj);
                assert(deck@[di] != deck@[dj]);
            }
        }
    }
}

impl Table {
    /// Make a table of the given number of seats and deal the first
    /// hand.  Every seat starts with the default money; the button
    /// starts at the last seat so the first hand's button lands on seat
    /// zero.
    pub fn new(number_of_players: usize) -> (t: Table)
        requires
            1 <= number_of_players <= MAX_PLAYERS,
        ensures
            t.wf(),
            t.n() == number_of_players,
            t.ante_round_increase == 2 * number_of_players,
            number_of_players == 1 ==> t.hand_number == 0,
            number_of_players >= 2 ==> {
                &&& t.hand_number == 1
                &&& t.ante == 1
                &&& t.table_state == BetStage::PreFlop
                &&& t.previous_round_actions@.len() == 0
                &&& t.round_actions@.len() == 1
                &&& t.distinct_cards_in_play()
                &&& forall|i: int|
                    0 <= i < t.n() ==> (#[trigger] t.players@[i]).spec_is_active()
                        && t.players@[i].spec_is_alive() && t.players@[i].total_money
                        == DEFAULT_START_MONEY - 1 && t.players@[i].spec_bet() == 1
                        && t.player_bets@[i] == 1 && !t.players@[i].has_had_turn_this_round
                &&& sum_money(t.players@, t.n()) + sum_bets(t.player_bets@, t.n())
                    == DEFAULT_START_MONEY * number_of_players
                &&& eligible(t.players@, t.current_player_index as int)
                &&& t.dealer_button_index == 0
                &&& t.current_player_index == 1
            },
    {
        let n = number_of_players;
        let mut players: Vec<Player> = Vec::new();
        let mut i: usize = 0;
        while i < n
            invariant
                i <= n <= MAX_PLAYERS,
                players@.len() == i,
                forall|j: int|
                    0 <= j < i ==> (#[trigger] players@[j]).spec_id() == j && players@[j].total_money
                        == DEFAULT_START_MONEY && players@[j].spec_is_alive() && players@[j].player_state
                        is Folded,
                sum_money(players@, i as int) == DEFAULT_START_MONEY * i,
            decreases n - i,
        {
            let ghost prev = players@;
            players.push(Player::new(i as i8));
            i = i + 1;
            proof {
                lemma_sum_money_same(prev, players@, i as int - 1);
                lemma_sum_money_prefix_step(players@, i as int - 1);
            }
        }
        let mut bets: Vec<i32> = Vec::new();
        let mut j: usize = 0;
        while j < n
            invariant
                j <= n,
                bets@.len() == j,
                forall|k: int| 0 <= k < j ==> #[trigger] bets@[k] == 0,
            decreases n - j,
        {
            bets.push(0);
            j = j + 1;
        }
        let initial_index = n - 1;
        let mut table = Table {
            players,
            evaluator: make_evaluator(),
            flop: None,
            turn: None,
            river: None,
            dealer_button_index: initial_index,
            ante: 1,
            hand_number: 0,
            current_player_index: initial_index,
            table_state: BetStage::PreFlop,
            player_bets: bets,
            ante_round_increase: (n as i32) * 2,
            round_actions: Vec::new(),
            previous_round_actions: Vec::new(),
        };
        proof {
            lemma_sum_bets_zero(table.player_bets@, n as int);
            lemma_alive_count_all(table.players@, n as int);
            assert(table.wf());
        }
        table.deal();
        proof {
            if n >= 2 {
                assert(!(alive_count(table.players@, table.n()) == 1)) by {
                    lemma_alive_count_all(table.players@, table.n());
                }
                assert(1int % (2 * (n as int)) == 1) by (nonlinear_arith)
                    requires 2 <= n <= 23
                ;
                // the button moves to the first alive seat past the last
                // one, and the turn to the first seat that can act past it
                let b = table.dealer_button_index as int;
                assert(cyclic_distance(n as int, n as int - 1, 0) == 1);
                assert(table.players@[0].spec_is_alive());
                if cyclic_distance(n as int, n as int - 1, b) > 1 {
                    assert(!table.players@[0].spec_is_alive());
                }
                assert(cyclic_distance(n as int, n as int - 1, b) == 1);
                assert(b == 0);
                let c = table.current_player_index as int;
                assert(eligible(table.players@, 1));
                assert(cyclic_distance(n as int, 0, 1) == 1);
                if cyclic_distance(n as int, 0, c) > 1 {
                    assert(!eligible(table.players@, 1));
                }
                assert(cyclic_distance(n as int, 0, c) == 1);
                assert(c == 1);
            }
        }
        table
    }
}

/// The largest bet is at least any one seat's bet.
proof fn lemma_max_bet_ge(ps: Seq<Player>, n: int, i: int)
    requires
        0 <= i < n <= ps.len(),
        1 <= n,
    ensures
        max_bet(ps, n) >= ps[i].spec_bet(),
    decreases n,
{
    if i < n - 1 {
        lemma_max_bet_ge(ps, n - 1, i);
    }
}

/// The largest bet equals some active seat's bet or is the first seat's
/// bet, so under the ledger agreement it is at most the whole pot.
proof fn lemma_max_bet_le_pot(ps: Seq<Player>, bets: Seq<i32>, n: int)
    requires
        1 <= n <= ps.len(),
        n <= bets.len(),
        forall|i: int| 0 <= i < bets.len() ==> (#[trigger] bets[i]) >= 0,
        forall|i: int| 0 <= i < n ==> (#[trigger] ps[i]).spec_bet() >= 0,
        forall|i: int|
            0 <= i < n && (#[trigger] ps[i]).spec_is_active() ==> ps[i].spec_bet() == bets[i],
    ensures
        max_bet(ps, n) <= sum_bets(bets, n),
    decreases n,
{
    lemma_sum_bets_nonneg_range(bets, n);
    if n == 1 {
        assert(sum_bets(bets, 0) == 0);
        assert(sum_bets(bets, 1) == bets[0]);
    } else {
        lemma_max_bet_le_pot(ps, bets, n - 1);
        lemma_sum_bets_nonneg_range(bets, n - 1);
        assert(sum_bets(bets, n) == sum_bets(bets, n - 1) + bets[n - 1]);
    }
}

/// A sum changes by the change of the one updated entry.
proof fn lemma_sum_money_update(ps: Seq<Player>, i: int, p2: Player, n: int)
    requires
        0 <= i < n <= ps.len(),
    ensures
        sum_money(ps.update(i, p2), n) == sum_money(ps, n) - ps[i].total_money + p2.total_money,
    decreases n,
{
    if i < n - 1 {
        lemma_sum_money_update(ps, i, p2, n - 1);
    } else {
        lemma_sum_money_same_below(ps, ps.update(i, p2), n - 1);
    }
}

/// A sum changes by the change of the one updated entry.
proof fn lemma_sum_bets_update(bets: Seq<i32>, i: int, v: i32, n: int)
    requires
        0 <= i < n <= bets.len(),
    ensures
        sum_bets(bets.update(i, v), n) == sum_bets(bets, n) - bets[i] + v,
    decreases n,
{
    if i < n - 1 {
        lemma_sum_bets_update(bets, i, v, n - 1);
    } else {
        lemma_sum_bets_same_below(bets, bets.update(i, v), n - 1);
    }
}

/// Equal prefixes give equal sums.
proof fn lemma_sum_money_same_below(a: Seq<Player>, b: Seq<Player>, n: int)
    requires
        0 <= n <= a.len(),
        n <= b.len(),
        forall|j: int| 0 <= j < n ==> a[j] == b[j],
    ensures
        sum_money(a, n) == sum_money(b, n),
    decreases n,
{
    if n > 0 {
        lemma_sum_money_same_below(a, b, n - 1);
    }
}

/// Equal prefixes give equal sums.
proof fn lemma_sum_bets_same_below(a: Seq<i32>, b: Seq<i32>, n: int)
    requires
        0 <= n <= a.len(),
        n <= b.len(),
        forall|j: int| 0 <= j < n ==> a[j] == b[j],
    ensures
        sum_bets(a, n) == sum_bets(b, n),
    decreases n,
{
    if n > 0 {
        lemma_sum_bets_same_below(a, b, n - 1);
    }
}

/// Every active seat among the first `n` is all-in.
pub open spec fn all_all_in(ps: Seq<Player>, n: int) -> bool {
    forall|i: int|
        0 <= i < n && (#[trigger] ps[i]).spec_is_active() ==> ps[i].total_money == 0
}

/// The seats with every turn flag cleared, as a new round leaves them.
pub open spec fn clear_turns(ps: Seq<Player>) -> Seq<Player> {
    Seq::new(ps.len(), |i: int| Player { has_had_turn_this_round: false, ..ps[i] })
}

/// The log marker a closed betting round leaves.
pub open spec fn spec_advance_marker(s: BetStage) -> TableAction {
    match s {
        BetStage::PreFlop => TableAction::AdvanceToFlop,
        BetStage::Flop => TableAction::AdvanceToTurn,
        _ => TableAction::AdvanceToRiver,
    }
}

impl Table {
    /// Whether this action works as a fold for the acting seat: an
    /// explicit fold, or a check into an open bet.
    pub open spec fn spec_step_folds(self, a: HandAction) -> bool {
        let cp = self.current_player_index as int;
        let diff = self.spec_max_bet() - self.players@[cp].spec_bet();
        a is Fold || (a is Check && diff != 0)
    }

    /// What the acting seat pays for this action: nothing on a fold or
    /// a clean check, a call capped at the stack, or a raise capped by
    /// the pot limit - the pot plus the call - and then the stack.
    pub open spec fn spec_step_paid(self, a: HandAction) -> int {
        let cp = self.current_player_index as int;
        let diff = self.spec_max_bet() - self.players@[cp].spec_bet();
        let money = self.players@[cp].total_money as int;
        match a {
            HandAction::Fold => 0,
            HandAction::Check => 0,
            HandAction::Call => if diff >= money {
                money
            } else {
                diff
            },
            HandAction::Raise(r) => {
                let eff = if r + diff >= self.spec_pot() + diff {
                    self.spec_pot() + diff
                } else {
                    r + diff
                };
                if eff >= money {
                    money
                } else {
                    eff
                }
            },
        }
    }

    /// The log entry the action leaves: the effective action, a raise
    /// carrying the amount actually paid.
    pub open spec fn spec_step_entry(self, a: HandAction) -> TableAction {
        let pid = self.players@[self.current_player_index as int].spec_id();
        if self.spec_step_folds(a) {
            TableAction::TakePlayerAction(pid, HandAction::Fold)
        } else {
            match a {
                HandAction::Check => TableAction::TakePlayerAction(pid, HandAction::Check),
                HandAction::Call => TableAction::TakePlayerAction(pid, HandAction::Call),
                HandAction::Raise(_) => TableAction::TakePlayerAction(
                    pid,
                    HandAction::Raise(self.spec_step_paid(a) as i32),
                ),
                HandAction::Fold => TableAction::TakePlayerAction(pid, HandAction::Fold),
            }
        }
    }

    /// The seats after the action's own effect, before any round
    /// closure.
    pub open spec fn spec_after_step(self, a: HandAction) -> Seq<Player> {
        let cp = self.current_player_index as int;
        let p = self.players@[cp];
        if self.spec_step_folds(a) {
            self.players@.update(
                cp,
                (Player {
                    player_state: PlayerState::Folded,
                    has_had_turn_this_round: true,
                    ..p
                }),
            )
        } else {
            let paid = self.spec_step_paid(a);
            self.players@.update(
                cp,
                (Player {
                    player_state: PlayerState::Active(
                        ActiveState {
                            hand: p.player_state->Active_0.hand,
                            current_bet: (p.spec_bet() + paid) as i32,
                        },
                    ),
                    total_money: (p.total_money - paid) as i32,
                    has_had_turn_this_round: true,
                    ..p
                }),
            )
        }
    }

    /// The betting round closes after this action.
    pub open spec fn spec_step_closes_round(self, a: HandAction) -> bool {
        let ps = self.spec_after_step(a);
        all_ready(ps, self.n()) && all_same_bet(ps, self.n(), max_bet(ps, self.n()))
    }

    /// The action ends the hand: one active seat remains, or the closed
    /// round was the river, or every active seat is all-in so all the
    /// remaining rounds close at once.
    pub open spec fn spec_step_resolves(self, a: HandAction) -> bool {
        let ps = self.spec_after_step(a);
        active_count(ps, self.n()) == 1 || (self.spec_step_closes_round(a) && (self.table_state
            == BetStage::River || all_all_in(ps, self.n())))
    }
}

impl Table {
    /// The effect one action has on the acting seat, before any round
    /// closure: which bet the seat ends up making and whether it folds.
    /// A check into an open bet is a fold; a raise is capped by the pot
    /// limit, the pot plus the call, and then by the seat's stack.
    #[verifier::rlimit(100)]
    fn take_provided_action(&mut self, hand_action: HandAction)
        requires
            old(self).wf(),
            hand_action.wire_ok(),
            old(self).players@[old(self).current_player_index as int].spec_is_active(),
        ensures
            final(self).wf(),
            final(self).players@.len() == old(self).players@.len(),
            final(self).flop == old(self).flop,
            final(self).turn == old(self).turn,
            final(self).river == old(self).river,
            final(self).dealer_button_index == old(self).dealer_button_index,
            final(self).ante == old(self).ante,
            final(self).hand_number == old(self).hand_number,
            final(self).current_player_index == old(self).current_player_index,
            final(self).table_state == old(self).table_state,
            final(self).ante_round_increase == old(self).ante_round_increase,
            final(self).previous_round_actions == old(self).previous_round_actions,
            forall|i: int|
                0 <= i < old(self).n() && i != old(self).current_player_index as int ==> (
                #[trigger] final(self).players@[i]) == old(self).players@[i],
            forall|i: int|
                0 <= i < old(self).n() && i != old(self).current_player_index as int ==> (
                #[trigger] final(self).player_bets@[i]) == old(self).player_bets@[i],
            forall|i: int|
                0 <= i < old(self).n() ==> (#[trigger] final(self).players@[i]).death_hand_number
                    == old(self).players@[i].death_hand_number,
            sum_money(final(self).players@, final(self).n()) + sum_bets(
                final(self).player_bets@,
                final(self).n(),
            ) == sum_money(old(self).players@, old(self).n()) + sum_bets(
                old(self).player_bets@,
                old(self).n(),
            ),
            ({
                let cp = old(self).current_player_index as int;
                let diff = old(self).spec_max_bet() - old(self).players@[cp].spec_bet();
                let folds = hand_action is Fold || (hand_action is Check && diff != 0);
                folds ==> (final(self).players@[cp].player_state is Folded && final(self).players@[cp].total_money == old(self).players@[cp].total_money && final(self).player_bets@[cp] == old(self).player_bets@[cp])
            }),
            ({
                let cp = old(self).current_player_index as int;
                let diff = old(self).spec_max_bet() - old(self).players@[cp].spec_bet();
                let money = old(self).players@[cp].total_money as int;
                let paid = match hand_action {
                    HandAction::Fold => 0int,
                    HandAction::Check => 0int,
                    HandAction::Call => if diff >= money {
                        money
                    } else {
                        diff
                    },
                    HandAction::Raise(r) => {
                        let eff = if r + diff >= old(self).spec_pot() + diff {
                            old(self).spec_pot() + diff
                        } else {
                            r + diff
                        };
                        if eff >= money {
                            money
                        } else {
                            eff
                        }
                    },
                };
                let folds = hand_action is Fold || (hand_action is Check && diff != 0);
                !folds ==> (final(self).players@[cp].spec_is_active() && final(self).players@[cp].spec_bet() == old(self).players@[cp].spec_bet() + paid && final(self).players@[cp].total_money == old(self).players@[cp].total_money - paid && final(self).player_bets@[cp] == old(self).player_bets@[cp] + paid && final(self).players@[cp].has_had_turn_this_round)
            }),
            final(self).players@ == old(self).spec_after_step(hand_action),
            final(self).player_bets@ == old(self).player_bets@.update(
                old(self).current_player_index as int,
                (old(self).player_bets@[old(self).current_player_index as int]
                    + old(self).spec_step_paid(hand_action)) as i32,
            ),
            final(self).round_actions@ == old(self).round_actions@.push(
                old(self).spec_step_entry(hand_action),
            ),
    {
        let cp = self.current_player_index;
        let largest = self.get_largest_active_bet();
        let my_bet = match self.players[cp].player_state {
            PlayerState::Folded => 0,
            PlayerState::Active(a) => a.current_bet,
        };
        proof {
            lemma_max_bet_ge(self.players@, self.n(), cp as int);
        }
        let difference = largest - my_bet;
        let pid = self.players[cp].get_id();
        match hand_action {
            HandAction::Fold => {
                self.fold_current(cp);
                self.round_actions.push(TableAction::TakePlayerAction(pid, HandAction::Fold));
                proof {
                    assert(self.player_bets@ == old(self).player_bets@);
                    assert forall|i: int|
                        0 <= i < old(self).n() && i != cp as int implies (#[trigger] self
                            .players@[i]) == old(self).players@[i] && self.player_bets@[i] == old(self).player_bets@[i] by {
                        assert(self.players@[i] == old(self).players@.update(
                            cp as int,
                            (Player {
                                player_state: PlayerState::Folded,
                                has_had_turn_this_round: true,
                                ..old(self).players@[cp as int]
                            }),
                        )[i]);
                    }
                }
            },
            HandAction::Check => {
                if difference == 0 {
                    self.bet_current(cp, 0);
                    self.round_actions.push(TableAction::TakePlayerAction(pid, HandAction::Check));
                } else {
                    self.fold_current(cp);
                    self.round_actions.push(TableAction::TakePlayerAction(pid, HandAction::Fold));
                    proof {
                        assert(self.player_bets@ == old(self).player_bets@);
                        assert forall|i: int|
                            0 <= i < old(self).n() && i != cp as int implies (#[trigger] self
                                .players@[i]) == old(self).players@[i] && self.player_bets@[i]
                            == old(self).player_bets@[i] by {
                            assert(self.players@[i] == old(self).players@.update(
                                cp as int,
                                (Player {
                                    player_state: PlayerState::Folded,
                                    has_had_turn_this_round: true,
                                    ..old(self).players@[cp as int]
                                }),
                            )[i]);
                        }
                    }
                }
            },
            HandAction::Call => {
                let paid = self.bet_current(cp, difference);
                self.round_actions.push(TableAction::TakePlayerAction(pid, HandAction::Call));
            },
            HandAction::Raise(raise_amount) => {
                let pot = self.get_pot_size();
                proof {
                    lemma_max_bet_le_pot(self.players@, self.player_bets@, self.n());
                }
                let wish = raise_amount as i64 + difference as i64;
                let cap = pot as i64 + difference as i64;
                let acceptable: i64 = if wish >= cap {
                    cap
                } else {
                    wish
                };
                let money = self.players[cp].total_money;
                let eff: i32 = if acceptable >= money as i64 {
                    money
                } else {
                    acceptable as i32
                };
                let paid = self.bet_current(cp, eff);
                self.round_actions.push(
                    TableAction::TakePlayerAction(pid, HandAction::Raise(paid)),
                );
            },
        }
    }

    /// Fold the acting seat, keeping the ledger and sums in step.
    fn fold_current(&mut self, cp: usize)
        requires
            old(self).wf(),
            cp == old(self).current_player_index,
            old(self).players@[cp as int].spec_is_active(),
        ensures
            final(self).wf(),
            final(self).players@ == old(self).players@.update(
                cp as int,
                (Player {
                    player_state: PlayerState::Folded,
                    has_had_turn_this_round: true,
                    ..old(self).players@[cp as int]
                }),
            ),
            final(self).player_bets == old(self).player_bets,
            final(self).flop == old(self).flop,
            final(self).turn == old(self).turn,
            final(self).river == old(self).river,
            final(self).dealer_button_index == old(self).dealer_button_index,
            final(self).ante == old(self).ante,
            final(self).hand_number == old(self).hand_number,
            final(self).current_player_index == old(self).current_player_index,
            final(self).table_state == old(self).table_state,
            final(self).ante_round_increase == old(self).ante_round_increase,
            final(self).round_actions == old(self).round_actions,
            final(self).previous_round_actions == old(self).previous_round_actions,
            sum_money(final(self).players@, final(self).n()) == sum_money(
                old(self).players@,
                old(self).n(),
            ),
    {
        let pm = &mut self.players;
        let q = &mut pm[cp];
        q.fold();
        proof {
            assert(self.players@ =~= old(self).players@.update(
                cp as int,
                (Player {
                    player_state: PlayerState::Folded,
                    has_had_turn_this_round: true,
                    ..old(self).players@[cp as int]
                }),
            ));
            lemma_sum_money_same(old(self).players@, self.players@, self.n());
        }
    }

    /// Let the acting seat bet, moving the paid amount into the ledger.
    fn bet_current(&mut self, cp: usize, amount: i32) -> (paid: i32)
        requires
            old(self).wf(),
            cp == old(self).current_player_index,
            old(self).players@[cp as int].spec_is_active(),
            amount >= 0,
        ensures
            final(self).wf(),
            paid as int == (if amount as int >= old(self).players@[cp as int].total_money as int {
                old(self).players@[cp as int].total_money as int
            } else {
                amount as int
            }),
            final(self).players@.len() == old(self).players@.len(),
            forall|i: int|
                0 <= i < old(self).n() && i != cp as int ==> (#[trigger] final(self).players@[i])
                    == old(self).players@[i],
            forall|i: int|
                0 <= i < old(self).n() && i != cp as int ==> (#[trigger] final(self).player_bets@[i]) == old(self).player_bets@[i],
            final(self).players@[cp as int].spec_is_active(),
            final(self).players@[cp as int].spec_bet() == old(self).players@[cp as int].spec_bet()
                + paid,
            final(self).players@[cp as int].total_money == old(self).players@[cp as int].total_money
                - paid,
            final(self).players@[cp as int].has_had_turn_this_round,
            final(self).players@[cp as int].death_hand_number == old(self).players@[cp as int].death_hand_number,
            final(self).player_bets@[cp as int] == old(self).player_bets@[cp as int] + paid,
            final(self).players@ == old(self).players@.update(
                cp as int,
                (Player {
                    player_state: PlayerState::Active(
                        ActiveState {
                            hand: old(self).players@[cp as int].player_state->Active_0.hand,
                            current_bet: (old(self).players@[cp as int].spec_bet() + paid) as i32,
                        },
                    ),
                    total_money: (old(self).players@[cp as int].total_money - paid) as i32,
                    has_had_turn_this_round: true,
                    ..old(self).players@[cp as int]
                }),
            ),
            final(self).player_bets@ == old(self).player_bets@.update(
                cp as int,
                (old(self).player_bets@[cp as int] + paid) as i32,
            ),
            final(self).flop == old(self).flop,
            final(self).turn == old(self).turn,
            final(self).river == old(self).river,
            final(self).dealer_button_index == old(self).dealer_button_index,
            final(self).ante == old(self).ante,
            final(self).hand_number == old(self).hand_number,
            final(self).current_player_index == old(self).current_player_index,
            final(self).table_state == old(self).table_state,
            final(self).ante_round_increase == old(self).ante_round_increase,
            final(self).round_actions == old(self).round_actions,
            final(self).previous_round_actions == old(self).previous_round_actions,
            sum_money(final(self).players@, final(self).n()) + sum_bets(
                final(self).player_bets@,
                final(self).n(),
            ) == sum_money(old(self).players@, old(self).n()) + sum_bets(
                old(self).player_bets@,
                old(self).n(),
            ),
    {
        proof {
            lemma_money_plus_bet_le_sum(
                old(self).players@,
                old(self).player_bets@,
                cp as int,
                old(self).n(),
            );
        }
        let ghost ps0 = self.players@;
        let ghost bets0 = self.player_bets@;
        let pm = &mut self.players;
        let q = &mut pm[cp];
        let paid = q.bet(amount);
        let bm = &mut self.player_bets;
        let slot = &mut bm[cp];
        *slot = *slot + paid;
        proof {
            lemma_sum_money_update(ps0, cp as int, self.players@[cp as int], self.n());
            lemma_sum_bets_update(bets0, cp as int, self.player_bets@[cp as int], self.n());
            assert(self.players@ =~= ps0.update(cp as int, self.players@[cp as int]));
            assert(self.player_bets@ =~= bets0.update(cp as int, self.player_bets@[cp as int]));
            lemma_sum_money_same_below(self.players@, ps0.update(cp as int, self.players@[cp as int]), self.n());
            lemma_sum_bets_same_below(self.player_bets@, bets0.update(cp as int, self.player_bets@[cp as int]), self.n());
            assert(self.players@ =~= ps0.update(
                cp as int,
                (Player {
                    player_state: PlayerState::Active(
                        ActiveState {
                            hand: ps0[cp as int].player_state->Active_0.hand,
                            current_bet: (ps0[cp as int].spec_bet() + paid) as i32,
                        },
                    ),
                    total_money: (ps0[cp as int].total_money - paid) as i32,
                    has_had_turn_this_round: true,
                    ..ps0[cp as int]
                }),
            ));
            assert(self.player_bets@ =~= bets0.update(
                cp as int,
                (bets0[cp as int] + paid) as i32,
            ));
        }
        paid
    }
}

/// A seat's stack and ledger entry together are at most the sum of all
/// stacks and bets when everything is non-negative.
proof fn lemma_money_plus_bet_le_sum(ps: Seq<Player>, bets: Seq<i32>, i: int, n: int)
    requires
        0 <= i < n <= ps.len(),
        n <= bets.len(),
        forall|j: int| 0 <= j < ps.len() ==> (#[trigger] ps[j]).total_money >= 0,
        forall|j: int| 0 <= j < bets.len() ==> (#[trigger] bets[j]) >= 0,
    ensures
        ps[i].total_money + bets[i] <= sum_money(ps, n) + sum_bets(bets, n),
    decreases n,
{
    if i == n - 1 {
        lemma_sum_money_nonneg_range(ps, n - 1);
        lemma_sum_bets_nonneg_range(bets, n - 1);
    } else {
        lemma_money_plus_bet_le_sum(ps, bets, i, n - 1);
    }
}

/// The sign of the hand comparison between two players: the better
/// seven-card hand comes first, folded seats come last and tie with
/// each other.
pub open spec fn spec_compare_players(shared: Seq<Card>, p1: Player, p2: Player) -> int {
    if !p1.spec_is_active() && !p2.spec_is_active() {
        0
    } else if !p1.spec_is_active() {
        1
    } else if !p2.spec_is_active() {
        -1
    } else {
        let h1 = p1.player_state->Active_0.hand;
        let h2 = p2.player_state->Active_0.hand;
        let s1 = hand_strength(codes_of(shared + seq![h1[0], h1[1]]));
        let s2 = hand_strength(codes_of(shared + seq![h2[0], h2[1]]));
        if s1 > s2 {
            -1
        } else if s1 < s2 {
            1
        } else {
            0
        }
    }
}

/// The hand comparison order is transitive and flips with its
/// arguments.
proof fn lemma_compare_players_laws(shared: Seq<Card>, a: Player, b: Player, c: Player)
    ensures
        spec_compare_players(shared, a, b) == -spec_compare_players(shared, b, a),
        spec_compare_players(shared, a, b) <= 0 && spec_compare_players(shared, b, c) <= 0
            ==> spec_compare_players(shared, a, c) <= 0,
{
}

/// The sign of the bet-amount comparison: folded seats come first, by
/// seat number; active seats order by their bet.
pub open spec fn spec_cmp_bet(a: Player, b: Player) -> int {
    match (a.player_state, b.player_state) {
        (PlayerState::Folded, PlayerState::Folded) => if a.spec_id() < b.spec_id() {
            -1int
        } else if a.spec_id() > b.spec_id() {
            1int
        } else {
            0int
        },
        (PlayerState::Active(_), PlayerState::Folded) => 1,
        (PlayerState::Folded, PlayerState::Active(_)) => -1,
        (PlayerState::Active(x), PlayerState::Active(y)) => if x.current_bet < y.current_bet {
            -1int
        } else if x.current_bet > y.current_bet {
            1int
        } else {
            0int
        },
    }
}

/// The bet-amount order is transitive and flips with its arguments.
proof fn lemma_cmp_bet_laws(a: Player, b: Player, c: Player)
    ensures
        spec_cmp_bet(a, b) == -spec_cmp_bet(b, a),
        spec_cmp_bet(a, b) <= 0 && spec_cmp_bet(b, c) <= 0 ==> spec_cmp_bet(a, c) <= 0,
{
}

impl Table {
    /// Compare two players' best hands over the shared cards, as a
    /// sign: a negative result means the first hand is better.
    pub fn compare_players(&self, shared_cards: &Vec<Card>, p1: &Player, p2: &Player) -> (r: i8)
        ensures
            r as int == spec_compare_players(shared_cards@, *p1, *p2),
    {
        let a1 = p1.player_state.is_active();
        let a2 = p2.player_state.is_active();
        if !a1 && !a2 {
            return 0;
        }
        if !a1 {
            return 1;
        }
        if !a2 {
            return -1;
        }
        let mut set1: Vec<Card> = Vec::new();
        let mut set2: Vec<Card> = Vec::new();
        let m = shared_cards.len();
        let mut i: usize = 0;
        while i < m
            invariant
                i <= m,
                m == shared_cards@.len(),
                set1@ == shared_cards@.subrange(0, i as int),
                set2@ == shared_cards@.subrange(0, i as int),
            decreases m - i,
        {
            set1.push(shared_cards[i]);
            set2.push(shared_cards[i]);
            i = i + 1;
            proof {
                assert(set1@ =~= shared_cards@.subrange(0, i as int));
                assert(set2@ =~= shared_cards@.subrange(0, i as int));
            }
        }
        match (&p1.player_state, &p2.player_state) {
            (PlayerState::Active(x), PlayerState::Active(y)) => {
                set1.push(x.hand[0]);
                set1.push(x.hand[1]);
                set2.push(y.hand[0]);
                set2.push(y.hand[1]);
                proof {
                    assert(set1@ =~= shared_cards@ + seq![x.hand[0], x.hand[1]]);
                    assert(set2@ =~= shared_cards@ + seq![y.hand[0], y.hand[1]]);
                }
                let c = compare_hands(&self.evaluator, &set1, &set2);
                if c == 1 {
                    -1
                } else if c == -1 {
                    1
                } else {
                    0
                }
            },
            _ => 0,
        }
    }

    /// Sort players best hand first, folded seats last.  The result is
    /// a rearrangement of the same players.
    pub fn sort_by_hands(&self, total_hand: &Vec<Card>, alive_players: &mut Vec<Player>)
        ensures
            final(alive_players)@.len() == old(alive_players)@.len(),
            final(alive_players)@.to_multiset() == old(alive_players)@.to_multiset(),
            forall|x: int, y: int|
                0 <= x < y < final(alive_players)@.len() ==> spec_compare_players(
                    total_hand@,
                    final(alive_players)@[x],
                    final(alive_players)@[y],
                ) <= 0,
    {
        broadcast use vstd::seq_lib::group_to_multiset_ensures;

        let n = alive_players.len();
        if n <= 1 {
            return ;
        }
        let mut j: usize = 1;
        while j < n
            invariant
                n == alive_players@.len(),
                1 <= j <= n,
                alive_players@.to_multiset() == old(alive_players)@.to_multiset(),
                forall|x: int, y: int|
                    0 <= x < y < j && y < n ==> spec_compare_players(
                        total_hand@,
                        alive_players@[x],
                        alive_players@[y],
                    ) <= 0,
            decreases n - j,
        {
            let key = alive_players[j];
            let mut p: usize = 0;
            loop
                invariant
                    p <= j < n,
                    n == alive_players@.len(),
                    forall|q: int|
                        0 <= q < p ==> spec_compare_players(
                            total_hand@,
                            alive_players@[q],
                            key,
                        ) <= 0,
                ensures
                    p <= j,
                    forall|q: int|
                        0 <= q < p ==> spec_compare_players(
                            total_hand@,
                            alive_players@[q],
                            key,
                        ) <= 0,
                    p < j ==> spec_compare_players(total_hand@, alive_players@[p as int], key) > 0,
                decreases j - p,
            {
                if p >= j {
                    break ;
                }
                let c = self.compare_players(total_hand, &alive_players[p], &key);
                if c > 0 {
                    break ;
                }
                p = p + 1;
            }
            if p < j {
                let ghost before = alive_players@;
                let x = alive_players.remove(j);
                alive_players.insert(p, x);
                proof {
                    assert(alive_players@.to_multiset() == before.to_multiset()) by {
                        vstd::seq_lib::to_multiset_remove(before, j as int);
                        vstd::seq_lib::to_multiset_insert(before.remove(j as int), p as int, x);
                        assert(before.contains(before[j as int])) by {
                            let jj = j as int;
                            assert(0 <= jj < before.len() && before[jj] == before[jj]);
                        }
                        vstd::seq_lib::to_multiset_contains(before, before[j as int]);
                        assert(before.to_multiset().count(before[j as int]) > 0);
                        assert(before.to_multiset().remove(before[j as int]).insert(
                            before[j as int],
                        ) =~= before.to_multiset());
                        assert(alive_players@ =~= before.remove(j as int).insert(p as int, x));
                    }
                    assert forall|xx: int, yy: int| 0 <= xx < yy < j + 1 && yy < n implies
                        spec_compare_players(
                            total_hand@,
                            alive_players@[xx],
                            alive_players@[yy],
                        ) <= 0 by {
                        let s = alive_players@;
                        assert(s[p as int] == key);
                        assert(forall|q: int| 0 <= q < p ==> s[q] == before[q]);
                        assert(forall|q: int| p < q <= j ==> s[q] == before[q - 1]);
                        assert(spec_compare_players(total_hand@, before[p as int], key) > 0);
                        lemma_compare_players_laws(total_hand@, key, before[p as int], key);
                        if xx == p as int {
                            // key against a shifted element
                            lemma_compare_players_laws(
                                total_hand@,
                                key,
                                before[p as int],
                                before[yy - 1],
                            );
                        } else if yy == p as int {
                        } else if xx < p as int && yy > p as int {
                        }
                    }
                }
            }
            j = j + 1;
        }
    }
}

/// The bet-amount comparison of two players, as a sign: folded seats
/// come first, ordered by seat number; active seats order by their
/// bet this hand.
pub fn compare_players_by_bet_amount(player1: &Player, player2: &Player) -> (r: i8)
    ensures
        r as int == spec_cmp_bet(*player1, *player2),
{
    match (&player1.player_state, &player2.player_state) {
        (PlayerState::Folded, PlayerState::Folded) => {
            let i1 = player1.get_id();
            let i2 = player2.get_id();
            if i1 < i2 {
                -1
            } else if i1 > i2 {
                1
            } else {
                0
            }
        },
        (PlayerState::Active(_), PlayerState::Folded) => 1,
        (PlayerState::Folded, PlayerState::Active(_)) => -1,
        (PlayerState::Active(x), PlayerState::Active(y)) => {
            if x.current_bet < y.current_bet {
                -1
            } else if x.current_bet > y.current_bet {
                1
            } else {
                0
            }
        },
    }
}

/// Sort players by the bet-amount order.  The result is a
/// rearrangement of the same players.
pub fn sort_players_by_bet(players: &mut Vec<Player>)
    ensures
        final(players)@.len() == old(players)@.len(),
        final(players)@.to_multiset() == old(players)@.to_multiset(),
        forall|x: int, y: int|
            0 <= x < y < final(players)@.len() ==> spec_cmp_bet(
                final(players)@[x],
                final(players)@[y],
            ) <= 0,
{
    broadcast use vstd::seq_lib::group_to_multiset_ensures;

    let n = players.len();
    if n <= 1 {
        return ;
    }
    let mut j: usize = 1;
    while j < n
        invariant
            n == players@.len(),
            1 <= j <= n,
            players@.to_multiset() == old(players)@.to_multiset(),
            forall|x: int, y: int|
                0 <= x < y < j && y < n ==> spec_cmp_bet(players@[x], players@[y]) <= 0,
        decreases n - j,
    {
        let key = players[j];
        let mut p: usize = 0;
        loop
            invariant
                p <= j < n,
                n == players@.len(),
                forall|q: int| 0 <= q < p ==> spec_cmp_bet(players@[q], key) <= 0,
            ensures
                p <= j,
                forall|q: int| 0 <= q < p ==> spec_cmp_bet(players@[q], key) <= 0,
                p < j ==> spec_cmp_bet(players@[p as int], key) > 0,
            decreases j - p,
        {
            if p >= j {
                break ;
            }
            let c = compare_players_by_bet_amount(&players[p], &key);
            if c > 0 {
                break ;
            }
            p = p + 1;
        }
        if p < j {
            let ghost before = players@;
            let x = players.remove(j);
            players.insert(p, x);
            proof {
                assert(players@.to_multiset() == before.to_multiset()) by {
                    vstd::seq_lib::to_multiset_remove(before, j as int);
                    vstd::seq_lib::to_multiset_insert(before.remove(j as int), p as int, x);
                    assert(before.contains(before[j as int])) by {
                        let jj = j as int;
                        assert(0 <= jj < before.len() && before[jj] == before[jj]);
                    }
                    vstd::seq_lib::to_multiset_contains(before, before[j as int]);
                    assert(before.to_multiset().count(before[j as int]) > 0);
                    assert(before.to_multiset().remove(before[j as int]).insert(before[j as int])
                        =~= before.to_multiset());
                    assert(players@ =~= before.remove(j as int).insert(p as int, x));
                }
                assert forall|xx: int, yy: int| 0 <= xx < yy < j + 1 && yy < n implies spec_cmp_bet(
                    players@[xx],
                    players@[yy],
                ) <= 0 by {
                    let s = players@;
                    assert(s[p as int] == key);
                    assert(forall|q: int| 0 <= q < p ==> s[q] == before[q]);
                    assert(forall|q: int| p < q <= j ==> s[q] == before[q - 1]);
                    assert(spec_cmp_bet(before[p as int], key) > 0);
                    lemma_cmp_bet_laws(key, before[p as int], key);
                    if xx == p as int {
                        lemma_cmp_bet_laws(key, before[p as int], before[yy - 1]);
                    }
                }
            }
        }
        j = j + 1;
    }
}

impl Table {
    /// The rise from one sorted bet to the next: entry zero is the
    /// first bet, and each later entry is the step up from the bet
    /// before it.
    pub fn get_bet_increases_amount(players: &Vec<Player>) -> (r: Vec<i32>)
        requires
            forall|i: int| 0 <= i < players@.len() ==> (#[trigger] players@[i]).spec_is_active(),
            forall|i: int| 0 <= i < players@.len() ==> (#[trigger] players@[i]).spec_bet() >= 0,
            forall|x: int, y: int|
                0 <= x < y < players@.len() ==> spec_cmp_bet(players@[x], players@[y]) <= 0,
        ensures
            r@.len() == players@.len(),
            forall|i: int| 0 <= i < r@.len() ==> (#[trigger] r@[i]) >= 0,
            players@.len() > 0 ==> r@[0] == players@[0].spec_bet(),
            forall|i: int|
                1 <= i < r@.len() ==> (#[trigger] r@[i]) == players@[i].spec_bet() - players@[i
                    - 1].spec_bet(),
    {
        let n = players.len();
        let mut out: Vec<i32> = Vec::new();
        let mut prev: i32 = 0;
        let mut i: usize = 0;
        while i < n
            invariant
                i <= n,
                n == players@.len(),
                out@.len() == i,
                forall|k: int| 0 <= k < n ==> (#[trigger] players@[k]).spec_is_active(),
                forall|k: int| 0 <= k < n ==> (#[trigger] players@[k]).spec_bet() >= 0,
                forall|x: int, y: int|
                    0 <= x < y < n ==> spec_cmp_bet(players@[x], players@[y]) <= 0,
                prev as int == if i == 0 {
                    0int
                } else {
                    players@[i as int - 1].spec_bet()
                },
                forall|k: int| 0 <= k < i ==> (#[trigger] out@[k]) >= 0,
                i > 0 ==> out@[0] == players@[0].spec_bet(),
                forall|k: int|
                    1 <= k < i ==> (#[trigger] out@[k]) == players@[k].spec_bet() - players@[k
                        - 1].spec_bet(),
            decreases n - i,
        {
            let b = match players[i].player_state {
                PlayerState::Folded => 0,
                PlayerState::Active(a) => a.current_bet,
            };
            proof {
                if i > 0 {
                    assert(spec_cmp_bet(players@[i as int - 1], players@[i as int]) <= 0);
                }
            }
            out.push(b - prev);
            prev = b;
            i = i + 1;
        }
        out
    }

    /// Group the players into classes of equal hand strength, best
    /// class first.  Every class is non-empty, every member of a class
    /// ties with its head, and each class head beats the one before it.
    pub fn get_hand_result(&self) -> (r: Vec<Vec<Player>>)
        requires
            self.wf_base(),
            self.board_dealt(),
        ensures
            r@.len() >= 1,
            forall|k: int| 0 <= k < r@.len() ==> 1 <= (#[trigger] r@[k])@.len() <= self.n(),
            forall|k: int, e: int|
                0 <= k < r@.len() && 0 <= e < r@[k]@.len() ==> 0 <= (#[trigger] r@[k]@[e]).spec_id()
                    < self.n() && r@[k]@[e].spec_bet() >= 0,
            forall|k: int, e: int|
                0 <= k < r@.len() && 0 <= e < r@[k]@.len() ==> spec_compare_players(
                    self.board(),
                    r@[k]@[0],
                    #[trigger] r@[k]@[e],
                ) == 0,
            forall|k: int, e: int|
                0 <= k < r@.len() && 0 <= e < r@[k]@.len() ==> (#[trigger] r@[k]@[e])
                    == self.players@[r@[k]@[e].spec_id() as int],
            forall|k: int|
                0 <= k < r@.len() - 1 ==> spec_compare_players(
                    self.board(),
                    #[trigger] r@[k]@[0],
                    r@[k + 1]@[0],
                ) < 0,
            classes_flat(r@, r@.len() as int).to_multiset() == self.players@.to_multiset(),
    {
        let flop = match &self.flop {
            Some(f) => *f,
            None => [Card { rank: 2, suit: 0 }, Card { rank: 2, suit: 0 }, Card {
                rank: 2,
                suit: 0,
            }],
        };
        let turn = match &self.turn {
            Some(c) => *c,
            None => Card { rank: 2, suit: 0 },
        };
        let river = match &self.river {
            Some(c) => *c,
            None => Card { rank: 2, suit: 0 },
        };
        let mut total_hand: Vec<Card> = Vec::new();
        total_hand.push(flop[0]);
        total_hand.push(flop[1]);
        total_hand.push(flop[2]);
        total_hand.push(turn);
        total_hand.push(river);
        proof {
            assert(total_hand@ =~= self.board());
        }
        let n = self.players.len();
        let mut players_copy: Vec<Player> = Vec::new();
        let mut i: usize = 0;
        while i < n
            invariant
                i <= n,
                n == self.n(),
                self.wf_base(),
                players_copy@ == self.players@.subrange(0, i as int),
            decreases n - i,
        {
            players_copy.push(self.players[i]);
            i = i + 1;
            proof {
                assert(players_copy@ =~= self.players@.subrange(0, i as int));
            }
        }
        proof {
            assert(players_copy@ =~= self.players@);
        }
        self.sort_by_hands(&total_hand, &mut players_copy);
        proof {
            lemma_ids_bounded_from_multiset(self.players@, players_copy@, self.n());
        }
        let m = players_copy.len();
        let mut rankings: Vec<Vec<Player>> = Vec::new();
        let mut first: Vec<Player> = Vec::new();
        first.push(players_copy[0]);
        rankings.push(first);
        proof {
            broadcast use vstd::seq_lib::group_to_multiset_ensures;

            assert(classes_flat(rankings@, 0) =~= Seq::<Player>::empty());
            assert(classes_flat(rankings@, 1) =~= rankings@[0]@);
            assert(rankings@[0]@ =~= seq![players_copy@[0]]);
            assert(players_copy@.take(1) =~= seq![players_copy@[0]]);
            assert(seq![players_copy@[0]] =~= Seq::<Player>::empty().push(players_copy@[0]));
        }
        let mut k: usize = 1;
        while k < m
            invariant
                1 <= k <= m,
                m == players_copy@.len(),
                m == self.n(),
                total_hand@ == self.board(),
                rankings@.len() >= 1,
                forall|c: int|
                    0 <= c < rankings@.len() ==> 1 <= (#[trigger] rankings@[c])@.len() <= k,
                forall|c: int, e: int|
                    0 <= c < rankings@.len() && 0 <= e < rankings@[c]@.len() ==> 0 <= (
                    #[trigger] rankings@[c]@[e]).spec_id() < self.n() && rankings@[c]@[e].spec_bet()
                        >= 0,
                forall|c: int, e: int|
                    0 <= c < rankings@.len() && 0 <= e < rankings@[c]@.len()
                        ==> spec_compare_players(
                        self.board(),
                        rankings@[c]@[0],
                        #[trigger] rankings@[c]@[e],
                    ) == 0,
                rankings@[rankings@.len() - 1]@.len() >= 1,
                spec_compare_players(
                    self.board(),
                    rankings@[rankings@.len() - 1]@[0],
                    players_copy@[k - 1],
                ) == 0,
                forall|e: int|
                    0 <= e < players_copy@.len() ==> 0 <= (#[trigger] players_copy@[e]).spec_id()
                        < self.n() && players_copy@[e].spec_bet() >= 0,
                forall|e: int|
                    0 <= e < players_copy@.len() ==> #[trigger] players_copy@[e]
                        == self.players@[players_copy@[e].spec_id() as int],
                forall|c: int, e: int|
                    0 <= c < rankings@.len() && 0 <= e < rankings@[c]@.len() ==> (
                    #[trigger] rankings@[c]@[e]) == self.players@[rankings@[c]@[e].spec_id() as int],
                forall|c: int|
                    0 <= c < rankings@.len() - 1 ==> spec_compare_players(
                        self.board(),
                        #[trigger] rankings@[c]@[0],
                        rankings@[c + 1]@[0],
                    ) < 0,
                classes_flat(rankings@, rankings@.len() as int).to_multiset()
                    == players_copy@.take(k as int).to_multiset(),
                forall|x: int, y: int|
                    0 <= x < y < m ==> spec_compare_players(
                        self.board(),
                        players_copy@[x],
                        players_copy@[y],
                    ) <= 0,
            decreases m - k,
        {
            let last_idx = rankings.len() - 1;
            let head = rankings[last_idx][0];
            let c = self.compare_players(&total_hand, &players_copy[k], &head);
            let ghost rk0 = rankings@;
            if c > 0 {
                let mut fresh: Vec<Player> = Vec::new();
                fresh.push(players_copy[k]);
                rankings.push(fresh);
                proof {
                    broadcast use vstd::seq_lib::group_to_multiset_ensures;

                    lemma_classes_flat_congruent(rankings@, rk0, rk0.len() as int);
                    assert(classes_flat(rankings@, rankings@.len() as int) =~= classes_flat(
                        rk0,
                        rk0.len() as int,
                    ) + seq![players_copy@[k as int]]);
                    assert(classes_flat(rk0, rk0.len() as int).push(players_copy@[k as int])
                        =~= classes_flat(rk0, rk0.len() as int) + seq![players_copy@[k as int]]);
                    assert(players_copy@.take(k as int + 1) =~= players_copy@.take(k as int).push(
                        players_copy@[k as int],
                    ));
                    lemma_compare_players_laws(
                        self.board(),
                        players_copy@[k as int],
                        rk0[rk0.len() - 1]@[0],
                        rk0[rk0.len() - 1]@[0],
                    );
                }
            } else {
                proof {
                    // the walk is sorted, so a non-worse hand ties the head
                    lemma_compare_players_laws(
                        self.board(),
                        rankings@[last_idx as int]@[0],
                        players_copy@[k - 1],
                        players_copy@[k as int],
                    );
                    lemma_compare_players_laws(
                        self.board(),
                        players_copy@[k - 1],
                        players_copy@[k as int],
                        rankings@[last_idx as int]@[0],
                    );
                    lemma_compare_players_laws(
                        self.board(),
                        rankings@[last_idx as int]@[0],
                        players_copy@[k as int],
                        players_copy@[k as int],
                    );
                }
                let lm = &mut rankings;
                let slot = &mut lm[last_idx];
                slot.push(players_copy[k]);
                proof {
                    broadcast use vstd::seq_lib::group_to_multiset_ensures;

                    lemma_classes_flat_congruent(rankings@, rk0, rk0.len() as int - 1);
                    assert(classes_flat(rankings@, rankings@.len() as int) =~= classes_flat(
                        rk0,
                        rk0.len() as int - 1,
                    ) + rk0[rk0.len() - 1]@.push(players_copy@[k as int]));
                    assert(classes_flat(rk0, rk0.len() as int) =~= classes_flat(
                        rk0,
                        rk0.len() as int - 1,
                    ) + rk0[rk0.len() - 1]@);
                    assert(classes_flat(rankings@, rankings@.len() as int) =~= classes_flat(
                        rk0,
                        rk0.len() as int,
                    ).push(players_copy@[k as int]));
                    assert(players_copy@.take(k as int + 1) =~= players_copy@.take(k as int).push(
                        players_copy@[k as int],
                    ));
                }
            }
            k = k + 1;
        }
        proof {
            assert(players_copy@.take(m as int) =~= players_copy@);
        }
        rankings
    }

    /// The five board cards in deal order, as a sequence.
    pub open spec fn board(self) -> Seq<Card> {
        seq![
            self.flop->0[0], self.flop->0[1], self.flop->0[2], self.turn->0, self.river->0,
        ]
    }
}

/// The members of the first `k` classes, in order.
pub open spec fn classes_flat(r: Seq<Vec<Player>>, k: int) -> Seq<Player>
    decreases k,
{
    if k <= 0 {
        Seq::empty()
    } else {
        classes_flat(r, k - 1) + r[k - 1]@
    }
}

/// Class sequences that agree on a prefix flatten that prefix alike.
proof fn lemma_classes_flat_congruent(a: Seq<Vec<Player>>, b: Seq<Vec<Player>>, k: int)
    requires
        0 <= k <= a.len(),
        k <= b.len(),
        forall|i: int| 0 <= i < k ==> #[trigger] a[i] == b[i],
    ensures
        classes_flat(a, k) == classes_flat(b, k),
    decreases k,
{
    if k > 0 {
        lemma_classes_flat_congruent(a, b, k - 1);
    }
}

/// Rearranged players keep their seat-number bounds, their non-negative
/// bets, and their identity with the seat their number names.
proof fn lemma_ids_bounded_from_multiset(a: Seq<Player>, b: Seq<Player>, n: int)
    requires
        a.to_multiset() == b.to_multiset(),
        forall|j: int| 0 <= j < a.len() ==> 0 <= (#[trigger] a[j]).spec_id() < n,
        forall|j: int| 0 <= j < a.len() ==> (#[trigger] a[j]).spec_bet() >= 0,
        forall|j: int| 0 <= j < a.len() ==> (#[trigger] a[j]).spec_id() == j,
        n == a.len(),
    ensures
        forall|i: int|
            0 <= i < b.len() ==> 0 <= (#[trigger] b[i]).spec_id() < n && b[i].spec_bet() >= 0,
        forall|i: int| 0 <= i < b.len() ==> #[trigger] b[i] == a[b[i].spec_id() as int],
{
    broadcast use vstd::seq_lib::group_to_multiset_ensures;

    assert forall|i: int| 0 <= i < b.len() implies 0 <= (#[trigger] b[i]).spec_id() < n
        && b[i].spec_bet() >= 0 by {
        assert(b.contains(b[i])) by {
            assert(0 <= i < b.len() && b[i] == b[i]);
        }
        vstd::seq_lib::to_multiset_contains(b, b[i]);
        vstd::seq_lib::to_multiset_contains(a, b[i]);
        assert(a.contains(b[i]));
        let w = choose|w: int| 0 <= w < a.len() && a[w] == b[i];
        assert(0 <= a[w].spec_id() < n);
        assert(a[w].spec_id() == w);
        assert(b[i] == a[b[i].spec_id() as int]);
    }
    assert forall|i: int| 0 <= i < b.len() implies #[trigger] b[i] == a[b[i].spec_id() as int] by {
        assert(b.contains(b[i])) by {
            assert(0 <= i < b.len() && b[i] == b[i]);
        }
        vstd::seq_lib::to_multiset_contains(b, b[i]);
        vstd::seq_lib::to_multiset_contains(a, b[i]);
        assert(a.contains(b[i]));
        let w = choose|w: int| 0 <= w < a.len() && a[w] == b[i];
        assert(a[w].spec_id() == w);
    }
}

impl Table {
    /// Everything the running hand's log can gain: a deal starts it
    /// with the deal entry alone, and an action adds its own entry and
    /// possibly a round marker - forms that never carry a card.  Cards
    /// reach a log only in the showdown report, which the resolution
    /// rolls into the previous hand's log at once.
    pub proof fn lemma_running_log_entries_card_free(t: Table, a: HandAction)
        ensures
            t.spec_step_entry(a) is TakePlayerAction,
            spec_advance_marker(t.table_state) is AdvanceToFlop || spec_advance_marker(
                t.table_state,
            ) is AdvanceToTurn || spec_advance_marker(t.table_state) is AdvanceToRiver,
    {
    }

    /// Apply one action from the acting seat and run the hand forward:
    /// the bet lands, a lone surviving active seat wins the pot at once,
    /// finished betting rounds advance the stage (several at once when
    /// everyone left is all-in), a finished river resolves the showdown,
    /// and otherwise the turn passes to the next seat that can act.
    /// When the game is over nothing happens.
    #[verifier::rlimit(100)]
    pub fn take_action(&mut self, hand_action: HandAction)
        requires
            old(self).wf(),
            hand_action.wire_ok(),
            old(self).hand_number < 0x3fff_ffff,
            old(self).ante < 0x7fff_ffff,
            !old(self).spec_game_over() ==> old(self).players@[old(self).current_player_index as int].spec_is_active(),
            !old(self).spec_game_over() ==> active_count(old(self).players@, old(self).n()) >= 2,
            !old(self).spec_game_over() ==> old(self).board_dealt(),
        ensures
            final(self).wf(),
            final(self).players@.len() == old(self).players@.len(),
            final(self).ante_round_increase == old(self).ante_round_increase,
            old(self).spec_game_over() ==> *final(self) == *old(self),
            forall|i: int|
                0 <= i < old(self).n() && old(self).players@[i].death_hand_number is Some ==> (
                #[trigger] final(self).players@[i]).death_hand_number == old(self).players@[i].death_hand_number,
            final(self).hand_number == old(self).hand_number || final(self).hand_number == old(self).hand_number + 1,
            !old(self).spec_game_over() ==> (final(self).hand_number == old(self).hand_number + 1
                <==> old(self).spec_step_resolves(hand_action)),
            sum_money(final(self).players@, final(self).n()) + sum_bets(
                final(self).player_bets@,
                final(self).n(),
            ) == sum_money(old(self).players@, old(self).n()) + sum_bets(
                old(self).player_bets@,
                old(self).n(),
            ),
            final(self).hand_number == old(self).hand_number && !final(self).spec_game_over()
                ==> eligible(final(self).players@, final(self).current_player_index as int),
            !old(self).spec_game_over() && !old(self).spec_step_resolves(hand_action) ==> {
                &&& final(self).players@ == (if old(self).spec_step_closes_round(hand_action) {
                    clear_turns(old(self).spec_after_step(hand_action))
                } else {
                    old(self).spec_after_step(hand_action)
                })
                &&& final(self).player_bets@ == old(self).player_bets@.update(
                    old(self).current_player_index as int,
                    (old(self).player_bets@[old(self).current_player_index as int]
                        + old(self).spec_step_paid(hand_action)) as i32,
                )
                &&& final(self).table_state == (if old(self).spec_step_closes_round(hand_action) {
                    old(self).table_state.spec_next()
                } else {
                    old(self).table_state
                })
                &&& final(self).round_actions@ == (if old(self).spec_step_closes_round(
                    hand_action,
                ) {
                    old(self).round_actions@.push(old(self).spec_step_entry(hand_action)).push(
                        spec_advance_marker(old(self).table_state),
                    )
                } else {
                    old(self).round_actions@.push(old(self).spec_step_entry(hand_action))
                })
                &&& final(self).previous_round_actions == old(self).previous_round_actions
                &&& final(self).flop == old(self).flop
                &&& final(self).turn == old(self).turn
                &&& final(self).river == old(self).river
                &&& final(self).dealer_button_index == old(self).dealer_button_index
                &&& final(self).ante == old(self).ante
                &&& ({
                    let start = if old(self).spec_step_closes_round(hand_action) {
                        old(self).dealer_button_index as int
                    } else {
                        old(self).current_player_index as int
                    };
                    forall|j: int|
                        0 <= j < old(self).n() && cyclic_distance(old(self).n(), start, j)
                            < cyclic_distance(
                            old(self).n(),
                            start,
                            final(self).current_player_index as int,
                        ) ==> !eligible(final(self).players@, j)
                })
            },
            !old(self).spec_game_over() && old(self).spec_step_resolves(hand_action) ==> {
                &&& final(self).previous_round_actions@.len() >= old(self).round_actions@.len() + 2
                &&& final(self).previous_round_actions@.subrange(
                    0,
                    old(self).round_actions@.len() as int + 1,
                ) == old(self).round_actions@.push(old(self).spec_step_entry(hand_action))
                &&& final(self).previous_round_actions@.last() is EvaluateHand
                &&& final(self).round_actions@.len() == 1
                &&& final(self).round_actions@[0] is DealCards
                &&& final(self).table_state == BetStage::PreFlop
                &&& (!final(self).spec_game_over() && exists_eligible(final(self).players@)
                    ==> eligible(final(self).players@, final(self).current_player_index as int))
            },
            !old(self).spec_game_over() && hand_action is Raise && final(self).hand_number == old(self).hand_number ==> final(self).player_bets@[old(self).current_player_index as int]
                - old(self).player_bets@[old(self).current_player_index as int] <= old(self).spec_pot() + old(self).spec_max_bet() - old(self).players@[old(self).current_player_index as int].spec_bet(),
    {
        if self.is_game_over() {
            return ;
        }
        let ghost ps_pre = self.players@;
        self.take_provided_action(hand_action);
        proof {
            lemma_active_count_frame(
                ps_pre,
                self.players@,
                self.n(),
                self.current_player_index as int,
            );
        }
        let active_cnt = self.get_active_player_count();
        if active_cnt == 1 {
            proof {
                lemma_alive_count_same(old(self).players@, self.players@, self.n());
            }
            self.resolve_hand();
            return ;
        }
        let ghost sums0 = sum_money(self.players@, self.n()) + sum_bets(
            self.player_bets@,
            self.n(),
        );
        let ghost bets_after_action = self.player_bets@;
        let ghost stage0 = self.table_state;
        let ghost ps_step = self.players@;
        let ghost log_step = self.round_actions@;
        let ghost closes = old(self).spec_step_closes_round(hand_action);
        proof {
            lemma_alive_count_same(old(self).players@, self.players@, self.n());
            assert(self.spec_betting_over() == closes);
        }
        loop
            invariant
                self.player_bets@ == bets_after_action,
                self.wf(),
                self.players@.len() == old(self).players@.len(),
                self.ante_round_increase == old(self).ante_round_increase,
                self.ante == old(self).ante,
                self.hand_number == old(self).hand_number,
                self.board_dealt(),
                old(self).hand_number < 0x3fff_ffff,
                old(self).ante < 0x7fff_ffff,
                active_count(self.players@, self.n()) >= 2,
                !self.spec_game_over(),
                stage0 == old(self).table_state,
                ps_step == old(self).spec_after_step(hand_action),
                ps_step.len() == self.n(),
                log_step == old(self).round_actions@.push(
                    old(self).spec_step_entry(hand_action),
                ),
                closes == old(self).spec_step_closes_round(hand_action),
                sum_money(self.players@, self.n()) + sum_bets(self.player_bets@, self.n())
                    == sums0,
                sums0 == sum_money(old(self).players@, old(self).n()) + sum_bets(
                    old(self).player_bets@,
                    old(self).n(),
                ),
                forall|i: int|
                    0 <= i < old(self).n() ==> (#[trigger] self.players@[i]).death_hand_number
                        == old(self).players@[i].death_hand_number,
                self.flop == old(self).flop,
                self.turn == old(self).turn,
                self.river == old(self).river,
                self.dealer_button_index == old(self).dealer_button_index,
                self.previous_round_actions == old(self).previous_round_actions,
                ({
                    ||| (self.table_state == stage0 && self.players@ == ps_step
                        && self.round_actions@ == log_step && self.current_player_index == old(self).current_player_index)
                    ||| (closes && !all_all_in(ps_step, self.n()) && stage0 != BetStage::River
                        && self.table_state == stage0.spec_next() && self.players@ == clear_turns(
                        ps_step,
                    ) && self.round_actions@ == log_step.push(spec_advance_marker(stage0))
                        && self.current_player_index == self.dealer_button_index)
                    ||| (closes && all_all_in(ps_step, self.n()) && stage_rank(self.table_state)
                        > stage_rank(stage0) && self.players@ == clear_turns(ps_step)
                        && self.round_actions@.len() >= log_step.len()
                        && self.round_actions@.subrange(0, log_step.len() as int) == log_step)
                }),
            ensures
                self.wf(),
                self.players@.len() == old(self).players@.len(),
                self.ante == old(self).ante,
                self.ante_round_increase == old(self).ante_round_increase,
                self.hand_number == old(self).hand_number,
                !self.spec_betting_over(),
                sum_money(self.players@, self.n()) + sum_bets(self.player_bets@, self.n())
                    == sums0,
                self.player_bets@ == bets_after_action,
                self.flop == old(self).flop,
                self.turn == old(self).turn,
                self.river == old(self).river,
                self.dealer_button_index == old(self).dealer_button_index,
                self.previous_round_actions == old(self).previous_round_actions,
                forall|i: int|
                    0 <= i < old(self).n() ==> (#[trigger] self.players@[i]).death_hand_number
                        == old(self).players@[i].death_hand_number,
                (!closes && self.table_state == stage0 && self.players@ == ps_step
                    && self.round_actions@ == log_step && self.current_player_index == old(self).current_player_index) || (closes && self.table_state == stage0.spec_next()
                    && self.players@ == clear_turns(ps_step) && self.round_actions@
                    == log_step.push(spec_advance_marker(stage0)) && self.current_player_index
                    == self.dealer_button_index),
                !(closes && (stage0 == BetStage::River || all_all_in(ps_step, self.n()))),
            decreases 3 - stage_rank(self.table_state),
        {
            let over = self.is_betting_over();
            let go = self.is_game_over();
            if !(over && !go) {
                proof {
                    if self.table_state == stage0 {
                        assert(!closes);
                    } else {
                        // a later stage is reached only when the round closed
                        assert(closes);
                        if all_all_in(ps_step, self.n()) {
                            // every active seat all-in keeps every round closed
                            assert(all_ready(self.players@, self.n()));
                            assert(all_same_bet(self.players@, self.n(), self.spec_max_bet()));
                            assert(false);
                        }
                    }
                }
                break ;
            }
            if self.table_state == BetStage::River {
                proof {
                    lemma_alive_count_same(old(self).players@, self.players@, self.n());
                    if self.table_state == stage0 {
                        assert(old(self).spec_step_resolves(hand_action));
                    } else {
                        if !all_all_in(ps_step, self.n()) {
                            // a later stage with an open round cannot see the
                            // round closed again before anyone acts
                            let w = choose|w: int|
                                0 <= w < self.n() && (#[trigger] ps_step[w]).spec_is_active()
                                    && ps_step[w].total_money != 0;
                            assert(self.players@[w] == clear_turns(ps_step)[w]);
                            assert(!self.players@[w].has_had_turn_this_round);
                            assert(false);
                        }
                        assert(old(self).spec_step_resolves(hand_action));
                    }
                }
                self.resolve_hand();
                return ;
            }
            proof {
                if self.table_state != stage0 && !all_all_in(ps_step, self.n()) {
                    // one advance with someone still to act leaves the round open
                    let w = choose|w: int|
                        0 <= w < self.n() && (#[trigger] ps_step[w]).spec_is_active()
                            && ps_step[w].total_money != 0;
                    assert(self.players@[w] == clear_turns(ps_step)[w]);
                    assert(!self.players@[w].has_had_turn_this_round);
                    assert(false);
                }
            }
            match self.table_state {
                BetStage::PreFlop => self.round_actions.push(TableAction::AdvanceToFlop),
                BetStage::Flop => self.round_actions.push(TableAction::AdvanceToTurn),
                _ => self.round_actions.push(TableAction::AdvanceToRiver),
            }
            self.table_state.next_stage();
            self.current_player_index = self.dealer_button_index;
            let n = self.players.len();
            let ghost ps_before = self.players@;
            let ghost snap = *self;
            let mut i: usize = 0;
            while i < n
                invariant
                    n == self.n(),
                    i <= n,
                    ps_before.len() == n,
                    self.players@.len() == n,
                    forall|j: int|
                        0 <= j < i ==> #[trigger] self.players@[j] == (Player {
                            has_had_turn_this_round: false,
                            ..ps_before[j]
                        }),
                    forall|j: int| i <= j < n ==> #[trigger] self.players@[j] == ps_before[j],
                    self.player_bets == snap.player_bets,
                    self.flop == snap.flop,
                    self.turn == snap.turn,
                    self.river == snap.river,
                    self.dealer_button_index == snap.dealer_button_index,
                    self.current_player_index == snap.current_player_index,
                    self.ante == snap.ante,
                    self.hand_number == snap.hand_number,
                    self.table_state == snap.table_state,
                    self.ante_round_increase == snap.ante_round_increase,
                    self.round_actions == snap.round_actions,
                    self.previous_round_actions == snap.previous_round_actions,
                decreases n - i,
            {
                let pm = &mut self.players;
                let q = &mut pm[i];
                q.has_had_turn_this_round = false;
                i = i + 1;
            }
            proof {
                lemma_sum_money_same(ps_before, self.players@, n as int);
                lemma_alive_count_same(ps_before, self.players@, n as int);
                lemma_active_count_same_states(ps_before, self.players@, n as int);
                lemma_sum_bets_nonneg_range(self.player_bets@, self.n());
                if ps_before == ps_step {
                    assert(self.players@ =~= clear_turns(ps_step));
                } else {
                    assert(ps_before == clear_turns(ps_step));
                    assert(self.players@ =~= clear_turns(ps_step));
                }
            }
        }
        proof {
            lemma_eligible_from_open_betting(self.players@, self.n(), self.spec_max_bet());
            assert(!old(self).spec_step_resolves(hand_action));
        }
        self.update_current_player_index_to_next_active();
    }
}


/// The comma-joined, quoted and escaped display strings of the first
/// `i` log entries.
pub open spec fn spec_actions_list(acts: Seq<TableAction>, i: int) -> Seq<char>
    decreases i,
{
    if i <= 0 {
        Seq::empty()
    } else if i == 1 {
        "\""@ + json_escaped(acts[0].spec_display()) + "\""@
    } else {
        spec_actions_list(acts, i - 1) + ",\""@ + json_escaped(acts[i - 1].spec_display())
            + "\""@
    }
}

/// The comma-joined JSON forms of the first `i` seats, hole cards
/// hidden.
pub open spec fn spec_players_list(ps: Seq<Player>, i: int) -> Seq<char>
    decreases i,
{
    if i <= 0 {
        Seq::empty()
    } else if i == 1 {
        ps[0].spec_json_no_secret()
    } else {
        spec_players_list(ps, i - 1) + ","@ + ps[i - 1].spec_json_no_secret()
    }
}

impl Table {
    /// The JSON array of the flop's wire names, or of the word None.
    pub open spec fn spec_flop_string(self) -> Seq<char> {
        match self.flop {
            None => "[\"None\"]"@,
            Some(cs) => "[\""@ + cs[0].spec_ascii() + "\",\""@ + cs[1].spec_ascii() + "\",\""@
                + cs[2].spec_ascii() + "\"]"@,
        }
    }

    /// The flop as the viewer may see it: hidden until the flop stage.
    pub open spec fn spec_flop_string_secret(self) -> Seq<char> {
        match self.flop {
            None => "[\"None\"]"@,
            Some(_) => if self.table_state == BetStage::PreFlop {
                "[\"Hidden\"]"@
            } else {
                self.spec_flop_string()
            },
        }
    }

    /// The turn's wire name, or the word None.
    pub open spec fn spec_turn_string(self) -> Seq<char> {
        match self.turn {
            None => "None"@,
            Some(c) => c.spec_ascii(),
        }
    }

    /// The turn as the viewer may see it: hidden before the turn stage.
    pub open spec fn spec_turn_string_secret(self) -> Seq<char> {
        match self.turn {
            None => "None"@,
            Some(c) => if self.table_state == BetStage::PreFlop || self.table_state
                == BetStage::Flop {
                "Hidden"@
            } else {
                c.spec_ascii()
            },
        }
    }

    /// The river's wire name, or the word None.
    pub open spec fn spec_river_string(self) -> Seq<char> {
        match self.river {
            None => "None"@,
            Some(c) => c.spec_ascii(),
        }
    }

    /// The river as the viewer may see it: hidden until the river stage.
    pub open spec fn spec_river_string_secret(self) -> Seq<char> {
        match self.river {
            None => "None"@,
            Some(c) => if self.table_state == BetStage::River {
                c.spec_ascii()
            } else {
                "Hidden"@
            },
        }
    }

    /// The JSON array of the flop's wire names, or of the word None.
    pub fn get_flop_string(&self) -> (r: String)
        ensures
            r@ == self.spec_flop_string(),
    {
        match &self.flop {
            None => String::from_str("[\"None\"]"),
            Some(cs) => {
                let mut s = String::from_str("[\"");
                cs[0].append_rank(&mut s);
                cs[0].append_suit(&mut s);
                s.append("\",\"");
                cs[1].append_rank(&mut s);
                cs[1].append_suit(&mut s);
                s.append("\",\"");
                cs[2].append_rank(&mut s);
                cs[2].append_suit(&mut s);
                s.append("\"]");
                proof {
                    assert(s@ =~= self.spec_flop_string());
                }
                s
            },
        }
    }

    /// The flop as the viewer may see it: hidden until the flop stage.
    pub fn get_flop_string_secret(&self) -> (r: String)
        ensures
            r@ == self.spec_flop_string_secret(),
    {
        match &self.flop {
            None => String::from_str("[\"None\"]"),
            Some(_) => {
                if self.table_state == BetStage::PreFlop {
                    String::from_str("[\"Hidden\"]")
                } else {
                    self.get_flop_string()
                }
            },
        }
    }

    /// The turn's wire name, or the word None.
    pub fn get_turn_string(&self) -> (r: String)
        ensures
            r@ == self.spec_turn_string(),
    {
        match &self.turn {
            None => String::from_str("None"),
            Some(c) => c.ascii_string(),
        }
    }

    /// The turn as the viewer may see it: hidden before the turn stage.
    pub fn get_turn_string_secret(&self) -> (r: String)
        ensures
            r@ == self.spec_turn_string_secret(),
    {
        match &self.turn {
            None => String::from_str("None"),
            Some(c) => {
                if self.table_state == BetStage::PreFlop || self.table_state == BetStage::Flop {
                    String::from_str("Hidden")
                } else {
                    c.ascii_string()
                }
            },
        }
    }

    /// The river's wire name, or the word None.
    pub fn get_river_string(&self) -> (r: String)
        ensures
            r@ == self.spec_river_string(),
    {
        match &self.river {
            None => String::from_str("None"),
            Some(c) => c.ascii_string(),
        }
    }

    /// The river as the viewer may see it: hidden until the river stage.
    pub fn get_river_string_secret(&self) -> (r: String)
        ensures
            r@ == self.spec_river_string_secret(),
    {
        match &self.river {
            None => String::from_str("None"),
            Some(c) => {
                match self.table_state {
                    BetStage::River => c.ascii_string(),
                    _ => String::from_str("Hidden"),
                }
            },
        }
    }

    /// The display strings of a run of log entries.
    pub fn get_vec_of_strings_from_actions(actions: &Vec<TableAction>) -> (r: Vec<String>)
        requires
            forall|i: int| 0 <= i < actions@.len() ==> (#[trigger] actions@[i]).wire_ok(),
        ensures
            r@.len() == actions@.len(),
            forall|i: int|
                0 <= i < r@.len() ==> (#[trigger] r@[i])@ == actions@[i].spec_display(),
    {
        let n = actions.len();
        let mut out: Vec<String> = Vec::new();
        let mut i: usize = 0;
        while i < n
            invariant
                i <= n,
                n == actions@.len(),
                out@.len() == i,
                forall|k: int| 0 <= k < actions@.len() ==> (#[trigger] actions@[k]).wire_ok(),
                forall|k: int|
                    0 <= k < i ==> (#[trigger] out@[k])@ == actions@[k].spec_display(),
            decreases n - i,
        {
            out.push(actions[i].to_display_string());
            i = i + 1;
        }
        out
    }

    /// The display strings of the last completed hand, one per line.
    pub fn generate_last_round_strings(&self) -> (r: String)
        requires
            forall|i: int|
                0 <= i < self.previous_round_actions@.len() ==> (#[trigger] self
                    .previous_round_actions@[i]).wire_ok(),
    {
        proof {
            reveal_strlit("\n");
        }
        let n = self.previous_round_actions.len();
        let mut s = String::new();
        let mut i: usize = 0;
        while i < n
            invariant
                i <= n,
                n == self.previous_round_actions@.len(),
                forall|k: int|
                    0 <= k < n ==> (#[trigger] self.previous_round_actions@[k]).wire_ok(),
            decreases n - i,
        {
            let line = self.previous_round_actions[i].to_display_string();
            s.append(line.as_str());
            s.append("\n");
            i = i + 1;
        }
        s
    }

    /// Append the quoted, escaped display strings of the log as a JSON
    /// array.
    fn append_actions_json(actions: &Vec<TableAction>, out: &mut String)
        requires
            forall|i: int| 0 <= i < actions@.len() ==> (#[trigger] actions@[i]).wire_ok(),
        ensures
            final(out)@ == old(out)@ + "["@ + spec_actions_list(actions@, actions@.len() as int)
                + "]"@,
    {
        proof {
            reveal_strlit("[");
            reveal_strlit("]");
        }
        out.append("[");
        let n = actions.len();
        let ghost mid0 = out@;
        let mut i: usize = 0;
        while i < n
            invariant
                i <= n,
                n == actions@.len(),
                forall|k: int| 0 <= k < n ==> (#[trigger] actions@[k]).wire_ok(),
                out@ == mid0 + spec_actions_list(actions@, i as int),
            decreases n - i,
        {
            proof {
                reveal_strlit(",\"");
                reveal_strlit("\"");
            }
            if i > 0 {
                out.append(",\"");
            } else {
                out.append("\"");
            }
            let line = actions[i].to_display_string();
            append_json_escaped(out, line.as_str());
            out.append("\"");
            i = i + 1;
            proof {
                assert(out@ =~= mid0 + spec_actions_list(actions@, i as int));
            }
        }
        out.append("]");
        proof {
            assert(out@ =~= old(out)@ + "["@ + spec_actions_list(actions@, n as int) + "]"@);
        }
    }

    /// The JSON snapshot one seat is shown: its own cards, the staged
    /// board, every seat's public state, and both logs.
    pub open spec fn spec_view_json(self, id: i8) -> Seq<char> {
        let cur = self.players@[self.current_player_index as int];
        "{\"id\":"@ + dec_rep(id as int) + ",\"current_bet\":"@ + dec_rep(
            cur.player_state.spec_bet(),
        ) + ",\"cards\":"@ + cur.player_state.spec_cards_json() + ",\"hand_number\":"@ + dec_rep(
            self.hand_number as int,
        ) + ",\"current_highest_bet\":"@ + dec_rep(self.spec_max_bet()) + ",\"flop\":"@
            + self.spec_flop_string_secret() + ",\"turn\":\""@ + self.spec_turn_string_secret()
            + "\",\"river\":\""@ + self.spec_river_string_secret()
            + "\",\"dealer_button_index\":"@ + dec_rep(self.dealer_button_index as int)
            + ",\"players\":["@ + spec_players_list(self.players@, self.n())
            + "],\"actions\":"@ + "["@ + spec_actions_list(
            self.round_actions@,
            self.round_actions@.len() as int,
        ) + "]"@ + ",\"previous_actions\":"@ + "["@ + spec_actions_list(
            self.previous_round_actions@,
            self.previous_round_actions@.len() as int,
        ) + "]"@ + "}"@
    }

    /// The JSON snapshot stamped with the given seat number.
    #[verifier::rlimit(100)]
    pub fn get_table_state_json_for_player(&self, id: i8) -> (r: String)
        requires
            self.wf(),
            id >= 0,
        ensures
            r@ == self.spec_view_json(id),
    {
        proof {
            reveal_strlit("{\"id\":");
            reveal_strlit(",\"current_bet\":");
            reveal_strlit(",\"cards\":");
            reveal_strlit(",\"hand_number\":");
            reveal_strlit(",\"current_highest_bet\":");
            reveal_strlit(",\"flop\":");
            reveal_strlit(",\"turn\":\"");
            reveal_strlit("\",\"river\":\"");
            reveal_strlit("\",\"dealer_button_index\":");
            reveal_strlit(",\"players\":[");
            reveal_strlit("],\"actions\":");
            reveal_strlit(",\"previous_actions\":");
            reveal_strlit("}");
            reveal_strlit(",");
        }
        let mut s = String::from_str("{\"id\":");
        append_dec_i32(&mut s, id as i32);
        s.append(",\"current_bet\":");
        let cur_bet = self.players[self.current_player_index].player_state.get_bet();
        append_dec_i32(&mut s, cur_bet);
        s.append(",\"cards\":");
        let cards = self.players[self.current_player_index].player_state.get_cards_json();
        s.append(cards.as_str());
        s.append(",\"hand_number\":");
        append_dec_i32(&mut s, self.hand_number);
        s.append(",\"current_highest_bet\":");
        let max = self.get_largest_active_bet();
        append_dec_i32(&mut s, max);
        s.append(",\"flop\":");
        let fs = self.get_flop_string_secret();
        s.append(fs.as_str());
        s.append(",\"turn\":\"");
        let ts = self.get_turn_string_secret();
        s.append(ts.as_str());
        s.append("\",\"river\":\"");
        let rs = self.get_river_string_secret();
        s.append(rs.as_str());
        s.append("\",\"dealer_button_index\":");
        append_dec_u64(&mut s, self.dealer_button_index as u64);
        s.append(",\"players\":[");
        let n = self.players.len();
        let ghost head = s@;
        let mut i: usize = 0;
        while i < n
            invariant
                self.wf(),
                i <= n,
                n == self.n(),
                s@ == head + spec_players_list(self.players@, i as int),
            decreases n - i,
        {
            proof {
                reveal_strlit(",");
            }
            if i > 0 {
                s.append(",");
            }
            let pj = self.players[i].as_json_no_secret_data();
            s.append(pj.as_str());
            i = i + 1;
            proof {
                assert(s@ =~= head + spec_players_list(self.players@, i as int));
            }
        }
        s.append("],\"actions\":");
        Table::append_actions_json(&self.round_actions, &mut s);
        s.append(",\"previous_actions\":");
        Table::append_actions_json(&self.previous_round_actions, &mut s);
        s.append("}");
        proof {
            assert(s@ =~= self.spec_view_json(id));
        }
        s
    }

    /// The JSON snapshot for the seat whose turn it is.
    pub fn get_state_json_for_current_player(&self) -> (r: String)
        requires
            self.wf(),
        ensures
            r@ == self.spec_view_json(self.current_player_index as i8),
    {
        self.get_table_state_json_for_player(self.current_player_index as i8)
    }

    /// The JSON snapshot for the seat whose turn it is, as the text that
    /// goes on the wire.
    pub fn get_state_string_for_current_player(&self) -> (r: String)
        requires
            self.wf(),
        ensures
            r@ == self.spec_view_json(self.current_player_index as i8),
    {
        self.get_state_json_for_current_player()
    }

    /// Take every card off the table: the board is cleared and every
    /// hand is folded.  Folding a folded seat is a programming error,
    /// so every seat must be active.
    pub fn clean_table(&mut self)
        requires
            old(self).wf_base(),
            forall|i: int|
                0 <= i < old(self).n() ==> (#[trigger] old(self).players@[i]).spec_is_active(),
        ensures
            final(self).flop is None,
            final(self).turn is None,
            final(self).river is None,
            final(self).players@.len() == old(self).players@.len(),
            forall|i: int|
                0 <= i < old(self).n() ==> (#[trigger] final(self).players@[i]).player_state
                    is Folded && final(self).players@[i].total_money == old(self).players@[i].total_money,
    {
        self.flop = None;
        self.turn = None;
        self.river = None;
        let n = self.players.len();
        let mut i: usize = 0;
        while i < n
            invariant
                i <= n,
                n == old(self).n(),
                self.players@.len() == n,
                self.flop is None,
                self.turn is None,
                self.river is None,
                forall|j: int|
                    i <= j < n ==> #[trigger] self.players@[j] == old(self).players@[j],
                forall|j: int|
                    0 <= j < n ==> (#[trigger] old(self).players@[j]).spec_is_active(),
                forall|j: int|
                    0 <= j < i ==> (#[trigger] self.players@[j]).player_state is Folded && self
                        .players@[j].total_money == old(self).players@[j].total_money,
            decreases n - i,
        {
            let pm = &mut self.players;
            let q = &mut pm[i];
            q.fold();
            i = i + 1;
        }
    }
}

/// The final standings order is a total preorder: it flips with its
/// arguments and chains.
proof fn lemma_result_order_laws(a: Player, b: Player, c: Player)
    ensures
        Player::spec_result_order(a, b) == -Player::spec_result_order(b, a),
        Player::spec_result_order(a, b) >= 0 && Player::spec_result_order(b, c) >= 0
            ==> Player::spec_result_order(a, c) >= 0,
{
}

/// The death entry of a results line: the hand died on, or None.
pub open spec fn spec_result_death(p: Player) -> Seq<char> {
    match p.death_hand_number {
        None => "None"@,
        Some(d) => dec_rep(d as int),
    }
}

/// One line of the final standings.
pub open spec fn spec_result_line(p: Player, rank: int) -> Seq<char> {
    "Rank:"@ + pad_left(dec_rep(rank), 3) + ", Death Round:,"@ + pad_left(spec_result_death(p), 5)
        + ", Player: "@ + p.spec_json() + "\n"@
}

/// The rank printed for position `i` of the standings: a seat that ties
/// the one before it (by the hand died on) shares its rank, otherwise
/// the rank is the position itself, counted from one.
pub open spec fn spec_results_rank(s: Seq<Player>, i: int) -> int
    decreases i,
{
    if i <= 0 {
        1
    } else if s[i].death_hand_number == s[i - 1].death_hand_number {
        spec_results_rank(s, i - 1)
    } else {
        i + 1
    }
}

/// The first `i` lines of the final standings.
pub open spec fn spec_results_text(s: Seq<Player>, i: int) -> Seq<char>
    decreases i,
{
    if i <= 0 {
        Seq::empty()
    } else {
        spec_results_text(s, i - 1) + spec_result_line(s[i - 1], spec_results_rank(s, i - 1))
    }
}

/// Best first: every earlier entry places at least as high.
pub open spec fn sorted_for_results(s: Seq<Player>) -> bool {
    forall|i: int, j: int|
        0 <= i < j < s.len() ==> Player::spec_result_order(#[trigger] s[i], #[trigger] s[j]) >= 0
}

impl Table {
    /// Append one line of the final standings.
    fn append_result_line(out: &mut String, p: &Player, rank: i32)
        requires
            rank >= 1,
            p.spec_id() >= 0,
            p.total_money >= 0,
            p.spec_bet() >= 0,
            p.death_hand_number matches Some(d) ==> d >= 0,
        ensures
            final(out)@ == old(out)@ + spec_result_line(*p, rank as int),
    {
        proof {
            reveal_strlit("Rank:");
            reveal_strlit(", Death Round:,");
            reveal_strlit(", Player: ");
            reveal_strlit("\n");
            reveal_strlit(" None");
            reveal_strlit("None");
        }
        out.append("Rank:");
        append_dec_padded(out, rank, 3);
        out.append(", Death Round:,");
        match p.death_hand_number {
            None => {
                out.append(" None");
                proof {
                    assert((" None")@ =~= pad_left(("None")@, 5));
                }
            },
            Some(d) => {
                append_dec_padded(out, d, 5);
            },
        }
        out.append(", Player: ");
        let pj = p.as_json();
        out.append(pj.as_str());
        out.append("\n");
        proof {
            assert(out@ =~= old(out)@ + spec_result_line(*p, rank as int));
        }
    }

    /// The final standings: the players ranked best first, each line
    /// naming the rank, the hand died on, and the player, ties by death
    /// hand sharing one rank.
    #[verifier::rlimit(100)]
    pub fn get_results(&self) -> (r: String)
        requires
            self.wf_base(),
            forall|i: int|
                0 <= i < self.n() ==> ((#[trigger] self.players@[i]).death_hand_number matches Some(
                    d,
                ) ==> d >= 0),
        ensures
            exists|sorted: Seq<Player>|
                #![auto]
                sorted.to_multiset() == self.players@.to_multiset() && sorted_for_results(sorted)
                    && r@ == spec_results_text(sorted, sorted.len() as int),
    {
        broadcast use vstd::seq_lib::group_to_multiset_ensures;

        let n = self.players.len();
        let mut copy: Vec<Player> = Vec::new();
        let mut i: usize = 0;
        while i < n
            invariant
                i <= n,
                n == self.n(),
                self.wf_base(),
                copy@ == self.players@.subrange(0, i as int),
            decreases n - i,
        {
            copy.push(self.players[i]);
            i = i + 1;
            proof {
                assert(copy@ =~= self.players@.subrange(0, i as int));
            }
        }
        proof {
            assert(copy@ =~= self.players@);
        }
        // sort best first
        let mut j: usize = 1;
        while j < n || n == 0
            invariant
                n == copy@.len(),
                n == 0 || 1 <= j <= n,
                copy@.to_multiset() == self.players@.to_multiset(),
                forall|x: int, y: int|
                    0 <= x < y < j && y < n ==> Player::spec_result_order(
                        #[trigger] copy@[x],
                        #[trigger] copy@[y],
                    ) >= 0,
            ensures
                n == copy@.len(),
                copy@.to_multiset() == self.players@.to_multiset(),
                sorted_for_results(copy@),
            decreases n - j,
        {
            if j >= n {
                break ;
            }
            let key = copy[j];
            let mut p: usize = 0;
            loop
                invariant
                    p <= j < n,
                    n == copy@.len(),
                    forall|q: int|
                        0 <= q < p ==> Player::spec_result_order(#[trigger] copy@[q], key) >= 0,
                ensures
                    p <= j,
                    forall|q: int|
                        0 <= q < p ==> Player::spec_result_order(#[trigger] copy@[q], key) >= 0,
                    p < j ==> Player::spec_result_order(copy@[p as int], key) < 0,
                decreases j - p,
            {
                if p >= j {
                    break ;
                }
                let c = Player::result_order(&copy[p], &key);
                if c < 0 {
                    break ;
                }
                p = p + 1;
            }
            if p < j {
                let ghost before = copy@;
                let x = copy.remove(j);
                copy.insert(p, x);
                proof {
                    assert(copy@.to_multiset() == before.to_multiset()) by {
                        vstd::seq_lib::to_multiset_remove(before, j as int);
                        vstd::seq_lib::to_multiset_insert(before.remove(j as int), p as int, x);
                        assert(before.contains(before[j as int])) by {
                            let jj = j as int;
                            assert(0 <= jj < before.len() && before[jj] == before[jj]);
                        }
                        vstd::seq_lib::to_multiset_contains(before, before[j as int]);
                        assert(before.to_multiset().remove(before[j as int]).insert(
                            before[j as int],
                        ) =~= before.to_multiset());
                        assert(copy@ =~= before.remove(j as int).insert(p as int, x));
                    }
                    assert forall|xx: int, yy: int|
                        0 <= xx < yy < j + 1 && yy < n implies Player::spec_result_order(
                        #[trigger] copy@[xx],
                        #[trigger] copy@[yy],
                    ) >= 0 by {
                        let s = copy@;
                        assert(s[p as int] == key);
                        assert(forall|q: int| 0 <= q < p ==> s[q] == before[q]);
                        assert(forall|q: int| p < q <= j ==> s[q] == before[q - 1]);
                        assert(Player::spec_result_order(before[p as int], key) < 0);
                        lemma_result_order_laws(key, before[p as int], key);
                        if xx == p as int {
                            lemma_result_order_laws(key, before[p as int], before[yy - 1]);
                        }
                    }
                }
            }
            j = j + 1;
        }
        // walk the standings, sharing ranks across death-hand ties
        proof {
            lemma_results_players_ok(self.players@, copy@, self.n());
        }
        let mut out = String::new();
        let mut rank: i32 = 1;
        let mut k: usize = 0;
        while k < n
            invariant
                k <= n,
                n == copy@.len(),
                n <= MAX_PLAYERS,
                forall|q: int|
                    0 <= q < n ==> 0 <= (#[trigger] copy@[q]).spec_id() && copy@[q].total_money
                        >= 0 && copy@[q].spec_bet() >= 0 && (copy@[q].death_hand_number matches
                    Some(d) ==> d >= 0),
                k >= 1 ==> rank as int == spec_results_rank(copy@, k as int - 1),
                k == 0 ==> rank == 1,
                rank >= 1,
                out@ == spec_results_text(copy@, k as int),
            decreases n - k,
        {
            if k > 0 {
                let same = match (copy[k].death_hand_number, copy[k - 1].death_hand_number) {
                    (None, None) => true,
                    (Some(a), Some(b)) => a == b,
                    _ => false,
                };
                if !same {
                    rank = (k + 1) as i32;
                }
            }
            proof {
                assert(rank as int == spec_results_rank(copy@, k as int));
            }
            let pk = copy[k];
            Table::append_result_line(&mut out, &pk, rank);
            k = k + 1;
            proof {
                assert(out@ =~= spec_results_text(copy@, k as int));
            }
        }
        proof {
            let ghost sorted = copy@;
            assert(sorted.to_multiset() == self.players@.to_multiset() && sorted_for_results(
                sorted,
            ) && out@ == spec_results_text(sorted, sorted.len() as int));
        }
        out
    }
}

/// Rearranged standings keep the facts the seats carried.
proof fn lemma_results_players_ok(a: Seq<Player>, b: Seq<Player>, n: int)
    requires
        a.to_multiset() == b.to_multiset(),
        forall|j: int|
            0 <= j < a.len() ==> 0 <= (#[trigger] a[j]).spec_id() && a[j].total_money >= 0
                && a[j].spec_bet() >= 0 && (a[j].death_hand_number matches Some(d) ==> d >= 0),
    ensures
        forall|i: int|
            0 <= i < b.len() ==> 0 <= (#[trigger] b[i]).spec_id() && b[i].total_money >= 0
                && b[i].spec_bet() >= 0 && (b[i].death_hand_number matches Some(d) ==> d >= 0),
{
    broadcast use vstd::seq_lib::group_to_multiset_ensures;

    assert forall|i: int| 0 <= i < b.len() implies 0 <= (#[trigger] b[i]).spec_id()
        && b[i].total_money >= 0 && b[i].spec_bet() >= 0 && (b[i].death_hand_number matches Some(
        d,
    ) ==> d >= 0) by {
        assert(b.contains(b[i])) by {
            assert(0 <= i < b.len() && b[i] == b[i]);
        }
        vstd::seq_lib::to_multiset_contains(b, b[i]);
        vstd::seq_lib::to_multiset_contains(a, b[i]);
        assert(a.contains(b[i]));
        let w = choose|w: int| 0 <= w < a.len() && a[w] == b[i];
        assert(0 <= a[w].spec_id());
    }
}

/// Changing one seat changes the active count by at most one.
proof fn lemma_active_count_frame(a: Seq<Player>, b: Seq<Player>, n: int, cp: int)
    requires
        0 <= n <= a.len(),
        n <= b.len(),
        0 <= cp,
        forall|j: int| 0 <= j < n && j != cp ==> #[trigger] b[j] == a[j],
    ensures
        active_count(b, n) >= active_count(a, n) - 1,
        active_count(b, n) <= active_count(a, n) + 1,
        cp >= n ==> active_count(b, n) == active_count(a, n),
    decreases n,
{
    if n > 0 {
        lemma_active_count_frame(a, b, n - 1, cp);
        if n - 1 != cp {
            assert(b[n - 1] == a[n - 1]);
        }
    }
}

/// Seats with the same states count the same number active.
proof fn lemma_active_count_same_states(a: Seq<Player>, b: Seq<Player>, n: int)
    requires
        0 <= n <= a.len(),
        n <= b.len(),
        forall|j: int| 0 <= j < n ==> (#[trigger] b[j]).player_state == a[j].player_state,
    ensures
        active_count(a, n) == active_count(b, n),
    decreases n,
{
    if n > 0 {
        lemma_active_count_same_states(a, b, n - 1);
    }
}

/// Seats with the same death records count the same number alive, in
/// either direction of comparison.
proof fn lemma_alive_count_same(a: Seq<Player>, b: Seq<Player>, n: int)
    requires
        0 <= n <= a.len(),
        n <= b.len(),
        forall|j: int|
            0 <= j < n ==> (#[trigger] b[j]).death_hand_number == a[j].death_hand_number,
    ensures
        alive_count(a, n) == alive_count(b, n),
    decreases n,
{
    if n > 0 {
        lemma_alive_count_same(a, b, n - 1);
    }
}

/// One stack alone is at most the sum of all stacks.
proof fn lemma_money_only_le_sum(ps: Seq<Player>, i: int, n: int)
    requires
        0 <= i < n <= ps.len(),
        forall|j: int| 0 <= j < ps.len() ==> (#[trigger] ps[j]).total_money >= 0,
    ensures
        ps[i].total_money <= sum_money(ps, n),
    decreases n,
{
    if i == n - 1 {
        lemma_sum_money_nonneg_range(ps, n - 1);
    } else {
        lemma_money_only_le_sum(ps, i, n - 1);
    }
}

/// One ledger entry alone is at most the sum of the ledger.
proof fn lemma_bet_elem_le_sum(bets: Seq<i32>, i: int, n: int)
    requires
        0 <= i < n <= bets.len(),
        forall|j: int| 0 <= j < bets.len() ==> (#[trigger] bets[j]) >= 0,
    ensures
        bets[i] <= sum_bets(bets, n),
    decreases n,
{
    if i == n - 1 {
        lemma_sum_bets_nonneg_range(bets, n - 1);
    } else {
        lemma_bet_elem_le_sum(bets, i, n - 1);
    }
}

/// Two distinct active seats make the active count at least two.
proof fn lemma_active_count_pair(ps: Seq<Player>, n: int, a: int, b: int)
    requires
        0 <= a < b < n <= ps.len(),
        ps[a].spec_is_active(),
        ps[b].spec_is_active(),
    ensures
        active_count(ps, n) >= 2,
    decreases n,
{
    if n - 1 > b {
        lemma_active_count_pair(ps, n - 1, a, b);
    } else {
        lemma_active_count_one(ps, n - 1, a);
    }
}

/// One active seat makes the active count at least one.
proof fn lemma_active_count_one(ps: Seq<Player>, n: int, a: int)
    requires
        0 <= a < n <= ps.len(),
        ps[a].spec_is_active(),
    ensures
        active_count(ps, n) >= 1,
    decreases n,
{
    if n - 1 > a {
        lemma_active_count_one(ps, n - 1, a);
    } else {
        lemma_active_count_nonneg(ps, n - 1);
    }
}

/// The active count is never negative.
proof fn lemma_active_count_nonneg(ps: Seq<Player>, n: int)
    requires
        n <= ps.len(),
    ensures
        active_count(ps, n) >= 0,
    decreases n,
{
    if n > 0 {
        lemma_active_count_nonneg(ps, n - 1);
    }
}

/// With exactly one active seat, the one given is the only one.
proof fn lemma_active_unique(ps: Seq<Player>, n: int, w: int)
    requires
        0 <= w < n <= ps.len(),
        ps[w].spec_is_active(),
        active_count(ps, n) == 1,
    ensures
        forall|i: int| 0 <= i < n && i != w ==> !(#[trigger] ps[i]).spec_is_active(),
{
    assert forall|i: int| 0 <= i < n && i != w implies !(#[trigger] ps[i]).spec_is_active() by {
        if ps[i].spec_is_active() {
            if i < w {
                lemma_active_count_pair(ps, n, i, w);
            } else {
                lemma_active_count_pair(ps, n, w, i);
            }
        }
    }
}

/// Some seat among the first `n` is active when the count is positive.
proof fn lemma_active_exists(ps: Seq<Player>, n: int)
    requires
        0 < n <= ps.len(),
        active_count(ps, n) >= 1,
    ensures
        exists|i: int| 0 <= i < n && (#[trigger] ps[i]).spec_is_active(),
    decreases n,
{
    if ps[n - 1].spec_is_active() {
    } else {
        assert(active_count(ps, 0) == 0);
        lemma_active_exists(ps, n - 1);
    }
}

/// An open betting round always has a seat that can act: some active
/// seat with money behind has either not had its turn or not matched
/// the table's bet.
proof fn lemma_eligible_from_open_betting(ps: Seq<Player>, n: int, m: int)
    requires
        0 < n <= ps.len(),
        !(all_ready(ps, n) && all_same_bet(ps, n, m)),
    ensures
        exists_eligible(ps),
{
    if !all_ready(ps, n) {
        let i = choose|i: int|
            0 <= i < n && (#[trigger] ps[i]).spec_is_active() && !(ps[i].has_had_turn_this_round
                || ps[i].total_money == 0);
        assert(eligible(ps, i));
    } else {
        let i = choose|i: int|
            0 <= i < n && (#[trigger] ps[i]).spec_is_active() && !(ps[i].total_money == 0
                || ps[i].spec_bet() == m);
        assert(eligible(ps, i));
    }
}

/// The rank of a stage in the order the hand visits them.
pub open spec fn stage_rank(s: BetStage) -> int {
    match s {
        BetStage::PreFlop => 0,
        BetStage::Flop => 1,
        BetStage::Turn => 2,
        BetStage::River => 3,
    }
}

impl Table {
    /// Pick the winners, pay the pot out, and deal the next hand.  With
    /// one active seat left that seat takes the whole pot; otherwise the
    /// hands are ranked and each class of tied winners splits its tiers
    /// of the pot, smallest stake first, leftover chips going one each
    /// to the earliest of the tied winners.  A stake no tier covers
    /// returns to the seat that put it in, so every resolution conserves
    /// the table's money exactly.
    #[verifier::rlimit(100)]
    pub fn resolve_hand(&mut self)
        requires
            old(self).wf(),
            !old(self).spec_game_over(),
            active_count(old(self).players@, old(self).n()) >= 1,
            active_count(old(self).players@, old(self).n()) >= 2 ==> old(self).board_dealt(),
            old(self).hand_number < 0x3fff_ffff,
            old(self).ante < 0x7fff_ffff,
        ensures
            final(self).wf(),
            final(self).players@.len() == old(self).players@.len(),
            final(self).ante_round_increase == old(self).ante_round_increase,
            final(self).hand_number == old(self).hand_number + 1,
            final(self).table_state == BetStage::PreFlop,
            forall|i: int|
                0 <= i < old(self).n() && old(self).players@[i].death_hand_number is Some ==> (
                #[trigger] final(self).players@[i]).death_hand_number == old(self).players@[i].death_hand_number,
            sum_money(final(self).players@, final(self).n()) + sum_bets(
                final(self).player_bets@,
                final(self).n(),
            ) == sum_money(old(self).players@, old(self).n()) + sum_bets(
                old(self).player_bets@,
                old(self).n(),
            ),
            final(self).previous_round_actions@.len() == old(self).round_actions@.len() + 1,
            final(self).previous_round_actions@.subrange(0, old(self).round_actions@.len() as int)
                == old(self).round_actions@,
            final(self).previous_round_actions@.last() is EvaluateHand,
            final(self).round_actions@.len() == 1,
            final(self).round_actions@[0] is DealCards,
            exists_eligible(final(self).players@) ==> eligible(
                final(self).players@,
                final(self).current_player_index as int,
            ),
            active_count(old(self).players@, old(self).n()) == 1 ==> forall|i: int|
                0 <= i < old(self).n() ==> (#[trigger] final(self).players@[i]).total_money as int
                    == old(self).players@[i].total_money + (if old(self).players@[i].spec_is_active() {
                    sum_bets(old(self).player_bets@, old(self).n())
                } else {
                    0int
                }) - final(self).player_bets@[i],
            forall|i: int|
                0 <= i < old(self).n() ==> (#[trigger] final(self).players@[i]).total_money as int
                    >= old(self).players@[i].total_money - final(self).player_bets@[i],
            forall|i: int|
                0 <= i < old(self).n() && !old(self).players@[i].spec_is_active() ==> (
                #[trigger] final(self).players@[i]).total_money as int <= old(self).players@[i].total_money + old(self).player_bets@[i] - final(self).player_bets@[i],
    {
        proof {
            lemma_sum_bets_nonneg_range(self.player_bets@, self.n() as int);
            lemma_sum_money_nonneg_range(self.players@, self.n() as int);
        }
        let active_cnt = self.get_active_player_count();
        let mut result_string = String::from_str("The hand resolved because: ");
        if active_cnt == 1 {
            let pot = self.get_pot_size();
            proof {
                lemma_active_exists(self.players@, self.n());
            }
            let n = self.players.len();
            let mut w: usize = 0;
            loop
                invariant
                    self.wf(),
                    n == self.n(),
                    w < n,
                    exists|i: int| 0 <= i < n && (#[trigger] self.players@[i]).spec_is_active(),
                    forall|i: int|
                        0 <= i < w ==> !(#[trigger] self.players@[i]).spec_is_active(),
                ensures
                    w < n,
                    self.players@[w as int].spec_is_active(),
                decreases n - w,
            {
                match self.players[w].player_state {
                    PlayerState::Active(_) => {
                        break ;
                    },
                    PlayerState::Folded => {},
                }
                if w + 1 >= n {
                    proof {
                        let i = choose|i: int|
                            0 <= i < n && (#[trigger] self.players@[i]).spec_is_active();
                        assert(false);
                    }
                }
                w = w + 1;
            }
            proof {
                lemma_money_only_le_sum(self.players@, w as int, self.n());
                lemma_sum_bets_nonneg_range(self.player_bets@, self.n());
                lemma_sum_money_nonneg_range(self.players@, self.n());
                lemma_active_unique(self.players@, self.n(), w as int);
            }
            let ghost ps0 = self.players@;
            let pm = &mut self.players;
            let q = &mut pm[w];
            q.total_money = q.total_money + pot;
            proof {
                lemma_sum_money_update(ps0, w as int, self.players@[w as int], self.n());
                assert(self.players@ =~= ps0.update(w as int, self.players@[w as int]));
                lemma_sum_money_same_below(
                    self.players@,
                    ps0.update(w as int, self.players@[w as int]),
                    self.n(),
                );
            }
            result_string.append("The following player won because everyone else folded: ");
            let wid = self.players[w].get_id();
            append_dec_i32(&mut result_string, wid as i32);
            // the pot has been paid out; clear the ledger it came from
            let ghost paid_money = sum_money(self.players@, self.n());
            proof {
                lemma_sum_money_nonneg_range(self.players@, self.n());
            }
            let ghost pot0 = sum_bets(old(self).player_bets@, old(self).n());
            let mut z: usize = 0;
            while z < n
                invariant
                    n == self.n(),
                    old(self).n() == self.n(),
                    z <= n,
                    self.player_bets@.len() == n,
                    sum_money(self.players@, self.n()) == paid_money,
                    0 <= paid_money <= MAX_TABLE_MONEY,
                    forall|q: int| 0 <= q < z ==> #[trigger] self.player_bets@[q] == 0,
                    forall|q: int| 0 <= q < n ==> #[trigger] self.player_bets@[q] >= 0,
                    forall|q: int| 0 <= q < n ==> (#[trigger] self.players@[q]).total_money >= 0,
                    forall|q: int| 0 <= q < n ==> (#[trigger] self.players@[q]).spec_id() == q,
                    forall|q: int| 0 <= q < n ==> (#[trigger] self.players@[q]).spec_bet() >= 0,
                    forall|q: int|
                        0 <= q < n ==> (#[trigger] self.players@[q]).total_money as int == old(self).players@[q].total_money + (if old(self).players@[q].spec_is_active() {
                            pot0
                        } else {
                            0int
                        }),
                    forall|i: int|
                        0 <= i < old(self).n() ==> (#[trigger] self.players@[i]).death_hand_number
                            == old(self).players@[i].death_hand_number,
                    self.dealer_button_index < n,
                    self.current_player_index < n,
                    self.ante == old(self).ante,
                    self.ante_round_increase == old(self).ante_round_increase,
                    self.hand_number == old(self).hand_number,
                    self.flop == old(self).flop,
                    self.turn == old(self).turn,
                    self.river == old(self).river,
                    self.table_state == old(self).table_state,
                    self.round_actions == old(self).round_actions,
                    self.previous_round_actions == old(self).previous_round_actions,
                decreases n - z,
            {
                let ghost bets_z0 = self.player_bets@;
                let bm = &mut self.player_bets;
                let slot = &mut bm[z];
                *slot = 0;
                proof {
                    assert(self.player_bets@ =~= bets_z0.update(z as int, 0i32));
                }
                z = z + 1;
            }
            proof {
                lemma_sum_bets_zero(self.player_bets@, self.n());
            }
        } else {
            let header = self.make_comparison_header();
            result_string.append(header.as_str());
            let rankings = self.get_hand_result();
            // show every ranked hand
            let rn = rankings.len();
            let mut ridx: usize = 0;
            while ridx < rn
                invariant
                    self.wf(),
                    rn == rankings@.len(),
                    ridx <= rn,
                    forall|k: int, e: int|
                        0 <= k < rankings@.len() && 0 <= e < rankings@[k]@.len() ==> 0 <= (
                        #[trigger] rankings@[k]@[e]).spec_id() < self.n()
                            && rankings@[k]@[e].spec_bet() >= 0,
                decreases rn - ridx,
            {
                let class = &rankings[ridx];
                let cn = class.len();
                let mut e: usize = 0;
                while e < cn
                    invariant
                        cn == class@.len(),
                        e <= cn,
                        ridx < rn,
                        forall|q: int|
                            0 <= q < cn ==> 0 <= (#[trigger] class@[q]).spec_id(),
                    decreases cn - e,
                {
                    match &class[e].player_state {
                        PlayerState::Active(st) => {
                            result_string.append("Player ");
                            append_dec_i32(&mut result_string, class[e].get_id() as i32);
                            result_string.append(" ranked ");
                            append_dec_u64(&mut result_string, (ridx + 1) as u64);
                            result_string.append(" with hand ");
                            let c0 = st.hand[0].display_string();
                            result_string.append(c0.as_str());
                            result_string.append(" ");
                            let c1 = st.hand[1].display_string();
                            result_string.append(c1.as_str());
                            result_string.append("\n");
                        },
                        PlayerState::Folded => {},
                    }
                    e = e + 1;
                }
                ridx = ridx + 1;
            }
            // pay the tiers out, class by class
            let ghost total_before = sum_money(self.players@, self.n()) + sum_bets(
                self.player_bets@,
                self.n(),
            );
            let mut ci: usize = 0;
            while ci < rn
                invariant
                    self.wf_base(),
                    old(self).n() == self.n(),
                    rn == rankings@.len(),
                    ci <= rn,
                    forall|k: int, e: int|
                        0 <= k < rankings@.len() && 0 <= e < rankings@[k]@.len() ==> 0 <= (
                        #[trigger] rankings@[k]@[e]).spec_id() < self.n()
                            && rankings@[k]@[e].spec_bet() >= 0,
                    forall|k: int|
                        0 <= k < rankings@.len() ==> 1 <= (#[trigger] rankings@[k])@.len()
                            <= self.n(),
                    total_before <= MAX_TABLE_MONEY,
                    sum_money(self.players@, self.n()) + sum_bets(self.player_bets@, self.n())
                        == total_before,
                    forall|k: int, e: int|
                        0 <= k < rankings@.len() && 0 <= e < rankings@[k]@.len() ==> (
                        #[trigger] rankings@[k]@[e]) == old(self).players@[rankings@[k]@[e].spec_id() as int],
                    forall|i: int|
                        0 <= i < old(self).n() && !old(self).players@[i].spec_is_active() ==> (
                        #[trigger] self.players@[i]).total_money == old(self).players@[i].total_money,
                    forall|i: int|
                        0 <= i < old(self).n() ==> (#[trigger] self.players@[i]).total_money
                            >= old(self).players@[i].total_money,
                    forall|i: int|
                        0 <= i < old(self).n() ==> (#[trigger] self.player_bets@[i]) <= old(self).player_bets@[i],
                    forall|i: int|
                        0 <= i < old(self).n() ==> (#[trigger] self.players@[i]).death_hand_number
                            == old(self).players@[i].death_hand_number,
                    self.flop == old(self).flop,
                    self.turn == old(self).turn,
                    self.river == old(self).river,
                    self.hand_number == old(self).hand_number,
                    self.ante == old(self).ante,
                    self.ante_round_increase == old(self).ante_round_increase,
                    self.table_state == old(self).table_state,
                    self.round_actions == old(self).round_actions,
                    self.previous_round_actions == old(self).previous_round_actions,
                decreases rn - ci,
            {
                let mut list: Vec<Player> = Vec::new();
                let class = &rankings[ci];
                let cn = class.len();
                let mut e: usize = 0;
                while e < cn
                    invariant
                        cn == class@.len(),
                        cn <= self.n(),
                        e <= cn,
                        list@.len() <= e,
                        forall|q: int|
                            0 <= q < cn ==> 0 <= (#[trigger] class@[q]).spec_id() < self.n()
                                && class@[q].spec_bet() >= 0,
                        forall|q: int|
                            0 <= q < cn ==> #[trigger] class@[q] == old(self).players@[class@[q].spec_id() as int],
                        forall|q: int|
                            0 <= q < list@.len() ==> (#[trigger] list@[q]).spec_is_active() && 0
                                <= list@[q].spec_id() < self.n() && list@[q].spec_bet() >= 0
                                && list@[q] == old(self).players@[list@[q].spec_id() as int],
                    decreases cn - e,
                {
                    if class[e].player_state.is_active() {
                        list.push(class[e]);
                    }
                    e = e + 1;
                }
                let ghost list0 = list@;
                sort_players_by_bet(&mut list);
                proof {
                    lemma_list_facts_from_multiset(list0, list@, old(self).players@, self.n());
                }
                let bet_amounts = Table::get_bet_increases_amount(&list);
                let ln = list.len();
                let mut player_size: i32 = ln as i32;
                let mut bi: usize = 0;
                while bi < ln
                    invariant
                        self.wf_base(),
                        old(self).n() == self.n(),
                        ln == list@.len(),
                        bi <= ln,
                        player_size as int == ln - bi,
                        bet_amounts@.len() == ln,
                        forall|q: int| 0 <= q < ln ==> (#[trigger] bet_amounts@[q]) >= 0,
                        forall|q: int|
                            0 <= q < ln ==> 0 <= (#[trigger] list@[q]).spec_id() < self.n()
                                && list@[q].spec_is_active() && list@[q] == old(self).players@[list@[q].spec_id() as int],
                        sum_money(self.players@, self.n()) + sum_bets(self.player_bets@, self.n())
                            == total_before,
                        total_before <= MAX_TABLE_MONEY,
                        forall|i: int|
                            0 <= i < old(self).n() && !old(self).players@[i].spec_is_active() ==> (
                            #[trigger] self.players@[i]).total_money == old(self).players@[i].total_money,
                        forall|i: int|
                            0 <= i < old(self).n() ==> (#[trigger] self.players@[i]).total_money
                                >= old(self).players@[i].total_money,
                        forall|i: int|
                            0 <= i < old(self).n() ==> (#[trigger] self.player_bets@[i]) <= old(self).player_bets@[i],
                        forall|i: int|
                            0 <= i < old(self).n() ==> (#[trigger] self
                                .players@[i]).death_hand_number == old(self).players@[i].death_hand_number,
                        self.flop == old(self).flop,
                        self.turn == old(self).turn,
                        self.river == old(self).river,
                        self.hand_number == old(self).hand_number,
                        self.ante == old(self).ante,
                        self.ante_round_increase == old(self).ante_round_increase,
                        self.table_state == old(self).table_state,
                        self.round_actions == old(self).round_actions,
                        self.previous_round_actions == old(self).previous_round_actions,
                    decreases ln - bi,
                {
                    let pot_now = self.get_pot_size();
                    if pot_now == 0 {
                        break ;
                    }
                    let d = bet_amounts[bi];
                    // drain this tier from every seat's outstanding bet
                    let n = self.players.len();
                    let mut total: i32 = 0;
                    let ghost bets_entry = self.player_bets@;
                    let ghost money_entry = sum_money(self.players@, self.n());
                    proof {
                        lemma_sum_money_nonneg_range(self.players@, self.n());
                    }
                    let mut b: usize = 0;
                    while b < n
                        invariant
                            self.wf_base(),
                            n == self.n(),
                            old(self).n() == self.n(),
                            b <= n,
                            d >= 0,
                            self.player_bets@.len() == n,
                            bets_entry.len() == n,
                            forall|q: int| 0 <= q < n ==> #[trigger] bets_entry[q] >= 0,
                            total_before <= MAX_TABLE_MONEY,
                            money_entry >= 0,
                            forall|i: int|
                                0 <= i < old(self).n() && !old(self).players@[i].spec_is_active()
                                    ==> (#[trigger] self.players@[i]).total_money == old(self).players@[i].total_money,
                            forall|i: int|
                                0 <= i < old(self).n() ==> (#[trigger] self
                                    .players@[i]).total_money >= old(self).players@[i].total_money,
                            forall|i: int|
                                0 <= i < old(self).n() ==> (#[trigger] self.player_bets@[i]) <= old(self).player_bets@[i],
                            forall|i: int|
                                0 <= i < old(self).n() ==> (#[trigger] self
                                    .players@[i]).death_hand_number == old(self).players@[i].death_hand_number,
                            self.flop == old(self).flop,
                            self.turn == old(self).turn,
                            self.river == old(self).river,
                            self.hand_number == old(self).hand_number,
                            self.ante == old(self).ante,
                            self.ante_round_increase == old(self).ante_round_increase,
                            self.table_state == old(self).table_state,
                            self.round_actions == old(self).round_actions,
                            self.previous_round_actions == old(self).previous_round_actions,
                            forall|q: int|
                                b <= q < n ==> #[trigger] self.player_bets@[q] == bets_entry[q],
                            forall|q: int| 0 <= q < n ==> #[trigger] self.player_bets@[q] >= 0,
                            total >= 0,
                            sum_bets(self.player_bets@, b as int) == sum_bets(bets_entry, b as int)
                                - total,
                            sum_bets(self.player_bets@, self.n()) == sum_bets(bets_entry, self.n())
                                - total,
                            sum_money(self.players@, self.n()) == money_entry,
                            money_entry + sum_bets(bets_entry, self.n()) == total_before,
                        decreases n - b,
                    {
                        proof {
                            lemma_sum_bets_prefix_step(self.player_bets@, b as int);
                            lemma_sum_bets_prefix_step(bets_entry, b as int);
                            lemma_sum_money_nonneg_range(self.players@, self.n());
                            lemma_sum_bets_nonneg_range(self.player_bets@, self.n());
                        }
                        let cur = self.player_bets[b];
                        let side = if d <= cur {
                            d
                        } else {
                            cur
                        };
                        proof {
                            lemma_bet_elem_le_sum(self.player_bets@, b as int, self.n());
                            lemma_sum_bets_nonneg_range(self.player_bets@, self.n());
                            lemma_sum_bets_nonneg_range(bets_entry, self.n());
                        }
                        let ghost bets_b0 = self.player_bets@;
                        let bm = &mut self.player_bets;
                        let slot = &mut bm[b];
                        *slot = *slot - side;
                        proof {
                            lemma_sum_bets_update(bets_b0, b as int, self.player_bets@[b as int], self.n());
                            assert(self.player_bets@ =~= bets_b0.update(
                                b as int,
                                self.player_bets@[b as int],
                            ));
                            lemma_sum_bets_same_below(
                                self.player_bets@,
                                bets_b0.update(b as int, self.player_bets@[b as int]),
                                self.n(),
                            );
                            lemma_sum_bets_same_below(self.player_bets@, bets_b0, b as int);
                            lemma_sum_bets_prefix_step(self.player_bets@, b as int);
                            lemma_sum_bets_prefix_step(bets_b0, b as int);
                            lemma_sum_money_nonneg_range(self.players@, self.n());
                        }
                        total = total + side;
                        b = b + 1;
                    }
                    // split this tier among the winners still in it
                    let payout = total / player_size;
                    let remainder = total % player_size;
                    proof {
                        assert(payout >= 0 && remainder >= 0 && payout as int <= total as int)
                            by (nonlinear_arith)
                            requires
                                player_size as int >= 1,
                                total >= 0,
                                payout as int == total as int / player_size as int,
                                remainder as int == total as int % player_size as int,
                        ;
                    }
                    let ghost money_tier = sum_money(self.players@, self.n());
                    proof {
                        lemma_sum_money_nonneg_range(self.players@, self.n());
                    }
                    let mut jw: usize = bi;
                    while jw < ln
                        invariant
                            self.wf_base(),
                            old(self).n() == self.n(),
                            ln == list@.len(),
                            bi <= jw <= ln,
                            player_size as int == ln - bi,
                            payout as int == total as int / player_size as int,
                            remainder as int == total as int % player_size as int,
                            total >= 0,
                            0 <= remainder,
                            payout >= 0,
                            payout as int <= total as int,
                            total_before <= MAX_TABLE_MONEY,
                            money_tier >= 0,
                            forall|q: int|
                                0 <= q < ln ==> 0 <= (#[trigger] list@[q]).spec_id() < self.n()
                                    && list@[q].spec_is_active() && list@[q] == old(self).players@[list@[q].spec_id() as int],
                            forall|i: int|
                                0 <= i < old(self).n() && !old(self).players@[i].spec_is_active()
                                    ==> (#[trigger] self.players@[i]).total_money == old(self).players@[i].total_money,
                            forall|i: int|
                                0 <= i < old(self).n() ==> (#[trigger] self
                                    .players@[i]).total_money >= old(self).players@[i].total_money,
                            forall|i: int|
                                0 <= i < old(self).n() ==> (#[trigger] self.player_bets@[i]) <= old(self).player_bets@[i],
                            sum_money(self.players@, self.n()) == money_tier + payout as int * (jw
                                - bi) + (if jw - bi <= remainder {
                                (jw - bi) as int
                            } else {
                                remainder as int
                            }),
                            sum_money(self.players@, self.n()) <= money_tier + total,
                            money_tier + sum_bets(self.player_bets@, self.n()) + total
                                == total_before,
                            forall|i: int|
                                0 <= i < old(self).n() ==> (#[trigger] self
                                    .players@[i]).death_hand_number == old(self).players@[i].death_hand_number,
                            self.player_bets@.len() == self.n(),
                            forall|q: int| 0 <= q < self.n() ==> #[trigger] self.player_bets@[q] >= 0,
                            self.flop == old(self).flop,
                            self.turn == old(self).turn,
                            self.river == old(self).river,
                            self.hand_number == old(self).hand_number,
                            self.ante == old(self).ante,
                            self.ante_round_increase == old(self).ante_round_increase,
                            self.table_state == old(self).table_state,
                            self.round_actions == old(self).round_actions,
                            self.previous_round_actions == old(self).previous_round_actions,
                        decreases ln - jw,
                    {
                        let wid = list[jw].get_id();
                        let widx = wid as usize;
                        proof {
                            lemma_sum_bets_nonneg_range(self.player_bets@, self.n());
                            assert(total as int <= total_before);
                        }
                        let add: i32 = if ((jw - bi) as i32) < remainder {
                            payout + 1
                        } else {
                            payout
                        };
                        proof {
                            lemma_sum_money_nonneg_range(self.players@, self.n());
                            lemma_sum_bets_nonneg_range(self.player_bets@, self.n());
                            lemma_money_plus_bet_le_sum(
                                self.players@,
                                self.player_bets@,
                                widx as int,
                                self.n(),
                            );
                        }
                        proof {
                            assert(payout as int * ((jw + 1 - bi) as int) == payout as int * ((jw
                                - bi) as int) + payout as int) by (nonlinear_arith)
                            ;
                            assert(payout as int * (player_size as int) + remainder as int == total
                                as int) by (nonlinear_arith)
                                requires
                                    player_size as int >= 1,
                                    total >= 0,
                                    payout as int == total as int / player_size as int,
                                    remainder as int == total as int % player_size as int,
                            ;
                            assert((remainder as int) < (player_size as int)) by (nonlinear_arith)
                                requires
                                    player_size as int >= 1,
                                    total >= 0,
                                    remainder as int == total as int % player_size as int,
                            ;
                            assert(payout as int * ((jw + 1 - bi) as int) <= payout as int * (
                            player_size as int)) by (nonlinear_arith)
                                requires
                                    payout >= 0,
                                    0 <= jw + 1 - bi <= player_size as int,
                            ;
                            assert(payout as int * ((jw + 1 - bi) as int) + (if (jw + 1 - bi)
                                as int <= remainder as int {
                                (jw + 1 - bi) as int
                            } else {
                                remainder as int
                            }) <= total as int);
                            lemma_money_only_le_sum(self.players@, widx as int, self.n());
                            lemma_sum_bets_nonneg_range(self.player_bets@, self.n());
                            assert(money_tier + total as int <= total_before);
                            assert(self.players@[widx as int].total_money + add as int
                                <= money_tier + total as int);
                        }
                        proof {
                            // the paid seat is the active seat its number names
                            assert(list@[jw as int] == old(self).players@[widx as int]);
                            assert(old(self).players@[widx as int].spec_is_active());
                        }
                        let ghost ps0 = self.players@;
                        let pm = &mut self.players;
                        let q = &mut pm[widx];
                        q.total_money = q.total_money + add;
                        proof {
                            lemma_sum_money_update(ps0, widx as int, self.players@[widx as int], self.n());
                            assert(self.players@ =~= ps0.update(
                                widx as int,
                                self.players@[widx as int],
                            ));
                            lemma_sum_money_same_below(
                                self.players@,
                                ps0.update(widx as int, self.players@[widx as int]),
                                self.n(),
                            );
                        }
                        jw = jw + 1;
                    }
                    proof {
                        assert(payout as int * (player_size as int) + remainder as int == total
                            as int) by (nonlinear_arith)
                            requires
                                player_size as int >= 1,
                                total >= 0,
                                payout as int == total as int / player_size as int,
                                remainder as int == total as int % player_size as int,
                        ;
                        assert((remainder as int) < (player_size as int)) by (nonlinear_arith)
                            requires
                                player_size as int >= 1,
                                total >= 0,
                                remainder as int == total as int % player_size as int,
                        ;
                    }
                    player_size = player_size - 1;
                    bi = bi + 1;
                }
                ci = ci + 1;
            }
            // settle what the tiers did not cover: any remaining stake
            // returns to the seat that put it in, so the hand conserves
            // the table's money exactly
            let ghost ps_sw = self.players@;
            let ghost bets_sw = self.player_bets@;
            let n2 = self.players.len();
            let mut s: usize = 0;
            while s < n2
                invariant
                    self.wf_base(),
                    n2 == self.n(),
                    old(self).n() == self.n(),
                    s <= n2,
                    ps_sw.len() == n2,
                    bets_sw.len() == n2,
                    sum_money(self.players@, self.n()) + sum_bets(self.player_bets@, self.n())
                        == total_before,
                    total_before <= MAX_TABLE_MONEY,
                    forall|q: int| 0 <= q < n2 ==> #[trigger] bets_sw[q] >= 0,
                    forall|q: int| 0 <= q < s ==> #[trigger] self.player_bets@[q] == 0,
                    forall|q: int| s <= q < n2 ==> #[trigger] self.player_bets@[q] == bets_sw[q],
                    forall|q: int|
                        0 <= q < s ==> (#[trigger] self.players@[q]).total_money as int == ps_sw[q].total_money + bets_sw[q],
                    forall|q: int| s <= q < n2 ==> #[trigger] self.players@[q] == ps_sw[q],
                    forall|q: int|
                        0 <= q < n2 ==> (#[trigger] self.players@[q]).player_state == ps_sw[q].player_state && self.players@[q].spec_id() == ps_sw[q].spec_id() && self
                            .players@[q].death_hand_number == ps_sw[q].death_hand_number,
                    forall|q: int| 0 <= q < n2 ==> #[trigger] ps_sw[q].total_money >= 0,
                    forall|i: int|
                        0 <= i < old(self).n() && !old(self).players@[i].spec_is_active() ==> (
                        #[trigger] ps_sw[i]).total_money == old(self).players@[i].total_money,
                    forall|i: int|
                        0 <= i < old(self).n() ==> (#[trigger] ps_sw[i]).total_money >= old(self).players@[i].total_money,
                    forall|i: int|
                        0 <= i < old(self).n() ==> (#[trigger] bets_sw[i]) <= old(self).player_bets@[i],
                    forall|i: int|
                        0 <= i < old(self).n() ==> (#[trigger] self.players@[i]).death_hand_number
                            == old(self).players@[i].death_hand_number,
                    self.flop == old(self).flop,
                    self.turn == old(self).turn,
                    self.river == old(self).river,
                    self.hand_number == old(self).hand_number,
                    self.ante == old(self).ante,
                    self.ante_round_increase == old(self).ante_round_increase,
                    self.table_state == old(self).table_state,
                    self.round_actions == old(self).round_actions,
                    self.previous_round_actions == old(self).previous_round_actions,
                decreases n2 - s,
            {
                proof {
                    lemma_money_plus_bet_le_sum(
                        self.players@,
                        self.player_bets@,
                        s as int,
                        self.n(),
                    );
                    lemma_sum_money_nonneg_range(self.players@, self.n());
                    lemma_sum_bets_nonneg_range(self.player_bets@, self.n());
                }
                let back = self.player_bets[s];
                let ghost ps0 = self.players@;
                let ghost bets0 = self.player_bets@;
                let pm = &mut self.players;
                let q = &mut pm[s];
                q.total_money = q.total_money + back;
                let bm = &mut self.player_bets;
                let slot = &mut bm[s];
                *slot = 0;
                proof {
                    lemma_sum_money_update(ps0, s as int, self.players@[s as int], self.n());
                    lemma_sum_bets_update(bets0, s as int, 0i32, self.n());
                    assert(self.players@ =~= ps0.update(s as int, self.players@[s as int]));
                    assert(self.player_bets@ =~= bets0.update(s as int, 0i32));
                    lemma_sum_money_same_below(
                        self.players@,
                        ps0.update(s as int, self.players@[s as int]),
                        self.n(),
                    );
                    lemma_sum_bets_same_below(
                        self.player_bets@,
                        bets0.update(s as int, 0i32),
                        self.n(),
                    );
                }
                s = s + 1;
            }
        }
        self.round_actions.push(TableAction::EvaluateHand(result_string));
        let ghost pre_deal = *self;
        proof {
            lemma_sum_bets_nonneg_range(self.player_bets@, self.n());
            lemma_sum_bets_zero(self.player_bets@, self.n());
            lemma_alive_count_same(old(self).players@, self.players@, self.n());
            assert(!self.spec_game_over());
        }
        self.deal();
        proof {
            lemma_sum_bets_zero(pre_deal.player_bets@, pre_deal.n());
            lemma_sum_bets_nonneg_range(self.player_bets@, self.n());
            // the finished hand's log became the previous log, one entry
            // longer than it was when the hand resolved
            assert(self.previous_round_actions@.subrange(0, old(self).round_actions@.len() as int)
                =~= old(self).round_actions@);
            // every seat ends with what it had, plus its winnings, less
            // the ante of the hand just dealt
            assert forall|i: int| 0 <= i < old(self).n() implies (#[trigger] self
                .players@[i]).total_money as int >= old(self).players@[i].total_money - self
                .player_bets@[i] by {
                assert(pre_deal.players@[i].total_money >= old(self).players@[i].total_money);
            }
        }
    }

    /// The header of the showdown report, naming the board.
    fn make_comparison_header(&self) -> (r: String)
        requires
            self.board_dealt(),
    {
        let mut s = String::from_str("\nPlayers hands had to be compared.\nFlop: ");
        match &self.flop {
            Some(cards) => {
                let c0 = cards[0].display_string();
                s.append(c0.as_str());
                s.append(" ");
                let c1 = cards[1].display_string();
                s.append(c1.as_str());
                s.append(" ");
                let c2 = cards[2].display_string();
                s.append(c2.as_str());
            },
            None => {
                s.append("None");
            },
        }
        s.append("\nTurn: ");
        match &self.turn {
            Some(card) => {
                let c = card.display_string();
                s.append(c.as_str());
            },
            None => {
                s.append("None");
            },
        }
        s.append("\nRiver: ");
        match &self.river {
            Some(card) => {
                let c = card.display_string();
                s.append(c.as_str());
            },
            None => {
                s.append("None");
            },
        }
        s.append("\nThe hands are ranked as follows: \n");
        s
    }
}

/// A rearranged list keeps the facts its members carried: every member
/// is active, has a seat number in range, and a non-negative bet.
proof fn lemma_list_facts_from_multiset(a: Seq<Player>, b: Seq<Player>, base: Seq<Player>, n: int)
    requires
        a.to_multiset() == b.to_multiset(),
        forall|j: int|
            0 <= j < a.len() ==> (#[trigger] a[j]).spec_is_active() && 0 <= a[j].spec_id() < n
                && a[j].spec_bet() >= 0 && a[j] == base[a[j].spec_id() as int],
    ensures
        forall|i: int|
            0 <= i < b.len() ==> (#[trigger] b[i]).spec_is_active() && 0 <= b[i].spec_id() < n
                && b[i].spec_bet() >= 0 && b[i] == base[b[i].spec_id() as int],
{
    broadcast use vstd::seq_lib::group_to_multiset_ensures;

    assert forall|i: int| 0 <= i < b.len() implies (#[trigger] b[i]).spec_is_active()
        && 0 <= b[i].spec_id() < n && b[i].spec_bet() >= 0 && b[i] == base[b[i].spec_id() as int] by {
        assert(b.contains(b[i])) by {
            assert(0 <= i < b.len() && b[i] == b[i]);
        }
        vstd::seq_lib::to_multiset_contains(b, b[i]);
        vstd::seq_lib::to_multiset_contains(a, b[i]);
        assert(a.contains(b[i]));
        let w = choose|w: int| 0 <= w < a.len() && a[w] == b[i];
        assert(a[w].spec_is_active());
    }
}

/// When every seat is alive the alive count is the seat count.
proof fn lemma_alive_count_all(ps: Seq<Player>, n: int)
    requires
        0 <= n <= ps.len(),
        forall|i: int| 0 <= i < n ==> (#[trigger] ps[i]).spec_is_alive(),
    ensures
        alive_count(ps, n) == n,
    decreases n,
{
    if n > 0 {
        lemma_alive_count_all(ps, n - 1);
    }
}

/// A zeroed ledger sums to zero.
proof fn lemma_sum_bets_zero(bets: Seq<i32>, n: int)
    requires
        0 <= n <= bets.len(),
        forall|i: int| 0 <= i < n ==> #[trigger] bets[i] == 0,
    ensures
        sum_bets(bets, n) == 0,
    decreases n,
{
    if n > 0 {
        lemma_sum_bets_zero(bets, n - 1);
    }
}

/// Counting alive seats grows strictly across an alive seat.
proof fn lemma_alive_count_strict_mono(ps: Seq<Player>, i: int, j: int)
    requires
        0 <= i < j <= ps.len(),
        ps[i].spec_is_alive(),
    ensures
        alive_count(ps, i) < alive_count(ps, j),
    decreases j - i,
{
    if j == i + 1 {
    } else {
        lemma_alive_count_strict_mono(ps, i, j - 1);
        lemma_alive_count_le(ps, j);
    }
}

/// After the antes are collected, the money on the table is what the
/// stacks held before: each alive seat's payment moved from its stack
/// to its bet, and dead seats moved nothing.
proof fn lemma_sum_after_antes(
    old_ps: Seq<Player>,
    ps: Seq<Player>,
    bets: Seq<i32>,
    ante: int,
    n: int,
)
    requires
        0 <= n <= old_ps.len(),
        n <= ps.len(),
        n <= bets.len(),
        forall|j: int|
            0 <= j < n && old_ps[j].spec_is_alive() ==> (#[trigger] ps[j]).total_money
                == old_ps[j].total_money - Table::ante_paid(ante, old_ps[j].total_money as int)
                && bets[j] == Table::ante_paid(ante, old_ps[j].total_money as int),
        forall|j: int|
            0 <= j < n && !old_ps[j].spec_is_alive() ==> (#[trigger] ps[j]).total_money
                == old_ps[j].total_money && bets[j] == 0,
    ensures
        sum_money(ps, n) + sum_bets(bets, n) == sum_money(old_ps, n),
    decreases n,
{
    if n > 0 {
        lemma_sum_after_antes(old_ps, ps, bets, ante, n - 1);
    }
}

/// Among the first `i` seats at most `i` are alive.
proof fn lemma_alive_count_le(ps: Seq<Player>, i: int)
    requires
        0 <= i <= ps.len(),
    ensures
        0 <= alive_count(ps, i) <= i,
    decreases i,
{
    if i > 0 {
        lemma_alive_count_le(ps, i - 1);
    }
}

/// Splitting one step off a prefix sum of stacks.
proof fn lemma_sum_money_prefix_step(ps: Seq<Player>, i: int)
    requires
        0 <= i < ps.len(),
    ensures
        sum_money(ps, i + 1) == sum_money(ps, i) + ps[i].total_money,
{
}

/// Splitting one step off a prefix sum of bets.
proof fn lemma_sum_bets_prefix_step(bets: Seq<i32>, i: int)
    requires
        0 <= i < bets.len(),
    ensures
        sum_bets(bets, i + 1) == sum_bets(bets, i) + bets[i],
{
}

/// A prefix sum of non-negative stacks is non-negative.
proof fn lemma_sum_money_nonneg_range(ps: Seq<Player>, n: int)
    requires
        0 <= n <= ps.len(),
        forall|i: int| 0 <= i < ps.len() ==> (#[trigger] ps[i]).total_money >= 0,
    ensures
        sum_money(ps, n) >= 0,
    decreases n,
{
    if n > 0 {
        lemma_sum_money_nonneg_range(ps, n - 1);
    }
}

/// A prefix sum of non-negative bets is non-negative.
proof fn lemma_sum_bets_nonneg_range(bets: Seq<i32>, n: int)
    requires
        0 <= n <= bets.len(),
        forall|i: int| 0 <= i < bets.len() ==> (#[trigger] bets[i]) >= 0,
    ensures
        sum_bets(bets, n) >= 0,
    decreases n,
{
    if n > 0 {
        lemma_sum_bets_nonneg_range(bets, n - 1);
    }
}

/// One stack is at most the sum of all stacks and bets when everything
/// is non-negative.
proof fn lemma_money_le_sum(ps: Seq<Player>, bets: Seq<i32>, i: int, n: int)
    requires
        0 <= i < n <= ps.len(),
        n <= bets.len(),
        forall|j: int| 0 <= j < ps.len() ==> (#[trigger] ps[j]).total_money >= 0,
        forall|j: int| 0 <= j < bets.len() ==> (#[trigger] bets[j]) >= 0,
    ensures
        ps[i].total_money <= sum_money(ps, n) + sum_bets(bets, n),
    decreases n,
{
    lemma_sum_bets_nonneg_range(bets, n);
    if i == n - 1 {
        lemma_sum_money_nonneg_range(ps, n - 1);
        lemma_sum_bets_nonneg_range(bets, n - 1);
    } else {
        lemma_money_le_sum(ps, bets, i, n - 1);
    }
}

/// Two player sequences with the same stacks have the same money sum.
proof fn lemma_sum_money_same(a: Seq<Player>, b: Seq<Player>, n: int)
    requires
        n <= a.len(),
        n <= b.len(),
        forall|i: int| 0 <= i < n ==> (#[trigger] b[i]).total_money == a[i].total_money,
    ensures
        sum_money(a, n) == sum_money(b, n),
    decreases n,
{
    if n > 0 {
        lemma_sum_money_same(a, b, n - 1);
    }
}

/// The sums are monotone and bounded by the totals they are part of.
proof fn lemma_sum_bets_bound(bets: Seq<i32>, n: int, m: int)
    requires
        0 <= n <= m <= bets.len(),
        forall|i: int| 0 <= i < bets.len() ==> (#[trigger] bets[i]) >= 0,
    ensures
        sum_bets(bets, n) <= sum_bets(bets, m),
        sum_bets(bets, n) >= 0,
    decreases m - n,
{
    if n < m {
        lemma_sum_bets_bound(bets, n, m - 1);
    } else {
        lemma_sum_bets_nonneg_range(bets, n);
    }
}

} // verus!
