use vstd::multiset::Multiset;
use vstd::prelude::*;

use crate::data::{CardId, Phase};
use crate::state::player_state::{PlayerModel, PlayerState, DEFAULT_HAND_LIMIT};

verus! {

/// How many cards each player's deck holds when a match starts.
pub const DECK_SIZE: usize = 50;

/// The deck player `p` starts with: the `DECK_SIZE` sequential ids from
/// `p * DECK_SIZE` on, bottom first. The two players' ids are disjoint.
pub open spec fn dealt_deck(p: int) -> Seq<CardId> {
    Seq::new(DECK_SIZE as nat, |i: int| CardId((p * DECK_SIZE + i) as usize))
}

/// Every card dealt at the start of a match, over both players.
pub open spec fn dealt_cards() -> Multiset<CardId> {
    dealt_deck(0).to_multiset().add(dealt_deck(1).to_multiset())
}

/// No id is dealt twice, within a player or across the two players.
pub proof fn lemma_dealt_cards_distinct()
    ensures
        forall|c: CardId| #[trigger] dealt_cards().count(c) <= 1,
{
    broadcast use vstd::seq_lib::group_to_multiset_ensures;

    let d = dealt_deck(0) + dealt_deck(1);
    assert(d.no_duplicates()) by {
        assert forall|i: int, j: int| 0 <= i < d.len() && 0 <= j < d.len() && i != j implies d[i]
            != d[j] by {
            assert(d[i].0 == i && d[j].0 == j);
        }
    }
    d.lemma_multiset_has_no_duplicates();
    vstd::seq_lib::lemma_multiset_commutative(dealt_deck(0), dealt_deck(1));
}

/// The abstract state of a match.
pub struct GameModel {
    pub players: Seq<PlayerModel>,
    pub active_player: nat,
    pub phase: Phase,
    pub turn: nat,
}

impl GameModel {
    /// There are two players and the active one is one of them.
    pub open spec fn wf(self) -> bool {
        self.players.len() == 2 && self.active_player < 2
    }

    pub open spec fn active(self) -> PlayerModel {
        self.players[self.active_player as int]
    }

    /// A match about to start: each player holds their dealt deck and nothing
    /// else, player 0 is active, in the stand phase of turn 0.
    pub open spec fn is_match_start(self) -> bool {
        &&& self.wf()
        &&& self.active_player == 0
        &&& self.phase == Phase::Stand
        &&& self.turn == 0
        &&& forall|p: int|
            0 <= p < 2 ==> {
                &&& (#[trigger] self.players[p]).deck == dealt_deck(p)
                &&& self.players[p].hand.len() == 0
                &&& self.players[p].waiting_room.len() == 0
                &&& self.players[p].clock.len() == 0
                &&& self.players[p].level.len() == 0
                &&& self.players[p].hand_limit == DEFAULT_HAND_LIMIT
                &&& self.players[p].refresh_point == 0
            }
    }

    /// Every card of the match, over both players.
    pub open spec fn all_cards(self) -> Multiset<CardId> {
        self.players[0].cards().add(self.players[1].cards())
    }

    /// The same match with player `p` replaced by `m`.
    pub open spec fn with_player(self, p: int, m: PlayerModel) -> GameModel {
        GameModel { players: self.players.update(p, m), ..self }
    }

    /// The same match in phase `phase`.
    pub open spec fn in_phase(self, phase: Phase) -> GameModel {
        GameModel { phase, ..self }
    }

    /// The turn passes to the other player; the turn counter counts a new
    /// round when play returns to player 0.
    pub open spec fn switched(self) -> GameModel {
        GameModel {
            active_player: if self.active_player == 0 { 1nat } else { 0nat },
            turn: if self.active_player == 0 { self.turn } else { self.turn + 1 },
            ..self
        }
    }
}

/// Two full switches of the turn bring play back to the same player and
/// count exactly one more round.
pub proof fn lemma_round_counts_one_turn(g: GameModel)
    requires
        g.wf(),
    ensures
        g.switched().active_player != g.active_player,
        g.switched().switched().active_player == g.active_player,
        g.switched().switched().turn == g.turn + 1,
        g.switched().switched().players == g.players,
{
}

/// Holds all of the game state used by the rules engine: the two players,
/// whose turn it is and which phase it is in.
#[derive(Debug)]
pub struct GameState {
    pub players: [PlayerState; 2],
    pub active_player: usize,
    pub phase: Phase,
    pub turn: usize,
}

impl View for GameState {
    type V = GameModel;

    open spec fn view(&self) -> GameModel {
        GameModel {
            players: seq![self.players@[0]@, self.players@[1]@],
            active_player: self.active_player as nat,
            phase: self.phase,
            turn: self.turn as nat,
        }
    }
}

impl GameState {
    /// A match about to start, with `DECK_SIZE` cards of its own in each
    /// player's deck.
    pub fn new() -> (r: Self)
        ensures
            r@.is_match_start(),
    {
        let mut first = PlayerState::new();
        let mut second = PlayerState::new();
        let mut id: usize = 0;
        while id < DECK_SIZE
            invariant
                id <= DECK_SIZE,
                first.deck@ == dealt_deck(0).take(id as int),
                second.deck@ == dealt_deck(1).take(id as int),
                first.hand@.len() == 0 && second.hand@.len() == 0,
                first.waiting_room@.len() == 0 && second.waiting_room@.len() == 0,
                first.clock@.len() == 0 && second.clock@.len() == 0,
                first.level@.len() == 0 && second.level@.len() == 0,
                first.base_hand_limit == DEFAULT_HAND_LIMIT,
                second.base_hand_limit == DEFAULT_HAND_LIMIT,
                first.refresh_point == 0 && second.refresh_point == 0,
            decreases DECK_SIZE - id,
        {
            first.deck.put_on_top(CardId(id));
            second.deck.put_on_top(CardId(DECK_SIZE + id));
            id += 1;
            assert(first.deck@ =~= dealt_deck(0).take(id as int));
            assert(second.deck@ =~= dealt_deck(1).take(id as int));
        }
        assert(dealt_deck(0).take(DECK_SIZE as int) =~= dealt_deck(0));
        assert(dealt_deck(1).take(DECK_SIZE as int) =~= dealt_deck(1));
        Self { players: [first, second], active_player: 0, phase: Phase::Stand, turn: 0 }
    }

    /// The index of the active player.
    pub fn active_player(&self) -> (r: usize)
        ensures
            r == self.active_player,
    {
        self.active_player
    }

    /// The index of the player who is not active.
    pub fn non_active_player(&self) -> (r: usize)
        requires
            self@.wf(),
        ensures
            r < 2,
            r != self.active_player,
    {
        if self.active_player == 0 {
            1
        } else {
            0
        }
    }
}

} // verus!
