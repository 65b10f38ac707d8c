use vstd::multiset::Multiset;
use vstd::prelude::*;

use crate::data::CardId;
use crate::state::zone_state::{first_index, is_first_index, lemma_first_index_exists, ZoneState};

verus! {

broadcast use {vstd::seq_lib::group_to_multiset_ensures, vstd::multiset::group_multiset_axioms};

/// The max size a player's clock can be before triggering a level-up interrupt process.
pub const MAX_CLOCK_SIZE: usize = 6;

/// How many cards from the bottom of the clock one level-up consumes.
pub const LEVEL_UP_SIZE: usize = 7;

/// The hand limit a player starts with.
pub const DEFAULT_HAND_LIMIT: usize = 7;

/// The abstract state of one player: the contents of the five zones, bottom
/// first, and the two counters.
pub struct PlayerModel {
    pub deck: Seq<CardId>,
    pub hand: Seq<CardId>,
    pub waiting_room: Seq<CardId>,
    pub clock: Seq<CardId>,
    pub level: Seq<CardId>,
    pub hand_limit: nat,
    pub refresh_point: nat,
}

impl PlayerModel {
    /// Every card the player owns, wherever it lies.
    pub open spec fn cards(self) -> Multiset<CardId> {
        self.deck.to_multiset().add(self.hand.to_multiset()).add(
            self.waiting_room.to_multiset(),
        ).add(self.clock.to_multiset()).add(self.level.to_multiset())
    }

    pub open spec fn exceeds_hand_limit(self) -> bool {
        self.hand.len() > self.hand_limit
    }

    pub open spec fn needs_to_level(self) -> bool {
        self.clock.len() > MAX_CLOCK_SIZE
    }

    pub open spec fn needs_to_refresh(self) -> bool {
        self.deck.len() == 0
    }

    /// The top card of the deck moves to the top of the hand.
    pub open spec fn drawn(self) -> PlayerModel {
        PlayerModel { deck: self.deck.drop_last(), hand: self.hand.push(self.deck.last()), ..self }
    }

    /// `card` leaves the hand (its first occurrence) for the top of the waiting room.
    pub open spec fn discarded(self, card: CardId) -> PlayerModel {
        PlayerModel {
            hand: self.hand.remove(first_index(self.hand, card)),
            waiting_room: self.waiting_room.push(card),
            ..self
        }
    }

    /// `card` leaves the hand (its first occurrence) for the top of the clock.
    pub open spec fn clocked(self, card: CardId) -> PlayerModel {
        PlayerModel {
            hand: self.hand.remove(first_index(self.hand, card)),
            clock: self.clock.push(card),
            ..self
        }
    }

    /// The cards that one level-up consumes.
    pub open spec fn bottom_clock(self) -> Seq<CardId> {
        self.clock.take(LEVEL_UP_SIZE as int)
    }

    /// A level-up with `card` is allowed.
    pub open spec fn can_level_with(self, card: CardId) -> bool {
        self.needs_to_level() && self.bottom_clock().contains(card)
    }

    /// The cards that a level-up with `card` sends to the waiting room, in
    /// their order in the clock.
    pub open spec fn sent_on_level_up(self, card: CardId) -> Seq<CardId> {
        self.bottom_clock().remove(first_index(self.bottom_clock(), card))
    }

    /// The bottom of the clock is consumed: `card` goes to the level zone, the
    /// others to the waiting room.
    pub open spec fn leveled_up(self, card: CardId) -> PlayerModel {
        PlayerModel {
            clock: self.clock.skip(LEVEL_UP_SIZE as int),
            waiting_room: self.waiting_room + self.sent_on_level_up(card),
            level: self.level.push(card),
            ..self
        }
    }

    /// Successive level-ups that promote `picks[0]`, then `picks[1]`, and so on.
    pub open spec fn leveled_with(self, picks: Seq<CardId>) -> PlayerModel
        decreases picks.len(),
    {
        if picks.len() == 0 {
            self
        } else {
            self.leveled_with(picks.drop_last()).leveled_up(picks.last())
        }
    }

    /// Each level-up of `leveled_with(picks)` is allowed when its turn comes.
    pub open spec fn can_level_with_all(self, picks: Seq<CardId>) -> bool
        decreases picks.len(),
    {
        picks.len() == 0 || (self.can_level_with_all(picks.drop_last()) && self.leveled_with(
            picks.drop_last(),
        ).can_level_with(picks.last()))
    }

    /// `after` is what some run of allowed level-ups makes of this player.
    pub open spec fn levels_into(self, after: PlayerModel) -> bool {
        exists|picks: Seq<CardId>| #[trigger]
            self.can_level_with_all(picks) && after == self.leveled_with(picks)
    }

    /// `after` is what level-ups make of this player once no further level-up is due.
    pub open spec fn settles_into(self, after: PlayerModel) -> bool {
        self.levels_into(after) && !after.needs_to_level()
    }
}

/// Drawing keeps every card of the player.
pub proof fn lemma_drawn_keeps_cards(p: PlayerModel)
    requires
        p.deck.len() > 0,
    ensures
        p.drawn().cards() == p.cards(),
{
    assert(p.deck =~= p.deck.drop_last().push(p.deck.last()));
    assert(p.drawn().cards() =~= p.cards());
}

/// Moving a card of the hand to the top of another zone keeps every card of the player.
pub proof fn lemma_hand_moves_keep_cards(p: PlayerModel, card: CardId)
    requires
        is_first_index(p.hand, card, first_index(p.hand, card)),
    ensures
        p.discarded(card).cards() == p.cards(),
        p.clocked(card).cards() == p.cards(),
{
    vstd::seq_lib::to_multiset_remove(p.hand, first_index(p.hand, card));
    assert(p.discarded(card).cards() =~= p.cards());
    assert(p.clocked(card).cards() =~= p.cards());
}

/// A level-up keeps every card of the player.
pub proof fn lemma_leveled_up_keeps_cards(p: PlayerModel, card: CardId)
    requires
        p.can_level_with(card),
    ensures
        is_first_index(p.bottom_clock(), card, first_index(p.bottom_clock(), card)),
        p.leveled_up(card).cards() == p.cards(),
        p.leveled_up(card).clock.len() == p.clock.len() - LEVEL_UP_SIZE,
        p.leveled_up(card).waiting_room.len() == p.waiting_room.len() + MAX_CLOCK_SIZE,
        p.leveled_up(card).level.len() == p.level.len() + 1,
{
    let b = p.bottom_clock();
    lemma_first_index_exists(b, card);
    let i = first_index(b, card);
    assert(p.clock =~= b + p.clock.skip(LEVEL_UP_SIZE as int));
    vstd::seq_lib::lemma_multiset_commutative(b, p.clock.skip(LEVEL_UP_SIZE as int));
    vstd::seq_lib::lemma_multiset_commutative(p.waiting_room, p.sent_on_level_up(card));
    vstd::seq_lib::to_multiset_remove(b, i);
    assert(p.leveled_up(card).cards() =~= p.cards());
}

/// A run of `k` level-ups keeps every card of the player, takes `k` times
/// `LEVEL_UP_SIZE` cards from the bottom of the clock, adds `k` cards to the
/// level zone and `k` times `MAX_CLOCK_SIZE` cards on top of the waiting room.
pub proof fn lemma_leveled_with(p: PlayerModel, picks: Seq<CardId>)
    requires
        p.can_level_with_all(picks),
    ensures
        p.clock.len() >= LEVEL_UP_SIZE * picks.len(),
        p.leveled_with(picks).cards() == p.cards(),
        p.leveled_with(picks).deck == p.deck,
        p.leveled_with(picks).hand == p.hand,
        p.leveled_with(picks).hand_limit == p.hand_limit,
        p.leveled_with(picks).refresh_point == p.refresh_point,
        p.leveled_with(picks).clock == p.clock.skip(LEVEL_UP_SIZE * picks.len()),
        p.leveled_with(picks).level.len() == p.level.len() + picks.len(),
        p.leveled_with(picks).waiting_room.len() == p.waiting_room.len() + MAX_CLOCK_SIZE
            * picks.len(),
        p.leveled_with(picks).waiting_room.take(p.waiting_room.len() as int) == p.waiting_room,
    decreases picks.len(),
{
    if picks.len() > 0 {
        let prev = picks.drop_last();
        lemma_leveled_with(p, prev);
        let q = p.leveled_with(prev);
        lemma_leveled_up_keeps_cards(q, picks.last());
        assert(q.leveled_up(picks.last()).clock =~= p.clock.skip(LEVEL_UP_SIZE * picks.len()));
        assert(q.leveled_up(picks.last()).waiting_room.take(p.waiting_room.len() as int)
            =~= p.waiting_room);
    }
}

/// One more allowed level-up extends a run of level-ups.
pub proof fn lemma_level_once_more(p: PlayerModel, picks: Seq<CardId>, card: CardId)
    requires
        p.can_level_with_all(picks),
        p.leveled_with(picks).can_level_with(card),
    ensures
        p.can_level_with_all(picks.push(card)),
        p.leveled_with(picks.push(card)) == p.leveled_with(picks).leveled_up(card),
{
    assert(picks.push(card).drop_last() =~= picks);
}

/// Once no further level-up is due, the number of level-ups that ran is the
/// number of whole runs of `LEVEL_UP_SIZE` cards the clock held.
pub proof fn lemma_settled_count(p: PlayerModel, picks: Seq<CardId>)
    requires
        p.can_level_with_all(picks),
        !p.leveled_with(picks).needs_to_level(),
    ensures
        picks.len() == p.clock.len() as int / LEVEL_UP_SIZE as int,
{
    lemma_leveled_with(p, picks);
    let k = picks.len() as int;
    let n = p.clock.len() as int;
    assert(7 * k <= n < 7 * k + 7);
    assert(n / 7 == k) by (nonlinear_arith)
        requires
            7 * k <= n < 7 * k + 7,
            0 <= k,
    ;
}

/// Contains the state of a given player, including where all of their cards
/// are currently located.
#[derive(Debug)]
pub struct PlayerState {
    pub deck: ZoneState,
    pub hand: ZoneState,
    pub waiting_room: ZoneState,
    pub clock: ZoneState,
    pub level: ZoneState,
    pub base_hand_limit: usize,
    pub refresh_point: usize,
}

impl View for PlayerState {
    type V = PlayerModel;

    open spec fn view(&self) -> PlayerModel {
        PlayerModel {
            deck: self.deck@,
            hand: self.hand@,
            waiting_room: self.waiting_room@,
            clock: self.clock@,
            level: self.level@,
            hand_limit: self.base_hand_limit as nat,
            refresh_point: self.refresh_point as nat,
        }
    }
}

/// The deck is empty.
#[derive(Debug, Copy, Clone, Eq, PartialEq)]
pub struct DeckEmpty;

/// The deck still holds cards.
#[derive(Debug, Copy, Clone, Eq, PartialEq)]
pub struct DeckNotEmpty;

/// The kinds of errors attempting to discard a card can create.
#[derive(Debug, Copy, Clone, Eq, PartialEq)]
pub enum DiscardError {
    EmptyHand,
    InvalidCard,
}

/// The kinds of errors attempting to level up can create.
#[derive(Debug, Copy, Clone, Eq, PartialEq)]
pub enum LevelUpError {
    CannotLevel,
    InvalidCard,
}

/// What one level-up did: the card put into the level zone, and the cards
/// sent to the waiting room, in their order in the clock.
#[derive(Debug, Clone, Eq, PartialEq)]
pub struct LevelUpResult {
    pub leveled_card: CardId,
    pub sent_to_waiting_room: Vec<CardId>,
}

impl Default for PlayerState {
    fn default() -> (r: Self)
        ensures
            r@.deck.len() == 0,
            r@.hand.len() == 0,
            r@.waiting_room.len() == 0,
            r@.clock.len() == 0,
            r@.level.len() == 0,
            r@.hand_limit == DEFAULT_HAND_LIMIT,
            r@.refresh_point == 0,
    {
        Self {
            deck: ZoneState::new(),
            hand: ZoneState::new(),
            waiting_room: ZoneState::new(),
            clock: ZoneState::new(),
            level: ZoneState::new(),
            base_hand_limit: DEFAULT_HAND_LIMIT,
            refresh_point: 0,
        }
    }
}

impl PlayerState {
    /// A player with five empty zones, the default hand limit and no refresh yet.
    pub fn new() -> (r: Self)
        ensures
            r@.deck.len() == 0,
            r@.hand.len() == 0,
            r@.waiting_room.len() == 0,
            r@.clock.len() == 0,
            r@.level.len() == 0,
            r@.hand_limit == DEFAULT_HAND_LIMIT,
            r@.refresh_point == 0,
    {
        Self::default()
    }

    /// Draws the top card of the deck into the hand and returns it; fails,
    /// changing nothing, when the deck is empty.
    pub fn draw_card(&mut self) -> (r: Result<CardId, DeckEmpty>)
        ensures
            old(self)@.deck.len() == 0 ==> r == Err::<CardId, DeckEmpty>(DeckEmpty)
                && final(self)@ == old(self)@,
            old(self)@.deck.len() > 0 ==> r == Ok::<CardId, DeckEmpty>(old(self)@.deck.last())
                && final(self)@ == old(self)@.drawn(),
            final(self)@.cards() == old(self)@.cards(),
    {
        match self.deck.take_top() {
            None => Err(DeckEmpty),
            Some(card) => {
                self.hand.put_on_top(card);
                proof {
                    lemma_drawn_keeps_cards(old(self)@);
                }
                Ok(card)
            },
        }
    }

    /// Moves `card` from the hand to the waiting room and returns it. An empty
    /// hand fails with `EmptyHand` before any lookup; a card not in the hand
    /// fails with `InvalidCard`. Nothing changes on failure.
    pub fn discard_card(&mut self, card: CardId) -> (r: Result<CardId, DiscardError>)
        ensures
            old(self)@.hand.len() == 0 ==> r == Err::<CardId, DiscardError>(
                DiscardError::EmptyHand,
            ),
            old(self)@.hand.len() > 0 && !old(self)@.hand.contains(card) ==> r == Err::<
                CardId,
                DiscardError,
            >(DiscardError::InvalidCard),
            r is Err ==> final(self)@ == old(self)@,
            old(self)@.hand.contains(card) ==> {
                &&& r == Ok::<CardId, DiscardError>(card)
                &&& is_first_index(old(self)@.hand, card, first_index(old(self)@.hand, card))
                &&& final(self)@ == old(self)@.discarded(card)
            },
            final(self)@.cards() == old(self)@.cards(),
    {
        if self.hand.content.len() == 0 {
            return Err(DiscardError::EmptyHand);
        }
        match self.hand.take_card_id(card) {
            None => Err(DiscardError::InvalidCard),
            Some(taken) => {
                self.waiting_room.put_on_top(taken);
                proof {
                    lemma_hand_moves_keep_cards(old(self)@, card);
                }
                Ok(taken)
            },
        }
    }

    /// The hand holds more cards than the hand limit.
    pub fn exceeding_handlimit(&self) -> (r: bool)
        ensures
            r == self@.exceeds_hand_limit(),
    {
        self.hand.content.len() > self.base_hand_limit
    }

    /// The clock holds more than `MAX_CLOCK_SIZE` cards, so a level-up is due.
    pub fn needs_to_level(&self) -> (r: bool)
        ensures
            r == self@.needs_to_level(),
    {
        self.clock.content.len() > MAX_CLOCK_SIZE
    }

    /// The deck is empty, so a refresh is due.
    pub fn needs_to_refresh(&self) -> (r: bool)
        ensures
            r == self@.needs_to_refresh(),
    {
        self.deck.content.len() == 0
    }

    /// A copy of the bottom `LEVEL_UP_SIZE` cards of the clock, bottom first.
    pub fn bottom_clock(&self) -> (r: Vec<CardId>)
        requires
            self@.needs_to_level(),
        ensures
            r@ == self@.bottom_clock(),
    {
        let mut bottom: Vec<CardId> = Vec::new();
        let mut i: usize = 0;
        while i < LEVEL_UP_SIZE
            invariant
                i <= LEVEL_UP_SIZE <= self.clock@.len(),
                bottom@ == self.clock@.take(i as int),
            decreases LEVEL_UP_SIZE - i,
        {
            bottom.push(self.clock.content[i]);
            i += 1;
            assert(bottom@ =~= self.clock@.take(i as int));
        }
        bottom
    }

    /// Levels up with `level_up_card`, which must lie among the bottom
    /// `LEVEL_UP_SIZE` cards of the clock: it goes to the level zone and the
    /// other cards of the bottom go to the waiting room, in their order.
    /// Fails with `CannotLevel` when no level-up is due, and with
    /// `InvalidCard` when the card is not at the bottom of the clock; nothing
    /// changes on failure.
    pub fn level_up_with(&mut self, level_up_card: CardId) -> (r: Result<
        LevelUpResult,
        LevelUpError,
    >)
        ensures
            !old(self)@.needs_to_level() ==> r == Err::<LevelUpResult, LevelUpError>(
                LevelUpError::CannotLevel,
            ),
            old(self)@.needs_to_level() && !old(self)@.bottom_clock().contains(level_up_card)
                ==> r == Err::<LevelUpResult, LevelUpError>(LevelUpError::InvalidCard),
            r is Err ==> final(self)@ == old(self)@,
            old(self)@.can_level_with(level_up_card) ==> {
                &&& r matches Ok(res) && res.leveled_card == level_up_card
                    && res.sent_to_waiting_room@ == old(self)@.sent_on_level_up(level_up_card)
                &&& final(self)@ == old(self)@.leveled_up(level_up_card)
                &&& final(self)@.clock.len() == old(self)@.clock.len() - LEVEL_UP_SIZE
                &&& final(self)@.waiting_room.len() == old(self)@.waiting_room.len()
                    + MAX_CLOCK_SIZE
                &&& final(self)@.level.len() == old(self)@.level.len() + 1
            },
            final(self)@.cards() == old(self)@.cards(),
    {
        if !self.needs_to_level() {
            return Err(LevelUpError::CannotLevel);
        }
        // Stage the bottom of the clock without touching the clock itself.
        let mut staged = ZoneState::with_content(self.bottom_clock());
        if staged.take_card_id(level_up_card).is_none() {
            return Err(LevelUpError::InvalidCard);
        }
        // Commit: the bottom leaves the clock, then each card reaches its zone.
        let mut k: usize = 0;
        while k < LEVEL_UP_SIZE
            invariant
                k <= LEVEL_UP_SIZE,
                self.clock@ == old(self)@.clock.skip(k as int),
                old(self)@.clock.len() >= LEVEL_UP_SIZE,
                self.deck@ == old(self)@.deck,
                self.hand@ == old(self)@.hand,
                self.waiting_room@ == old(self)@.waiting_room,
                self.level@ == old(self)@.level,
                self.base_hand_limit == old(self).base_hand_limit,
                self.refresh_point == old(self).refresh_point,
            decreases LEVEL_UP_SIZE - k,
        {
            self.clock.take_bottom();
            k += 1;
            assert(self.clock@ =~= old(self)@.clock.skip(k as int));
        }
        let mut j: usize = 0;
        while j < staged.content.len()
            invariant
                j <= staged@.len(),
                staged@ == old(self)@.sent_on_level_up(level_up_card),
                self.waiting_room@ == old(self)@.waiting_room + staged@.take(j as int),
                self.clock@ == old(self)@.clock.skip(LEVEL_UP_SIZE as int),
                self.deck@ == old(self)@.deck,
                self.hand@ == old(self)@.hand,
                self.level@ == old(self)@.level,
                self.base_hand_limit == old(self).base_hand_limit,
                self.refresh_point == old(self).refresh_point,
            decreases staged@.len() - j,
        {
            self.waiting_room.put_on_top(staged.content[j]);
            j += 1;
            assert(self.waiting_room@ =~= old(self)@.waiting_room + staged@.take(j as int));
        }
        assert(staged@.take(staged@.len() as int) =~= staged@);
        self.level.put_on_top(level_up_card);
        proof {
            lemma_leveled_up_keeps_cards(old(self)@, level_up_card);
        }
        Ok(LevelUpResult { leveled_card: level_up_card, sent_to_waiting_room: staged.content })
    }

    /// Turns the waiting room into the new deck, shuffles it, and counts one
    /// more refresh. Fails with `DeckNotEmpty`, changing nothing, while the
    /// deck still holds cards. The `bool` carried on success is reserved and
    /// is always `false`.
    pub fn refresh(&mut self) -> (r: Result<bool, DeckNotEmpty>)
        requires
            old(self)@.needs_to_refresh() ==> old(self).refresh_point < usize::MAX,
        ensures
            !old(self)@.needs_to_refresh() ==> r == Err::<bool, DeckNotEmpty>(DeckNotEmpty)
                && final(self)@ == old(self)@,
            old(self)@.needs_to_refresh() ==> {
                &&& r == Ok::<bool, DeckNotEmpty>(false)
                &&& final(self)@.deck.len() == old(self)@.waiting_room.len()
                &&& final(self)@.deck.to_multiset() == old(self)@.waiting_room.to_multiset()
                &&& final(self)@.waiting_room.len() == 0
                &&& final(self)@.refresh_point == old(self)@.refresh_point + 1
                &&& final(self)@.hand == old(self)@.hand
                &&& final(self)@.clock == old(self)@.clock
                &&& final(self)@.level == old(self)@.level
                &&& final(self)@.hand_limit == old(self)@.hand_limit
            },
            final(self)@.cards() == old(self)@.cards(),
    {
        if !self.needs_to_refresh() {
            return Err(DeckNotEmpty);
        }
        std::mem::swap(&mut self.deck, &mut self.waiting_room);
        self.refresh_point += 1;
        self.deck.shuffle();
        assert(final(self)@.cards() =~= old(self)@.cards());
        Ok(false)
    }
}

} // verus!
