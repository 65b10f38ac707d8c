use vstd::multiset::Multiset;
use vstd::prelude::*;

pub mod io;

use crate::data::{CardId, Phase};
use crate::state::game_state::{
    dealt_cards, dealt_deck, lemma_dealt_cards_distinct, GameModel, GameState,
};
use crate::state::zone_state::lemma_first_index_exists;
use crate::state::player_state::{
    lemma_drawn_keeps_cards, lemma_hand_moves_keep_cards, lemma_level_once_more,
    lemma_leveled_with, lemma_settled_count, PlayerModel, PlayerState, LEVEL_UP_SIZE,
    MAX_CLOCK_SIZE,
};
use io::{
    added, extends, has_bad_answer, is_bad_answer, lemma_added_chain, lemma_events_concat,
    lemma_extends_split,
    only_discard_events, only_level_up_events, ChoiceContext, Event, Input, RulesEngineIO,
};

verus! {

/// Why a turn was abandoned part-way. Both are conditions on which the
/// engine cannot go on; it reports them to its caller instead of aborting the
/// process, and the caller decides (a terminal front end aborts).
#[derive(Debug, Copy, Clone, Eq, PartialEq)]
pub enum TurnError {
    /// A draw the rules demand found the deck empty. Whether running out of
    /// cards should end the match instead is an open rules question; for now
    /// it ends the turn as a failure.
    DeckEmpty,
    /// The client answered a choice with an index outside its options, which
    /// breaks the client's side of the `Input` contract.
    InvalidChoice,
}

/// The match goes on in the same phase of the same turn of the same player.
pub open spec fn same_turn(before: GameModel, after: GameModel) -> bool {
    &&& after.active_player == before.active_player
    &&& after.phase == before.phase
    &&& after.turn == before.turn
}

/// Every player still owns exactly the cards they owned.
pub open spec fn keeps_cards(before: GameModel, after: GameModel) -> bool {
    &&& after.wf()
    &&& after.players[0].cards() == before.players[0].cards()
    &&& after.players[1].cards() == before.players[1].cards()
}

/// Card conservation: in every state that keeps the cards of the start of a
/// match, each player owns exactly the cards dealt to them, and no card lies
/// in two places, within a player or across the two players.
pub proof fn lemma_card_conservation(start: GameModel, now: GameModel)
    requires
        start.is_match_start(),
        keeps_cards(start, now),
    ensures
        forall|p: int|
            0 <= p < 2 ==> #[trigger] now.players[p].cards() == dealt_deck(p).to_multiset(),
        now.all_cards() == dealt_cards(),
        forall|c: CardId| #[trigger] now.all_cards().count(c) <= 1,
{
    broadcast use {vstd::seq_lib::group_to_multiset_ensures, vstd::multiset::group_multiset_axioms};

    lemma_dealt_cards_distinct();
    assert forall|p: int| 0 <= p < 2 implies #[trigger] start.players[p].cards()
        == dealt_deck(p).to_multiset() by {
        let m = start.players[p];
        assert(m.deck == dealt_deck(p));
        assert(m.hand.to_multiset() =~= Multiset::empty());
        assert(m.waiting_room.to_multiset() =~= Multiset::empty());
        assert(m.clock.to_multiset() =~= Multiset::empty());
        assert(m.level.to_multiset() =~= Multiset::empty());
        assert(m.cards() =~= dealt_deck(p).to_multiset());
    }
    assert(now.players[0].cards() == start.players[0].cards());
    assert(now.players[1].cards() == start.players[1].cards());
}

/// `after` is `before` with player `p` having drawn a card; or, with
/// `DeckEmpty`, `before` itself when that player's deck is empty.
pub open spec fn drew(before: GameModel, p: int, after: GameModel, r: Result<(), TurnError>) -> bool {
    if before.players[p].deck.len() > 0 {
        r == Ok::<(), TurnError>(()) && after == before.with_player(p, before.players[p].drawn())
    } else {
        r == Err::<(), TurnError>(TurnError::DeckEmpty) && after == before
    }
}

/// Every player of `after` is what some run of allowed level-ups made of
/// that player in `before`.
pub open spec fn partly_settled(before: GameModel, after: GameModel) -> bool {
    &&& same_turn(before, after)
    &&& after.wf()
    &&& before.players[0].levels_into(after.players[0])
    &&& before.players[1].levels_into(after.players[1])
}

/// `after` is `before` once the interrupt-type rules have run to completion:
/// each player has leveled up until no further level-up is due.
pub open spec fn settled(before: GameModel, after: GameModel) -> bool {
    &&& same_turn(before, after)
    &&& after.wf()
    &&& before.players[0].settles_into(after.players[0])
    &&& before.players[1].settles_into(after.players[1])
}

/// `after` is `before` once player `p` has put `card` from their hand into
/// their clock, the interrupt-type rules have run to completion, and `p` has
/// drawn two cards.
pub open spec fn clocked_and_drew_two(
    before: GameModel,
    p: int,
    card: CardId,
    after: GameModel,
) -> bool {
    exists|mid: GameModel| #[trigger]
        settled(before.with_player(p, before.players[p].clocked(card)), mid)
            && mid.players[p].deck.len() >= 2 && after == mid.with_player(
            p,
            mid.players[p].drawn().drawn(),
        )
}

/// What the clock phase makes of `before`: the active player either declines,
/// leaving it as it is, or clocks one card of their hand and draws two.
pub open spec fn clock_phase_done(before: GameModel, after: GameModel) -> bool {
    ||| after == before
    ||| exists|i: int|
        0 <= i < before.active().hand.len() && #[trigger] clocked_and_drew_two(
            before,
            before.active_player as int,
            before.active().hand[i],
            after,
        )
}

/// `after` is `before` once player `p` has discarded, one card at a time,
/// down to their hand limit. The discarded cards go on top of the waiting
/// room; nothing else changes.
pub open spec fn discarded_to_limit(before: GameModel, p: int, after: GameModel) -> bool {
    let b = before.players[p];
    let a = after.players[p];
    &&& same_turn(before, after)
    &&& after.wf()
    &&& after.players[1 - p] == before.players[1 - p]
    &&& !b.exceeds_hand_limit() ==> a == b
    &&& a.hand.len() == if b.exceeds_hand_limit() {
        b.hand_limit as int
    } else {
        b.hand.len() as int
    }
    &&& a.waiting_room.len() == b.waiting_room.len() + (b.hand.len() - a.hand.len())
    &&& a.waiting_room.take(b.waiting_room.len() as int) == b.waiting_room
    &&& a.deck == b.deck
    &&& a.clock == b.clock
    &&& a.level == b.level
    &&& a.hand_limit == b.hand_limit
    &&& a.refresh_point == b.refresh_point
    &&& a.cards() == b.cards()
}

/// What the end phase makes of `before`: the active player discards down to
/// their hand limit, then the turn passes to the other player.
pub open spec fn ended(before: GameModel, after: GameModel) -> bool {
    exists|g: GameModel| #[trigger]
        discarded_to_limit(before.in_phase(Phase::End), before.active_player as int, g)
            && after == g.switched()
}

/// `after` is `before` once its active player has played a whole turn:
/// the draw, the clock phase and the end phase.
pub open spec fn turn_played(before: GameModel, after: GameModel) -> bool {
    let a = before.active_player as int;
    let drawn = before.in_phase(Phase::Draw).with_player(a, before.active().drawn());
    &&& before.active().deck.len() > 0
    &&& exists|clocked: GameModel| #[trigger]
        clock_phase_done(drawn.in_phase(Phase::Clock), clocked) && ended(clocked, after)
}

/// What a level-up pick `pick` of player `p` leads to: with a pick among the
/// bottom `LEVEL_UP_SIZE` clock cards, the level-up with that card and its
/// announcement; otherwise `InvalidChoice`, with nothing changed.
pub open spec fn level_picked(
    before: GameModel,
    log: Seq<Event>,
    p: int,
    pick: int,
    after: GameModel,
    after_log: Seq<Event>,
    r: Result<(), TurnError>,
) -> bool {
    let m = before.players[p];
    if 0 <= pick < LEVEL_UP_SIZE {
        let card = m.bottom_clock()[pick];
        &&& r == Ok::<(), TurnError>(())
        &&& after == before.with_player(p, m.leveled_up(card))
        &&& after_log == log.push(Event::LevelUp(card, m.sent_on_level_up(card), p as nat))
    } else {
        r == Err::<(), TurnError>(TurnError::InvalidChoice) && after == before && after_log == log
    }
}

/// What a hand-limit pick `pick` of player `p` leads to: with a pick in the
/// hand, the discard of that card and its announcement; otherwise
/// `InvalidChoice`, with nothing changed.
pub open spec fn discard_picked(
    before: GameModel,
    log: Seq<Event>,
    p: int,
    pick: int,
    after: GameModel,
    after_log: Seq<Event>,
    r: Result<(), TurnError>,
) -> bool {
    let m = before.players[p];
    if 0 <= pick < m.hand.len() {
        let card = m.hand[pick];
        &&& r == Ok::<(), TurnError>(())
        &&& after == before.with_player(p, m.discarded(card))
        &&& after_log == log.push(Event::Discard(card, p as nat))
    } else {
        r == Err::<(), TurnError>(TurnError::InvalidChoice) && after == before && after_log == log
    }
}

/// What clocking `card` from the hand of player `p` does: see `Rules::clock_card`.
pub open spec fn clock_card_done(
    before: GameModel,
    log: Seq<Event>,
    p: int,
    card: CardId,
    after: GameModel,
    after_log: Seq<Event>,
    r: Result<(), TurnError>,
) -> bool {
    let b = before.players[p];
    let x = added(log, after_log);
    &&& extends(log, after_log)
    &&& keeps_cards(before, after)
    &&& same_turn(before, after)
    &&& (r == Err::<(), TurnError>(TurnError::InvalidChoice) <==> has_bad_answer(x))
    &&& (r == Err::<(), TurnError>(TurnError::InvalidChoice) ==> b.clock.len() >= MAX_CLOCK_SIZE
        || before.players[1 - p].needs_to_level())
    &&& (r == Err::<(), TurnError>(TurnError::DeckEmpty) ==> b.deck.len() < 2)
    &&& (b.deck.len() < 2 ==> r is Err)
    &&& (r is Ok ==> clocked_and_drew_two(before, p, card, after))
    &&& (r is Ok ==> {
        &&& x.len() >= 3
        &&& only_level_up_events(x.take(x.len() - 3))
        &&& x.skip(x.len() - 3) == seq![
            Event::Clock(card, p as nat),
            Event::Draw(b.deck.last(), p as nat),
            Event::Draw(b.deck.drop_last().last(), p as nat),
        ]
    })
    &&& (r is Ok && b.clock.len() < MAX_CLOCK_SIZE ==> {
        let a = after.players[p];
        &&& a.hand.len() == b.hand.len() - 1 + 2
        &&& a.clock == b.clock.push(card)
        &&& a.deck.len() == b.deck.len() - 2
        &&& a.waiting_room.len() == b.waiting_room.len()
        &&& a.level.len() == b.level.len()
    })
}

/// What the active player's answer `choice` in the clock phase leads to:
/// declining changes nothing; a pick in the hand clocks that card; a pick
/// outside the hand is `InvalidChoice`, with nothing changed.
pub open spec fn clock_chosen(
    before: GameModel,
    log: Seq<Event>,
    choice: Option<usize>,
    after: GameModel,
    after_log: Seq<Event>,
    r: Result<(), TurnError>,
) -> bool {
    match choice {
        None => r == Ok::<(), TurnError>(()) && after == before && after_log == log,
        Some(i) => if i < before.active().hand.len() {
            clock_card_done(
                before,
                log,
                before.active_player as int,
                before.active().hand[i as int],
                after,
                after_log,
                r,
            )
        } else {
            r == Err::<(), TurnError>(TurnError::InvalidChoice) && after == before && after_log
                == log
        },
    }
}

/// One level-up step, whatever was picked, adds only level-up events to the
/// log, and a bad answer exactly when it fails.
proof fn lemma_level_step(
    start_log: Seq<Event>,
    before_log: Seq<Event>,
    before: GameModel,
    p: int,
    pick: usize,
    after: GameModel,
    after_log: Seq<Event>,
    r: Result<(), TurnError>,
)
    requires
        before.wf(),
        0 <= p < 2,
        before.players[p].needs_to_level(),
        extends(start_log, before_log),
        only_level_up_events(added(start_log, before_log)),
        !has_bad_answer(added(start_log, before_log)),
        level_picked(
            before,
            before_log.push(
                Event::Asked(
                    before.players[p].bottom_clock(),
                    p as nat,
                    ChoiceContext::LevelUpProcess,
                    Some(pick),
                ),
            ),
            p,
            pick as int,
            after,
            after_log,
            r,
        ),
    ensures
        extends(start_log, after_log),
        only_level_up_events(added(start_log, after_log)),
        r is Err <==> has_bad_answer(added(start_log, after_log)),
{
    let m = before.players[p];
    let ask = Event::Asked(m.bottom_clock(), p as nat, ChoiceContext::LevelUpProcess, Some(pick));
    let x = added(before_log, after_log);
    assert(m.bottom_clock().len() == LEVEL_UP_SIZE);
    if pick < LEVEL_UP_SIZE {
        let card = m.bottom_clock()[pick as int];
        let lu = Event::LevelUp(card, m.sent_on_level_up(card), p as nat);
        assert(after_log.take(before_log.len() as int) =~= before_log);
        assert(x =~= seq![ask, lu]);
        assert(!is_bad_answer(x[0]) && !is_bad_answer(x[1]));
    } else {
        assert(after_log.take(before_log.len() as int) =~= before_log);
        assert(x =~= seq![ask]);
        assert(is_bad_answer(x[0]));
    }
    assert(only_level_up_events(x));
    lemma_added_chain(start_log, before_log, after_log);
    lemma_events_concat(added(start_log, before_log), x);
}

/// The level-ups due to a player: one per whole run of `LEVEL_UP_SIZE`
/// cards in their clock.
pub open spec fn due_level_ups(m: PlayerModel) -> nat {
    (m.clock.len() as int / LEVEL_UP_SIZE as int) as nat
}

/// One level-up step `(q, pick)`: player `q` levels up with the card at
/// index `pick` of the bottom of their clock.
pub open spec fn level_step(g: GameModel, step: (nat, usize)) -> GameModel {
    let m = g.players[step.0 as int];
    g.with_player(step.0 as int, m.leveled_up(m.bottom_clock()[step.1 as int]))
}

/// The level-up steps `steps`, one after the other.
pub open spec fn level_steps(g: GameModel, steps: Seq<(nat, usize)>) -> GameModel
    decreases steps.len(),
{
    if steps.len() == 0 {
        g
    } else {
        level_step(level_steps(g, steps.drop_last()), steps.last())
    }
}

/// The calls to the client of one level-up step: the pick asked for among the
/// bottom of the clock, then the level-up announced.
pub open spec fn level_step_events(g: GameModel, step: (nat, usize)) -> Seq<Event> {
    let m = g.players[step.0 as int];
    let card = m.bottom_clock()[step.1 as int];
    seq![
        Event::Asked(m.bottom_clock(), step.0, ChoiceContext::LevelUpProcess, Some(step.1)),
        Event::LevelUp(card, m.sent_on_level_up(card), step.0),
    ]
}

/// The calls to the client of the level-up steps `steps`, in order.
pub open spec fn level_steps_events(g: GameModel, steps: Seq<(nat, usize)>) -> Seq<Event>
    decreases steps.len(),
{
    if steps.len() == 0 {
        Seq::empty()
    } else {
        level_steps_events(g, steps.drop_last()) + level_step_events(
            level_steps(g, steps.drop_last()),
            steps.last(),
        )
    }
}

/// Which player levels up at each step of the first `j` passes of the
/// interrupt loop, when the active player `a` is due `ka` level-ups and the
/// other player `kb`: each pass levels up the active player, then the other,
/// each only while still due one.
pub open spec fn level_passes(a: nat, ka: nat, kb: nat, j: nat) -> Seq<nat>
    decreases j,
{
    if j == 0 {
        Seq::empty()
    } else {
        let i = (j - 1) as nat;
        level_passes(a, ka, kb, i) + (if i < ka {
            seq![a]
        } else {
            Seq::empty()
        }) + (if i < kb {
            seq![(1 - a) as nat]
        } else {
            Seq::empty()
        })
    }
}

/// Which player levels up at each step of the interrupt loop run on `g`.
pub open spec fn level_schedule(g: GameModel) -> Seq<nat> {
    let a = g.active_player;
    let ka = due_level_ups(g.players[a as int]);
    let kb = due_level_ups(g.players[1 - a]);
    level_passes(a, ka, kb, if ka < kb { kb } else { ka })
}

/// `after` and `after_log` are what the level-up steps `steps`, each with a
/// pick in range, make of `before` and `log`.
pub open spec fn level_run(
    before: GameModel,
    log: Seq<Event>,
    steps: Seq<(nat, usize)>,
    after: GameModel,
    after_log: Seq<Event>,
) -> bool {
    &&& forall|i: int| 0 <= i < steps.len() ==> #[trigger] steps[i].1 < LEVEL_UP_SIZE
    &&& after == level_steps(before, steps)
    &&& after_log == log + level_steps_events(before, steps)
}

/// `e` asks player `q` for a level-up pick among the bottom of their clock
/// in `g`, and the answer is out of range.
pub open spec fn bad_level_ask(g: GameModel, e: Event) -> bool {
    match e {
        Event::Asked(options, q, ChoiceContext::LevelUpProcess, Some(pick)) => {
            &&& q < 2
            &&& options == g.players[q as int].bottom_clock()
            &&& pick >= LEVEL_UP_SIZE
        },
        _ => false,
    }
}

/// Passes past the last due level-up add no step.
pub proof fn lemma_level_passes_stable(a: nat, ka: nat, kb: nat, j: nat)
    requires
        j >= ka,
        j >= kb,
    ensures
        level_passes(a, ka, kb, j) == level_passes(a, ka, kb, if ka < kb { kb } else { ka }),
    decreases j,
{
    let m = if ka < kb { kb } else { ka };
    if j > m {
        lemma_level_passes_stable(a, ka, kb, (j - 1) as nat);
        assert(level_passes(a, ka, kb, j) =~= level_passes(a, ka, kb, (j - 1) as nat));
    }
}

/// The first `j` passes hold one step per level-up due so far.
pub proof fn lemma_level_passes_len(a: nat, ka: nat, kb: nat, j: nat)
    ensures
        level_passes(a, ka, kb, j).len() == (if j < ka { j } else { ka }) + (if j < kb {
            j
        } else {
            kb
        }),
    decreases j,
{
    if j > 0 {
        lemma_level_passes_len(a, ka, kb, (j - 1) as nat);
    }
}

/// Each level-up step makes two calls to the client.
pub proof fn lemma_level_steps_events_len(g: GameModel, steps: Seq<(nat, usize)>)
    ensures
        level_steps_events(g, steps).len() == 2 * steps.len(),
    decreases steps.len(),
{
    if steps.len() > 0 {
        lemma_level_steps_events_len(g, steps.drop_last());
    }
}

/// One level-up step extends a run of them.
proof fn lemma_level_run_push(
    before: GameModel,
    log: Seq<Event>,
    steps: Seq<(nat, usize)>,
    step: (nat, usize),
)
    requires
        step.1 < LEVEL_UP_SIZE,
        forall|i: int| 0 <= i < steps.len() ==> #[trigger] steps[i].1 < LEVEL_UP_SIZE,
    ensures
        level_run(
            before,
            log,
            steps.push(step),
            level_step(level_steps(before, steps), step),
            log + level_steps_events(before, steps) + level_step_events(
                level_steps(before, steps),
                step,
            ),
        ),
{
    let s = steps.push(step);
    assert(s.drop_last() =~= steps);
    assert forall|i: int| 0 <= i < s.len() implies #[trigger] s[i].1 < LEVEL_UP_SIZE by {
        if i < steps.len() {
            assert(s[i] == steps[i]);
        }
    }
    assert(log + level_steps_events(before, s) =~= log + level_steps_events(before, steps)
        + level_step_events(level_steps(before, steps), step));
}

/// The hand-limit rounds `picks`, one after the other: in each, the card at
/// index `pick` of the current hand goes to the top of the waiting room.
pub open spec fn discard_rounds(m: PlayerModel, picks: Seq<usize>) -> PlayerModel
    decreases picks.len(),
{
    if picks.len() == 0 {
        m
    } else {
        let prev = discard_rounds(m, picks.drop_last());
        prev.discarded(prev.hand[picks.last() as int])
    }
}

/// The calls to the client of the hand-limit rounds `picks` of player `p`:
/// per round, the pick asked for among the current hand, then the discard
/// announced.
pub open spec fn discard_rounds_events(m: PlayerModel, p: nat, picks: Seq<usize>) -> Seq<Event>
    decreases picks.len(),
{
    if picks.len() == 0 {
        Seq::empty()
    } else {
        let prev = discard_rounds(m, picks.drop_last());
        discard_rounds_events(m, p, picks.drop_last()) + seq![
            Event::Asked(prev.hand, p, ChoiceContext::HandLimitDiscard, Some(picks.last())),
            Event::Discard(prev.hand[picks.last() as int], p),
        ]
    }
}

/// `e` asks player `p` for a hand-limit pick among the hand of `m`, and the
/// answer is out of range.
pub open spec fn bad_discard_ask(m: PlayerModel, p: nat, e: Event) -> bool {
    match e {
        Event::Asked(options, q, ChoiceContext::HandLimitDiscard, Some(pick)) => {
            &&& q == p
            &&& options == m.hand
            &&& pick >= m.hand.len()
        },
        _ => false,
    }
}

/// `after` and `after_log` are what the hand-limit rounds `picks` of player
/// `p`, each with a pick in the hand of its round, make of `m` and `log`.
pub open spec fn discard_run(
    m: PlayerModel,
    p: nat,
    log: Seq<Event>,
    picks: Seq<usize>,
    after: PlayerModel,
    after_log: Seq<Event>,
) -> bool {
    &&& forall|i: int| 0 <= i < picks.len() ==> #[trigger] picks[i] < m.hand.len() - i
    &&& after == discard_rounds(m, picks)
    &&& after_log == log + discard_rounds_events(m, p, picks)
}

/// `x` is what the clock phase of the active player `a`, holding `m`, tells
/// the client when their answer is `choice`: the phase change, the question
/// with its answer, then, for a card clocked, the level-up calls, the clock
/// and the two draws.
pub open spec fn clock_phase_events(
    m: PlayerModel,
    a: nat,
    choice: Option<usize>,
    x: Seq<Event>,
) -> bool {
    &&& x.len() >= 2
    &&& x[0] == Event::PhaseChange(Phase::Clock, a)
    &&& x[1] == Event::Asked(m.hand, a, ChoiceContext::ClockPhaseCardToClock, choice)
    &&& match choice {
        None => x.len() == 2,
        Some(i) => {
            &&& i < m.hand.len()
            &&& x.len() >= 5
            &&& only_level_up_events(x.subrange(2, x.len() - 3))
            &&& x.skip(x.len() - 3) == seq![
                Event::Clock(m.hand[i as int], a),
                Event::Draw(m.deck.last(), a),
                Event::Draw(m.deck.drop_last().last(), a),
            ]
        },
    }
}

/// The rules engine: it owns the game state and runs turns, telling its
/// client what happens and asking it for every decision.
pub struct Rules {
    pub state: GameState,
    /// Every call made to the client so far, in order. It exists only for
    /// the proofs: each method appends to it right beside the call it
    /// records, and nothing but that discipline ties an entry to the call.
    pub events: Ghost<Seq<Event>>,
}

impl View for Rules {
    type V = GameModel;

    open spec fn view(&self) -> GameModel {
        self.state@
    }
}

impl Rules {
    /// An engine at the start of a match, with `DECK_SIZE` cards of its own in
    /// each player's deck, that has not called its client yet.
    pub fn new() -> (r: Self)
        ensures
            r@.is_match_start(),
            r.events@ == Seq::<Event>::empty(),
    {
        Rules { state: GameState::new(), events: Ghost(Seq::empty()) }
    }

    /// The active player.
    pub fn active_player(&self) -> (r: &PlayerState)
        requires
            self@.wf(),
        ensures
            r@ == self@.active(),
    {
        &self.state.players[self.state.active_player]
    }

    /// The active player, to change.
    pub fn active_player_mut(&mut self) -> (r: &mut PlayerState)
        requires
            old(self)@.wf(),
        ensures
            *r == old(self).state.players@[old(self).state.active_player as int],
            final(self).state.players@ == old(self).state.players@.update(
                old(self).state.active_player as int,
                *final(r),
            ),
            final(self).state.active_player == old(self).state.active_player,
            final(self).state.phase == old(self).state.phase,
            final(self).state.turn == old(self).state.turn,
            final(self).events@ == old(self).events@,
    {
        &mut self.state.players[self.state.active_player]
    }

    /// Enters `phase` and announces it.
    pub fn phase_change<T: RulesEngineIO>(&mut self, io: &mut T, phase: Phase)
        requires
            old(self)@.wf(),
        ensures
            final(self)@ == old(self)@.in_phase(phase),
            final(self).events@ == old(self).events@.push(
                Event::PhaseChange(phase, old(self)@.active_player),
            ),
    {
        self.state.phase = phase;
        io.phase_change(phase, self.state.active_player);
        self.events = Ghost(self.events@.push(Event::PhaseChange(phase, self@.active_player)));
    }

    /// The stand phase: announced, with nothing else to do.
    pub fn stand_phase<T: RulesEngineIO>(&mut self, io: &mut T)
        requires
            old(self)@.wf(),
        ensures
            final(self)@ == old(self)@.in_phase(Phase::Stand),
            final(self).events@ == old(self).events@.push(
                Event::PhaseChange(Phase::Stand, old(self)@.active_player),
            ),
    {
        self.phase_change(io, Phase::Stand);
    }

    /// Player `player` draws the top card of their deck, and the draw is
    /// announced. Fails with `DeckEmpty`, changing nothing, on an empty deck.
    pub fn draw_card<T: RulesEngineIO>(&mut self, io: &mut T, player: usize) -> (r: Result<
        (),
        TurnError,
    >)
        requires
            old(self)@.wf(),
            player < 2,
        ensures
            drew(old(self)@, player as int, final(self)@, r),
            keeps_cards(old(self)@, final(self)@),
            final(self).events@ == if old(self)@.players[player as int].deck.len() > 0 {
                old(self).events@.push(
                    Event::Draw(old(self)@.players[player as int].deck.last(), player as nat),
                )
            } else {
                old(self).events@
            },
    {
        match self.state.players[player].draw_card() {
            Ok(card) => {
                io.draw(card, player);
                self.events = Ghost(self.events@.push(Event::Draw(card, player as nat)));
                assert(self@.players =~= old(self)@.players.update(
                    player as int,
                    old(self)@.players[player as int].drawn(),
                ));
                Ok(())
            },
            Err(_) => {
                assert(self@.players =~= old(self)@.players);
                Err(TurnError::DeckEmpty)
            },
        }
    }

    /// The draw phase: announced, then the active player draws one card.
    pub fn draw_phase<T: RulesEngineIO>(&mut self, io: &mut T) -> (r: Result<(), TurnError>)
        requires
            old(self)@.wf(),
        ensures
            drew(
                old(self)@.in_phase(Phase::Draw),
                old(self)@.active_player as int,
                final(self)@,
                r,
            ),
            keeps_cards(old(self)@, final(self)@),
            final(self).events@ == if old(self)@.active().deck.len() > 0 {
                old(self).events@.push(
                    Event::PhaseChange(Phase::Draw, old(self)@.active_player),
                ).push(Event::Draw(old(self)@.active().deck.last(), old(self)@.active_player))
            } else {
                old(self).events@.push(Event::PhaseChange(Phase::Draw, old(self)@.active_player))
            },
    {
        self.phase_change(io, Phase::Draw);
        let active = self.state.active_player;
        self.draw_card(io, active)
    }

    /// Carries out the level-up pick `pick` of player `player`, who must need
    /// to level up: a pick among the bottom `LEVEL_UP_SIZE` cards of the
    /// clock levels up with that card and announces it; any other pick fails
    /// with `InvalidChoice`, changing nothing.
    pub fn level_pick<T: RulesEngineIO>(&mut self, io: &mut T, player: usize, pick: usize) -> (r:
        Result<(), TurnError>)
        requires
            old(self)@.wf(),
            player < 2,
            old(self)@.players[player as int].needs_to_level(),
        ensures
            level_picked(
                old(self)@,
                old(self).events@,
                player as int,
                pick as int,
                final(self)@,
                final(self).events@,
                r,
            ),
            keeps_cards(old(self)@, final(self)@),
    {
        if pick >= LEVEL_UP_SIZE {
            return Err(TurnError::InvalidChoice);
        }
        let card = self.state.players[player].clock.content[pick];
        let ghost m = old(self)@.players[player as int];
        assert(m.bottom_clock()[pick as int] == card);
        assert(m.can_level_with(card));
        let result = self.state.players[player].level_up_with(card).unwrap();
        self.events = Ghost(
            self.events@.push(Event::LevelUp(card, result.sent_to_waiting_room@, player as nat)),
        );
        io.level_up(result, player);
        assert(self@.players =~= old(self)@.players.update(player as int, m.leveled_up(card)));
        Ok(())
    }

    /// Levels up player `player`, who must need it: the player is asked to
    /// pick one of the bottom `LEVEL_UP_SIZE` cards of their clock, and the
    /// pick is carried out as `level_pick` does.
    pub fn level_player<T: RulesEngineIO>(&mut self, io: &mut T, player: usize) -> (r: Result<
        (),
        TurnError,
    >)
        requires
            old(self)@.wf(),
            player < 2,
            old(self)@.players[player as int].needs_to_level(),
        ensures
            exists|pick: usize| #[trigger]
                level_picked(
                    old(self)@,
                    old(self).events@.push(
                        Event::Asked(
                            old(self)@.players[player as int].bottom_clock(),
                            player as nat,
                            ChoiceContext::LevelUpProcess,
                            Some(pick),
                        ),
                    ),
                    player as int,
                    pick as int,
                    final(self)@,
                    final(self).events@,
                    r,
                ),
            keeps_cards(old(self)@, final(self)@),
    {
        let bottom = self.state.players[player].bottom_clock();
        let pick = Input::<CardId>::ask_required_choice(
            io,
            bottom.as_slice(),
            player,
            ChoiceContext::LevelUpProcess,
        );
        self.events = Ghost(
            self.events@.push(
                Event::Asked(bottom@, player as nat, ChoiceContext::LevelUpProcess, Some(pick)),
            ),
        );
        self.level_pick(io, player, pick)
    }

    /// Runs the interrupt-type rules to completion: as long as a player needs
    /// to level up, levels them up, checking the active player first, then
    /// the other one, in passes over both (see `level_schedule`). Each
    /// level-up asks for the pick, then announces the result. Fails with
    /// `InvalidChoice` as soon as a pick does.
    #[verifier::rlimit(100)]
    #[verifier::spinoff_prover]
    pub fn interrupt_type_rules_processing<T: RulesEngineIO>(&mut self, io: &mut T) -> (r: Result<
        (),
        TurnError,
    >)
        requires
            old(self)@.wf(),
        ensures
            r is Ok ==> settled(old(self)@, final(self)@),
            r is Ok ==> forall|p: int|
                0 <= p < 2 ==> {
                    let k = old(self)@.players[p].clock.len() as int / LEVEL_UP_SIZE as int;
                    &&& (#[trigger] final(self)@.players[p]).clock
                        == old(self)@.players[p].clock.skip(LEVEL_UP_SIZE * k)
                    &&& final(self)@.players[p].level.len() == old(self)@.players[p].level.len()
                        + k
                    &&& final(self)@.players[p].waiting_room.len()
                        == old(self)@.players[p].waiting_room.len() + MAX_CLOCK_SIZE * k
                    &&& final(self)@.players[p].deck == old(self)@.players[p].deck
                    &&& final(self)@.players[p].hand == old(self)@.players[p].hand
                },
            r is Ok ==> exists|steps: Seq<(nat, usize)>| #[trigger]
                level_run(old(self)@, old(self).events@, steps, final(self)@, final(self).events@)
                    && steps.map_values(|t: (nat, usize)| t.0) == level_schedule(old(self)@),
            r is Ok ==> added(old(self).events@, final(self).events@).len() == 2 * (
            due_level_ups(old(self)@.players[0]) + due_level_ups(old(self)@.players[1])),
            r is Err ==> r == Err::<(), TurnError>(TurnError::InvalidChoice),
            r is Err ==> partly_settled(old(self)@, final(self)@),
            r is Err ==> exists|steps: Seq<(nat, usize)>| #[trigger]
                level_run(
                    old(self)@,
                    old(self).events@,
                    steps,
                    final(self)@,
                    final(self).events@.drop_last(),
                ) && final(self).events@.len() > 0 && bad_level_ask(
                    final(self)@,
                    final(self).events@.last(),
                ),
            extends(old(self).events@, final(self).events@),
            only_level_up_events(added(old(self).events@, final(self).events@)),
            r is Err <==> has_bad_answer(added(old(self).events@, final(self).events@)),
            !old(self)@.players[0].needs_to_level() && !old(self)@.players[1].needs_to_level()
                ==> r is Ok && final(self)@ == old(self)@
                && final(self).events@ == old(self).events@,
            keeps_cards(old(self)@, final(self)@),
    {
        let ghost start = self@;
        let ghost start_log = self.events@;
        let ghost mut picks0: Seq<CardId> = Seq::empty();
        let ghost mut picks1: Seq<CardId> = Seq::empty();
        assert(start.players[0].leveled_with(picks0) == start.players[0]);
        assert(start.players[1].leveled_with(picks1) == start.players[1]);
        assert(self@.players =~= start.players);
        assert(added(start_log, start_log) =~= Seq::<Event>::empty());
        assert(start_log.take(start_log.len() as int) =~= start_log);
        let ghost a = start.active_player;
        let ghost k0 = due_level_ups(start.players[0]);
        let ghost k1 = due_level_ups(start.players[1]);
        let ghost ka = due_level_ups(start.players[a as int]);
        let ghost kb = due_level_ups(start.players[1 - a]);
        let ghost mut steps: Seq<(nat, usize)> = Seq::empty();
        let ghost mut j: nat = 0;
        proof {
            let n0 = start.players[0].clock.len() as int;
            let n1 = start.players[1].clock.len() as int;
            assert(7 * k0 <= n0 < 7 * k0 + 7) by (nonlinear_arith)
                requires
                    k0 == n0 / 7,
                    n0 >= 0,
            ;
            assert(7 * k1 <= n1 < 7 * k1 + 7) by (nonlinear_arith)
                requires
                    k1 == n1 / 7,
                    n1 >= 0,
            ;
            assert(level_steps_events(start, steps) =~= Seq::<Event>::empty());
            assert(start_log + Seq::<Event>::empty() =~= start_log);
            assert(steps.map_values(|t: (nat, usize)| t.0) =~= level_passes(a, ka, kb, 0));
        }
        loop
            invariant
                start == old(self)@,
                start_log == old(self).events@,
                a == start.active_player,
                a < 2,
                k0 == due_level_ups(start.players[0]),
                k1 == due_level_ups(start.players[1]),
                ka == due_level_ups(start.players[a as int]),
                kb == due_level_ups(start.players[1 - a]),
                7 * k0 <= start.players[0].clock.len() < 7 * k0 + 7,
                7 * k1 <= start.players[1].clock.len() < 7 * k1 + 7,
                picks0.len() == if j < k0 { j } else { k0 },
                picks1.len() == if j < k1 { j } else { k1 },
                level_run(start, start_log, steps, self@, self.events@),
                steps.map_values(|t: (nat, usize)| t.0) == level_passes(a, ka, kb, j),
                self@.wf(),
                same_turn(start, self@),
                start.players[0].can_level_with_all(picks0),
                start.players[1].can_level_with_all(picks1),
                self@.players[0] == start.players[0].leveled_with(picks0),
                self@.players[1] == start.players[1].leveled_with(picks1),
                picks0.len() + picks1.len() == 0 ==> self@ == start && self.events@ == start_log,
                extends(start_log, self.events@),
                only_level_up_events(added(start_log, self.events@)),
                !has_bad_answer(added(start_log, self.events@)),
            decreases self@.players[0].clock.len() + self@.players[1].clock.len(),
        {
            proof {
                lemma_leveled_with(start.players[0], picks0);
                lemma_leveled_with(start.players[1], picks1);
            }
            let mut done = true;
            let first = self.state.active_player();
            let second = self.state.non_active_player();
            let ghost mut row: Seq<nat> = Seq::empty();
            let ghost pass_start = steps.map_values(|t: (nat, usize)| t.0);
            if self.state.players[first].needs_to_level() {
                done = false;
                let ghost before = self@;
                let ghost before_log = self.events@;
                let leveled = self.level_player(io, first);
                proof {
                    let pick = choose|pick: usize| #[trigger]
                        level_picked(
                            before,
                            before_log.push(
                                Event::Asked(
                                    before.players[first as int].bottom_clock(),
                                    first as nat,
                                    ChoiceContext::LevelUpProcess,
                                    Some(pick),
                                ),
                            ),
                            first as int,
                            pick as int,
                            self@,
                            self.events@,
                            leveled,
                        );
                    lemma_level_step(
                        start_log,
                        before_log,
                        before,
                        first as int,
                        pick,
                        self@,
                        self.events@,
                        leveled,
                    );
                    let step = (first as nat, pick);
                    if pick < LEVEL_UP_SIZE {
                        lemma_level_run_push(start, start_log, steps, step);
                        assert(self.events@ =~= start_log + level_steps_events(start, steps)
                            + level_step_events(before, step));
                        assert(steps.push(step).map_values(|t: (nat, usize)| t.0)
                            =~= steps.map_values(|t: (nat, usize)| t.0).push(first as nat));
                        steps = steps.push(step);
                        row = row.push(first as nat);
                    } else {
                        assert(self.events@.drop_last() =~= before_log);
                        assert(bad_level_ask(self@, self.events@.last()));
                    }
                    if pick < LEVEL_UP_SIZE {
                        let card = before.players[first as int].bottom_clock()[pick as int];
                        if first == 0 {
                            lemma_level_once_more(start.players[0], picks0, card);
                            picks0 = picks0.push(card);
                        } else {
                            lemma_level_once_more(start.players[1], picks1, card);
                            picks1 = picks1.push(card);
                        }
                    }
                }
                if leveled.is_err() {
                    return leveled;
                }
            }
            assert(row == if j < ka { seq![a] } else { Seq::<nat>::empty() });
            if self.state.players[second].needs_to_level() {
                done = false;
                let ghost before = self@;
                let ghost before_log = self.events@;
                let leveled = self.level_player(io, second);
                proof {
                    let pick = choose|pick: usize| #[trigger]
                        level_picked(
                            before,
                            before_log.push(
                                Event::Asked(
                                    before.players[second as int].bottom_clock(),
                                    second as nat,
                                    ChoiceContext::LevelUpProcess,
                                    Some(pick),
                                ),
                            ),
                            second as int,
                            pick as int,
                            self@,
                            self.events@,
                            leveled,
                        );
                    lemma_level_step(
                        start_log,
                        before_log,
                        before,
                        second as int,
                        pick,
                        self@,
                        self.events@,
                        leveled,
                    );
                    let step = (second as nat, pick);
                    if pick < LEVEL_UP_SIZE {
                        lemma_level_run_push(start, start_log, steps, step);
                        assert(self.events@ =~= start_log + level_steps_events(start, steps)
                            + level_step_events(before, step));
                        assert(steps.push(step).map_values(|t: (nat, usize)| t.0)
                            =~= steps.map_values(|t: (nat, usize)| t.0).push(second as nat));
                        steps = steps.push(step);
                        row = row.push(second as nat);
                    } else {
                        assert(self.events@.drop_last() =~= before_log);
                        assert(bad_level_ask(self@, self.events@.last()));
                    }
                    if pick < LEVEL_UP_SIZE {
                        let card = before.players[second as int].bottom_clock()[pick as int];
                        if second == 0 {
                            lemma_level_once_more(start.players[0], picks0, card);
                            picks0 = picks0.push(card);
                        } else {
                            lemma_level_once_more(start.players[1], picks1, card);
                            picks1 = picks1.push(card);
                        }
                    }
                }
                if leveled.is_err() {
                    return leveled;
                }
            }
            assert(row == (if j < ka { seq![a] } else { Seq::<nat>::empty() }) + (if j < kb {
                seq![(1 - a) as nat]
            } else {
                Seq::<nat>::empty()
            }));
            if done {
                proof {
                    lemma_settled_count(start.players[0], picks0);
                    lemma_settled_count(start.players[1], picks1);
                    lemma_level_passes_stable(a, ka, kb, j);
                    lemma_level_passes_len(a, ka, kb, if ka < kb { kb } else { ka });
                    lemma_level_steps_events_len(start, steps);
                    lemma_extends_split(start_log, self.events@);
                }
                return Ok(());
            }
            proof {
                assert(steps.map_values(|t: (nat, usize)| t.0) =~= level_passes(a, ka, kb, j + 1));
                j = j + 1;
            }
        }
    }

    /// Passes the turn to the other player, counting a new round when play
    /// returns to player 0.
    pub fn switch_turns(&mut self)
        requires
            old(self)@.wf(),
            old(self)@.active_player == 1 ==> old(self)@.turn < usize::MAX,
        ensures
            final(self)@ == old(self)@.switched(),
            final(self).events@ == old(self).events@,
    {
        if self.state.active_player == 0 {
            self.state.active_player = 1;
        } else {
            self.state.active_player = 0;
            self.state.turn += 1;
        }
    }

    /// Player `player` puts `card`, which must be in their hand, on top of
    /// their clock; the interrupt-type rules run; the clock is announced; and
    /// the player draws two cards, each announced. The turn is abandoned with
    /// the error of the first step that fails.
    #[verifier::rlimit(40)]
    #[verifier::spinoff_prover]
    pub fn clock_card<T: RulesEngineIO>(&mut self, io: &mut T, card: CardId, player: usize) -> (r:
        Result<(), TurnError>)
        requires
            old(self)@.wf(),
            player < 2,
            old(self)@.players[player as int].hand.contains(card),
        ensures
            clock_card_done(
                old(self)@,
                old(self).events@,
                player as int,
                card,
                final(self)@,
                final(self).events@,
                r,
            ),
    {
        let ghost start = self@;
        let ghost start_log = self.events@;
        let taken = self.state.players[player].hand.take_card_id(card).unwrap();
        self.state.players[player].clock.put_on_top(taken);
        let ghost clocked = start.with_player(
            player as int,
            start.players[player as int].clocked(card),
        );
        proof {
            lemma_hand_moves_keep_cards(start.players[player as int], card);
            assert(self@.players =~= clocked.players);
        }
        let settling = self.interrupt_type_rules_processing(io);
        let ghost mid = self@;
        let ghost mid_log = self.events@;
        let ghost l = added(start_log, mid_log);
        proof {
            lemma_extends_split(start_log, mid_log);
        }
        if settling.is_err() {
            return settling;
        }
        assert(mid.players[player as int].deck == clocked.players[player as int].deck);
        io.clock(taken, player);
        let ghost c = Event::Clock(card, player as nat);
        self.events = Ghost(self.events@.push(c));
        let first_draw = self.draw_card(io, player);
        if first_draw.is_err() {
            proof {
                assert(self.events@ =~= start_log + (l + seq![c]));
                assert(added(start_log, self.events@) =~= l + seq![c]);
                assert(self.events@.take(start_log.len() as int) =~= start_log);
                lemma_events_concat(l, seq![c]);
                assert(!is_bad_answer(seq![c][0]));
            }
            return first_draw;
        }
        let ghost d1 = Event::Draw(mid.players[player as int].deck.last(), player as nat);
        let second_draw = self.draw_card(io, player);
        if second_draw.is_err() {
            proof {
                assert(self.events@ =~= start_log + (l + seq![c, d1]));
                assert(added(start_log, self.events@) =~= l + seq![c, d1]);
                assert(self.events@.take(start_log.len() as int) =~= start_log);
                lemma_events_concat(l, seq![c, d1]);
                assert(!is_bad_answer(seq![c, d1][0]));
                assert(!is_bad_answer(seq![c, d1][1]));
            }
            return second_draw;
        }
        let ghost d2 = Event::Draw(
            mid.players[player as int].deck.drop_last().last(),
            player as nat,
        );
        proof {
            lemma_drawn_keeps_cards(mid.players[player as int]);
            lemma_drawn_keeps_cards(mid.players[player as int].drawn());
            assert(self@.players =~= mid.with_player(
                player as int,
                mid.players[player as int].drawn().drawn(),
            ).players);
            assert(settled(clocked, mid));
            let x = added(start_log, self.events@);
            assert(self.events@ =~= start_log + (l + seq![c, d1, d2]));
            assert(x =~= l + seq![c, d1, d2]);
            assert(self.events@.take(start_log.len() as int) =~= start_log);
            lemma_events_concat(l, seq![c, d1, d2]);
            assert(!is_bad_answer(seq![c, d1, d2][0]));
            assert(!is_bad_answer(seq![c, d1, d2][1]));
            assert(!is_bad_answer(seq![c, d1, d2][2]));
            assert(x.take(x.len() - 3) =~= l);
            assert(x.skip(x.len() - 3) =~= seq![c, d1, d2]);
            let b = start.players[player as int];
            assert(extends(start_log, self.events@));
            assert(keeps_cards(start, self@));
            assert(same_turn(start, self@));
            assert(!has_bad_answer(x));
            assert(clocked_and_drew_two(start, player as int, card, self@));
            assert(b.deck.len() >= 2);
            assert(d1 == Event::Draw(b.deck.last(), player as nat));
            assert(d2 == Event::Draw(b.deck.drop_last().last(), player as nat));
            assert(x.len() >= 3);
            assert(only_level_up_events(x.take(x.len() - 3)));
            if b.clock.len() < MAX_CLOCK_SIZE {
                let k = clocked.players[player as int].clock.len() as int / LEVEL_UP_SIZE as int;
                assert(k == 0);
                assert(mid.players[player as int].clock =~= b.clock.push(card));
                assert(mid.players[player as int].level.len() == b.level.len());
                assert(mid.players[player as int].waiting_room.len() == b.waiting_room.len());
                assert(mid.players[player as int].hand == clocked.players[player as int].hand);
            }
        }
        Ok(())
    }

    /// Carries out the active player's answer `choice` in the clock phase:
    /// declining changes nothing; a pick in the hand clocks that card (see
    /// `clock_card`); a pick outside the hand fails with `InvalidChoice`,
    /// changing nothing.
    pub fn clock_choice<T: RulesEngineIO>(&mut self, io: &mut T, choice: Option<usize>) -> (r:
        Result<(), TurnError>)
        requires
            old(self)@.wf(),
        ensures
            clock_chosen(old(self)@, old(self).events@, choice, final(self)@, final(self).events@, r),
    {
        match choice {
            None => Ok(()),
            Some(pick) => {
                let active = self.state.active_player;
                if pick >= self.state.players[active].hand.content.len() {
                    return Err(TurnError::InvalidChoice);
                }
                let card = self.state.players[active].hand.content[pick];
                assert(old(self)@.active().hand[pick as int] == card);
                self.clock_card(io, card, active)
            },
        }
    }

    /// The clock phase: announced, then the active player is asked for one
    /// card of their hand to clock, or none, and the answer is carried out as
    /// `clock_choice` does.
    #[verifier::rlimit(40)]
    #[verifier::spinoff_prover]
    pub fn clock_phase<T: RulesEngineIO>(&mut self, io: &mut T) -> (r: Result<(), TurnError>)
        requires
            old(self)@.wf(),
        ensures
            exists|choice: Option<usize>| #[trigger]
                clock_chosen(
                    old(self)@.in_phase(Phase::Clock),
                    old(self).events@.push(
                        Event::PhaseChange(Phase::Clock, old(self)@.active_player),
                    ).push(
                        Event::Asked(
                            old(self)@.active().hand,
                            old(self)@.active_player,
                            ChoiceContext::ClockPhaseCardToClock,
                            choice,
                        ),
                    ),
                    choice,
                    final(self)@,
                    final(self).events@,
                    r,
                ),
            keeps_cards(old(self)@, final(self)@),
            same_turn(old(self)@.in_phase(Phase::Clock), final(self)@),
            extends(old(self).events@, final(self).events@),
            r == Err::<(), TurnError>(TurnError::InvalidChoice) <==> has_bad_answer(
                added(old(self).events@, final(self).events@),
            ),
            r is Ok ==> clock_phase_done(old(self)@.in_phase(Phase::Clock), final(self)@),
            r is Ok ==> exists|choice: Option<usize>| #[trigger]
                clock_phase_events(
                    old(self)@.active(),
                    old(self)@.active_player,
                    choice,
                    added(old(self).events@, final(self).events@),
                ),
            r == Err::<(), TurnError>(TurnError::DeckEmpty) ==> old(self)@.active().deck.len() < 2,
    {
        self.phase_change(io, Phase::Clock);
        let ghost start = self@;
        let active = self.state.active_player;
        let choice = Input::<CardId>::ask_optional_choice(
            io,
            self.state.players[active].hand.content.as_slice(),
            active,
            ChoiceContext::ClockPhaseCardToClock,
        );
        let ghost ask = Event::Asked(
            start.active().hand,
            active as nat,
            ChoiceContext::ClockPhaseCardToClock,
            choice,
        );
        self.events = Ghost(self.events@.push(ask));
        let ghost asked_log = self.events@;
        let r = self.clock_choice(io, choice);
        proof {
            let pre = seq![Event::PhaseChange(Phase::Clock, active as nat), ask];
            let rest = added(asked_log, self.events@);
            assert(asked_log =~= old(self).events@ + pre);
            if self.events@ == asked_log {
                assert(rest =~= Seq::<Event>::empty());
                assert(asked_log.take(asked_log.len() as int) =~= asked_log);
            }
            match choice {
                None => {
                    assert(self.events@ == asked_log);
                    assert(!is_bad_answer(ask));
                    assert(clock_phase_events(
                        old(self)@.active(),
                        old(self)@.active_player,
                        choice,
                        pre + rest,
                    ));
                },
                Some(i) => {
                    if i < start.active().hand.len() {
                        assert(clock_card_done(
                            start,
                            asked_log,
                            active as int,
                            start.active().hand[i as int],
                            self@,
                            self.events@,
                            r,
                        ));
                        assert(!is_bad_answer(ask));
                        if r is Ok {
                            let xs = pre + rest;
                            assert(xs.subrange(2, xs.len() - 3) =~= rest.take(rest.len() - 3));
                            assert(xs.skip(xs.len() - 3) =~= rest.skip(rest.len() - 3));
                            assert(clock_phase_events(
                                old(self)@.active(),
                                old(self)@.active_player,
                                choice,
                                xs,
                            ));
                            assert(clocked_and_drew_two(
                                start,
                                start.active_player as int,
                                start.active().hand[i as int],
                                self@,
                            ));
                            assert(clock_phase_done(start, self@));
                        }
                    } else {
                        assert(self.events@ == asked_log);
                        assert(is_bad_answer(ask));
                    }
                },
            }
            assert(extends(asked_log, self.events@));
            lemma_extends_split(asked_log, self.events@);
            assert(self.events@ =~= old(self).events@ + (pre + rest));
            assert(self.events@.take(old(self).events@.len() as int) =~= old(self).events@);
            assert(added(old(self).events@, self.events@) =~= pre + rest);
            lemma_events_concat(pre, rest);
            assert(!is_bad_answer(pre[0]));
            assert(pre[1] == ask);
            if is_bad_answer(ask) {
                assert(has_bad_answer(pre));
            } else {
                assert(!has_bad_answer(pre));
            }
            assert(asked_log == old(self).events@.push(
                Event::PhaseChange(Phase::Clock, old(self)@.active_player),
            ).push(
                Event::Asked(
                    old(self)@.active().hand,
                    old(self)@.active_player,
                    ChoiceContext::ClockPhaseCardToClock,
                    choice,
                ),
            ));
            assert(clock_chosen(
                old(self)@.in_phase(Phase::Clock),
                asked_log,
                choice,
                self@,
                self.events@,
                r,
            ));
        }
        r
    }

    /// Carries out the hand-limit pick `pick` of player `player`: a pick in
    /// the hand discards that card and announces it; any other pick fails
    /// with `InvalidChoice`, changing nothing.
    pub fn discard_pick<T: RulesEngineIO>(&mut self, io: &mut T, player: usize, pick: usize) -> (r:
        Result<(), TurnError>)
        requires
            old(self)@.wf(),
            player < 2,
        ensures
            discard_picked(
                old(self)@,
                old(self).events@,
                player as int,
                pick as int,
                final(self)@,
                final(self).events@,
                r,
            ),
            keeps_cards(old(self)@, final(self)@),
    {
        if pick >= self.state.players[player].hand.content.len() {
            return Err(TurnError::InvalidChoice);
        }
        let card = self.state.players[player].hand.content[pick];
        assert(old(self)@.players[player as int].hand[pick as int] == card);
        let discarded = self.state.players[player].discard_card(card).unwrap();
        self.events = Ghost(self.events@.push(Event::Discard(discarded, player as nat)));
        io.discard(discarded, player);
        assert(self@.players =~= old(self)@.players.update(
            player as int,
            old(self)@.players[player as int].discarded(card),
        ));
        Ok(())
    }

    /// Player `player` discards, one card of their choice at a time, until
    /// their hand no longer exceeds their hand limit; each pick is carried
    /// out as `discard_pick` does, and the first failing pick ends the
    /// cleanup with `InvalidChoice`.
    pub fn check_handlimit<T: RulesEngineIO>(&mut self, io: &mut T, player: usize) -> (r: Result<
        (),
        TurnError,
    >)
        requires
            old(self)@.wf(),
            player < 2,
        ensures
            r is Ok ==> discarded_to_limit(old(self)@, player as int, final(self)@),
            r is Ok ==> !final(self)@.players[player as int].exceeds_hand_limit(),
            r is Err ==> r == Err::<(), TurnError>(TurnError::InvalidChoice)
                && old(self)@.players[player as int].exceeds_hand_limit(),
            !old(self)@.players[player as int].exceeds_hand_limit() ==> r is Ok && final(self)@
                == old(self)@ && final(self).events@ == old(self).events@,
            extends(old(self).events@, final(self).events@),
            only_discard_events(added(old(self).events@, final(self).events@)),
            r is Err <==> has_bad_answer(added(old(self).events@, final(self).events@)),
            r is Ok ==> exists|picks: Seq<usize>| #[trigger]
                discard_run(
                    old(self)@.players[player as int],
                    player as nat,
                    old(self).events@,
                    picks,
                    final(self)@.players[player as int],
                    final(self).events@,
                ) && picks.len() == if old(self)@.players[player as int].exceeds_hand_limit() {
                    old(self)@.players[player as int].hand.len()
                        - old(self)@.players[player as int].hand_limit
                } else {
                    0
                },
            r is Err ==> exists|picks: Seq<usize>| #[trigger]
                discard_run(
                    old(self)@.players[player as int],
                    player as nat,
                    old(self).events@,
                    picks,
                    final(self)@.players[player as int],
                    final(self).events@.drop_last(),
                ) && final(self).events@.len() > 0 && bad_discard_ask(
                    final(self)@.players[player as int],
                    player as nat,
                    final(self).events@.last(),
                ),
            keeps_cards(old(self)@, final(self)@),
            same_turn(old(self)@, final(self)@),
    {
        let ghost start = self@;
        let ghost start_log = self.events@;
        let ghost b = start.players[player as int];
        let ghost mut picks: Seq<usize> = Seq::empty();
        assert(discard_rounds_events(b, player as nat, picks) =~= Seq::<Event>::empty());
        assert(start_log + Seq::<Event>::empty() =~= start_log);
        assert(added(start_log, start_log) =~= Seq::<Event>::empty());
        assert(start_log.take(start_log.len() as int) =~= start_log);
        while self.state.players[player].exceeding_handlimit()
            invariant
                start == old(self)@,
                start_log == old(self).events@,
                b == start.players[player as int],
                player < 2,
                self@.wf(),
                same_turn(start, self@),
                self@.players[1 - player] == start.players[1 - player],
                !b.exceeds_hand_limit() ==> self@ == start && self.events@ == start_log,
                self@.players[player as int].hand.len() <= b.hand.len(),
                b.exceeds_hand_limit() ==> self@.players[player as int].hand.len() >= b.hand_limit,
                self@.players[player as int].waiting_room.len() + self@.players[player as int].hand.len()
                    == b.waiting_room.len() + b.hand.len(),
                self@.players[player as int].waiting_room.take(b.waiting_room.len() as int)
                    == b.waiting_room,
                self@.players[player as int].deck == b.deck,
                self@.players[player as int].clock == b.clock,
                self@.players[player as int].level == b.level,
                self@.players[player as int].hand_limit == b.hand_limit,
                self@.players[player as int].refresh_point == b.refresh_point,
                self@.players[player as int].cards() == b.cards(),
                extends(start_log, self.events@),
                only_discard_events(added(start_log, self.events@)),
                !has_bad_answer(added(start_log, self.events@)),
                discard_run(
                    b,
                    player as nat,
                    start_log,
                    picks,
                    self@.players[player as int],
                    self.events@,
                ),
                picks.len() == b.hand.len() - self@.players[player as int].hand.len(),
            decreases self@.players[player as int].hand.len(),
        {
            let ghost before = self@;
            let ghost before_log = self.events@;
            let pick = Input::<CardId>::ask_required_choice(
                io,
                self.state.players[player].hand.content.as_slice(),
                player,
                ChoiceContext::HandLimitDiscard,
            );
            let ghost ask = Event::Asked(
                before.players[player as int].hand,
                player as nat,
                ChoiceContext::HandLimitDiscard,
                Some(pick),
            );
            self.events = Ghost(self.events@.push(ask));
            let ghost asked_log = self.events@;
            let discarding = self.discard_pick(io, player, pick);
            proof {
                let m = before.players[player as int];
                let x = added(before_log, self.events@);
                assert(self.events@.take(before_log.len() as int) =~= before_log);
                if pick < m.hand.len() {
                    let card = m.hand[pick as int];
                    assert(x =~= seq![ask, Event::Discard(card, player as nat)]);
                    assert(!is_bad_answer(x[0]) && !is_bad_answer(x[1]));
                    lemma_first_index_exists(m.hand, card);
                    lemma_hand_moves_keep_cards(m, card);
                    assert(self@.players[player as int].waiting_room.take(
                        b.waiting_room.len() as int,
                    ) =~= b.waiting_room);
                    let next = picks.push(pick);
                    assert(next.drop_last() =~= picks);
                    assert(self.events@ =~= start_log + discard_rounds_events(
                        b,
                        player as nat,
                        next,
                    ));
                    assert forall|i: int| 0 <= i < next.len() implies #[trigger] next[i]
                        < b.hand.len() - i by {
                        if i < picks.len() {
                            assert(next[i] == picks[i]);
                        }
                    }
                    picks = next;
                } else {
                    assert(x =~= seq![ask]);
                    assert(is_bad_answer(x[0]));
                    assert(self.events@.drop_last() =~= before_log);
                }
                assert(only_discard_events(x));
                lemma_added_chain(start_log, before_log, self.events@);
                lemma_events_concat(added(start_log, before_log), x);
            }
            if discarding.is_err() {
                return discarding;
            }
        }
        Ok(())
    }

    /// The end phase: announced, then the active player discards down to
    /// their hand limit, then the turn passes to the other player.
    pub fn end_phase<T: RulesEngineIO>(&mut self, io: &mut T) -> (r: Result<(), TurnError>)
        requires
            old(self)@.wf(),
            old(self)@.active_player == 1 ==> old(self)@.turn < usize::MAX,
        ensures
            keeps_cards(old(self)@, final(self)@),
            r is Ok ==> ended(old(self)@, final(self)@),
            r is Err ==> r == Err::<(), TurnError>(TurnError::InvalidChoice)
                && old(self)@.active().exceeds_hand_limit() && same_turn(
                old(self)@.in_phase(Phase::End),
                final(self)@,
            ),
            !old(self)@.active().exceeds_hand_limit() ==> r is Ok
                && final(self)@ == old(self)@.in_phase(Phase::End).switched(),
            extends(old(self).events@, final(self).events@),
            added(old(self).events@, final(self).events@).len() >= 1,
            added(old(self).events@, final(self).events@)[0] == Event::PhaseChange(
                Phase::End,
                old(self)@.active_player,
            ),
            only_discard_events(added(old(self).events@, final(self).events@).drop_first()),
            r is Err <==> has_bad_answer(added(old(self).events@, final(self).events@)),
    {
        self.phase_change(io, Phase::End);
        let ghost start = self@;
        let ghost start_log = self.events@;
        let active = self.state.active_player;
        let discarding = self.check_handlimit(io, active);
        proof {
            let pre = seq![Event::PhaseChange(Phase::End, active as nat)];
            let rest = added(start_log, self.events@);
            assert(start_log =~= old(self).events@ + pre);
            lemma_extends_split(start_log, self.events@);
            assert(self.events@ =~= old(self).events@ + (pre + rest));
            assert(self.events@.take(old(self).events@.len() as int) =~= old(self).events@);
            assert(added(old(self).events@, self.events@) =~= pre + rest);
            assert((pre + rest).drop_first() =~= rest);
            lemma_events_concat(pre, rest);
            assert(!is_bad_answer(pre[0]));
        }
        if discarding.is_err() {
            return discarding;
        }
        let ghost discarded = self@;
        self.switch_turns();
        assert(discarded_to_limit(start, active as int, discarded));
        Ok(())
    }

    /// Plays one whole turn of the active player: the stand, draw, clock and
    /// end phases, in this order; the turn then passes to the other player.
    /// The turn is abandoned with the error of the first step that fails;
    /// with every answer of the client in range and three cards in the deck,
    /// it does not fail.
    pub fn run_turn<T: RulesEngineIO>(&mut self, io: &mut T) -> (r: Result<(), TurnError>)
        requires
            old(self)@.wf(),
            old(self)@.active_player == 1 ==> old(self)@.turn < usize::MAX,
        ensures
            keeps_cards(old(self)@, final(self)@),
            r is Ok ==> turn_played(old(self)@, final(self)@),
            old(self)@.active().deck.len() == 0 ==> r == Err::<(), TurnError>(TurnError::DeckEmpty)
                && final(self)@ == old(self)@.in_phase(Phase::Draw) && added(
                old(self).events@,
                final(self).events@,
            ) == seq![
                Event::PhaseChange(Phase::Stand, old(self)@.active_player),
                Event::PhaseChange(Phase::Draw, old(self)@.active_player),
            ],
            r == Err::<(), TurnError>(TurnError::DeckEmpty) ==> old(self)@.active().deck.len() < 3,
            r is Ok ==> exists|choice: Option<usize>, k: int| #[trigger]
                clock_phase_events(
                    old(self)@.active().drawn(),
                    old(self)@.active_player,
                    choice,
                    added(old(self).events@, final(self).events@).subrange(3, k),
                ) && 3 <= k < added(old(self).events@, final(self).events@).len() && added(
                    old(self).events@,
                    final(self).events@,
                )[k] == Event::PhaseChange(Phase::End, old(self)@.active_player)
                    && only_discard_events(
                    added(old(self).events@, final(self).events@).skip(k + 1),
                ),
            extends(old(self).events@, final(self).events@),
            r == Err::<(), TurnError>(TurnError::InvalidChoice) <==> has_bad_answer(
                added(old(self).events@, final(self).events@),
            ),
            !has_bad_answer(added(old(self).events@, final(self).events@))
                && old(self)@.active().deck.len() >= 3 ==> r is Ok,
            added(old(self).events@, final(self).events@).len() >= 2,
            added(old(self).events@, final(self).events@)[0] == Event::PhaseChange(
                Phase::Stand,
                old(self)@.active_player,
            ),
            added(old(self).events@, final(self).events@)[1] == Event::PhaseChange(
                Phase::Draw,
                old(self)@.active_player,
            ),
            old(self)@.active().deck.len() > 0 ==> added(
                old(self).events@,
                final(self).events@,
            ).len() >= 3 && added(old(self).events@, final(self).events@)[2] == Event::Draw(
                old(self)@.active().deck.last(),
                old(self)@.active_player,
            ),
    {
        let ghost start_log = self.events@;
        self.stand_phase(io);
        let drawing = self.draw_phase(io);
        let ghost drawn_log = self.events@;
        let ghost drawn = self@;
        proof {
            assert(drawn_log.take(start_log.len() as int) =~= start_log);
            let d = added(start_log, drawn_log);
            if drawing.is_ok() {
                assert(d =~= seq![d[0], d[1], d[2]]);
                assert(!is_bad_answer(d[0]) && !is_bad_answer(d[1]) && !is_bad_answer(d[2]));
            } else {
                assert(d =~= seq![d[0], d[1]]);
                assert(!is_bad_answer(d[0]) && !is_bad_answer(d[1]));
                assert(drawn == old(self)@.in_phase(Phase::Draw));
            }
        }
        if drawing.is_err() {
            return drawing;
        }
        let clocking = self.clock_phase(io);
        let ghost clocked_log = self.events@;
        proof {
            lemma_added_chain(start_log, drawn_log, clocked_log);
            lemma_events_concat(added(start_log, drawn_log), added(drawn_log, clocked_log));
            assert(added(start_log, clocked_log)[0] == added(start_log, drawn_log)[0]);
            assert(added(start_log, clocked_log)[1] == added(start_log, drawn_log)[1]);
            assert(added(start_log, clocked_log)[2] == added(start_log, drawn_log)[2]);
            if drawing.is_ok() {
                assert(drawn.active().deck.len() == old(self)@.active().deck.len() - 1);
            }
        }
        if clocking.is_err() {
            proof {
                match clocking {
                    Err(TurnError::DeckEmpty) => {
                        assert(drawn.active().deck.len() < 2);
                    },
                    Err(TurnError::InvalidChoice) => {
                        assert(has_bad_answer(added(drawn_log, clocked_log)));
                        assert(has_bad_answer(added(start_log, clocked_log)));
                    },
                    Ok(_) => {},
                }
            }
            return clocking;
        }
        let ghost clocked = self@;
        let r = self.end_phase(io);
        proof {
            lemma_added_chain(start_log, clocked_log, self.events@);
            lemma_events_concat(added(start_log, clocked_log), added(clocked_log, self.events@));
            assert(added(start_log, self.events@)[0] == added(start_log, clocked_log)[0]);
            assert(added(start_log, self.events@)[1] == added(start_log, clocked_log)[1]);
            assert(added(start_log, self.events@)[2] == added(start_log, clocked_log)[2]);
            assert(r is Ok ==> ended(clocked, self@));
            if r is Ok {
                let x1 = added(start_log, drawn_log);
                let x2 = added(drawn_log, clocked_log);
                let x3 = added(clocked_log, self.events@);
                let x = added(start_log, self.events@);
                let k: int = 3 + x2.len() as int;
                assert(x == x1 + x2 + x3);
                assert(x.subrange(3, k) =~= x2);
                assert(x[k] == x3[0]);
                assert(x.skip(k + 1) =~= x3.drop_first());
                assert(drawn.active() == old(self)@.active().drawn());
                let choice = choose|c: Option<usize>| #[trigger]
                    clock_phase_events(drawn.active(), drawn.active_player, c, x2);
                assert(clock_phase_events(
                    old(self)@.active().drawn(),
                    old(self)@.active_player,
                    choice,
                    x.subrange(3, k),
                ));
            }
        }
        r
    }
}

} // verus!
