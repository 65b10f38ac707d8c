use vstd::prelude::*;

use crate::data::{CardId, Phase};
use crate::state::player_state::LevelUpResult;

verus! {

/// Why a choice is requested, so that the client can render a fitting prompt.
/// The engine never branches on it.
#[derive(Debug, Copy, Clone, Eq, PartialEq)]
pub enum ChoiceContext {
    ClockPhaseCardToClock,
    HandLimitDiscard,
    LevelUpProcess,
    InterruptTimingChoice,
}

/// The interrupt-type rules a player may be asked to order.
#[derive(Debug, Copy, Clone, Eq, PartialEq)]
pub enum InterruptChoice {
    Refresh,
    Level,
}

/// One call the engine made to its client: an announcement, or a choice it
/// asked (options, player, context) together with the answer that came back.
/// The engine records these in a ghost log kept beside its calls; the log
/// is what its contracts say about the order of the calls.
pub enum Event {
    PhaseChange(Phase, nat),
    Draw(CardId, nat),
    Discard(CardId, nat),
    Clock(CardId, nat),
    LevelUp(CardId, Seq<CardId>, nat),
    Asked(Seq<CardId>, nat, ChoiceContext, Option<usize>),
}

/// An answer that names no option: an index past the end of the options.
pub open spec fn is_bad_answer(e: Event) -> bool {
    match e {
        Event::Asked(options, _, _, Some(i)) => i >= options.len(),
        _ => false,
    }
}

/// Some answer in `s` names no option.
pub open spec fn has_bad_answer(s: Seq<Event>) -> bool {
    exists|i: int| 0 <= i < s.len() && #[trigger] is_bad_answer(s[i])
}

/// An event of level-up processing: the pick asked for, or the level-up itself.
pub open spec fn is_level_up_event(e: Event) -> bool {
    e is LevelUp || e matches Event::Asked(_, _, ChoiceContext::LevelUpProcess, _)
}

/// An event of hand-limit cleanup: the pick asked for, or the discard itself.
pub open spec fn is_discard_event(e: Event) -> bool {
    e is Discard || e matches Event::Asked(_, _, ChoiceContext::HandLimitDiscard, _)
}

pub open spec fn only_level_up_events(s: Seq<Event>) -> bool {
    forall|i: int| 0 <= i < s.len() ==> #[trigger] is_level_up_event(s[i])
}

pub open spec fn only_discard_events(s: Seq<Event>) -> bool {
    forall|i: int| 0 <= i < s.len() ==> #[trigger] is_discard_event(s[i])
}

/// `after` is `before` with more events at its end.
pub open spec fn extends(before: Seq<Event>, after: Seq<Event>) -> bool {
    before.len() <= after.len() && after.take(before.len() as int) == before
}

/// The events `after` holds beyond `before`.
pub open spec fn added(before: Seq<Event>, after: Seq<Event>) -> Seq<Event> {
    after.skip(before.len() as int)
}

/// A log that extends another is that log followed by what was added.
pub proof fn lemma_extends_split(a: Seq<Event>, b: Seq<Event>)
    requires
        extends(a, b),
    ensures
        b == a + added(a, b),
{
    assert forall|i: int| 0 <= i < a.len() implies b[i] == a[i] by {
        assert(b.take(a.len() as int)[i] == b[i]);
    }
    assert(b =~= a + added(a, b));
}

/// Events added in two steps are those of the first step, then those of the second.
pub proof fn lemma_added_chain(a: Seq<Event>, b: Seq<Event>, c: Seq<Event>)
    requires
        extends(a, b),
        extends(b, c),
    ensures
        extends(a, c),
        added(a, c) == added(a, b) + added(b, c),
{
    assert(c.take(a.len() as int) =~= b.take(a.len() as int));
    assert(added(a, c) =~= added(a, b) + added(b, c));
}

/// The event kinds of a concatenation are those of its parts.
pub proof fn lemma_events_concat(x: Seq<Event>, y: Seq<Event>)
    ensures
        has_bad_answer(x + y) <==> has_bad_answer(x) || has_bad_answer(y),
        only_level_up_events(x + y) <==> only_level_up_events(x) && only_level_up_events(y),
        only_discard_events(x + y) <==> only_discard_events(x) && only_discard_events(y),
{
    if has_bad_answer(x + y) {
        let i = choose|i: int| 0 <= i < (x + y).len() && #[trigger] is_bad_answer((x + y)[i]);
        if i >= x.len() {
            assert(is_bad_answer(y[i - x.len()]));
        } else {
            assert(is_bad_answer(x[i]));
        }
    }
    if has_bad_answer(x) {
        let i = choose|i: int| 0 <= i < x.len() && #[trigger] is_bad_answer(x[i]);
        assert(is_bad_answer((x + y)[i]));
    }
    if has_bad_answer(y) {
        let i = choose|i: int| 0 <= i < y.len() && #[trigger] is_bad_answer(y[i]);
        assert(is_bad_answer((x + y)[i + x.len()]));
    }
    if only_level_up_events(x + y) {
        assert forall|i: int| 0 <= i < x.len() implies #[trigger] is_level_up_event(x[i]) by {
            assert(is_level_up_event((x + y)[i]));
        }
        assert forall|i: int| 0 <= i < y.len() implies #[trigger] is_level_up_event(y[i]) by {
            assert(is_level_up_event((x + y)[i + x.len()]));
        }
    }
    if only_level_up_events(x) && only_level_up_events(y) {
        assert forall|i: int| 0 <= i < (x + y).len() implies #[trigger] is_level_up_event(
            (x + y)[i],
        ) by {
            if i >= x.len() {
                assert(is_level_up_event(y[i - x.len()]));
            } else {
                assert(is_level_up_event(x[i]));
            }
        }
    }
    if only_discard_events(x + y) {
        assert forall|i: int| 0 <= i < x.len() implies #[trigger] is_discard_event(x[i]) by {
            assert(is_discard_event((x + y)[i]));
        }
        assert forall|i: int| 0 <= i < y.len() implies #[trigger] is_discard_event(y[i]) by {
            assert(is_discard_event((x + y)[i + x.len()]));
        }
    }
    if only_discard_events(x) && only_discard_events(y) {
        assert forall|i: int| 0 <= i < (x + y).len() implies #[trigger] is_discard_event(
            (x + y)[i],
        ) by {
            if i >= x.len() {
                assert(is_discard_event(y[i - x.len()]));
            } else {
                assert(is_discard_event(x[i]));
            }
        }
    }
}

/// How the rules engine announces events to its client. The engine blocks
/// until each call returns; none of them can fail the engine.
pub trait Output {
    /// The current phase changed to `phase`; `player` is the active player.
    fn phase_change(&mut self, phase: Phase, player: usize);

    /// `player` drew `card`.
    fn draw(&mut self, card: CardId, player: usize);

    /// `player` discarded `card` from their hand.
    fn discard(&mut self, card: CardId, player: usize);

    /// `player` leveled up, as `result` describes.
    fn level_up(&mut self, result: LevelUpResult, player: usize);

    /// `player` put `card` from their hand into their clock.
    fn clock(&mut self, card: CardId, player: usize);

    /// `player` refreshed their deck.
    fn refreshed(&mut self, player: usize);
}

/// How the rules engine asks its client for decisions. The engine blocks
/// until each call returns.
pub trait Input<T> {
    /// Asks `player` to pick one of `options`, or none. The answer must be an
    /// index into `options`, and `None` when there are no options. The engine
    /// checks the answer rather than trusting it: an index out of range is a
    /// fault of the client, on which the engine abandons the turn with
    /// `TurnError::InvalidChoice` instead of aborting the process.
    fn ask_optional_choice(
        &mut self,
        options: &[T],
        player: usize,
        context: ChoiceContext,
    ) -> Option<usize>;

    /// Asks `player` to pick one of `options`, which is never empty. The
    /// answer must be an index into `options`; an index out of range is a
    /// fault of the client, on which the engine abandons the turn with
    /// `TurnError::InvalidChoice` instead of aborting the process.
    fn ask_required_choice(&mut self, options: &[T], player: usize, context: ChoiceContext) -> usize;
}

/// Everything the rules engine needs from its client.
pub trait RulesEngineIO: Output + Input<CardId> + Input<InterruptChoice> {

}

/// The silent client: announces nothing, declines an optional choice only
/// when there is nothing to pick, and otherwise picks the first option.
impl Output for () {
    fn phase_change(&mut self, _phase: Phase, _player: usize) {
    }

    fn draw(&mut self, _card: CardId, _player: usize) {
    }

    fn discard(&mut self, _card: CardId, _player: usize) {
    }

    fn level_up(&mut self, _result: LevelUpResult, _player: usize) {
    }

    fn clock(&mut self, _card: CardId, _player: usize) {
    }

    fn refreshed(&mut self, _player: usize) {
    }
}

impl<T> Input<T> for () {
    fn ask_optional_choice(
        &mut self,
        options: &[T],
        _player: usize,
        _context: ChoiceContext,
    ) -> Option<usize> {
        if options.len() == 0 {
            None
        } else {
            Some(0)
        }
    }

    fn ask_required_choice(
        &mut self,
        _options: &[T],
        _player: usize,
        _context: ChoiceContext,
    ) -> usize {
        0
    }
}

impl RulesEngineIO for () {

}

/// A silent client that always answers with the index it holds (and `None`
/// to an optional choice among no options).
pub struct PickX(pub usize);

impl Output for PickX {
    fn phase_change(&mut self, _phase: Phase, _player: usize) {
    }

    fn draw(&mut self, _card: CardId, _player: usize) {
    }

    fn discard(&mut self, _card: CardId, _player: usize) {
    }

    fn level_up(&mut self, _result: LevelUpResult, _player: usize) {
    }

    fn clock(&mut self, _card: CardId, _player: usize) {
    }

    fn refreshed(&mut self, _player: usize) {
    }
}

impl<T> Input<T> for PickX {
    fn ask_optional_choice(
        &mut self,
        options: &[T],
        _player: usize,
        _context: ChoiceContext,
    ) -> Option<usize> {
        if options.len() == 0 {
            None
        } else {
            Some(self.0)
        }
    }

    fn ask_required_choice(
        &mut self,
        _options: &[T],
        _player: usize,
        _context: ChoiceContext,
    ) -> usize {
        self.0
    }
}

impl RulesEngineIO for PickX {

}

} // verus!
