use ws_engine::data::{CardId, Phase};
use ws_engine::rules::io::{ChoiceContext, Input, InterruptChoice, Output, PickX, RulesEngineIO};
use ws_engine::rules::{Rules, TurnError};
use ws_engine::state::game_state::GameState;
use ws_engine::state::player_state::{LevelUpResult, PlayerState};
use ws_engine::state::zone_state::ZoneState;

fn all_cards(player: &PlayerState) -> Vec<CardId> {
    let mut cards = Vec::new();
    cards.extend(player.deck.content.iter().copied());
    cards.extend(player.hand.content.iter().copied());
    cards.extend(player.waiting_room.content.iter().copied());
    cards.extend(player.clock.content.iter().copied());
    cards.extend(player.level.content.iter().copied());
    cards.sort();
    cards
}

fn dealt(player: usize) -> Vec<CardId> {
    (player * 50..player * 50 + 50).map(CardId).collect()
}

#[derive(Debug, Clone, PartialEq, Eq)]
enum Event {
    Phase(Phase, usize),
    Draw(CardId, usize),
    Discard(CardId, usize),
    Clock(CardId, usize),
    LevelUp(LevelUpResult, usize),
    Ask(ChoiceContext, usize, usize),
}

/// Records every event and answers each choice with the last option.
struct Recorder {
    events: Vec<Event>,
}

impl Output for Recorder {
    fn phase_change(&mut self, phase: Phase, player: usize) {
        self.events.push(Event::Phase(phase, player));
    }
    fn draw(&mut self, card: CardId, player: usize) {
        self.events.push(Event::Draw(card, player));
    }
    fn discard(&mut self, card: CardId, player: usize) {
        self.events.push(Event::Discard(card, player));
    }
    fn level_up(&mut self, result: LevelUpResult, player: usize) {
        self.events.push(Event::LevelUp(result, player));
    }
    fn clock(&mut self, card: CardId, player: usize) {
        self.events.push(Event::Clock(card, player));
    }
    fn refreshed(&mut self, _: usize) {}
}

impl<T> Input<T> for Recorder {
    fn ask_optional_choice(
        &mut self,
        options: &[T],
        player: usize,
        context: ChoiceContext,
    ) -> Option<usize> {
        self.events.push(Event::Ask(context, player, options.len()));
        options.len().checked_sub(1)
    }
    fn ask_required_choice(&mut self, options: &[T], player: usize, context: ChoiceContext) -> usize {
        self.events.push(Event::Ask(context, player, options.len()));
        options.len() - 1
    }
}

impl RulesEngineIO for Recorder {}

#[test]
fn match_start_deals_fifty_cards_to_each_player() {
    let state = GameState::new();
    assert_eq!(state.active_player(), 0);
    assert_eq!(state.non_active_player(), 1);
    assert_eq!(state.phase, Phase::Stand);
    assert_eq!(state.turn, 0);
    for (p, player) in state.players.iter().enumerate() {
        assert_eq!(player.deck.content, dealt(p));
        assert!(player.hand.content.is_empty());
        assert_eq!(player.base_hand_limit, 7);
    }
    // No id is dealt to both players.
    let mut every: Vec<CardId> = state.players.iter().flat_map(all_cards).collect();
    every.sort();
    every.dedup();
    assert_eq!(every.len(), 100);
}

#[test]
fn cards_are_conserved_over_many_turns() {
    let mut rules = Rules::new();
    for turn in 0..20usize {
        assert_eq!(rules.state.active_player, turn % 2);
        assert_eq!(rules.state.turn, turn / 2);
        rules.run_turn(&mut ()).unwrap();
        assert_eq!(rules.state.phase, Phase::End);
        for (p, player) in rules.state.players.iter().enumerate() {
            assert_eq!(all_cards(player), dealt(p));
            assert!(player.clock.content.len() <= 6);
            assert!(player.hand.content.len() <= 7);
        }
    }
    assert_eq!(rules.state.active_player, 0);
    assert_eq!(rules.state.turn, 10);
    // Ten turns with a clock each: one level-up so far, three cards left in clock.
    let first = &rules.state.players[0];
    assert_eq!(first.level.content.len(), 1);
    assert_eq!(first.clock.content.len(), 3);
    assert_eq!(first.deck.content.len(), 50 - 30);
}

#[test]
fn turn_events_come_in_order() {
    let mut rules = Rules::new();
    let mut io = Recorder { events: Vec::new() };
    rules.run_turn(&mut io).unwrap();
    assert_eq!(
        io.events,
        vec![
            Event::Phase(Phase::Stand, 0),
            Event::Phase(Phase::Draw, 0),
            Event::Draw(CardId(49), 0),
            Event::Phase(Phase::Clock, 0),
            Event::Ask(ChoiceContext::ClockPhaseCardToClock, 0, 1),
            Event::Clock(CardId(49), 0),
            Event::Draw(CardId(48), 0),
            Event::Draw(CardId(47), 0),
            Event::Phase(Phase::End, 0),
        ]
    );
    assert_eq!(rules.state.active_player, 1);
}

#[test]
fn level_up_is_announced_before_the_clock() {
    let mut rules = Rules::new();
    rules.active_player_mut().clock = ZoneState::with_content((100..106).map(CardId).collect());
    rules.active_player_mut().hand.put_on_top(CardId(200));
    let mut io = Recorder { events: Vec::new() };
    rules.clock_card(&mut io, CardId(200), 0).unwrap();
    assert_eq!(
        io.events,
        vec![
            Event::Ask(ChoiceContext::LevelUpProcess, 0, 7),
            Event::LevelUp(
                LevelUpResult {
                    leveled_card: CardId(200),
                    sent_to_waiting_room: (100..106).map(CardId).collect(),
                },
                0
            ),
            Event::Clock(CardId(200), 0),
            Event::Draw(CardId(49), 0),
            Event::Draw(CardId(48), 0),
        ]
    );
    let player = rules.active_player();
    assert!(player.clock.content.is_empty());
    assert_eq!(player.level.content, vec![CardId(200)]);
    assert_eq!(player.hand.content, vec![CardId(49), CardId(48)]);
}

#[test]
fn both_players_level_up_in_the_interrupt_loop() {
    let mut rules = Rules::new();
    for i in 0..14 {
        rules.state.players[1].clock.put_on_top(CardId(100 + i));
    }
    for i in 0..8 {
        rules.state.players[0].clock.put_on_top(CardId(200 + i));
    }
    rules.interrupt_type_rules_processing(&mut ()).unwrap();
    assert_eq!(rules.state.players[1].level.content, vec![CardId(100), CardId(107)]);
    assert_eq!(rules.state.players[1].waiting_room.content.len(), 12);
    assert!(rules.state.players[1].clock.content.is_empty());
    assert_eq!(rules.state.players[0].level.content, vec![CardId(200)]);
    assert_eq!(rules.state.players[0].clock.content, vec![CardId(207)]);
}

#[test]
fn out_of_range_clock_choice_abandons_the_turn() {
    let mut rules = Rules::new();
    rules.active_player_mut().draw_card().unwrap();
    assert_eq!(rules.clock_phase(&mut PickX(5)), Err(TurnError::InvalidChoice));
    assert_eq!(rules.active_player().hand.content, vec![CardId(49)]);
    assert!(rules.active_player().clock.content.is_empty());
    assert_eq!(rules.state.phase, Phase::Clock);
}

#[test]
fn out_of_range_level_up_choice_fails() {
    let mut rules = Rules::new();
    for i in 0..7 {
        rules.active_player_mut().clock.put_on_top(CardId(i));
    }
    assert_eq!(
        rules.interrupt_type_rules_processing(&mut PickX(7)),
        Err(TurnError::InvalidChoice)
    );
    assert_eq!(rules.active_player().clock.content.len(), 7);
    let mut pick_last = PickX(6);
    rules.interrupt_type_rules_processing(&mut pick_last).unwrap();
    assert_eq!(rules.active_player().level.content, vec![CardId(6)]);
}

#[test]
fn out_of_range_discard_choice_fails_without_switching() {
    let mut rules = Rules::new();
    for _ in 0..9 {
        rules.draw_card(&mut (), 0).unwrap();
    }
    assert_eq!(rules.end_phase(&mut PickX(20)), Err(TurnError::InvalidChoice));
    assert_eq!(rules.active_player().hand.content.len(), 9);
    assert_eq!(rules.state.active_player, 0);
}

#[test]
fn hand_limit_discards_the_chosen_cards() {
    let mut rules = Rules::new();
    for _ in 0..10 {
        rules.draw_card(&mut (), 0).unwrap();
    }
    // The hand holds 49 down to 40; the second card is discarded each time.
    rules.check_handlimit(&mut PickX(1), 0).unwrap();
    let player = rules.active_player();
    assert_eq!(player.hand.content.len(), 7);
    assert_eq!(
        player.waiting_room.content,
        vec![CardId(48), CardId(47), CardId(46)]
    );
    assert_eq!(all_cards(player), dealt(0));
}

#[test]
fn end_phase_discards_then_switches() {
    let mut rules = Rules::new();
    rules.state.active_player = 1;
    for _ in 0..8 {
        rules.draw_card(&mut (), 1).unwrap();
    }
    rules.end_phase(&mut ()).unwrap();
    assert_eq!(rules.state.players[1].hand.content.len(), 7);
    assert_eq!(rules.state.players[1].waiting_room.content, vec![CardId(99)]);
    assert_eq!(rules.state.active_player, 0);
    assert_eq!(rules.state.turn, 1);
}

#[test]
fn empty_deck_abandons_the_draw_phase() {
    let mut rules = Rules::new();
    rules.active_player_mut().deck = ZoneState::new();
    assert_eq!(rules.run_turn(&mut ()), Err(TurnError::DeckEmpty));
    assert_eq!(rules.state.active_player, 0);
    assert!(rules.active_player().hand.content.is_empty());
}

#[test]
fn clocking_with_one_card_left_runs_out_of_deck() {
    let mut rules = Rules::new();
    rules.active_player_mut().deck = ZoneState::with_content(vec![CardId(1)]);
    rules.active_player_mut().hand.put_on_top(CardId(2));
    assert_eq!(
        rules.clock_card(&mut (), CardId(2), 0),
        Err(TurnError::DeckEmpty)
    );
    assert_eq!(all_cards(rules.active_player()), vec![CardId(1), CardId(2)]);
}

#[test]
fn declining_to_clock_changes_nothing() {
    let mut rules = Rules::new();
    // An empty hand leaves the silent client nothing to pick.
    rules.clock_phase(&mut ()).unwrap();
    assert_eq!(rules.active_player().deck.content.len(), 50);
    assert!(rules.active_player().clock.content.is_empty());
    assert_eq!(rules.state.phase, Phase::Clock);
}

#[test]
fn stand_phase_only_changes_the_phase() {
    let mut rules = Rules::new();
    rules.state.phase = Phase::End;
    rules.stand_phase(&mut ());
    assert_eq!(rules.state.phase, Phase::Stand);
    rules.phase_change(&mut (), Phase::Draw);
    assert_eq!(rules.state.phase, Phase::Draw);
    assert_eq!(rules.active_player().deck.content.len(), 50);
}

#[test]
fn interrupt_choice_can_be_asked() {
    let options = [InterruptChoice::Level, InterruptChoice::Refresh];
    let mut pick = PickX(1);
    assert_eq!(
        Input::<InterruptChoice>::ask_required_choice(
            &mut pick,
            &options,
            0,
            ChoiceContext::InterruptTimingChoice
        ),
        1
    );
    let none: [InterruptChoice; 0] = [];
    assert_eq!(
        Input::<InterruptChoice>::ask_optional_choice(
            &mut (),
            &none,
            0,
            ChoiceContext::InterruptTimingChoice
        ),
        None
    );
}

#[test]
fn level_pick_follows_the_answer() {
    let mut rules = Rules::new();
    for i in 0..8 {
        rules.active_player_mut().clock.put_on_top(CardId(200 + i));
    }
    assert_eq!(rules.level_pick(&mut (), 0, 7), Err(TurnError::InvalidChoice));
    assert_eq!(rules.active_player().clock.content.len(), 8);
    rules.level_pick(&mut (), 0, 2).unwrap();
    let player = rules.active_player();
    assert_eq!(player.level.content, vec![CardId(202)]);
    assert_eq!(
        player.waiting_room.content,
        vec![CardId(200), CardId(201), CardId(203), CardId(204), CardId(205), CardId(206)]
    );
    assert_eq!(player.clock.content, vec![CardId(207)]);
}

#[test]
fn discard_pick_follows_the_answer() {
    let mut rules = Rules::new();
    for _ in 0..3 {
        rules.draw_card(&mut (), 0).unwrap();
    }
    assert_eq!(rules.discard_pick(&mut (), 0, 3), Err(TurnError::InvalidChoice));
    assert_eq!(rules.active_player().hand.content.len(), 3);
    rules.discard_pick(&mut (), 0, 1).unwrap();
    assert_eq!(rules.active_player().hand.content, vec![CardId(49), CardId(47)]);
    assert_eq!(rules.active_player().waiting_room.content, vec![CardId(48)]);
}

#[test]
fn clock_choice_follows_the_answer() {
    let mut rules = Rules::new();
    rules.draw_card(&mut (), 0).unwrap();
    rules.clock_choice(&mut (), None).unwrap();
    assert_eq!(rules.active_player().hand.content, vec![CardId(49)]);
    assert_eq!(rules.clock_choice(&mut (), Some(1)), Err(TurnError::InvalidChoice));
    assert_eq!(rules.active_player().hand.content, vec![CardId(49)]);
    rules.clock_choice(&mut (), Some(0)).unwrap();
    assert_eq!(rules.active_player().clock.content, vec![CardId(49)]);
    assert_eq!(rules.active_player().hand.content, vec![CardId(48), CardId(47)]);
}

#[test]
fn level_ups_go_in_passes_active_player_first() {
    let mut rules = Rules::new();
    for i in 0..14 {
        rules.state.players[0].clock.put_on_top(CardId(200 + i));
    }
    for i in 0..7 {
        rules.state.players[1].clock.put_on_top(CardId(300 + i));
    }
    let mut io = Recorder { events: Vec::new() };
    rules.interrupt_type_rules_processing(&mut io).unwrap();
    let order: Vec<(bool, usize)> = io
        .events
        .iter()
        .map(|event| match event {
            Event::Ask(ChoiceContext::LevelUpProcess, player, 7) => (true, *player),
            Event::LevelUp(_, player) => (false, *player),
            other => panic!("unexpected event {:?}", other),
        })
        .collect();
    assert_eq!(
        order,
        vec![(true, 0), (false, 0), (true, 1), (false, 1), (true, 0), (false, 0)]
    );
    // The recorder picks the last option: the seventh card from the bottom.
    assert_eq!(rules.state.players[0].level.content, vec![CardId(206), CardId(213)]);
    assert_eq!(rules.state.players[1].level.content, vec![CardId(306)]);
}

#[test]
fn hand_limit_asks_with_the_current_hand_each_round() {
    let mut rules = Rules::new();
    for _ in 0..9 {
        rules.draw_card(&mut (), 0).unwrap();
    }
    let mut io = Recorder { events: Vec::new() };
    rules.check_handlimit(&mut io, 0).unwrap();
    assert_eq!(
        io.events,
        vec![
            Event::Ask(ChoiceContext::HandLimitDiscard, 0, 9),
            Event::Discard(CardId(41), 0),
            Event::Ask(ChoiceContext::HandLimitDiscard, 0, 8),
            Event::Discard(CardId(42), 0),
        ]
    );
}
