use ws_engine::rules::Rules;

#[test]
fn switch_turns() {
    let mut rules = Rules::new();

    assert_eq!(rules.state.active_player, 0);
    assert_eq!(rules.state.turn, 0);

    rules.switch_turns();

    assert_eq!(rules.state.active_player, 1);
    assert_eq!(rules.state.turn, 0);

    rules.switch_turns();

    assert_eq!(rules.state.active_player, 0);
    assert_eq!(rules.state.turn, 1);

    rules.switch_turns();

    assert_eq!(rules.state.active_player, 1);
    assert_eq!(rules.state.turn, 1);
}

#[test]
fn end_phase() {
    let mut rules = Rules::new();

    assert_eq!(rules.state.active_player, 0);
    assert_eq!(rules.state.turn, 0);

    rules.end_phase(&mut ()).unwrap();

    assert_eq!(rules.state.active_player, 1);
    assert_eq!(rules.state.turn, 0);

    rules.end_phase(&mut ()).unwrap();

    assert_eq!(rules.state.active_player, 0);
    assert_eq!(rules.state.turn, 1);

    rules.end_phase(&mut ()).unwrap();

    assert_eq!(rules.state.active_player, 1);
    assert_eq!(rules.state.turn, 1);
}

#[test]
fn draw_phase() {
    let mut rules = Rules::new();

    let starting_hand_size = rules.active_player().hand.content.len();
    let starting_deck_size = rules.active_player().deck.content.len();

    rules.draw_phase(&mut ()).unwrap();

    assert_eq!(
        rules.active_player().hand.content.len(),
        starting_hand_size + 1
    );
    assert_eq!(
        rules.active_player().deck.content.len(),
        starting_deck_size - 1
    );
}

#[test]
fn clock_phase_no_clock() {
    let mut rules = Rules::new();

    let starting_hand_size = rules.active_player().hand.content.len();
    let starting_deck_size = rules.active_player().deck.content.len();
    let starting_clock_size = rules.active_player().clock.content.len();

    rules.clock_phase(&mut ()).unwrap();

    assert_eq!(rules.active_player().hand.content.len(), starting_hand_size);
    assert_eq!(rules.active_player().deck.content.len(), starting_deck_size);
    assert_eq!(
        rules.active_player().clock.content.len(),
        starting_clock_size
    );
}

#[test]
fn clock_phase_will_clock() {
    let mut rules = Rules::new();

    let starting_hand_size = rules.active_player().hand.content.len();
    let starting_deck_size = rules.active_player().deck.content.len();
    let starting_clock_size = rules.active_player().clock.content.len();

    rules.active_player_mut().draw_card().unwrap();

    rules.clock_phase(&mut ()).unwrap();

    assert_eq!(
        rules.active_player().hand.content.len(),
        starting_hand_size + 2
    );
    assert_eq!(
        rules.active_player().deck.content.len(),
        starting_deck_size - 3
    );
    assert_eq!(
        rules.active_player().clock.content.len(),
        starting_clock_size + 1
    );
}

#[test]
fn clock_card() {
    let mut rules = Rules::new();

    rules.active_player_mut().draw_card().unwrap();

    let starting_hand_size = rules.active_player().hand.content.len();
    let starting_clock_size = rules.active_player().clock.content.len();
    let clocked_card = rules.active_player().hand.content[0];

    rules
        .clock_card(&mut (), clocked_card, rules.state.active_player)
        .unwrap();

    // plus 2 cards - 1
    assert_eq!(
        rules.active_player().hand.content.len(),
        starting_hand_size + 1
    );
    assert_eq!(
        rules.active_player().clock.content.len(),
        starting_clock_size + 1
    );
    assert_eq!(
        *rules.active_player().clock.content.last().unwrap(),
        clocked_card
    );
}

#[test]
fn check_handlimit() {
    let mut rules = Rules::new();

    for _ in 0..10 {
        rules.draw_card(&mut (), rules.state.active_player).unwrap();
    }
    let starting_hand_size = rules.active_player().hand.content.len();
    let starting_waiting_room_size = rules.active_player().waiting_room.content.len();

    rules
        .check_handlimit(&mut (), rules.state.active_player)
        .unwrap();

    assert!(!rules.active_player().exceeding_handlimit());
    assert_eq!(
        rules.active_player().waiting_room.content.len(),
        starting_hand_size - rules.active_player().hand.content.len()
            + starting_waiting_room_size
    );
}

#[test]
fn check_leveling_up() {
    let mut rules = Rules::new();

    for i in 0..14 {
        rules.active_player_mut().clock.put_on_top(i.into());
    }

    let starting_level = rules.active_player().level.content.len();
    let starting_waiting_room_size = rules.active_player().waiting_room.content.len();
    rules.interrupt_type_rules_processing(&mut ()).unwrap();

    assert_eq!(
        rules.active_player().level.content.len(),
        starting_level + 2
    );
    assert_eq!(
        rules.active_player().waiting_room.content.len(),
        starting_waiting_room_size + 6 * 2
    )
}
