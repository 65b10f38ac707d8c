use ws_engine::data::CardId;
use ws_engine::state::player_state::{
    DeckEmpty, DeckNotEmpty, DiscardError, LevelUpError, LevelUpResult, PlayerState,
};
use ws_engine::state::zone_state::ZoneState;

#[test]
fn draw_card() {
    let mut player = PlayerState {
        deck: ZoneState::with_content(vec![0.into()]),
        ..Default::default()
    };

    let starting_hand_size = player.hand.content.len();
    let starting_deck_size = player.deck.content.len();

    assert!(player.draw_card().is_ok());

    assert_eq!(player.hand.content.len(), starting_hand_size + 1);
    assert_eq!(player.deck.content.len(), starting_deck_size - 1);
}

#[test]
fn draw_card_empty_deck() {
    let mut player = PlayerState {
        ..Default::default()
    };

    let starting_hand_size = player.hand.content.len();
    let starting_deck_size = player.deck.content.len();

    assert!(player.draw_card().is_err());

    assert_eq!(player.hand.content.len(), starting_hand_size);
    assert_eq!(player.deck.content.len(), starting_deck_size);
}

#[test]
fn level_up() {
    let mut player = PlayerState {
        clock: ZoneState::with_content(vec![
            0.into(),
            1.into(),
            2.into(),
            3.into(),
            4.into(),
            5.into(),
            6.into(),
        ]),
        ..Default::default()
    };
    assert_eq!(player.clock.content.len(), 7);
    let starting_waiting_room_size = player.waiting_room.content.len();
    let starting_level = player.level.content.len();

    assert_eq!(
        player.level_up_with(0.into()),
        Ok(LevelUpResult {
            leveled_card: 0.into(),

            sent_to_waiting_room: vec![
                1.into(),
                2.into(),
                3.into(),
                4.into(),
                5.into(),
                6.into(),
            ]
        })
    );

    assert_eq!(*player.level.content.last().unwrap(), 0.into());
    assert_eq!(player.level.content.len(), starting_level + 1);
    assert_eq!(
        player.waiting_room.content.len(),
        starting_waiting_room_size + 6
    );
}

#[test]
fn level_up_invalid_card() {
    let mut player = PlayerState {
        clock: ZoneState::with_content(vec![
            0.into(),
            1.into(),
            2.into(),
            3.into(),
            4.into(),
            5.into(),
            6.into(),
        ]),
        ..Default::default()
    };

    assert_eq!(
        player.level_up_with(8.into()).unwrap_err(),
        LevelUpError::InvalidCard
    );
}

#[test]
fn level_up_cannot_level() {
    let mut player = PlayerState {
        clock: ZoneState::with_content(vec![
            0.into(),
            1.into(),
            2.into(),
            3.into(),
            4.into(),
            5.into(),
        ]),
        ..Default::default()
    };

    assert_eq!(
        player.level_up_with(0.into()).unwrap_err(),
        LevelUpError::CannotLevel
    );
}

#[test]
fn refresh() {
    let mut player = PlayerState {
        waiting_room: ZoneState::with_content(vec![0.into()]),
        ..Default::default()
    };

    let starting_refresh_point = player.refresh_point;

    assert!(player.needs_to_refresh());

    assert_eq!(player.refresh(), Ok(false));

    assert_eq!(player.deck.content.len(), 1);
    assert_eq!(player.waiting_room.content.len(), 0);
    assert_eq!(player.deck.content, vec![0.into()]);
    assert_eq!(player.refresh_point, starting_refresh_point + 1);
}

fn ids(range: std::ops::Range<usize>) -> Vec<CardId> {
    range.map(CardId).collect()
}

#[test]
fn new_player_is_empty_with_default_limit() {
    let player = PlayerState::new();
    assert!(player.deck.content.is_empty());
    assert!(player.hand.content.is_empty());
    assert!(player.waiting_room.content.is_empty());
    assert!(player.clock.content.is_empty());
    assert!(player.level.content.is_empty());
    assert_eq!(player.base_hand_limit, 7);
    assert_eq!(player.refresh_point, 0);
    assert!(player.needs_to_refresh());
    assert!(!player.needs_to_level());
    assert!(!player.exceeding_handlimit());
}

#[test]
fn draw_card_moves_the_top_card() {
    let mut player = PlayerState {
        deck: ZoneState::with_content(vec![CardId(10), CardId(11)]),
        hand: ZoneState::with_content(vec![CardId(3)]),
        ..Default::default()
    };
    assert_eq!(player.draw_card(), Ok(CardId(11)));
    assert_eq!(player.deck.content, vec![CardId(10)]);
    assert_eq!(player.hand.content, vec![CardId(3), CardId(11)]);
    assert_eq!(player.draw_card(), Ok(CardId(10)));
    assert_eq!(player.draw_card(), Err(DeckEmpty));
    assert_eq!(player.hand.content, vec![CardId(3), CardId(11), CardId(10)]);
}

#[test]
fn discard_card_errors_and_success() {
    let mut empty = PlayerState::new();
    empty.waiting_room.put_on_top(CardId(1));
    assert_eq!(empty.discard_card(CardId(1)), Err(DiscardError::EmptyHand));
    assert_eq!(empty.waiting_room.content, vec![CardId(1)]);

    let mut player = PlayerState {
        hand: ZoneState::with_content(vec![CardId(4), CardId(5), CardId(6)]),
        waiting_room: ZoneState::with_content(vec![CardId(9)]),
        ..Default::default()
    };
    assert_eq!(player.discard_card(CardId(7)), Err(DiscardError::InvalidCard));
    assert_eq!(player.hand.content, vec![CardId(4), CardId(5), CardId(6)]);
    assert_eq!(player.discard_card(CardId(5)), Ok(CardId(5)));
    assert_eq!(player.hand.content, vec![CardId(4), CardId(6)]);
    assert_eq!(player.waiting_room.content, vec![CardId(9), CardId(5)]);
}

#[test]
fn hand_limit_and_level_predicates() {
    let mut player = PlayerState {
        hand: ZoneState::with_content(ids(0..7)),
        clock: ZoneState::with_content(ids(10..16)),
        ..Default::default()
    };
    assert!(!player.exceeding_handlimit());
    assert!(!player.needs_to_level());
    player.hand.put_on_top(CardId(7));
    player.clock.put_on_top(CardId(16));
    assert!(player.exceeding_handlimit());
    assert!(player.needs_to_level());
}

#[test]
fn level_up_takes_only_the_bottom_seven() {
    let mut player = PlayerState {
        clock: ZoneState::with_content(ids(0..9)),
        waiting_room: ZoneState::with_content(vec![CardId(50)]),
        level: ZoneState::with_content(vec![CardId(60)]),
        ..Default::default()
    };
    let result = player.level_up_with(CardId(3)).unwrap();
    assert_eq!(result.leveled_card, CardId(3));
    assert_eq!(
        result.sent_to_waiting_room,
        vec![CardId(0), CardId(1), CardId(2), CardId(4), CardId(5), CardId(6)]
    );
    assert_eq!(player.clock.content, vec![CardId(7), CardId(8)]);
    assert_eq!(
        player.waiting_room.content,
        vec![CardId(50), CardId(0), CardId(1), CardId(2), CardId(4), CardId(5), CardId(6)]
    );
    assert_eq!(player.level.content, vec![CardId(60), CardId(3)]);
}

#[test]
fn level_up_invalid_card_leaves_the_clock_unchanged() {
    let mut player = PlayerState {
        clock: ZoneState::with_content(ids(0..8)),
        ..Default::default()
    };
    // The eighth card is in the clock but not among the bottom seven.
    assert_eq!(player.level_up_with(CardId(7)), Err(LevelUpError::InvalidCard));
    assert_eq!(player.clock.content, ids(0..8));
    assert!(player.waiting_room.content.is_empty());
    assert!(player.level.content.is_empty());
}

#[test]
fn level_up_cannot_level_leaves_the_clock_unchanged() {
    let mut player = PlayerState {
        clock: ZoneState::with_content(ids(0..6)),
        ..Default::default()
    };
    assert_eq!(player.level_up_with(CardId(0)), Err(LevelUpError::CannotLevel));
    assert_eq!(player.clock.content, ids(0..6));
}

#[test]
fn refresh_with_cards_in_deck_fails() {
    let mut player = PlayerState {
        deck: ZoneState::with_content(vec![CardId(1)]),
        waiting_room: ZoneState::with_content(vec![CardId(2), CardId(3)]),
        ..Default::default()
    };
    assert_eq!(player.refresh(), Err(DeckNotEmpty));
    assert_eq!(player.deck.content, vec![CardId(1)]);
    assert_eq!(player.waiting_room.content, vec![CardId(2), CardId(3)]);
    assert_eq!(player.refresh_point, 0);
}

#[test]
fn refresh_moves_the_whole_waiting_room() {
    let mut player = PlayerState {
        waiting_room: ZoneState::with_content(vec![CardId(2), CardId(3), CardId(4)]),
        refresh_point: 2,
        ..Default::default()
    };
    assert_eq!(player.refresh(), Ok(false));
    let mut deck = player.deck.content.clone();
    deck.sort();
    assert_eq!(deck, vec![CardId(2), CardId(3), CardId(4)]);
    assert!(player.waiting_room.content.is_empty());
    assert_eq!(player.refresh_point, 3);
}
