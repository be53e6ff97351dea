use multiway_tug::mechanics::{Action, ActionError, Card, GameState, Place, Player, PlayerId};
use rand::SeedableRng;
use rand_pcg::Pcg64;

/// Count how many cards of each value `0..7` sit in every container:
/// deck, both hands, all eight commitment slots, and the discard.
fn count_cards(gs: &GameState) -> [usize; 7] {
    let mut counts = [0usize; 7];
    for c in gs.deck.iter() {
        counts[c.0 as usize] += 1;
    }
    for p in gs.players.iter() {
        for c in p.hand.iter() {
            counts[c.0 as usize] += 1;
        }
        if let Some(c) = &p.secret {
            counts[c.0 as usize] += 1;
        }
        if let Some(d) = &p.discard {
            counts[d[0].0 as usize] += 1;
            counts[d[1].0 as usize] += 1;
        }
        if let Some((given, kept)) = &p.gift {
            counts[given.0 as usize] += 1;
            counts[kept[0].0 as usize] += 1;
            counts[kept[1].0 as usize] += 1;
        }
        if let Some((theirs, ours)) = &p.competition {
            counts[theirs[0].0 as usize] += 1;
            counts[theirs[1].0 as usize] += 1;
            counts[ours[0].0 as usize] += 1;
            counts[ours[1].0 as usize] += 1;
        }
    }
    if let Some(c) = &gs.discarded {
        counts[c.0 as usize] += 1;
    }
    counts
}

/// The fixed multiset the deck is built from: `face_value` copies of
/// each place's card.
const FULL_DECK: [usize; 7] = [2, 2, 2, 3, 3, 4, 5];

fn fresh_places() -> [Place; 7] {
    [
        Place::new(2),
        Place::new(2),
        Place::new(2),
        Place::new(3),
        Place::new(3),
        Place::new(4),
        Place::new(5),
    ]
}

fn player_with_hand(id: PlayerId, vals: &[u8]) -> Player {
    let mut p = Player::new(id);
    for v in vals {
        p.hand.push(Card(*v));
    }
    p
}

/// A mid-round position holding the full 21-card deck: player A holds
/// `[0, 3, 5, 1, 2, 4]`, player B `[6, 6, 5, 5, 4, 3]`, one card set
/// aside, the rest in the draw pile.
fn mid_round_state() -> GameState {
    GameState {
        deck: vec![
            Card(0),
            Card(1),
            Card(2),
            Card(3),
            Card(4),
            Card(5),
            Card(6),
            Card(6),
        ],
        players: [
            player_with_hand(PlayerId::First, &[0, 3, 5, 1, 2, 4]),
            player_with_hand(PlayerId::Second, &[6, 6, 5, 5, 4, 3]),
        ],
        places: fresh_places(),
        discarded: Some(Card(6)),
        rng: Pcg64::seed_from_u64(11),
        current_player: PlayerId::First,
    }
}

#[test]
fn new_game_holds_the_full_deck() {
    let gs = GameState::new(Pcg64::seed_from_u64(42));
    assert_eq!(count_cards(&gs), FULL_DECK);
    assert_eq!(gs.deck.len(), 20);
    assert!(gs.discarded.is_some());
    for p in gs.players.iter() {
        assert!(p.hand.is_empty());
        assert!(p.secret.is_none());
        assert!(p.discard.is_none());
        assert!(p.gift.is_none());
        assert!(p.competition.is_none());
    }
    for pl in gs.places.iter() {
        assert!(pl.control.is_none());
        assert_eq!(pl.scores, [0, 0]);
    }
    let faces: Vec<u8> = gs.places.iter().map(|pl| pl.face_value).collect();
    assert_eq!(faces, vec![2, 2, 2, 3, 3, 4, 5]);
}

#[test]
fn mid_round_state_is_conserved() {
    let gs = mid_round_state();
    assert_eq!(count_cards(&gs), FULL_DECK);
}

#[test]
fn gift_example_scenario() {
    // Player A commits a Gift of self-cards for places worth 2 and 3
    // and an other-card for the place worth 4.
    let mut gs = mid_round_state();
    let r = gs.apply_action(Action::Gift {
        for_player: [0, 3],
        for_other: 5,
    });
    assert_eq!(r, Ok(()));
    assert_eq!(gs.places[0].scores, [1, 0]);
    assert_eq!(gs.places[3].scores, [1, 0]);
    assert_eq!(gs.places[5].scores, [0, 1]);
    for i in [1, 2, 4, 6] {
        assert_eq!(gs.places[i].scores, [0, 0]);
    }
    assert_eq!(gs.players[0].hand.len(), 3);
    assert_eq!(gs.players[1].hand.len(), 6);
    let (given, kept) = gs.players[0].gift.as_ref().unwrap();
    assert_eq!(given.0, 5);
    assert_eq!([kept[0].0, kept[1].0], [0, 3]);
    assert_eq!(count_cards(&gs), FULL_DECK);
}

#[test]
fn turn_alternates_after_success_only() {
    let mut gs = mid_round_state();
    assert_eq!(gs.current_player, PlayerId::First);
    assert_eq!(gs.apply_action(Action::Secret { card: 0 }), Ok(()));
    assert_eq!(gs.current_player, PlayerId::Second);
    // a failing action must not flip the turn
    let r = gs.apply_action(Action::Secret { card: 0 });
    assert_eq!(r, Err(ActionError::CardNotInHand));
    assert_eq!(gs.current_player, PlayerId::Second);
    assert_eq!(gs.apply_action(Action::Secret { card: 6 }), Ok(()));
    assert_eq!(gs.current_player, PlayerId::First);
    assert_eq!(count_cards(&gs), FULL_DECK);
}

#[test]
fn illegal_action_leaves_state_identical() {
    let mut gs = mid_round_state();
    let before = gs.clone();
    // value 6 is not in A's hand
    let r = gs.apply_action(Action::Discard { cards: [0, 6] });
    assert_eq!(r, Err(ActionError::CardNotInHand));
    assert_eq!(gs.deck, before.deck);
    assert_eq!(gs.discarded, before.discarded);
    assert_eq!(gs.current_player, before.current_player);
    for i in 0..2 {
        assert_eq!(gs.players[i].hand, before.players[i].hand);
        assert_eq!(gs.players[i].secret, before.players[i].secret);
        assert_eq!(gs.players[i].discard, before.players[i].discard);
        assert_eq!(gs.players[i].gift, before.players[i].gift);
        assert_eq!(gs.players[i].competition, before.players[i].competition);
    }
    for i in 0..7 {
        assert_eq!(gs.places[i], before.places[i]);
    }
}

#[test]
fn discard_needs_both_copies() {
    // discarding the same value twice needs two copies in hand
    let mut gs = mid_round_state();
    let r = gs.apply_action(Action::Discard { cards: [4, 4] });
    assert_eq!(r, Err(ActionError::CardNotInHand));
    gs.players[0].hand.push(Card(4));
    let r = gs.apply_action(Action::Discard { cards: [4, 4] });
    assert_eq!(r, Ok(()));
    let d = gs.players[0].discard.as_ref().unwrap();
    assert_eq!([d[0].0, d[1].0], [4, 4]);
}

#[test]
fn repeated_action_type_is_unavailable() {
    let mut gs = mid_round_state();
    gs.players[0].secret = Some(Card(0));
    gs.players[0].hand.retain(|c| c.0 != 0);
    let r = gs.apply_action(Action::Secret { card: 3 });
    assert_eq!(r, Err(ActionError::ActionUnavailable));
    assert_eq!(gs.current_player, PlayerId::First);
    assert!(gs.players[0].hand.iter().any(|c| c.0 == 3));
}

#[test]
fn competition_moves_cards_from_both_hands() {
    let mut gs = mid_round_state();
    let r = gs.apply_action(Action::Competition {
        for_player: [1, 2],
        for_other: [6, 4],
    });
    assert_eq!(r, Ok(()));
    assert_eq!(gs.places[1].scores, [1, 0]);
    assert_eq!(gs.places[2].scores, [1, 0]);
    assert_eq!(gs.places[6].scores, [0, 1]);
    assert_eq!(gs.places[4].scores, [0, 1]);
    assert_eq!(gs.players[0].hand.len(), 4);
    assert_eq!(gs.players[1].hand.len(), 4);
    let (theirs, ours) = gs.players[0].competition.as_ref().unwrap();
    assert_eq!([theirs[0].0, theirs[1].0], [6, 4]);
    assert_eq!([ours[0].0, ours[1].0], [1, 2]);
    assert_eq!(count_cards(&gs), FULL_DECK);
}

#[test]
fn removal_takes_first_matching_card() {
    let mut gs = mid_round_state();
    gs.players[0].hand = vec![Card(2), Card(0), Card(2), Card(1)];
    // the deck keeps the full multiset only in the counting tests;
    // here only the removal order matters
    assert_eq!(gs.apply_action(Action::Secret { card: 2 }), Ok(()));
    let left: Vec<u8> = gs.players[0].hand.iter().map(|c| c.0).collect();
    assert_eq!(left, vec![0, 2, 1]);
}

#[test]
fn win_by_eleven_points() {
    // control of the places worth 2, 4 and 5 sums to exactly 11
    let mut gs = mid_round_state();
    gs.places[0].control = Some(PlayerId::First);
    gs.places[5].control = Some(PlayerId::First);
    gs.places[6].control = Some(PlayerId::First);
    let w = gs.update_control_and_score();
    assert_eq!(w, Some(PlayerId::First));
}

#[test]
fn win_by_four_places() {
    // four places worth 2+2+2+3 = 9 points: wins on count, not points
    let mut gs = mid_round_state();
    for i in 0..4 {
        gs.places[i].control = Some(PlayerId::Second);
    }
    let w = gs.update_control_and_score();
    assert_eq!(w, Some(PlayerId::Second));
}

#[test]
fn ten_points_and_three_places_is_no_win() {
    // places worth 2, 3 and 5: ten points over three places
    let mut gs = mid_round_state();
    gs.places[0].control = Some(PlayerId::First);
    gs.places[3].control = Some(PlayerId::First);
    gs.places[6].control = Some(PlayerId::First);
    let w = gs.update_control_and_score();
    assert_eq!(w, None);
}

#[test]
fn higher_score_takes_control_and_ties_keep_it() {
    let mut gs = mid_round_state();
    gs.places[0].scores = [2, 1];
    gs.places[1].scores = [1, 3];
    gs.places[2].control = Some(PlayerId::Second);
    gs.places[2].scores = [2, 2];
    let w = gs.update_control_and_score();
    assert_eq!(w, None);
    assert_eq!(gs.places[0].control, Some(PlayerId::First));
    assert_eq!(gs.places[1].control, Some(PlayerId::Second));
    // the tie at place 2 does not erase the existing control
    assert_eq!(gs.places[2].control, Some(PlayerId::Second));
    assert_eq!(gs.places[3].control, None);
}

/// A finished round: the draw pile empty, one card set aside, and all
/// twenty remaining cards spread over the eight commitment slots.
fn finished_round_state() -> GameState {
    GameState {
        deck: vec![],
        players: [
            Player {
                hand: vec![],
                secret: Some(Card(6)),
                discard: Some([Card(6), Card(6)]),
                gift: Some((Card(6), [Card(6), Card(5)])),
                competition: Some(([Card(5), Card(5)], [Card(5), Card(4)])),
                id: PlayerId::First,
            },
            Player {
                hand: vec![],
                secret: Some(Card(4)),
                discard: Some([Card(4), Card(3)]),
                gift: Some((Card(3), [Card(3), Card(2)])),
                competition: Some(([Card(2), Card(1)], [Card(1), Card(0)])),
                id: PlayerId::Second,
            },
        ],
        places: fresh_places(),
        discarded: Some(Card(0)),
        rng: Pcg64::seed_from_u64(3),
        current_player: PlayerId::First,
    }
}

#[test]
fn round_closure_decides_or_resets() {
    let mut gs = finished_round_state();
    assert_eq!(count_cards(&gs), FULL_DECK);
    // nobody controls anything, so the evaluation resets for the next round
    let w = gs.finish_round();
    assert_eq!(w, None);
    assert_eq!(gs.players[0].hand.len(), 6);
    assert_eq!(gs.players[1].hand.len(), 6);
    assert_eq!(gs.deck.len(), 8);
    assert!(gs.discarded.is_some());
    for p in gs.players.iter() {
        assert!(p.secret.is_none());
        assert!(p.discard.is_none());
        assert!(p.gift.is_none());
        assert!(p.competition.is_none());
    }
    for pl in gs.places.iter() {
        assert_eq!(pl.scores, [0, 0]);
    }
    assert_eq!(count_cards(&gs), FULL_DECK);
}

#[test]
fn round_closure_declares_a_winner() {
    let mut gs = finished_round_state();
    // player B outscores A at four places
    gs.places[0].scores = [0, 1];
    gs.places[1].scores = [0, 2];
    gs.places[2].scores = [1, 2];
    gs.places[3].scores = [0, 1];
    let w = gs.finish_round();
    assert_eq!(w, Some(PlayerId::Second));
    // a declared winner leaves the round as it stands: no reset
    assert_eq!(gs.deck.len(), 0);
    assert!(gs.players[0].secret.is_some());
    assert_eq!(count_cards(&gs), FULL_DECK);
}

#[test]
fn reset_returns_every_card_to_play() {
    let mut gs = finished_round_state();
    gs.places[2].control = Some(PlayerId::First);
    gs.reset();
    assert_eq!(count_cards(&gs), FULL_DECK);
    assert_eq!(gs.players[0].hand.len(), 6);
    assert_eq!(gs.players[1].hand.len(), 6);
    assert_eq!(gs.deck.len(), 8);
    assert!(gs.discarded.is_some());
    // control is deliberately left to the evaluator
    assert_eq!(gs.places[2].control, Some(PlayerId::First));
    assert_eq!(gs.places[2].scores, [0, 0]);
}

#[test]
fn snapshot_is_independent() {
    let gs = mid_round_state();
    let mut copy = gs.clone();
    assert_eq!(copy.deck, gs.deck);
    assert_eq!(copy.players[0].hand, gs.players[0].hand);
    assert_eq!(copy.players[1].hand, gs.players[1].hand);
    assert_eq!(copy.discarded, gs.discarded);
    assert_eq!(copy.current_player, gs.current_player);
    // acting on the copy must not touch the original
    assert_eq!(copy.apply_action(Action::Secret { card: 0 }), Ok(()));
    assert_eq!(gs.players[0].hand.len(), 6);
    assert!(gs.players[0].secret.is_none());
    assert_eq!(gs.current_player, PlayerId::First);
    assert_eq!(count_cards(&gs), FULL_DECK);
    assert_eq!(count_cards(&copy), FULL_DECK);
}

#[test]
fn remaining_actions_tracks_used_slots() {
    let mut gs = mid_round_state();
    assert_eq!(gs.remaining_actions(), [true, true, true, true]);
    assert_eq!(gs.apply_action(Action::Secret { card: 0 }), Ok(()));
    // now it is B's turn and B has everything left
    assert_eq!(gs.remaining_actions(), [true, true, true, true]);
    assert_eq!(gs.apply_action(Action::Discard { cards: [6, 6] }), Ok(()));
    // back to A, whose secret is used up
    assert_eq!(gs.remaining_actions(), [false, true, true, true]);
}

#[test]
fn legality_check_matches_apply() {
    let gs = mid_round_state();
    assert!(gs.is_legal(&Action::Secret { card: 0 }));
    assert!(!gs.is_legal(&Action::Secret { card: 6 }));
    assert!(gs.is_legal(&Action::Discard { cards: [0, 3] }));
    assert!(!gs.is_legal(&Action::Discard { cards: [0, 0] }));
    assert!(gs.is_legal(&Action::Gift {
        for_player: [0, 3],
        for_other: 5
    }));
    assert!(gs.is_legal(&Action::Competition {
        for_player: [0, 1],
        for_other: [6, 6]
    }));
    assert!(!gs.is_legal(&Action::Competition {
        for_player: [0, 1],
        for_other: [0, 6]
    }));
    let mut used = mid_round_state();
    used.players[0].gift = Some((Card(6), [Card(6), Card(6)]));
    assert!(!used.is_legal(&Action::Gift {
        for_player: [0, 3],
        for_other: 5
    }));
}

#[test]
fn player_ids_swap_and_index() {
    assert_eq!(PlayerId::First.index(), 0);
    assert_eq!(PlayerId::Second.index(), 1);
    assert_eq!(PlayerId::First.other(), PlayerId::Second);
    assert_eq!(PlayerId::Second.other(), PlayerId::First);
    assert_eq!(PlayerId::of_index(0), PlayerId::First);
    assert_eq!(PlayerId::of_index(1), PlayerId::Second);
    let mut p = PlayerId::First;
    p.swap();
    assert_eq!(p, PlayerId::Second);
    p.swap();
    assert_eq!(p, PlayerId::First);
}

#[test]
fn fresh_games_from_one_seed_agree() {
    let a = GameState::new(Pcg64::seed_from_u64(9));
    let b = GameState::new(Pcg64::seed_from_u64(9));
    assert_eq!(a.deck, b.deck);
    assert_eq!(a.discarded, b.discarded);
    assert_eq!(a.current_player, b.current_player);
}

#[test]
fn used_slot_reported_before_missing_card() {
    // when the slot is used and the card is absent, the slot wins
    let mut gs = mid_round_state();
    gs.players[0].secret = Some(Card(6));
    let r = gs.apply_action(Action::Secret { card: 6 });
    assert_eq!(r, Err(ActionError::ActionUnavailable));
}

#[test]
fn conservation_across_a_mixed_sequence() {
    let mut gs = mid_round_state();
    assert_eq!(gs.apply_action(Action::Secret { card: 4 }), Ok(()));
    assert_eq!(count_cards(&gs), FULL_DECK);
    assert_eq!(gs.apply_action(Action::Discard { cards: [5, 5] }), Ok(()));
    assert_eq!(count_cards(&gs), FULL_DECK);
    assert_eq!(
        gs.apply_action(Action::Gift {
            for_player: [0, 1],
            for_other: 2
        }),
        Ok(())
    );
    assert_eq!(count_cards(&gs), FULL_DECK);
    assert_eq!(
        gs.apply_action(Action::Competition {
            for_player: [6, 6],
            for_other: [3, 5]
        }),
        Ok(()),
    );
    assert_eq!(count_cards(&gs), FULL_DECK);
    // a failed action keeps the count too
    assert_eq!(
        gs.apply_action(Action::Discard { cards: [6, 6] }),
        Err(ActionError::CardNotInHand)
    );
    assert_eq!(count_cards(&gs), FULL_DECK);
}

#[test]
fn gift_can_stack_two_cards_on_one_place() {
    let mut gs = mid_round_state();
    gs.players[0].hand = vec![Card(3), Card(3), Card(2), Card(0)];
    let r = gs.apply_action(Action::Gift {
        for_player: [3, 3],
        for_other: 2,
    });
    assert_eq!(r, Ok(()));
    assert_eq!(gs.places[3].scores, [2, 0]);
    assert_eq!(gs.places[2].scores, [0, 1]);
}
