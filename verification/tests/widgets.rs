use multiway_tug::mechanics::{Card, GameState};
use multiway_tug::{char_of_digit, draw_card, CardsWidget, PlaceWidget};
use rand::SeedableRng;
use rand_pcg::Pcg64;

#[test]
fn draw_card_single() {
    assert_eq!(draw_card('2', 1), "╒═╕\n│2│\n╘═╛");
}

#[test]
fn draw_card_fans_out_behind() {
    assert_eq!(draw_card('5', 3), "╒═╕╕╕\n│5│││\n╘═╛╛╛");
}

#[test]
fn draw_card_empty_count() {
    assert_eq!(draw_card('4', 0), "\n\n\n");
}

#[test]
fn digits_of_face_values() {
    assert_eq!(char_of_digit(2), '2');
    assert_eq!(char_of_digit(3), '3');
    assert_eq!(char_of_digit(4), '4');
    assert_eq!(char_of_digit(5), '5');
}

#[test]
fn cards_widget_bounds() {
    let gs = GameState::new(Pcg64::seed_from_u64(5));
    let hand = vec![Card(0), Card(1), Card(2), Card(3), Card(4), Card(5)];
    let w = CardsWidget(&hand, &gs, false);
    assert_eq!(w.bounds(), (18, 3));
    let empty: Vec<Card> = vec![];
    let w2 = CardsWidget(&empty, &gs, true);
    assert_eq!(w2.bounds(), (0, 3));
}

#[test]
fn place_widget_carries_its_place() {
    let gs = GameState::new(Pcg64::seed_from_u64(5));
    let w = PlaceWidget(&gs.places[6], 6);
    assert_eq!(w.0.face_value, 5);
    assert_eq!(w.1, 6);
}

#[test]
fn place_text_stacks_fans_around_the_square() {
    let mut place = multiway_tug::mechanics::Place::new(4);
    place.scores = [1, 0];
    let w = PlaceWidget(&place, 5);
    assert_eq!(
        w.text(),
        "╒═╕\n│4│\n╘═╛\n╒═════╕\n│4    │\n│     │\n│    4│\n╘═════╛\n\n\n\n"
    );
}

#[test]
fn draw_card_two_deep() {
    assert_eq!(draw_card('3', 2), "╒═╕╕\n│3││\n╘═╛╛");
}
