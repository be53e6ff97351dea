//! The rules engine: deck, hands, places, the four-action turn protocol,
//! round reset and the win evaluator.
//!
//! A card is a physical resource: it is created once, when the deck is
//! built, and afterwards only moves between the deck, a hand, a
//! commitment slot and the discard.  The central invariant, stated by
//! [`GameState::cards`], is that the multiset of cards over all those
//! containers never changes.

use vstd::prelude::*;
use vstd::multiset::Multiset;
use vstd::assert_by_contradiction;

verus! {

/// An indivisible resource, tagged with the index of the place it
/// belongs to (`0..7`).  Deliberately neither `Clone` nor `Copy`:
/// a card is only ever moved, never duplicated.
#[derive(PartialEq, Eq, Structural, Debug)]
pub struct Card(pub u8);

/// The hand of one player.
pub type Cards = Vec<Card>;

/// One of the two players.
#[derive(Clone, Copy, PartialEq, Eq, Structural, Debug)]
pub enum PlayerId {
    First,
    Second,
}

impl PlayerId {
    /// The array index this player's data is kept under.
    pub open spec fn idx(self) -> int {
        match self {
            PlayerId::First => 0,
            PlayerId::Second => 1,
        }
    }

    /// The opponent of this player.
    pub open spec fn spec_other(self) -> PlayerId {
        match self {
            PlayerId::First => PlayerId::Second,
            PlayerId::Second => PlayerId::First,
        }
    }

    pub fn index(self) -> (i: usize)
        ensures
            i == self.idx(),
    {
        match self {
            PlayerId::First => 0,
            PlayerId::Second => 1,
        }
    }

    pub fn other(self) -> (o: PlayerId)
        ensures
            o == self.spec_other(),
    {
        match self {
            PlayerId::First => PlayerId::Second,
            PlayerId::Second => PlayerId::First,
        }
    }

    pub fn swap(&mut self)
        ensures
            *final(self) == old(self).spec_other(),
    {
        *self = self.other();
    }

    /// This is a two-player game: any other index is left out.
    pub fn of_index(idx: usize) -> (p: PlayerId)
        requires
            idx < 2,
        ensures
            p.idx() == idx,
    {
        match idx {
            0 => PlayerId::First,
            _ => PlayerId::Second,
        }
    }
}

/// One of the seven contested locations.  `face_value` is fixed at
/// construction; `scores` counts the cards each player has committed
/// to it this round; `control` is recomputed by the win evaluator and
/// deliberately survives a reset.
#[derive(Clone, Copy, PartialEq, Eq, Debug)]
pub struct Place {
    pub control: Option<PlayerId>,
    pub scores: [u8; 2],
    pub face_value: u8,
}

impl Place {
    pub fn new(val: u8) -> (p: Place)
        ensures
            p.control is None,
            p.scores[0] == 0,
            p.scores[1] == 0,
            p.face_value == val,
    {
        Place { control: None, scores: [0, 0], face_value: val }
    }
}

/// A hand plus the four round-scoped commitment slots.  A slot is
/// `None` until the matching action is taken, then holds exactly the
/// cards that action removed, until the next reset drains them back
/// into the deck.
pub struct Player {
    /// Cards in their hand.
    pub hand: Cards,
    /// Card they secreted.
    pub secret: Option<Card>,
    /// Cards they discarded.
    pub discard: Option<[Card; 2]>,
    /// Card they gifted away and the two cards they kept.
    pub gift: Option<(Card, [Card; 2])>,
    /// Cards they gave in competition; second pair is the ones they kept.
    pub competition: Option<([Card; 2], [Card; 2])>,
    /// Their id, for reverse lookup.
    pub id: PlayerId,
}

impl Player {
    pub fn new(id: PlayerId) -> (p: Player)
        ensures
            p.hand@.len() == 0,
            p.secret is None,
            p.discard is None,
            p.gift is None,
            p.competition is None,
            p.id == id,
    {
        Player {
            hand: Vec::new(),
            secret: None,
            discard: None,
            gift: None,
            competition: None,
            id,
        }
    }
}

/// The four legal move shapes, naming the face values of the cards to
/// use (not hand positions).
#[derive(PartialEq, Eq, Debug)]
pub enum Action {
    Secret { card: u8 },
    Discard { cards: [u8; 2] },
    Gift { for_player: [u8; 2], for_other: u8 },
    Competition { for_player: [u8; 2], for_other: [u8; 2] },
}

/// A caller-contract violation, reported rather than swallowed: going
/// on regardless would break card conservation.
#[derive(Clone, Copy, PartialEq, Eq, Structural, Debug)]
pub enum ActionError {
    /// The action named a card value absent from the required hand.
    CardNotInHand,
    /// The acting player already used this action type this round.
    ActionUnavailable,
}

/// The whole game: deck, both players, the seven places, the set-aside
/// card, the owned random source and the turn flag.
pub struct GameState {
    /// Draw pile; the top is the last element.
    pub deck: Vec<Card>,
    /// Player state, indexed by `PlayerId::idx`.
    pub players: [Player; 2],
    /// Places the players are fighting for control over.
    pub places: [Place; 7],
    /// Card set aside face-down at the start of the round.
    pub discarded: Option<Card>,
    /// Randomness, owned; reseeded only at construction.
    pub rng: rand_pcg::Pcg64,
    /// Whoever acts next.
    pub current_player: PlayerId,
}

// ---------------------------------------------------------------------
// The mathematical model: card sequences and multisets.
// ---------------------------------------------------------------------

/// The face value each place accepts and is worth: fixed for the game.
pub open spec fn place_faces() -> Seq<u8> {
    seq![2u8, 2u8, 2u8, 3u8, 3u8, 4u8, 5u8]
}

/// A card value names one of the seven places.
pub open spec fn card_ok(c: Card) -> bool {
    c.0 < 7
}

pub open spec fn cards_ok(s: Seq<Card>) -> bool {
    forall|i: int| 0 <= i < s.len() ==> card_ok(#[trigger] s[i])
}

pub open spec fn opt_seq(o: Option<Card>) -> Seq<Card> {
    match o {
        Some(c) => seq![c],
        None => Seq::empty(),
    }
}

pub open spec fn pair_seq(p: [Card; 2]) -> Seq<Card> {
    seq![p[0], p[1]]
}

pub open spec fn opt_pair_seq(o: Option<[Card; 2]>) -> Seq<Card> {
    match o {
        Some(p) => pair_seq(p),
        None => Seq::empty(),
    }
}

pub open spec fn gift_seq(o: Option<(Card, [Card; 2])>) -> Seq<Card> {
    match o {
        Some(g) => seq![g.0] + pair_seq(g.1),
        None => Seq::empty(),
    }
}

pub open spec fn competition_seq(o: Option<([Card; 2], [Card; 2])>) -> Seq<Card> {
    match o {
        Some(c) => pair_seq(c.0) + pair_seq(c.1),
        None => Seq::empty(),
    }
}

impl Player {
    /// The cards currently held by this player's four commitment slots,
    /// in the fixed order a reset drains them back into the deck.
    pub open spec fn slot_seq(self) -> Seq<Card> {
        opt_seq(self.secret) + opt_pair_seq(self.discard) + gift_seq(self.gift)
            + competition_seq(self.competition)
    }

    /// Every card this player holds, in hand or committed.
    pub open spec fn cards(self) -> Multiset<Card> {
        self.hand@.to_multiset().add(self.slot_seq().to_multiset())
    }

    pub open spec fn slots_empty(self) -> bool {
        self.secret is None && self.discard is None && self.gift is None
            && self.competition is None
    }

    pub open spec fn slots_full(self) -> bool {
        self.secret is Some && self.discard is Some && self.gift is Some
            && self.competition is Some
    }

    pub open spec fn cards_ok(self) -> bool {
        cards_ok(self.hand@) && cards_ok(self.slot_seq())
    }
}

/// The deck as first built: `face_value` copies of each place's card,
/// place by place — 2+2+2+3+3+4+5 = 21 cards.  With that count a
/// completed round is exactly self-balancing: the twenty cards sitting
/// in the eight commitment slots plus the one set aside are the whole
/// deck, so a reset finds the draw pile empty and rebuilds all 21.
pub open spec fn built_deck(p: int) -> Seq<Card>
    decreases p,
{
    if p <= 0 {
        Seq::empty()
    } else {
        built_deck(p - 1) + Seq::new(place_faces()[p - 1] as nat, |i: int| Card((p - 1) as u8))
    }
}

pub open spec fn full_deck_seq() -> Seq<Card> {
    built_deck(7)
}

/// The fixed multiset of the 21 cards that exist.
pub open spec fn full_deck_ms() -> Multiset<Card> {
    full_deck_seq().to_multiset()
}

impl GameState {
    /// Every card in the game, wherever it sits: draw pile, hands,
    /// commitment slots, discard.  No operation may change this
    /// multiset — that is the card-conservation invariant.
    pub open spec fn cards(self) -> Multiset<Card> {
        self.deck@.to_multiset().add(self.players[0].cards()).add(self.players[1].cards()).add(
            opt_seq(self.discarded).to_multiset(),
        )
    }

    pub open spec fn conserved(self) -> bool {
        self.cards() == full_deck_ms()
    }

    pub open spec fn places_wf(self) -> bool {
        forall|i: int| 0 <= i < 7 ==> #[trigger] self.places[i].face_value == place_faces()[i]
    }

    /// How many score increments the committed gift and competition
    /// cards of both players account for: a gift raises three scores,
    /// a competition four.
    pub open spec fn score_budget(self) -> int {
        commit_budget(self.players[0]) + commit_budget(self.players[1])
    }

    /// Scores only ever grow when a gift or competition slot fills, so
    /// every single score stays below the budget those slots account
    /// for — and the budget never exceeds 14, which keeps the `u8`
    /// counters far from overflow.
    pub open spec fn scores_wf(self) -> bool {
        forall|i: int, j: int|
            0 <= i < 7 && 0 <= j < 2 ==> #[trigger] self.places[i].scores[j] <= self.score_budget()
    }

    pub open spec fn cards_wf(self) -> bool {
        cards_ok(self.deck@) && self.players[0].cards_ok() && self.players[1].cards_ok()
            && cards_ok(opt_seq(self.discarded))
    }

    /// Well-formedness: the fixed faces, card values in range, scores
    /// within the committed budget.
    pub open spec fn wf(self) -> bool {
        self.places_wf() && self.cards_wf() && self.scores_wf()
    }
}

pub open spec fn commit_budget(p: Player) -> int {
    (if p.gift is Some { 3int } else { 0int })
        + (if p.competition is Some { 4int } else { 0int })
}

// ---------------------------------------------------------------------
// Locating and removing cards by face value.  An action names values,
// not hand positions: the engine takes out the first card that carries
// each named value, in the order the action names them.
// ---------------------------------------------------------------------

pub open spec fn has_card(s: Seq<Card>, v: u8) -> bool {
    exists|i: int| 0 <= i < s.len() && s[i].0 == v
}

pub open spec fn first_idx(s: Seq<Card>, v: u8) -> int
    decreases s.len(),
{
    if s.len() == 0 {
        0
    } else if s[0].0 == v {
        0
    } else {
        1 + first_idx(s.drop_first(), v)
    }
}

/// The hand after the first card with value `v` is taken out.
pub open spec fn remove_first(s: Seq<Card>, v: u8) -> Seq<Card>
    decreases s.len(),
{
    if s.len() == 0 {
        s
    } else if s[0].0 == v {
        s.drop_first()
    } else {
        seq![s[0]] + remove_first(s.drop_first(), v)
    }
}

/// The hand after the named values are taken out, one after another.
pub open spec fn remove_chain(s: Seq<Card>, vals: Seq<u8>) -> Seq<Card>
    decreases vals.len(),
{
    if vals.len() == 0 {
        s
    } else {
        remove_chain(remove_first(s, vals[0]), vals.drop_first())
    }
}

/// Whether the named values can all be taken out, one after another.
pub open spec fn chain_ok(s: Seq<Card>, vals: Seq<u8>) -> bool
    decreases vals.len(),
{
    if vals.len() == 0 {
        true
    } else {
        has_card(s, vals[0]) && chain_ok(remove_first(s, vals[0]), vals.drop_first())
    }
}

proof fn lemma_first_idx(s: Seq<Card>, v: u8)
    requires
        has_card(s, v),
    ensures
        0 <= first_idx(s, v) < s.len(),
        s[first_idx(s, v)].0 == v,
        forall|j: int| 0 <= j < first_idx(s, v) ==> s[j].0 != v,
        remove_first(s, v) == s.remove(first_idx(s, v)),
        remove_first(s, v).len() == s.len() - 1,
    decreases s.len(),
{
    if s[0].0 == v {
        assert(remove_first(s, v) =~= s.remove(0));
    } else {
        let w = choose|i: int| 0 <= i < s.len() && s[i].0 == v;
        assert(s.drop_first()[w - 1].0 == v);
        lemma_first_idx(s.drop_first(), v);
        assert forall|j: int| 0 <= j < first_idx(s, v) implies s[j].0 != v by {
            if j > 0 {
                assert(s.drop_first()[j - 1] == s[j]);
            }
        }
        assert(remove_first(s, v) =~= s.remove(first_idx(s, v)));
    }
}

proof fn lemma_first_idx_at(s: Seq<Card>, v: u8, i: int)
    requires
        0 <= i < s.len(),
        s[i].0 == v,
        forall|j: int| 0 <= j < i ==> s[j].0 != v,
    ensures
        has_card(s, v),
        first_idx(s, v) == i,
    decreases s.len(),
{
    if i > 0 {
        assert(s.drop_first()[i - 1].0 == v);
        lemma_first_idx_at(s.drop_first(), v, i - 1);
    }
}

proof fn lemma_remove_first_ms(s: Seq<Card>, v: u8)
    requires
        has_card(s, v),
    ensures
        remove_first(s, v).to_multiset() == s.to_multiset().remove(Card(v)),
        s.to_multiset().count(Card(v)) >= 1,
{
    broadcast use vstd::seq_lib::group_to_multiset_ensures;

    lemma_first_idx(s, v);
    let i = first_idx(s, v);
    assert(s[i] == Card(v));
    assert(s.contains(Card(v)));
    assert(remove_first(s, v).to_multiset() =~= s.to_multiset().remove(Card(v)));
}

proof fn lemma_remove_chain_snoc(s: Seq<Card>, vals: Seq<u8>, v: u8)
    ensures
        remove_chain(s, vals.push(v)) == remove_first(remove_chain(s, vals), v),
    decreases vals.len(),
{
    if vals.len() == 0 {
        assert(vals.push(v)[0] == v);
        assert(vals.push(v).drop_first() =~= Seq::<u8>::empty());
        assert(remove_chain(s, vals.push(v)) == remove_chain(
            remove_first(s, v),
            vals.push(v).drop_first(),
        ));
        assert(remove_chain(remove_first(s, v), vals.push(v).drop_first()) == remove_first(s, v));
        assert(remove_chain(s, vals) == s);
    } else {
        assert(vals.push(v)[0] == vals[0]);
        assert(vals.push(v).drop_first() =~= vals.drop_first().push(v));
        lemma_remove_chain_snoc(remove_first(s, vals[0]), vals.drop_first(), v);
        assert(remove_chain(s, vals.push(v)) == remove_chain(
            remove_first(s, vals[0]),
            vals.drop_first().push(v),
        ));
        assert(remove_chain(s, vals) == remove_chain(remove_first(s, vals[0]), vals.drop_first()));
    }
}

fn find_card(hand: &Cards, v: u8) -> (r: Option<usize>)
    ensures
        match r {
            Some(i) => i < hand@.len() && has_card(hand@, v) && i == first_idx(hand@, v),
            None => !has_card(hand@, v),
        },
{
    let n = hand.len();
    let mut i: usize = 0;
    while i < n
        invariant
            i <= n,
            n == hand@.len(),
            forall|k: int| 0 <= k < i ==> hand@[k].0 != v,
        decreases n - i,
    {
        if hand[i].0 == v {
            proof {
                lemma_first_idx_at(hand@, v, i as int);
            }
            return Some(i);
        }
        i = i + 1;
    }
    proof {
        assert_by_contradiction!(!has_card(hand@, v), {
            let w = choose|k: int| 0 <= k < hand@.len() && hand@[k].0 == v;
            assert(hand@[w].0 != v);
        });
    }
    None
}

/// Take the first card carrying value `v` out of the hand.
fn take_card(hand: &mut Cards, v: u8) -> (c: Card)
    requires
        has_card(old(hand)@, v),
    ensures
        c == Card(v),
        final(hand)@ == remove_first(old(hand)@, v),
        final(hand)@.to_multiset() == old(hand)@.to_multiset().remove(Card(v)),
        old(hand)@.to_multiset().count(Card(v)) >= 1,
        final(hand)@.len() == old(hand)@.len() - 1,
{
    proof {
        lemma_first_idx(hand@, v);
        lemma_remove_first_ms(hand@, v);
    }
    match find_card(hand, v) {
        Some(i) => {
            let c = hand.remove(i);
            proof {
                assert(c == Card(v));
            }
            c
        },
        None => {
            proof {
                assert(false);
            }
            Card(v)
        },
    }
}

/// Copy a hand, card value by card value (used only to build the
/// simulation buffer of a legality check and the snapshot clone).
fn clone_cards(cards: &Cards) -> (r: Cards)
    ensures
        r@ == cards@,
{
    let n = cards.len();
    let mut r: Cards = Vec::new();
    let mut i: usize = 0;
    while i < n
        invariant
            i <= n,
            n == cards@.len(),
            r@ == cards@.take(i as int),
        decreases n - i,
    {
        let v = cards[i].0;
        r.push(Card(v));
        proof {
            assert(cards@[i as int] == Card(v));
            assert(cards@.take(i + 1) =~= cards@.take(i as int).push(cards@[i as int]));
        }
        i = i + 1;
    }
    proof {
        assert(cards@.take(n as int) =~= cards@);
    }
    r
}

proof fn lemma_remove_first_ok(s: Seq<Card>, v: u8)
    requires
        cards_ok(s),
        has_card(s, v),
    ensures
        cards_ok(remove_first(s, v)),
        v < 7,
    decreases s.len(),
{
    lemma_first_idx(s, v);
    let i = first_idx(s, v);
    assert(card_ok(s[i]));
    assert forall|k: int| 0 <= k < remove_first(s, v).len() implies card_ok(
        #[trigger] remove_first(s, v)[k],
    ) by {
        assert(remove_first(s, v) == s.remove(i));
        if k < i {
            assert(remove_first(s, v)[k] == s[k]);
        } else {
            assert(remove_first(s, v)[k] == s[k + 1]);
        }
    }
}

/// The committed cards of a player, slot by slot.
proof fn lemma_slot_parts(p: Player)
    ensures
        p.slot_seq().to_multiset() == opt_seq(p.secret).to_multiset().add(
            opt_pair_seq(p.discard).to_multiset(),
        ).add(gift_seq(p.gift).to_multiset()).add(competition_seq(p.competition).to_multiset()),
{
    vstd::seq_lib::lemma_multiset_commutative(opt_seq(p.secret), opt_pair_seq(p.discard));
    vstd::seq_lib::lemma_multiset_commutative(
        opt_seq(p.secret) + opt_pair_seq(p.discard),
        gift_seq(p.gift),
    );
    vstd::seq_lib::lemma_multiset_commutative(
        opt_seq(p.secret) + opt_pair_seq(p.discard) + gift_seq(p.gift),
        competition_seq(p.competition),
    );
}

/// Check, without touching the hand, that the named values could be
/// taken out one after another.
fn chain_available(hand: &Cards, vals: &Vec<u8>) -> (ok: bool)
    ensures
        ok == chain_ok(hand@, vals@),
{
    let mut sim = clone_cards(hand);
    let n = vals.len();
    let mut k: usize = 0;
    proof {
        assert(vals@.take(0) =~= Seq::<u8>::empty());
        assert(vals@.skip(0) =~= vals@);
    }
    while k < n
        invariant
            k <= n,
            n == vals@.len(),
            sim@ == remove_chain(hand@, vals@.take(k as int)),
            chain_ok(hand@, vals@) == chain_ok(sim@, vals@.skip(k as int)),
        decreases n - k,
    {
        let v = vals[k];
        match find_card(&sim, v) {
            Some(i) => {
                proof {
                    lemma_first_idx(sim@, v);
                }
                sim.remove(i);
                proof {
                    lemma_remove_chain_snoc(hand@, vals@.take(k as int), v);
                    assert(vals@.take(k as int).push(v) =~= vals@.take(k + 1));
                    assert(vals@.skip(k as int)[0] == v);
                    assert(vals@.skip(k as int).drop_first() =~= vals@.skip(k + 1));
                }
                k = k + 1;
            },
            None => {
                proof {
                    assert(vals@.skip(k as int)[0] == v);
                    assert(!chain_ok(sim@, vals@.skip(k as int)));
                }
                return false;
            },
        }
    }
    proof {
        assert(vals@.skip(n as int) =~= Seq::<u8>::empty());
    }
    true
}

// ---------------------------------------------------------------------
// What one action means: legality, and the exact state it leaves.
// ---------------------------------------------------------------------

impl GameState {
    /// Index of the acting player.
    pub open spec fn us(self) -> int {
        self.current_player.idx()
    }

    /// Index of the acting player's opponent.
    pub open spec fn them(self) -> int {
        self.current_player.spec_other().idx()
    }

    /// The commitment slot this action would fill is still empty: the
    /// acting player has not used this action type this round.
    pub open spec fn slot_free(self, action: Action) -> bool {
        match action {
            Action::Secret { .. } => self.players[self.us()].secret is None,
            Action::Discard { .. } => self.players[self.us()].discard is None,
            Action::Gift { .. } => self.players[self.us()].gift is None,
            Action::Competition { .. } => self.players[self.us()].competition is None,
        }
    }

    /// Every card value the action names can be taken out of the hand
    /// it names it from, in order.
    pub open spec fn cards_available(self, action: Action) -> bool {
        match action {
            Action::Secret { card } => chain_ok(self.players[self.us()].hand@, seq![card]),
            Action::Discard { cards } => chain_ok(
                self.players[self.us()].hand@,
                seq![cards[0], cards[1]],
            ),
            Action::Gift { for_player, for_other } => chain_ok(
                self.players[self.us()].hand@,
                seq![for_player[0], for_player[1], for_other],
            ),
            Action::Competition { for_player, for_other } => chain_ok(
                self.players[self.us()].hand@,
                seq![for_player[0], for_player[1]],
            ) && chain_ok(self.players[self.them()].hand@, seq![for_other[0], for_other[1]]),
        }
    }

    pub open spec fn action_legal(self, action: Action) -> bool {
        self.slot_free(action) && self.cards_available(action)
    }
}

pub open spec fn player_eq(a: Player, b: Player) -> bool {
    a.hand@ == b.hand@ && a.secret == b.secret && a.discard == b.discard && a.gift == b.gift
        && a.competition == b.competition && a.id == b.id
}

pub open spec fn places_eq(a: [Place; 7], b: [Place; 7]) -> bool {
    forall|i: int| 0 <= i < 7 ==> #[trigger] b[i] == a[i]
}

/// Control and face value of every place are untouched (an action only
/// moves scores; control moves only in the win evaluator).
pub open spec fn places_frame(a: [Place; 7], b: [Place; 7]) -> bool {
    forall|i: int|
        #![trigger b[i]]
        0 <= i < 7 ==> b[i].control == a[i].control && b[i].face_value == a[i].face_value
}

/// What every successful action does besides its own slot and hands:
/// deck and discard stay, the turn flag flips.
pub open spec fn state_frame(pre: GameState, post: GameState) -> bool {
    post.deck@ == pre.deck@ && post.discarded == pre.discarded && post.rng == pre.rng
        && post.current_player == pre.current_player.spec_other()
}

pub open spec fn secret_applied(pre: GameState, post: GameState, card: u8) -> bool {
    let us = pre.us();
    &&& state_frame(pre, post)
    &&& places_eq(pre.places, post.places)
    &&& player_eq(post.players[1 - us], pre.players[1 - us])
    &&& post.players[us].hand@ == remove_first(pre.players[us].hand@, card)
    &&& post.players[us].secret == Some(Card(card))
    &&& post.players[us].discard == pre.players[us].discard
    &&& post.players[us].gift == pre.players[us].gift
    &&& post.players[us].competition == pre.players[us].competition
    &&& post.players[us].id == pre.players[us].id
}

pub open spec fn discard_applied(pre: GameState, post: GameState, cards: [u8; 2]) -> bool {
    let us = pre.us();
    &&& state_frame(pre, post)
    &&& places_eq(pre.places, post.places)
    &&& player_eq(post.players[1 - us], pre.players[1 - us])
    &&& post.players[us].hand@ == remove_chain(pre.players[us].hand@, seq![cards[0], cards[1]])
    &&& (post.players[us].discard matches Some(p) && p[0] == Card(cards[0]) && p[1] == Card(
        cards[1],
    ))
    &&& post.players[us].secret == pre.players[us].secret
    &&& post.players[us].gift == pre.players[us].gift
    &&& post.players[us].competition == pre.players[us].competition
    &&& post.players[us].id == pre.players[us].id
}

pub open spec fn gift_applied(
    pre: GameState,
    post: GameState,
    for_player: [u8; 2],
    for_other: u8,
) -> bool {
    let us = pre.us();
    let them = 1 - us;
    &&& state_frame(pre, post)
    &&& places_frame(pre.places, post.places)
    &&& forall|i: int, j: int|
        0 <= i < 7 && 0 <= j < 2 ==> #[trigger] post.places[i].scores[j] as int == pre.places[
            i
        ].scores[j] + (if j == us && for_player[0] as int == i {
            1int
        } else {
            0int
        }) + (if j == us && for_player[1] as int == i {
            1int
        } else {
            0int
        }) + (if j == them && for_other as int == i {
            1int
        } else {
            0int
        })
    &&& player_eq(post.players[them], pre.players[them])
    &&& post.players[us].hand@ == remove_chain(
        pre.players[us].hand@,
        seq![for_player[0], for_player[1], for_other],
    )
    &&& (post.players[us].gift matches Some(g) && g.0 == Card(for_other) && g.1[0] == Card(
        for_player[0],
    ) && g.1[1] == Card(for_player[1]))
    &&& post.players[us].secret == pre.players[us].secret
    &&& post.players[us].discard == pre.players[us].discard
    &&& post.players[us].competition == pre.players[us].competition
    &&& post.players[us].id == pre.players[us].id
}

pub open spec fn competition_applied(
    pre: GameState,
    post: GameState,
    for_player: [u8; 2],
    for_other: [u8; 2],
) -> bool {
    let us = pre.us();
    let them = 1 - us;
    &&& state_frame(pre, post)
    &&& places_frame(pre.places, post.places)
    &&& forall|i: int, j: int|
        0 <= i < 7 && 0 <= j < 2 ==> #[trigger] post.places[i].scores[j] as int == pre.places[
            i
        ].scores[j] + (if j == us && for_player[0] as int == i {
            1int
        } else {
            0int
        }) + (if j == us && for_player[1] as int == i {
            1int
        } else {
            0int
        }) + (if j == them && for_other[0] as int == i {
            1int
        } else {
            0int
        }) + (if j == them && for_other[1] as int == i {
            1int
        } else {
            0int
        })
    &&& post.players[us].hand@ == remove_chain(
        pre.players[us].hand@,
        seq![for_player[0], for_player[1]],
    )
    &&& post.players[them].hand@ == remove_chain(
        pre.players[them].hand@,
        seq![for_other[0], for_other[1]],
    )
    &&& (post.players[us].competition matches Some(c) && c.0[0] == Card(for_other[0]) && c.0[1]
        == Card(for_other[1]) && c.1[0] == Card(for_player[0]) && c.1[1] == Card(for_player[1]))
    &&& post.players[us].secret == pre.players[us].secret
    &&& post.players[us].discard == pre.players[us].discard
    &&& post.players[us].gift == pre.players[us].gift
    &&& post.players[us].id == pre.players[us].id
    &&& post.players[them].secret == pre.players[them].secret
    &&& post.players[them].discard == pre.players[them].discard
    &&& post.players[them].gift == pre.players[them].gift
    &&& post.players[them].competition == pre.players[them].competition
    &&& post.players[them].id == pre.players[them].id
}

/// The named values, as the cards that carry them.
pub open spec fn as_cards(vals: Seq<u8>) -> Seq<Card> {
    vals.map_values(|v: u8| Card(v))
}

proof fn lemma_cards_ok_concat(a: Seq<Card>, b: Seq<Card>)
    ensures
        cards_ok(a + b) == (cards_ok(a) && cards_ok(b)),
{
    if cards_ok(a) && cards_ok(b) {
        assert forall|k: int| 0 <= k < (a + b).len() implies card_ok(#[trigger] (a + b)[k]) by {
            if k < a.len() {
                assert((a + b)[k] == a[k]);
            } else {
                assert((a + b)[k] == b[k - a.len()]);
            }
        }
    }
    if cards_ok(a + b) {
        assert forall|k: int| 0 <= k < a.len() implies card_ok(#[trigger] a[k]) by {
            assert((a + b)[k] == a[k]);
        }
        assert forall|k: int| 0 <= k < b.len() implies card_ok(#[trigger] b[k]) by {
            assert((a + b)[k + a.len()] == b[k]);
        }
    }
}

/// Taking a chain of named values out of a hand takes exactly those
/// cards out of its multiset.
proof fn lemma_chain_ms(s: Seq<Card>, vals: Seq<u8>)
    requires
        chain_ok(s, vals),
    ensures
        s.to_multiset() == remove_chain(s, vals).to_multiset().add(as_cards(vals).to_multiset()),
        cards_ok(s) ==> cards_ok(remove_chain(s, vals)) && cards_ok(as_cards(vals)),
    decreases vals.len(),
{
    broadcast use vstd::seq_lib::group_to_multiset_ensures;

    if vals.len() == 0 {
        assert(as_cards(vals) =~= Seq::<Card>::empty());
        assert(s.to_multiset() =~= remove_chain(s, vals).to_multiset().add(
            Seq::<Card>::empty().to_multiset(),
        ));
        assert(cards_ok(Seq::<Card>::empty()));
    } else {
        let v0 = vals[0];
        lemma_remove_first_ms(s, v0);
        lemma_chain_ms(remove_first(s, v0), vals.drop_first());
        assert(remove_chain(s, vals) == remove_chain(remove_first(s, v0), vals.drop_first()));
        assert(as_cards(vals) =~= seq![Card(v0)] + as_cards(vals.drop_first()));
        vstd::seq_lib::lemma_multiset_commutative(seq![Card(v0)], as_cards(vals.drop_first()));
        assert(seq![Card(v0)] =~= Seq::<Card>::empty().push(Card(v0)));
        assert(Seq::<Card>::empty().push(Card(v0)).to_multiset() =~= Seq::<
            Card,
        >::empty().to_multiset().insert(Card(v0)));
        assert(forall|x: Card| Seq::<Card>::empty().to_multiset().count(x) == 0) by {
            assert(forall|x: Card|
                !Seq::<Card>::empty().contains(x) && (Seq::<Card>::empty().contains(x)
                    <==> #[trigger] Seq::<Card>::empty().to_multiset().count(x) > 0));
        }
        assert forall|x: Card|
            s.to_multiset().count(x) == remove_chain(s, vals).to_multiset().add(
                as_cards(vals).to_multiset(),
            ).count(x) by {
            assert(s.to_multiset().count(x) == remove_first(s, v0).to_multiset().count(x) + (
            if x == Card(v0) {
                1int
            } else {
                0int
            }));
            assert(as_cards(vals).to_multiset().count(x) == Seq::<
                Card,
            >::empty().to_multiset().insert(Card(v0)).count(x) + as_cards(
                vals.drop_first(),
            ).to_multiset().count(x));
        }
        assert(s.to_multiset() =~= remove_chain(s, vals).to_multiset().add(
            as_cards(vals).to_multiset(),
        ));
        if cards_ok(s) {
            lemma_remove_first_ok(s, v0);
            assert(cards_ok(as_cards(vals))) by {
                assert(card_ok(Card(v0)));
                assert(forall|k: int|
                    0 <= k < as_cards(vals).len() ==> #[trigger] as_cards(vals)[k] == (
                    seq![Card(v0)] + as_cards(vals.drop_first()))[k]);
            }
        }
    }
}

proof fn lemma_chain1(s: Seq<Card>, a: u8)
    ensures
        remove_chain(s, seq![a]) == remove_first(s, a),
        chain_ok(s, seq![a]) == has_card(s, a),
{
    assert(seq![a][0] == a);
    assert(seq![a].drop_first() =~= Seq::<u8>::empty());
    assert(remove_chain(s, seq![a]) == remove_chain(remove_first(s, a), seq![a].drop_first()));
    assert(chain_ok(s, seq![a]) == (has_card(s, a) && chain_ok(
        remove_first(s, a),
        seq![a].drop_first(),
    )));
}

proof fn lemma_chain2(s: Seq<Card>, a: u8, b: u8)
    ensures
        remove_chain(s, seq![a, b]) == remove_first(remove_first(s, a), b),
        chain_ok(s, seq![a, b]) == (has_card(s, a) && has_card(remove_first(s, a), b)),
{
    assert(seq![a, b][0] == a);
    assert(seq![a, b].drop_first() =~= seq![b]);
    lemma_chain1(remove_first(s, a), b);
    assert(remove_chain(s, seq![a, b]) == remove_chain(remove_first(s, a), seq![b]));
    assert(chain_ok(s, seq![a, b]) == (has_card(s, a) && chain_ok(remove_first(s, a), seq![b])));
}

proof fn lemma_chain3(s: Seq<Card>, a: u8, b: u8, c: u8)
    ensures
        remove_chain(s, seq![a, b, c]) == remove_first(remove_first(remove_first(s, a), b), c),
        chain_ok(s, seq![a, b, c]) == (has_card(s, a) && has_card(remove_first(s, a), b)
            && has_card(remove_first(remove_first(s, a), b), c)),
{
    assert(seq![a, b, c][0] == a);
    assert(seq![a, b, c].drop_first() =~= seq![b, c]);
    lemma_chain2(remove_first(s, a), b, c);
    assert(remove_chain(s, seq![a, b, c]) == remove_chain(remove_first(s, a), seq![b, c]));
    assert(chain_ok(s, seq![a, b, c]) == (has_card(s, a) && chain_ok(
        remove_first(s, a),
        seq![b, c],
    )));
}

proof fn lemma_empty_ms()
    ensures
        Seq::<Card>::empty().to_multiset() == Multiset::<Card>::empty(),
{
    broadcast use vstd::seq_lib::group_to_multiset_ensures;

    assert(forall|x: Card|
        !Seq::<Card>::empty().contains(x) && (Seq::<Card>::empty().contains(x)
            <==> #[trigger] Seq::<Card>::empty().to_multiset().count(x) > 0));
    assert(Seq::<Card>::empty().to_multiset() =~= Multiset::<Card>::empty());
}

/// A player's own cards after hand cards moved into a slot: nothing
/// appeared, nothing vanished (`extra` is what arrived from outside,
/// empty but for a competition).
proof fn lemma_player_cards(p: Player, q: Player, vals: Seq<u8>, extra: Multiset<Card>)
    requires
        chain_ok(p.hand@, vals),
        q.hand@ == remove_chain(p.hand@, vals),
        q.slot_seq().to_multiset() == p.slot_seq().to_multiset().add(
            as_cards(vals).to_multiset(),
        ).add(extra),
    ensures
        q.cards() == p.cards().add(extra),
{
    lemma_chain_ms(p.hand@, vals);
    assert(q.cards() =~= p.cards().add(extra));
}

/// What a player's well-formedness means, slot part by slot part.
proof fn lemma_slots_ok(p: Player)
    ensures
        p.cards_ok() == (cards_ok(p.hand@) && cards_ok(opt_seq(p.secret)) && cards_ok(
            opt_pair_seq(p.discard),
        ) && cards_ok(gift_seq(p.gift)) && cards_ok(competition_seq(p.competition))),
{
    lemma_cards_ok_concat(opt_seq(p.secret), opt_pair_seq(p.discard));
    lemma_cards_ok_concat(opt_seq(p.secret) + opt_pair_seq(p.discard), gift_seq(p.gift));
    lemma_cards_ok_concat(
        opt_seq(p.secret) + opt_pair_seq(p.discard) + gift_seq(p.gift),
        competition_seq(p.competition),
    );
}

proof fn lemma_secret_ok(pre: GameState, post: GameState, card: u8)
    requires
        pre.wf(),
        pre.action_legal(Action::Secret { card }),
        secret_applied(pre, post, card),
    ensures
        post.wf(),
        post.cards() == pre.cards(),
{
    broadcast use vstd::seq_lib::group_to_multiset_ensures;

    let us = pre.us();
    let p = pre.players[us];
    let q = post.players[us];
    let vals = seq![card];
    assert(vals[0] == card && vals.drop_first() =~= Seq::<u8>::empty());
    assert(has_card(p.hand@, card));
    lemma_remove_first_ok(p.hand@, card);
    assert(q.hand@ == remove_chain(p.hand@, vals)) by {
        assert(remove_chain(p.hand@, vals) == remove_chain(
            remove_first(p.hand@, card),
            vals.drop_first(),
        ));
    }
    lemma_slot_parts(p);
    lemma_slot_parts(q);
    lemma_empty_ms();
    assert(opt_seq(q.secret) =~= Seq::<Card>::empty().push(Card(card)));
    assert(as_cards(vals) =~= Seq::<Card>::empty().push(Card(card)));
    assert(q.slot_seq().to_multiset() =~= p.slot_seq().to_multiset().add(
        as_cards(vals).to_multiset(),
    ).add(Multiset::<Card>::empty()));
    lemma_player_cards(p, q, vals, Multiset::<Card>::empty());
    assert(q.cards() =~= p.cards());
    assert(post.cards() =~= pre.cards());
    // well-formedness
    lemma_slots_ok(p);
    lemma_slots_ok(q);
    assert(cards_ok(opt_seq(q.secret)));
    assert(post.places_wf());
    assert(post.score_budget() == pre.score_budget());
    assert(post.scores_wf());
}

proof fn lemma_discard_ok(pre: GameState, post: GameState, cards: [u8; 2])
    requires
        pre.wf(),
        pre.action_legal(Action::Discard { cards }),
        discard_applied(pre, post, cards),
    ensures
        post.wf(),
        post.cards() == pre.cards(),
{
    broadcast use vstd::seq_lib::group_to_multiset_ensures;

    let us = pre.us();
    let p = pre.players[us];
    let q = post.players[us];
    let vals = seq![cards[0], cards[1]];
    assert(vals[0] == cards[0] && vals.drop_first() =~= seq![cards[1]]);
    lemma_chain_ms(p.hand@, vals);
    lemma_slot_parts(p);
    lemma_slot_parts(q);
    lemma_empty_ms();
    assert(opt_pair_seq(q.discard) =~= Seq::<Card>::empty().push(Card(cards[0])).push(
        Card(cards[1]),
    ));
    assert(as_cards(vals) =~= Seq::<Card>::empty().push(Card(cards[0])).push(Card(cards[1])));
    assert(q.slot_seq().to_multiset() =~= p.slot_seq().to_multiset().add(
        as_cards(vals).to_multiset(),
    ).add(Multiset::<Card>::empty()));
    lemma_player_cards(p, q, vals, Multiset::<Card>::empty());
    assert(q.cards() =~= p.cards());
    assert(post.cards() =~= pre.cards());
    lemma_slots_ok(p);
    lemma_slots_ok(q);
    assert(cards_ok(opt_pair_seq(q.discard))) by {
        assert(cards_ok(as_cards(vals)));
        assert(opt_pair_seq(q.discard) == as_cards(vals));
    }
    assert(post.places_wf());
    assert(post.score_budget() == pre.score_budget());
    assert(post.scores_wf());
}

proof fn lemma_gift_ok(pre: GameState, post: GameState, for_player: [u8; 2], for_other: u8)
    requires
        pre.wf(),
        pre.action_legal(Action::Gift { for_player, for_other }),
        gift_applied(pre, post, for_player, for_other),
    ensures
        post.wf(),
        post.cards() == pre.cards(),
{
    broadcast use vstd::seq_lib::group_to_multiset_ensures;

    let us = pre.us();
    let p = pre.players[us];
    let q = post.players[us];
    let vals = seq![for_player[0], for_player[1], for_other];
    assert(vals[0] == for_player[0] && vals.drop_first() =~= seq![for_player[1], for_other]
        && vals.drop_first().drop_first() =~= seq![for_other]);
    lemma_chain_ms(p.hand@, vals);
    lemma_slot_parts(p);
    lemma_slot_parts(q);
    lemma_empty_ms();
    assert(gift_seq(q.gift) =~= Seq::<Card>::empty().push(Card(for_other)).push(
        Card(for_player[0]),
    ).push(Card(for_player[1])));
    assert(as_cards(vals) =~= Seq::<Card>::empty().push(Card(for_player[0])).push(
        Card(for_player[1]),
    ).push(Card(for_other)));
    assert(gift_seq(q.gift).to_multiset() =~= as_cards(vals).to_multiset());
    assert(q.slot_seq().to_multiset() =~= p.slot_seq().to_multiset().add(
        as_cards(vals).to_multiset(),
    ).add(Multiset::<Card>::empty()));
    lemma_player_cards(p, q, vals, Multiset::<Card>::empty());
    assert(q.cards() =~= p.cards());
    assert(post.cards() =~= pre.cards());
    lemma_slots_ok(p);
    lemma_slots_ok(q);
    assert(cards_ok(gift_seq(q.gift))) by {
        assert(cards_ok(as_cards(vals)));
        assert(forall|k: int|
            0 <= k < 3 ==> #[trigger] gift_seq(q.gift)[k] == (Seq::<Card>::empty().push(
                Card(for_other),
            ).push(Card(for_player[0])).push(Card(for_player[1])))[k]);
        assert(card_ok(as_cards(vals)[0]) && card_ok(as_cards(vals)[1]) && card_ok(
            as_cards(vals)[2],
        ));
        assert(as_cards(vals)[0] == Card(for_player[0]) && as_cards(vals)[1] == Card(
            for_player[1],
        ) && as_cards(vals)[2] == Card(for_other));
    }
    assert(post.places_wf());
    assert(commit_budget(q) == commit_budget(p) + 3);
    assert(post.score_budget() == pre.score_budget() + 3);
    assert(post.scores_wf());
}

proof fn lemma_competition_ok(
    pre: GameState,
    post: GameState,
    for_player: [u8; 2],
    for_other: [u8; 2],
)
    requires
        pre.wf(),
        pre.action_legal(Action::Competition { for_player, for_other }),
        competition_applied(pre, post, for_player, for_other),
    ensures
        post.wf(),
        post.cards() == pre.cards(),
{
    broadcast use vstd::seq_lib::group_to_multiset_ensures;

    let us = pre.us();
    let them = 1 - us;
    let p = pre.players[us];
    let q = post.players[us];
    let p2 = pre.players[them];
    let q2 = post.players[them];
    let vals = seq![for_player[0], for_player[1]];
    let ovals = seq![for_other[0], for_other[1]];
    assert(vals[0] == for_player[0] && vals.drop_first() =~= seq![for_player[1]]);
    assert(ovals[0] == for_other[0] && ovals.drop_first() =~= seq![for_other[1]]);
    lemma_chain_ms(p.hand@, vals);
    lemma_chain_ms(p2.hand@, ovals);
    lemma_slot_parts(p);
    lemma_slot_parts(q);
    lemma_empty_ms();
    let extra = as_cards(ovals).to_multiset();
    assert(competition_seq(q.competition) =~= Seq::<Card>::empty().push(Card(for_other[0])).push(
        Card(for_other[1]),
    ).push(Card(for_player[0])).push(Card(for_player[1])));
    assert(as_cards(vals) =~= Seq::<Card>::empty().push(Card(for_player[0])).push(
        Card(for_player[1]),
    ));
    assert(as_cards(ovals) =~= Seq::<Card>::empty().push(Card(for_other[0])).push(
        Card(for_other[1]),
    ));
    assert(q.slot_seq().to_multiset() =~= p.slot_seq().to_multiset().add(
        as_cards(vals).to_multiset(),
    ).add(extra));
    lemma_player_cards(p, q, vals, extra);
    // the opponent's hand lost exactly `extra`
    assert(p2.cards() =~= q2.cards().add(extra));
    assert(post.cards() =~= pre.cards());
    lemma_slots_ok(p);
    lemma_slots_ok(q);
    lemma_slots_ok(p2);
    lemma_slots_ok(q2);
    assert(cards_ok(competition_seq(q.competition))) by {
        assert(cards_ok(as_cards(vals)) && cards_ok(as_cards(ovals)));
        assert(forall|k: int|
            0 <= k < 4 ==> #[trigger] competition_seq(q.competition)[k] == (Seq::<
                Card,
            >::empty().push(Card(for_other[0])).push(Card(for_other[1])).push(
                Card(for_player[0]),
            ).push(Card(for_player[1])))[k]);
        assert(card_ok(as_cards(vals)[0]) && card_ok(as_cards(vals)[1]) && card_ok(
            as_cards(ovals)[0],
        ) && card_ok(as_cards(ovals)[1]));
        assert(as_cards(vals)[0] == Card(for_player[0]) && as_cards(vals)[1] == Card(
            for_player[1],
        ));
        assert(as_cards(ovals)[0] == Card(for_other[0]) && as_cards(ovals)[1] == Card(
            for_other[1],
        ));
    }
    assert(post.places_wf());
    assert(commit_budget(q) == commit_budget(p) + 4);
    assert(post.score_budget() == pre.score_budget() + 4);
    assert(post.scores_wf());
}

impl GameState {
    /// Raise the score of the place a committed card names.
    fn place_card(&mut self, j: usize, v: u8)
        requires
            j < 2,
            v < 7,
            old(self).places[v as int].scores[j as int] < 100,
        ensures
            final(self).places[v as int].scores[j as int] == old(self).places[v as int].scores[
                j as int
            ] + 1,
            forall|i: int, k: int|
                0 <= i < 7 && 0 <= k < 2 && !(i == v as int && k == j as int)
                    ==> #[trigger] final(self).places[i].scores[k] == old(self).places[i].scores[k],
            places_frame(old(self).places, final(self).places),
            final(self).deck == old(self).deck,
            final(self).players == old(self).players,
            final(self).discarded == old(self).discarded,
            final(self).rng == old(self).rng,
            final(self).current_player == old(self).current_player,
    {
        let t = self.places[v as usize].scores[j];
        self.places[v as usize].scores[j] = t + 1;
    }

    /// Apply one action for the current player: check it in full,
    /// move the named cards, raise the named scores, fill the matching
    /// commitment slot and flip the turn.  An illegal action leaves
    /// the state untouched and says why.
    pub fn apply_action(&mut self, action: Action) -> (r: Result<(), ActionError>)
        requires
            old(self).wf(),
        ensures
            final(self).wf(),
            final(self).cards() == old(self).cards(),
            r is Ok <==> old(self).action_legal(action),
            (r == Err::<(), ActionError>(ActionError::ActionUnavailable)) <==> !old(
                self,
            ).slot_free(action),
            (r == Err::<(), ActionError>(ActionError::CardNotInHand)) <==> (old(self).slot_free(
                action,
            ) && !old(self).cards_available(action)),
            r is Err ==> *final(self) == *old(self),
            r is Ok ==> final(self).current_player == old(self).current_player.spec_other(),
            r is Ok ==> match action {
                Action::Secret { card } => secret_applied(*old(self), *final(self), card),
                Action::Discard { cards } => discard_applied(*old(self), *final(self), cards),
                Action::Gift { for_player, for_other } => gift_applied(
                    *old(self),
                    *final(self),
                    for_player,
                    for_other,
                ),
                Action::Competition { for_player, for_other } => competition_applied(
                    *old(self),
                    *final(self),
                    for_player,
                    for_other,
                ),
            },
    {
        let us = self.current_player.index();
        let them = self.current_player.other().index();
        proof {
            assert(old(self).score_budget() <= 14);
        }
        match action {
            Action::Secret { card } => {
                if self.players[us].secret.is_some() {
                    return Err(ActionError::ActionUnavailable);
                }
                let vals = vec![card];
                proof {
                    assert(vals@ =~= seq![card]);
                }
                if !chain_available(&self.players[us].hand, &vals) {
                    return Err(ActionError::CardNotInHand);
                }
                proof {
                    lemma_chain1(self.players[us as int].hand@, card);
                }
                let c = take_card(&mut self.players[us].hand, card);
                self.players[us].secret = Some(c);
                self.current_player = self.current_player.other();
                proof {
                    lemma_chain1(old(self).players[us as int].hand@, card);
                    assert(secret_applied(*old(self), *self, card));
                    lemma_secret_ok(*old(self), *self, card);
                }
                Ok(())
            },
            Action::Discard { cards } => {
                if self.players[us].discard.is_some() {
                    return Err(ActionError::ActionUnavailable);
                }
                let vals = vec![cards[0], cards[1]];
                proof {
                    assert(vals@ =~= seq![cards[0], cards[1]]);
                }
                if !chain_available(&self.players[us].hand, &vals) {
                    return Err(ActionError::CardNotInHand);
                }
                let ghost h0 = self.players[us as int].hand@;
                proof {
                    lemma_chain2(h0, cards[0], cards[1]);
                }
                let c0 = take_card(&mut self.players[us].hand, cards[0]);
                let c1 = take_card(&mut self.players[us].hand, cards[1]);
                self.players[us].discard = Some([c0, c1]);
                self.current_player = self.current_player.other();
                proof {
                    lemma_chain2(h0, cards[0], cards[1]);
                    assert(self.players[old(self).us()].discard matches Some(p) && p[0] == Card(
                        cards[0],
                    ) && p[1] == Card(cards[1]));
                    assert(discard_applied(*old(self), *self, cards));
                    lemma_discard_ok(*old(self), *self, cards);
                }
                Ok(())
            },
            Action::Gift { for_player, for_other } => {
                if self.players[us].gift.is_some() {
                    return Err(ActionError::ActionUnavailable);
                }
                let vals = vec![for_player[0], for_player[1], for_other];
                proof {
                    assert(vals@ =~= seq![for_player[0], for_player[1], for_other]);
                }
                if !chain_available(&self.players[us].hand, &vals) {
                    return Err(ActionError::CardNotInHand);
                }
                let ghost h0 = self.players[us as int].hand@;
                proof {
                    lemma_chain3(h0, for_player[0], for_player[1], for_other);
                    lemma_remove_first_ok(h0, for_player[0]);
                    lemma_remove_first_ok(remove_first(h0, for_player[0]), for_player[1]);
                    lemma_remove_first_ok(
                        remove_first(remove_first(h0, for_player[0]), for_player[1]),
                        for_other,
                    );
                }
                let ca = take_card(&mut self.players[us].hand, for_player[0]);
                let cb = take_card(&mut self.players[us].hand, for_player[1]);
                let co = take_card(&mut self.players[us].hand, for_other);
                let ghost mid0 = *self;
                self.place_card(us, for_player[0]);
                self.place_card(us, for_player[1]);
                self.place_card(them, for_other);
                self.players[us].gift = Some((co, [ca, cb]));
                self.current_player = self.current_player.other();
                proof {
                    lemma_chain3(h0, for_player[0], for_player[1], for_other);
                    assert(self.players[old(self).us()].gift matches Some(g) && g.0 == Card(
                        for_other,
                    ) && g.1[0] == Card(for_player[0]) && g.1[1] == Card(for_player[1]));
                    assert forall|i: int, j: int| 0 <= i < 7 && 0 <= j < 2 implies #[trigger] self
                        .places[i].scores[j] as int == old(self).places[i].scores[j] + (if j == old(
                        self,
                    ).us() && for_player[0] as int == i {
                        1int
                    } else {
                        0int
                    }) + (if j == old(self).us() && for_player[1] as int == i {
                        1int
                    } else {
                        0int
                    }) + (if j == (1 - old(self).us()) && for_other as int == i {
                        1int
                    } else {
                        0int
                    }) by {
                        assert(mid0.places[i].scores[j] == old(self).places[i].scores[j]);
                    }
                    assert(gift_applied(*old(self), *self, for_player, for_other));
                    lemma_gift_ok(*old(self), *self, for_player, for_other);
                }
                Ok(())
            },
            Action::Competition { for_player, for_other } => {
                if self.players[us].competition.is_some() {
                    return Err(ActionError::ActionUnavailable);
                }
                let vals = vec![for_player[0], for_player[1]];
                let ovals = vec![for_other[0], for_other[1]];
                proof {
                    assert(vals@ =~= seq![for_player[0], for_player[1]]);
                    assert(ovals@ =~= seq![for_other[0], for_other[1]]);
                }
                if !chain_available(&self.players[us].hand, &vals) {
                    return Err(ActionError::CardNotInHand);
                }
                if !chain_available(&self.players[them].hand, &ovals) {
                    return Err(ActionError::CardNotInHand);
                }
                let ghost h0 = self.players[us as int].hand@;
                let ghost o0 = self.players[them as int].hand@;
                proof {
                    lemma_chain2(h0, for_player[0], for_player[1]);
                    lemma_chain2(o0, for_other[0], for_other[1]);
                    lemma_remove_first_ok(h0, for_player[0]);
                    lemma_remove_first_ok(remove_first(h0, for_player[0]), for_player[1]);
                    lemma_remove_first_ok(o0, for_other[0]);
                    lemma_remove_first_ok(remove_first(o0, for_other[0]), for_other[1]);
                }
                let ca = take_card(&mut self.players[us].hand, for_player[0]);
                let cb = take_card(&mut self.players[us].hand, for_player[1]);
                let oa = take_card(&mut self.players[them].hand, for_other[0]);
                let ob = take_card(&mut self.players[them].hand, for_other[1]);
                let ghost mid0 = *self;
                self.place_card(us, for_player[0]);
                self.place_card(us, for_player[1]);
                self.place_card(them, for_other[0]);
                self.place_card(them, for_other[1]);
                self.players[us].competition = Some(([oa, ob], [ca, cb]));
                self.current_player = self.current_player.other();
                proof {
                    lemma_chain2(h0, for_player[0], for_player[1]);
                    lemma_chain2(o0, for_other[0], for_other[1]);
                    assert(self.players[old(self).us()].competition matches Some(c) && c.0[0]
                        == Card(for_other[0]) && c.0[1] == Card(for_other[1]) && c.1[0] == Card(
                        for_player[0],
                    ) && c.1[1] == Card(for_player[1]));
                    assert forall|i: int, j: int| 0 <= i < 7 && 0 <= j < 2 implies #[trigger] self
                        .places[i].scores[j] as int == old(self).places[i].scores[j] + (if j == old(
                        self,
                    ).us() && for_player[0] as int == i {
                        1int
                    } else {
                        0int
                    }) + (if j == old(self).us() && for_player[1] as int == i {
                        1int
                    } else {
                        0int
                    }) + (if j == (1 - old(self).us()) && for_other[0] as int == i {
                        1int
                    } else {
                        0int
                    }) + (if j == (1 - old(self).us()) && for_other[1] as int == i {
                        1int
                    } else {
                        0int
                    }) by {
                        assert(mid0.places[i].scores[j] == old(self).places[i].scores[j]);
                    }
                    assert(competition_applied(*old(self), *self, for_player, for_other));
                    lemma_competition_ok(*old(self), *self, for_player, for_other);
                }
                Ok(())
            },
        }
    }
}

// ---------------------------------------------------------------------
// Construction: the fixed deck, shuffled, one card set aside.
// ---------------------------------------------------------------------

proof fn lemma_full_deck_len()
    ensures
        full_deck_seq().len() == 21,
{
    assert(built_deck(0).len() == 0);
    assert(built_deck(1).len() == 2);
    assert(built_deck(2).len() == 4);
    assert(built_deck(3).len() == 6);
    assert(built_deck(4).len() == 9);
    assert(built_deck(5).len() == 12);
    assert(built_deck(6).len() == 16);
    assert(built_deck(7).len() == 21);
}

proof fn lemma_built_deck_ok(p: int)
    requires
        p <= 7,
    ensures
        cards_ok(built_deck(p)),
    decreases p,
{
    if p > 0 {
        lemma_built_deck_ok(p - 1);
        assert forall|k: int| 0 <= k < built_deck(p).len() implies card_ok(
            #[trigger] built_deck(p)[k],
        ) by {
            if k < built_deck(p - 1).len() {
                assert(built_deck(p)[k] == built_deck(p - 1)[k]);
            } else {
                assert(built_deck(p)[k] == Card((p - 1) as u8));
            }
        }
    }
}

/// Two hands with the same cards are well-formed together: card values
/// survive any reordering of the multiset.
proof fn lemma_cards_ok_ms(a: Seq<Card>, b: Seq<Card>)
    requires
        a.to_multiset() == b.to_multiset(),
        cards_ok(a),
    ensures
        cards_ok(b),
{
    broadcast use vstd::seq_lib::group_to_multiset_ensures;

    assert forall|k: int| 0 <= k < b.len() implies card_ok(#[trigger] b[k]) by {
        assert(b.contains(b[k]));
        assert(a.to_multiset().count(b[k]) > 0);
        assert(a.contains(b[k]));
        let i = choose|i: int| 0 <= i < a.len() && a[i] == b[k];
        assert(card_ok(a[i]));
    }
}

fn face_of(i: usize) -> (f: u8)
    requires
        i < 7,
    ensures
        f == place_faces()[i as int],
{
    if i < 3 {
        2
    } else if i < 5 {
        3
    } else if i == 5 {
        4
    } else {
        5
    }
}

/// Enumerate `face_value` copies of each place's card, place by place.
fn build_deck() -> (deck: Vec<Card>)
    ensures
        deck@ == full_deck_seq(),
        deck@.len() == 21,
{
    let mut deck: Vec<Card> = Vec::new();
    let mut p: usize = 0;
    proof {
        assert(deck@ =~= built_deck(0));
    }
    while p < 7
        invariant
            p <= 7,
            deck@ == built_deck(p as int),
        decreases 7 - p,
    {
        let f = face_of(p);
        let mut j: u8 = 0;
        proof {
            assert(deck@ =~= built_deck(p as int) + Seq::new(0, |i: int| Card(p as u8)));
        }
        while j < f
            invariant
                j <= f,
                p < 7,
                f == place_faces()[p as int],
                deck@ == built_deck(p as int) + Seq::new(j as nat, |i: int| Card(p as u8)),
            decreases f - j,
        {
            deck.push(Card(p as u8));
            proof {
                assert(deck@ =~= built_deck(p as int) + Seq::new(
                    (j + 1) as nat,
                    |i: int| Card(p as u8),
                ));
            }
            j = j + 1;
        }
        proof {
            assert(built_deck(p + 1) == built_deck(p as int) + Seq::new(
                place_faces()[p as int] as nat,
                |i: int| Card(((p + 1) - 1) as u8),
            ));
            assert(Seq::new(place_faces()[p as int] as nat, |i: int| Card(((p + 1) - 1) as u8))
                =~= Seq::new(f as nat, |i: int| Card(p as u8)));
        }
        p = p + 1;
    }
    proof {
        lemma_full_deck_len();
    }
    deck
}

impl GameState {
    /// A fresh game: the full deck built and shuffled, one card set
    /// aside face-down, a random starting player, nothing dealt yet
    /// (hands are dealt by the first reset).
    pub fn new(rng: rand_pcg::Pcg64) -> (gs: GameState)
        ensures
            gs.wf(),
            gs.conserved(),
            gs.deck@.len() == 20,
            gs.discarded is Some,
            gs.players[0].slots_empty() && gs.players[1].slots_empty(),
            gs.players[0].hand@.len() == 0 && gs.players[1].hand@.len() == 0,
            gs.players[0].id == PlayerId::First && gs.players[1].id == PlayerId::Second,
            forall|i: int|
                0 <= i < 7 ==> (#[trigger] gs.places[i]).control is None && gs.places[i].scores[0]
                    == 0 && gs.places[i].scores[1] == 0,
    {
        let mut rng = rng;
        let start = PlayerId::of_index(crate::rng::pick_index(&mut rng));
        let mut deck = build_deck();
        crate::rng::shuffle_cards(&mut deck, &mut rng);
        let ghost shuffled = deck@;
        let discarded = deck.pop();
        let gs = GameState {
            deck,
            players: [Player::new(PlayerId::First), Player::new(PlayerId::Second)],
            places: [
                Place::new(2),
                Place::new(2),
                Place::new(2),
                Place::new(3),
                Place::new(3),
                Place::new(4),
                Place::new(5),
            ],
            discarded,
            rng,
            current_player: start,
        };
        proof {
            broadcast use vstd::seq_lib::group_to_multiset_ensures;

            lemma_full_deck_len();
            lemma_built_deck_ok(7);
            lemma_cards_ok_ms(full_deck_seq(), shuffled);
            // the popped card and what is left of the pile
            assert(gs.discarded == Some(shuffled[20]) && gs.deck@ == shuffled.subrange(0, 20));
            assert(shuffled.remove(20) =~= shuffled.subrange(0, 20));
            assert(shuffled.contains(shuffled[20]));
            assert(gs.deck@.to_multiset() == shuffled.to_multiset().remove(shuffled[20]));
            // nobody holds anything yet
            lemma_empty_ms();
            assert(gs.players[0].slot_seq() =~= Seq::<Card>::empty());
            assert(gs.players[1].slot_seq() =~= Seq::<Card>::empty());
            assert(gs.players[0].cards() =~= Multiset::<Card>::empty());
            assert(gs.players[1].cards() =~= Multiset::<Card>::empty());
            assert(opt_seq(gs.discarded) =~= Seq::<Card>::empty().push(shuffled[20]));
            assert(gs.cards() =~= full_deck_ms());
            // well-formedness
            assert(cards_ok(gs.deck@)) by {
                assert(forall|k: int|
                    0 <= k < 20 ==> #[trigger] gs.deck@[k] == shuffled[k] && card_ok(shuffled[k]));
            }
            assert(cards_ok(opt_seq(gs.discarded))) by {
                assert(card_ok(shuffled[20]));
                assert(opt_seq(gs.discarded)[0] == shuffled[20]);
            }
            assert(gs.players[0].cards_ok() && gs.players[1].cards_ok()) by {
                lemma_slots_ok(gs.players[0]);
                lemma_slots_ok(gs.players[1]);
            }
            assert(gs.places_wf()) by {
                assert(gs.places[0].face_value == 2 && gs.places[1].face_value == 2 && gs.places[2].face_value
                    == 2 && gs.places[3].face_value == 3 && gs.places[4].face_value == 3
                    && gs.places[5].face_value == 4 && gs.places[6].face_value == 5);
            }
            assert(gs.scores_wf());
        }
        gs
    }
}

impl GameState {
    /// Drain one player's four commitment slots back into the deck, in
    /// the fixed slot order: secret, discard, gift, competition.
    fn drain_player(&mut self, idx: usize)
        requires
            idx < 2,
            old(self).players[idx as int].slots_full(),
        ensures
            final(self).deck@ == old(self).deck@ + old(self).players[idx as int].slot_seq(),
            final(self).players[idx as int].slots_empty(),
            final(self).players[idx as int].hand@ == old(self).players[idx as int].hand@,
            final(self).players[idx as int].id == old(self).players[idx as int].id,
            final(self).players[1 - idx as int] == old(self).players[1 - idx as int],
            final(self).places == old(self).places,
            final(self).discarded == old(self).discarded,
            final(self).rng == old(self).rng,
            final(self).current_player == old(self).current_player,
    {
        let ghost sp = old(self).players[idx as int];
        match self.players[idx].secret.take() {
            Some(c) => self.deck.push(c),
            None => {
                proof {
                    assert(false);
                }
            },
        }
        match self.players[idx].discard.take() {
            Some(pair) => {
                let d0 = Card(pair[0].0);
                let d1 = Card(pair[1].0);
                proof {
                    assert(d0 == pair[0] && d1 == pair[1]);
                }
                self.deck.push(d0);
                self.deck.push(d1);
            },
            None => {
                proof {
                    assert(false);
                }
            },
        }
        match self.players[idx].gift.take() {
            Some(g) => {
                let (g0, kept) = g;
                let g1 = Card(kept[0].0);
                let g2 = Card(kept[1].0);
                proof {
                    assert(g1 == kept[0] && g2 == kept[1]);
                }
                self.deck.push(g0);
                self.deck.push(g1);
                self.deck.push(g2);
            },
            None => {
                proof {
                    assert(false);
                }
            },
        }
        match self.players[idx].competition.take() {
            Some(c) => {
                let (theirs, ours) = c;
                let t0 = Card(theirs[0].0);
                let t1 = Card(theirs[1].0);
                let o0 = Card(ours[0].0);
                let o1 = Card(ours[1].0);
                proof {
                    assert(t0 == theirs[0] && t1 == theirs[1] && o0 == ours[0] && o1 == ours[1]);
                }
                self.deck.push(t0);
                self.deck.push(t1);
                self.deck.push(o0);
                self.deck.push(o1);
            },
            None => {
                proof {
                    assert(false);
                }
            },
        }
        proof {
            assert(self.deck@ =~= old(self).deck@ + sp.slot_seq());
        }
    }

    /// Deal six cards off the top of the deck into one player's hand.
    fn deal(&mut self, idx: usize)
        requires
            idx < 2,
            old(self).deck@.len() >= 6,
            cards_ok(old(self).deck@),
            cards_ok(old(self).players[idx as int].hand@),
        ensures
            final(self).cards() == old(self).cards(),
            final(self).players[idx as int].hand@.len() == old(self).players[
                idx as int
            ].hand@.len() + 6,
            cards_ok(final(self).deck@),
            cards_ok(final(self).players[idx as int].hand@),
            final(self).players[idx as int].secret == old(self).players[idx as int].secret,
            final(self).players[idx as int].discard == old(self).players[idx as int].discard,
            final(self).players[idx as int].gift == old(self).players[idx as int].gift,
            final(self).players[idx as int].competition == old(self).players[
                idx as int
            ].competition,
            final(self).players[idx as int].id == old(self).players[idx as int].id,
            final(self).players[1 - idx as int] == old(self).players[1 - idx as int],
            final(self).deck@.len() == old(self).deck@.len() - 6,
            final(self).places == old(self).places,
            final(self).discarded == old(self).discarded,
            final(self).rng == old(self).rng,
            final(self).current_player == old(self).current_player,
    {
        let mut t: usize = 0;
        while t < 6
            invariant
                t <= 6,
                idx < 2,
                self.deck@.len() == old(self).deck@.len() - t,
                old(self).deck@.len() >= 6,
                self.cards() == old(self).cards(),
                cards_ok(self.deck@),
                cards_ok(self.players[idx as int].hand@),
                self.players[idx as int].hand@.len() == old(self).players[idx as int].hand@.len()
                    + t,
                self.players[idx as int].secret == old(self).players[idx as int].secret,
                self.players[idx as int].discard == old(self).players[idx as int].discard,
                self.players[idx as int].gift == old(self).players[idx as int].gift,
                self.players[idx as int].competition == old(self).players[idx as int].competition,
                self.players[idx as int].id == old(self).players[idx as int].id,
                self.players[1 - idx as int] == old(self).players[1 - idx as int],
                self.places == old(self).places,
                self.discarded == old(self).discarded,
                self.rng == old(self).rng,
                self.current_player == old(self).current_player,
            decreases 6 - t,
        {
            let ghost before = *self;
            let ghost d0 = self.deck@;
            let c = match self.deck.pop() {
                Some(c) => c,
                None => {
                    proof {
                        assert(false);
                    }
                    Card(0)
                },
            };
            self.players[idx].hand.push(c);
            proof {
                broadcast use vstd::seq_lib::group_to_multiset_ensures;

                let last = d0.len() - 1;
                assert(d0.remove(last) =~= d0.subrange(0, last));
                assert(self.deck@.to_multiset() == d0.to_multiset().remove(d0[last]));
                assert(d0.contains(d0[last]));
                assert(card_ok(c));
                assert(cards_ok(self.deck@)) by {
                    assert(forall|k: int|
                        0 <= k < self.deck@.len() ==> #[trigger] self.deck@[k] == d0[k]);
                }
                assert(cards_ok(self.players[idx as int].hand@)) by {
                    assert(forall|k: int|
                        0 <= k < before.players[idx as int].hand@.len()
                            ==> #[trigger] self.players[idx as int].hand@[k] == before.players[
                            idx as int
                        ].hand@[k]);
                    assert(self.players[idx as int].hand@.last() == c);
                }
                assert(self.cards() =~= before.cards());
            }
            t = t + 1;
        }
    }

    /// Reset between rounds: the set-aside card and all eight
    /// commitment slots go back into the deck, scores are zeroed
    /// (control deliberately stays), the deck is reshuffled, one card
    /// set aside, and six cards dealt to each player in turn.  Only
    /// valid between rounds: the draw pile must be empty and every
    /// slot full, which is exactly what a completed round leaves.
    pub fn reset(&mut self)
        requires
            old(self).wf(),
            old(self).deck@.len() == 0,
            old(self).discarded is Some,
            old(self).players[0].slots_full(),
            old(self).players[1].slots_full(),
        ensures
            final(self).wf(),
            final(self).cards() == old(self).cards(),
            final(self).players[0].slots_empty() && final(self).players[1].slots_empty(),
            final(self).players[0].hand@.len() == old(self).players[0].hand@.len() + 6,
            final(self).players[1].hand@.len() == old(self).players[1].hand@.len() + 6,
            forall|i: int|
                0 <= i < 7 ==> (#[trigger] final(self).places[i]).scores[0] == 0
                    && final(self).places[i].scores[1] == 0,
            places_frame(old(self).places, final(self).places),
            final(self).discarded is Some,
            final(self).deck@.len() == 8,
            final(self).current_player == old(self).current_player,
            final(self).players[0].id == old(self).players[0].id,
            final(self).players[1].id == old(self).players[1].id,
    {
        broadcast use vstd::seq_lib::group_to_multiset_ensures;

        // the set-aside card goes back first
        match self.discarded.take() {
            Some(c) => self.deck.push(c),
            None => {
                proof {
                    assert(false);
                }
            },
        }
        let ghost s1 = *self;
        proof {
            assert(opt_seq(old(self).discarded) =~= Seq::<Card>::empty().push(
                old(self).discarded.unwrap(),
            ));
            assert(s1.deck@ =~= Seq::<Card>::empty().push(old(self).discarded.unwrap()));
            lemma_empty_ms();
            assert(s1.cards() =~= old(self).cards());
        }
        // then both players' slots, acting player first
        let cur = self.current_player.index();
        let oth = self.current_player.other().index();
        self.drain_player(cur);
        let ghost s2 = *self;
        proof {
            vstd::seq_lib::lemma_multiset_commutative(s1.deck@, s1.players[cur as int].slot_seq());
            lemma_empty_ms();
            assert(s2.players[cur as int].slot_seq() =~= Seq::<Card>::empty());
            assert(s2.cards() =~= s1.cards());
        }
        self.drain_player(oth);
        let ghost s3 = *self;
        proof {
            vstd::seq_lib::lemma_multiset_commutative(s2.deck@, s2.players[oth as int].slot_seq());
            lemma_empty_ms();
            assert(s3.players[oth as int].slot_seq() =~= Seq::<Card>::empty());
            assert(s3.cards() =~= s2.cards());
            // every container is still in range, so the rebuilt pile is too
            assert(cards_ok(s3.deck@)) by {
                lemma_slots_ok(old(self).players[0]);
                lemma_slots_ok(old(self).players[1]);
                lemma_cards_ok_concat(s1.deck@, s1.players[cur as int].slot_seq());
                lemma_cards_ok_concat(s2.deck@, s2.players[oth as int].slot_seq());
                assert(cards_ok(s1.deck@)) by {
                    assert(s1.deck@[0] == old(self).discarded.unwrap());
                }
            }
            assert(s3.deck@.len() == 21) by {
                assert(s1.players[cur as int].slot_seq().len() == 10);
                assert(s2.players[oth as int].slot_seq().len() == 10);
            }
        }
        // zero every place's scores; control is left for the evaluator
        let ghost sp = *self;
        let mut i: usize = 0;
        while i < 7
            invariant
                i <= 7,
                forall|k: int|
                    0 <= k < i ==> (#[trigger] self.places[k]).scores[0] == 0
                        && self.places[k].scores[1] == 0,
                forall|k: int|
                    #![trigger self.places[k]]
                    0 <= k < 7 ==> self.places[k].control == sp.places[k].control
                        && self.places[k].face_value == sp.places[k].face_value,
                self.deck == sp.deck,
                self.players == sp.players,
                self.discarded == sp.discarded,
                self.rng == sp.rng,
                self.current_player == sp.current_player,
            decreases 7 - i,
        {
            let mut pl = self.places[i];
            pl.scores = [0, 0];
            self.places[i] = pl;
            i = i + 1;
        }
        let ghost s4 = *self;
        proof {
            assert(s4.cards() == s3.cards());
        }
        // reshuffle the whole pile and set one card aside again
        crate::rng::shuffle_cards(&mut self.deck, &mut self.rng);
        let ghost s5 = *self;
        proof {
            assert(s5.cards() =~= s4.cards());
            lemma_cards_ok_ms(s4.deck@, s5.deck@);
        }
        let ghost d5 = self.deck@;
        match self.deck.pop() {
            Some(c) => {
                self.discarded = Some(c);
            },
            None => {
                proof {
                    assert(false);
                }
            },
        }
        let ghost s6 = *self;
        proof {
            let last = d5.len() - 1;
            assert(d5.remove(last) =~= d5.subrange(0, last));
            assert(s6.deck@.to_multiset() == d5.to_multiset().remove(d5[last]));
            assert(d5.contains(d5[last]));
            lemma_empty_ms();
            assert(opt_seq(s6.discarded) =~= Seq::<Card>::empty().push(d5[last]));
            assert(s6.cards() =~= s5.cards());
            assert(cards_ok(s6.deck@)) by {
                assert(forall|k: int| 0 <= k < s6.deck@.len() ==> #[trigger] s6.deck@[k] == d5[k]);
            }
            assert(cards_ok(opt_seq(s6.discarded))) by {
                assert(card_ok(d5[last]));
                assert(opt_seq(s6.discarded)[0] == d5[last]);
            }
        }
        // six cards to each player, in player order
        self.deal(0);
        self.deal(1);
        proof {
            lemma_slots_ok(self.players[0]);
            lemma_slots_ok(self.players[1]);
            lemma_empty_ms();
        }
    }
}

// ---------------------------------------------------------------------
// Win evaluation: derive control from scores, tally, check thresholds.
// ---------------------------------------------------------------------

/// The control a place ends up with after one evaluation pass: the
/// higher score takes it; a tie leaves the previous control standing.
pub open spec fn new_control(pl: Place) -> Option<PlayerId> {
    if pl.scores[0] > pl.scores[1] {
        Some(PlayerId::First)
    } else if pl.scores[1] > pl.scores[0] {
        Some(PlayerId::Second)
    } else {
        pl.control
    }
}

pub open spec fn points_upto(places: [Place; 7], p: PlayerId, n: int) -> int
    decreases n,
{
    if n <= 0 {
        0
    } else {
        points_upto(places, p, n - 1) + (if places[n - 1].control == Some(p) {
            places[n - 1].face_value as int
        } else {
            0int
        })
    }
}

/// Total face value of the places a player controls.
pub open spec fn points(places: [Place; 7], p: PlayerId) -> int {
    points_upto(places, p, 7)
}

pub open spec fn controlled_upto(places: [Place; 7], p: PlayerId, n: int) -> int
    decreases n,
{
    if n <= 0 {
        0
    } else {
        controlled_upto(places, p, n - 1) + (if places[n - 1].control == Some(p) {
            1int
        } else {
            0int
        })
    }
}

/// How many places a player controls.
pub open spec fn controlled(places: [Place; 7], p: PlayerId) -> int {
    controlled_upto(places, p, 7)
}

/// The decision after a control pass: eleven points win outright,
/// checked for the first player before the second; failing that, four
/// controlled places, in the same order; otherwise play goes on.
pub open spec fn winner_of(places: [Place; 7]) -> Option<PlayerId> {
    if points(places, PlayerId::First) >= 11 {
        Some(PlayerId::First)
    } else if points(places, PlayerId::Second) >= 11 {
        Some(PlayerId::Second)
    } else if controlled(places, PlayerId::First) >= 4 {
        Some(PlayerId::First)
    } else if controlled(places, PlayerId::Second) >= 4 {
        Some(PlayerId::Second)
    } else {
        None
    }
}

proof fn lemma_faces_bounded()
    ensures
        forall|k: int| 0 <= k < 7 ==> #[trigger] place_faces()[k] <= 5,
{
    assert(place_faces()[0] == 2 && place_faces()[1] == 2 && place_faces()[2] == 2
        && place_faces()[3] == 3 && place_faces()[4] == 3 && place_faces()[5] == 4
        && place_faces()[6] == 5);
}

/// The tally reads only control and face value, so it survives any
/// change that keeps those — a reset in particular.
proof fn lemma_tally_frame(a: [Place; 7], b: [Place; 7], p: PlayerId, n: int)
    requires
        places_frame(a, b),
        n <= 7,
    ensures
        points_upto(b, p, n) == points_upto(a, p, n),
        controlled_upto(b, p, n) == controlled_upto(a, p, n),
    decreases n,
{
    if n > 0 {
        lemma_tally_frame(a, b, p, n - 1);
    }
}

impl GameState {
    /// Score the places and decide whether someone has won: each place
    /// goes to whoever committed more cards to it (ties keep the old
    /// control), then the thresholds are checked in the documented
    /// order.
    pub fn update_control_and_score(&mut self) -> (winner: Option<PlayerId>)
        requires
            old(self).places_wf(),
        ensures
            forall|i: int|
                0 <= i < 7 ==> #[trigger] final(self).places[i].control == new_control(
                    old(self).places[i],
                ),
            forall|i: int|
                #![trigger final(self).places[i]]
                0 <= i < 7 ==> final(self).places[i].scores == old(self).places[i].scores && final(self).places[i].face_value == old(self).places[i].face_value,
            final(self).deck == old(self).deck,
            final(self).players == old(self).players,
            final(self).discarded == old(self).discarded,
            final(self).rng == old(self).rng,
            final(self).current_player == old(self).current_player,
            winner == winner_of(final(self).places),
            final(self).places_wf(),
            final(self).cards() == old(self).cards(),
            old(self).wf() ==> final(self).wf(),
    {
        let mut i: usize = 0;
        while i < 7
            invariant
                i <= 7,
                forall|k: int|
                    0 <= k < i ==> #[trigger] self.places[k].control == new_control(
                        old(self).places[k],
                    ),
                forall|k: int| i <= k < 7 ==> #[trigger] self.places[k] == old(self).places[k],
                forall|k: int|
                    #![trigger self.places[k]]
                    0 <= k < 7 ==> self.places[k].scores == old(self).places[k].scores
                        && self.places[k].face_value == old(self).places[k].face_value,
                self.deck == old(self).deck,
                self.players == old(self).players,
                self.discarded == old(self).discarded,
                self.rng == old(self).rng,
                self.current_player == old(self).current_player,
            decreases 7 - i,
        {
            let mut pl = self.places[i];
            if pl.scores[0] > pl.scores[1] {
                pl.control = Some(PlayerId::First);
            } else if pl.scores[1] > pl.scores[0] {
                pl.control = Some(PlayerId::Second);
            }
            self.places[i] = pl;
            i = i + 1;
        }
        proof {
            lemma_faces_bounded();
            assert(self.places_wf());
        }
        let mut score0: u8 = 0;
        let mut score1: u8 = 0;
        let mut count0: u8 = 0;
        let mut count1: u8 = 0;
        let mut j: usize = 0;
        while j < 7
            invariant
                j <= 7,
                self.places_wf(),
                score0 as int == points_upto(self.places, PlayerId::First, j as int),
                score1 as int == points_upto(self.places, PlayerId::Second, j as int),
                count0 as int == controlled_upto(self.places, PlayerId::First, j as int),
                count1 as int == controlled_upto(self.places, PlayerId::Second, j as int),
                score0 <= 5 * j,
                score1 <= 5 * j,
                count0 <= j,
                count1 <= j,
            decreases 7 - j,
        {
            proof {
                lemma_faces_bounded();
            }
            let pl = self.places[j];
            match pl.control {
                Some(PlayerId::First) => {
                    score0 = score0 + pl.face_value;
                    count0 = count0 + 1;
                },
                Some(PlayerId::Second) => {
                    score1 = score1 + pl.face_value;
                    count1 = count1 + 1;
                },
                None => {},
            }
            j = j + 1;
        }
        if score0 >= 11 {
            Some(PlayerId::First)
        } else if score1 >= 11 {
            Some(PlayerId::Second)
        } else if count0 >= 4 {
            Some(PlayerId::First)
        } else if count1 >= 4 {
            Some(PlayerId::Second)
        } else {
            None
        }
    }

    /// Close the round: evaluate control and the win thresholds; if
    /// nobody has won, reset for the next round.  Either way the call
    /// returns a decision — a winner, or `None` with the next round
    /// dealt and ready.
    pub fn finish_round(&mut self) -> (winner: Option<PlayerId>)
        requires
            old(self).wf(),
            old(self).deck@.len() == 0,
            old(self).discarded is Some,
            old(self).players[0].slots_full(),
            old(self).players[1].slots_full(),
        ensures
            final(self).wf(),
            final(self).cards() == old(self).cards(),
            forall|i: int|
                0 <= i < 7 ==> #[trigger] final(self).places[i].control == new_control(
                    old(self).places[i],
                ),
            forall|i: int|
                #![trigger final(self).places[i]]
                0 <= i < 7 ==> final(self).places[i].face_value == old(self).places[i].face_value,
            winner == winner_of(final(self).places),
            final(self).current_player == old(self).current_player,
            winner is Some ==> final(self).players == old(self).players && final(self).deck == old(
                self,
            ).deck && final(self).discarded == old(self).discarded && (forall|i: int|
                #![trigger final(self).places[i]]
                0 <= i < 7 ==> final(self).places[i].scores == old(self).places[i].scores),
            winner is None ==> final(self).players[0].slots_empty() && final(self).players[1].slots_empty() && final(self).players[0].hand@.len() == old(
                self,
            ).players[0].hand@.len() + 6 && final(self).players[1].hand@.len() == old(
                self,
            ).players[1].hand@.len() + 6 && final(self).deck@.len() == 8 && final(self).discarded
                is Some && (forall|i: int|
                #![trigger final(self).places[i]]
                0 <= i < 7 ==> final(self).places[i].scores[0] == 0 && final(self).places[i].scores[1]
                    == 0),
    {
        let ghost pre = *old(self);
        let w = self.update_control_and_score();
        match w {
            Some(p) => Some(p),
            None => {
                let ghost mid = *self;
                self.reset();
                proof {
                    assert(places_frame(mid.places, self.places));
                    lemma_tally_frame(mid.places, self.places, PlayerId::First, 7);
                    lemma_tally_frame(mid.places, self.places, PlayerId::Second, 7);
                    assert(winner_of(self.places) == winner_of(mid.places));
                }
                None
            },
        }
    }
}

// ---------------------------------------------------------------------
// Snapshots: a deep, independent copy of the whole game.
// ---------------------------------------------------------------------

/// Everything observable is equal — deck, hands, slots, places, the
/// set-aside card and the turn flag.  (The random source is the one
/// part a snapshot copies without a stated relation: it is opaque.)
pub open spec fn same_game(a: GameState, b: GameState) -> bool {
    b.deck@ == a.deck@ && player_eq(b.players[0], a.players[0]) && player_eq(
        b.players[1],
        a.players[1],
    ) && b.places == a.places && b.discarded == a.discarded && b.current_player == a.current_player
}

/// Two equal-looking games hold the same cards and are well-formed
/// together, so a snapshot can be played on wherever the state it was
/// taken from could.
pub proof fn lemma_same_game_wf(a: GameState, b: GameState)
    requires
        same_game(a, b),
    ensures
        b.cards() == a.cards(),
        a.wf() ==> b.wf(),
        a.conserved() ==> b.conserved(),
{
    assert(b.players[0].slot_seq() == a.players[0].slot_seq());
    assert(b.players[1].slot_seq() == a.players[1].slot_seq());
    assert(b.cards() =~= a.cards());
    if a.wf() {
        assert(b.places_wf()) by {
            assert(forall|i: int| 0 <= i < 7 ==> #[trigger] b.places[i] == a.places[i]);
        }
        assert(b.scores_wf()) by {
            assert(b.score_budget() == a.score_budget());
            assert(forall|i: int| 0 <= i < 7 ==> #[trigger] b.places[i] == a.places[i]);
        }
    }
}

fn clone_player(p: &Player) -> (q: Player)
    ensures
        player_eq(q, *p),
{
    let q = Player {
        hand: clone_cards(&p.hand),
        secret: match &p.secret {
            Some(c) => Some(Card(c.0)),
            None => None,
        },
        discard: match &p.discard {
            Some(d) => Some([Card(d[0].0), Card(d[1].0)]),
            None => None,
        },
        gift: match &p.gift {
            Some(g) => Some((Card(g.0.0), [Card(g.1[0].0), Card(g.1[1].0)])),
            None => None,
        },
        competition: match &p.competition {
            Some(c) => Some(([Card(c.0[0].0), Card(c.0[1].0)], [Card(c.1[0].0), Card(c.1[1].0)])),
            None => None,
        },
        id: p.id,
    };
    proof {
        if p.discard is Some {
            assert(q.discard.unwrap() =~= p.discard.unwrap());
        }
        if p.gift is Some {
            assert(q.gift.unwrap().1 =~= p.gift.unwrap().1);
            assert(q.gift.unwrap() == p.gift.unwrap());
        }
        if p.competition is Some {
            assert(q.competition.unwrap().0 =~= p.competition.unwrap().0);
            assert(q.competition.unwrap().1 =~= p.competition.unwrap().1);
            assert(q.competition.unwrap() == p.competition.unwrap());
        }
    }
    q
}

impl GameState {
    /// A deep, independent snapshot for speculative simulation: the
    /// copy shares no mutable state with the original, and the random
    /// source is copied rather than aliased.
    pub fn clone(&self) -> (c: GameState)
        ensures
            same_game(*self, c),
            c.cards() == self.cards(),
            self.wf() ==> c.wf(),
    {
        let c = GameState {
            deck: clone_cards(&self.deck),
            players: [clone_player(&self.players[0]), clone_player(&self.players[1])],
            places: self.places,
            discarded: match &self.discarded {
                Some(c) => Some(Card(c.0)),
                None => None,
            },
            rng: crate::rng::clone_rng(&self.rng),
            current_player: self.current_player,
        };
        proof {
            lemma_same_game_wf(*self, c);
        }
        c
    }

    /// Which action types the current player has not yet used this
    /// round: secret, discard, gift, competition, in that order.
    pub fn remaining_actions(&self) -> (r: [bool; 4])
        ensures
            r[0] == (self.players[self.us()].secret is None),
            r[1] == (self.players[self.us()].discard is None),
            r[2] == (self.players[self.us()].gift is None),
            r[3] == (self.players[self.us()].competition is None),
    {
        let us = self.current_player.index();
        [
            self.players[us].secret.is_none(),
            self.players[us].discard.is_none(),
            self.players[us].gift.is_none(),
            self.players[us].competition.is_none(),
        ]
    }

    /// Whether `apply_action` would accept this action as the state
    /// stands: the matching slot is free and every named card is where
    /// the action says it is.
    pub fn is_legal(&self, action: &Action) -> (r: bool)
        ensures
            r == self.action_legal(*action),
    {
        let us = self.current_player.index();
        let them = self.current_player.other().index();
        match action {
            Action::Secret { card } => {
                if self.players[us].secret.is_some() {
                    return false;
                }
                let vals = vec![*card];
                proof {
                    assert(vals@ =~= seq![*card]);
                }
                chain_available(&self.players[us].hand, &vals)
            },
            Action::Discard { cards } => {
                if self.players[us].discard.is_some() {
                    return false;
                }
                let vals = vec![cards[0], cards[1]];
                proof {
                    assert(vals@ =~= seq![cards[0], cards[1]]);
                }
                chain_available(&self.players[us].hand, &vals)
            },
            Action::Gift { for_player, for_other } => {
                if self.players[us].gift.is_some() {
                    return false;
                }
                let vals = vec![for_player[0], for_player[1], *for_other];
                proof {
                    assert(vals@ =~= seq![for_player[0], for_player[1], *for_other]);
                }
                chain_available(&self.players[us].hand, &vals)
            },
            Action::Competition { for_player, for_other } => {
                if self.players[us].competition.is_some() {
                    return false;
                }
                let vals = vec![for_player[0], for_player[1]];
                let ovals = vec![for_other[0], for_other[1]];
                proof {
                    assert(vals@ =~= seq![for_player[0], for_player[1]]);
                    assert(ovals@ =~= seq![for_other[0], for_other[1]]);
                }
                let own = chain_available(&self.players[us].hand, &vals);
                let other = chain_available(&self.players[them].hand, &ovals);
                own && other
            },
        }
    }
}

/// Card conservation, as a law of composition: every mutating
/// operation above either establishes `cards() == full_deck_ms()`
/// (construction) or keeps `cards()` unchanged, so along any chain of
/// legal actions, evaluations and resets that starts from a fresh
/// game, the multiset of cards is the fixed 21-card deck at every
/// observation point.
pub proof fn lemma_conservation_step(pre: GameState, post: GameState)
    requires
        pre.conserved(),
        post.cards() == pre.cards(),
    ensures
        post.conserved(),
{
}

} // verus!
