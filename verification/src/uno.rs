//! A card game of imperfect information, used to exercise the engine's
//! child reconciliation: colour-and-number cards are played onto a
//! stack, action cards draw, reverse or skip, and the first player to
//! empty their hand wins.
//!
//! Piles of cards — the draw deck and each player's hand — are held as
//! explicit card lists, one entry per physical card, so drawing a card
//! uniformly at random from the deck weights each card kind by how many
//! of it remain, exactly as a count-keyed pile would.

use crate::game::Game;
use crate::game::GameError;
use crate::rng::rng_below;
use crate::rng::rng_clone;
use crate::score::MoveScore;
use vstd::multiset::Multiset;
use vstd::prelude::*;
use vstd::seq_lib::lemma_multiset_commutative;

verus! {

/// Outcome token of one card-game move: the mover emptied their hand,
/// or play continues.
#[derive(Debug, Clone, Copy, PartialEq, Eq, Structural)]
pub enum GameState {
    Win,
    Continue,
}

#[derive(Debug, Clone, Copy, PartialEq, Eq, Structural)]
pub enum Colour {
    Red,
    Yellow,
    Green,
    Blue,
}

/// A physical card: a numbered card, a draw-n card, a reverse, a skip,
/// or a wild worth n pending draws.
#[derive(Debug, Clone, Copy, PartialEq, Eq, Structural)]
pub enum Card {
    Number(Colour, u8),
    Draw(Colour, u8),
    Reverse(Colour),
    Skip(Colour),
    Wild(u8),
}

/// A move: playing a card (a wild names the colour it is played as), or
/// drawing from the deck instead of playing.
#[derive(Debug, Clone, Copy, PartialEq, Eq, Structural)]
pub enum PlayerMove {
    Number(Colour, u8),
    Draw(Colour, u8),
    Reverse(Colour),
    Skip(Colour),
    Wild(Colour, u8),
    ActionDraw,
}

/// The card a move plays, if any.
pub open spec fn spec_as_card(m: PlayerMove) -> Option<Card> {
    match m {
        PlayerMove::Number(c, n) => Some(Card::Number(c, n)),
        PlayerMove::Draw(c, n) => Some(Card::Draw(c, n)),
        PlayerMove::Reverse(c) => Some(Card::Reverse(c)),
        PlayerMove::Skip(c) => Some(Card::Skip(c)),
        PlayerMove::Wild(_, n) => Some(Card::Wild(n)),
        PlayerMove::ActionDraw => None,
    }
}

/// The colour a move was played as, if any.
pub open spec fn spec_colour(m: PlayerMove) -> Option<Colour> {
    match m {
        PlayerMove::Number(c, _) => Some(c),
        PlayerMove::Draw(c, _) => Some(c),
        PlayerMove::Reverse(c) => Some(c),
        PlayerMove::Skip(c) => Some(c),
        PlayerMove::Wild(c, _) => Some(c),
        PlayerMove::ActionDraw => None,
    }
}

impl PlayerMove {
    /// The card this move plays; `None` for drawing.
    pub fn as_card(self) -> (r: Option<Card>)
        ensures
            r == spec_as_card(self),
    {
        match self {
            PlayerMove::Number(c, n) => Some(Card::Number(c, n)),
            PlayerMove::Draw(c, n) => Some(Card::Draw(c, n)),
            PlayerMove::Reverse(c) => Some(Card::Reverse(c)),
            PlayerMove::Skip(c) => Some(Card::Skip(c)),
            PlayerMove::Wild(_, n) => Some(Card::Wild(n)),
            PlayerMove::ActionDraw => None,
        }
    }

    /// The colour this move was played as; `None` for drawing.
    pub fn colour(&self) -> (r: Option<Colour>)
        ensures
            r == spec_colour(*self),
    {
        match self {
            PlayerMove::Number(c, _) => Some(*c),
            PlayerMove::Draw(c, _) => Some(*c),
            PlayerMove::Reverse(c) => Some(*c),
            PlayerMove::Skip(c) => Some(*c),
            PlayerMove::Wild(c, _) => Some(*c),
            PlayerMove::ActionDraw => None,
        }
    }

    /// Whether this is a plain numbered-card move.
    pub fn is_number(&self) -> (r: bool)
        ensures
            r == (*self is Number),
    {
        match self {
            PlayerMove::Number(_, _) => true,
            _ => false,
        }
    }
}

/// The colour of the move on top of the stack; meaningful whenever the
/// move has one (the game invariant keeps the top of the stack a card).
pub open spec fn last_colour(last: PlayerMove) -> Colour {
    match spec_colour(last) {
        Some(c) => c,
        None => Colour::Red,
    }
}

/// Whether the card-playing move `m` is legal with hand `hand` against
/// the top move `last`: the card must be in the hand; a numbered card
/// must match the colour or the number of the top card; draw, reverse
/// and skip must match its colour; a wild always fits; none of these
/// may be played from a one-card hand except a numbered card.
pub open spec fn card_move_legal(hand: Seq<Card>, last: PlayerMove, m: PlayerMove) -> bool {
    let single = hand.len() == 1;
    if hand.len() == 0 {
        false
    } else {
        match m {
            PlayerMove::Number(c, n) => hand.contains(Card::Number(c, n)) && (last_colour(last)
                == c || (match last {
                PlayerMove::Number(_, ln) => ln == n,
                _ => false,
            })),
            PlayerMove::Draw(c, n) => hand.contains(Card::Draw(c, n)) && last_colour(last) == c
                && !single,
            PlayerMove::Reverse(c) => hand.contains(Card::Reverse(c)) && last_colour(last) == c
                && !single,
            PlayerMove::Skip(c) => hand.contains(Card::Skip(c)) && last_colour(last) == c
                && !single,
            PlayerMove::Wild(_, n) => hand.contains(Card::Wild(n)) && !single,
            PlayerMove::ActionDraw => false,
        }
    }
}

/// Whether any card in the hand can legally be played.
pub open spec fn any_card_move_legal(hand: Seq<Card>, last: PlayerMove) -> bool {
    exists|m: PlayerMove| card_move_legal(hand, last, m)
}

/// The full legality of a move: a card play by `card_move_legal`, and
/// drawing exactly when the hand is not empty yet nothing can be played
/// (so a player can never hoard by drawing while holding a playable
/// card).
pub open spec fn uno_move_legal(hand: Seq<Card>, last: PlayerMove, m: PlayerMove) -> bool {
    if m is ActionDraw {
        hand.len() > 0 && !any_card_move_legal(hand, last)
    } else {
        card_move_legal(hand, last, m)
    }
}

/// The moves a single card in hand offers against the top move `last`.
/// A wild card offers it in each of the four colours.
fn moves_of_card(card: Card, last: PlayerMove, single: bool, out: &mut Vec<PlayerMove>)
    requires
        spec_colour(last) is Some,
    ensures
        final(out)@ == old(out)@ + card_moves(card, last, single),
{
    let lc = match last.colour() {
        Some(c) => c,
        None => Colour::Red,
    };
    match card {
        Card::Number(c, n) => {
            let colour_fits = lc == c;
            let number_fits = match last {
                PlayerMove::Number(_, ln) => ln == n,
                _ => false,
            };
            if colour_fits || number_fits {
                out.push(PlayerMove::Number(c, n));
                proof {
                    assert(out@ =~= old(out)@ + card_moves(card, last, single));
                }
            } else {
                proof {
                    assert(out@ =~= old(out)@ + card_moves(card, last, single));
                }
            }
        },
        Card::Draw(c, n) => {
            if lc == c && !single {
                out.push(PlayerMove::Draw(c, n));
            }
            proof {
                assert(out@ =~= old(out)@ + card_moves(card, last, single));
            }
        },
        Card::Reverse(c) => {
            if lc == c && !single {
                out.push(PlayerMove::Reverse(c));
            }
            proof {
                assert(out@ =~= old(out)@ + card_moves(card, last, single));
            }
        },
        Card::Skip(c) => {
            if lc == c && !single {
                out.push(PlayerMove::Skip(c));
            }
            proof {
                assert(out@ =~= old(out)@ + card_moves(card, last, single));
            }
        },
        Card::Wild(n) => {
            if !single {
                out.push(PlayerMove::Wild(Colour::Red, n));
                out.push(PlayerMove::Wild(Colour::Yellow, n));
                out.push(PlayerMove::Wild(Colour::Green, n));
                out.push(PlayerMove::Wild(Colour::Blue, n));
            }
            proof {
                assert(out@ =~= old(out)@ + card_moves(card, last, single));
            }
        },
    }
}

/// The exact sequence of moves a card offers (empty when it cannot be
/// played).
pub open spec fn card_moves(card: Card, last: PlayerMove, single: bool) -> Seq<PlayerMove> {
    match card {
        Card::Number(c, n) => if last_colour(last) == c || (match last {
            PlayerMove::Number(_, ln) => ln == n,
            _ => false,
        }) {
            seq![PlayerMove::Number(c, n)]
        } else {
            Seq::empty()
        },
        Card::Draw(c, n) => if last_colour(last) == c && !single {
            seq![PlayerMove::Draw(c, n)]
        } else {
            Seq::empty()
        },
        Card::Reverse(c) => if last_colour(last) == c && !single {
            seq![PlayerMove::Reverse(c)]
        } else {
            Seq::empty()
        },
        Card::Skip(c) => if last_colour(last) == c && !single {
            seq![PlayerMove::Skip(c)]
        } else {
            Seq::empty()
        },
        Card::Wild(n) => if !single {
            seq![
                PlayerMove::Wild(Colour::Red, n),
                PlayerMove::Wild(Colour::Yellow, n),
                PlayerMove::Wild(Colour::Green, n),
                PlayerMove::Wild(Colour::Blue, n),
            ]
        } else {
            Seq::empty()
        },
    }
}

/// Whether `cards` holds `c` before position `i`.
pub open spec fn seen_before(cards: Seq<Card>, i: int, c: Card) -> bool {
    exists|j: int| 0 <= j < i && cards[j] == c
}

fn vec_has_card(cards: &Vec<Card>, upto: usize, c: Card) -> (r: bool)
    requires
        upto <= cards@.len(),
    ensures
        r == seen_before(cards@, upto as int, c),
{
    let mut j: usize = 0;
    let mut found = false;
    while j < upto
        invariant
            upto <= cards@.len(),
            j <= upto,
            found == seen_before(cards@, j as int, c),
        decreases upto - j,
    {
        if !found && cards[j] == c {
            found = true;
        }
        j = j + 1;
    }
    found
}

/// How many numbered cards a pile holds.
pub open spec fn spec_number_count(s: Seq<Card>) -> int
    decreases s.len(),
{
    if s.len() == 0 {
        0
    } else {
        (if s.last() is Number {
            1int
        } else {
            0
        }) + spec_number_count(s.drop_last())
    }
}

proof fn lemma_number_count_nonneg(s: Seq<Card>)
    ensures
        0 <= spec_number_count(s) <= s.len(),
    decreases s.len(),
{
    if s.len() > 0 {
        lemma_number_count_nonneg(s.drop_last());
    }
}

proof fn lemma_number_count_push(s: Seq<Card>, c: Card)
    ensures
        spec_number_count(s.push(c)) == spec_number_count(s) + (if c is Number {
            1int
        } else {
            0
        }),
{
    assert(s.push(c).drop_last() =~= s);
}

proof fn lemma_number_count_remove(s: Seq<Card>, i: int)
    requires
        0 <= i < s.len(),
    ensures
        spec_number_count(s.remove(i)) == spec_number_count(s) - (if s[i] is Number {
            1int
        } else {
            0
        }),
    decreases s.len(),
{
    if i == s.len() - 1 {
        assert(s.remove(i) =~= s.drop_last());
    } else {
        lemma_number_count_remove(s.drop_last(), i);
        assert(s.remove(i).drop_last() =~= s.drop_last().remove(i));
        assert(s.remove(i).last() == s.last());
    }
}

proof fn lemma_number_count_concat(a: Seq<Card>, b: Seq<Card>)
    ensures
        spec_number_count(a + b) == spec_number_count(a) + spec_number_count(b),
    decreases b.len(),
{
    if b.len() == 0 {
        assert(a + b =~= a);
    } else {
        lemma_number_count_concat(a, b.drop_last());
        assert((a + b).drop_last() =~= a + b.drop_last());
        assert((a + b).last() == b.last());
    }
}

/// All the cards of a game position that one draw or play shuffles
/// around: the deck, the played stack and the current player's hand,
/// as one multiset.
pub open spec fn card_pool(deck: Seq<Card>, purgatory: Seq<Card>, hand: Seq<Card>) -> Multiset<
    Card,
> {
    deck.to_multiset().add(purgatory.to_multiset()).add(hand.to_multiset())
}

/// How many cards the played stack can give back to the deck: all but
/// its top card.
pub open spec fn spec_recyclable(purgatory: Seq<Card>) -> int {
    if purgatory.len() > 1 {
        purgatory.len() - 1
    } else {
        0
    }
}

proof fn lemma_number_count_all_plain(s: Seq<Card>)
    requires
        forall|j: int| 0 <= j < s.len() ==> !((#[trigger] s[j]) is Number),
    ensures
        spec_number_count(s) == 0,
    decreases s.len(),
{
    if s.len() > 0 {
        lemma_number_count_all_plain(s.drop_last());
    }
}

/// The hand lost exactly one instance of `c`: some position held `c`,
/// and the new hand is the old one with that position removed.
pub open spec fn hand_lost_one(old_hand: Seq<Card>, new_hand: Seq<Card>, c: Card) -> bool {
    exists|j: int|
        0 <= j < old_hand.len() && (#[trigger] old_hand[j]) == c && new_hand == old_hand.remove(j)
}

/// The card debt a pending draw-stack demands once `n` more is played
/// onto it, clamped at the representable count.
pub open spec fn stacked_debt(n: u8, pending: u8) -> u8 {
    if n + pending > 255 {
        255u8
    } else {
        (n + pending) as u8
    }
}

/// The card a move plays, with an arbitrary stand-in for drawing.
pub open spec fn the_card(m: PlayerMove) -> Card {
    match spec_as_card(m) {
        Some(c) => c,
        None => Card::Wild(255),
    }
}

/// Every move a card offers plays that very card, and is legal whenever
/// the card is in hand.
proof fn lemma_card_moves_sound(hand: Seq<Card>, last: PlayerMove, card: Card, m: PlayerMove)
    requires
        hand.len() >= 1,
        hand.contains(card),
        card_moves(card, last, hand.len() == 1).contains(m),
    ensures
        spec_as_card(m) == Some(card),
        card_move_legal(hand, last, m),
{
    let ms = card_moves(card, last, hand.len() == 1);
    let w = choose|w: int| 0 <= w < ms.len() && ms[w] == m;
}

/// Conversely, a legal card move is among the moves its card offers.
proof fn lemma_card_moves_complete(hand: Seq<Card>, last: PlayerMove, m: PlayerMove)
    requires
        card_move_legal(hand, last, m),
    ensures
        spec_as_card(m) is Some,
        hand.contains(the_card(m)),
        card_moves(the_card(m), last, hand.len() == 1).contains(m),
{
    match m {
        PlayerMove::Number(c, n) => {
            assert(card_moves(Card::Number(c, n), last, hand.len() == 1)[0] == m);
        },
        PlayerMove::Draw(c, n) => {
            assert(card_moves(Card::Draw(c, n), last, hand.len() == 1)[0] == m);
        },
        PlayerMove::Reverse(c) => {
            assert(card_moves(Card::Reverse(c), last, hand.len() == 1)[0] == m);
        },
        PlayerMove::Skip(c) => {
            assert(card_moves(Card::Skip(c), last, hand.len() == 1)[0] == m);
        },
        PlayerMove::Wild(c, n) => {
            let ms = card_moves(Card::Wild(n), last, hand.len() == 1);
            match c {
                Colour::Red => {
                    assert(ms[0] == m);
                },
                Colour::Yellow => {
                    assert(ms[1] == m);
                },
                Colour::Green => {
                    assert(ms[2] == m);
                },
                Colour::Blue => {
                    assert(ms[3] == m);
                },
            }
        },
        PlayerMove::ActionDraw => {},
    }
}

/// The card-game position: the draw deck, whose turn it is, one hand
/// per player, the move on top of the played stack, the played stack
/// itself (mixed back into the deck when the deck runs dry), the
/// direction of play, and whether someone has won.
#[derive(Debug)]
pub struct Uno {
    pub deck: Vec<Card>,
    pub rng: rand::rngs::SmallRng,
    pub player_turn: usize,
    pub player_cards: Vec<Vec<Card>>,
    pub last_play: PlayerMove,
    pub card_purgatory: Vec<Card>,
    pub reversed: bool,
    pub ended: bool,
}

impl Uno {
    /// Structural invariant: at least one player, the turn in range, and
    /// the top of the stack always a card play (never a draw), so it
    /// always has a colour.
    pub open spec fn wf(&self) -> bool {
        &&& self.player_cards@.len() >= 1
        &&& self.player_turn < self.player_cards@.len()
        &&& spec_colour(self.last_play) is Some
    }

    /// The current player's hand, as a sequence of cards.
    pub open spec fn current_hand(&self) -> Seq<Card> {
        self.player_cards@[self.player_turn as int]@
    }

    /// How many cards `player` holds.
    pub fn player_card_count(&self, player: usize) -> (r: usize)
        requires
            player < self.player_cards@.len(),
        ensures
            r == self.player_cards@[player as int]@.len(),
    {
        self.player_cards[player].len()
    }

}

/// A uniformly random position in the deck, restricted to numbered
/// cards when `number_only`; `None` exactly when no card qualifies.
/// Choosing a uniform deck position weights each card kind by how many
/// of it remain.
fn random_weighted_card(deck: &Vec<Card>, number_only: bool, rng: &mut rand::rngs::SmallRng) -> (r:
    Option<usize>)
    ensures
        r matches Some(i) ==> i < deck@.len() && (number_only ==> deck@[i as int] is Number),
        r is None ==> forall|j: int|
            0 <= j < deck@.len() ==> (number_only && !((#[trigger] deck@[j]) is Number)),
{
    let mut eligible: Vec<usize> = Vec::new();
    let mut j: usize = 0;
    let n = deck.len();
    while j < n
            invariant
                n == deck@.len(),
                j <= n,
                forall|k: int|
                    0 <= k < eligible@.len() ==> (#[trigger] eligible@[k]) < j && (number_only
                        ==> deck@[eligible@[k] as int] is Number),
                forall|i: int|
                    0 <= i < j && (!number_only || deck@[i] is Number) ==> eligible@.contains(
                        i as usize,
                    ),
            decreases n - j,
        {
            if !number_only || matches!(deck[j], Card::Number(_, _)) {
                let ghost before = eligible@;
                eligible.push(j);
                proof {
                    assert forall|i: int|
                        0 <= i < j + 1 && (!number_only || deck@[i] is Number) implies
                        eligible@.contains(i as usize) by {
                        if i < j {
                            assert(before.contains(i as usize));
                            let w = choose|w: int|
                                0 <= w < before.len() && before[w] == i as usize;
                            assert(eligible@[w] == i as usize);
                        } else {
                            assert(eligible@[eligible@.len() - 1] == i as usize);
                        }
                    }
                }
            }
            j = j + 1;
        }
        if eligible.len() == 0 {
            proof {
                assert forall|i: int|
                    0 <= i < deck@.len() implies (number_only && !((
                #[trigger] deck@[i]) is Number)) by {
                    if !number_only || deck@[i] is Number {
                        assert(eligible@.contains(i as usize));
                    }
                }
            }
            return None;
        }
    let pick = rng_below(rng, eligible.len() as u64) as usize;
    Some(eligible[pick])
}

impl Uno {
    /// Mixes every played card but the top one back into the deck: the
    /// recycled cards are appended to the deck in play order, the top of
    /// the stack stays where it is, and nothing is lost. A stack of at
    /// most one card is left alone.
    fn shift_purgatory_into_stack(&mut self)
        ensures
            final(self).player_cards == old(self).player_cards,
            final(self).player_turn == old(self).player_turn,
            final(self).last_play == old(self).last_play,
            final(self).reversed == old(self).reversed,
            final(self).ended == old(self).ended,
            final(self).card_purgatory@.len() <= 1,
            old(self).card_purgatory@.len() <= 1 ==> *final(self) == *old(self),
            old(self).card_purgatory@.len() > 1 ==> final(self).deck@ == old(self).deck@
                + old(self).card_purgatory@.drop_last() && final(self).card_purgatory@ == seq![
                old(self).card_purgatory@.last(),
            ],
    {
        if self.card_purgatory.len() <= 1 {
            return ;
        }
        let ghost orig_deck = self.deck@;
        let ghost orig_purg = self.card_purgatory@;
        let orig_len = self.card_purgatory.len();
        let mut k: usize = 0;
        while self.card_purgatory.len() > 1
            invariant
                orig_purg.len() == orig_len,
                self.card_purgatory@.len() >= 1,
                k <= orig_len - 1,
                k == orig_purg.len() - self.card_purgatory@.len(),
                self.card_purgatory@ == orig_purg.subrange(k as int, orig_purg.len() as int),
                self.deck@ == orig_deck + orig_purg.subrange(0, k as int),
                self.player_cards == old(self).player_cards,
                self.player_turn == old(self).player_turn,
                self.last_play == old(self).last_play,
                self.reversed == old(self).reversed,
                self.ended == old(self).ended,
            decreases self.card_purgatory@.len(),
        {
            let c = self.card_purgatory.remove(0);
            self.deck.push(c);
            k = k + 1;
            proof {
                assert(self.card_purgatory@ =~= orig_purg.subrange(
                    k as int,
                    orig_purg.len() as int,
                ));
                assert(self.deck@ =~= orig_deck + orig_purg.subrange(0, k as int));
            }
        }
        proof {
            assert(self.deck@ =~= orig_deck + orig_purg.drop_last());
            assert(self.card_purgatory@ =~= seq![orig_purg.last()]);
        }
    }

    /// Draws `cards` cards from the deck (numbered cards only when so
    /// asked), mixing the played stack back in once if the deck runs
    /// dry; fails with `OutOfCards` when even that does not suffice.
    /// Success is owed whenever plain counts guarantee it: the deck plus
    /// the recyclable stack holds enough cards, or, for a numbered draw,
    /// the deck holds enough numbered cards. On success exactly `cards`
    /// cards leave the deck-and-stack pair, at most one numbered card
    /// per card drawn; the stack never grows, and only the deck and the
    /// stack change besides the returned cards.
    fn draw_from_deck(&mut self, cards: usize, number_only: bool) -> (r: Result<
        Vec<Card>,
        GameError,
    >)
        ensures
            final(self).player_cards == old(self).player_cards,
            final(self).player_turn == old(self).player_turn,
            final(self).last_play == old(self).last_play,
            final(self).reversed == old(self).reversed,
            final(self).ended == old(self).ended,
            final(self).card_purgatory@.len() <= old(self).card_purgatory@.len(),
            r matches Ok(v) ==> v@.len() == cards && (number_only ==> forall|i: int|
                0 <= i < v@.len() ==> (#[trigger] v@[i]) is Number),
            r matches Ok(v) ==> final(self).deck@.to_multiset().add(
                final(self).card_purgatory@.to_multiset(),
            ).add(v@.to_multiset()) == old(self).deck@.to_multiset().add(
                old(self).card_purgatory@.to_multiset(),
            ),
            r is Ok ==> final(self).deck@.len() + final(self).card_purgatory@.len() + cards
                == old(self).deck@.len() + old(self).card_purgatory@.len(),
            r is Ok ==> spec_number_count(final(self).deck@) >= spec_number_count(
                old(self).deck@,
            ) - cards,
            r is Err ==> r == Err::<Vec<Card>, GameError>(GameError::OutOfCards),
            (!number_only && old(self).deck@.len() + spec_recyclable(old(self).card_purgatory@)
                >= cards) ==> r is Ok,
            (number_only && spec_number_count(old(self).deck@) >= cards) ==> r is Ok,
    {
        let mut drawn: Vec<Card> = Vec::new();
        let mut failed_once = false;
        proof {
            broadcast use vstd::seq_lib::group_to_multiset_ensures;

            assert(drawn@.to_multiset() =~= Multiset::<Card>::empty());
            assert(self.deck@.to_multiset().add(self.card_purgatory@.to_multiset()).add(
                drawn@.to_multiset(),
            ) =~= old(self).deck@.to_multiset().add(old(self).card_purgatory@.to_multiset()));
        }
        while drawn.len() < cards
            invariant
                drawn@.len() <= cards,
                number_only ==> forall|i: int|
                    0 <= i < drawn@.len() ==> (#[trigger] drawn@[i]) is Number,
                self.player_cards == old(self).player_cards,
                self.player_turn == old(self).player_turn,
                self.last_play == old(self).last_play,
                self.reversed == old(self).reversed,
                self.ended == old(self).ended,
                self.card_purgatory@.len() <= old(self).card_purgatory@.len(),
                failed_once ==> self.card_purgatory@.len() <= 1,
                drawn@.len() + self.deck@.len() + self.card_purgatory@.len()
                    == old(self).deck@.len() + old(self).card_purgatory@.len(),
                self.deck@.to_multiset().add(self.card_purgatory@.to_multiset()).add(
                    drawn@.to_multiset(),
                ) == old(self).deck@.to_multiset().add(
                    old(self).card_purgatory@.to_multiset(),
                ),
                spec_number_count(self.deck@) + drawn@.len() >= spec_number_count(
                    old(self).deck@,
                ),
            decreases cards - drawn.len(), (if failed_once {
                0int
            } else {
                1int
            }),
        {
            match random_weighted_card(&self.deck, number_only, &mut self.rng) {
                Some(i) => {
                    let ghost deck0 = self.deck@;
                    let ghost purg0 = self.card_purgatory@;
                    let ghost drawn0 = drawn@;
                    proof {
                        lemma_number_count_remove(self.deck@, i as int);
                    }
                    let c = self.deck.remove(i);
                    drawn.push(c);
                    proof {
                        broadcast use vstd::seq_lib::group_to_multiset_ensures;

                        assert(deck0.to_multiset().count(c) > 0);
                        assert(self.deck@.to_multiset() =~= deck0.to_multiset().remove(c));
                        assert(drawn@.to_multiset() =~= drawn0.to_multiset().insert(c));
                        assert(self.deck@.to_multiset().add(purg0.to_multiset()).add(
                            drawn@.to_multiset(),
                        ) =~= deck0.to_multiset().add(purg0.to_multiset()).add(
                            drawn0.to_multiset(),
                        ));
                    }
                },
                None => {
                    proof {
                        if number_only {
                            lemma_number_count_all_plain(self.deck@);
                        }
                    }
                    if failed_once {
                        proof {
                            lemma_number_count_nonneg(self.deck@);
                        }
                        return Err(GameError::OutOfCards);
                    }
                    let ghost deck0 = self.deck@;
                    let ghost purg0 = self.card_purgatory@;
                    proof {
                        if self.card_purgatory@.len() > 1 {
                            lemma_number_count_concat(
                                self.deck@,
                                self.card_purgatory@.drop_last(),
                            );
                            lemma_number_count_nonneg(self.card_purgatory@.drop_last());
                        }
                    }
                    self.shift_purgatory_into_stack();
                    failed_once = true;
                    proof {
                        broadcast use vstd::seq_lib::group_to_multiset_ensures;

                        if purg0.len() > 1 {
                            lemma_multiset_commutative(deck0, purg0.drop_last());
                            assert(purg0 =~= purg0.drop_last().push(purg0.last()));
                            assert(purg0.to_multiset() =~= purg0.drop_last().to_multiset().insert(
                                purg0.last(),
                            ));
                            assert(self.card_purgatory@ =~= Seq::<Card>::empty().push(
                                purg0.last(),
                            ));
                            assert(self.card_purgatory@.to_multiset() =~= Multiset::<
                                Card,
                            >::empty().insert(purg0.last()));
                            assert(self.deck@.to_multiset().add(
                                self.card_purgatory@.to_multiset(),
                            ) =~= deck0.to_multiset().add(purg0.to_multiset()));
                        }
                    }
                },
            }
        }
        Ok(drawn)
    }

    /// Draws `cards` cards and hands them to `player`; the other
    /// players' hands, the turn and the stack top are untouched, and the
    /// receiving hand only grows, by exactly the cards that left the
    /// deck-and-stack pair. Success is owed whenever the deck plus the
    /// recyclable stack holds enough cards.
    fn draw_card_for_player(&mut self, player: usize, cards: usize) -> (r: Result<
        (),
        GameError,
    >)
        requires
            player < old(self).player_cards@.len(),
        ensures
            final(self).player_cards@.len() == old(self).player_cards@.len(),
            final(self).player_turn == old(self).player_turn,
            final(self).last_play == old(self).last_play,
            final(self).reversed == old(self).reversed,
            final(self).ended == old(self).ended,
            final(self).card_purgatory@.len() <= old(self).card_purgatory@.len(),
            r is Ok ==> final(self).deck@.len() + final(self).card_purgatory@.len() + cards
                == old(self).deck@.len() + old(self).card_purgatory@.len(),
            r is Ok ==> spec_number_count(final(self).deck@) >= spec_number_count(
                old(self).deck@,
            ) - cards,
            r is Ok ==> card_pool(
                final(self).deck@,
                final(self).card_purgatory@,
                final(self).player_cards@[player as int]@,
            ) == card_pool(
                old(self).deck@,
                old(self).card_purgatory@,
                old(self).player_cards@[player as int]@,
            ),
            old(self).deck@.len() + spec_recyclable(old(self).card_purgatory@) >= cards ==> r
                is Ok,
            forall|p: int|
                0 <= p < old(self).player_cards@.len() && p != player ==> (#[trigger] final(self).player_cards@[p]) == old(self).player_cards@[p],
            r matches Ok(u) ==> final(self).player_cards@[player as int]@.len() == old(self).player_cards@[player as int]@.len() + cards,
            r is Ok ==> forall|i: int|
                0 <= i < old(self).player_cards@[player as int]@.len() ==> final(self).player_cards@[player as int]@[i] == #[trigger] old(self).player_cards@[player as int]@[i],
            r is Err ==> r == Err::<(), GameError>(GameError::OutOfCards),
    {
        let mut drawn = match self.draw_from_deck(cards, false) {
            Ok(v) => v,
            Err(e) => {
                return Err(e);
            },
        };
        let ghost before = self.player_cards@[player as int]@;
        let hand = &mut self.player_cards[player];
        let total = drawn.len();
        let mut i: usize = 0;
        while i < total
            invariant
                total == drawn@.len(),
                i <= total,
                hand@.len() == before.len() + i,
                hand@ == before + drawn@.subrange(0, i as int),
                forall|k: int| 0 <= k < before.len() ==> hand@[k] == #[trigger] before[k],
            decreases total - i,
        {
            hand.push(drawn[i]);
            proof {
                assert(hand@ =~= before + drawn@.subrange(0, i + 1));
            }
            i = i + 1;
        }
        proof {
            assert(self.player_cards@[player as int]@ =~= before + drawn@);
            lemma_multiset_commutative(before, drawn@);
            assert(card_pool(self.deck@, self.card_purgatory@, self.player_cards@[player as int]@)
                =~= card_pool(
                old(self).deck@,
                old(self).card_purgatory@,
                old(self).player_cards@[player as int]@,
            ));
        }
        Ok(())
    }

    /// Removes one instance of the played card from the current hand,
    /// puts it on top of the played stack and records the move; a bare
    /// draw (no card) changes nothing. Refused exactly when the card is
    /// not in the hand.
    fn update_move(&mut self, card: Option<Card>, pmove: PlayerMove) -> (r: Result<
        bool,
        GameError,
    >)
        requires
            old(self).wf(),
            card is Some ==> spec_colour(pmove) is Some,
        ensures
            final(self).wf(),
            final(self).player_cards@.len() == old(self).player_cards@.len(),
            final(self).player_turn == old(self).player_turn,
            final(self).deck == old(self).deck,
            final(self).reversed == old(self).reversed,
            final(self).ended == old(self).ended,
            forall|p: int|
                0 <= p < old(self).player_cards@.len() && p != old(self).player_turn ==> (
                #[trigger] final(self).player_cards@[p]) == old(self).player_cards@[p],
            card is None ==> r == Ok::<bool, GameError>(false) && *final(self) == *old(self),
            card is Some && old(self).current_hand().contains(card.unwrap()) ==> {
                &&& r == Ok::<bool, GameError>(true)
                &&& final(self).last_play == pmove
                &&& final(self).card_purgatory@ == old(self).card_purgatory@.push(card.unwrap())
                &&& final(self).deck == old(self).deck
                &&& card_pool(
                    final(self).deck@,
                    final(self).card_purgatory@,
                    final(self).current_hand(),
                ) == card_pool(
                    old(self).deck@,
                    old(self).card_purgatory@,
                    old(self).current_hand(),
                )
                &&& exists|j: int|
                    0 <= j < old(self).current_hand().len() && (#[trigger] old(
                        self,
                    ).current_hand()[j]) == card.unwrap() && final(self).current_hand()
                        == old(self).current_hand().remove(j)
            },
            card is Some && !old(self).current_hand().contains(card.unwrap()) ==> r == Err::<
                bool,
                GameError,
            >(GameError::InvalidMove) && *final(self) == *old(self),
    {
        let c = match card {
            Some(c) => c,
            None => {
                return Ok(false);
            },
        };
        let hand_len = self.player_cards[self.player_turn].len();
        let mut j: usize = 0;
        let mut idx: Option<usize> = None;
        while j < hand_len
            invariant
                *self == *old(self),
                old(self).wf(),
                hand_len == self.current_hand().len(),
                j <= hand_len,
                idx matches Some(i) ==> i < hand_len && self.current_hand()[i as int] == c,
                idx is None ==> forall|k: int| 0 <= k < j ==> self.current_hand()[k] != c,
            decreases hand_len - j,
        {
            if idx.is_none() {
                if self.player_cards[self.player_turn][j] == c {
                    idx = Some(j);
                }
            }
            j = j + 1;
        }
        match idx {
            None => {
                proof {
                    assert(!old(self).current_hand().contains(c));
                }
                Err(GameError::InvalidMove)
            },
            Some(i) => {
                proof {
                    assert(old(self).current_hand()[i as int] == c);
                    assert(old(self).current_hand().contains(c));
                }
                let removed = self.player_cards[self.player_turn].remove(i);
                self.card_purgatory.push(removed);
                proof {
                    broadcast use vstd::seq_lib::group_to_multiset_ensures;

                    assert(self.card_purgatory@ =~= old(self).card_purgatory@.push(c));
                    assert(old(self).current_hand().to_multiset().count(c) > 0);
                    assert(self.current_hand().to_multiset() =~= old(
                        self,
                    ).current_hand().to_multiset().remove(c));
                    assert(self.card_purgatory@.to_multiset() =~= old(
                        self,
                    ).card_purgatory@.to_multiset().insert(c));
                    assert(card_pool(self.deck@, self.card_purgatory@, self.current_hand())
                        =~= card_pool(
                        old(self).deck@,
                        old(self).card_purgatory@,
                        old(self).current_hand(),
                    ));
                }
                self.last_play = pmove;
                Ok(true)
            },
        }
    }

    /// Advances the turn by `scale` seats in the current direction,
    /// wrapping around the table.
    fn next_player(&mut self, scale: u8)
        requires
            old(self).wf(),
        ensures
            final(self).wf(),
            final(self).deck == old(self).deck,
            final(self).player_cards == old(self).player_cards,
            final(self).last_play == old(self).last_play,
            final(self).card_purgatory == old(self).card_purgatory,
            final(self).reversed == old(self).reversed,
            final(self).ended == old(self).ended,
            !old(self).reversed ==> final(self).player_turn as int == (old(self).player_turn
                + scale) as int % (old(self).player_cards@.len() as int),
            old(self).reversed ==> final(self).player_turn as int == (old(self).player_turn
                - scale) as int % (old(self).player_cards@.len() as int),
    {
        let n = self.player_cards.len();
        let s = (scale as usize) % n;
        let t = self.player_turn;
        proof {
            vstd::arithmetic::div_mod::lemma_fundamental_div_mod(scale as int, n as int);
        }
        let ghost q: int = scale as int / n as int;
        if !self.reversed {
            if t >= n - s {
                self.player_turn = t - (n - s);
                proof {
                    assert((t + scale) as int == (q + 1) * (n as int) + (t + s - n)) by (
                    nonlinear_arith)
                        requires
                            scale as int == n as int * q + s as int,
                            s < n,
                    ;
                    vstd::arithmetic::div_mod::lemma_fundamental_div_mod_converse(
                        (t + scale) as int,
                        n as int,
                        q + 1,
                        t + s - n,
                    );
                }
            } else {
                self.player_turn = t + s;
                proof {
                    assert((t + scale) as int == q * (n as int) + (t + s)) by (nonlinear_arith)
                        requires
                            scale as int == n as int * q + s as int,
                    ;
                    vstd::arithmetic::div_mod::lemma_fundamental_div_mod_converse(
                        (t + scale) as int,
                        n as int,
                        q,
                        t + s,
                    );
                }
            }
        } else {
            if t >= s {
                self.player_turn = t - s;
                proof {
                    assert((t - scale) as int == (-q) * (n as int) + (t - s)) by (nonlinear_arith)
                        requires
                            scale as int == n as int * q + s as int,
                    ;
                    vstd::arithmetic::div_mod::lemma_fundamental_div_mod_converse(
                        (t - scale) as int,
                        n as int,
                        -q,
                        t - s,
                    );
                }
            } else {
                self.player_turn = t + (n - s);
                proof {
                    assert((t - scale) as int == (-q - 1) * (n as int) + (t + n - s)) by (
                    nonlinear_arith)
                        requires
                            scale as int == n as int * q + s as int,
                            s < n,
                    ;
                    vstd::arithmetic::div_mod::lemma_fundamental_div_mod_converse(
                        (t - scale) as int,
                        n as int,
                        -q - 1,
                        t + n - s,
                    );
                }
            }
        }
    }

    /// A fresh game over the given deck: each player draws a starting
    /// hand, then one numbered card is flipped to open the played stack,
    /// becoming both the stack's only card and the recorded last play.
    /// Every dealt card left the deck. Fails with `OutOfCards` when the
    /// deck cannot supply the hands or no numbered card is left to
    /// flip; success is owed when the deck holds more numbered cards
    /// than the hands could possibly swallow.
    pub fn new(
        deck: Vec<Card>,
        num_players: usize,
        initial_player_cards: usize,
        rng: rand::rngs::SmallRng,
    ) -> (r: Result<Uno, GameError>)
        requires
            num_players >= 1,
        ensures
            r matches Ok(g) ==> {
                &&& g.wf()
                &&& g.player_cards@.len() == num_players
                &&& forall|p: int|
                    0 <= p < num_players ==> (#[trigger] g.player_cards@[p])@.len()
                        == initial_player_cards
                &&& g.player_turn == 0usize
                &&& !g.ended
                &&& !g.reversed
                &&& g.last_play is Number
                &&& g.card_purgatory@.len() == 1
                &&& g.last_play matches PlayerMove::Number(c, n) && g.card_purgatory@ == seq![
                    Card::Number(c, n),
                ]
                &&& g.deck@.len() + num_players * initial_player_cards + 1 == deck@.len()
            },
            r is Err ==> r == Err::<Uno, GameError>(GameError::OutOfCards),
            spec_number_count(deck@) >= num_players * initial_player_cards + 1 ==> r is Ok,
    {
        let mut o = Uno {
            deck,
            rng,
            player_turn: 0,
            player_cards: Vec::new(),
            reversed: false,
            card_purgatory: Vec::new(),
            last_play: PlayerMove::Number(Colour::Red, 255),
            ended: false,
        };
        let mut p: usize = 0;
        while p < num_players
            invariant
                p <= num_players,
                o.player_cards@.len() == p,
                o.player_turn == 0usize,
                o.last_play == PlayerMove::Number(Colour::Red, 255),
                o.reversed == false,
                o.ended == false,
                o.card_purgatory@.len() == 0,
                o.deck@ == deck@,
                forall|q: int| 0 <= q < p ==> (#[trigger] o.player_cards@[q])@.len() == 0,
            decreases num_players - p,
        {
            o.player_cards.push(Vec::new());
            p = p + 1;
        }
        let mut p: usize = 0;
        while p < num_players
            invariant
                p <= num_players,
                num_players >= 1,
                o.player_turn == 0usize,
                o.player_cards@.len() == num_players,
                o.last_play == PlayerMove::Number(Colour::Red, 255),
                o.reversed == false,
                o.ended == false,
                o.card_purgatory@.len() == 0,
                o.deck@.len() + p * initial_player_cards == deck@.len(),
                spec_number_count(o.deck@) >= spec_number_count(deck@) - p
                    * initial_player_cards,
                forall|q: int|
                    0 <= q < p ==> (#[trigger] o.player_cards@[q])@.len()
                        == initial_player_cards,
                forall|q: int| p <= q < num_players ==> (#[trigger] o.player_cards@[q])@.len() == 0,
            decreases num_players - p,
        {
            let ghost pre = o;
            proof {
                assert((p + 1) * initial_player_cards == p * initial_player_cards
                    + initial_player_cards) by (nonlinear_arith);
            }
            match o.draw_card_for_player(p, initial_player_cards) {
                Ok(_) => {},
                Err(e) => {
                    proof {
                        // The deck could not supply this hand, so it held
                        // fewer numbered cards than the hands require.
                        lemma_number_count_nonneg(pre.deck@);
                        assert(pre.deck@.len() < initial_player_cards);
                        assert(spec_number_count(deck@) < initial_player_cards + p
                            * initial_player_cards);
                        assert(initial_player_cards + p * initial_player_cards == (p + 1)
                            * initial_player_cards) by (nonlinear_arith);
                        assert((p + 1) * initial_player_cards <= num_players
                            * initial_player_cards) by (nonlinear_arith)
                            requires
                                p + 1 <= num_players,
                                initial_player_cards >= 0,
                        ;
                        assert(spec_number_count(deck@) < num_players * initial_player_cards + 1);
                    }
                    return Err(GameError::OutOfCards);
                },
            }
            p = p + 1;
        }
        let first = match o.draw_from_deck(1, true) {
            Ok(v) => v,
            Err(e) => {
                proof {
                    // No numbered card was left to flip, so the deck held
                    // fewer numbered cards than the hands plus the flip.
                    assert(spec_number_count(deck@) < num_players * initial_player_cards + 1);
                }
                return Err(GameError::OutOfCards);
            },
        };
        let fc = first[0];
        match fc {
            Card::Number(c, n) => {
                o.last_play = PlayerMove::Number(c, n);
            },
            _ => {
                proof {
                    assert(false);
                }
                return Err(GameError::OutOfCards);
            },
        }
        let mut purgatory: Vec<Card> = Vec::new();
        purgatory.push(fc);
        o.card_purgatory = purgatory;
        proof {
            assert(o.card_purgatory@ =~= seq![fc]);
        }
        Ok(o)
    }

    /// A fresh game dealt from the standard deck: for each colour, two
    /// of each numbered card one to nine, one zero, two draw-twos, two
    /// reverses and two skips; plus two plain wilds and two draw-four
    /// wilds. Every player starts with seven cards.
    pub fn standard_deck(num_players: usize, rng: rand::rngs::SmallRng) -> (r: Result<
        Uno,
        GameError,
    >)
        requires
            num_players >= 1,
        ensures
            r matches Ok(g) ==> {
                &&& g.wf()
                &&& g.player_cards@.len() == num_players
                &&& forall|p: int| 0 <= p < num_players ==> (#[trigger] g.player_cards@[p])@.len() == 7
                &&& g.player_turn == 0usize
                &&& !g.ended
                &&& g.last_play is Number
                &&& g.deck@.len() + num_players * 7 + 1 == standard_cards().len()
            },
            r is Err ==> r == Err::<Uno, GameError>(GameError::OutOfCards),
            num_players <= 10 ==> r is Ok,
    {
        let mut deck: Vec<Card> = Vec::new();
        push_colour(&mut deck, Colour::Red);
        push_colour(&mut deck, Colour::Yellow);
        push_colour(&mut deck, Colour::Green);
        push_colour(&mut deck, Colour::Blue);
        push_card(&mut deck, Card::Wild(0));
        push_card(&mut deck, Card::Wild(0));
        push_card(&mut deck, Card::Wild(4));
        push_card(&mut deck, Card::Wild(4));
        proof {
            assert(deck@ =~= standard_cards());
            assert(spec_number_count(deck@) == 76);
        }
        let r = Self::new(deck, num_players, 7, rng);
        proof {
            if num_players <= 10 {
                assert(num_players * 7 + 1 <= 76) by (nonlinear_arith)
                    requires
                        num_players <= 10,
                ;
            }
        }
        r
    }
}

/// The twenty-five cards of one colour in the standard deck: two of
/// each numbered card one to nine, one zero, two draw-twos, two
/// reverses and two skips.
pub open spec fn colour_cards(c: Colour) -> Seq<Card> {
    seq![
        Card::Number(c, 1),
        Card::Number(c, 1),
        Card::Number(c, 2),
        Card::Number(c, 2),
        Card::Number(c, 3),
        Card::Number(c, 3),
        Card::Number(c, 4),
        Card::Number(c, 4),
        Card::Number(c, 5),
        Card::Number(c, 5),
        Card::Number(c, 6),
        Card::Number(c, 6),
        Card::Number(c, 7),
        Card::Number(c, 7),
        Card::Number(c, 8),
        Card::Number(c, 8),
        Card::Number(c, 9),
        Card::Number(c, 9),
        Card::Number(c, 0),
        Card::Draw(c, 2),
        Card::Draw(c, 2),
        Card::Reverse(c),
        Card::Reverse(c),
        Card::Skip(c),
        Card::Skip(c),
    ]
}

/// The full standard deck, one entry per physical card: the four colour
/// blocks and two plain plus two draw-four wilds — 104 cards, 76 of
/// them numbered.
pub open spec fn standard_cards() -> Seq<Card> {
    colour_cards(Colour::Red) + colour_cards(Colour::Yellow) + colour_cards(Colour::Green)
        + colour_cards(Colour::Blue) + seq![
        Card::Wild(0),
        Card::Wild(0),
        Card::Wild(4),
        Card::Wild(4),
    ]
}

fn push_card(deck: &mut Vec<Card>, c: Card)
    ensures
        final(deck)@ == old(deck)@.push(c),
        spec_number_count(final(deck)@) == spec_number_count(old(deck)@) + (if c is Number {
            1int
        } else {
            0
        }),
{
    proof {
        lemma_number_count_push(deck@, c);
    }
    deck.push(c);
}

/// Appends one colour's block of the standard deck.
fn push_colour(deck: &mut Vec<Card>, colour: Colour)
    ensures
        final(deck)@ == old(deck)@ + colour_cards(colour),
        spec_number_count(final(deck)@) == spec_number_count(old(deck)@) + 19,
{
    push_card(deck, Card::Number(colour, 1));
    push_card(deck, Card::Number(colour, 1));
    push_card(deck, Card::Number(colour, 2));
    push_card(deck, Card::Number(colour, 2));
    push_card(deck, Card::Number(colour, 3));
    push_card(deck, Card::Number(colour, 3));
    push_card(deck, Card::Number(colour, 4));
    push_card(deck, Card::Number(colour, 4));
    push_card(deck, Card::Number(colour, 5));
    push_card(deck, Card::Number(colour, 5));
    push_card(deck, Card::Number(colour, 6));
    push_card(deck, Card::Number(colour, 6));
    push_card(deck, Card::Number(colour, 7));
    push_card(deck, Card::Number(colour, 7));
    push_card(deck, Card::Number(colour, 8));
    push_card(deck, Card::Number(colour, 8));
    push_card(deck, Card::Number(colour, 9));
    push_card(deck, Card::Number(colour, 9));
    push_card(deck, Card::Number(colour, 0));
    push_card(deck, Card::Draw(colour, 2));
    push_card(deck, Card::Draw(colour, 2));
    push_card(deck, Card::Reverse(colour));
    push_card(deck, Card::Reverse(colour));
    push_card(deck, Card::Skip(colour));
    push_card(deck, Card::Skip(colour));
    proof {
        assert(deck@ =~= old(deck)@ + colour_cards(colour));
    }
}

fn clone_cards(v: &Vec<Card>) -> (r: Vec<Card>)
    ensures
        r@ == v@,
{
    let mut r: Vec<Card> = Vec::new();
    let mut i: usize = 0;
    let n = v.len();
    while i < n
        invariant
            n == v@.len(),
            i <= n,
            r@ == v@.subrange(0, i as int),
        decreases n - i,
    {
        r.push(v[i]);
        i = i + 1;
    }
    proof {
        assert(v@.subrange(0, v@.len() as int) == v@);
    }
    r
}

impl Game for Uno {
    type Move = PlayerMove;

    type GameState = GameState;

    type Player = usize;

    /// Hidden information: a clone resamples nothing here, but the moves
    /// legal at a revisited node still vary with the cards drawn on the
    /// way, so the legal-move set at a fixed tree position is not stable
    /// across simulations.
    fn is_perfect_information() -> (r: bool)
        ensures
            !r,
    {
        false
    }

    fn duplicate(&self) -> (g: Self)
        ensures
            g.deck@ == self.deck@,
            g.player_turn == self.player_turn,
            g.player_cards@.len() == self.player_cards@.len(),
            forall|p: int|
                0 <= p < self.player_cards@.len() ==> (#[trigger] g.player_cards@[p])@
                    == self.player_cards@[p]@,
            g.last_play == self.last_play,
            g.card_purgatory@ == self.card_purgatory@,
            g.reversed == self.reversed,
            g.ended == self.ended,
    {
        let mut hands: Vec<Vec<Card>> = Vec::new();
        let mut p: usize = 0;
        let n = self.player_cards.len();
        while p < n
            invariant
                n == self.player_cards@.len(),
                p <= n,
                hands@.len() == p,
                forall|q: int|
                    0 <= q < p ==> (#[trigger] hands@[q])@ == self.player_cards@[q]@,
            decreases n - p,
        {
            hands.push(clone_cards(&self.player_cards[p]));
            p = p + 1;
        }
        Uno {
            deck: clone_cards(&self.deck),
            rng: rng_clone(&self.rng),
            player_turn: self.player_turn,
            player_cards: hands,
            last_play: self.last_play,
            card_purgatory: clone_cards(&self.card_purgatory),
            reversed: self.reversed,
            ended: self.ended,
        }
    }

    fn clone_move(m: &PlayerMove) -> (r: PlayerMove)
        ensures
            r == *m,
    {
        *m
    }

    fn moves_equal(a: &PlayerMove, b: &PlayerMove) -> (r: bool)
        ensures
            r == (*a == *b),
    {
        *a == *b
    }

    open spec fn spec_placeholder() -> PlayerMove {
        PlayerMove::Number(Colour::Red, 255)
    }

    fn placeholder_move() -> PlayerMove {
        PlayerMove::Number(Colour::Red, 255)
    }

    /// Exactly the legal moves, without duplicates: each playable card
    /// in hand offers its moves (a wild in all four colours), and a bare
    /// draw is offered exactly when nothing can be played.
    fn possible_moves(&self) -> (r: Vec<PlayerMove>)
        ensures
            self.wf() ==> {
                &&& forall|k: int|
                    0 <= k < r@.len() ==> uno_move_legal(
                        self.current_hand(),
                        self.last_play,
                        #[trigger] r@[k],
                    )
                &&& forall|m: PlayerMove|
                    #[trigger] uno_move_legal(self.current_hand(), self.last_play, m)
                        ==> r@.contains(m)
                &&& forall|k1: int, k2: int|
                    0 <= k1 < k2 < r@.len() ==> r@[k1] != r@[k2]
            },
    {
        let mut r: Vec<PlayerMove> = Vec::new();
        if self.player_turn >= self.player_cards.len() || matches!(
            self.last_play,
            PlayerMove::ActionDraw,
        ) {
            return r;
        }
        let hand = &self.player_cards[self.player_turn];
        let n = hand.len();
        if n == 0 {
            return r;
        }
        let single = n == 1;
        let mut i: usize = 0;
        while i < n
            invariant
                self.wf(),
                hand@ == self.current_hand(),
                n == hand@.len(),
                n >= 1,
                single == (n == 1),
                i <= n,
                forall|k: int|
                    0 <= k < r@.len() ==> card_move_legal(
                        hand@,
                        self.last_play,
                        #[trigger] r@[k],
                    ),
                forall|k: int|
                    0 <= k < r@.len() ==> spec_as_card(#[trigger] r@[k]) is Some && seen_before(
                        hand@,
                        i as int,
                        the_card(r@[k]),
                    ),
                forall|m: PlayerMove|
                    #[trigger] card_move_legal(hand@, self.last_play, m) && seen_before(
                        hand@,
                        i as int,
                        the_card(m),
                    ) ==> r@.contains(m),
                forall|k1: int, k2: int| 0 <= k1 < k2 < r@.len() ==> r@[k1] != r@[k2],
            decreases n - i,
        {
            let c = hand[i];
            if !vec_has_card(hand, i, c) {
                let ghost r_before = r@;
                moves_of_card(c, self.last_play, single, &mut r);
                proof {
                    let ghost ms = card_moves(c, self.last_play, single);
                    assert(hand@[i as int] == c);
                    assert(hand@.contains(c));
                    assert forall|k: int|
                        0 <= k < r@.len() implies card_move_legal(
                        hand@,
                        self.last_play,
                        #[trigger] r@[k],
                    ) && spec_as_card(r@[k]) is Some && seen_before(
                        hand@,
                        i as int + 1,
                        the_card(r@[k]),
                    ) by {
                        if k < r_before.len() {
                            assert(r@[k] == r_before[k]);
                            let w = choose|w: int|
                                0 <= w < i && hand@[w] == the_card(r_before[k]);
                            assert(seen_before(hand@, i as int + 1, the_card(r@[k])));
                        } else {
                            assert(ms[k - r_before.len()] == r@[k]);
                            assert(ms.contains(r@[k]));
                            lemma_card_moves_sound(hand@, self.last_play, c, r@[k]);
                            assert(the_card(r@[k]) == c);
                            assert(hand@[i as int] == the_card(r@[k]));
                            assert(seen_before(hand@, i as int + 1, the_card(r@[k])));
                        }
                    }
                    assert forall|m: PlayerMove|
                        #[trigger] card_move_legal(hand@, self.last_play, m) && seen_before(
                            hand@,
                            i as int + 1,
                            the_card(m),
                        ) implies r@.contains(m) by {
                        lemma_card_moves_complete(hand@, self.last_play, m);
                        if the_card(m) == c {
                            let w = choose|w: int| 0 <= w < ms.len() && ms[w] == m;
                            assert(r@[r_before.len() + w] == m);
                        } else {
                            let j = choose|j: int|
                                0 <= j < i + 1 && hand@[j] == the_card(m);
                            assert(j != i);
                            assert(seen_before(hand@, i as int, the_card(m)));
                            assert(r_before.contains(m));
                            let w = choose|w: int| 0 <= w < r_before.len() && r_before[w] == m;
                            assert(r@[w] == m);
                        }
                    }
                    assert forall|k1: int, k2: int|
                        0 <= k1 < k2 < r@.len() implies r@[k1] != r@[k2] by {
                        if k2 < r_before.len() {
                            assert(r_before[k1] != r_before[k2]);
                        } else if k1 < r_before.len() {
                            assert(ms[k2 - r_before.len()] == r@[k2]);
                            assert(ms.contains(r@[k2]));
                            lemma_card_moves_sound(hand@, self.last_play, c, r@[k2]);
                            assert(the_card(r@[k2]) == c);
                            assert(!seen_before(hand@, i as int, c));
                            assert(seen_before(hand@, i as int, the_card(r@[k1])));
                            assert(the_card(r@[k1]) != c);
                            assert(spec_as_card(r@[k1]) is Some);
                            assert(spec_as_card(r@[k2]) is Some);
                        } else {
                            assert(ms[k1 - r_before.len()] == r@[k1]);
                            assert(ms[k2 - r_before.len()] == r@[k2]);
                        }
                    }
                }
            } else {
                proof {
                    assert forall|m: PlayerMove|
                        #[trigger] card_move_legal(hand@, self.last_play, m) && seen_before(
                            hand@,
                            i as int + 1,
                            the_card(m),
                        ) implies r@.contains(m) by {
                        let j = choose|j: int| 0 <= j < i + 1 && hand@[j] == the_card(m);
                        if j == i {
                            assert(seen_before(hand@, i as int, c));
                            let j2 = choose|j2: int| 0 <= j2 < i && hand@[j2] == c;
                            assert(hand@[j2] == the_card(m));
                            assert(seen_before(hand@, i as int, the_card(m)));
                        } else {
                            assert(seen_before(hand@, i as int, the_card(m)));
                        }
                    }
                }
            }
            i = i + 1;
        }
        if r.len() == 0 {
            proof {
                assert forall|m: PlayerMove| !card_move_legal(
                    hand@,
                    self.last_play,
                    m,
                ) by {
                    if card_move_legal(hand@, self.last_play, m) {
                        lemma_card_moves_complete(hand@, self.last_play, m);
                        let j = choose|j: int| 0 <= j < hand@.len() && hand@[j] == the_card(m);
                        assert(seen_before(hand@, n as int, the_card(m)));
                        assert(r@.contains(m));
                    }
                }
                assert(!any_card_move_legal(hand@, self.last_play));
            }
            r.push(PlayerMove::ActionDraw);
            proof {
                assert(r@[0] == PlayerMove::ActionDraw);
                assert(uno_move_legal(hand@, self.last_play, PlayerMove::ActionDraw));
            }
        } else {
            proof {
                assert(card_move_legal(hand@, self.last_play, r@[0]));
                assert(any_card_move_legal(hand@, self.last_play));
            }
        }
        proof {
            assert forall|m: PlayerMove|
                #[trigger] uno_move_legal(self.current_hand(), self.last_play, m) implies
                r@.contains(m) by {
                if m is ActionDraw {
                    assert(r@[0] == PlayerMove::ActionDraw);
                } else {
                    lemma_card_moves_complete(hand@, self.last_play, m);
                    let j = choose|j: int| 0 <= j < hand@.len() && hand@[j] == the_card(m);
                    assert(seen_before(hand@, n as int, the_card(m)));
                }
            }
        }
        r
    }

    /// Applies a move for the player to move. Refused exactly when the
    /// game already ended (`GameAlreadyEnded`) or the move is not
    /// currently legal (`InvalidMove`), both changing nothing;
    /// `OutOfCards` aborts a draw the deck cannot supply. A played card
    /// moves from the hand to the top of the stack (onto a pending
    /// draw-stack, a draw or wild records the summed debt); drawing
    /// grows the hand by the debt owed, or by one. No card is created
    /// or destroyed: the deck, the stack and the mover's hand hold the
    /// same cards before and after. The mover wins exactly when their
    /// hand empties, which ends the game without passing the turn;
    /// otherwise the turn advances (two seats on a skip, direction
    /// flipped by a reverse).
    #[verifier::rlimit(60)]
    fn place_move(&mut self, movement: PlayerMove) -> (r: Result<GameState, GameError>)
        ensures
            old(self).wf() ==> {
                &&& final(self).wf()
                &&& final(self).player_cards@.len() == old(self).player_cards@.len()
                &&& old(self).ended ==> r == Err::<GameState, GameError>(
                    GameError::GameAlreadyEnded,
                ) && *final(self) == *old(self)
                &&& (!old(self).ended && !uno_move_legal(
                    old(self).current_hand(),
                    old(self).last_play,
                    movement,
                )) ==> r == Err::<GameState, GameError>(GameError::InvalidMove) && *final(self)
                    == *old(self)
                &&& (!old(self).ended && uno_move_legal(
                    old(self).current_hand(),
                    old(self).last_play,
                    movement,
                )) ==> {
                    &&& r is Err ==> r == Err::<GameState, GameError>(GameError::OutOfCards)
                    &&& r is Ok ==> card_pool(
                        final(self).deck@,
                        final(self).card_purgatory@,
                        final(self).player_cards@[old(self).player_turn as int]@,
                    ) == card_pool(
                        old(self).deck@,
                        old(self).card_purgatory@,
                        old(self).current_hand(),
                    )
                    &&& r is Ok ==> {
                        &&& (r == Ok::<GameState, GameError>(GameState::Win) <==> final(self).player_cards@[old(self).player_turn as int]@.len() == 0)
                        &&& (r == Ok::<GameState, GameError>(GameState::Win) ==> final(self).ended
                            && final(self).player_turn == old(self).player_turn)
                        &&& (r == Ok::<GameState, GameError>(GameState::Continue) ==> !final(self).ended)
                        &&& final(self).reversed == (old(self).reversed != (movement is Reverse))
                        &&& r == Ok::<GameState, GameError>(GameState::Continue)
                            ==> final(self).player_turn as int == (if (movement is Reverse) != old(self).reversed {
                            (old(self).player_turn - (if movement is Skip {
                                2int
                            } else {
                                1int
                            })) % (old(self).player_cards@.len() as int)
                        } else {
                            (old(self).player_turn + (if movement is Skip {
                                2int
                            } else {
                                1int
                            })) % (old(self).player_cards@.len() as int)
                        })
                        &&& spec_as_card(movement) is Some ==> final(self).card_purgatory@.len()
                            >= 1 && final(self).card_purgatory@.last() == spec_as_card(
                            movement,
                        ).unwrap()
                        &&& movement is ActionDraw ==> final(self).last_play
                            == old(self).last_play && final(self).player_cards@[old(self).player_turn as int]@.len() == old(self).current_hand().len() + (match old(self).last_play {
                            PlayerMove::Draw(c0, p0) => if p0 == 0 {
                                1int
                            } else {
                                p0 as int
                            },
                            PlayerMove::Wild(c0, p0) => if p0 == 0 {
                                1int
                            } else {
                                p0 as int
                            },
                            _ => 1int,
                        })
                    }
                    &&& (r is Ok && spec_as_card(movement) is Some && !(old(self).last_play
                        is Draw) && !(old(self).last_play is Wild)) ==> {
                        &&& final(self).last_play == movement
                        &&& final(self).card_purgatory@ == old(self).card_purgatory@.push(
                            spec_as_card(movement).unwrap(),
                        )
                        &&& hand_lost_one(
                            old(self).current_hand(),
                            final(self).player_cards@[old(self).player_turn as int]@,
                            spec_as_card(movement).unwrap(),
                        )
                        &&& final(self).deck == old(self).deck
                    }
                    &&& old(self).last_play matches PlayerMove::Draw(c0, p0) ==> (r is Ok
                        ==> {
                        &&& movement matches PlayerMove::Draw(c1, n1) ==> final(self).last_play
                            == PlayerMove::Draw(c0, stacked_debt(n1, p0))
                            && final(self).card_purgatory@ == old(self).card_purgatory@.push(
                            spec_as_card(movement).unwrap(),
                        ) && hand_lost_one(
                            old(self).current_hand(),
                            final(self).player_cards@[old(self).player_turn as int]@,
                            spec_as_card(movement).unwrap(),
                        ) && final(self).deck == old(self).deck
                        &&& movement matches PlayerMove::Wild(c1, n1) ==> final(self).last_play
                            == PlayerMove::Wild(c1, stacked_debt(n1, p0))
                            && final(self).card_purgatory@ == old(self).card_purgatory@.push(
                            spec_as_card(movement).unwrap(),
                        ) && hand_lost_one(
                            old(self).current_hand(),
                            final(self).player_cards@[old(self).player_turn as int]@,
                            spec_as_card(movement).unwrap(),
                        ) && final(self).deck == old(self).deck
                        &&& (movement is Number || movement is Reverse || movement is Skip)
                            ==> final(self).last_play == movement && final(self).player_cards@[
                            old(self).player_turn as int
                        ]@.len() == old(self).current_hand().len() + p0 - 1
                    })
                    &&& old(self).last_play matches PlayerMove::Wild(c0, p0) ==> (r is Ok
                        ==> {
                        &&& movement matches PlayerMove::Draw(c1, n1) ==> final(self).last_play
                            == PlayerMove::Draw(c0, stacked_debt(n1, p0)) && hand_lost_one(
                            old(self).current_hand(),
                            final(self).player_cards@[old(self).player_turn as int]@,
                            spec_as_card(movement).unwrap(),
                        ) && final(self).deck == old(self).deck
                        &&& movement matches PlayerMove::Wild(c1, n1) ==> final(self).last_play
                            == PlayerMove::Wild(c1, stacked_debt(n1, p0)) && hand_lost_one(
                            old(self).current_hand(),
                            final(self).player_cards@[old(self).player_turn as int]@,
                            spec_as_card(movement).unwrap(),
                        ) && final(self).deck == old(self).deck
                        &&& (movement is Number || movement is Reverse || movement is Skip)
                            ==> final(self).last_play == movement && final(self).player_cards@[
                            old(self).player_turn as int
                        ]@.len() == old(self).current_hand().len() + p0 - 1
                    })
                }
            },
    {
        if self.ended {
            return Err(GameError::GameAlreadyEnded);
        }
        if self.player_turn >= self.player_cards.len() || matches!(
            self.last_play,
            PlayerMove::ActionDraw,
        ) {
            return Err(GameError::InvalidPosition);
        }
        let moves = self.possible_moves();
        let mut is_valid = false;
        let mut k: usize = 0;
        let nm = moves.len();
        while k < nm
            invariant
                nm == moves@.len(),
                k <= nm,
                is_valid <==> exists|w: int| 0 <= w < k && moves@[w] == movement,
            decreases nm - k,
        {
            if !is_valid && moves[k] == movement {
                is_valid = true;
            }
            k = k + 1;
        }
        if !is_valid {
            proof {
                if uno_move_legal(self.current_hand(), self.last_play, movement) {
                    assert(moves@.contains(movement));
                }
            }
            return Err(GameError::InvalidMove);
        }
        proof {
            let w = choose|w: int| 0 <= w < nm && moves@[w] == movement;
            assert(uno_move_legal(self.current_hand(), self.last_play, movement));
        }
        let mut handled = false;
        let mut next_turn_scale: u8 = 1;
        match self.last_play {
            PlayerMove::Draw(c0, pending) | PlayerMove::Wild(c0, pending) => {
                match movement {
                    PlayerMove::Draw(_, n2) => {
                        let stacked = n2.saturating_add(pending);
                        match self.update_move(movement.as_card(), PlayerMove::Draw(c0, stacked)) {
                            Ok(_) => {},
                            Err(e) => {
                                proof {
                                    assert(false);
                                }
                                return Err(e);
                            },
                        }
                        handled = true;
                    },
                    PlayerMove::Wild(cw, n2) => {
                        let stacked = n2.saturating_add(pending);
                        match self.update_move(movement.as_card(), PlayerMove::Wild(cw, stacked)) {
                            Ok(_) => {},
                            Err(e) => {
                                proof {
                                    assert(false);
                                }
                                return Err(e);
                            },
                        }
                        handled = true;
                    },
                    PlayerMove::ActionDraw => {
                        if pending > 0 {
                            match self.draw_card_for_player(
                                self.player_turn,
                                (pending - 1) as usize,
                            ) {
                                Ok(_) => {},
                                Err(e) => {
                                    return Err(e);
                                },
                            }
                        }
                    },
                    _ => {
                        match self.draw_card_for_player(self.player_turn, pending as usize) {
                            Ok(_) => {},
                            Err(e) => {
                                return Err(e);
                            },
                        }
                    },
                }
            },
            _ => {},
        }
        if !handled {
            match movement {
                PlayerMove::Reverse(_) => {
                    self.reversed = !self.reversed;
                },
                PlayerMove::Skip(_) => {
                    next_turn_scale = 2;
                },
                PlayerMove::ActionDraw => {
                    match self.draw_card_for_player(self.player_turn, 1) {
                        Ok(_) => {},
                        Err(e) => {
                            return Err(e);
                        },
                    }
                },
                _ => {},
            }
            match self.update_move(movement.as_card(), movement) {
                Ok(_) => {},
                Err(e) => {
                    proof {
                        assert(false);
                    }
                    return Err(e);
                },
            }
        }
        if self.player_card_count(self.player_turn) == 0 {
            self.ended = true;
            Ok(GameState::Win)
        } else {
            self.next_player(next_turn_scale);
            Ok(GameState::Continue)
        }
    }

    /// Interprets an outcome for `player`, in half-point units: a win is
    /// worth two to the winner (still the player to move, since winning
    /// does not pass the turn) and nothing to anyone else; a continuing
    /// game carries no score.
    fn score_state(&self, state: GameState, player: &usize) -> (r: MoveScore)
        ensures
            state == GameState::Win && self.player_turn == *player ==> r == MoveScore::Terminal(2),
            state == GameState::Win && self.player_turn != *player ==> r == MoveScore::Terminal(0),
            state == GameState::Continue ==> r == MoveScore::Unscored,
    {
        match state {
            GameState::Win => MoveScore::Terminal(
                if self.player_turn == *player {
                    2
                } else {
                    0
                },
            ),
            GameState::Continue => MoveScore::Unscored,
        }
    }
}

} // verus!
