//! The card game Combat: players hold decks of cards and score by card
//! position from the bottom.

use vstd::prelude::*;

verus! {

/// One player: a name and the deck, top of the deck first.
pub struct Player {
    pub name: Vec<char>,
    pub cards: Vec<usize>,
}

/// The deck score written over positions: card `i` of `n` is worth
/// `(n - i)` times its face value.
pub open spec fn deck_score(cards: Seq<usize>, upto: int) -> int
    decreases upto,
{
    if upto <= 0 {
        0
    } else {
        deck_score(cards, upto - 1) + cards[upto - 1] * (cards.len() - (upto - 1))
    }
}

impl Player {
    /// A player with no name and no cards yet.
    pub fn new() -> (r: Player)
        ensures
            r.name@.len() == 0,
            r.cards@.len() == 0,
    {
        Player { name: Vec::new(), cards: Vec::new() }
    }

    /// Draw the top card.
    pub fn draw(&mut self) -> (r: usize)
        requires
            old(self).cards@.len() >= 1,
        ensures
            r == old(self).cards@[0],
            final(self).cards@ == old(self).cards@.drop_first(),
            final(self).name@ == old(self).name@,
    {
        let c = self.cards.remove(0);
        proof {
            assert(self.cards@ =~= old(self).cards@.drop_first());
        }
        c
    }

    /// A copy of this player holding only the top `cards` cards, for a
    /// recursive sub-game.
    pub fn recurse_clone(&self, cards: usize) -> (r: Player)
        requires
            cards <= self.cards@.len(),
        ensures
            r.name@ == self.name@,
            r.cards@ == self.cards@.subrange(0, cards as int),
    {
        let mut name: Vec<char> = Vec::new();
        let mut i: usize = 0;
        let nn = self.name.len();
        while i < nn
            invariant
                i <= nn,
                nn == self.name@.len(),
                name@ == self.name@.subrange(0, i as int),
            decreases nn - i,
        {
            name.push(self.name[i]);
            proof {
                assert(name@ =~= self.name@.subrange(0, i + 1));
            }
            i = i + 1;
        }
        proof {
            assert(name@ =~= self.name@);
        }
        let mut deck: Vec<usize> = Vec::new();
        let mut k: usize = 0;
        while k < cards
            invariant
                k <= cards,
                cards <= self.cards@.len(),
                deck@ == self.cards@.subrange(0, k as int),
            decreases cards - k,
        {
            deck.push(self.cards[k]);
            proof {
                assert(deck@ =~= self.cards@.subrange(0, k + 1));
            }
            k = k + 1;
        }
        Player { name, cards: deck }
    }

    /// The winner's score: cards weighted by position from the bottom.
    pub fn score(&self) -> (r: usize)
        requires
            forall|k: int| 0 <= k <= self.cards@.len() ==> deck_score(self.cards@, k) <= usize::MAX,
        ensures
            r == deck_score(self.cards@, self.cards@.len() as int),
    {
        let ghost s = self.cards@;
        let n = self.cards.len();
        let mut r: usize = 0;
        let mut i: usize = 0;
        while i < n
            invariant
                i <= n,
                n == s.len(),
                s == self.cards@,
                forall|k: int| 0 <= k <= s.len() ==> deck_score(s, k) <= usize::MAX,
                r == deck_score(s, i as int),
            decreases n - i,
        {
            proof {
                lemma_deck_score_nonneg(s, i as int);
                assert(deck_score(s, i as int + 1) == deck_score(s, i as int) + s[i as int] * (
                s.len() - i));
            }
            r = r + self.cards[i] * (n - i);
            i = i + 1;
        }
        r
    }
}

proof fn lemma_deck_score_nonneg(s: Seq<usize>, k: int)
    requires
        k <= s.len(),
    ensures
        deck_score(s, k) >= 0,
    decreases k,
{
    if k > 0 {
        lemma_deck_score_nonneg(s, k - 1);
        assert(s[k - 1] * (s.len() - (k - 1)) >= 0) by (nonlinear_arith)
            requires
                s[k - 1] >= 0,
                k <= s.len(),
        ;
    }
}

} // verus!
