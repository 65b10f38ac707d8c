use vstd::prelude::*;

use crate::data::CardId;

verus! {

/// Index of the first occurrence of `card` in `s`; meaningful only when `s` contains `card`.
pub open spec fn first_index(s: Seq<CardId>, card: CardId) -> int {
    choose|i: int| is_first_index(s, card, i)
}

/// `i` is the position of the first occurrence of `card` in `s`.
pub open spec fn is_first_index(s: Seq<CardId>, card: CardId, i: int) -> bool {
    &&& 0 <= i < s.len()
    &&& s[i] == card
    &&& forall|j: int| 0 <= j < i ==> s[j] != card
}

/// A first occurrence, once exhibited, is the one that `first_index` names.
pub proof fn lemma_first_index_unique(s: Seq<CardId>, card: CardId, i: int)
    requires
        is_first_index(s, card, i),
    ensures
        first_index(s, card) == i,
{
    let k = first_index(s, card);
    assert(is_first_index(s, card, k));
    if k < i {
        assert(s[k] == card);
    } else if k > i {
        assert(s[i] == card);
    }
}

/// A card that occurs in `s` has a first occurrence.
pub proof fn lemma_first_index_exists(s: Seq<CardId>, card: CardId)
    requires
        s.contains(card),
    ensures
        is_first_index(s, card, first_index(s, card)),
{
    let i = choose|i: int| 0 <= i < s.len() && s[i] == card;
    lemma_first_index_from(s, card, i);
}

proof fn lemma_first_index_from(s: Seq<CardId>, card: CardId, i: int)
    requires
        0 <= i < s.len(),
        s[i] == card,
    ensures
        is_first_index(s, card, first_index(s, card)),
    decreases i,
{
    if exists|j: int| 0 <= j < i && s[j] == card {
        let j = choose|j: int| 0 <= j < i && s[j] == card;
        lemma_first_index_from(s, card, j);
    } else {
        lemma_first_index_unique(s, card, i);
    }
}

/// An ordered pile of cards. The top of the pile is the end of `content`,
/// the bottom its start.
#[derive(Debug)]
pub struct ZoneState {
    pub content: Vec<CardId>,
}

impl View for ZoneState {
    type V = Seq<CardId>;

    open spec fn view(&self) -> Seq<CardId> {
        self.content@
    }
}

impl ZoneState {
    /// Creates an empty zone.
    pub fn new() -> (r: Self)
        ensures
            r@ == Seq::<CardId>::empty(),
    {
        Self { content: Vec::new() }
    }

    /// Creates a zone holding `content`, bottom first.
    pub fn with_content(content: Vec<CardId>) -> (r: Self)
        ensures
            r@ == content@,
    {
        Self { content }
    }

    /// Puts `card` on top of the zone.
    pub fn put_on_top(&mut self, card: CardId)
        ensures
            final(self)@ == old(self)@.push(card),
    {
        self.content.push(card);
    }

    /// Takes the top card out of the zone, if there is one.
    pub fn take_top(&mut self) -> (r: Option<CardId>)
        ensures
            old(self)@.len() == 0 ==> r is None && final(self)@ == old(self)@,
            old(self)@.len() > 0 ==> r == Some(old(self)@.last()) && final(self)@
                == old(self)@.drop_last(),
    {
        self.content.pop()
    }

    /// Takes the bottom card out of the zone, if there is one.
    pub fn take_bottom(&mut self) -> (r: Option<CardId>)
        ensures
            old(self)@.len() == 0 ==> r is None && final(self)@ == old(self)@,
            old(self)@.len() > 0 ==> r == Some(old(self)@[0])
                && final(self)@ == old(self)@.drop_first(),
    {
        if self.content.len() == 0 {
            None
        } else {
            let card = self.content.remove(0);
            assert(self.content@ =~= old(self)@.drop_first());
            Some(card)
        }
    }

    /// Takes the first occurrence of `card` (counted from the bottom) out of
    /// the zone. Returns `None`, leaving the zone as it was, when `card` is
    /// not in it.
    pub fn take_card_id(&mut self, card: CardId) -> (r: Option<CardId>)
        ensures
            r is Some <==> old(self)@.contains(card),
            r is None ==> final(self)@ == old(self)@,
            r is Some ==> {
                &&& r == Some(card)
                &&& is_first_index(old(self)@, card, first_index(old(self)@, card))
                &&& final(self)@ == old(self)@.remove(first_index(old(self)@, card))
            },
    {
        let mut i: usize = 0;
        while i < self.content.len()
            invariant
                i <= self.content.len(),
                self.content@ == old(self)@,
                forall|j: int| 0 <= j < i ==> self.content@[j] != card,
            decreases self.content.len() - i,
        {
            if self.content[i] == card {
                proof {
                    lemma_first_index_unique(old(self)@, card, i as int);
                }
                let taken = self.content.remove(i);
                return Some(taken);
            }
            i += 1;
        }
        proof {
            if old(self)@.contains(card) {
                let k = choose|k: int| 0 <= k < old(self)@.len() && old(self)@[k] == card;
                assert(self.content@[k] != card);
            }
        }
        None
    }

    /// Placeholder for shuffling the zone: the order of the cards afterwards
    /// is left open, and no caller may rely on it being randomised (so far it
    /// is not).
    pub fn shuffle(&mut self)
        ensures
            final(self)@.len() == old(self)@.len(),
            final(self)@.to_multiset() == old(self)@.to_multiset(),
    {
    }
}

} // verus!
