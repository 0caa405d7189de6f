use vstd::prelude::*;
use crate::deck::Deck;
use crate::deck::all_scored;
use crate::deck::nonempty_hands;
use crate::deck::same_but_result;
use crate::player::scored;
use crate::player::split_sp;
use crate::player::toks;
use crate::player::valid_hand_str;

verus! {

/// The hands read in for a test run: six hands of five card entries each.
#[derive(Debug)]
pub struct GameMode {
    /// The card entries as read, six rows of five.
    pub entries: Vec<Vec<String>>,
    /// The six formatted hand strings.
    pub test_array: Vec<String>,
    /// Every card entry seen so far, for duplicate tracking.
    pub dup_array: Vec<String>,
}

impl GameMode {
    /// Makes an empty game state: six blank hands of five blank entries.
    pub fn new(_test: bool) -> (r: Self)
        ensures
            r.entries@.len() == 6,
            forall|i: int| 0 <= i < 6 ==> #[trigger] r.entries@[i]@.len() == 5,
            forall|i: int, j: int|
                0 <= i < 6 && 0 <= j < 5 ==> #[trigger] r.entries@[i]@[j]@.len() == 0,
            r.test_array@.len() == 6,
            forall|i: int| 0 <= i < 6 ==> #[trigger] r.test_array@[i]@.len() == 0,
            r.dup_array@.len() == 0,
    {
        let mut entries: Vec<Vec<String>> = Vec::new();
        let mut i: usize = 0;
        while i < 6
            invariant
                i <= 6,
                entries@.len() == i,
                forall|m: int| 0 <= m < i ==> #[trigger] entries@[m]@.len() == 5,
                forall|m: int, j: int|
                    0 <= m < i && 0 <= j < 5 ==> #[trigger] entries@[m]@[j]@.len() == 0,
            decreases 6 - i,
        {
            let mut row: Vec<String> = Vec::new();
            let mut j: usize = 0;
            while j < 5
                invariant
                    j <= 5,
                    row@.len() == j,
                    forall|m: int| 0 <= m < j ==> #[trigger] row@[m]@.len() == 0,
                decreases 5 - j,
            {
                row.push(String::new());
                j = j + 1;
            }
            entries.push(row);
            i = i + 1;
        }
        let mut test_array: Vec<String> = Vec::new();
        let mut k: usize = 0;
        while k < 6
            invariant
                k <= 6,
                test_array@.len() == k,
                forall|m: int| 0 <= m < k ==> #[trigger] test_array@[m]@.len() == 0,
            decreases 6 - k,
        {
            test_array.push(String::new());
            k = k + 1;
        }
        GameMode { entries, test_array, dup_array: Vec::new() }
    }

    /// Hands the formatted test hands to the deck for classification.
    pub fn call_deck_class(&self, deck: &mut Deck)
        requires
            forall|k: int|
                0 <= k < self.test_array@.len() ==> valid_hand_str(
                    (#[trigger] self.test_array@[k])@,
                ) && split_sp(self.test_array@[k]@).len() <= 255,
        ensures
            same_but_result(*old(deck), *final(deck)),
            all_scored(final(deck).result@),
            final(deck).result@.len() == nonempty_hands(self.test_array.deep_view()).len(),
            forall|m: int|
                0 <= m < final(deck).result@.len() ==> scored(#[trigger] final(deck).result@[m])
                    && toks(final(deck).result@[m]) == split_sp(
                    nonempty_hands(self.test_array.deep_view())[m],
                ),
    {
        deck.rank_hands(&self.test_array);
    }
}

} // verus!
