use vstd::prelude::*;
use vstd::string::StrSliceExecFns;
use vstd::string::StringExecFns;
use crate::card::Card;
use crate::card::card_str;
use crate::card::char_to_string;
use crate::card::face_value;
use crate::card::suit_rank;
use crate::card::valid_suit;
use crate::card::all_digits;
use crate::game::GameMode;
use crate::player::Player;
use crate::player::count_rank;
use crate::player::ks_from;
use crate::player::pair_ranks;
use crate::player::scored;
use crate::player::spec_foak;
use crate::player::spec_high_card;
use crate::player::spec_high_card_suit;
use crate::player::spec_kicker;
use crate::player::spec_toak;
use crate::player::split_sp;
use crate::player::toks;
use crate::player::valid_hand_str;
use crate::player::valid_tokens;

verus! {

// ---------------------------------------------------------------------------
// The tie-break comparator of each category
// ---------------------------------------------------------------------------
/// Strictly less under the two-level comparison: first key, then second.
pub open spec fn key2_less(a1: u8, a2: u8, b1: u8, b2: u8) -> bool {
    a1 < b1 || (a1 == b1 && a2 < b2)
}

/// The tie-break comparator of `p`'s category says that `p` ranks strictly
/// behind `q`. Only meaningful when the two hands hold the same order.
pub open spec fn key_less(p: Player, q: Player) -> bool {
    let tp = toks(p);
    let tq = toks(q);
    if p.order == 1 || p.order == 2 || p.order == 5 || p.order == 6 {
        spec_high_card(tp) < spec_high_card(tq)
    } else if p.order == 10 {
        key2_less(spec_high_card(tp), spec_kicker(tp), spec_high_card(tq), spec_kicker(tq))
    } else if p.order == 9 {
        suit_rank(spec_high_card_suit(tp)) < suit_rank(spec_high_card_suit(tq)) || (suit_rank(
            spec_high_card_suit(tp),
        ) == suit_rank(spec_high_card_suit(tq)) && (spec_high_card_suit(tp) as u32) < (
        spec_high_card_suit(tq) as u32))
    } else if p.order == 8 {
        key2_less(pair_ranks(tp)[0], pair_ranks(tp)[1], pair_ranks(tq)[0], pair_ranks(tq)[1])
    } else if p.order == 7 {
        key2_less(spec_toak(tp), spec_kicker(tp), spec_toak(tq), spec_kicker(tq))
    } else if p.order == 3 {
        key2_less(spec_foak(tp), spec_kicker(tp), spec_foak(tq), spec_kicker(tq))
    } else if p.order == 4 {
        spec_toak(tp) < spec_toak(tq)
    } else {
        false
    }
}

/// Every hand of the batch is tallied, evaluated and scored.
pub open spec fn all_scored(s: Seq<Player>) -> bool {
    forall|k: int| 0 <= k < s.len() ==> scored(#[trigger] s[k])
}

/// The batch is sorted by ascending strength order.
pub open spec fn sorted_by_order(s: Seq<Player>) -> bool {
    forall|i: int, j: int| 0 <= i < j < s.len() ==> #[trigger] s[i].order <= #[trigger] s[j].order
}

/// No two hands of equal order stand in ascending comparator order: each
/// equal-order group is settled, strongest first.
pub open spec fn no_key_inversions(s: Seq<Player>) -> bool {
    forall|i: int, j: int|
        0 <= i < j < s.len() ==> !(#[trigger] s[i].order == #[trigger] s[j].order && key_less(
            s[i],
            s[j],
        ))
}

/// The hands of order `g` already stand in descending comparator order.
pub open spec fn group_desc(s: Seq<Player>, g: u8) -> bool {
    forall|i: int, j: int|
        0 <= i < j < s.len() && #[trigger] s[i].order == g && #[trigger] s[j].order == g ==> !key_less(
            s[i],
            s[j],
        )
}

/// A fully ranked batch: sorted by order, every tie settled.
pub open spec fn ranked(s: Seq<Player>) -> bool {
    sorted_by_order(s) && no_key_inversions(s)
}

/// The comparator is transitive enough for the pairwise pass: among three
/// hands of one order, when `a` does not rank behind `c` but ranks behind
/// `b`, then `b` does not rank behind `c` either.
pub proof fn lemma_key_less_trans(a: Player, b: Player, c: Player)
    requires
        a.order == b.order,
        b.order == c.order,
        !key_less(a, c),
        key_less(a, b),
    ensures
        !key_less(b, c),
{
}

/// The comparator never puts a hand behind itself or mutually behind
/// another: it is asymmetric.
pub proof fn lemma_key_less_asym(a: Player, b: Player)
    requires
        a.order == b.order,
        key_less(a, b),
    ensures
        !key_less(b, a),
{
}

// ---------------------------------------------------------------------------
// The pairwise tie-break pass as a mathematical function
// ---------------------------------------------------------------------------
/// The batch with positions `i` and `j` exchanged.
pub open spec fn swapped(s: Seq<Player>, i: int, j: int) -> Seq<Player> {
    s.update(i, s[j]).update(j, s[i])
}

/// The pass exchanges `i` and `j` exactly when they hold the same order
/// and the hand in front ranks behind the other.
pub open spec fn swap_cond(s: Seq<Player>, i: int, j: int) -> bool {
    s[i].order == s[j].order && key_less(s[i], s[j])
}

pub open spec fn tb_step(s: Seq<Player>, i: int, j: int) -> Seq<Player> {
    if swap_cond(s, i, j) {
        swapped(s, i, j)
    } else {
        s
    }
}

/// The pairwise pass from pair `(i, j)` on: every index pair in ascending
/// index order, each comparison seeing the effect of earlier exchanges.
pub open spec fn tb_pass(s: Seq<Player>, i: int, j: int) -> Seq<Player>
    decreases s.len() - i, (if j <= s.len() { s.len() - j } else { 0 }),
{
    if i < 0 || j <= i {
        s
    } else if i >= s.len() {
        s
    } else if j >= s.len() {
        tb_pass(s, i + 1, i + 2)
    } else {
        tb_pass(tb_step(s, i, j), i, j + 1)
    }
}

/// The whole tie-break pass over a batch.
pub open spec fn tie_pass(s: Seq<Player>) -> Seq<Player> {
    tb_pass(s, 0, 1)
}

// ---------------------------------------------------------------------------
// The stable sort by strength order as a mathematical function
// ---------------------------------------------------------------------------
/// Inserts `x` behind every hand of order up to and including its own.
pub open spec fn insert_sorted(t: Seq<Player>, x: Player) -> Seq<Player>
    decreases t.len(),
{
    if t.len() == 0 || t.last().order <= x.order {
        t.push(x)
    } else {
        insert_sorted(t.drop_last(), x).push(t.last())
    }
}

/// Insertion sort by ascending order, stable for hands of equal order.
pub open spec fn isort(s: Seq<Player>) -> Seq<Player>
    decreases s.len(),
{
    if s.len() == 0 {
        s
    } else {
        insert_sorted(isort(s.drop_last()), s.last())
    }
}

/// The subsequence of hands holding order `o`.
pub open spec fn ofilter(s: Seq<Player>, o: u8) -> Seq<Player> {
    s.filter(|p: Player| p.order == o)
}

/// Where the insertion point is known, inserting is splicing in.
pub proof fn lemma_insert_at(t: Seq<Player>, x: Player, m: int)
    requires
        0 <= m <= t.len(),
        forall|k: int| 0 <= k < m ==> #[trigger] t[k].order <= x.order,
        forall|k: int| m <= k < t.len() ==> #[trigger] t[k].order > x.order,
    ensures
        insert_sorted(t, x) == t.take(m) + seq![x] + t.skip(m),
    decreases t.len(),
{
    if t.len() == 0 {
        assert(insert_sorted(t, x) =~= t.take(m) + seq![x] + t.skip(m));
    } else if t.last().order <= x.order {
        assert(m == t.len());
        assert(insert_sorted(t, x) =~= t.take(m) + seq![x] + t.skip(m));
    } else {
        let dl = t.drop_last();
        assert(m <= dl.len());
        assert(forall|k: int| 0 <= k < m ==> #[trigger] dl[k].order <= x.order);
        assert(forall|k: int| m <= k < dl.len() ==> #[trigger] dl[k].order > x.order);
        lemma_insert_at(dl, x, m);
        assert(insert_sorted(t, x) =~= t.take(m) + seq![x] + t.skip(m));
    }
}

/// Inserting keeps the batch sorted and adds exactly `x`, keeping every
/// other hand.
pub proof fn lemma_insert_sorted_props(t: Seq<Player>, x: Player)
    requires
        sorted_by_order(t),
    ensures
        insert_sorted(t, x).len() == t.len() + 1,
        sorted_by_order(insert_sorted(t, x)),
        forall|k: int|
            0 <= k < insert_sorted(t, x).len() ==> (#[trigger] insert_sorted(t, x)[k] == x
                || t.contains(insert_sorted(t, x)[k])),
    decreases t.len(),
{
    let res = insert_sorted(t, x);
    if t.len() == 0 || t.last().order <= x.order {
        assert(forall|k: int| 0 <= k < res.len() ==> (#[trigger] res[k] == x || t.contains(res[k])))
            by {
            assert(forall|k: int| 0 <= k < t.len() ==> t.contains(#[trigger] t[k]));
        }
    } else {
        let dl = t.drop_last();
        assert(sorted_by_order(dl));
        lemma_insert_sorted_props(dl, x);
        let inner = insert_sorted(dl, x);
        assert(res == inner.push(t.last()));
        assert(sorted_by_order(res)) by {
            assert(forall|k: int| 0 <= k < inner.len() ==> #[trigger] inner[k].order
                <= t.last().order) by {
                assert(forall|k: int|
                    0 <= k < inner.len() ==> (#[trigger] inner[k] == x || dl.contains(inner[k])));
                assert(forall|m: int| 0 <= m < dl.len() ==> #[trigger] dl[m].order
                    <= t.last().order);
            }
        }
        assert(forall|k: int| 0 <= k < res.len() ==> (#[trigger] res[k] == x || t.contains(res[k])))
            by {
            assert(forall|m: int| 0 <= m < dl.len() ==> t.contains(#[trigger] dl[m])) by {
                assert(forall|m: int| 0 <= m < dl.len() ==> dl[m] == #[trigger] t[m]);
            }
            assert(t.contains(t.last()));
        }
    }
}

/// Sorting yields a batch sorted by ascending order.
pub proof fn lemma_isort_sorted(s: Seq<Player>)
    ensures
        isort(s).len() == s.len(),
        sorted_by_order(isort(s)),
    decreases s.len(),
{
    if s.len() > 0 {
        lemma_isort_sorted(s.drop_last());
        lemma_insert_sorted_props(isort(s.drop_last()), s.last());
    }
}

/// Sorting a batch already sorted by order leaves it exactly as it stands.
pub proof fn lemma_isort_fixed(s: Seq<Player>)
    requires
        sorted_by_order(s),
    ensures
        isort(s) == s,
    decreases s.len(),
{
    if s.len() > 0 {
        let dl = s.drop_last();
        assert(sorted_by_order(dl));
        lemma_isort_fixed(dl);
        if dl.len() == 0 || dl.last().order <= s.last().order {
            assert(isort(s) =~= s);
        } else {
            assert(dl.last() == s[s.len() - 2]);
            assert(false);
        }
    }
}

/// Inserting a hand adds it to its own order's subsequence, at the end,
/// and leaves every other order's subsequence as it stands.
pub proof fn lemma_insert_filter(t: Seq<Player>, x: Player, o: u8)
    ensures
        ofilter(insert_sorted(t, x), o) == if x.order == o {
            ofilter(t, o).push(x)
        } else {
            ofilter(t, o)
        },
    decreases t.len(),
{
    reveal(Seq::filter);
    let pred = |p: Player| p.order == o;
    if t.len() == 0 || t.last().order <= x.order {
        assert(insert_sorted(t, x) == t.push(x));
        assert(t.push(x).drop_last() =~= t);
        assert(t.push(x).last() == x);
    } else {
        let dl = t.drop_last();
        lemma_insert_filter(dl, x, o);
        let inner = insert_sorted(dl, x);
        assert(insert_sorted(t, x) == inner.push(t.last()));
        assert(inner.push(t.last()).drop_last() =~= inner);
        assert(inner.push(t.last()).last() == t.last());
        assert(t.drop_last() =~= dl);
        if x.order == o {
            assert(!pred(t.last()));
            assert(ofilter(insert_sorted(t, x), o) == ofilter(inner, o));
            assert(ofilter(t, o) == ofilter(dl, o));
        }
    }
}

/// The sort is stable: the hands of each order keep their relative order.
pub proof fn lemma_isort_stable(s: Seq<Player>, o: u8)
    ensures
        ofilter(isort(s), o) == ofilter(s, o),
    decreases s.len(),
{
    reveal(Seq::filter);
    if s.len() > 0 {
        let dl = s.drop_last();
        lemma_isort_stable(dl, o);
        lemma_insert_filter(isort(dl), s.last(), o);
        assert(s.drop_last() =~= dl);
        if s.last().order == o {
            assert(ofilter(s, o) == ofilter(dl, o).push(s.last()));
        } else {
            assert(ofilter(s, o) == ofilter(dl, o));
        }
    }
}

// ---------------------------------------------------------------------------
// The deck and its ranking pass
// ---------------------------------------------------------------------------
/// A deck of 52 cards in four suit rows, the six dealt hands, and the
/// ranked results of one pass.
pub struct Deck {
    /// The cards, four rows of thirteen.
    pub deck_array: Vec<Vec<Card>>,
    /// The six dealt hand strings.
    pub dealt_cards: Vec<String>,
    /// The classified hands of the current ranking pass.
    pub result: Vec<Player>,
    /// The number of suit rows, four.
    pub rows: usize,
    /// The number of faces in a row, thirteen.
    pub cols: usize,
}

/// The two decks agree on everything but the ranking results.
pub open spec fn same_but_result(a: Deck, b: Deck) -> bool {
    &&& a.deck_array == b.deck_array
    &&& a.dealt_cards == b.dealt_cards
    &&& a.rows == b.rows
    &&& a.cols == b.cols
}

/// Exchanges two hands of the batch.
fn vec_swap(v: &mut Vec<Player>, i: usize, j: usize)
    requires
        i < j,
        j < old(v).len(),
    ensures
        final(v)@ == swapped(old(v)@, i as int, j as int),
{
    let a = v.remove(i);
    let b = v.remove(j - 1);
    v.insert(i, b);
    v.insert(j, a);
    proof {
        assert(v@ =~= swapped(old(v)@, i as int, j as int));
    }
}

impl Deck {
    /// Exchanges the hands at `i` and `j` when the one in front holds the
    /// lower high card.
    pub fn compare_high_cards(&mut self, i: usize, j: usize)
        requires
            i < j,
            j < old(self).result@.len(),
            all_scored(old(self).result@),
            old(self).result@[i as int].order == old(self).result@[j as int].order,
        ensures
            same_but_result(*old(self), *final(self)),
            all_scored(final(self).result@),
            final(self).result@ == (if spec_high_card(toks(old(self).result@[i as int]))
                < spec_high_card(toks(old(self).result@[j as int])) {
                swapped(old(self).result@, i as int, j as int)
            } else {
                old(self).result@
            }),
    {
        let ghost s = self.result@;
        let hi = self.result[i].get_high_card();
        let hj = self.result[j].get_high_card();
        if hi < hj {
            vec_swap(&mut self.result, i, j);
            proof {
                assert(all_scored(self.result@)) by {
                    assert(forall|k: int|
                        0 <= k < s.len() ==> #[trigger] self.result@[k] == s[i as int]
                            || self.result@[k] == s[j as int] || self.result@[k] == s[k]);
                }
            }
        }
    }

    /// Exchanges the hands at `i` and `j` when the one in front holds the
    /// lower high card, or an equal high card and the lower kicker.
    pub fn compare_high_cards_and_kicker(&mut self, i: usize, j: usize)
        requires
            i < j,
            j < old(self).result@.len(),
            all_scored(old(self).result@),
            old(self).result@[i as int].order == old(self).result@[j as int].order,
        ensures
            same_but_result(*old(self), *final(self)),
            all_scored(final(self).result@),
            final(self).result@ == (if key2_less(
                spec_high_card(toks(old(self).result@[i as int])),
                spec_kicker(toks(old(self).result@[i as int])),
                spec_high_card(toks(old(self).result@[j as int])),
                spec_kicker(toks(old(self).result@[j as int])),
            ) {
                swapped(old(self).result@, i as int, j as int)
            } else {
                old(self).result@
            }),
    {
        let ghost s = self.result@;
        let hi = self.result[i].get_high_card();
        let hj = self.result[j].get_high_card();
        let swap = if hi < hj {
            true
        } else if hi == hj {
            let ki = self.result[i].get_kicker();
            let kj = self.result[j].get_kicker();
            ki < kj
        } else {
            false
        };
        if swap {
            vec_swap(&mut self.result, i, j);
            proof {
                assert(all_scored(self.result@)) by {
                    assert(forall|k: int|
                        0 <= k < s.len() ==> #[trigger] self.result@[k] == s[i as int]
                            || self.result@[k] == s[j as int] || self.result@[k] == s[k]);
                }
            }
        }
    }

    /// Exchanges two one-pair hands on the suit rank of their high cards,
    /// then on the suit characters themselves.
    pub fn compare_pairs(&mut self, i: usize, j: usize)
        requires
            i < j,
            j < old(self).result@.len(),
            all_scored(old(self).result@),
            old(self).result@[i as int].order == old(self).result@[j as int].order,
        ensures
            same_but_result(*old(self), *final(self)),
            all_scored(final(self).result@),
            final(self).result@ == (if (suit_rank(
                spec_high_card_suit(toks(old(self).result@[i as int])),
            ) < suit_rank(spec_high_card_suit(toks(old(self).result@[j as int]))) || (suit_rank(
                spec_high_card_suit(toks(old(self).result@[i as int])),
            ) == suit_rank(spec_high_card_suit(toks(old(self).result@[j as int]))) && (
            spec_high_card_suit(toks(old(self).result@[i as int])) as u32) < (spec_high_card_suit(
                toks(old(self).result@[j as int]),
            ) as u32))) {
                swapped(old(self).result@, i as int, j as int)
            } else {
                old(self).result@
            }),
    {
        let ghost s = self.result@;
        let si = self.result[i].get_high_card_suit();
        let sj = self.result[j].get_high_card_suit();
        let ri = Card::rank_suits(si);
        let rj = Card::rank_suits(sj);
        let swap = if ri < rj {
            true
        } else if ri == rj && (si as u32) < (sj as u32) {
            true
        } else {
            false
        };
        if swap {
            vec_swap(&mut self.result, i, j);
            proof {
                assert(all_scored(self.result@)) by {
                    assert(forall|k: int|
                        0 <= k < s.len() ==> #[trigger] self.result@[k] == s[i as int]
                            || self.result@[k] == s[j as int] || self.result@[k] == s[k]);
                }
            }
        }
    }

    /// Exchanges two two-pair hands on their pair ranks, highest first.
    /// The inherited second comparison reads each kicker's suit letter as a
    /// face symbol, which always values 0, so it never exchanges anything.
    pub fn compare_two_pairs(&mut self, i: usize, j: usize)
        requires
            i < j,
            j < old(self).result@.len(),
            all_scored(old(self).result@),
            old(self).result@[i as int].order == old(self).result@[j as int].order,
            old(self).result@[i as int].order == 8,
            pair_ranks(toks(old(self).result@[i as int])).len() == 2,
            pair_ranks(toks(old(self).result@[j as int])).len() == 2,
        ensures
            same_but_result(*old(self), *final(self)),
            all_scored(final(self).result@),
            final(self).result@ == (if key2_less(
                pair_ranks(toks(old(self).result@[i as int]))[0],
                pair_ranks(toks(old(self).result@[i as int]))[1],
                pair_ranks(toks(old(self).result@[j as int]))[0],
                pair_ranks(toks(old(self).result@[j as int]))[1],
            ) {
                swapped(old(self).result@, i as int, j as int)
            } else {
                old(self).result@
            }),
    {
        let ghost s = self.result@;
        let ranks_i = self.result[i].get_to_pair_ranks();
        let ranks_j = self.result[j].get_to_pair_ranks();
        let a0 = ranks_i[0];
        let a1 = ranks_i[1];
        let b0 = ranks_j[0];
        let b1 = ranks_j[1];
        if a0 < b0 || (a0 == b0 && a1 < b1) {
            vec_swap(&mut self.result, i, j);
            proof {
                assert(all_scored(self.result@)) by {
                    assert(forall|k: int|
                        0 <= k < s.len() ==> #[trigger] self.result@[k] == s[i as int]
                            || self.result@[k] == s[j as int] || self.result@[k] == s[k]);
                }
            }
        } else if a0 == b0 && a1 == b1 {
            let ksi = self.result[i].get_kicker_suit();
            let ksj = self.result[j].get_kicker_suit();
            proof {
                lemma_ks_valid(toks(s[i as int]), 0);
                lemma_ks_valid(toks(s[j as int]), 0);
            }
            let fsi = char_to_string(ksi);
            let fsj = char_to_string(ksj);
            let fi = Card::face_to_value(fsi.as_str());
            let fj = Card::face_to_value(fsj.as_str());
            proof {
                lemma_suitish_face_zero(ksi);
                lemma_suitish_face_zero(ksj);
            }
            // both suit letters value 0 as face symbols, so this branch
            // can never exchange anything
            if fi < fj {
                vec_swap(&mut self.result, i, j);
                proof {
                    assert(false);
                }
            }
        }
    }

    /// Exchanges two three-of-a-kind hands on the triple's rank, then on
    /// the kicker.
    pub fn compare_three_of_kind(&mut self, i: usize, j: usize)
        requires
            i < j,
            j < old(self).result@.len(),
            all_scored(old(self).result@),
            old(self).result@[i as int].order == old(self).result@[j as int].order,
        ensures
            same_but_result(*old(self), *final(self)),
            all_scored(final(self).result@),
            final(self).result@ == (if key2_less(
                spec_toak(toks(old(self).result@[i as int])),
                spec_kicker(toks(old(self).result@[i as int])),
                spec_toak(toks(old(self).result@[j as int])),
                spec_kicker(toks(old(self).result@[j as int])),
            ) {
                swapped(old(self).result@, i as int, j as int)
            } else {
                old(self).result@
            }),
    {
        let ghost s = self.result@;
        let ri = self.result[i].get_toak_rank();
        let rj = self.result[j].get_toak_rank();
        let swap = if ri < rj {
            true
        } else if ri == rj {
            let ki = self.result[i].get_kicker();
            let kj = self.result[j].get_kicker();
            ki < kj
        } else {
            false
        };
        if swap {
            vec_swap(&mut self.result, i, j);
            proof {
                assert(all_scored(self.result@)) by {
                    assert(forall|k: int|
                        0 <= k < s.len() ==> #[trigger] self.result@[k] == s[i as int]
                            || self.result@[k] == s[j as int] || self.result@[k] == s[k]);
                }
            }
        }
    }

    /// Exchanges two four-of-a-kind hands on the quad's rank, then on the
    /// kicker.
    pub fn compare_four_of_kind(&mut self, i: usize, j: usize)
        requires
            i < j,
            j < old(self).result@.len(),
            all_scored(old(self).result@),
            old(self).result@[i as int].order == old(self).result@[j as int].order,
        ensures
            same_but_result(*old(self), *final(self)),
            all_scored(final(self).result@),
            final(self).result@ == (if key2_less(
                spec_foak(toks(old(self).result@[i as int])),
                spec_kicker(toks(old(self).result@[i as int])),
                spec_foak(toks(old(self).result@[j as int])),
                spec_kicker(toks(old(self).result@[j as int])),
            ) {
                swapped(old(self).result@, i as int, j as int)
            } else {
                old(self).result@
            }),
    {
        let ghost s = self.result@;
        let ri = self.result[i].get_foak_rank();
        let rj = self.result[j].get_foak_rank();
        let swap = if ri < rj {
            true
        } else if ri == rj {
            let ki = self.result[i].get_kicker();
            let kj = self.result[j].get_kicker();
            ki < kj
        } else {
            false
        };
        if swap {
            vec_swap(&mut self.result, i, j);
            proof {
                assert(all_scored(self.result@)) by {
                    assert(forall|k: int|
                        0 <= k < s.len() ==> #[trigger] self.result@[k] == s[i as int]
                            || self.result@[k] == s[j as int] || self.result@[k] == s[k]);
                }
            }
        }
    }

    /// Exchanges two full-house hands on the triple's rank alone.
    pub fn compare_full_house(&mut self, i: usize, j: usize)
        requires
            i < j,
            j < old(self).result@.len(),
            all_scored(old(self).result@),
            old(self).result@[i as int].order == old(self).result@[j as int].order,
        ensures
            same_but_result(*old(self), *final(self)),
            all_scored(final(self).result@),
            final(self).result@ == (if spec_toak(toks(old(self).result@[i as int])) < spec_toak(
                toks(old(self).result@[j as int]),
            ) {
                swapped(old(self).result@, i as int, j as int)
            } else {
                old(self).result@
            }),
    {
        let ghost s = self.result@;
        let ri = self.result[i].get_toak_rank();
        let rj = self.result[j].get_toak_rank();
        if ri < rj {
            vec_swap(&mut self.result, i, j);
            proof {
                assert(all_scored(self.result@)) by {
                    assert(forall|k: int|
                        0 <= k < s.len() ==> #[trigger] self.result@[k] == s[i as int]
                            || self.result@[k] == s[j as int] || self.result@[k] == s[k]);
                }
            }
        }
    }
}

/// A settled kicker suit is one of the four suit characters or a space.
pub proof fn lemma_ks_valid(ts: Seq<Seq<char>>, i: int)
    requires
        valid_tokens(ts),
    ensures
        valid_suit(ks_from(ts, i)) || ks_from(ts, i) == ' ',
    decreases ts.len() - i,
{
    if 0 <= i < ts.len() {
        if count_rank(ts, crate::card::token_rank(ts[i]) as int) == 1 {
        } else {
            lemma_ks_valid(ts, i + 1);
        }
    }
}

impl Deck {
    /// Resolves the ties among equal-order hands: walks every index pair in
    /// ascending index order and exchanges a pair whenever the category's
    /// comparator puts the front hand behind, later comparisons seeing the
    /// effect of earlier exchanges. On a batch whose equal-order groups
    /// already stand settled, the pass changes nothing.
    pub fn tie_breakers(&mut self)
        requires
            all_scored(old(self).result@),
        ensures
            same_but_result(*old(self), *final(self)),
            all_scored(final(self).result@),
            final(self).result@ == tie_pass(old(self).result@),
            final(self).result@.len() == old(self).result@.len(),
            forall|k: int|
                0 <= k < old(self).result@.len() ==> (#[trigger] final(self).result@[k]).order
                    == old(self).result@[k].order,
            no_key_inversions(final(self).result@),
            forall|k: int|
                0 <= k < old(self).result@.len() && group_desc(
                    old(self).result@,
                    old(self).result@[k].order,
                ) ==> (#[trigger] final(self).result@[k]) == old(self).result@[k],
    {
        let ghost s0 = self.result@;
        let n = self.result.len();
        let mut i: usize = 0;
        while i < n
            invariant
                n == self.result@.len(),
                s0.len() == n,
                i <= n,
                all_scored(self.result@),
                same_but_result(*old(self), *self),
                s0 == old(self).result@,
                tb_pass(self.result@, i as int, i as int + 1) == tie_pass(s0),
                forall|k: int|
                    0 <= k < n ==> (#[trigger] self.result@[k]).order == s0[k].order,
                forall|p: int, q: int|
                    0 <= p < q < n && p < i ==> !((#[trigger] self.result@[p]).order == (
                    #[trigger] self.result@[q]).order && key_less(
                        self.result@[p],
                        self.result@[q],
                    )),
                forall|k: int|
                    0 <= k < n && group_desc(s0, s0[k].order) ==> (#[trigger] self.result@[k])
                        == s0[k],
            decreases n - i,
        {
            let mut j: usize = i + 1;
            while j < n
                invariant
                    n == self.result@.len(),
                    s0.len() == n,
                    i < n,
                    i + 1 <= j <= n,
                    all_scored(self.result@),
                    same_but_result(*old(self), *self),
                    s0 == old(self).result@,
                    tb_pass(self.result@, i as int, j as int) == tie_pass(s0),
                    forall|k: int|
                        0 <= k < n ==> (#[trigger] self.result@[k]).order == s0[k].order,
                    forall|p: int, q: int|
                        0 <= p < q < n && p < i ==> !((#[trigger] self.result@[p]).order == (
                        #[trigger] self.result@[q]).order && key_less(
                            self.result@[p],
                            self.result@[q],
                        )),
                    forall|q: int|
                        i < q < j ==> !(self.result@[i as int].order == (
                        #[trigger] self.result@[q]).order && key_less(
                            self.result@[i as int],
                            self.result@[q],
                        )),
                    forall|k: int|
                        0 <= k < n && group_desc(s0, s0[k].order) ==> (#[trigger] self.result@[k])
                            == s0[k],
                decreases n - j,
            {
                let ghost v0 = self.result@;
                let ghost ii = i as int;
                let ghost jj = j as int;
                let oi = self.result[i].order;
                let oj = self.result[j].order;
                if oi == oj {
                    if oi == 1 || oi == 2 || oi == 5 {
                        self.compare_high_cards(i, j);
                    } else if oi == 6 {
                        self.compare_high_cards(i, j);
                    } else if oi == 8 {
                        proof {
                            assert(scored(v0[ii]) && scored(v0[jj]));
                        }
                        self.compare_two_pairs(i, j);
                    } else if oi == 9 {
                        self.compare_pairs(i, j);
                    } else if oi == 10 {
                        self.compare_high_cards_and_kicker(i, j);
                    } else if oi == 7 {
                        self.compare_three_of_kind(i, j);
                    } else if oi == 3 {
                        self.compare_four_of_kind(i, j);
                    } else if oi == 4 {
                        self.compare_full_house(i, j);
                    } else {
                        proof {
                            assert(scored(v0[ii]));
                            assert(false);
                        }
                    }
                }
                proof {
                    let v1 = self.result@;
                    assert(v1 == tb_step(v0, ii, jj));
                    assert(tb_pass(v0, ii, jj) == tb_pass(v1, ii, jj + 1));
                    if swap_cond(v0, ii, jj) {
                        assert(v1 == swapped(v0, ii, jj));
                        lemma_key_less_asym(v0[ii], v0[jj]);
                        assert forall|q: int|
                            i < q < j + 1 implies !(v1[ii].order == (#[trigger] v1[q]).order
                            && key_less(v1[ii], v1[q])) by {
                            if q < jj {
                                if v0[ii].order == v0[q].order {
                                    lemma_key_less_trans(v0[ii], v0[jj], v0[q]);
                                }
                            }
                        }
                        assert forall|p: int, q: int|
                            0 <= p < q < n && p < i implies !((#[trigger] v1[p]).order == (
                        #[trigger] v1[q]).order && key_less(v1[p], v1[q])) by {
                            assert(v1[p] == v0[p]);
                            assert(v1[q] == v0[q] || v1[q] == v0[ii] || v1[q] == v0[jj]);
                        }
                        assert forall|k: int|
                            0 <= k < n && group_desc(s0, s0[k].order) implies (#[trigger] v1[k])
                            == s0[k] by {
                            if k == ii || k == jj {
                                assert(s0[jj].order == s0[ii].order);
                                assert(group_desc(s0, s0[ii].order) && group_desc(
                                    s0,
                                    s0[jj].order,
                                ));
                                assert(v0[ii] == s0[ii] && v0[jj] == s0[jj]);
                                assert(key_less(s0[ii], s0[jj]));
                                assert(false);
                            }
                        }
                    } else {
                        assert(v1 == v0);
                    }
                }
                j = j + 1;
            }
            proof {
                assert(tb_pass(self.result@, i as int, j as int) == tb_pass(
                    self.result@,
                    i as int + 1,
                    i as int + 2,
                ));
            }
            i = i + 1;
        }
    }

    /// Stable-sorts the batch by ascending strength order: hands of one
    /// order keep their relative position.
    pub fn sort_order(&mut self)
        ensures
            same_but_result(*old(self), *final(self)),
            final(self).result@ == isort(old(self).result@),
            sorted_by_order(final(self).result@),
            forall|o: u8| #[trigger] ofilter(final(self).result@, o) == ofilter(
                old(self).result@,
                o,
            ),
            all_scored(old(self).result@) ==> all_scored(final(self).result@),
    {
        proof {
            lemma_isort_sorted(old(self).result@);
            assert forall|o: u8| #[trigger] ofilter(isort(old(self).result@), o) == ofilter(
                old(self).result@,
                o,
            ) by {
                lemma_isort_stable(old(self).result@, o);
            }
        }
        let ghost s0 = self.result@;
        let n = self.result.len();
        if n == 0 {
            return ;
        }
        proof {
            assert(s0.take(1).drop_last() =~= Seq::<Player>::empty());
            assert(s0.take(1).last() == s0[0]);
            assert(isort(Seq::<Player>::empty()) == Seq::<Player>::empty());
            assert(insert_sorted(Seq::<Player>::empty(), s0[0]) == Seq::<Player>::empty().push(
                s0[0],
            ));
            assert(isort(s0.take(1)) == insert_sorted(isort(s0.take(1).drop_last()), s0[0]));
            assert(isort(s0.take(1)) =~= seq![s0[0]]);
            assert(self.result@ =~= isort(s0.take(1)) + s0.skip(1));
        }
        let mut i: usize = 1;
        while i < n
            invariant
                n == self.result@.len(),
                s0.len() == n,
                1 <= i <= n,
                same_but_result(*old(self), *self),
                s0 == old(self).result@,
                self.result@ == isort(s0.take(i as int)) + s0.skip(i as int),
                all_scored(s0) ==> all_scored(self.result@),
            decreases n - i,
        {
            let ghost t = isort(s0.take(i as int));
            let ghost x = s0[i as int];
            proof {
                lemma_isort_sorted(s0.take(i as int));
                assert(t.len() == i);
                assert(self.result@[i as int] == x);
            }
            let mut j: usize = i;
            while j > 0 && self.result[j - 1].order > self.result[j].order
                invariant
                    n == self.result@.len(),
                    s0.len() == n,
                    j <= i < n,
                    same_but_result(*old(self), *self),
                    s0 == old(self).result@,
                    t == isort(s0.take(i as int)),
                    x == s0[i as int],
                    t.len() == i,
                    sorted_by_order(t),
                    self.result@ == t.take(j as int) + seq![x] + t.skip(j as int) + s0.skip(
                        i as int + 1,
                    ),
                    forall|k: int| j <= k < i ==> (#[trigger] t[k]).order > x.order,
                    all_scored(s0) ==> all_scored(self.result@),
                decreases j,
            {
                let ghost v0 = self.result@;
                vec_swap(&mut self.result, j - 1, j);
                proof {
                    assert(v0[j as int] == x);
                    assert(v0[j as int - 1] == t[j as int - 1]);
                    assert(self.result@ =~= t.take(j as int - 1) + seq![x] + t.skip(j as int - 1)
                        + s0.skip(i as int + 1));
                    if all_scored(s0) {
                        assert(all_scored(self.result@)) by {
                            assert(forall|k: int|
                                0 <= k < n ==> #[trigger] self.result@[k] == v0[j as int - 1]
                                    || self.result@[k] == v0[j as int] || self.result@[k] == v0[k]);
                        }
                    }
                }
                j = j - 1;
            }
            proof {
                assert(forall|k: int| 0 <= k < j ==> (#[trigger] t[k]).order <= x.order) by {
                    if j > 0 {
                        assert(self.result@[j as int - 1] == t[j as int - 1]);
                        assert(t[j as int - 1].order <= x.order);
                    }
                }
                lemma_insert_at(t, x, j as int);
                assert(s0.take(i as int + 1).drop_last() =~= s0.take(i as int));
                assert(s0.take(i as int + 1).last() == x);
                assert(isort(s0.take(i as int + 1)) == insert_sorted(t, x));
                assert(self.result@ =~= isort(s0.take(i as int + 1)) + s0.skip(i as int + 1));
            }
            i = i + 1;
        }
        proof {
            assert(s0.take(n as int) =~= s0);
            assert(s0.skip(n as int) =~= Seq::<Player>::empty());
            assert(self.result@ =~= isort(s0));
        }
    }

    /// Ranks the whole batch: stable-sorts by category strength, then
    /// resolves every tie with the category comparators. A batch that is
    /// already ranked comes back exactly as it stands: ranking is
    /// idempotent. And when the two-pair hands of the batch all hold one
    /// and the same pair ranks, their relative input order survives the
    /// whole pass: only their degenerate kicker-suit comparison could
    /// have separated them, and it never exchanges anything.
    pub fn rank(&mut self)
        requires
            all_scored(old(self).result@),
        ensures
            same_but_result(*old(self), *final(self)),
            all_scored(final(self).result@),
            final(self).result@ == tie_pass(isort(old(self).result@)),
            ranked(final(self).result@),
            ranked(old(self).result@) ==> final(self).result@ == old(self).result@,
            two_pair_ties_equal(old(self).result@) ==> ofilter(final(self).result@, 8) == ofilter(
                old(self).result@,
                8,
            ),
    {
        let ghost s0 = self.result@;
        self.sort_order();
        let ghost s1 = self.result@;
        proof {
            lemma_isort_sorted(s0);
            if ranked(s0) {
                lemma_isort_fixed(s0);
            }
        }
        self.tie_breakers();
        proof {
            assert(sorted_by_order(self.result@)) by {
                assert(forall|k: int|
                    0 <= k < s1.len() ==> (#[trigger] self.result@[k]).order == s1[k].order);
            }
            if ranked(s0) {
                assert forall|k: int| 0 <= k < s0.len() implies group_desc(
                    s0,
                    (#[trigger] s0[k]).order,
                ) by {
                    assert forall|a: int, b: int|
                        0 <= a < b < s0.len() && (#[trigger] s0[a]).order == s0[k].order && (
                    #[trigger] s0[b]).order == s0[k].order implies !key_less(s0[a], s0[b]) by {
                        assert(!(s0[a].order == s0[b].order && key_less(s0[a], s0[b])));
                    }
                }
                assert(self.result@ =~= s0);
            }
            if two_pair_ties_equal(s0) {
                lemma_ties_equal_isort(s0);
                lemma_two_pair_ties_settled(s1);
                assert forall|k: int| 0 <= k < s1.len() && (#[trigger] s1[k]).order
                    == 8 implies self.result@[k] == s1[k] by {
                    assert(group_desc(s1, s1[k].order));
                }
                lemma_filter_agree(self.result@, s1, 8);
                lemma_isort_stable(s0, 8);
            }
        }
    }
}

// ---------------------------------------------------------------------------
// Building, shuffling and dealing the deck
// ---------------------------------------------------------------------------
/// The suit character of each deck row.
pub open spec fn suit_of(i: int) -> char {
    if i == 0 {
        'D'
    } else if i == 1 {
        'C'
    } else if i == 2 {
        'H'
    } else if i == 3 {
        'S'
    } else {
        ' '
    }
}

/// The face symbol of each deck column.
pub open spec fn face_lit(j: int) -> Seq<char> {
    if j == 0 {
        "A"@
    } else if j == 1 {
        "2"@
    } else if j == 2 {
        "3"@
    } else if j == 3 {
        "4"@
    } else if j == 4 {
        "5"@
    } else if j == 5 {
        "6"@
    } else if j == 6 {
        "7"@
    } else if j == 7 {
        "8"@
    } else if j == 8 {
        "9"@
    } else if j == 9 {
        "10"@
    } else if j == 10 {
        "J"@
    } else if j == 11 {
        "Q"@
    } else {
        "K"@
    }
}

/// The 52 cards of the deck in row-major order.
pub open spec fn flat4(d: Seq<Vec<Card>>) -> Seq<Card> {
    d[0]@ + d[1]@ + d[2]@ + d[3]@
}

/// One card's stretch of a dealt hand string: its text and a space.
pub open spec fn seg(c: Card) -> Seq<char> {
    card_str(c).push(' ')
}

/// The first `t` card stretches of hand `k`: the cards at the flat
/// positions `k`, `k + 6`, and so on, every sixth card.
pub open spec fn hand_line_pre(f: Seq<Card>, k: int, t: int) -> Seq<char>
    decreases t,
{
    if t <= 0 {
        Seq::empty()
    } else {
        hand_line_pre(f, k, t - 1) + seg(f[k + 6 * (t - 1)])
    }
}

/// The whole dealt hand string `k`: five cards, each followed by a space.
pub open spec fn hand_line(f: Seq<Card>, k: int) -> Seq<char> {
    hand_line_pre(f, k, 5)
}

/// Row-major position `idx` of the flattened deck reads row `idx / 13`,
/// column `idx % 13`.
pub proof fn lemma_flat4_index(d: Seq<Vec<Card>>, idx: int)
    requires
        d.len() == 4,
        forall|i: int| 0 <= i < 4 ==> (#[trigger] d[i])@.len() == 13,
        0 <= idx < 52,
    ensures
        flat4(d).len() == 52,
        flat4(d)[idx] == d[idx / 13]@[idx % 13],
{
    let a = d[0]@;
    let b = d[1]@;
    let c = d[2]@;
    let e = d[3]@;
    assert(flat4(d) == a + b + c + e);
    if idx < 13 {
        assert(idx / 13 == 0 && idx % 13 == idx);
        assert((a + b + c + e)[idx] == a[idx]);
    } else if idx < 26 {
        assert(idx / 13 == 1 && idx % 13 == idx - 13);
        assert((a + b + c + e)[idx] == b[idx - 13]);
    } else if idx < 39 {
        assert(idx / 13 == 2 && idx % 13 == idx - 26);
        assert((a + b + c + e)[idx] == c[idx - 26]);
    } else {
        assert(idx / 13 == 3 && idx % 13 == idx - 39);
        assert((a + b + c + e)[idx] == e[idx - 39]);
    }
}

/// The suit character of deck row `i`.
fn suit_ch(i: usize) -> (c: char)
    requires
        i < 4,
    ensures
        c == suit_of(i as int),
{
    if i == 0 {
        'D'
    } else if i == 1 {
        'C'
    } else if i == 2 {
        'H'
    } else {
        'S'
    }
}

/// The face symbol of deck column `j`.
fn face_str(j: usize) -> (s: String)
    requires
        j < 13,
    ensures
        s@ == face_lit(j as int),
{
    if j == 0 {
        String::from_str("A")
    } else if j == 1 {
        String::from_str("2")
    } else if j == 2 {
        String::from_str("3")
    } else if j == 3 {
        String::from_str("4")
    } else if j == 4 {
        String::from_str("5")
    } else if j == 5 {
        String::from_str("6")
    } else if j == 6 {
        String::from_str("7")
    } else if j == 7 {
        String::from_str("8")
    } else if j == 8 {
        String::from_str("9")
    } else if j == 9 {
        String::from_str("10")
    } else if j == 10 {
        String::from_str("J")
    } else if j == 11 {
        String::from_str("Q")
    } else {
        String::from_str("K")
    }
}

/// Relies on rand's `SliceRandom::shuffle`, a Fisher-Yates pass of swaps
/// over the slice: afterwards the slice holds a permutation of what it
/// held before, whatever order the generator chose.
#[verifier::external_body]
fn shuffle_cards(v: &mut Vec<Card>)
    ensures
        final(v)@.len() == old(v)@.len(),
        final(v)@.to_multiset() == old(v)@.to_multiset(),
{
    let mut rng = rand::thread_rng();
    rand::seq::SliceRandom::shuffle(v.as_mut_slice(), &mut rng);
}

/// The deck holds four rows of thirteen cards.
pub open spec fn deck_wf(d: Deck) -> bool {
    &&& d.deck_array@.len() == 4
    &&& forall|i: int| 0 <= i < 4 ==> (#[trigger] d.deck_array@[i])@.len() == 13
}

impl Deck {
    /// Makes the deck: four suit rows of thirteen faces, six empty dealt
    /// hands and no results. In test mode the cards stay blank.
    pub fn new(test: bool) -> (r: Self)
        ensures
            r.rows == 4,
            r.cols == 13,
            deck_wf(r),
            !test ==> forall|i: int, j: int|
                0 <= i < 4 && 0 <= j < 13 ==> (#[trigger] r.deck_array@[i]@[j]).suit == suit_of(i)
                    && r.deck_array@[i]@[j].face@ == face_lit(j),
            test ==> forall|i: int, j: int|
                0 <= i < 4 && 0 <= j < 13 ==> (#[trigger] r.deck_array@[i]@[j]).suit == ' '
                    && r.deck_array@[i]@[j].face@.len() == 0,
            r.dealt_cards@.len() == 6,
            forall|k: int| 0 <= k < 6 ==> (#[trigger] r.dealt_cards@[k])@.len() == 0,
            r.result@.len() == 0,
    {
        let mut deck_array: Vec<Vec<Card>> = Vec::new();
        let mut i: usize = 0;
        while i < 4
            invariant
                i <= 4,
                deck_array@.len() == i,
                forall|m: int| 0 <= m < i ==> (#[trigger] deck_array@[m])@.len() == 13,
                !test ==> forall|m: int, j: int|
                    0 <= m < i && 0 <= j < 13 ==> (#[trigger] deck_array@[m]@[j]).suit == suit_of(m)
                        && deck_array@[m]@[j].face@ == face_lit(j),
                test ==> forall|m: int, j: int|
                    0 <= m < i && 0 <= j < 13 ==> (#[trigger] deck_array@[m]@[j]).suit == ' '
                        && deck_array@[m]@[j].face@.len() == 0,
            decreases 4 - i,
        {
            let mut row: Vec<Card> = Vec::new();
            let mut j: usize = 0;
            while j < 13
                invariant
                    i < 4,
                    j <= 13,
                    row@.len() == j,
                    !test ==> forall|m: int|
                        0 <= m < j ==> (#[trigger] row@[m]).suit == suit_of(i as int)
                            && row@[m].face@ == face_lit(m),
                    test ==> forall|m: int|
                        0 <= m < j ==> (#[trigger] row@[m]).suit == ' ' && row@[m].face@.len()
                            == 0,
                decreases 13 - j,
            {
                if test {
                    row.push(Card::new(' ', String::new()));
                } else {
                    row.push(Card::new(suit_ch(i), face_str(j)));
                }
                j = j + 1;
            }
            deck_array.push(row);
            i = i + 1;
        }
        let mut dealt_cards: Vec<String> = Vec::new();
        let mut k: usize = 0;
        while k < 6
            invariant
                k <= 6,
                dealt_cards@.len() == k,
                forall|m: int| 0 <= m < k ==> (#[trigger] dealt_cards@[m])@.len() == 0,
            decreases 6 - k,
        {
            dealt_cards.push(String::new());
            k = k + 1;
        }
        Deck { deck_array, dealt_cards, result: Vec::new(), rows: 4, cols: 13 }
    }

    /// Makes an empty deck for a test run.
    pub fn new_test() -> (r: Self)
        ensures
            r.rows == 4,
            r.cols == 13,
            deck_wf(r),
            r.dealt_cards@.len() == 6,
            forall|k: int| 0 <= k < 6 ==> (#[trigger] r.dealt_cards@[k])@.len() == 0,
            r.result@.len() == 0,
    {
        Self::new(true)
    }

    /// Deals six hands of five cards each: hand `k` takes every sixth card
    /// of the first thirty, starting at flat position `k`.
    pub fn deal_hands(&mut self)
        requires
            deck_wf(*old(self)),
        ensures
            final(self).deck_array == old(self).deck_array,
            final(self).result == old(self).result,
            final(self).rows == old(self).rows,
            final(self).cols == old(self).cols,
            final(self).dealt_cards@.len() == 6,
            forall|k: int|
                0 <= k < 6 ==> (#[trigger] final(self).dealt_cards@[k])@ == hand_line(
                    flat4(old(self).deck_array@),
                    k,
                ),
    {
        let ghost f = flat4(self.deck_array@);
        let mut hands: Vec<String> = Vec::new();
        let mut k: usize = 0;
        while k < 6
            invariant
                deck_wf(*self),
                self.deck_array == old(self).deck_array,
                self.result == old(self).result,
                self.dealt_cards == old(self).dealt_cards,
                self.rows == old(self).rows,
                self.cols == old(self).cols,
                f == flat4(self.deck_array@),
                k <= 6,
                hands@.len() == k,
                forall|m: int| 0 <= m < k ==> (#[trigger] hands@[m])@ == hand_line(f, m),
            decreases 6 - k,
        {
            let mut s = String::new();
            let mut t: usize = 0;
            while t < 5
                invariant
                    deck_wf(*self),
                    f == flat4(self.deck_array@),
                    k < 6,
                    t <= 5,
                    s@ == hand_line_pre(f, k as int, t as int),
                decreases 5 - t,
            {
                let idx = k + 6 * t;
                proof {
                    lemma_flat4_index(self.deck_array@, idx as int);
                }
                let i = idx / 13;
                let j = idx % 13;
                let cs = self.deck_array[i][j].to_string();
                s.append(cs.as_str());
                s.append(" ");
                proof {
                    reveal_strlit(" ");
                    assert(" "@ =~= seq![' ']);
                    assert(cs@ + seq![' '] =~= seg(f[k + 6 * (t as int)]));
                    assert(s@ =~= hand_line_pre(f, k as int, t as int + 1));
                }
                t = t + 1;
            }
            hands.push(s);
            k = k + 1;
        }
        self.dealt_cards = hands;
    }

    /// Shuffles the deck: afterwards it holds the same 52 cards, in the
    /// order the random generator chose.
    pub fn shuffle(&mut self)
        requires
            deck_wf(*old(self)),
        ensures
            deck_wf(*final(self)),
            final(self).dealt_cards == old(self).dealt_cards,
            final(self).result == old(self).result,
            final(self).rows == old(self).rows,
            final(self).cols == old(self).cols,
            flat4(final(self).deck_array@).to_multiset() == flat4(
                old(self).deck_array@,
            ).to_multiset(),
    {
        let ghost f0 = flat4(self.deck_array@);
        let mut flat: Vec<Card> = Vec::new();
        let mut c: usize = 0;
        while c < 52
            invariant
                deck_wf(*self),
                self.deck_array == old(self).deck_array,
                self.dealt_cards == old(self).dealt_cards,
                self.result == old(self).result,
                self.rows == old(self).rows,
                self.cols == old(self).cols,
                f0 == flat4(self.deck_array@),
                c <= 52,
                flat@.len() == c,
                forall|m: int| 0 <= m < c ==> #[trigger] flat@[m] == f0[m],
            decreases 52 - c,
        {
            proof {
                lemma_flat4_index(self.deck_array@, c as int);
            }
            let i = c / 13;
            let j = c % 13;
            let card = self.deck_array[i][j].clone();
            flat.push(card);
            c = c + 1;
        }
        proof {
            lemma_flat4_index(self.deck_array@, 0);
            assert(flat@ =~= f0);
        }
        shuffle_cards(&mut flat);
        let mut new_rows: Vec<Vec<Card>> = Vec::new();
        let mut i: usize = 0;
        while i < 4
            invariant
                self.dealt_cards == old(self).dealt_cards,
                self.result == old(self).result,
                self.rows == old(self).rows,
                self.cols == old(self).cols,
                flat@.len() == 52,
                flat@.to_multiset() == f0.to_multiset(),
                f0 == flat4(old(self).deck_array@),
                i <= 4,
                new_rows@.len() == i,
                forall|m: int| 0 <= m < i ==> (#[trigger] new_rows@[m])@.len() == 13,
                forall|m: int, jj: int|
                    0 <= m < i && 0 <= jj < 13 ==> #[trigger] new_rows@[m]@[jj] == flat@[13 * m
                        + jj],
            decreases 4 - i,
        {
            let mut row: Vec<Card> = Vec::new();
            let mut j: usize = 0;
            while j < 13
                invariant
                    i < 4,
                    j <= 13,
                    flat@.len() == 52,
                    row@.len() == j,
                    forall|m: int| 0 <= m < j ==> #[trigger] row@[m] == flat@[13 * (i as int) + m],
                decreases 13 - j,
            {
                row.push(flat[i * 13 + j].clone());
                j = j + 1;
            }
            new_rows.push(row);
            i = i + 1;
        }
        self.deck_array = new_rows;
        proof {
            assert(flat4(self.deck_array@) =~= flat@) by {
                assert(flat4(self.deck_array@).len() == 52);
                assert forall|idx: int| 0 <= idx < 52 implies flat4(self.deck_array@)[idx]
                    == flat@[idx] by {
                    lemma_flat4_index(self.deck_array@, idx);
                    assert(self.deck_array@[idx / 13]@[idx % 13] == flat@[13 * (idx / 13) + idx
                        % 13]);
                    assert(13 * (idx / 13) + idx % 13 == idx);
                }
            }
        }
    }

    /// Classifies and scores every non-empty hand of the batch, in order.
    pub fn rank_hands(&mut self, hands: &Vec<String>)
        requires
            forall|k: int|
                0 <= k < hands@.len() ==> valid_hand_str((#[trigger] hands@[k])@) && split_sp(
                    hands@[k]@,
                ).len() <= 255,
        ensures
            same_but_result(*old(self), *final(self)),
            all_scored(final(self).result@),
            final(self).result@.len() == nonempty_hands(hands.deep_view()).len(),
            forall|m: int|
                0 <= m < final(self).result@.len() ==> scored(#[trigger] final(self).result@[m])
                    && toks(final(self).result@[m]) == split_sp(
                    nonempty_hands(hands.deep_view())[m],
                ),
    {
        let ghost hs = hands.deep_view();
        self.result = Vec::new();
        let n = hands.len();
        let mut k: usize = 0;
        while k < n
            invariant
                n == hs.len(),
                hands.deep_view() == hs,
                hands@.len() == n,
                forall|m: int|
                    0 <= m < hands@.len() ==> valid_hand_str((#[trigger] hands@[m])@) && split_sp(
                        hands@[m]@,
                    ).len() <= 255,
                k <= n,
                same_but_result(*old(self), *self),
                self.result@.len() == nonempty_hands(hs.take(k as int)).len(),
                forall|m: int|
                    0 <= m < self.result@.len() ==> scored(#[trigger] self.result@[m]) && toks(
                        self.result@[m],
                    ) == split_sp(nonempty_hands(hs.take(k as int))[m]),
            decreases n - k,
        {
            let hand = &hands[k];
            proof {
                reveal(Seq::filter);
                assert(hand@ == hs[k as int]);
                assert(hs.take(k + 1).drop_last() =~= hs.take(k as int));
                assert(hs.take(k + 1).last() == hs[k as int]);
            }
            if !hand.as_str().is_empty() {
                let mut player = Player::new(hand.clone());
                player.set_final_scores();
                self.result.push(player);
            }
            k = k + 1;
        }
        proof {
            assert(hs.take(n as int) =~= hs);
        }
    }

    /// Takes over the formatted test hands of a game state as the dealt
    /// hands.
    pub fn retrieve_deck(&mut self, mode: &GameMode)
        ensures
            final(self).deck_array == old(self).deck_array,
            final(self).result == old(self).result,
            final(self).rows == old(self).rows,
            final(self).cols == old(self).cols,
            final(self).dealt_cards@ == mode.test_array@,
    {
        let mut dealt: Vec<String> = Vec::new();
        let n = mode.test_array.len();
        let mut k: usize = 0;
        while k < n
            invariant
                n == mode.test_array@.len(),
                k <= n,
                dealt@.len() == k,
                forall|m: int| 0 <= m < k ==> #[trigger] dealt@[m] == mode.test_array@[m],
            decreases n - k,
        {
            dealt.push(mode.test_array[k].clone());
            k = k + 1;
        }
        self.dealt_cards = dealt;
        proof {
            assert(self.dealt_cards@ =~= mode.test_array@);
        }
    }
}

/// In a batch sorted by order — as every ranked batch is — a hand of a
/// stronger category stands strictly before every hand of a weaker one,
/// whatever the tie-break comparators say.
pub proof fn lemma_category_precedence(s: Seq<Player>, i: int, j: int)
    requires
        sorted_by_order(s),
        0 <= i < s.len(),
        0 <= j < s.len(),
        s[i].order < s[j].order,
    ensures
        i < j,
{
    if j < i {
        assert(s[j].order <= s[i].order);
    }
}

/// All two-pair hands of the batch hold one and the same pair ranks.
pub open spec fn two_pair_ties_equal(s: Seq<Player>) -> bool {
    forall|a: int, b: int|
        0 <= a < s.len() && 0 <= b < s.len() && (#[trigger] s[a].order) == 8 && (
        #[trigger] s[b].order) == 8 ==> pair_ranks(toks(s[a])) == pair_ranks(toks(s[b]))
}

/// When all two-pair hands of a batch hold one and the same pair ranks,
/// their tie-break comparator can only read the kicker's suit letter as a
/// face symbol, which values 0 on both sides: the group already stands
/// settled, and the tie-break pass leaves each such hand in place.
pub proof fn lemma_two_pair_ties_settled(s: Seq<Player>)
    requires
        two_pair_ties_equal(s),
    ensures
        group_desc(s, 8),
{
    assert forall|i: int, j: int|
        0 <= i < j < s.len() && (#[trigger] s[i].order) == 8 && (#[trigger] s[j].order)
            == 8 implies !key_less(s[i], s[j]) by {
        assert(pair_ranks(toks(s[i])) == pair_ranks(toks(s[j])));
    }
}

/// A hand of order `o` appears in its order's subsequence.
pub proof fn lemma_ofilter_member(s: Seq<Player>, o: u8, k: int)
    requires
        0 <= k < s.len(),
        s[k].order == o,
    ensures
        ofilter(s, o).contains(s[k]),
    decreases s.len(),
{
    reveal(Seq::filter);
    if k == s.len() - 1 {
        let f = ofilter(s, o);
        assert(f[f.len() - 1] == s[k]);
    } else {
        let dl = s.drop_last();
        assert(dl[k] == s[k]);
        lemma_ofilter_member(dl, o, k);
        let fd = ofilter(dl, o);
        let i = choose|i: int| 0 <= i < fd.len() && fd[i] == s[k];
        assert(ofilter(s, o)[i] == s[k]);
    }
}

/// Every hand of an order's subsequence comes from the batch and holds
/// that order.
pub proof fn lemma_ofilter_member_rev(s: Seq<Player>, o: u8, x: Player)
    requires
        ofilter(s, o).contains(x),
    ensures
        s.contains(x),
        x.order == o,
    decreases s.len(),
{
    reveal(Seq::filter);
    if s.len() == 0 {
        assert(ofilter(s, o).len() == 0);
    } else {
        let dl = s.drop_last();
        let f = ofilter(s, o);
        let fd = ofilter(dl, o);
        if s.last().order == o && x == s.last() {
            assert(s[s.len() - 1] == x);
        } else {
            assert(fd.contains(x)) by {
                let i = choose|i: int| 0 <= i < f.len() && f[i] == x;
                assert(i < fd.len());
                assert(fd[i] == x);
            }
            lemma_ofilter_member_rev(dl, o, x);
            let m = choose|m: int| 0 <= m < dl.len() && dl[m] == x;
            assert(s[m] == x);
        }
    }
}

/// Two batches with one and the same orders at every position, and one
/// and the same hands wherever the order is `o`, share the subsequence of
/// order `o`.
pub proof fn lemma_filter_agree(s: Seq<Player>, t: Seq<Player>, o: u8)
    requires
        s.len() == t.len(),
        forall|k: int| 0 <= k < s.len() ==> (#[trigger] s[k]).order == t[k].order,
        forall|k: int| 0 <= k < s.len() && s[k].order == o ==> #[trigger] s[k] == t[k],
    ensures
        ofilter(s, o) == ofilter(t, o),
    decreases s.len(),
{
    reveal(Seq::filter);
    if s.len() > 0 {
        let sd = s.drop_last();
        let td = t.drop_last();
        assert(forall|k: int| 0 <= k < sd.len() ==> (#[trigger] sd[k]) == s[k] && td[k] == t[k]);
        lemma_filter_agree(sd, td, o);
        assert(s.last() == s[s.len() - 1] && t.last() == t[s.len() - 1]);
    }
}

/// Sorting a batch whose two-pair hands all hold the same pair ranks
/// yields one whose two-pair hands still do: they are the same hands.
pub proof fn lemma_ties_equal_isort(s: Seq<Player>)
    requires
        two_pair_ties_equal(s),
    ensures
        two_pair_ties_equal(isort(s)),
{
    lemma_isort_stable(s, 8);
    let t = isort(s);
    assert forall|a: int, b: int|
        0 <= a < t.len() && 0 <= b < t.len() && (#[trigger] t[a].order) == 8 && (
    #[trigger] t[b].order) == 8 implies pair_ranks(toks(t[a])) == pair_ranks(toks(t[b])) by {
        lemma_ofilter_member(t, 8, a);
        lemma_ofilter_member(t, 8, b);
        lemma_ofilter_member_rev(s, 8, t[a]);
        lemma_ofilter_member_rev(s, 8, t[b]);
        let p = choose|p: int| 0 <= p < s.len() && s[p] == t[a];
        let q = choose|q: int| 0 <= q < s.len() && s[q] == t[b];
        assert(pair_ranks(toks(s[p])) == pair_ranks(toks(s[q])));
    }
}

/// The hands of the batch that hold any cards at all.
pub open spec fn nonempty_hands(hs: Seq<Seq<char>>) -> Seq<Seq<char>> {
    hs.filter(|h: Seq<char>| h.len() > 0)
}

/// A suit character, or a space, read as a face symbol values 0.
pub proof fn lemma_suitish_face_zero(c: char)
    requires
        valid_suit(c) || c == ' ',
    ensures
        face_value(seq![c]) == 0,
{
    assert(seq![c].len() == 1 && seq![c][0] == c);
    assert(!crate::card::is_digit_char(c));
    assert(!all_digits(seq![c])) by {
        assert(!crate::card::is_digit_char(seq![c][0]));
    }
}

} // verus!
