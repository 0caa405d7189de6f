use vstd::prelude::*;
use vstd::pervasive::VecAdditionalExecFns;
use vstd::string::StrSliceExecFns;
use vstd::string::StringExecFns;
use crate::card::Card;
use crate::card::char_to_string;
use crate::card::lemma_valid_face_value;
use crate::card::suit_rank;
use crate::card::token_rank;
use crate::card::token_suit;
use crate::card::valid_suit;
use crate::card::valid_token;

verus! {

// ---------------------------------------------------------------------------
// Splitting a hand string into card tokens
// ---------------------------------------------------------------------------
/// The card tokens of `s` from position `i` on, with `cur` the token read so
/// far: maximal runs of non-space characters, split on spaces.
pub open spec fn split_acc(s: Seq<char>, i: int, cur: Seq<char>) -> Seq<Seq<char>>
    decreases s.len() - i,
{
    if i < 0 || i >= s.len() {
        if cur.len() > 0 {
            seq![cur]
        } else {
            Seq::empty()
        }
    } else if s[i] == ' ' {
        (if cur.len() > 0 {
            seq![cur]
        } else {
            Seq::empty()
        }) + split_acc(s, i + 1, Seq::empty())
    } else {
        split_acc(s, i + 1, cur.push(s[i]))
    }
}

/// The card tokens of a hand string: its maximal runs of non-space characters.
pub open spec fn split_sp(s: Seq<char>) -> Seq<Seq<char>> {
    split_acc(s, 0, Seq::empty())
}

/// Every token of the sequence is a valid card token.
pub open spec fn valid_tokens(ts: Seq<Seq<char>>) -> bool {
    forall|k: int| 0 <= k < ts.len() ==> valid_token(#[trigger] ts[k])
}

/// A hand string all of whose card tokens are valid.
pub open spec fn valid_hand_str(s: Seq<char>) -> bool {
    valid_tokens(split_sp(s))
}

/// Splits a hand string into its card tokens.
pub fn split_hand(s: &str) -> (r: Vec<String>)
    ensures
        r.deep_view() == split_sp(s@),
{
    let n = s.unicode_len();
    let mut words: Vec<String> = Vec::new();
    let mut cur = String::new();
    let mut i: usize = 0;
    while i < n
        invariant
            n == s@.len(),
            i <= n,
            split_sp(s@) == words.deep_view() + split_acc(s@, i as int, cur@),
        decreases n - i,
    {
        let c = s.get_char(i);
        if c == ' ' {
            let ghost old_words = words.deep_view();
            let ghost old_cur = cur@;
            proof {
                if old_cur.len() == 0 {
                    assert(old_cur =~= Seq::<char>::empty());
                    assert(Seq::<Seq<char>>::empty() + split_acc(s@, i + 1, Seq::empty())
                        =~= split_acc(s@, i + 1, Seq::empty()));
                }
            }
            if cur.unicode_len() > 0 {
                words.push(cur);
                cur = String::new();
                proof {
                    assert(words.deep_view() =~= old_words.push(old_cur));
                    assert(old_words + (seq![old_cur] + split_acc(s@, i + 1, Seq::empty()))
                        =~= words.deep_view() + split_acc(s@, i + 1, cur@));
                }
            }
        } else {
            let ghost prev_cur = cur@;
            let cs = char_to_string(c);
            cur.append(cs.as_str());
            proof {
                assert(cur@ =~= prev_cur.push(s@[i as int]));
            }
        }
        i = i + 1;
    }
    let ghost old_words = words.deep_view();
    let ghost old_cur = cur@;
    if cur.unicode_len() > 0 {
        words.push(cur);
        proof {
            assert(words.deep_view() =~= old_words.push(old_cur));
            assert(old_words + seq![old_cur] =~= words.deep_view());
        }
    }
    proof {
        assert(split_sp(s@) =~= words.deep_view());
    }
    words
}

/// Tests whether every card token of a hand string is valid and the hand
/// is small enough to tally.
pub fn is_valid_hand_string(s: &str) -> (b: bool)
    ensures
        b == (valid_hand_str(s@) && split_sp(s@).len() <= 255),
{
    let words = split_hand(s);
    let ghost ts = split_sp(s@);
    if words.len() > 255 {
        return false;
    }
    let n = words.len();
    let mut w: usize = 0;
    while w < n
        invariant
            ts == split_sp(s@),
            words.deep_view() == ts,
            n == ts.len(),
            n <= 255,
            w <= n,
            forall|m: int| 0 <= m < w ==> valid_token(#[trigger] ts[m]),
        decreases n - w,
    {
        let word = &words[w];
        proof {
            assert(word@ == ts[w as int]);
        }
        let wl = word.as_str().unicode_len();
        if wl < 2 {
            proof {
                assert(!valid_token(ts[w as int]));
                assert(!valid_tokens(ts)) by {
                    assert(0 <= (w as int) && (w as int) < ts.len() && !valid_token(ts[w as int]));
                }
            }
            return false;
        }
        let face = word.as_str().substring_char(0, wl - 1);
        let sc = word.as_str().get_char(wl - 1);
        proof {
            assert(face@ =~= ts[w as int].drop_last());
            assert(sc == ts[w as int].last());
        }
        if !Card::is_valid_face(face) {
            proof {
                assert(!valid_token(ts[w as int]));
                assert(!valid_tokens(ts)) by {
                    assert(0 <= (w as int) && (w as int) < ts.len() && !valid_token(ts[w as int]));
                }
            }
            return false;
        }
        if !Card::is_valid_suit(sc) {
            proof {
                assert(!valid_token(ts[w as int]));
                assert(!valid_tokens(ts)) by {
                    assert(0 <= (w as int) && (w as int) < ts.len() && !valid_token(ts[w as int]));
                }
            }
            return false;
        }
        w = w + 1;
    }
    true
}

// ---------------------------------------------------------------------------
// Rank and suit tallies over a sequence of card tokens
// ---------------------------------------------------------------------------
/// How many tokens of `ts` have numeric rank `r`.
pub open spec fn count_rank(ts: Seq<Seq<char>>, r: int) -> nat
    decreases ts.len(),
{
    if ts.len() == 0 {
        0
    } else {
        count_rank(ts.drop_last(), r) + if token_rank(ts.last()) as int == r {
            1nat
        } else {
            0nat
        }
    }
}

/// How many tokens of `ts` have suit character `c`.
pub open spec fn count_suit(ts: Seq<Seq<char>>, c: char) -> nat
    decreases ts.len(),
{
    if ts.len() == 0 {
        0
    } else {
        count_suit(ts.drop_last(), c) + if token_suit(ts.last()) == c {
            1nat
        } else {
            0nat
        }
    }
}

/// No rank appears more often than there are cards.
pub proof fn lemma_count_le_len(ts: Seq<Seq<char>>, r: int)
    ensures
        count_rank(ts, r) <= ts.len(),
    decreases ts.len(),
{
    if ts.len() > 0 {
        lemma_count_le_len(ts.drop_last(), r);
    }
}

/// No suit appears more often than there are cards.
pub proof fn lemma_count_suit_le_len(ts: Seq<Seq<char>>, c: char)
    ensures
        count_suit(ts, c) <= ts.len(),
    decreases ts.len(),
{
    if ts.len() > 0 {
        lemma_count_suit_le_len(ts.drop_last(), c);
    }
}

/// Some rank below 15 appears exactly `m` times.
pub open spec fn has_kind(ts: Seq<Seq<char>>, m: int) -> bool {
    exists|r: int| 0 <= r < 15 && #[trigger] count_rank(ts, r) == m
}

/// The ranks in `[i, 15)` that appear exactly twice, highest first.
pub open spec fn pair_desc_from(ts: Seq<Seq<char>>, i: int) -> Seq<u8>
    decreases 15 - i,
{
    if i >= 15 || i < 0 {
        Seq::empty()
    } else {
        pair_desc_from(ts, i + 1) + if count_rank(ts, i) == 2 {
            seq![i as u8]
        } else {
            Seq::empty()
        }
    }
}

/// The ranks of the hand's pairs, highest first.
pub open spec fn pair_ranks(ts: Seq<Seq<char>>) -> Seq<u8> {
    pair_desc_from(ts, 0)
}

/// How many distinct ranks appear exactly twice.
pub open spec fn num_pairs(ts: Seq<Seq<char>>) -> int {
    pair_ranks(ts).len() as int
}

/// There are at most `15 - i` pair ranks from `i` on.
pub proof fn lemma_pair_desc_len(ts: Seq<Seq<char>>, i: int)
    requires
        0 <= i <= 15,
    ensures
        pair_desc_from(ts, i).len() <= 15 - i,
    decreases 15 - i,
{
    if i < 15 {
        lemma_pair_desc_len(ts, i + 1);
    }
}

/// The distinct ranks in `[0, n)` that appear at all, in ascending order.
pub open spec fn distinct_upto(ts: Seq<Seq<char>>, n: int) -> Seq<u8>
    decreases n,
{
    if n <= 0 {
        Seq::empty()
    } else {
        distinct_upto(ts, n - 1) + if count_rank(ts, n - 1) > 0 {
            seq![(n - 1) as u8]
        } else {
            Seq::empty()
        }
    }
}

/// The distinct ranks of the hand, in ascending order.
pub open spec fn distinct_ranks(ts: Seq<Seq<char>>) -> Seq<u8> {
    distinct_upto(ts, 15)
}

// ---------------------------------------------------------------------------
// The category predicates
// ---------------------------------------------------------------------------
/// Some suit holds five cards.
pub open spec fn flush_spec(ts: Seq<Seq<char>>) -> bool {
    ||| count_suit(ts, 'D') == 5
    ||| count_suit(ts, 'C') == 5
    ||| count_suit(ts, 'H') == 5
    ||| count_suit(ts, 'S') == 5
}

/// Five ranks in a row, in ascending order.
pub open spec fn consecutive5(d: Seq<u8>) -> bool {
    &&& d.len() == 5
    &&& forall|k: int| 1 <= k < 5 ==> #[trigger] d[k] as int == d[k - 1] as int + 1
}

/// Five distinct ranks in a row, or the wheel `A 2 3 4 5` where the ace
/// plays low.
pub open spec fn straight_spec(ts: Seq<Seq<char>>) -> bool {
    ||| consecutive5(distinct_ranks(ts))
    ||| distinct_ranks(ts) == seq![2u8, 3u8, 4u8, 5u8, 14u8]
}

/// The ranks ten to ace are all present.
pub open spec fn royal_spec(ts: Seq<Seq<char>>) -> bool {
    &&& count_rank(ts, 10) > 0
    &&& count_rank(ts, 11) > 0
    &&& count_rank(ts, 12) > 0
    &&& count_rank(ts, 13) > 0
    &&& count_rank(ts, 14) > 0
}

pub open spec fn four_kind_spec(ts: Seq<Seq<char>>) -> bool {
    has_kind(ts, 4)
}

pub open spec fn three_kind_spec(ts: Seq<Seq<char>>) -> bool {
    has_kind(ts, 3)
}

pub open spec fn two_pair_spec(ts: Seq<Seq<char>>) -> bool {
    num_pairs(ts) == 2
}

pub open spec fn one_pair_spec(ts: Seq<Seq<char>>) -> bool {
    num_pairs(ts) == 1
}

pub open spec fn full_house_spec(ts: Seq<Seq<char>>) -> bool {
    three_kind_spec(ts) && one_pair_spec(ts)
}

pub open spec fn high_card_spec(ts: Seq<Seq<char>>) -> bool {
    !one_pair_spec(ts) && !three_kind_spec(ts) && !four_kind_spec(ts)
}

/// The strength order of the hand, 1 the best and 10 the worst, chosen by
/// strict precedence: the first category of the list that fits.
pub open spec fn hand_order(ts: Seq<Seq<char>>) -> u8 {
    if flush_spec(ts) && straight_spec(ts) && royal_spec(ts) {
        1
    } else if flush_spec(ts) && straight_spec(ts) {
        2
    } else if four_kind_spec(ts) {
        3
    } else if three_kind_spec(ts) && one_pair_spec(ts) {
        4
    } else if flush_spec(ts) && !straight_spec(ts) {
        5
    } else if straight_spec(ts) && !flush_spec(ts) {
        6
    } else if three_kind_spec(ts) {
        7
    } else if two_pair_spec(ts) {
        8
    } else if one_pair_spec(ts) {
        9
    } else {
        10
    }
}

/// The highest rank below `n` held by exactly one card, or 0 if none.
pub open spec fn high_upto(ts: Seq<Seq<char>>, n: int) -> u8
    decreases n,
{
    if n <= 0 {
        0
    } else if count_rank(ts, n - 1) == 1 {
        (n - 1) as u8
    } else {
        high_upto(ts, n - 1)
    }
}

/// The highest singleton rank of the hand, or 0 if none.
pub open spec fn spec_high_card(ts: Seq<Seq<char>>) -> u8 {
    high_upto(ts, 15)
}

/// The lowest rank in `[i, 15)` held by exactly `m` cards, or 0 if none.
pub open spec fn find_count_from(ts: Seq<Seq<char>>, i: int, m: int) -> u8
    decreases 15 - i,
{
    if i >= 15 || i < 0 {
        0
    } else if count_rank(ts, i) == m {
        i as u8
    } else {
        find_count_from(ts, i + 1, m)
    }
}

/// The lowest singleton rank of the hand (its kicker), or 0 if none.
pub open spec fn spec_kicker(ts: Seq<Seq<char>>) -> u8 {
    find_count_from(ts, 0, 1)
}

/// The rank held by exactly three cards, or 0 if none.
pub open spec fn spec_toak(ts: Seq<Seq<char>>) -> u8 {
    find_count_from(ts, 0, 3)
}

/// The rank held by exactly four cards, or 0 if none.
pub open spec fn spec_foak(ts: Seq<Seq<char>>) -> u8 {
    find_count_from(ts, 0, 4)
}

/// The suit of the first card, in hand order, whose rank is a singleton;
/// a space if there is none.
pub open spec fn ks_from(ts: Seq<Seq<char>>, i: int) -> char
    decreases ts.len() - i,
{
    if i < 0 || i >= ts.len() {
        ' '
    } else if count_rank(ts, token_rank(ts[i]) as int) == 1 {
        token_suit(ts[i])
    } else {
        ks_from(ts, i + 1)
    }
}

pub open spec fn spec_kicker_suit(ts: Seq<Seq<char>>) -> char {
    ks_from(ts, 0)
}

/// The suit of the highest singleton-rank card, scanning the hand from
/// position `i` with `br` and `bs` the best rank and suit so far.
pub open spec fn hcs_from(ts: Seq<Seq<char>>, i: int, br: u8, bs: char) -> char
    decreases ts.len() - i,
{
    if i < 0 || i >= ts.len() {
        bs
    } else if count_rank(ts, token_rank(ts[i]) as int) == 1 && token_rank(ts[i]) > br {
        hcs_from(ts, i + 1, token_rank(ts[i]), token_suit(ts[i]))
    } else {
        hcs_from(ts, i + 1, br, bs)
    }
}

/// The suit of the highest singleton-rank card, or a space if there is none.
pub open spec fn spec_high_card_suit(ts: Seq<Seq<char>>) -> char {
    hcs_from(ts, 0, 0, ' ')
}

// ---------------------------------------------------------------------------
// Counting facts, and the ten categories are mutually exclusive
// ---------------------------------------------------------------------------
/// The total of the rank tallies below `n`.
pub open spec fn sum_upto(ts: Seq<Seq<char>>, n: int) -> nat
    decreases n,
{
    if n <= 0 {
        0
    } else {
        sum_upto(ts, n - 1) + count_rank(ts, n - 1)
    }
}

/// Dropping the last card lowers the total by one when its rank lies
/// below `n`.
pub proof fn lemma_sum_drop(ts: Seq<Seq<char>>, n: int)
    requires
        ts.len() > 0,
    ensures
        sum_upto(ts, n) == sum_upto(ts.drop_last(), n) + (if (token_rank(ts.last()) as int) < n {
            1nat
        } else {
            0nat
        }),
    decreases n,
{
    if n > 0 {
        lemma_sum_drop(ts, n - 1);
    }
}

/// An empty hand tallies to nothing.
pub proof fn lemma_sum_empty(ts: Seq<Seq<char>>, n: int)
    requires
        ts.len() == 0,
    ensures
        sum_upto(ts, n) == 0,
    decreases n,
{
    if n > 0 {
        lemma_sum_empty(ts, n - 1);
    }
}

/// With every rank below 15, the tallies total the number of cards.
pub proof fn lemma_sum_len(ts: Seq<Seq<char>>)
    requires
        forall|i: int| 0 <= i < ts.len() ==> (token_rank(#[trigger] ts[i]) as int) < 15,
    ensures
        sum_upto(ts, 15) == ts.len(),
    decreases ts.len(),
{
    if ts.len() == 0 {
        lemma_sum_empty(ts, 15);
    }
    if ts.len() > 0 {
        let dl = ts.drop_last();
        assert(forall|i: int| 0 <= i < dl.len() ==> #[trigger] dl[i] == ts[i]);
        lemma_sum_len(dl);
        lemma_sum_drop(ts, 15);
        assert(ts.last() == ts[ts.len() - 1]);
    }
}

/// The tallies total at least the number of distinct ranks present.
pub proof fn lemma_sum_ge_distinct(ts: Seq<Seq<char>>, n: int)
    ensures
        sum_upto(ts, n) >= distinct_upto(ts, n).len(),
    decreases n,
{
    if n > 0 {
        lemma_sum_ge_distinct(ts, n - 1);
    }
}

/// A rank held twice or more puts the total above the distinct count by
/// that excess.
pub proof fn lemma_sum_slack(ts: Seq<Seq<char>>, n: int, r0: int)
    requires
        0 <= r0 < n,
        count_rank(ts, r0) >= 2,
    ensures
        sum_upto(ts, n) >= distinct_upto(ts, n).len() + count_rank(ts, r0) - 1,
    decreases n,
{
    if n - 1 == r0 {
        lemma_sum_ge_distinct(ts, n - 1);
    } else {
        lemma_sum_slack(ts, n - 1, r0);
    }
}

/// Some card of `ts` holds rank `r` when the tally says so.
pub proof fn lemma_count_witness(ts: Seq<Seq<char>>, r: int)
    requires
        count_rank(ts, r) >= 1,
    ensures
        exists|a: int| 0 <= a < ts.len() && (token_rank(#[trigger] ts[a]) as int) == r,
    decreases ts.len(),
{
    if token_rank(ts.last()) as int == r {
        assert(0 <= ts.len() - 1 < ts.len() && (token_rank(ts[ts.len() - 1]) as int) == r);
    } else {
        lemma_count_witness(ts.drop_last(), r);
        let a = choose|a: int|
            0 <= a < ts.drop_last().len() && (token_rank(#[trigger] ts.drop_last()[a]) as int)
                == r;
        assert(0 <= a < ts.len() && (token_rank(ts[a]) as int) == r);
    }
}

/// Two cards of `ts` hold rank `r` when the tally says so.
pub proof fn lemma_count_two_witnesses(ts: Seq<Seq<char>>, r: int)
    requires
        count_rank(ts, r) >= 2,
    ensures
        exists|a: int, b: int|
            0 <= a < b < ts.len() && (token_rank(#[trigger] ts[a]) as int) == r && (token_rank(
                #[trigger] ts[b],
            ) as int) == r,
    decreases ts.len(),
{
    let dl = ts.drop_last();
    if token_rank(ts.last()) as int == r {
        lemma_count_witness(dl, r);
        let a = choose|a: int| 0 <= a < dl.len() && (token_rank(#[trigger] dl[a]) as int) == r;
        assert(0 <= a < ts.len() - 1 && (token_rank(ts[a]) as int) == r && (token_rank(
            ts[ts.len() - 1],
        ) as int) == r);
    } else {
        lemma_count_two_witnesses(dl, r);
        let (a, b) = choose|a: int, b: int|
            0 <= a < b < dl.len() && (token_rank(#[trigger] dl[a]) as int) == r && (token_rank(
                #[trigger] dl[b],
            ) as int) == r;
        assert(0 <= a < b < ts.len() && (token_rank(ts[a]) as int) == r && (token_rank(
            ts[b],
        ) as int) == r);
    }
}

/// Any rank held at all by a valid hand lies between 2 and 14.
pub proof fn lemma_count_nonzero_range(ts: Seq<Seq<char>>, r: int)
    requires
        valid_tokens(ts),
        count_rank(ts, r) >= 1,
    ensures
        2 <= r <= 14,
{
    lemma_count_witness(ts, r);
    let a = choose|a: int| 0 <= a < ts.len() && (token_rank(#[trigger] ts[a]) as int) == r;
    lemma_valid_face_value(ts[a].drop_last());
}

/// Two distinct ranks cannot together be held more often than there are
/// cards.
pub proof fn lemma_two_counts(ts: Seq<Seq<char>>, r1: int, r2: int)
    requires
        r1 != r2,
    ensures
        count_rank(ts, r1) + count_rank(ts, r2) <= ts.len(),
    decreases ts.len(),
{
    if ts.len() > 0 {
        lemma_two_counts(ts.drop_last(), r1, r2);
    }
}

/// Nor can three distinct ranks.
pub proof fn lemma_three_counts(ts: Seq<Seq<char>>, r1: int, r2: int, r3: int)
    requires
        r1 != r2,
        r1 != r3,
        r2 != r3,
    ensures
        count_rank(ts, r1) + count_rank(ts, r2) + count_rank(ts, r3) <= ts.len(),
    decreases ts.len(),
{
    if ts.len() > 0 {
        lemma_three_counts(ts.drop_last(), r1, r2, r3);
    }
}

/// The listed pair ranks lie in `[i, 15)`, are each held exactly twice,
/// and come strictly descending.
pub proof fn lemma_pairs_props(ts: Seq<Seq<char>>, i: int)
    requires
        0 <= i,
    ensures
        forall|m: int|
            0 <= m < pair_desc_from(ts, i).len() ==> i <= (#[trigger] pair_desc_from(ts, i)[m]
                as int) < 15 && count_rank(ts, pair_desc_from(ts, i)[m] as int) == 2,
        forall|m1: int, m2: int|
            0 <= m1 < m2 < pair_desc_from(ts, i).len() ==> pair_desc_from(ts, i)[m1]
                > pair_desc_from(ts, i)[m2],
    decreases 15 - i,
{
    if i < 15 {
        lemma_pairs_props(ts, i + 1);
        let pd = pair_desc_from(ts, i);
        let pdn = pair_desc_from(ts, i + 1);
        assert forall|m: int|
            0 <= m < pd.len() implies i <= (#[trigger] pd[m] as int) < 15 && count_rank(
            ts,
            pd[m] as int,
        ) == 2 by {
            if m < pdn.len() {
                assert(pd[m] == pdn[m]);
            } else {
                assert(pd[m] == i as u8);
            }
        }
        assert forall|m1: int, m2: int| 0 <= m1 < m2 < pd.len() implies pd[m1] > pd[m2] by {
            if m2 < pdn.len() {
                assert(pd[m1] == pdn[m1] && pd[m2] == pdn[m2]);
            } else {
                assert(pd[m2] == i as u8);
                assert(pd[m1] == pdn[m1]);
                assert(i + 1 <= pdn[m1] as int);
            }
        }
    }
}

/// A rank held exactly twice appears among the listed pair ranks.
pub proof fn lemma_pair_listed(ts: Seq<Seq<char>>, r: int, i: int)
    requires
        0 <= i <= r < 15,
        count_rank(ts, r) == 2,
    ensures
        pair_desc_from(ts, i).len() >= 1,
    decreases 15 - i,
{
    if i < r {
        lemma_pair_listed(ts, r, i + 1);
    }
}

/// A hand with a straight holds no rank more than once.
pub proof fn lemma_straight_counts(ts: Seq<Seq<char>>)
    requires
        ts.len() == 5,
        valid_tokens(ts),
        straight_spec(ts),
    ensures
        forall|r: int| count_rank(ts, r) <= 1,
{
    assert(forall|i: int| 0 <= i < ts.len() ==> (token_rank(#[trigger] ts[i]) as int) < 15) by {
        assert forall|i: int| 0 <= i < ts.len() implies (token_rank(#[trigger] ts[i]) as int)
            < 15 by {
            lemma_valid_face_value(ts[i].drop_last());
        }
    }
    lemma_sum_len(ts);
    assert(distinct_ranks(ts).len() == 5);
    assert forall|r: int| count_rank(ts, r) <= 1 by {
        if count_rank(ts, r) >= 2 {
            lemma_count_nonzero_range(ts, r);
            lemma_sum_slack(ts, 15, r);
            assert(false);
        }
    }
}

/// A flush of five distinct cards holds no rank more than once: a repeated
/// rank in one suit would repeat a whole card.
pub proof fn lemma_flush_counts(ts: Seq<Seq<char>>)
    requires
        ts.len() == 5,
        valid_tokens(ts),
        forall|a: int, b: int| 0 <= a < b < 5 ==> ts[a] != ts[b],
        flush_spec(ts),
    ensures
        forall|r: int| count_rank(ts, r) <= 1,
{
    let s = if count_suit(ts, 'D') == 5 {
        'D'
    } else if count_suit(ts, 'C') == 5 {
        'C'
    } else if count_suit(ts, 'H') == 5 {
        'H'
    } else {
        'S'
    };
    assert(count_suit(ts, s) == 5);
    lemma_all_one_suit(ts, s);
    assert forall|r: int| count_rank(ts, r) <= 1 by {
        if count_rank(ts, r) >= 2 {
            lemma_count_two_witnesses(ts, r);
            let (a, b) = choose|a: int, b: int|
                0 <= a < b < ts.len() && (token_rank(#[trigger] ts[a]) as int) == r && (token_rank(
                    #[trigger] ts[b],
                ) as int) == r;
            crate::card::lemma_face_value_injective(ts[a].drop_last(), ts[b].drop_last());
            assert(token_suit(ts[a]) == s && token_suit(ts[b]) == s);
            assert(ts[a] =~= ts[b]);
            assert(false);
        }
    }
}

/// When one suit's tally covers the whole hand, every card holds it.
pub proof fn lemma_all_one_suit(ts: Seq<Seq<char>>, s: char)
    requires
        count_suit(ts, s) == ts.len(),
    ensures
        forall|i: int| 0 <= i < ts.len() ==> token_suit(#[trigger] ts[i]) == s,
    decreases ts.len(),
{
    if ts.len() > 0 {
        let dl = ts.drop_last();
        lemma_count_suit_le_len(dl, s);
        assert(token_suit(ts.last()) == s);
        lemma_all_one_suit(dl, s);
        assert forall|i: int| 0 <= i < ts.len() implies token_suit(#[trigger] ts[i]) == s by {
            if i < ts.len() - 1 {
                assert(ts[i] == dl[i]);
            } else {
                assert(ts[i] == ts.last());
            }
        }
    }
}

/// The ten categories, each with the precedence conditions that make it
/// disjoint from the stronger ones.
pub open spec fn cat_royal_flush(ts: Seq<Seq<char>>) -> bool {
    flush_spec(ts) && straight_spec(ts) && royal_spec(ts)
}

pub open spec fn cat_straight_flush(ts: Seq<Seq<char>>) -> bool {
    flush_spec(ts) && straight_spec(ts) && !royal_spec(ts)
}

pub open spec fn cat_four_kind(ts: Seq<Seq<char>>) -> bool {
    four_kind_spec(ts)
}

/// A rank held three times beside a different rank held twice.
pub open spec fn cat_full_house(ts: Seq<Seq<char>>) -> bool {
    three_kind_spec(ts) && has_kind(ts, 2)
}

pub open spec fn cat_flush(ts: Seq<Seq<char>>) -> bool {
    flush_spec(ts) && !cat_royal_flush(ts) && !cat_straight_flush(ts)
}

pub open spec fn cat_straight(ts: Seq<Seq<char>>) -> bool {
    straight_spec(ts) && !cat_royal_flush(ts) && !cat_straight_flush(ts)
}

pub open spec fn cat_three_kind(ts: Seq<Seq<char>>) -> bool {
    three_kind_spec(ts) && !has_kind(ts, 2)
}

pub open spec fn cat_two_pair(ts: Seq<Seq<char>>) -> bool {
    num_pairs(ts) == 2 && !three_kind_spec(ts) && !four_kind_spec(ts)
}

pub open spec fn cat_one_pair(ts: Seq<Seq<char>>) -> bool {
    num_pairs(ts) == 1 && !three_kind_spec(ts) && !four_kind_spec(ts)
}

pub open spec fn cat_high_card(ts: Seq<Seq<char>>) -> bool {
    &&& !cat_royal_flush(ts)
    &&& !cat_straight_flush(ts)
    &&& !cat_four_kind(ts)
    &&& !cat_full_house(ts)
    &&& !cat_flush(ts)
    &&& !cat_straight(ts)
    &&& !cat_three_kind(ts)
    &&& !cat_two_pair(ts)
    &&& !cat_one_pair(ts)
}

/// Of a valid five-card hand without repeated cards, exactly one of the
/// ten categories is true: each holds exactly when the strength order
/// takes its number, and the order takes exactly one number.
pub proof fn lemma_one_category(ts: Seq<Seq<char>>)
    requires
        ts.len() == 5,
        valid_tokens(ts),
        forall|a: int, b: int| 0 <= a < b < 5 ==> ts[a] != ts[b],
    ensures
        cat_royal_flush(ts) <==> hand_order(ts) == 1,
        cat_straight_flush(ts) <==> hand_order(ts) == 2,
        cat_four_kind(ts) <==> hand_order(ts) == 3,
        cat_full_house(ts) <==> hand_order(ts) == 4,
        cat_flush(ts) <==> hand_order(ts) == 5,
        cat_straight(ts) <==> hand_order(ts) == 6,
        cat_three_kind(ts) <==> hand_order(ts) == 7,
        cat_two_pair(ts) <==> hand_order(ts) == 8,
        cat_one_pair(ts) <==> hand_order(ts) == 9,
        cat_high_card(ts) <==> hand_order(ts) == 10,
{
    lemma_pairs_props(ts, 0);
    // a pair exists exactly when the pair list is non-empty
    assert(has_kind(ts, 2) <==> num_pairs(ts) >= 1) by {
        if has_kind(ts, 2) {
            let r = choose|r: int| 0 <= r < 15 && #[trigger] count_rank(ts, r) == 2;
            lemma_pair_listed(ts, r, 0);
        }
        if num_pairs(ts) >= 1 {
            let pr = pair_ranks(ts)[0];
            assert(count_rank(ts, pr as int) == 2);
        }
    }
    if straight_spec(ts) {
        lemma_straight_counts(ts);
        assert(!has_kind(ts, 2) && !has_kind(ts, 3) && !has_kind(ts, 4));
        assert(num_pairs(ts) == 0);
    }
    if flush_spec(ts) {
        lemma_flush_counts(ts);
        assert(!has_kind(ts, 2) && !has_kind(ts, 3) && !has_kind(ts, 4));
        assert(num_pairs(ts) == 0);
    }
    if four_kind_spec(ts) {
        let a = choose|r: int| 0 <= r < 15 && #[trigger] count_rank(ts, r) == 4;
        if three_kind_spec(ts) {
            let b = choose|r: int| 0 <= r < 15 && #[trigger] count_rank(ts, r) == 3;
            lemma_two_counts(ts, a, b);
            assert(false);
        }
        if has_kind(ts, 2) {
            let b = choose|r: int| 0 <= r < 15 && #[trigger] count_rank(ts, r) == 2;
            lemma_two_counts(ts, a, b);
            assert(false);
        }
        assert(num_pairs(ts) == 0);
    }
    if three_kind_spec(ts) && num_pairs(ts) >= 2 {
        let a = choose|r: int| 0 <= r < 15 && #[trigger] count_rank(ts, r) == 3;
        let p0 = pair_ranks(ts)[0];
        let p1 = pair_ranks(ts)[1];
        assert(count_rank(ts, p0 as int) == 2 && count_rank(ts, p1 as int) == 2 && p0 > p1);
        lemma_three_counts(ts, a, p0 as int, p1 as int);
        assert(false);
    }
}

/// Of a scored five-card hand without repeated cards, exactly one of the
/// ten categories is true, and the hand's order and name are that
/// category's.
pub proof fn lemma_player_one_category(p: Player)
    requires
        scored(p),
        toks(p).len() == 5,
        forall|a: int, b: int| 0 <= a < b < 5 ==> toks(p)[a] != toks(p)[b],
    ensures
        cat_royal_flush(toks(p)) <==> p.order == 1,
        cat_straight_flush(toks(p)) <==> p.order == 2,
        cat_four_kind(toks(p)) <==> p.order == 3,
        cat_full_house(toks(p)) <==> p.order == 4,
        cat_flush(toks(p)) <==> p.order == 5,
        cat_straight(toks(p)) <==> p.order == 6,
        cat_three_kind(toks(p)) <==> p.order == 7,
        cat_two_pair(toks(p)) <==> p.order == 8,
        cat_one_pair(toks(p)) <==> p.order == 9,
        cat_high_card(toks(p)) <==> p.order == 10,
        p.hand@ == order_name(p.order),
{
    lemma_one_category(toks(p));
}

/// The name of each strength order.
pub open spec fn order_name(o: u8) -> Seq<char> {
    if o == 1 {
        "Royal Straight Flush"@
    } else if o == 2 {
        "Straight Flush"@
    } else if o == 3 {
        "Four of a Kind"@
    } else if o == 4 {
        "Full House"@
    } else if o == 5 {
        "Flush"@
    } else if o == 6 {
        "Straight"@
    } else if o == 7 {
        "Three of a Kind"@
    } else if o == 8 {
        "Two Pair"@
    } else if o == 9 {
        "Pair"@
    } else {
        "High Card"@
    }
}

// ---------------------------------------------------------------------------
// The hand record
// ---------------------------------------------------------------------------
/// Which of the poker categories the hand shows.
#[derive(Debug)]
pub struct HandRank {
    pub is_royal_flush: bool,
    pub is_straight_flush: bool,
    pub is_four_kind: bool,
    pub is_full_house: bool,
    pub is_flush: bool,
    pub is_straight: bool,
    pub is_three_kind: bool,
    pub is_two_pair: bool,
    pub is_pair: bool,
    pub is_high_card: bool,
}

/// One five-card hand with its tallies and its classification.
#[derive(Debug)]
pub struct Player {
    /// The hand text; once the hand is scored, the category name.
    pub hand: String,
    /// The card tokens of the hand.
    pub word_list: Vec<String>,
    /// The strength order, 1 to 10, or 0 before scoring.
    pub order: u8,
    /// For each suit rank 1 to 4, how many cards hold that suit.
    pub suit_count: Vec<u8>,
    /// For each rank 0 to 14, how many cards hold that rank.
    pub rank_count: Vec<u8>,
    /// The category flags of the hand.
    pub hand_rank: HandRank,
}

/// The card tokens a player's tallies are about.
pub open spec fn toks(p: Player) -> Seq<Seq<char>> {
    p.word_list.deep_view()
}

/// The tallies stand exactly for the token sequence.
pub open spec fn wf_counts(p: Player) -> bool {
    &&& p.rank_count@.len() == 15
    &&& p.suit_count@.len() == 5
    &&& forall|r: int| 0 <= r < 15 ==> #[trigger] p.rank_count@[r] as nat == count_rank(
        toks(p),
        r,
    )
    &&& p.suit_count@[0] == 0
    &&& p.suit_count@[1] as nat == count_suit(toks(p), 'D')
    &&& p.suit_count@[2] as nat == count_suit(toks(p), 'C')
    &&& p.suit_count@[3] as nat == count_suit(toks(p), 'H')
    &&& p.suit_count@[4] as nat == count_suit(toks(p), 'S')
    &&& valid_tokens(toks(p))
    &&& toks(p).len() <= 255
}

/// The category flags stand exactly for the token sequence.
pub open spec fn flags_ok(p: Player) -> bool {
    let ts = toks(p);
    &&& p.hand_rank.is_royal_flush == (flush_spec(ts) && straight_spec(ts) && royal_spec(ts))
    &&& p.hand_rank.is_straight_flush == (flush_spec(ts) && straight_spec(ts) && !royal_spec(ts))
    &&& p.hand_rank.is_flush == (flush_spec(ts) && !straight_spec(ts))
    &&& p.hand_rank.is_straight == (straight_spec(ts) && !flush_spec(ts))
    &&& p.hand_rank.is_four_kind == four_kind_spec(ts)
    &&& p.hand_rank.is_three_kind == three_kind_spec(ts)
    &&& p.hand_rank.is_two_pair == two_pair_spec(ts)
    &&& p.hand_rank.is_pair == one_pair_spec(ts)
    &&& p.hand_rank.is_full_house == full_house_spec(ts)
    &&& p.hand_rank.is_high_card == high_card_spec(ts)
}

/// A fully tallied and evaluated player.
pub open spec fn wf_player(p: Player) -> bool {
    wf_counts(p) && flags_ok(p)
}

/// A player whose final score is set.
pub open spec fn scored(p: Player) -> bool {
    &&& wf_player(p)
    &&& p.order == hand_order(toks(p))
    &&& p.hand@ == order_name(hand_order(toks(p)))
}

/// A vector holding `n` zero bytes.
fn zero_vec(n: usize) -> (r: Vec<u8>)
    ensures
        r@.len() == n,
        forall|k: int| 0 <= k < n ==> r@[k] == 0,
{
    let mut v: Vec<u8> = Vec::new();
    let mut i: usize = 0;
    while i < n
        invariant
            i <= n,
            v@.len() == i,
            forall|k: int| 0 <= k < i ==> v@[k] == 0,
        decreases n - i,
    {
        v.push(0);
        i = i + 1;
    }
    v
}

impl Player {
    /// Makes a player from a hand string and tallies and evaluates it.
    pub fn new(hand: String) -> (p: Player)
        requires
            valid_hand_str(hand@),
            split_sp(hand@).len() <= 255,
        ensures
            p.hand == hand,
            p.order == 0,
            toks(p) == split_sp(hand@),
            wf_player(p),
    {
        let mut player = Player {
            hand,
            word_list: Vec::new(),
            order: 0,
            suit_count: Vec::new(),
            rank_count: Vec::new(),
            hand_rank: HandRank {
                is_royal_flush: false,
                is_straight_flush: false,
                is_four_kind: false,
                is_full_house: false,
                is_flush: false,
                is_straight: false,
                is_three_kind: false,
                is_two_pair: false,
                is_pair: false,
                is_high_card: false,
            },
        };
        player.convert_hand();
        player
    }

    /// Splits the hand string into its card tokens and rebuilds the rank
    /// and suit tallies, then evaluates the hand.
    pub fn convert_hand(&mut self)
        requires
            valid_hand_str(old(self).hand@),
            split_sp(old(self).hand@).len() <= 255,
        ensures
            final(self).hand == old(self).hand,
            final(self).order == old(self).order,
            toks(*final(self)) == split_sp(old(self).hand@),
            wf_player(*final(self)),
    {
        let words = split_hand(self.hand.as_str());
        let ghost ts = words.deep_view();
        let n = words.len();
        let mut rc = zero_vec(15);
        let mut sc = zero_vec(5);
        let mut w: usize = 0;
        while w < n
            invariant
                n == ts.len() <= 255,
                w <= n,
                words.deep_view() == ts,
                valid_tokens(ts),
                rc@.len() == 15,
                sc@.len() == 5,
                forall|r: int| 0 <= r < 15 ==> #[trigger] rc@[r] as nat == count_rank(
                    ts.take(w as int),
                    r,
                ),
                sc@[0] == 0,
                sc@[1] as nat == count_suit(ts.take(w as int), 'D'),
                sc@[2] as nat == count_suit(ts.take(w as int), 'C'),
                sc@[3] as nat == count_suit(ts.take(w as int), 'H'),
                sc@[4] as nat == count_suit(ts.take(w as int), 'S'),
            decreases n - w,
        {
            let word = &words[w];
            let ghost t = ts[w as int];
            proof {
                assert(word@ == t);
                assert(valid_token(t));
                assert(t.drop_last() =~= t.subrange(0, t.len() - 1));
                lemma_valid_face_value(t.drop_last());
            }
            let wl = word.as_str().unicode_len();
            let face = word.as_str().substring_char(0, wl - 1);
            let sc_char = word.as_str().get_char(wl - 1);
            let rv = Card::face_to_value(face);
            proof {
                assert(rv == token_rank(t));
                assert(2 <= rv <= 14);
                assert(sc_char == token_suit(t));
                assert(valid_suit(sc_char));
                assert(ts.take(w + 1).drop_last() =~= ts.take(w as int));
                assert(ts.take(w + 1).last() == t);
                lemma_count_le_len(ts.take(w as int), rv as int);
                assert(ts.take(w as int).len() <= 254);
            }
            let ri = rv as usize;
            let old_r = rc[ri];
            rc.set(ri, old_r + 1);
            let si = Card::rank_suits(sc_char) as usize;
            proof {
                assert(1 <= si <= 4);
                lemma_count_suit_le_len(ts.take(w as int), token_suit(t));
            }
            let old_s = sc[si];
            sc.set(si, old_s + 1);
            proof {
                assert(forall|r: int| 0 <= r < 15 && r != rv as int ==> count_rank(
                    ts.take(w + 1),
                    r,
                ) == count_rank(ts.take(w as int), r));
                assert(count_rank(ts.take(w + 1), rv as int) == count_rank(ts.take(w as int), rv as int)
                    + 1);
                assert(suit_rank('D') == 1 && suit_rank('C') == 2 && suit_rank('H') == 3
                    && suit_rank('S') == 4);
            }
            w = w + 1;
        }
        proof {
            assert(ts.take(n as int) =~= ts);
        }
        self.word_list = words;
        self.rank_count = rc;
        self.suit_count = sc;
        self.evaluate_hand();
    }

    /// True when some suit holds all five cards.
    pub fn is_flush(&self) -> (b: bool)
        requires
            wf_counts(*self),
        ensures
            b == flush_spec(toks(*self)),
    {
        self.suit_count[1] == 5 || self.suit_count[2] == 5 || self.suit_count[3] == 5
            || self.suit_count[4] == 5
    }

    /// True when the distinct ranks form five in a row, or the wheel.
    pub fn is_straight(&self) -> (b: bool)
        requires
            wf_counts(*self),
        ensures
            b == straight_spec(toks(*self)),
    {
        let ghost ts = toks(*self);
        let mut rankings: Vec<u8> = Vec::new();
        let mut r: usize = 0;
        while r < 15
            invariant
                wf_counts(*self),
                ts == toks(*self),
                r <= 15,
                rankings@ == distinct_upto(ts, r as int),
            decreases 15 - r,
        {
            if self.rank_count[r] > 0 {
                rankings.push(r as u8);
                proof {
                    assert(rankings@ =~= distinct_upto(ts, r + 1));
                }
            } else {
                proof {
                    assert(rankings@ =~= distinct_upto(ts, r + 1));
                }
            }
            r = r + 1;
        }
        let ghost d = distinct_ranks(ts);
        let ghost wheel = seq![2u8, 3u8, 4u8, 5u8, 14u8];
        proof {
            assert(rankings@ == d);
            assert(wheel.len() == 5 && wheel[0] == 2 && wheel[1] == 3 && wheel[2] == 4 && wheel[3]
                == 5 && wheel[4] == 14);
        }
        if rankings.len() != 5 {
            return false;
        }
        if rankings[0] == 2 && rankings[1] == 3 && rankings[2] == 4 && rankings[3] == 5
            && rankings[4] == 14 {
            proof {
                assert(d =~= wheel);
            }
            return true;
        }
        let ghost not_wheel = !(d == wheel);
        let mut k: usize = 1;
        while k < 5
            invariant
                1 <= k <= 5,
                ts == toks(*self),
                d == distinct_ranks(ts),
                rankings@ == d,
                d.len() == 5,
                not_wheel == !(d == wheel),
                not_wheel,
                wheel == seq![2u8, 3u8, 4u8, 5u8, 14u8],
                forall|m: int| 1 <= m < k ==> #[trigger] d[m] as int == d[m - 1] as int + 1,
            decreases 5 - k,
        {
            let prev = rankings[k - 1];
            let curv = rankings[k];
            if prev == 255 || curv != prev + 1 {
                proof {
                    assert(d[k as int] == curv && d[k as int - 1] == prev);
                    assert(!(d[k as int] as int == d[k as int - 1] as int + 1));
                    assert(!consecutive5(d)) by {
                        assert(1 <= (k as int) && (k as int) < 5 && !(d[k as int] as int == d[
                            k as int - 1] as int + 1));
                    }
                    assert(!(d == wheel));
                    assert(!straight_spec(ts));
                }
                return false;
            }
            k = k + 1;
        }
        true
    }

    /// True when the ranks ten to ace are all present.
    pub fn is_royal(&self) -> (b: bool)
        requires
            wf_counts(*self),
        ensures
            b == royal_spec(toks(*self)),
    {
        self.rank_count[10] > 0 && self.rank_count[11] > 0 && self.rank_count[12] > 0
            && self.rank_count[13] > 0 && self.rank_count[14] > 0
    }

    /// Reads the tallies and sets the flags for pairs, three of a kind,
    /// four of a kind, full house and high card.
    pub fn find_pairs(&mut self)
        requires
            wf_counts(*old(self)),
        ensures
            final(self).hand == old(self).hand,
            final(self).word_list == old(self).word_list,
            final(self).order == old(self).order,
            final(self).suit_count == old(self).suit_count,
            final(self).rank_count == old(self).rank_count,
            final(self).hand_rank.is_royal_flush == old(self).hand_rank.is_royal_flush,
            final(self).hand_rank.is_straight_flush == old(self).hand_rank.is_straight_flush,
            final(self).hand_rank.is_flush == old(self).hand_rank.is_flush,
            final(self).hand_rank.is_straight == old(self).hand_rank.is_straight,
            final(self).hand_rank.is_four_kind == four_kind_spec(toks(*old(self))),
            final(self).hand_rank.is_three_kind == three_kind_spec(toks(*old(self))),
            final(self).hand_rank.is_two_pair == two_pair_spec(toks(*old(self))),
            final(self).hand_rank.is_pair == one_pair_spec(toks(*old(self))),
            final(self).hand_rank.is_full_house == full_house_spec(toks(*old(self))),
            final(self).hand_rank.is_high_card == high_card_spec(toks(*old(self))),
    {
        let ghost ts = toks(*self);
        let mut pair_count: u8 = 0;
        let mut found3 = false;
        let mut found4 = false;
        let mut r: usize = 15;
        while r > 0
            invariant
                wf_counts(*self),
                ts == toks(*self),
                r <= 15,
                pair_count as int == pair_desc_from(ts, r as int).len(),
                pair_count <= 15,
                found3 == exists|rr: int| r <= rr < 15 && #[trigger] count_rank(ts, rr) == 3,
                found4 == exists|rr: int| r <= rr < 15 && #[trigger] count_rank(ts, rr) == 4,
            decreases r,
        {
            r = r - 1;
            proof {
                lemma_pair_desc_len(ts, r as int);
            }
            let c = self.rank_count[r];
            if c == 4 {
                found4 = true;
            }
            if c == 3 {
                found3 = true;
            }
            if c == 2 {
                pair_count = pair_count + 1;
            }
        }
        proof {
            assert(found3 == three_kind_spec(ts));
            assert(found4 == four_kind_spec(ts));
        }
        self.hand_rank.is_four_kind = found4;
        self.hand_rank.is_three_kind = found3;
        self.hand_rank.is_two_pair = pair_count == 2;
        self.hand_rank.is_pair = pair_count == 1;
        self.hand_rank.is_full_house = found3 && pair_count == 1;
        self.hand_rank.is_high_card = !(pair_count == 1) && !found3 && !found4;
    }

    /// Evaluates the tallied hand: sets every category flag.
    pub fn evaluate_hand(&mut self)
        requires
            wf_counts(*old(self)),
        ensures
            final(self).hand == old(self).hand,
            final(self).word_list == old(self).word_list,
            final(self).order == old(self).order,
            final(self).suit_count == old(self).suit_count,
            final(self).rank_count == old(self).rank_count,
            wf_player(*final(self)),
    {
        let fl = self.is_flush();
        let st = self.is_straight();
        let ro = self.is_royal();
        self.hand_rank.is_royal_flush = fl && st && ro;
        self.hand_rank.is_straight_flush = fl && st && !ro;
        self.hand_rank.is_flush = fl && !st;
        self.hand_rank.is_straight = st && !fl;
        self.find_pairs();
    }

    /// Reads the category flags, in strict precedence, and sets the hand's
    /// name and its strength order.
    pub fn set_final_scores(&mut self)
        requires
            wf_player(*old(self)),
        ensures
            final(self).word_list == old(self).word_list,
            final(self).suit_count == old(self).suit_count,
            final(self).rank_count == old(self).rank_count,
            final(self).hand_rank == old(self).hand_rank,
            scored(*final(self)),
    {
        if self.hand_rank.is_royal_flush {
            self.hand = String::from_str("Royal Straight Flush");
            self.order = 1;
        } else if self.hand_rank.is_straight_flush {
            self.hand = String::from_str("Straight Flush");
            self.order = 2;
        } else if self.hand_rank.is_four_kind {
            self.hand = String::from_str("Four of a Kind");
            self.order = 3;
        } else if self.hand_rank.is_full_house {
            self.hand = String::from_str("Full House");
            self.order = 4;
        } else if self.hand_rank.is_flush {
            self.hand = String::from_str("Flush");
            self.order = 5;
        } else if self.hand_rank.is_straight {
            self.hand = String::from_str("Straight");
            self.order = 6;
        } else if self.hand_rank.is_three_kind {
            self.hand = String::from_str("Three of a Kind");
            self.order = 7;
        } else if self.hand_rank.is_two_pair {
            self.hand = String::from_str("Two Pair");
            self.order = 8;
        } else if self.hand_rank.is_pair {
            self.hand = String::from_str("Pair");
            self.order = 9;
        } else {
            self.hand = String::from_str("High Card");
            self.order = 10;
        }
    }

    /// The highest singleton rank of the hand, or 0 if none.
    pub fn get_high_card(&self) -> (r: u8)
        requires
            wf_counts(*self),
        ensures
            r == spec_high_card(toks(*self)),
    {
        let ghost ts = toks(*self);
        let mut hc: u8 = 0;
        let mut r: usize = 0;
        while r < 15
            invariant
                wf_counts(*self),
                ts == toks(*self),
                r <= 15,
                hc == high_upto(ts, r as int),
            decreases 15 - r,
        {
            if self.rank_count[r] == 1 {
                hc = r as u8;
            }
            r = r + 1;
        }
        hc
    }

    /// The lowest singleton rank of the hand (its kicker), or 0 if none.
    pub fn get_kicker(&self) -> (r: u8)
        requires
            wf_counts(*self),
        ensures
            r == spec_kicker(toks(*self)),
    {
        self.find_rank_with_count(1)
    }

    /// The rank of the hand's three of a kind, or 0 if none.
    pub fn get_toak_rank(&self) -> (r: u8)
        requires
            wf_counts(*self),
        ensures
            r == spec_toak(toks(*self)),
    {
        self.find_rank_with_count(3)
    }

    /// The rank of the hand's four of a kind, or 0 if none.
    pub fn get_foak_rank(&self) -> (r: u8)
        requires
            wf_counts(*self),
        ensures
            r == spec_foak(toks(*self)),
    {
        self.find_rank_with_count(4)
    }

    /// The lowest rank held by exactly `m` cards, or 0 if none.
    fn find_rank_with_count(&self, m: u8) -> (r: u8)
        requires
            wf_counts(*self),
        ensures
            r == find_count_from(toks(*self), 0, m as int),
    {
        let ghost ts = toks(*self);
        let mut r: usize = 0;
        while r < 15
            invariant
                wf_counts(*self),
                ts == toks(*self),
                r <= 15,
                find_count_from(ts, 0, m as int) == find_count_from(ts, r as int, m as int),
            decreases 15 - r,
        {
            if self.rank_count[r] == m {
                return r as u8;
            }
            r = r + 1;
        }
        0
    }

    /// The ranks of the hand's pairs, highest first.
    pub fn get_to_pair_ranks(&self) -> (r: Vec<u8>)
        requires
            wf_counts(*self),
        ensures
            r@ == pair_ranks(toks(*self)),
    {
        let ghost ts = toks(*self);
        let mut pairs: Vec<u8> = Vec::new();
        let mut r: usize = 15;
        while r > 0
            invariant
                wf_counts(*self),
                ts == toks(*self),
                r <= 15,
                pairs@ == pair_desc_from(ts, r as int),
            decreases r,
        {
            r = r - 1;
            if self.rank_count[r] == 2 {
                pairs.push(r as u8);
                proof {
                    assert(pairs@ =~= pair_desc_from(ts, r as int));
                }
            } else {
                proof {
                    assert(pairs@ =~= pair_desc_from(ts, r as int));
                }
            }
        }
        pairs
    }

    /// The suit of the first card, in hand order, whose rank is a
    /// singleton; a space if there is none.
    pub fn get_kicker_suit(&self) -> (r: char)
        requires
            wf_counts(*self),
        ensures
            r == spec_kicker_suit(toks(*self)),
    {
        let ghost ts = toks(*self);
        let n = self.word_list.len();
        let mut w: usize = 0;
        while w < n
            invariant
                wf_counts(*self),
                ts == toks(*self),
                n == ts.len(),
                w <= n,
                spec_kicker_suit(ts) == ks_from(ts, w as int),
            decreases n - w,
        {
            let word = &self.word_list[w];
            let ghost t = ts[w as int];
            proof {
                assert(word@ == t);
                assert(valid_token(t));
                assert(t.drop_last() =~= t.subrange(0, t.len() - 1));
                lemma_valid_face_value(t.drop_last());
            }
            let wl = word.as_str().unicode_len();
            let face = word.as_str().substring_char(0, wl - 1);
            let rv = Card::face_to_value(face);
            if self.rank_count[rv as usize] == 1 {
                let sc = word.as_str().get_char(wl - 1);
                proof {
                    assert(sc == token_suit(t));
                }
                return sc;
            }
            w = w + 1;
        }
        ' '
    }

    /// The suit of the highest singleton-rank card, or a space if none.
    pub fn get_high_card_suit(&self) -> (r: char)
        requires
            wf_counts(*self),
        ensures
            r == spec_high_card_suit(toks(*self)),
    {
        let ghost ts = toks(*self);
        let n = self.word_list.len();
        let mut high_card: u8 = 0;
        let mut high_suit: char = ' ';
        let mut w: usize = 0;
        while w < n
            invariant
                wf_counts(*self),
                ts == toks(*self),
                n == ts.len(),
                w <= n,
                spec_high_card_suit(ts) == hcs_from(ts, w as int, high_card, high_suit),
            decreases n - w,
        {
            let word = &self.word_list[w];
            let ghost t = ts[w as int];
            proof {
                assert(word@ == t);
                assert(valid_token(t));
                assert(t.drop_last() =~= t.subrange(0, t.len() - 1));
                lemma_valid_face_value(t.drop_last());
            }
            let wl = word.as_str().unicode_len();
            let face = word.as_str().substring_char(0, wl - 1);
            let rv = Card::face_to_value(face);
            if self.rank_count[rv as usize] == 1 && rv > high_card {
                high_card = rv;
                high_suit = word.as_str().get_char(wl - 1);
                proof {
                    assert(high_suit == token_suit(t));
                }
            }
            w = w + 1;
        }
        high_suit
    }

    /// Classifies a hand string: splits it into its card tokens, refuses
    /// any count of cards other than five, and otherwise tallies, evaluates
    /// and scores the hand.
    pub fn classify(hand: String) -> (r: Result<Player, InvalidHandError>)
        requires
            valid_hand_str(hand@),
        ensures
            r is Ok <==> split_sp(hand@).len() == 5,
            r matches Ok(p) ==> scored(p) && toks(p) == split_sp(hand@),
            r matches Err(e) ==> e == InvalidHandError,
    {
        let words = split_hand(hand.as_str());
        if words.len() != 5 {
            return Err(InvalidHandError);
        }
        let mut p = Player::new(hand);
        p.set_final_scores();
        Ok(p)
    }
}

/// The error of a classification attempt on a hand that does not hold
/// exactly five cards.
#[derive(Debug, PartialEq, Eq, Structural)]
pub struct InvalidHandError;

} // verus!
