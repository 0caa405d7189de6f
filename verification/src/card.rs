use vstd::prelude::*;
use vstd::string::StringExecFns;

verus! {

/// A playing card: a suit character (`D`, `C`, `H` or `S`) and a face
/// symbol (`A`, `2` .. `10`, `J`, `Q` or `K`).
#[derive(Debug)]
pub struct Card {
    pub suit: char,
    pub face: String,
}

/// The numeric value of one digit character, or -1 for any other character.
pub open spec fn digit_val(c: char) -> int {
    if c == '0' {
        0
    } else if c == '1' {
        1
    } else if c == '2' {
        2
    } else if c == '3' {
        3
    } else if c == '4' {
        4
    } else if c == '5' {
        5
    } else if c == '6' {
        6
    } else if c == '7' {
        7
    } else if c == '8' {
        8
    } else if c == '9' {
        9
    } else {
        -1
    }
}

/// True of the ten decimal digit characters.
pub open spec fn is_digit_char(c: char) -> bool {
    digit_val(c) >= 0
}

/// The numeric value of a string of decimal digits, most significant first.
pub open spec fn digits_value(f: Seq<char>) -> int
    decreases f.len(),
{
    if f.len() == 0 {
        0
    } else {
        digits_value(f.drop_last()) * 10 + digit_val(f.last())
    }
}

/// True when every character of `f` is a decimal digit.
pub open spec fn all_digits(f: Seq<char>) -> bool {
    forall|k: int| 0 <= k < f.len() ==> is_digit_char(f[k])
}

/// The numeric value of a face symbol: `A` is 14, `K` is 13, `Q` is 12,
/// `J` is 11, a non-empty string of decimal digits is its numeric value
/// when that fits in a `u8`, and anything else counts 0.
pub open spec fn face_value(f: Seq<char>) -> u8 {
    if f.len() == 1 && f[0] == 'A' {
        14
    } else if f.len() == 1 && f[0] == 'K' {
        13
    } else if f.len() == 1 && f[0] == 'Q' {
        12
    } else if f.len() == 1 && f[0] == 'J' {
        11
    } else if f.len() > 0 && all_digits(f) && 0 <= digits_value(f) <= 255 {
        digits_value(f) as u8
    } else {
        0
    }
}

/// The tie-break rank of a suit: `D` is 1, `C` is 2, `H` is 3, `S` is 4,
/// anything else 0.
pub open spec fn suit_rank(c: char) -> u8 {
    if c == 'D' {
        1
    } else if c == 'C' {
        2
    } else if c == 'H' {
        3
    } else if c == 'S' {
        4
    } else {
        0
    }
}

/// The four suit characters of the deck.
pub open spec fn valid_suit(c: char) -> bool {
    c == 'D' || c == 'C' || c == 'H' || c == 'S'
}

/// The thirteen face symbols of the deck.
pub open spec fn valid_face(f: Seq<char>) -> bool {
    ||| (f.len() == 1 && (f[0] == 'A' || f[0] == 'K' || f[0] == 'Q' || f[0] == 'J'))
    ||| (f.len() == 1 && is_digit_char(f[0]) && 2 <= digit_val(f[0]) <= 9)
    ||| f == seq!['1', '0']
}

/// A card token as it stands in a hand string: a valid face symbol
/// followed by a valid suit character.
pub open spec fn valid_token(t: Seq<char>) -> bool {
    &&& t.len() >= 2
    &&& valid_face(t.drop_last())
    &&& valid_suit(t.last())
}

/// The face part of a card token.
pub open spec fn token_face(t: Seq<char>) -> Seq<char> {
    t.drop_last()
}

/// The numeric rank of a card token.
pub open spec fn token_rank(t: Seq<char>) -> u8 {
    face_value(t.drop_last())
}

/// The suit character of a card token.
pub open spec fn token_suit(t: Seq<char>) -> char {
    t.last()
}

/// The text of a card: its face symbol followed by its suit character.
pub open spec fn card_str(c: Card) -> Seq<char> {
    c.face@.push(c.suit)
}

/// The symbol `10` has the numeric value 10.
pub proof fn lemma_ten_value(f: Seq<char>)
    requires
        f == seq!['1', '0'],
    ensures
        digits_value(f) == 10,
{
    assert(digits_value(Seq::<char>::empty()) == 0);
    assert(f.drop_last() =~= seq!['1']);
    assert(seq!['1'].drop_last() =~= Seq::<char>::empty());
    assert(digits_value(seq!['1']) == 1);
}

/// A one-character digit string has that digit's value.
pub proof fn lemma_single_digit_value(f: Seq<char>)
    requires
        f.len() == 1,
    ensures
        digits_value(f) == digit_val(f[0]),
{
    assert(digits_value(Seq::<char>::empty()) == 0);
    assert(f.drop_last() =~= Seq::<char>::empty());
    assert(f.last() == f[0]);
}

/// A valid face symbol has a rank between 2 and 14.
pub proof fn lemma_valid_face_value(f: Seq<char>)
    requires
        valid_face(f),
    ensures
        2 <= face_value(f) <= 14,
{
    if f == seq!['1', '0'] {
        lemma_ten_value(f);
    }
    if f.len() == 1 {
        lemma_single_digit_value(f);
    }
}

/// Two valid face symbols with the same rank are the same symbol.
pub proof fn lemma_face_value_injective(f1: Seq<char>, f2: Seq<char>)
    requires
        valid_face(f1),
        valid_face(f2),
        face_value(f1) == face_value(f2),
    ensures
        f1 =~= f2,
{
    lemma_valid_face_value(f1);
    lemma_valid_face_value(f2);
    if f1 == seq!['1', '0'] {
        lemma_ten_value(f1);
    } else {
        lemma_single_digit_value(f1);
    }
    if f2 == seq!['1', '0'] {
        lemma_ten_value(f2);
    } else {
        lemma_single_digit_value(f2);
    }
}

/// Relies on `char::to_string`: the string of exactly that one character.
#[verifier::external_body]
pub(crate) fn char_to_string(c: char) -> (r: String)
    ensures
        r@ == seq![c],
{
    c.to_string()
}

impl Clone for Card {
    fn clone(&self) -> (r: Self)
        ensures
            r == *self,
    {
        Card { suit: self.suit, face: self.face.clone() }
    }
}

impl Card {
    /// Makes the card of the given suit character and face symbol.
    pub fn new(suit: char, face: String) -> (r: Self)
        ensures
            r.suit == suit,
            r.face == face,
    {
        Card { suit, face }
    }

    /// Writes the card as text, face symbol first (for instance `AS`
    /// for the ace of spades).
    pub fn to_string(&self) -> (r: String)
        ensures
            r@ == card_str(*self),
    {
        let mut s = self.face.clone();
        let suit_s = char_to_string(self.suit);
        s.append(suit_s.as_str());
        proof {
            assert(s@ =~= card_str(*self));
        }
        s
    }

    /// The numeric rank of a face symbol, for comparisons.
    pub fn face_to_value(face: &str) -> (r: u8)
        ensures
            r == face_value(face@),
    {
        let n = face.unicode_len();
        if n == 1 {
            let c = face.get_char(0);
            if c == 'A' {
                return 14;
            }
            if c == 'K' {
                return 13;
            }
            if c == 'Q' {
                return 12;
            }
            if c == 'J' {
                return 11;
            }
        }
        if n == 0 {
            return 0;
        }
        let mut i: usize = 0;
        // `acc` follows the value of the digits read so far, saturating at
        // 256 once that value can no longer fit in a `u8`.
        let mut acc: u32 = 0;
        while i < n
            invariant
                0 < n == face@.len(),
                i <= n,
                forall|k: int| 0 <= k < i ==> is_digit_char(face@[k]),
                acc <= 256,
                (digits_value(face@.take(i as int)) <= 255 && acc == digits_value(
                    face@.take(i as int),
                )) || (digits_value(face@.take(i as int)) > 255 && acc == 256),
                digits_value(face@.take(i as int)) >= 0,
                !(n == 1 && (face@[0] == 'A' || face@[0] == 'K' || face@[0] == 'Q' || face@[0]
                    == 'J')),
            decreases n - i,
        {
            let c = face.get_char(i);
            let cu = c as u32;
            if cu < 48 || cu > 57 {
                proof {
                    assert(!is_digit_char(c));
                }
                return 0;
            }
            proof {
                assert(c == '0' || c == '1' || c == '2' || c == '3' || c == '4' || c == '5' || c
                    == '6' || c == '7' || c == '8' || c == '9');
                assert(digit_val(c) == cu - 48);
                assert(face@.take(i + 1).drop_last() =~= face@.take(i as int));
                assert(face@.take(i + 1).last() == face@[i as int]);
            }
            let d = cu - 48;
            acc = acc * 10 + d;
            if acc > 255 {
                acc = 256;
            }
            i = i + 1;
        }
        proof {
            assert(face@.take(n as int) =~= face@);
        }
        if acc > 255 {
            0
        } else {
            acc as u8
        }
    }

    /// Tests whether a string is one of the thirteen face symbols.
    pub fn is_valid_face(f: &str) -> (b: bool)
        ensures
            b == valid_face(f@),
    {
        let n = f.unicode_len();
        if n == 1 {
            let c = f.get_char(0);
            if c == 'A' || c == 'K' || c == 'Q' || c == 'J' {
                return true;
            }
            let cu = c as u32;
            if cu >= 50 && cu <= 57 {
                proof {
                    assert(c == '2' || c == '3' || c == '4' || c == '5' || c == '6' || c == '7'
                        || c == '8' || c == '9');
                }
                return true;
            }
            proof {
                assert(!(is_digit_char(c) && 2 <= digit_val(c) <= 9));
            }
            return false;
        }
        if n == 2 {
            let c0 = f.get_char(0);
            let c1 = f.get_char(1);
            if c0 == '1' && c1 == '0' {
                proof {
                    assert(f@ =~= seq!['1', '0']);
                }
                return true;
            }
            proof {
                assert(seq!['1', '0'][0] == '1' && seq!['1', '0'][1] == '0');
                assert(!(f@ == seq!['1', '0']));
            }
            return false;
        }
        proof {
            assert(!(f@ == seq!['1', '0']));
        }
        false
    }

    /// Tests whether a character is one of the four suit characters.
    pub fn is_valid_suit(c: char) -> (b: bool)
        ensures
            b == valid_suit(c),
    {
        c == 'D' || c == 'C' || c == 'H' || c == 'S'
    }

    /// The tie-break rank of a suit character.
    pub fn rank_suits(suit: char) -> (r: u8)
        ensures
            r == suit_rank(suit),
    {
        if suit == 'D' {
            1
        } else if suit == 'C' {
            2
        } else if suit == 'H' {
            3
        } else if suit == 'S' {
            4
        } else {
            0
        }
    }
}

} // verus!
