use vstd::arithmetic::power2::{
    lemma2_to64, lemma_pow2_strictly_increases, lemma_pow2_unfold, pow2,
};
use vstd::prelude::*;

verus! {

/// Why a conversion was refused.
#[derive(Clone, Copy, Debug, PartialEq, Eq)]
pub enum ConversionError {
    /// A character other than '0' or '1' was met, at the given position
    /// counted from the last (least-significant) character.
    InvalidCharacter { character: char, position: usize },
    /// A '1' bit stands at position 32 or beyond, so the value would
    /// exceed `u32::MAX`.
    Overflow,
}

/// A binary digit.
pub open spec fn is_bit(c: char) -> bool {
    c == '0' || c == '1'
}

/// The numeric contribution of one character: 1 for '1', 0 otherwise.
pub open spec fn bit_val(c: char) -> nat {
    if c == '1' {
        1nat
    } else {
        0nat
    }
}

/// Every character of the string is a binary digit.
pub open spec fn all_bits(s: Seq<char>) -> bool {
    forall|i: int| 0 <= i < s.len() ==> is_bit(#[trigger] s[i])
}

/// The unsigned value of a bit string whose last character is the
/// least-significant bit.
pub open spec fn bits_value(s: Seq<char>) -> nat
    decreases s.len(),
{
    if s.len() == 0 {
        0
    } else {
        2 * bits_value(s.drop_last()) + bit_val(s.last())
    }
}

/// The character at position `p`, counted from the least-significant
/// (last) end of the string.
pub open spec fn char_at_pos(s: Seq<char>, p: int) -> char {
    s[s.len() - 1 - p]
}

/// The scan stops at position `p`: either the character there is not a
/// binary digit, or it is a '1' whose weight 2^p no longer fits in a `u32`.
pub open spec fn stops_at(s: Seq<char>, p: int) -> bool {
    !is_bit(char_at_pos(s, p)) || (p >= 32 && char_at_pos(s, p) == '1')
}

/// No position below `p` stops the scan.
pub open spec fn clean_before(s: Seq<char>, p: int) -> bool {
    forall|q: int| 0 <= q < p ==> !(#[trigger] stops_at(s, q))
}

/// Everything `convert` promises of its result on input `s`.
///
/// The scan runs from position 0 (the last character) upward.  Success
/// means no position stops the scan and the result is the numeric value;
/// each error names the first position that stopped it.
pub open spec fn convert_post(s: Seq<char>, r: Result<u32, ConversionError>) -> bool {
    match r {
        Ok(v) => clean_before(s, s.len() as int) && v as nat == bits_value(s),
        Err(ConversionError::InvalidCharacter { character, position }) => {
            &&& (position as int) < s.len()
            &&& clean_before(s, position as int)
            &&& !is_bit(char_at_pos(s, position as int))
            &&& character == char_at_pos(s, position as int)
        },
        Err(ConversionError::Overflow) => {
            exists|p: int|
                32 <= p < s.len() && #[trigger] clean_before(s, p) && char_at_pos(s, p) == '1'
        },
    }
}

/// A bit string of length n has a value below 2^n.
pub proof fn lemma_bits_value_bound(s: Seq<char>)
    ensures
        bits_value(s) < pow2(s.len()),
    decreases s.len(),
{
    if s.len() == 0 {
        lemma2_to64();
    } else {
        lemma_bits_value_bound(s.drop_last());
        lemma_pow2_unfold(s.len());
    }
}

/// Putting one character in front of a bit string adds its weight at the
/// highest position.
proof fn lemma_bits_value_prepend(c: char, t: Seq<char>)
    ensures
        c == '1' ==> bits_value(seq![c] + t) == pow2(t.len()) + bits_value(t),
        c != '1' ==> bits_value(seq![c] + t) == bits_value(t),
    decreases t.len(),
{
    let u = seq![c] + t;
    if t.len() == 0 {
        assert(u =~= seq![c]);
        assert(u.drop_last() =~= Seq::<char>::empty());
        lemma2_to64();
    } else {
        assert(u.drop_last() =~= seq![c] + t.drop_last());
        assert(u.last() == t.last());
        lemma_bits_value_prepend(c, t.drop_last());
        lemma_pow2_unfold(t.len());
        assert(bits_value(u) == 2 * bits_value(u.drop_last()) + bit_val(u.last()));
        assert(bits_value(t) == 2 * bits_value(t.drop_last()) + bit_val(t.last()));
        if c == '1' {
            assert(bits_value(u) == pow2(t.len()) + bits_value(t));
        } else {
            assert(bits_value(u) == bits_value(t));
        }
    }
}

/// Parses a string of binary digits into an unsigned 32-bit value.
///
/// The last character is the least-significant bit (position 0); the scan
/// runs from there toward the front.  The first position holding a
/// character other than '0' or '1' is reported as `InvalidCharacter`; a
/// '1' at position 32 or beyond is reported as `Overflow`.  The empty
/// string converts to 0.
pub fn convert(bits: &str) -> (r: Result<u32, ConversionError>)
    ensures
        convert_post(bits@, r),
{
    let ghost s = bits@;
    let n: usize = bits.unicode_len();
    let mut acc: u32 = 0;
    let mut pw: u32 = 1;
    let mut p: usize = 0;
    proof {
        lemma2_to64();
    }
    while p < n
        invariant
            n == s.len(),
            s == bits@,
            p <= n,
            clean_before(s, p as int),
            acc as nat == bits_value(s.subrange(n - p, n as int)),
            p < 32 ==> pw as nat == pow2(p as nat),
        decreases n - p,
    {
        let c = bits.get_char(n - 1 - p);
        if !(c == '0' || c == '1') {
            return Err(ConversionError::InvalidCharacter { character: c, position: p });
        }
        if c == '1' && p >= 32 {
            assert(clean_before(s, p as int) && char_at_pos(s, p as int) == '1');
            return Err(ConversionError::Overflow);
        }
        let ghost t = s.subrange(n - p, n as int);
        proof {
            assert(s.subrange(n - p - 1, n as int) =~= seq![s[n - 1 - p]] + t);
            lemma_bits_value_prepend(s[n - 1 - p], t);
        }
        if c == '1' {
            proof {
                lemma_bits_value_bound(t);
                lemma_pow2_unfold((p + 1) as nat);
                if p + 1 < 32 {
                    lemma_pow2_strictly_increases((p + 1) as nat, 32);
                }
                lemma2_to64();
            }
            acc = acc + pw;
        }
        proof {
            assert(!stops_at(s, p as int));
        }
        if p < 31 {
            proof {
                if p < 30 {
                    lemma_pow2_strictly_increases(p as nat, 30);
                }
                lemma2_to64();
                lemma_pow2_unfold((p + 1) as nat);
            }
            pw = pw * 2;
        }
        p = p + 1;
    }
    proof {
        assert(s.subrange(0, n as int) =~= s);
    }
    Ok(acc)
}

/// A string of only '0'/'1' characters of length at most 32 always
/// converts, to the value below 2^n that its bits spell.
pub proof fn lemma_short_bit_string_converts(s: Seq<char>, r: Result<u32, ConversionError>)
    requires
        all_bits(s),
        s.len() <= 32,
        convert_post(s, r),
    ensures
        bits_value(s) < pow2(s.len()),
        r == Ok::<u32, ConversionError>(bits_value(s) as u32),
{
    lemma_bits_value_bound(s);
    if s.len() < 32 {
        lemma_pow2_strictly_increases(s.len(), 32);
    }
    lemma2_to64();
    assert(forall|q: int| 0 <= q < s.len() ==> !(#[trigger] stops_at(s, q))) by {
        assert(forall|q: int| 0 <= q < s.len() ==> is_bit(#[trigger] s[q]));
    }
    match r {
        Ok(v) => {
            assert(v as nat == bits_value(s));
        },
        Err(ConversionError::InvalidCharacter { character, position }) => {
            assert(stops_at(s, position as int));
        },
        Err(ConversionError::Overflow) => {
            let p = choose|p: int|
                32 <= p < s.len() && #[trigger] clean_before(s, p) && char_at_pos(s, p) == '1';
            assert(p < s.len() <= 32);
        },
    }
}

/// The contract of `convert` pins its result down: any two results it
/// admits on the same input are equal, so conversion is a pure function
/// of the string.
pub proof fn lemma_convert_deterministic(
    s: Seq<char>,
    r1: Result<u32, ConversionError>,
    r2: Result<u32, ConversionError>,
)
    requires
        convert_post(s, r1),
        convert_post(s, r2),
    ensures
        r1 == r2,
{
    lemma_stop_position_unique(s, r1, r2);
    lemma_stop_position_unique(s, r2, r1);
}

/// Both halves of the determinism argument: where the first result stops
/// the scan, the second must stop at the same place, or not at all.
proof fn lemma_stop_position_unique(
    s: Seq<char>,
    r1: Result<u32, ConversionError>,
    r2: Result<u32, ConversionError>,
)
    requires
        convert_post(s, r1),
        convert_post(s, r2),
    ensures
        r1 is Err ==> r1 == r2,
{
    if r1 is Err {
        let p1: int = match r1 {
            Err(ConversionError::InvalidCharacter { position, .. }) => position as int,
            Err(ConversionError::Overflow) => choose|p: int|
                32 <= p < s.len() && #[trigger] clean_before(s, p) && char_at_pos(s, p) == '1',
            Ok(_) => 0,
        };
        assert(stops_at(s, p1));
        match r2 {
            Ok(_) => {
                assert(!stops_at(s, p1));
            },
            Err(ConversionError::InvalidCharacter { character, position }) => {
                let p2 = position as int;
                assert(stops_at(s, p2));
                if p1 < p2 {
                    assert(!stops_at(s, p1));
                }
                if p2 < p1 {
                    assert(!stops_at(s, p2));
                }
                assert(p1 == p2);
                match r1 {
                    Err(ConversionError::InvalidCharacter { character: c1, position: q1 }) => {
                        assert(c1 == char_at_pos(s, p1) && character == char_at_pos(s, p1));
                        assert(q1 as int == p1 && position as int == p1);
                    },
                    Err(ConversionError::Overflow) => {
                        assert(char_at_pos(s, p1) == '1' && !is_bit(char_at_pos(s, p2)));
                        assert(false);
                    },
                    Ok(_) => {},
                }
            },
            Err(ConversionError::Overflow) => {
                let p2 = choose|p: int|
                    32 <= p < s.len() && #[trigger] clean_before(s, p) && char_at_pos(s, p)
                        == '1';
                assert(stops_at(s, p2));
                if p1 < p2 {
                    assert(!stops_at(s, p1));
                }
                if p2 < p1 {
                    assert(!stops_at(s, p2));
                }
                assert(p1 == p2);
                match r1 {
                    Err(ConversionError::InvalidCharacter { .. }) => {
                        assert(char_at_pos(s, p2) == '1' && !is_bit(char_at_pos(s, p1)));
                        assert(false);
                    },
                    _ => {},
                }
            },
        }
    }
}

/// The binary digits of `n`, most significant first, with no leading
/// zeros; empty for 0.
pub open spec fn bin_digits(n: nat) -> Seq<char>
    decreases n,
{
    if n == 0 {
        Seq::empty()
    } else {
        bin_digits(n / 2).push(
            if n % 2 == 1 {
                '1'
            } else {
                '0'
            },
        )
    }
}

/// The usual binary rendering of `n`: "0" for zero, otherwise its digits
/// with no leading zeros.
pub open spec fn bin_string(n: nat) -> Seq<char> {
    if n == 0 {
        seq!['0']
    } else {
        bin_digits(n)
    }
}

/// The binary digits of `n` are all bits and spell `n`.
pub proof fn lemma_bin_digits_value(n: nat)
    ensures
        all_bits(bin_digits(n)),
        bits_value(bin_digits(n)) == n,
    decreases n,
{
    if n != 0 {
        lemma_bin_digits_value(n / 2);
        let d = bin_digits(n);
        assert(d.drop_last() =~= bin_digits(n / 2));
        assert(bits_value(d) == 2 * (n / 2) + n % 2);
    }
}

/// A value below 2^k needs at most k binary digits.
pub proof fn lemma_bin_digits_len(n: nat, k: nat)
    requires
        n < pow2(k),
    ensures
        bin_digits(n).len() <= k,
    decreases n,
{
    if n != 0 {
        lemma2_to64();
        assert(k > 0) by {
            if k == 0 {
                assert(pow2(0) == 1);
            }
        }
        lemma_pow2_unfold(k);
        lemma_bin_digits_len(n / 2, (k - 1) as nat);
    }
}

/// Round trip: any result that `convert` admits on the binary rendering
/// of `n` is exactly `Ok(n)`.
pub proof fn lemma_round_trip(n: u32, r: Result<u32, ConversionError>)
    requires
        convert_post(bin_string(n as nat), r),
    ensures
        r == Ok::<u32, ConversionError>(n),
{
    let s = bin_string(n as nat);
    lemma2_to64();
    if n == 0 {
        assert(s =~= seq!['0']);
        assert(s.drop_last() =~= Seq::<char>::empty());
        assert(bits_value(Seq::<char>::empty()) == 0);
        assert(s.last() == '0');
        assert(bits_value(s) == 2 * bits_value(s.drop_last()) + bit_val(s.last()));
        assert(bits_value(s) == 0);
        assert(all_bits(s));
        assert(s.len() == 1);
    } else {
        lemma_bin_digits_value(n as nat);
        lemma_bin_digits_len(n as nat, 32);
    }
    lemma_short_bit_string_converts(s, r);
}

/// The binary digits of a nonzero value, built most-significant first.
fn to_binary_digits(n: u32) -> (r: String)
    requires
        n > 0,
    ensures
        r@ == bin_digits(n as nat),
    decreases n,
{
    let mut s: String = if n >= 2 {
        to_binary_digits(n / 2)
    } else {
        String::new()
    };
    proof {
        if n < 2 {
            assert(bin_digits((n as nat) / 2) =~= Seq::<char>::empty());
        }
    }
    if n % 2 == 1 {
        s.append("1");
        proof {
            reveal_strlit("1");
            assert(s@ =~= bin_digits(n as nat));
        }
    } else {
        s.append("0");
        proof {
            reveal_strlit("0");
            assert(s@ =~= bin_digits(n as nat));
        }
    }
    s
}

/// Renders `n` in binary: "0" for zero, otherwise its digits with no
/// leading zeros.  The result always converts back to `n`.
pub fn to_binary(n: u32) -> (r: String)
    ensures
        r@ == bin_string(n as nat),
        all_bits(r@),
        bits_value(r@) == n,
        1 <= r@.len() <= 32,
{
    proof {
        lemma2_to64();
        if n == 0 {
            let s = bin_string(0);
            assert(s.drop_last() =~= Seq::<char>::empty());
            assert(bits_value(s) == 2 * bits_value(s.drop_last()) + bit_val(s.last()));
        } else {
            lemma_bin_digits_value(n as nat);
            lemma_bin_digits_len(n as nat, 32);
            assert(bin_digits(n as nat).len() >= 1);
        }
    }
    if n == 0 {
        let s = String::from_str("0");
        proof {
            reveal_strlit("0");
            assert(s@ =~= bin_string(0));
        }
        s
    } else {
        to_binary_digits(n)
    }
}

} // verus!
