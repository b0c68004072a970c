//! Descriptors for the feature-normalization pipeline: which moving
//! averages and candle chunks a strategy string asks for.  The pipeline's
//! floating-point export itself lives outside the library.

use vstd::prelude::*;
use crate::time::{digits_val, all_digits, pow10, lemma_pow10_small, lemma_pow10_mono};

verus! {

/// A moving-average description: interval, length and whether it is
/// exponential, written `interval:len:exp`.
#[derive(Clone, Debug)]
pub struct MAD {
    pub len: i32,
    pub interval: String,
    pub exp: bool,
}

/// One candle chunk of a strategy: how much of which interval.
#[derive(Clone, Debug)]
pub struct CandlesChunkDesc {
    pub len: String,
    pub interval: String,
}

/// Index of the first colon at or after `i`, or the length when none.
pub open spec fn colon_index(s: Seq<char>, i: int) -> int
    decreases s.len() - i,
{
    if i < 0 || i >= s.len() {
        s.len() as int
    } else if s[i] == ':' {
        i
    } else {
        colon_index(s, i + 1)
    }
}

pub open spec fn true_chars() -> Seq<char> {
    seq!['t', 'r', 'u', 'e']
}

pub open spec fn false_chars() -> Seq<char> {
    seq!['f', 'a', 'l', 's', 'e']
}

/// A well-formed moving-average description: an interval part, one to nine
/// digits of length, and a `true` or `false` tail, separated by colons.
pub open spec fn mad_valid(s: Seq<char>) -> bool {
    let c1 = colon_index(s, 0);
    let c2 = colon_index(s, c1 + 1);
    &&& c1 < s.len()
    &&& c2 < s.len()
    &&& 1 <= c2 - c1 - 1 <= 9
    &&& all_digits(s.subrange(c1 + 1, c2))
    &&& (s.skip(c2 + 1) == true_chars() || s.skip(c2 + 1) == false_chars())
}

impl MAD {
    /// Parses a moving-average description; `None` exactly when the string
    /// is not of the `interval:len:exp` shape.
    pub fn from(input: &str) -> (r: Option<MAD>)
        ensures
            r is Some <==> mad_valid(input@),
            r is Some ==> {
                let c1 = colon_index(input@, 0);
                let c2 = colon_index(input@, c1 + 1);
                &&& r.unwrap().interval@ == input@.take(c1)
                &&& r.unwrap().len == digits_val(input@.subrange(c1 + 1, c2))
                &&& r.unwrap().exp == (input@.skip(c2 + 1) == true_chars())
            },
    {
        let n = input.unicode_len();
        let c1 = find_colon(input, 0);
        if c1 >= n {
            return None;
        }
        let c2 = find_colon(input, c1 + 1);
        if c2 >= n {
            return None;
        }
        if c2 - c1 - 1 < 1 || c2 - c1 - 1 > 9 {
            return None;
        }
        // The length digits.
        let mut acc: i32 = 0;
        let mut i: usize = c1 + 1;
        proof {
            lemma_pow10_small();
            reveal_with_fuel(pow10, 12);
        }
        while i < c2
            invariant
                c1 + 1 <= i <= c2 < n == input@.len(),
                c2 - c1 - 1 <= 9,
                c1 == colon_index(input@, 0),
                c2 == colon_index(input@, c1 + 1),
                all_digits(input@.subrange(c1 + 1, i as int)),
                acc == digits_val(input@.subrange(c1 + 1, i as int)),
                0 <= acc < pow10((i - c1 - 1) as nat),
                acc < 1000000000,
            decreases c2 - i,
        {
            let c = input.get_char(i);
            let code = c as u32;
            if code < 48 || code > 57 {
                proof {
                    assert(input@.subrange(c1 + 1 as int, c2 as int)[i - c1 - 1]
                        == input@[i as int]);
                    assert(!all_digits(input@.subrange(c1 + 1 as int, c2 as int)));
                }
                return None;
            }
            proof {
                lemma_pow10_small();
                reveal_with_fuel(pow10, 12);
                assert(pow10((i + 1 - c1 - 1) as nat) == 10 * pow10((i - c1 - 1) as nat));
                assert(pow10((i - c1 - 1) as nat) <= pow10(8)) by {
                    lemma_pow10_mono((i - c1 - 1) as nat, 8);
                }
                let pre = input@.subrange(c1 + 1 as int, i as int);
                let ext = input@.subrange(c1 + 1 as int, i + 1 as int);
                assert(ext.drop_last() =~= pre);
                assert(ext.last() == input@[i as int]);
            }
            acc = acc * 10 + ((code - 48) as i32);
            i = i + 1;
        }
        // The exp tail.
        let tail_len = n - c2 - 1;
        let exp: bool;
        if tail_len == 4 && input.get_char(c2 + 1) == 't' && input.get_char(c2 + 2) == 'r'
            && input.get_char(c2 + 3) == 'u' && input.get_char(c2 + 4) == 'e' {
            proof {
                assert(input@.skip(c2 + 1 as int) =~= true_chars());
            }
            exp = true;
        } else if tail_len == 5 && input.get_char(c2 + 1) == 'f' && input.get_char(c2 + 2) == 'a'
            && input.get_char(c2 + 3) == 'l' && input.get_char(c2 + 4) == 's' && input.get_char(
            c2 + 5) == 'e' {
            proof {
                assert(input@.skip(c2 + 1 as int) =~= false_chars());
            }
            exp = false;
        } else {
            proof {
                let tail = input@.skip(c2 + 1 as int);
                assert(tail.len() == n - c2 - 1);
                if tail == true_chars() {
                    assert(tail[0] == 't' && tail[1] == 'r' && tail[2] == 'u' && tail[3] == 'e');
                    assert(input@[c2 + 1 as int] == 't' && input@[c2 + 2 as int] == 'r'
                        && input@[c2 + 3 as int] == 'u' && input@[c2 + 4 as int] == 'e');
                }
                if tail == false_chars() {
                    assert(tail[0] == 'f' && tail[1] == 'a' && tail[2] == 'l' && tail[3] == 's'
                        && tail[4] == 'e');
                    assert(input@[c2 + 1 as int] == 'f' && input@[c2 + 2 as int] == 'a'
                        && input@[c2 + 3 as int] == 'l' && input@[c2 + 4 as int] == 's'
                        && input@[c2 + 5 as int] == 'e');
                }
            }
            return None;
        }
        let interval = input.substring_char(0, c1).to_owned();
        proof {
            assert(input@.subrange(c1 + 1 as int, c2 as int) =~= input@.subrange(
            c1 + 1 as int, i as int));
            assert(interval@ =~= input@.take(c1 as int));
        }
        Some(MAD { len: acc, interval, exp })
    }
}

/// Scans for the first colon at or after `from`.
fn find_colon(s: &str, from: usize) -> (d: usize)
    requires
        from <= s@.len(),
    ensures
        d == colon_index(s@, from as int),
        from <= d <= s@.len(),
        d < s@.len() ==> s@[d as int] == ':',
{
    let n = s.unicode_len();
    let mut d: usize = from;
    while d < n
        invariant
            from <= d <= n == s@.len(),
            colon_index(s@, from as int) == colon_index(s@, d as int),
        decreases n - d,
    {
        if s.get_char(d) == ':' {
            return d;
        }
        d = d + 1;
    }
    d
}

} // verus!
