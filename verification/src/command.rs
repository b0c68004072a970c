//! The operator command grammar: a line of space-separated words, turned
//! into the action the surrounding program should take.  `download` names
//! an interval and a relative range, written `start..end` in spans before
//! now; everything after the third word is ignored, as is anything after a
//! second `..`.

use vstd::prelude::*;
use crate::time::{interval_ms, interval_ms_spec, lemma_interval_ms_bound};

verus! {

/// What a command line asks for.
pub enum Command {
    Reset,
    Download { interval: String, start: i64, end: i64 },
    Predict,
    BuildCsv,
    Unrecognized,
}

/// Why a download command was refused.
#[derive(Clone, Copy, PartialEq, Eq, Structural, Debug)]
pub enum CommandError {
    BadInterval,
    BadRange,
    StartAfterEnd,
}

/// Index of the first space at or after `i`, or the length when none.
pub open spec fn space_index(s: Seq<char>, i: int) -> int
    decreases s.len() - i,
{
    if i < 0 || i >= s.len() {
        s.len() as int
    } else if s[i] == ' ' {
        i
    } else {
        space_index(s, i + 1)
    }
}

/// Index of the first `..` at or after `i`, or the length when none.
pub open spec fn dotdot_index(s: Seq<char>, i: int) -> int
    decreases s.len() - i,
{
    if i < 0 || i + 1 >= s.len() {
        s.len() as int
    } else if s[i] == '.' && s[i + 1] == '.' {
        i
    } else {
        dotdot_index(s, i + 1)
    }
}

pub open spec fn first_word(s: Seq<char>) -> Seq<char> {
    s.take(space_index(s, 0))
}

/// Whether a download line has its interval and range words.
pub open spec fn download_shaped(s: Seq<char>) -> bool {
    &&& first_word(s) == seq!['d', 'o', 'w', 'n', 'l', 'o', 'a', 'd']
    &&& space_index(s, 0) < s.len()
    &&& space_index(s, space_index(s, 0) + 1) < s.len()
}

/// The download line's interval word.
pub open spec fn dl_interval(s: Seq<char>) -> Seq<char> {
    s.subrange(space_index(s, 0) + 1, space_index(s, space_index(s, 0) + 1))
}

/// The download line's range word.
pub open spec fn dl_range(s: Seq<char>) -> Seq<char> {
    let a = space_index(s, space_index(s, 0) + 1) + 1;
    s.subrange(a, space_index(s, a))
}

/// The span before now at which the range starts.
pub open spec fn dl_start_span(s: Seq<char>) -> Option<int> {
    interval_ms_spec(dl_range(s).take(dotdot_index(dl_range(s), 0)))
}

/// The span before now at which the range ends; zero when no `..` names
/// one.
pub open spec fn dl_end_span(s: Seq<char>) -> Option<int> {
    let w = dl_range(s);
    let dd = dotdot_index(w, 0);
    if dd < w.len() {
        interval_ms_spec(w.skip(dd + 2))
    } else {
        Some(0int)
    }
}

/// Translates one command line against the given current time.
///
/// The result distinguishes every outcome: each recognized verb, the
/// malformed download lines with the reason, and everything else.
pub fn parse_command(cmd: &str, now_ms: i64) -> (r: Result<Command, CommandError>)
    requires
        -0x2000000000000000 <= now_ms <= 0x2000000000000000,
    ensures
        match r {
            Ok(Command::Reset) => first_word(cmd@) == seq!['r', 'e', 's', 'e', 't'],
            Ok(Command::Predict) => first_word(cmd@) == seq![
                'p',
                'r',
                'e',
                'd',
                'i',
                'c',
                't',
            ],
            Ok(Command::BuildCsv) => first_word(cmd@) == seq![
                'b',
                'u',
                'i',
                'l',
                'd',
                '_',
                'c',
                's',
                'v',
            ],
            Ok(Command::Download { interval, start, end }) => {
                &&& download_shaped(cmd@)
                &&& interval@ == dl_interval(cmd@)
                &&& interval_ms_spec(dl_interval(cmd@)) is Some
                &&& interval_ms_spec(dl_interval(cmd@)).unwrap() > 0
                &&& dl_start_span(cmd@) is Some
                &&& dl_end_span(cmd@) is Some
                &&& start == now_ms - dl_start_span(cmd@).unwrap()
                &&& end == now_ms - dl_end_span(cmd@).unwrap()
                &&& start <= end
            },
            Ok(Command::Unrecognized) => {
                &&& first_word(cmd@) != seq!['r', 'e', 's', 'e', 't']
                &&& first_word(cmd@) != seq!['p', 'r', 'e', 'd', 'i', 'c', 't']
                &&& first_word(cmd@) != seq!['b', 'u', 'i', 'l', 'd', '_', 'c', 's', 'v']
                &&& !download_shaped(cmd@)
            },
            Err(CommandError::BadInterval) => download_shaped(cmd@) && !(interval_ms_spec(
                dl_interval(cmd@)) is Some && interval_ms_spec(dl_interval(cmd@)).unwrap() > 0),
            Err(CommandError::BadRange) => {
                &&& download_shaped(cmd@)
                &&& interval_ms_spec(dl_interval(cmd@)) is Some
                &&& interval_ms_spec(dl_interval(cmd@)).unwrap() > 0
                &&& (dl_start_span(cmd@) is None || dl_end_span(cmd@) is None)
            },
            Err(CommandError::StartAfterEnd) => {
                &&& download_shaped(cmd@)
                &&& interval_ms_spec(dl_interval(cmd@)) is Some
                &&& interval_ms_spec(dl_interval(cmd@)).unwrap() > 0
                &&& dl_start_span(cmd@) is Some
                &&& dl_end_span(cmd@) is Some
                &&& now_ms - dl_start_span(cmd@).unwrap() > now_ms - dl_end_span(cmd@).unwrap()
            },
        },
{
    let n = cmd.unicode_len();
    let w0e = find_space(cmd, 0);
    if seg_eq(cmd, 0, w0e, "reset") {
        proof {
            reveal_strlit("reset");
            assert(first_word(cmd@) =~= seq!['r', 'e', 's', 'e', 't']);
        }
        return Ok(Command::Reset);
    }
    if seg_eq(cmd, 0, w0e, "predict") {
        proof {
            reveal_strlit("predict");
            assert(first_word(cmd@) =~= seq!['p', 'r', 'e', 'd', 'i', 'c', 't']);
        }
        return Ok(Command::Predict);
    }
    if seg_eq(cmd, 0, w0e, "build_csv") {
        proof {
            reveal_strlit("build_csv");
            assert(first_word(cmd@) =~= seq!['b', 'u', 'i', 'l', 'd', '_', 'c', 's', 'v']);
        }
        return Ok(Command::BuildCsv);
    }
    let is_download = seg_eq(cmd, 0, w0e, "download");
    proof {
        reveal_strlit("download");
        reveal_strlit("reset");
        reveal_strlit("predict");
        reveal_strlit("build_csv");
        assert(seq!['r', 'e', 's', 'e', 't'] =~= "reset"@);
        assert(seq!['p', 'r', 'e', 'd', 'i', 'c', 't'] =~= "predict"@);
        assert(seq!['b', 'u', 'i', 'l', 'd', '_', 'c', 's', 'v'] =~= "build_csv"@);
        assert(seq!['d', 'o', 'w', 'n', 'l', 'o', 'a', 'd'] =~= "download"@);
    }
    if !is_download || w0e >= n {
        return Ok(Command::Unrecognized);
    }
    let w1s = w0e + 1;
    let w1e = find_space(cmd, w1s);
    if w1e >= n {
        return Ok(Command::Unrecognized);
    }
    let w2s = w1e + 1;
    let w2e = find_space(cmd, w2s);
    let interval = cmd.substring_char(w1s, w1e);
    let step = interval_ms(interval);
    proof {
        if interval_ms_spec(interval@) is Some {
            lemma_interval_ms_bound(interval@);
        }
    }
    let good_interval = match step {
        Some(v) => v > 0,
        None => false,
    };
    if !good_interval {
        return Err(CommandError::BadInterval);
    }
    let range_word = cmd.substring_char(w2s, w2e);
    let dd = find_dotdot(range_word);
    let rn = range_word.unicode_len();
    let start_str = range_word.substring_char(0, dd);
    let start_span = match interval_ms(start_str) {
        Some(v) => v,
        None => {
            return Err(CommandError::BadRange);
        },
    };
    let end_span: i64;
    if dd < rn {
        let end_str = range_word.substring_char(dd + 2, rn);
        proof {
            assert(end_str@ =~= range_word@.skip(dd + 2));
        }
        end_span = match interval_ms(end_str) {
            Some(v) => v,
            None => {
                return Err(CommandError::BadRange);
            },
        };
    } else {
        end_span = 0;
    }
    proof {
        lemma_interval_ms_bound(start_str@);
        if dd < rn {
            lemma_interval_ms_bound(range_word@.skip(dd + 2));
        }
    }
    let start = now_ms - start_span;
    let end = now_ms - end_span;
    if start > end {
        return Err(CommandError::StartAfterEnd);
    }
    Ok(Command::Download { interval: interval.to_owned(), start, end })
}

/// Scans for the first space at or after `from`.
fn find_space(s: &str, from: usize) -> (d: usize)
    requires
        from <= s@.len(),
    ensures
        d == space_index(s@, from as int),
        from <= d <= s@.len(),
{
    let n = s.unicode_len();
    let mut d: usize = from;
    while d < n
        invariant
            from <= d <= n == s@.len(),
            space_index(s@, from as int) == space_index(s@, d as int),
        decreases n - d,
    {
        if s.get_char(d) == ' ' {
            return d;
        }
        d = d + 1;
    }
    d
}

/// Scans for the first `..` of a word.
fn find_dotdot(s: &str) -> (d: usize)
    ensures
        d == dotdot_index(s@, 0),
        d <= s@.len(),
        d < s@.len() ==> d + 2 <= s@.len(),
{
    let n = s.unicode_len();
    if n < 2 {
        return n;
    }
    let mut d: usize = 0;
    while d < n - 1
        invariant
            d <= n == s@.len(),
            2 <= n,
            dotdot_index(s@, 0) == dotdot_index(s@, d as int),
        decreases n - d,
    {
        if s.get_char(d) == '.' && s.get_char(d + 1) == '.' {
            return d;
        }
        d = d + 1;
    }
    proof {
        assert(dotdot_index(s@, d as int) == s@.len());
    }
    n
}

/// Whether a segment of a string spells a given word.
fn seg_eq(s: &str, from: usize, to: usize, w: &str) -> (r: bool)
    requires
        from <= to <= s@.len(),
    ensures
        r == (s@.subrange(from as int, to as int) == w@),
{
    let wl = w.unicode_len();
    if to - from != wl {
        proof {
            assert(s@.subrange(from as int, to as int).len() != w@.len());
        }
        return false;
    }
    let mut i: usize = 0;
    while i < wl
        invariant
            i <= wl == w@.len(),
            from + wl <= to <= s@.len(),
            to - from == wl,
            forall|k: int| 0 <= k < i ==> s@[from + k] == w@[k],
        decreases wl - i,
    {
        if s.get_char(from + i) != w.get_char(i) {
            proof {
                assert(s@.subrange(from as int, to as int)[i as int] != w@[i as int]);
            }
            return false;
        }
        i = i + 1;
    }
    proof {
        assert(s@.subrange(from as int, to as int) =~= w@);
    }
    true
}

} // verus!
