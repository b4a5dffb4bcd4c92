//! Raster size parsed from a `WIDTHxHEIGHT` argument.

use crate::num::{all_digits, digits_val};
use crate::text::str_chars;
use vstd::prelude::*;

verus! {

/// A raster size in whole pixels.
#[derive(Clone, Copy, PartialEq, Eq, Structural, Debug)]
pub struct Size {
    /// Horizontal pixel count.
    pub width: i32,
    /// Vertical pixel count.
    pub height: i32,
}

/// The index of the first `'x'` in the sequence, or its length if none.
pub open spec fn x_pos(s: Seq<char>) -> nat
    decreases s.len(),
{
    if s.len() == 0 {
        0
    } else if s[0] == 'x' {
        0
    } else {
        1 + x_pos(s.skip(1))
    }
}

/// The position of a first `'x'` is `x_pos`.
pub proof fn lemma_x_pos_at(s: Seq<char>, j: int)
    requires
        0 <= j <= s.len(),
        forall|i: int| 0 <= i < j ==> s[i] != 'x',
        j < s.len() ==> s[j] == 'x',
    ensures
        x_pos(s) == j,
    decreases s.len(),
{
    if s.len() != 0 && s[0] != 'x' {
        assert(j >= 1);
        assert forall|i: int| 0 <= i < j - 1 implies s.skip(1)[i] != 'x' by {
            assert(s.skip(1)[i] == s[i + 1]);
        }
        if j - 1 < s.skip(1).len() {
            assert(s.skip(1)[j - 1] == s[j]);
        }
        lemma_x_pos_at(s.skip(1), j - 1);
    }
}

/// Whether a value fits a 32-bit signed integer.
pub open spec fn in_i32(v: int) -> bool {
    -2147483648 <= v <= 2147483647
}

/// The value of a decimal integer literal with an optional sign, or
/// `None` where the sequence is not such a literal.
pub open spec fn int_lit_value(s: Seq<char>) -> Option<int> {
    if s.len() > 0 && (s[0] == '-' || s[0] == '+') {
        let b = s.skip(1);
        if b.len() > 0 && all_digits(b) {
            if s[0] == '-' {
                Some(0 - digits_val(b) as int)
            } else {
                Some(digits_val(b) as int)
            }
        } else {
            None
        }
    } else {
        if s.len() > 0 && all_digits(s) {
            Some(digits_val(s) as int)
        } else {
            None
        }
    }
}

/// What a `WIDTHxHEIGHT` argument parses to: the text before the
/// first `'x'` and the text after it, each a decimal integer that
/// fits 32 bits.
pub open spec fn size_value(s: Seq<char>) -> Option<(int, int)> {
    let ix = x_pos(s) as int;
    if ix == s.len() {
        None
    } else {
        match int_lit_value(s.take(ix)) {
            None => None,
            Some(w) => match int_lit_value(s.skip(ix + 1)) {
                None => None,
                Some(h) => if in_i32(w) && in_i32(h) {
                    Some((w, h))
                } else {
                    None
                },
            },
        }
    }
}

/// Parses the optionally signed decimal literal in `cs[start..end]`,
/// rejecting values that do not fit 32 bits.
#[verifier::loop_isolation(false)]
fn parse_i32(cs: &Vec<char>, start: usize, end: usize) -> (r: Option<i32>)
    requires
        start <= end <= cs@.len(),
    ensures
        ({
            let s = cs@.subrange(start as int, end as int);
            match int_lit_value(s) {
                Some(v) => if in_i32(v) {
                    r matches Some(x) && x as int == v
                } else {
                    r is None
                },
                None => r is None,
            }
        }),
{
    let ghost s = cs@.subrange(start as int, end as int);
    let mut i = start;
    let mut neg = false;
    if i < end && (cs[i] == '-' || cs[i] == '+') {
        neg = cs[i] == '-';
        i = i + 1;
    }
    let ghost b = cs@.subrange(i as int, end as int);
    proof {
        if i > start {
            assert(b =~= s.skip(1));
        } else {
            assert(b =~= s);
        }
    }
    if i == end {
        return None;
    }
    let mut j = i;
    let mut acc: u64 = 0;
    let mut over = false;
    while j < end
        invariant
            i <= j <= end,
            forall|k: int| 0 <= k < j - i ==> crate::num::is_digit_char(#[trigger] b[k]),
            !over ==> acc as nat == digits_val(b.take(j - i)) && acc <= 2_147_483_648,
            over ==> digits_val(b.take(j - i)) > 2_147_483_648,
        decreases end - j,
    {
        let d = crate::num::digit_of(cs[j]);
        proof {
            assert(b[j - i] == cs@[j as int]);
        }
        if d >= 10 {
            return None;
        }
        proof {
            crate::num::lemma_digits_val_step(b, j - i);
        }
        if over {
            assert(digits_val(b.take(j - i + 1)) > 2_147_483_648) by {
                assert(digits_val(b.take(j - i + 1)) >= digits_val(b.take(j - i)) * 10);
            }
        } else if acc >= 1_000_000_000 {
            over = true;
        } else {
            acc = acc * 10 + (d as u64);
            if acc > 2_147_483_648 {
                over = true;
            }
        }
        j = j + 1;
    }
    proof {
        assert(b.take(end - i) =~= b);
    }
    if over {
        return None;
    }
    if neg {
        let v: i64 = 0 - (acc as i64);
        Some(v as i32)
    } else {
        if acc > 2_147_483_647 {
            return None;
        }
        Some(acc as i32)
    }
}

impl Size {
    /// A size from its two pixel counts.
    pub fn new(width: i32, height: i32) -> (r: Self)
        ensures
            r.width == width,
            r.height == height,
    {
        Self { width, height }
    }

    /// Parses a `WIDTHxHEIGHT` argument, or reports it invalid.
    #[verifier::loop_isolation(false)]
    pub fn from_arg(s: &str) -> (r: Result<Self, String>)
        ensures
            ({
                match size_value(s@) {
                    Some(wh) => r matches Ok(sz) && sz.width as int == wh.0 && sz.height as int
                        == wh.1,
                    None => r matches Err(m) && m@ == "invalid size: "@ + s@,
                }
            }),
    {
        let cs = str_chars(s);
        let n = cs.len();
        let mut ix: usize = 0;
        while ix < n && cs[ix] != 'x'
            invariant
                ix <= n,
                forall|k: int| 0 <= k < ix ==> cs@[k] != 'x',
            decreases n - ix,
        {
            ix = ix + 1;
        }
        proof {
            if ix < n {
                lemma_x_pos_at(cs@, ix as int);
            } else {
                lemma_x_pos_at(cs@, n as int);
            }
        }
        if ix == n {
            return Err(invalid_size_msg(s));
        }
        proof {
            assert(cs@.take(ix as int) =~= cs@.subrange(0, ix as int));
            assert(cs@.skip(ix + 1) =~= cs@.subrange(ix + 1, n as int));
        }
        let w = match parse_i32(&cs, 0, ix) {
            None => {
                return Err(invalid_size_msg(s));
            },
            Some(w) => w,
        };
        let h = match parse_i32(&cs, ix + 1, n) {
            None => {
                return Err(invalid_size_msg(s));
            },
            Some(h) => h,
        };
        Ok(Size { width: w, height: h })
    }
}

/// Relies on `format!`: the message is its literal text followed by
/// the argument.
#[verifier::external_body]
fn invalid_size_msg(s: &str) -> (r: String)
    ensures
        r@ == "invalid size: "@ + s@,
{
    format!("invalid size: {}", s)
}

} // verus!
