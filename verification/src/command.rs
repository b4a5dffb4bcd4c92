//! One drawing command of the path mini-language.
//!
//! A command token is a single code character followed by
//! whitespace/comma-separated numerals. Horizontal and vertical line
//! codes are canonicalized at parse time to `LineTo`, with the missing
//! axis taken from the pen position in effect before the command.
//! The codes `S`, `Q`, `T` and `A` are recognized but unsupported:
//! they parse into an `Unsupported` command that emits a placeholder.

use crate::geom::{pair_in_range, Vec2};
use crate::num::{in_coord_range, num_value, parse_coord};
use crate::text::str_chars;
use vstd::prelude::*;

verus! {

/// The closed set of command kinds.
#[derive(Clone, Copy, PartialEq, Eq, Structural, Debug)]
pub enum Kind {
    MoveTo,
    LineTo,
    HorizontalLineTo,
    VerticalLineTo,
    CubicCurveTo,
    ClosePath,
    Unsupported,
}

/// Why a token failed to decode.
#[derive(Clone, Copy, PartialEq, Eq, Structural, Debug)]
pub enum ParseError {
    /// The token is empty.
    EmptyToken,
    /// The leading character is not a command code.
    InvalidCommandCode,
    /// A field is not a numeral in range.
    NumericParseFailure,
    /// The count of numbers does not fit the command code.
    ArityMismatch,
}

/// The mathematical shape of a command: kind, original code character,
/// and coordinate pairs in micro-units.
pub ghost struct CmdModel {
    pub kind: Kind,
    pub code: char,
    pub args: Seq<(int, int)>,
}

/// One drawing command with its coordinate arguments.
#[derive(Clone, Debug)]
pub struct Command {
    /// What the command draws.
    pub kind: Kind,
    /// The code character the command was written with.
    pub code: char,
    /// The coordinate pairs, in micro-units.
    pub args: Vec<Vec2>,
}

impl View for Command {
    type V = CmdModel;

    open spec fn view(&self) -> CmdModel {
        CmdModel { kind: self.kind, code: self.code, args: self.args@.map_values(|p: Vec2| p@) }
    }
}

/// Whether a character separates numeric fields.
pub open spec fn is_sep_char(c: char) -> bool {
    c == ' ' || c == '\t' || c == '\n' || c == '\r' || c == ','
}

/// Whether a character is one of the accepted command codes.
pub open spec fn is_code_char(c: char) -> bool {
    ||| c == 'M' || c == 'm'
    ||| c == 'L' || c == 'l'
    ||| c == 'H' || c == 'h'
    ||| c == 'V' || c == 'v'
    ||| c == 'C' || c == 'c'
    ||| c == 'S' || c == 's'
    ||| c == 'Q' || c == 'q'
    ||| c == 'T' || c == 't'
    ||| c == 'A' || c == 'a'
    ||| c == 'Z' || c == 'z'
}

/// The argument count a kind demands; `None` for the open-ended
/// unsupported kinds.
pub open spec fn kind_arity(k: Kind) -> Option<nat> {
    match k {
        Kind::MoveTo => Some(1nat),
        Kind::LineTo => Some(1nat),
        Kind::HorizontalLineTo => Some(1nat),
        Kind::VerticalLineTo => Some(1nat),
        Kind::CubicCurveTo => Some(3nat),
        Kind::ClosePath => Some(0nat),
        Kind::Unsupported => None,
    }
}

/// A command is well formed when its argument count fits its kind,
/// every coordinate is in range, and its code is an accepted code.
pub open spec fn cmd_wf(c: CmdModel) -> bool {
    &&& match kind_arity(c.kind) {
        Some(n) => c.args.len() == n,
        None => true,
    }
    &&& forall|i: int| 0 <= i < c.args.len() ==> pair_in_range(#[trigger] c.args[i])
    &&& is_code_char(c.code)
}

/// The length of the leading run of non-separator characters.
pub open spec fn field_len(s: Seq<char>) -> nat
    decreases s.len(),
{
    if s.len() == 0 {
        0
    } else if is_sep_char(s[0]) {
        0
    } else {
        1 + field_len(s.skip(1))
    }
}

/// A leading run never reaches past the end of the sequence.
pub proof fn lemma_field_len_le(s: Seq<char>)
    ensures
        field_len(s) <= s.len(),
    decreases s.len(),
{
    if s.len() != 0 && !is_sep_char(s[0]) {
        lemma_field_len_le(s.skip(1));
    }
}

/// The maximal non-separator runs of a sequence, in order.
pub open spec fn split_fields(s: Seq<char>) -> Seq<Seq<char>>
    decreases s.len(),
    via split_fields_dec
{
    if s.len() == 0 {
        Seq::empty()
    } else if is_sep_char(s[0]) {
        split_fields(s.skip(1))
    } else {
        seq![s.take(field_len(s) as int)] + split_fields(s.skip(field_len(s) as int))
    }
}

#[via_fn]
proof fn split_fields_dec(s: Seq<char>) {
    lemma_field_len_le(s);
}

/// The values of all fields in micro-units, or `None` where any field
/// fails to parse or lies outside the coordinate range.
pub open spec fn field_vals(fs: Seq<Seq<char>>) -> Option<Seq<int>>
    decreases fs.len(),
{
    if fs.len() == 0 {
        Some(Seq::empty())
    } else {
        match num_value(fs[0]) {
            None => None,
            Some(v) => if !in_coord_range(v) {
                None
            } else {
                match field_vals(fs.skip(1)) {
                    None => None,
                    Some(r) => Some(seq![v] + r),
                }
            },
        }
    }
}

/// Values grouped two at a time into coordinate pairs.
pub open spec fn to_pairs(vals: Seq<int>) -> Seq<(int, int)>
    decreases vals.len(),
{
    if vals.len() < 2 {
        Seq::empty()
    } else {
        seq![(vals[0], vals[1])] + to_pairs(vals.skip(2))
    }
}

/// The command a code character and its field values decode to, given
/// the pen position in effect before the command.
pub open spec fn assemble(code: char, vals: Seq<int>, pen: (int, int)) -> Result<
    CmdModel,
    ParseError,
> {
    if code == 'Z' || code == 'z' {
        if vals.len() == 0 {
            Ok(CmdModel { kind: Kind::ClosePath, code, args: Seq::empty() })
        } else {
            Err(ParseError::ArityMismatch)
        }
    } else if code == 'H' || code == 'h' {
        if vals.len() == 1 {
            Ok(CmdModel { kind: Kind::LineTo, code, args: seq![(vals[0], pen.1)] })
        } else {
            Err(ParseError::ArityMismatch)
        }
    } else if code == 'V' || code == 'v' {
        if vals.len() == 1 {
            Ok(CmdModel { kind: Kind::LineTo, code, args: seq![(pen.0, vals[0])] })
        } else {
            Err(ParseError::ArityMismatch)
        }
    } else if code == 'M' || code == 'm' {
        if vals.len() == 2 {
            Ok(CmdModel { kind: Kind::MoveTo, code, args: seq![(vals[0], vals[1])] })
        } else {
            Err(ParseError::ArityMismatch)
        }
    } else if code == 'L' || code == 'l' {
        if vals.len() == 2 {
            Ok(CmdModel { kind: Kind::LineTo, code, args: seq![(vals[0], vals[1])] })
        } else {
            Err(ParseError::ArityMismatch)
        }
    } else if code == 'C' || code == 'c' {
        if vals.len() == 6 {
            Ok(
                CmdModel {
                    kind: Kind::CubicCurveTo,
                    code,
                    args: seq![(vals[0], vals[1]), (vals[2], vals[3]), (vals[4], vals[5])],
                },
            )
        } else {
            Err(ParseError::ArityMismatch)
        }
    } else {
        if vals.len() % 2 == 0 {
            Ok(CmdModel { kind: Kind::Unsupported, code, args: to_pairs(vals) })
        } else {
            Err(ParseError::ArityMismatch)
        }
    }
}

/// What one token decodes to, given the pen position in effect before
/// it: the code character, then its fields, then arity.
pub open spec fn token_parse(s: Seq<char>, pen: (int, int)) -> Result<CmdModel, ParseError> {
    if s.len() == 0 {
        Err(ParseError::EmptyToken)
    } else if !is_code_char(s[0]) {
        Err(ParseError::InvalidCommandCode)
    } else {
        match field_vals(split_fields(s.skip(1))) {
            None => Err(ParseError::NumericParseFailure),
            Some(vals) => assemble(s[0], vals, pen),
        }
    }
}

/// The pen position after a command: the point reached for moves,
/// lines and curves (with the pen supplying the missing axis of a
/// horizontal or vertical line), the origin after a close or an
/// unsupported command.
pub open spec fn pen_after(c: CmdModel, pen: (int, int)) -> (int, int) {
    match c.kind {
        Kind::MoveTo | Kind::LineTo | Kind::CubicCurveTo => c.args.last(),
        Kind::HorizontalLineTo => (c.args[0].0, pen.1),
        Kind::VerticalLineTo => (pen.0, c.args[0].1),
        Kind::ClosePath | Kind::Unsupported => (0, 0),
    }
}

/// A command shifted by an offset.
pub open spec fn translate_cmd(c: CmdModel, t: (int, int)) -> CmdModel {
    CmdModel {
        kind: c.kind,
        code: c.code,
        args: c.args.map_values(|p: (int, int)| (p.0 + t.0, p.1 + t.1)),
    }
}

/// Whether a character separates numeric fields.
pub fn is_sep(c: char) -> (r: bool)
    ensures
        r == is_sep_char(c),
{
    c == ' ' || c == '\t' || c == '\n' || c == '\r' || c == ','
}

/// Whether a character is one of the accepted command codes.
pub fn is_code(c: char) -> (r: bool)
    ensures
        r == is_code_char(c),
{
    match c {
        'M' | 'm' | 'L' | 'l' | 'H' | 'h' | 'V' | 'v' | 'C' | 'c' | 'S' | 's' | 'Q' | 'q' | 'T'
            | 't' | 'A' | 'a' | 'Z' | 'z' => true,
        _ => false,
    }
}

/// A run of non-separators ending at a separator or at the end has
/// `field_len` equal to its length.
pub proof fn lemma_field_len_at(s: Seq<char>, j: int)
    requires
        0 <= j <= s.len(),
        forall|i: int| 0 <= i < j ==> !is_sep_char(#[trigger] s[i]),
        j < s.len() ==> is_sep_char(s[j]),
    ensures
        field_len(s) == j,
    decreases s.len(),
{
    if s.len() != 0 && !is_sep_char(s[0]) {
        assert(j >= 1);
        assert forall|i: int| 0 <= i < j - 1 implies !is_sep_char(#[trigger] s.skip(1)[i]) by {
            assert(s.skip(1)[i] == s[i + 1]);
        }
        if j - 1 < s.skip(1).len() {
            assert(s.skip(1)[j - 1] == s[j]);
        }
        lemma_field_len_at(s.skip(1), j - 1);
    }
}

impl Command {
    /// Parses the token held in `cs[start..end]`, with `pen` the pen
    /// position in effect before the command.
    #[verifier::loop_isolation(false)]
    pub fn parse_in(cs: &Vec<char>, start: usize, end: usize, pen: Vec2) -> (r: Result<
        Command,
        ParseError,
    >)
        requires
            start <= end <= cs@.len(),
            pair_in_range(pen@),
        ensures
            ({
                let spec_r = token_parse(cs@.subrange(start as int, end as int), pen@);
                match spec_r {
                    Ok(m) => r matches Ok(c) && c@ == m && cmd_wf(m),
                    Err(e) => r matches Err(e2) && e2 == e,
                }
            }),
    {
        let ghost tok = cs@.subrange(start as int, end as int);
        if start == end {
            return Err(ParseError::EmptyToken);
        }
        let code = cs[start];
        if !is_code(code) {
            return Err(ParseError::InvalidCommandCode);
        }
        let ghost tail = cs@.subrange(start as int + 1, end as int);
        proof {
            assert(tail =~= tok.skip(1));
        }
        let mut vals: Vec<i64> = Vec::new();
        let mut i = start + 1;
        while i < end
            invariant
                start + 1 <= i <= end,
                forall|k: int| 0 <= k < vals@.len() ==> in_coord_range(#[trigger] vals@[k] as int),
                ({
                    let whole = field_vals(split_fields(tail));
                    let rest = field_vals(
                        split_fields(cs@.subrange(i as int, end as int)),
                    );
                    whole == match rest {
                        None => None::<Seq<int>>,
                        Some(r2) => Some(vals@.map_values(|x: i64| x as int) + r2),
                    }
                }),
            decreases end - i,
        {
            let ghost rem = cs@.subrange(i as int, end as int);
            let c = cs[i];
            if is_sep(c) {
                proof {
                    assert(rem[0] == c);
                    assert(rem.skip(1) =~= cs@.subrange(i as int + 1, end as int));
                }
                i = i + 1;
            } else {
                let mut j = i + 1;
                while j < end && !is_sep(cs[j])
                    invariant
                        i < j <= end,
                        forall|k: int| i <= k < j ==> !is_sep_char(#[trigger] cs@[k]),
                    decreases end - j,
                {
                    j = j + 1;
                }
                proof {
                    assert forall|k: int| 0 <= k < j - i implies !is_sep_char(
                        #[trigger] rem[k],
                    ) by {
                        assert(rem[k] == cs@[i + k]);
                    }
                    if j < end {
                        assert(rem[j - i] == cs@[j as int]);
                    }
                    lemma_field_len_at(rem, j - i);
                    assert(rem.take(j - i) =~= cs@.subrange(i as int, j as int));
                    assert(rem.skip(j - i) =~= cs@.subrange(j as int, end as int));
                    assert(split_fields(rem) == seq![cs@.subrange(i as int, j as int)]
                        + split_fields(cs@.subrange(j as int, end as int)));
                }
                let ghost fld = cs@.subrange(i as int, j as int);
                match parse_coord(cs, i, j) {
                    None => {
                        proof {
                            let fs = split_fields(rem);
                            assert(fs[0] == fld);
                            assert(field_vals(fs) is None);
                        }
                        return Err(ParseError::NumericParseFailure);
                    },
                    Some(x) => {
                        let ghost old_vals = vals@;
                        vals.push(x);
                        proof {
                            let fs = split_fields(rem);
                            assert(fs[0] == fld);
                            assert(fs.skip(1) =~= split_fields(
                                cs@.subrange(j as int, end as int),
                            ));
                            assert(vals@.map_values(|q: i64| q as int) =~= old_vals.map_values(
                                |q: i64| q as int,
                            ).push(x as int));
                            let rest2 = field_vals(
                                split_fields(cs@.subrange(j as int, end as int)),
                            );
                            if rest2 is Some {
                                let r2 = rest2->Some_0;
                                assert(old_vals.map_values(|q: i64| q as int) + (seq![x as int]
                                    + r2) =~= vals@.map_values(|q: i64| q as int) + r2);
                            }
                        }
                        i = j;
                    },
                }
            }
        }
        proof {
            assert(cs@.subrange(i as int, end as int) =~= Seq::<char>::empty());
            assert(split_fields(Seq::<char>::empty()) =~= Seq::<Seq<char>>::empty());
            assert(field_vals(split_fields(tail)) == Some(
                vals@.map_values(|x: i64| x as int) + Seq::<int>::empty(),
            ));
            assert(vals@.map_values(|x: i64| x as int) + Seq::<int>::empty() =~= vals@.map_values(
                |x: i64| x as int,
            ));
        }
        proof {
            assert(tok[0] == code);
        }
        assemble_args(code, &vals, pen)
    }

    /// Parses one token string, with `pen` the pen position in effect
    /// before the command.
    pub fn parse(token: &str, pen: Vec2) -> (r: Result<Command, ParseError>)
        requires
            pair_in_range(pen@),
        ensures
            ({
                let spec_r = token_parse(token@, pen@);
                match spec_r {
                    Ok(m) => r matches Ok(c) && c@ == m && cmd_wf(m),
                    Err(e) => r matches Err(e2) && e2 == e,
                }
            }),
    {
        let cs = str_chars(token);
        proof {
            assert(cs@.subrange(0, cs@.len() as int) =~= token@);
        }
        Command::parse_in(&cs, 0, cs.len(), pen)
    }
}

/// Builds the command a code character and its parsed field values
/// decode to, given the pen position in effect before the command.
#[verifier::loop_isolation(false)]
fn assemble_args(code: char, vals: &Vec<i64>, pen: Vec2) -> (r: Result<Command, ParseError>)
    requires
        is_code_char(code),
        pair_in_range(pen@),
        forall|k: int| 0 <= k < vals@.len() ==> in_coord_range(#[trigger] vals@[k] as int),
    ensures
        ({
            let spec_r = assemble(code, vals@.map_values(|x: i64| x as int), pen@);
            match spec_r {
                Ok(m) => r matches Ok(c) && c@ == m && cmd_wf(m),
                Err(e) => r matches Err(e2) && e2 == e,
            }
        }),
{
    let ghost vm = vals@.map_values(|x: i64| x as int);
    let n = vals.len();
    let r: Result<Command, ParseError> = match code {
            'Z' | 'z' => {
                if n == 0 {
                    Ok(Command { kind: Kind::ClosePath, code, args: Vec::new() })
                } else {
                    Err(ParseError::ArityMismatch)
                }
            },
            'H' | 'h' => {
                if n == 1 {
                    let mut args: Vec<Vec2> = Vec::new();
                    args.push(Vec2 { x: vals[0], y: pen.y });
                    Ok(Command { kind: Kind::LineTo, code, args })
                } else {
                    Err(ParseError::ArityMismatch)
                }
            },
            'V' | 'v' => {
                if n == 1 {
                    let mut args: Vec<Vec2> = Vec::new();
                    args.push(Vec2 { x: pen.x, y: vals[0] });
                    Ok(Command { kind: Kind::LineTo, code, args })
                } else {
                    Err(ParseError::ArityMismatch)
                }
            },
            'M' | 'm' => {
                if n == 2 {
                    let mut args: Vec<Vec2> = Vec::new();
                    args.push(Vec2 { x: vals[0], y: vals[1] });
                    Ok(Command { kind: Kind::MoveTo, code, args })
                } else {
                    Err(ParseError::ArityMismatch)
                }
            },
            'L' | 'l' => {
                if n == 2 {
                    let mut args: Vec<Vec2> = Vec::new();
                    args.push(Vec2 { x: vals[0], y: vals[1] });
                    Ok(Command { kind: Kind::LineTo, code, args })
                } else {
                    Err(ParseError::ArityMismatch)
                }
            },
            'C' | 'c' => {
                if n == 6 {
                    let mut args: Vec<Vec2> = Vec::new();
                    args.push(Vec2 { x: vals[0], y: vals[1] });
                    args.push(Vec2 { x: vals[2], y: vals[3] });
                    args.push(Vec2 { x: vals[4], y: vals[5] });
                    Ok(Command { kind: Kind::CubicCurveTo, code, args })
                } else {
                    Err(ParseError::ArityMismatch)
                }
            },
            _ => {
                if n % 2 == 0 {
                    let mut args: Vec<Vec2> = Vec::new();
                    let mut k: usize = 0;
                    proof {
                        assert(vm.skip(0) =~= vm);
                    }
                    while k < n
                        invariant
                            k % 2 == 0,
                            k <= n,
                            forall|idx: int|
                                0 <= idx < args@.len() ==> pair_in_range(#[trigger] args@[idx]@),
                            to_pairs(vm) =~= args@.map_values(|p: Vec2| p@) + to_pairs(
                                vm.skip(k as int),
                            ),
                        decreases n - k,
                    {
                        let ghost old_args = args@;
                        args.push(Vec2 { x: vals[k], y: vals[k + 1] });
                        proof {
                            let rest = vm.skip(k as int);
                            assert(rest[0] == vm[k as int] && rest[1] == vm[k + 1]);
                            assert(rest.skip(2) =~= vm.skip(k + 2));
                            assert(to_pairs(rest) == seq![(vm[k as int], vm[k + 1])] + to_pairs(
                                vm.skip(k + 2),
                            ));
                            assert(args@.map_values(|p: Vec2| p@) =~= old_args.map_values(
                                |p: Vec2| p@,
                            ).push((vm[k as int], vm[k + 1])));
                            assert(old_args.map_values(|p: Vec2| p@) + (seq![
                                (vm[k as int], vm[k + 1]),
                            ] + to_pairs(vm.skip(k + 2))) =~= args@.map_values(|p: Vec2| p@)
                                + to_pairs(vm.skip(k + 2)));
                        }
                        k = k + 2;
                    }
                    proof {
                        assert(vm.skip(n as int) =~= Seq::<int>::empty());
                        assert(to_pairs(vm) =~= args@.map_values(|p: Vec2| p@));
                    }
                    Ok(Command { kind: Kind::Unsupported, code, args })
                } else {
                    Err(ParseError::ArityMismatch)
                }
            },
        };
    proof {
        if r is Ok {
            assert(r->Ok_0@.args =~= assemble(code, vm, pen@)->Ok_0.args);
        }
    }
    r
}

impl Command {
    /// The pen position after this command, given the pen position
    /// before it.
    pub fn next_pen(&self, pen: Vec2) -> (r: Vec2)
        requires
            cmd_wf(self@),
            pair_in_range(pen@),
        ensures
            r@ == pen_after(self@, pen@),
            pair_in_range(r@),
    {
        match self.kind {
            Kind::MoveTo | Kind::LineTo | Kind::CubicCurveTo => {
                let p = self.args[self.args.len() - 1];
                proof {
                    assert(self@.args.last() == p@);
                    assert(pair_in_range(self@.args[self@.args.len() - 1]));
                }
                p
            },
            Kind::HorizontalLineTo => {
                proof {
                    assert(pair_in_range(self@.args[0]));
                }
                Vec2 { x: self.args[0].x, y: pen.y }
            },
            Kind::VerticalLineTo => {
                proof {
                    assert(pair_in_range(self@.args[0]));
                }
                Vec2 { x: pen.x, y: self.args[0].y }
            },
            Kind::ClosePath | Kind::Unsupported => Vec2 { x: 0, y: 0 },
        }
    }

    /// A copy of the command with every coordinate shifted by `t`.
    pub fn translate(&self, t: Vec2) -> (r: Command)
        requires
            cmd_wf(self@),
            pair_in_range(t@),
        ensures
            r@ == translate_cmd(self@, t@),
    {
        let mut args: Vec<Vec2> = Vec::new();
        let mut k: usize = 0;
        let n = self.args.len();
        while k < n
            invariant
                k <= n,
                n == self.args@.len(),
                cmd_wf(self@),
                pair_in_range(t@),
                args@.map_values(|p: Vec2| p@) =~= self@.args.take(k as int).map_values(
                    |p: (int, int)| (p.0 + t@.0, p.1 + t@.1),
                ),
            decreases n - k,
        {
            let a = self.args[k];
            proof {
                assert(self@.args[k as int] == a@);
                assert(pair_in_range(self@.args[k as int]));
            }
            let ghost old_args = args@;
            args.push(Vec2 { x: a.x + t.x, y: a.y + t.y });
            proof {
                assert(args@.map_values(|p: Vec2| p@) =~= old_args.map_values(|p: Vec2| p@).push(
                    (a@.0 + t@.0, a@.1 + t@.1),
                ));
                assert(self@.args.take(k + 1) =~= self@.args.take(k as int).push(
                    self@.args[k as int],
                ));
                assert(self@.args.take(k + 1).map_values(
                    |p: (int, int)| (p.0 + t@.0, p.1 + t@.1),
                ) =~= self@.args.take(k as int).map_values(
                    |p: (int, int)| (p.0 + t@.0, p.1 + t@.1),
                ).push((self@.args[k as int].0 + t@.0, self@.args[k as int].1 + t@.1)));
            }
            k = k + 1;
        }
        proof {
            assert(self@.args.take(n as int) =~= self@.args);
        }
        let r = Command { kind: self.kind, code: self.code, args };
        proof {
            assert(r@.args =~= translate_cmd(self@, t@).args);
        }
        r
    }
}

} // verus!
