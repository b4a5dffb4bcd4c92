//! Ordered command sequences: parsing a whole path text, bounds,
//! and origin-centering normalization.
//!
//! The path text is split at every command-code character, each code
//! keeping the numeric text that follows it up to the next code. Tokens
//! are decoded left to right; the pen position after each command feeds
//! the parse of the next one, starting from the origin.

use crate::command::{
    cmd_wf, is_code, is_code_char, is_sep, is_sep_char, pen_after, token_parse, translate_cmd,
    CmdModel, Command, ParseError,
};
use crate::geom::{pair_in_range, Rect, Vec2};
use crate::num::in_coord_range;
use crate::text::str_chars;
use vstd::prelude::*;

verus! {

/// The length of the leading run of non-code characters.
pub open spec fn noncode_len(s: Seq<char>) -> nat
    decreases s.len(),
{
    if s.len() == 0 {
        0
    } else if is_code_char(s[0]) {
        0
    } else {
        1 + noncode_len(s.skip(1))
    }
}

/// A leading run never reaches past the end of the sequence.
pub proof fn lemma_noncode_len_le(s: Seq<char>)
    ensures
        noncode_len(s) <= s.len(),
    decreases s.len(),
{
    if s.len() != 0 && !is_code_char(s[0]) {
        lemma_noncode_len_le(s.skip(1));
    }
}

/// A run of non-code characters ending at a code character or at the
/// end has `noncode_len` equal to its length.
pub proof fn lemma_noncode_len_at(s: Seq<char>, j: int)
    requires
        0 <= j <= s.len(),
        forall|i: int| 0 <= i < j ==> !is_code_char(#[trigger] s[i]),
        j < s.len() ==> is_code_char(s[j]),
    ensures
        noncode_len(s) == j,
    decreases s.len(),
{
    if s.len() != 0 && !is_code_char(s[0]) {
        assert(j >= 1);
        assert forall|i: int| 0 <= i < j - 1 implies !is_code_char(#[trigger] s.skip(1)[i]) by {
            assert(s.skip(1)[i] == s[i + 1]);
        }
        if j - 1 < s.skip(1).len() {
            assert(s.skip(1)[j - 1] == s[j]);
        }
        lemma_noncode_len_at(s.skip(1), j - 1);
    }
}

/// The tokens of a text whose first character, if any, is a command
/// code: each token runs from one code character to just before the
/// next.
pub open spec fn token_split(s: Seq<char>) -> Seq<Seq<char>>
    decreases s.len(),
    via token_split_dec
{
    if s.len() == 0 {
        Seq::empty()
    } else {
        let k = 1 + noncode_len(s.skip(1));
        seq![s.take(k as int)] + token_split(s.skip(k as int))
    }
}

#[via_fn]
proof fn token_split_dec(s: Seq<char>) {
    if s.len() != 0 {
        lemma_noncode_len_le(s.skip(1));
    }
}

/// The commands the tokens decode to, threading the pen position, or
/// the first decode failure.
pub open spec fn parse_tokens(toks: Seq<Seq<char>>, pen: (int, int)) -> Result<
    Seq<CmdModel>,
    ParseError,
>
    decreases toks.len(),
{
    if toks.len() == 0 {
        Ok(Seq::empty())
    } else {
        match token_parse(toks[0], pen) {
            Err(e) => Err(e),
            Ok(c) => match parse_tokens(toks.skip(1), pen_after(c, pen)) {
                Err(e) => Err(e),
                Ok(rest) => Ok(seq![c] + rest),
            },
        }
    }
}

/// What a whole path text parses to: text before the first code
/// character may hold only separators, and the tokens decode left to
/// right with the pen starting at the origin.
pub open spec fn path_parse(s: Seq<char>) -> Result<Seq<CmdModel>, ParseError> {
    let lead = noncode_len(s) as int;
    if exists|i: int| 0 <= i < lead && !is_sep_char(s[i]) {
        Err(ParseError::InvalidCommandCode)
    } else {
        parse_tokens(token_split(s.skip(lead)), (0, 0))
    }
}

/// Whether every command of a sequence is well formed.
pub open spec fn seq_wf(m: Seq<CmdModel>) -> bool {
    forall|i: int| 0 <= i < m.len() ==> cmd_wf(#[trigger] m[i])
}

/// An ordered list of drawing commands; insertion order is drawing
/// order.
#[derive(Clone, Debug)]
pub struct CommandSequence {
    /// The commands, in drawing order.
    pub cmds: Vec<Command>,
}

impl View for CommandSequence {
    type V = Seq<CmdModel>;

    open spec fn view(&self) -> Seq<CmdModel> {
        self.cmds@.map_values(|c: Command| c@)
    }
}

impl CommandSequence {
    /// The number of commands.
    pub fn len(&self) -> (r: usize)
        ensures
            r == self@.len(),
    {
        self.cmds.len()
    }

    /// Parses a whole path text into a command sequence, or reports
    /// the first decode failure.
    #[verifier::loop_isolation(false)]
    pub fn parse(text: &str) -> (r: Result<CommandSequence, ParseError>)
        ensures
            ({
                let spec_r = path_parse(text@);
                match spec_r {
                    Ok(m) => r matches Ok(cs) && cs@ == m && seq_wf(m),
                    Err(e) => r matches Err(e2) && e2 == e,
                }
            }),
    {
        let cs = str_chars(text);
        let n = cs.len();
        let ghost s = cs@;
        let mut i: usize = 0;
        while i < n && !is_code(cs[i])
            invariant
                i <= n,
                forall|k: int| 0 <= k < i ==> !is_code_char(#[trigger] s[k]) && is_sep_char(s[k]),
            decreases n - i,
        {
            if !is_sep(cs[i]) {
                proof {
                    lemma_noncode_len_ge(s, i + 1);
                    assert(exists|q: int|
                        0 <= q < noncode_len(s) && !is_sep_char(#[trigger] s[q])) by {
                        assert(0 <= i < noncode_len(s) && !is_sep_char(s[i as int]));
                    }
                }
                return Err(ParseError::InvalidCommandCode);
            }
            i = i + 1;
        }
        proof {
            if i < n {
                lemma_noncode_len_at(s, i as int);
            } else {
                lemma_noncode_len_at(s, s.len() as int);
            }
        }
        let ghost body = s.skip(noncode_len(s) as int);
        let mut out: Vec<Command> = Vec::new();
        let mut pen = Vec2::origin();
        let mut j = i;
        proof {
            assert(out@.map_values(|c: Command| c@) =~= Seq::<CmdModel>::empty());
            let rest0 = parse_tokens(token_split(s.skip(i as int)), (0, 0));
            if rest0 is Ok {
                assert(Seq::<CmdModel>::empty() + rest0->Ok_0 =~= rest0->Ok_0);
            }
        }
        while j < n
            invariant
                i <= j <= n,
                j < n ==> is_code_char(s[j as int]),
                pair_in_range(pen@),
                seq_wf(out@.map_values(|c: Command| c@)),
                ({
                    let whole = parse_tokens(token_split(body), (0, 0));
                    let rest = parse_tokens(
                        token_split(s.skip(j as int)),
                        pen@,
                    );
                    whole == match rest {
                        Err(e) => Err::<Seq<CmdModel>, ParseError>(e),
                        Ok(r2) => Ok(out@.map_values(|c: Command| c@) + r2),
                    }
                }),
            decreases n - j,
        {
            let mut k = j + 1;
            while k < n && !is_code(cs[k])
                invariant
                    j < k <= n,
                    forall|t: int| j < t < k ==> !is_code_char(#[trigger] s[t]),
                decreases n - k,
            {
                k = k + 1;
            }
            let ghost u = s.skip(j as int);
            proof {
                assert forall|t: int| 0 <= t < k - j - 1 implies !is_code_char(
                    #[trigger] u.skip(1)[t],
                ) by {
                    assert(u.skip(1)[t] == s[j + 1 + t]);
                }
                if k < n {
                    assert(u.skip(1)[k - j - 1] == s[k as int]);
                }
                lemma_noncode_len_at(u.skip(1), k - j - 1);
                assert(u.take(k - j) =~= s.subrange(j as int, k as int));
                assert(u.skip(k - j) =~= s.skip(k as int));
                assert(token_split(u) == seq![s.subrange(j as int, k as int)] + token_split(
                    s.skip(k as int),
                ));
                assert(s.subrange(j as int, k as int) == cs@.subrange(j as int, k as int));
            }
            match Command::parse_in(&cs, j, k, pen) {
                Err(e) => {
                    proof {
                        let ts = token_split(u);
                        assert(ts[0] == s.subrange(j as int, k as int));
                    }
                    return Err(e);
                },
                Ok(c) => {
                    proof {
                        let ts = token_split(u);
                        assert(ts[0] == s.subrange(j as int, k as int));
                        assert(ts.skip(1) =~= token_split(s.skip(k as int)));
                    }
                    let new_pen = c.next_pen(pen);
                    let ghost old_out = out@;
                    out.push(c);
                    proof {
                        assert(out@.map_values(|q: Command| q@) =~= old_out.map_values(
                            |q: Command| q@,
                        ).push(c@));
                        let rest2 = parse_tokens(
                            token_split(s.skip(k as int)),
                            new_pen@,
                        );
                        if rest2 is Ok {
                            let r2 = rest2->Ok_0;
                            assert(old_out.map_values(|q: Command| q@) + (seq![c@] + r2)
                                =~= out@.map_values(|q: Command| q@) + r2);
                        }
                    }
                    pen = new_pen;
                    j = k;
                },
            }
        }
        proof {
            assert(s.skip(n as int) =~= Seq::<char>::empty());
            assert(token_split(Seq::<char>::empty()) =~= Seq::<Seq<char>>::empty());
            assert(out@.map_values(|c: Command| c@) + Seq::<CmdModel>::empty() =~= out@.map_values(
                |c: Command| c@,
            ));
        }
        Ok(CommandSequence { cmds: out })
    }

    /// The componentwise least and greatest coordinate over every
    /// argument of every command, or `None` where no command carries
    /// a coordinate.
    #[verifier::loop_isolation(false)]
    pub fn bounds(&self) -> (r: Option<Rect>)
        ensures
            ({
                let pts = all_coords(self@);
                match r {
                    None => pts.len() == 0,
                    Some(rect) => pts.len() > 0 && rect.tl@ == (min_fst(pts), min_snd(pts))
                        && rect.br@ == (max_fst(pts), max_snd(pts)),
                }
            }),
    {
        let mut have = false;
        let mut minx: i64 = 0;
        let mut miny: i64 = 0;
        let mut maxx: i64 = 0;
        let mut maxy: i64 = 0;
        let n = self.cmds.len();
        let mut ci: usize = 0;
        while ci < n
            invariant
                ci <= n,
                ({
                    let pts = all_coords(self@.take(ci as int));
                    if have {
                        pts.len() > 0 && minx == min_fst(pts) && miny == min_snd(pts) && maxx
                            == max_fst(pts) && maxy == max_snd(pts)
                    } else {
                        pts.len() == 0
                    }
                }),
            decreases n - ci,
        {
            let m = self.cmds[ci].args.len();
            let mut ai: usize = 0;
            proof {
                assert(self@[ci as int].args.take(0) =~= Seq::<(int, int)>::empty());
                assert(all_coords(self@.take(ci as int)) + Seq::<(int, int)>::empty()
                    =~= all_coords(self@.take(ci as int)));
            }
            while ai < m
                invariant
                    ai <= m,
                    m == self@[ci as int].args.len(),
                    ({
                        let pts = all_coords(self@.take(ci as int)) + self@[ci as int].args.take(
                            ai as int,
                        );
                        if have {
                            pts.len() > 0 && minx == min_fst(pts) && miny == min_snd(pts) && maxx
                                == max_fst(pts) && maxy == max_snd(pts)
                        } else {
                            pts.len() == 0
                        }
                    }),
                decreases m - ai,
            {
                let p = self.cmds[ci].args[ai];
                let ghost pts = all_coords(self@.take(ci as int)) + self@[ci as int].args.take(
                    ai as int,
                );
                proof {
                    assert(self@[ci as int].args[ai as int] == p@);
                    assert(self@[ci as int].args.take(ai + 1) =~= self@[ci as int].args.take(
                        ai as int,
                    ).push(p@));
                    assert(all_coords(self@.take(ci as int)) + self@[ci as int].args.take(ai + 1)
                        =~= pts.push(p@));
                    assert(pts.push(p@).drop_last() =~= pts);
                    assert(pts.push(p@).last() == p@);
                }
                if !have {
                    have = true;
                    minx = p.x;
                    miny = p.y;
                    maxx = p.x;
                    maxy = p.y;
                    proof {
                        assert(pts.push(p@).len() == 1);
                    }
                } else {
                    if p.x < minx {
                        minx = p.x;
                    }
                    if p.y < miny {
                        miny = p.y;
                    }
                    if p.x > maxx {
                        maxx = p.x;
                    }
                    if p.y > maxy {
                        maxy = p.y;
                    }
                }
                ai = ai + 1;
            }
            proof {
                assert(self@[ci as int].args.take(m as int) =~= self@[ci as int].args);
                assert(self@.take(ci + 1) =~= self@.take(ci as int).push(self@[ci as int]));
                lemma_all_coords_push(self@.take(ci as int), self@[ci as int]);
            }
            ci = ci + 1;
        }
        proof {
            assert(self@.take(n as int) =~= self@);
        }
        if have {
            Some(Rect::new(Vec2::new(minx, miny), Vec2::new(maxx, maxy)))
        } else {
            None
        }
    }

    /// A copy of the sequence with every coordinate shifted by `t`.
    #[verifier::loop_isolation(false)]
    pub fn translate(&self, t: Vec2) -> (r: CommandSequence)
        requires
            seq_wf(self@),
            pair_in_range(t@),
        ensures
            r@ == seq_translate(self@, t@),
    {
        let n = self.cmds.len();
        let mut out: Vec<Command> = Vec::new();
        let mut i: usize = 0;
        while i < n
            invariant
                i <= n,
                out@.map_values(|c: Command| c@) =~= seq_translate(self@, t@).take(i as int),
            decreases n - i,
        {
            proof {
                assert(cmd_wf(self@[i as int]));
            }
            let c = self.cmds[i].translate(t);
            let ghost old_out = out@;
            out.push(c);
            proof {
                assert(out@.map_values(|q: Command| q@) =~= old_out.map_values(
                    |q: Command| q@,
                ).push(c@));
                assert(seq_translate(self@, t@).take(i + 1) =~= seq_translate(
                    self@,
                    t@,
                ).take(i as int).push(seq_translate(self@, t@)[i as int]));
            }
            i = i + 1;
        }
        proof {
            assert(seq_translate(self@, t@).take(n as int) =~= seq_translate(self@, t@));
        }
        CommandSequence { cmds: out }
    }

    /// A copy of the sequence translated so its bounds are centered on
    /// the origin; a sequence without coordinates is returned
    /// unchanged.
    pub fn normalize(&self) -> (r: CommandSequence)
        requires
            seq_wf(self@),
        ensures
            r@ == normalize_spec(self@),
            seq_wf(r@),
    {
        match self.bounds() {
            None => {
                let r = self.translate(Vec2::origin());
                proof {
                    lemma_translate_zero(self@);
                }
                r
            },
            Some(rect) => {
                let ghost pts = all_coords(self@);
                proof {
                    lemma_all_coords_wf(self@);
                    lemma_bounds_tight(pts);
                    let w1 = choose|i: int| 0 <= i < pts.len() && (#[trigger] pts[i]).0 == min_fst(
                        pts,
                    );
                    assert(pair_in_range(pts[w1]));
                    let w2 = choose|i: int| 0 <= i < pts.len() && (#[trigger] pts[i]).0 == max_fst(
                        pts,
                    );
                    assert(pair_in_range(pts[w2]));
                    let w3 = choose|i: int| 0 <= i < pts.len() && (#[trigger] pts[i]).1 == min_snd(
                        pts,
                    );
                    assert(pair_in_range(pts[w3]));
                    let w4 = choose|i: int| 0 <= i < pts.len() && (#[trigger] pts[i]).1 == max_snd(
                        pts,
                    );
                    assert(pair_in_range(pts[w4]));
                    assert(min_fst(pts) <= pts[w2].0);
                    assert(min_snd(pts) <= pts[w4].1);
                }
                let wx = rect.br.x - rect.tl.x;
                let wy = rect.br.y - rect.tl.y;
                let hx = ((wx as u64) / 2) as i64;
                let hy = ((wy as u64) / 2) as i64;
                proof {
                    assert(hx == (max_fst(pts) - min_fst(pts)) / 2);
                    assert(hy == (max_snd(pts) - min_snd(pts)) / 2);
                    assert(hx <= max_fst(pts) - min_fst(pts));
                    assert(hy <= max_snd(pts) - min_snd(pts));
                }
                let tx = 0 - rect.tl.x - hx;
                let ty = 0 - rect.tl.y - hy;
                let t = Vec2 { x: tx, y: ty };
                proof {
                    assert(t@ == normalize_offset(self@));
                    assert(pair_in_range(t@));
                }
                let r = self.translate(t);
                proof {
                    assert(r@ == normalize_spec(self@));
                    assert forall|i: int| 0 <= i < r@.len() implies cmd_wf(#[trigger] r@[i]) by {
                        assert(r@[i] == translate_cmd(self@[i], t@));
                        assert(cmd_wf(self@[i]));
                        assert forall|j: int| 0 <= j < r@[i].args.len() implies pair_in_range(
                            #[trigger] r@[i].args[j],
                        ) by {
                            lemma_all_coords_mem(self@, i, j);
                            let k = choose|k: int|
                                0 <= k < all_coords(self@).len() && #[trigger] all_coords(self@)[k]
                                    == self@[i].args[j];
                            assert(min_fst(pts) <= pts[k].0 <= max_fst(pts));
                            assert(min_snd(pts) <= pts[k].1 <= max_snd(pts));
                            assert(r@[i].args[j] == (self@[i].args[j].0 + t@.0, self@[i].args[j].1
                                + t@.1));
                        }
                    }
                }
                r
            },
        }
    }
}

/// Every coordinate argument of every command, in order.
pub open spec fn all_coords(m: Seq<CmdModel>) -> Seq<(int, int)>
    decreases m.len(),
{
    if m.len() == 0 {
        Seq::empty()
    } else {
        m[0].args + all_coords(m.skip(1))
    }
}

/// Appending a command appends its coordinates.
pub proof fn lemma_all_coords_push(m: Seq<CmdModel>, c: CmdModel)
    ensures
        all_coords(m.push(c)) == all_coords(m) + c.args,
    decreases m.len(),
{
    if m.len() == 0 {
        assert(m.push(c)[0] == c);
        assert(m.push(c).skip(1) =~= Seq::<CmdModel>::empty());
        assert(all_coords(m.push(c)) == c.args + all_coords(Seq::<CmdModel>::empty()));
        assert(all_coords(Seq::<CmdModel>::empty()) =~= Seq::<(int, int)>::empty());
        assert(all_coords(m.push(c)) =~= all_coords(m) + c.args);
    } else {
        assert(m.push(c)[0] == m[0]);
        assert(m.push(c).skip(1) =~= m.skip(1).push(c));
        lemma_all_coords_push(m.skip(1), c);
        assert(all_coords(m.push(c)) == m[0].args + all_coords(m.skip(1).push(c)));
        assert(m[0].args + (all_coords(m.skip(1)) + c.args) =~= (m[0].args + all_coords(m.skip(1)))
            + c.args);
        assert(all_coords(m.push(c)) =~= all_coords(m) + c.args);
    }
}

/// The least first component; zero for an empty sequence.
pub open spec fn min_fst(p: Seq<(int, int)>) -> int
    decreases p.len(),
{
    if p.len() <= 1 {
        if p.len() == 1 {
            p[0].0
        } else {
            0
        }
    } else {
        let m = min_fst(p.drop_last());
        if p.last().0 < m {
            p.last().0
        } else {
            m
        }
    }
}

/// The least second component; zero for an empty sequence.
pub open spec fn min_snd(p: Seq<(int, int)>) -> int
    decreases p.len(),
{
    if p.len() <= 1 {
        if p.len() == 1 {
            p[0].1
        } else {
            0
        }
    } else {
        let m = min_snd(p.drop_last());
        if p.last().1 < m {
            p.last().1
        } else {
            m
        }
    }
}

/// The greatest first component; zero for an empty sequence.
pub open spec fn max_fst(p: Seq<(int, int)>) -> int
    decreases p.len(),
{
    if p.len() <= 1 {
        if p.len() == 1 {
            p[0].0
        } else {
            0
        }
    } else {
        let m = max_fst(p.drop_last());
        if p.last().0 > m {
            p.last().0
        } else {
            m
        }
    }
}

/// The greatest second component; zero for an empty sequence.
pub open spec fn max_snd(p: Seq<(int, int)>) -> int
    decreases p.len(),
{
    if p.len() <= 1 {
        if p.len() == 1 {
            p[0].1
        } else {
            0
        }
    } else {
        let m = max_snd(p.drop_last());
        if p.last().1 > m {
            p.last().1
        } else {
            m
        }
    }
}

/// The computed bounds enclose every coordinate, and each of the four
/// bounds is achieved by some coordinate: the rectangle is the
/// tightest axis-aligned box around the sequence.
pub proof fn lemma_bounds_tight(p: Seq<(int, int)>)
    requires
        p.len() > 0,
    ensures
        forall|i: int|
            0 <= i < p.len() ==> min_fst(p) <= (#[trigger] p[i]).0 <= max_fst(p) && min_snd(p)
                <= p[i].1 <= max_snd(p),
        exists|i: int| 0 <= i < p.len() && (#[trigger] p[i]).0 == min_fst(p),
        exists|i: int| 0 <= i < p.len() && (#[trigger] p[i]).0 == max_fst(p),
        exists|i: int| 0 <= i < p.len() && (#[trigger] p[i]).1 == min_snd(p),
        exists|i: int| 0 <= i < p.len() && (#[trigger] p[i]).1 == max_snd(p),
    decreases p.len(),
{
    if p.len() == 1 {
        assert(p[0].0 == min_fst(p));
        assert(p[0].0 == max_fst(p));
        assert(p[0].1 == min_snd(p));
        assert(p[0].1 == max_snd(p));
    } else {
        let d = p.drop_last();
        lemma_bounds_tight(d);
        assert forall|i: int|
            0 <= i < p.len() implies min_fst(p) <= (#[trigger] p[i]).0 <= max_fst(p) && min_snd(p)
            <= p[i].1 <= max_snd(p) by {
            if i < p.len() - 1 {
                assert(p[i] == d[i]);
            } else {
                assert(p[i] == p.last());
            }
        }
        let w1 = choose|i: int| 0 <= i < d.len() && (#[trigger] d[i]).0 == min_fst(d);
        let w2 = choose|i: int| 0 <= i < d.len() && (#[trigger] d[i]).0 == max_fst(d);
        let w3 = choose|i: int| 0 <= i < d.len() && (#[trigger] d[i]).1 == min_snd(d);
        let w4 = choose|i: int| 0 <= i < d.len() && (#[trigger] d[i]).1 == max_snd(d);
        assert(exists|i: int| 0 <= i < p.len() && (#[trigger] p[i]).0 == min_fst(p)) by {
            if p.last().0 < min_fst(d) {
                assert(p[p.len() - 1].0 == min_fst(p));
            } else {
                assert(p[w1].0 == min_fst(p));
            }
        }
        assert(exists|i: int| 0 <= i < p.len() && (#[trigger] p[i]).0 == max_fst(p)) by {
            if p.last().0 > max_fst(d) {
                assert(p[p.len() - 1].0 == max_fst(p));
            } else {
                assert(p[w2].0 == max_fst(p));
            }
        }
        assert(exists|i: int| 0 <= i < p.len() && (#[trigger] p[i]).1 == min_snd(p)) by {
            if p.last().1 < min_snd(d) {
                assert(p[p.len() - 1].1 == min_snd(p));
            } else {
                assert(p[w3].1 == min_snd(p));
            }
        }
        assert(exists|i: int| 0 <= i < p.len() && (#[trigger] p[i]).1 == max_snd(p)) by {
            if p.last().1 > max_snd(d) {
                assert(p[p.len() - 1].1 == max_snd(p));
            } else {
                assert(p[w4].1 == max_snd(p));
            }
        }
    }
}

/// A sequence with every command shifted by an offset.
pub open spec fn seq_translate(m: Seq<CmdModel>, t: (int, int)) -> Seq<CmdModel> {
    m.map_values(|c: CmdModel| translate_cmd(c, t))
}

/// The offset that centers the bounds of a sequence on the origin.
pub open spec fn normalize_offset(m: Seq<CmdModel>) -> (int, int) {
    let pts = all_coords(m);
    (
        0 - min_fst(pts) - (max_fst(pts) - min_fst(pts)) / 2,
        0 - min_snd(pts) - (max_snd(pts) - min_snd(pts)) / 2,
    )
}

/// A sequence translated so its bounds are centered on the origin;
/// one without coordinates is returned unchanged.
pub open spec fn normalize_spec(m: Seq<CmdModel>) -> Seq<CmdModel> {
    if all_coords(m).len() == 0 {
        m
    } else {
        seq_translate(m, normalize_offset(m))
    }
}

/// A coordinate pair sequence shifted by an offset.
pub open spec fn shift_pts(p: Seq<(int, int)>, t: (int, int)) -> Seq<(int, int)> {
    p.map_values(|q: (int, int)| (q.0 + t.0, q.1 + t.1))
}

/// Translating a sequence shifts each of its coordinates.
pub proof fn lemma_translate_coords(m: Seq<CmdModel>, t: (int, int))
    ensures
        all_coords(seq_translate(m, t)) == shift_pts(all_coords(m), t),
    decreases m.len(),
{
    if m.len() == 0 {
        assert(all_coords(seq_translate(m, t)) =~= shift_pts(all_coords(m), t));
    } else {
        lemma_translate_coords(m.skip(1), t);
        let st = seq_translate(m, t);
        assert(st[0] == translate_cmd(m[0], t));
        assert(st.skip(1) =~= seq_translate(m.skip(1), t));
        assert(all_coords(st) == st[0].args + all_coords(st.skip(1)));
        assert(st[0].args + shift_pts(all_coords(m.skip(1)), t) =~= shift_pts(
            m[0].args + all_coords(m.skip(1)),
            t,
        ));
        assert(all_coords(st) =~= shift_pts(all_coords(m), t));
    }
}

/// Shifting moves each of the four bounds by the offset.
pub proof fn lemma_bounds_shift(p: Seq<(int, int)>, t: (int, int))
    requires
        p.len() > 0,
    ensures
        min_fst(shift_pts(p, t)) == min_fst(p) + t.0,
        max_fst(shift_pts(p, t)) == max_fst(p) + t.0,
        min_snd(shift_pts(p, t)) == min_snd(p) + t.1,
        max_snd(shift_pts(p, t)) == max_snd(p) + t.1,
    decreases p.len(),
{
    let sp = shift_pts(p, t);
    if p.len() == 1 {
        assert(sp[0] == (p[0].0 + t.0, p[0].1 + t.1));
    } else {
        lemma_bounds_shift(p.drop_last(), t);
        assert(sp.drop_last() =~= shift_pts(p.drop_last(), t));
        assert(sp.last() == (p.last().0 + t.0, p.last().1 + t.1));
    }
}

/// Translating by the zero offset changes nothing.
pub proof fn lemma_translate_zero(m: Seq<CmdModel>)
    ensures
        seq_translate(m, (0, 0)) == m,
{
    assert forall|i: int| 0 <= i < m.len() implies seq_translate(m, (0, 0))[i] == m[i] by {
        assert(translate_cmd(m[i], (0, 0)).args =~= m[i].args);
    }
    assert(seq_translate(m, (0, 0)) =~= m);
}

/// Every coordinate of a well-formed sequence is in range.
pub proof fn lemma_all_coords_wf(m: Seq<CmdModel>)
    requires
        seq_wf(m),
    ensures
        forall|k: int|
            0 <= k < all_coords(m).len() ==> pair_in_range(#[trigger] all_coords(m)[k]),
    decreases m.len(),
{
    if m.len() > 0 {
        assert(seq_wf(m.skip(1))) by {
            assert(forall|i: int| 0 <= i < m.skip(1).len() ==> m.skip(1)[i] == #[trigger] m[i + 1]);
        }
        lemma_all_coords_wf(m.skip(1));
        assert forall|k: int| 0 <= k < all_coords(m).len() implies pair_in_range(
            #[trigger] all_coords(m)[k],
        ) by {
            assert(cmd_wf(m[0]));
            if k < m[0].args.len() {
                assert(all_coords(m)[k] == m[0].args[k]);
            } else {
                assert(all_coords(m)[k] == all_coords(m.skip(1))[k - m[0].args.len()]);
            }
        }
    }
}

/// Each coordinate argument of each command appears among the
/// sequence's coordinates.
pub proof fn lemma_all_coords_mem(m: Seq<CmdModel>, i: int, j: int)
    requires
        0 <= i < m.len(),
        0 <= j < m[i].args.len(),
    ensures
        exists|k: int|
            0 <= k < all_coords(m).len() && #[trigger] all_coords(m)[k] == m[i].args[j],
    decreases m.len(),
{
    if i == 0 {
        assert(all_coords(m)[j] == m[0].args[j]);
    } else {
        lemma_all_coords_mem(m.skip(1), i - 1, j);
        let k = choose|k: int|
            0 <= k < all_coords(m.skip(1)).len() && #[trigger] all_coords(m.skip(1))[k] == m.skip(
                1,
            )[i - 1].args[j];
        assert(all_coords(m)[m[0].args.len() + k] == all_coords(m.skip(1))[k]);
    }
}

/// Normalization is idempotent: normalizing a normalized sequence
/// changes nothing, and the bounds of a normalized sequence are
/// symmetric about the origin to within one micro-unit on each axis.
pub proof fn lemma_normalize_idempotent(m: Seq<CmdModel>)
    ensures
        normalize_spec(normalize_spec(m)) == normalize_spec(m),
        all_coords(normalize_spec(m)).len() > 0 ==> {
            let pts = all_coords(normalize_spec(m));
            0 <= min_fst(pts) + max_fst(pts) <= 1 && 0 <= min_snd(pts) + max_snd(pts) <= 1
        },
{
    let pts = all_coords(m);
    if pts.len() == 0 {
        assert(normalize_spec(m) == m);
    } else {
        let t = normalize_offset(m);
        let norm = seq_translate(m, t);
        lemma_translate_coords(m, t);
        lemma_bounds_shift(pts, t);
        lemma_bounds_tight(pts);
        let pts2 = all_coords(norm);
        assert(pts2.len() == pts.len());
        let wx = max_fst(pts) - min_fst(pts);
        let wy = max_snd(pts) - min_snd(pts);
        assert(wx >= 0 && wy >= 0) by {
            assert(min_fst(pts) <= pts[0].0 <= max_fst(pts));
            assert(min_snd(pts) <= pts[0].1 <= max_snd(pts));
        }
        assert(min_fst(pts2) == 0 - (wx / 2));
        assert(max_fst(pts2) == wx - wx / 2);
        assert(0 <= min_fst(pts2) + max_fst(pts2) <= 1);
        assert(0 <= min_snd(pts2) + max_snd(pts2) <= 1);
        assert(max_fst(pts2) - min_fst(pts2) == wx);
        assert(normalize_offset(norm) == (0int, 0int));
        lemma_translate_zero(norm);
        assert(normalize_spec(norm) == norm);
    }
}

/// A prefix of non-code characters keeps `noncode_len` at least as
/// long.
pub proof fn lemma_noncode_len_ge(s: Seq<char>, j: int)
    requires
        0 <= j <= s.len(),
        forall|i: int| 0 <= i < j ==> !is_code_char(#[trigger] s[i]),
    ensures
        noncode_len(s) >= j,
    decreases s.len(),
{
    if j > 0 {
        assert forall|i: int| 0 <= i < j - 1 implies !is_code_char(#[trigger] s.skip(1)[i]) by {
            assert(s.skip(1)[i] == s[i + 1]);
        }
        lemma_noncode_len_ge(s.skip(1), j - 1);
    }
}

} // verus!
