//! Emission: walking a command sequence into drawing instructions.
//!
//! The walk starts with the pen at the origin. Each command yields one
//! instruction; horizontal and vertical lines take their missing axis
//! from the pen, a close or unsupported command resets the pen to the
//! origin. An instruction serializes to one text line with every
//! number written to six decimal places; an unsupported code yields a
//! comment-style placeholder naming it.

use crate::command::{cmd_wf, pen_after, CmdModel, Command, Kind};
use crate::geom::{pair_in_range, Vec2};
use crate::num::{fmt_fixed, format_fixed, in_coord_range};
use crate::path::{seq_wf, CommandSequence};
use crate::text::push_char;
use vstd::prelude::*;

verus! {

/// One drawing instruction for the target surface.
#[derive(Clone, Copy, PartialEq, Eq, Structural, Debug)]
pub enum Instruction {
    /// Move the pen without drawing.
    MoveTo(Vec2),
    /// Draw a straight line to a point.
    LineTo(Vec2),
    /// Draw a cubic curve through three control points.
    CurveTo(Vec2, Vec2, Vec2),
    /// Close the current subpath.
    ClosePath,
    /// A placeholder for a recognized but unsupported command code.
    Placeholder(char),
}

/// The mathematical shape of an instruction.
pub ghost enum InstrModel {
    MoveTo((int, int)),
    LineTo((int, int)),
    CurveTo((int, int), (int, int), (int, int)),
    ClosePath,
    Placeholder(char),
}

impl View for Instruction {
    type V = InstrModel;

    open spec fn view(&self) -> InstrModel {
        match self {
            Instruction::MoveTo(p) => InstrModel::MoveTo(p@),
            Instruction::LineTo(p) => InstrModel::LineTo(p@),
            Instruction::CurveTo(p1, p2, p3) => InstrModel::CurveTo(p1@, p2@, p3@),
            Instruction::ClosePath => InstrModel::ClosePath,
            Instruction::Placeholder(c) => InstrModel::Placeholder(*c),
        }
    }
}

/// The instruction a command yields, given the pen position before it.
pub open spec fn instr_of(c: CmdModel, pen: (int, int)) -> InstrModel {
    match c.kind {
        Kind::MoveTo => InstrModel::MoveTo(c.args[0]),
        Kind::LineTo => InstrModel::LineTo(c.args[0]),
        Kind::HorizontalLineTo => InstrModel::LineTo((c.args[0].0, pen.1)),
        Kind::VerticalLineTo => InstrModel::LineTo((pen.0, c.args[0].1)),
        Kind::CubicCurveTo => InstrModel::CurveTo(c.args[0], c.args[1], c.args[2]),
        Kind::ClosePath => InstrModel::ClosePath,
        Kind::Unsupported => InstrModel::Placeholder(c.code),
    }
}

/// The instructions a sequence yields, walking it in order with the
/// pen threaded through.
pub open spec fn emit_from(m: Seq<CmdModel>, pen: (int, int)) -> Seq<InstrModel>
    decreases m.len(),
{
    if m.len() == 0 {
        Seq::empty()
    } else {
        seq![instr_of(m[0], pen)] + emit_from(m.skip(1), pen_after(m[0], pen))
    }
}

/// Whether every coordinate of an instruction is in range.
pub open spec fn instr_in_range(i: InstrModel) -> bool {
    match i {
        InstrModel::MoveTo(p) => pair_in_range(p),
        InstrModel::LineTo(p) => pair_in_range(p),
        InstrModel::CurveTo(p1, p2, p3) => pair_in_range(p1) && pair_in_range(p2) && pair_in_range(
            p3,
        ),
        InstrModel::ClosePath => true,
        InstrModel::Placeholder(_) => true,
    }
}

/// A well-formed command and an in-range pen yield an in-range
/// instruction.
pub proof fn lemma_instr_of_range(c: CmdModel, pen: (int, int))
    requires
        cmd_wf(c),
        pair_in_range(pen),
    ensures
        instr_in_range(instr_of(c, pen)),
{
    match c.kind {
        Kind::MoveTo | Kind::LineTo | Kind::HorizontalLineTo | Kind::VerticalLineTo => {
            assert(pair_in_range(c.args[0]));
        },
        Kind::CubicCurveTo => {
            assert(pair_in_range(c.args[0]));
            assert(pair_in_range(c.args[1]));
            assert(pair_in_range(c.args[2]));
        },
        Kind::ClosePath | Kind::Unsupported => {},
    }
}

/// The text line of an instruction: the operation name, its
/// coordinates to six decimal places, or a comment-style placeholder
/// naming an unsupported code.
pub open spec fn line_of(i: InstrModel) -> Seq<char> {
    match i {
        InstrModel::MoveTo(p) => "move_to("@ + fmt_fixed(p.0) + ", "@ + fmt_fixed(p.1) + ")"@,
        InstrModel::LineTo(p) => "line_to("@ + fmt_fixed(p.0) + ", "@ + fmt_fixed(p.1) + ")"@,
        InstrModel::CurveTo(p1, p2, p3) => "curve_to("@ + fmt_fixed(p1.0) + ", "@ + fmt_fixed(p1.1)
            + ", "@ + fmt_fixed(p2.0) + ", "@ + fmt_fixed(p2.1) + ", "@ + fmt_fixed(p3.0) + ", "@
            + fmt_fixed(p3.1) + ")"@,
        InstrModel::ClosePath => "close_path()"@,
        InstrModel::Placeholder(c) => "# unsupported "@ + seq![c],
    }
}

impl Instruction {
    /// The instruction's text line.
    pub fn to_line(&self) -> (r: String)
        requires
            instr_in_range(self@),
        ensures
            r@ == line_of(self@),
    {
        match self {
            Instruction::MoveTo(p) => {
                let mut s = String::new();
                s.append("move_to(");
                let fx = format_fixed(p.x);
                s.append(fx.as_str());
                s.append(", ");
                let fy = format_fixed(p.y);
                s.append(fy.as_str());
                s.append(")");
                proof {
                    assert(s@ =~= line_of(self@));
                }
                s
            },
            Instruction::LineTo(p) => {
                let mut s = String::new();
                s.append("line_to(");
                let fx = format_fixed(p.x);
                s.append(fx.as_str());
                s.append(", ");
                let fy = format_fixed(p.y);
                s.append(fy.as_str());
                s.append(")");
                proof {
                    assert(s@ =~= line_of(self@));
                }
                s
            },
            Instruction::CurveTo(p1, p2, p3) => {
                let mut s = String::new();
                s.append("curve_to(");
                let f1 = format_fixed(p1.x);
                s.append(f1.as_str());
                s.append(", ");
                let f2 = format_fixed(p1.y);
                s.append(f2.as_str());
                s.append(", ");
                let f3 = format_fixed(p2.x);
                s.append(f3.as_str());
                s.append(", ");
                let f4 = format_fixed(p2.y);
                s.append(f4.as_str());
                s.append(", ");
                let f5 = format_fixed(p3.x);
                s.append(f5.as_str());
                s.append(", ");
                let f6 = format_fixed(p3.y);
                s.append(f6.as_str());
                s.append(")");
                proof {
                    assert(s@ =~= line_of(self@));
                }
                s
            },
            Instruction::ClosePath => {
                let mut s = String::new();
                s.append("close_path()");
                proof {
                    assert(s@ =~= line_of(self@));
                }
                s
            },
            Instruction::Placeholder(c) => {
                let mut s = String::new();
                s.append("# unsupported ");
                push_char(&mut s, *c);
                proof {
                    assert(s@ =~= line_of(self@));
                }
                s
            },
        }
    }
}

impl Command {
    /// The instruction this command yields, given the pen position
    /// before it.
    pub fn instruction(&self, pen: Vec2) -> (r: Instruction)
        requires
            cmd_wf(self@),
        ensures
            r@ == instr_of(self@, pen@),
    {
        match self.kind {
            Kind::MoveTo => Instruction::MoveTo(self.args[0]),
            Kind::LineTo => Instruction::LineTo(self.args[0]),
            Kind::HorizontalLineTo => Instruction::LineTo(
                Vec2 { x: self.args[0].x, y: pen.y },
            ),
            Kind::VerticalLineTo => Instruction::LineTo(Vec2 { x: pen.x, y: self.args[0].y }),
            Kind::CubicCurveTo => Instruction::CurveTo(self.args[0], self.args[1], self.args[2]),
            Kind::ClosePath => Instruction::ClosePath,
            Kind::Unsupported => Instruction::Placeholder(self.code),
        }
    }

    /// The instruction's text line for this command, given the pen
    /// position before it.
    pub fn serialize(&self, pen: Vec2) -> (r: String)
        requires
            cmd_wf(self@),
            pair_in_range(pen@),
        ensures
            r@ == line_of(instr_of(self@, pen@)),
    {
        proof {
            lemma_instr_of_range(self@, pen@);
        }
        let ins = self.instruction(pen);
        ins.to_line()
    }
}

impl CommandSequence {
    /// The drawing instructions of the whole sequence, in order, with
    /// the pen starting at the origin.
    #[verifier::loop_isolation(false)]
    pub fn emit(&self) -> (r: Vec<Instruction>)
        requires
            seq_wf(self@),
        ensures
            r@.map_values(|i: Instruction| i@) == emit_from(self@, (0, 0)),
    {
        let n = self.cmds.len();
        let mut out: Vec<Instruction> = Vec::new();
        let mut pen = Vec2::origin();
        let mut i: usize = 0;
        proof {
            assert(out@.map_values(|q: Instruction| q@) =~= Seq::<InstrModel>::empty());
            assert(self@.skip(0) =~= self@);
            assert(Seq::<InstrModel>::empty() + emit_from(self@, (0, 0)) =~= emit_from(
                self@,
                (0, 0),
            ));
        }
        while i < n
            invariant
                i <= n,
                pair_in_range(pen@),
                emit_from(self@, (0, 0)) =~= out@.map_values(|q: Instruction| q@) + emit_from(
                    self@.skip(i as int),
                    pen@,
                ),
            decreases n - i,
        {
            proof {
                assert(cmd_wf(self@[i as int]));
                assert(self@.skip(i as int)[0] == self@[i as int]);
                assert(self@.skip(i as int).skip(1) =~= self@.skip(i + 1));
            }
            let c = &self.cmds[i];
            proof {
                assert(c@ == self@[i as int]);
            }
            let ins = c.instruction(pen);
            let new_pen = c.next_pen(pen);
            let ghost old_out = out@;
            out.push(ins);
            proof {
                assert(out@.map_values(|q: Instruction| q@) =~= old_out.map_values(
                    |q: Instruction| q@,
                ).push(ins@));
                assert(old_out.map_values(|q: Instruction| q@) + (seq![
                    instr_of(self@[i as int], pen@),
                ] + emit_from(self@.skip(i + 1), new_pen@)) =~= out@.map_values(
                    |q: Instruction| q@,
                ) + emit_from(self@.skip(i + 1), new_pen@));
            }
            pen = new_pen;
            i = i + 1;
        }
        proof {
            assert(self@.skip(n as int) =~= Seq::<CmdModel>::empty());
            assert(out@.map_values(|q: Instruction| q@) + Seq::<InstrModel>::empty()
                =~= out@.map_values(|q: Instruction| q@));
        }
        out
    }

    /// The text lines of the whole sequence's instructions, in order.
    #[verifier::loop_isolation(false)]
    pub fn serialize(&self) -> (r: Vec<String>)
        requires
            seq_wf(self@),
        ensures
            r@.len() == emit_from(self@, (0, 0)).len(),
            forall|i: int|
                0 <= i < r@.len() ==> (#[trigger] r@[i])@ == line_of(emit_from(self@, (0, 0))[i]),
    {
        let ins = self.emit();
        let ghost ems = emit_from(self@, (0, 0));
        let mut out: Vec<String> = Vec::new();
        let mut i: usize = 0;
        let n = ins.len();
        proof {
            assert(forall|k: int| 0 <= k < n ==> (#[trigger] ins@[k])@ == ems[k]);
        }
        while i < n
            invariant
                i <= n,
                out@.len() == i,
                forall|k: int| 0 <= k < i ==> (#[trigger] out@[k])@ == line_of(ems[k]),
            decreases n - i,
        {
            proof {
                let m = self@;
                lemma_emit_in_range(m, (0, 0), i as int);
            }
            let line = ins[i].to_line();
            out.push(line);
            i = i + 1;
        }
        out
    }
}

/// Round trip of emission for moves, lines and cubic curves: the
/// numerals written in such a command's serialized line denote exactly
/// the command's coordinates — formatting a coordinate at six decimal
/// places and parsing the numeral back gives the coordinate.
pub proof fn lemma_command_round_trip(c: CmdModel)
    requires
        cmd_wf(c),
        c.kind == Kind::MoveTo || c.kind == Kind::LineTo || c.kind == Kind::CubicCurveTo,
    ensures
        forall|i: int|
            0 <= i < c.args.len() ==> crate::num::num_value(
                fmt_fixed((#[trigger] c.args[i]).0),
            ) == Some(c.args[i].0) && crate::num::num_value(fmt_fixed(c.args[i].1)) == Some(
                c.args[i].1,
            ),
{
    assert forall|i: int|
        0 <= i < c.args.len() implies crate::num::num_value(fmt_fixed((#[trigger] c.args[i]).0))
        == Some(c.args[i].0) && crate::num::num_value(fmt_fixed(c.args[i].1)) == Some(
        c.args[i].1,
    ) by {
        assert(pair_in_range(c.args[i]));
        crate::num::lemma_fmt_fixed_parses(c.args[i].0);
        crate::num::lemma_fmt_fixed_parses(c.args[i].1);
    }
}

/// Every instruction emitted from a well-formed sequence with an
/// in-range pen has in-range coordinates.
pub proof fn lemma_emit_in_range(m: Seq<CmdModel>, pen: (int, int), i: int)
    requires
        seq_wf(m),
        pair_in_range(pen),
        0 <= i < emit_from(m, pen).len(),
    ensures
        instr_in_range(emit_from(m, pen)[i]),
    decreases m.len(),
{
    assert(cmd_wf(m[0]));
    let pen2 = pen_after(m[0], pen);
    assert(pair_in_range(pen2)) by {
        match m[0].kind {
            Kind::MoveTo | Kind::LineTo | Kind::CubicCurveTo => {
                assert(m[0].args.last() == m[0].args[m[0].args.len() - 1]);
            },
            _ => {},
        }
    }
    if i == 0 {
        lemma_instr_of_range(m[0], pen);
    } else {
        assert(seq_wf(m.skip(1))) by {
            assert(forall|k: int| 0 <= k < m.skip(1).len() ==> m.skip(1)[k] == #[trigger] m[k + 1]);
        }
        lemma_emit_in_range(m.skip(1), pen2, i - 1);
        assert(emit_from(m, pen)[i] == emit_from(m.skip(1), pen2)[i - 1]);
    }
}

} // verus!
