//! Day 6: a 1000 by 1000 grid of lights driven by turn on / turn off /
//! toggle instructions over rectangles.

use vstd::prelude::*;

verus! {

use vstd::string::StringSliceAdditionalSpecFns;
use crate::util::bytes::{contains_at, match_at, spec_lines, split_lines};
use crate::util::parse::{extract_unsigned, sat64, unsigned_tokens};

#[derive(Clone, Copy, Debug, PartialEq, Eq, Structural)]
pub enum Instruction {
    TurnOn,
    TurnOff,
    Toggle,
}

/// Which instruction a line starts with; anything else toggles.
pub open spec fn instr_of(l: Seq<u8>) -> Instruction {
    if contains_at(l, "turn on"@.map_values(|c: char| c as u8), 0) {
        Instruction::TurnOn
    } else if contains_at(l, "turn off"@.map_values(|c: char| c as u8), 0) {
        Instruction::TurnOff
    } else {
        Instruction::Toggle
    }
}

/// A line must carry exactly four coordinates, each on the grid.
pub open spec fn line_wf(l: Seq<u8>) -> bool {
    &&& unsigned_tokens(l).len() == 4
    &&& (forall|q: int| 0 <= q < 4 ==> #[trigger] unsigned_tokens(l)[q] <= 999)
}

pub open spec fn all_lines_wf(s: Seq<u8>) -> bool {
    forall|i: int| 0 <= i < spec_lines(s).len() ==> line_wf(#[trigger] spec_lines(s)[i])
}

/// Does `(x, y)` lie in the rectangle `[b0, b2] x [b1, b3]`?
pub open spec fn in_rect(b: [u32; 4], x: int, y: int) -> bool {
    b@[0] <= x <= b@[2] && b@[1] <= y <= b@[3]
}

/// The state of the light at `(x, y)` after the first `k` instructions.
pub open spec fn cell1(ins: Seq<(Instruction, [u32; 4])>, k: int, x: int, y: int) -> bool
    decreases k,
{
    if k <= 0 {
        false
    } else {
        let prev = cell1(ins, k - 1, x, y);
        if in_rect(ins[k - 1].1, x, y) {
            match ins[k - 1].0 {
                Instruction::TurnOn => true,
                Instruction::TurnOff => false,
                Instruction::Toggle => !prev,
            }
        } else {
            prev
        }
    }
}

/// The brightness of the light at `(x, y)` after the first `k`
/// instructions.
pub open spec fn cell2(ins: Seq<(Instruction, [u32; 4])>, k: int, x: int, y: int) -> nat
    decreases k,
{
    if k <= 0 {
        0
    } else {
        let prev = cell2(ins, k - 1, x, y);
        if in_rect(ins[k - 1].1, x, y) {
            match ins[k - 1].0 {
                Instruction::TurnOn => prev + 1,
                Instruction::TurnOff => if prev > 0 {
                    (prev - 1) as nat
                } else {
                    0
                },
                Instruction::Toggle => prev + 2,
            }
        } else {
            prev
        }
    }
}

/// Lit lights in row `y` among columns below `x`.
pub open spec fn row_count1(ins: Seq<(Instruction, [u32; 4])>, y: int, x: int) -> nat
    decreases x,
{
    if x <= 0 {
        0
    } else {
        row_count1(ins, y, x - 1) + (if cell1(ins, ins.len() as int, x - 1, y) {
            1nat
        } else {
            0nat
        })
    }
}

/// Lit lights in rows below `y`.
pub open spec fn total1(ins: Seq<(Instruction, [u32; 4])>, y: int) -> nat
    decreases y,
{
    if y <= 0 {
        0
    } else {
        total1(ins, y - 1) + row_count1(ins, y - 1, 1000)
    }
}

/// Total brightness in row `y` among columns below `x`.
pub open spec fn row_count2(ins: Seq<(Instruction, [u32; 4])>, y: int, x: int) -> nat
    decreases x,
{
    if x <= 0 {
        0
    } else {
        row_count2(ins, y, x - 1) + cell2(ins, ins.len() as int, x - 1, y)
    }
}

/// Total brightness in rows below `y`.
pub open spec fn total2(ins: Seq<(Instruction, [u32; 4])>, y: int) -> nat
    decreases y,
{
    if y <= 0 {
        0
    } else {
        total2(ins, y - 1) + row_count2(ins, y - 1, 1000)
    }
}

/// The instructions of the input, one per line. Nothing if a line does
/// not carry exactly four grid coordinates.
pub fn parse(input: &str) -> (r: Option<Vec<(Instruction, [u32; 4])>>)
    ensures
        ({
            let ls = spec_lines(input.spec_bytes());
            &&& (r matches Some(v) ==> {
                &&& all_lines_wf(input.spec_bytes())
                &&& v@.len() == ls.len()
                &&& (forall|i: int|
                    0 <= i < v@.len() ==> (#[trigger] v@[i]).0 == instr_of(ls[i]) && v@[i].1@
                        =~= seq![
                        unsigned_tokens(ls[i])[0] as u32,
                        unsigned_tokens(ls[i])[1] as u32,
                        unsigned_tokens(ls[i])[2] as u32,
                        unsigned_tokens(ls[i])[3] as u32,
                    ])
            })
            &&& (r matches None ==> !all_lines_wf(input.spec_bytes()))
        }),
{
    let lines = split_lines(input.as_bytes());
    let ghost ls = spec_lines(input.spec_bytes());
    let n = lines.len();
    let mut v: Vec<(Instruction, [u32; 4])> = Vec::new();
    let mut i: usize = 0;
    while i < n
        invariant
            ls == spec_lines(input.spec_bytes()),
            i <= n,
            n == lines@.len() == ls.len(),
            forall|q: int| 0 <= q < n ==> lines@[q]@ == #[trigger] ls[q],
            v@.len() == i,
            forall|q: int| 0 <= q < i ==> line_wf(#[trigger] ls[q]),
            forall|q: int|
                0 <= q < i ==> (#[trigger] v@[q]).0 == instr_of(ls[q]) && v@[q].1@ =~= seq![
                    unsigned_tokens(ls[q])[0] as u32,
                    unsigned_tokens(ls[q])[1] as u32,
                    unsigned_tokens(ls[q])[2] as u32,
                    unsigned_tokens(ls[q])[3] as u32,
                ],
        decreases n - i,
    {
        let line = &lines[i];
        let ins = if match_at(line.as_slice(), 0, "turn on".as_bytes()) {
            Instruction::TurnOn
        } else if match_at(line.as_slice(), 0, "turn off".as_bytes()) {
            Instruction::TurnOff
        } else {
            Instruction::Toggle
        };
        proof {
            broadcast use vstd::string::is_ascii_spec_bytes;

            reveal_strlit("turn on");
            reveal_strlit("turn off");
            assert(vstd::string::is_ascii("turn on"));
            assert(vstd::string::is_ascii("turn off"));
            assert("turn on".spec_bytes() =~= "turn on"@.map_values(|c: char| c as u8));
            assert("turn off".spec_bytes() =~= "turn off"@.map_values(|c: char| c as u8));
            assert(ins == instr_of(ls[i as int]));
        }
        let toks = extract_unsigned(line.as_slice());
        if toks.len() != 4 {
            proof {
                assert(!line_wf(spec_lines(input.spec_bytes())[i as int]));
            }
            return None;
        }
        if toks[0] > 999 || toks[1] > 999 || toks[2] > 999 || toks[3] > 999 {
            proof {
                let lt = unsigned_tokens(ls[i as int]);
                assert(toks@[0] == sat64(lt[0]) && toks@[1] == sat64(lt[1]) && toks@[2] == sat64(
                    lt[2],
                ) && toks@[3] == sat64(lt[3]));
                assert(!line_wf(spec_lines(input.spec_bytes())[i as int]));
            }
            return None;
        }
        proof {
            let lt = unsigned_tokens(ls[i as int]);
            assert(toks@[0] == sat64(lt[0]) && toks@[1] == sat64(lt[1]) && toks@[2] == sat64(lt[2])
                && toks@[3] == sat64(lt[3]));
            assert(line_wf(ls[i as int]));
        }
        let b: [u32; 4] = [toks[0] as u32, toks[1] as u32, toks[2] as u32, toks[3] as u32];
        v.push((ins, b));
        i = i + 1;
    }
    Some(v)
}

/// One light's final on/off state, computed instruction by instruction.
fn eval_cell1(ins: &Vec<(Instruction, [u32; 4])>, x: u32, y: u32) -> (r: bool)
    ensures
        r == cell1(ins@, ins@.len() as int, x as int, y as int),
{
    let n = ins.len();
    let mut v = false;
    let mut k: usize = 0;
    while k < n
        invariant
            k <= n,
            n == ins@.len(),
            v == cell1(ins@, k as int, x as int, y as int),
        decreases n - k,
    {
        let (op, b) = ins[k];
        if b[0] <= x && x <= b[2] && b[1] <= y && y <= b[3] {
            proof {
                assert(ins@[k as int].1@ =~= seq![b@[0], b@[1], b@[2], b@[3]]);
            }
            match op {
                Instruction::TurnOn => v = true,
                Instruction::TurnOff => v = false,
                Instruction::Toggle => v = !v,
            }
        } else {
            proof {
                assert(ins@[k as int].1@ =~= seq![b@[0], b@[1], b@[2], b@[3]]);
            }
        }
        k = k + 1;
    }
    v
}

proof fn lemma_cell2_bound(ins: Seq<(Instruction, [u32; 4])>, k: int, x: int, y: int)
    requires
        k >= 0,
    ensures
        cell2(ins, k, x, y) <= 2 * k,
    decreases k,
{
    if k > 0 {
        lemma_cell2_bound(ins, k - 1, x, y);
    }
}

/// One light's final brightness, computed instruction by instruction.
fn eval_cell2(ins: &Vec<(Instruction, [u32; 4])>, x: u32, y: u32) -> (r: u64)
    requires
        ins@.len() <= 0x10000000000,
    ensures
        r == cell2(ins@, ins@.len() as int, x as int, y as int),
{
    let n = ins.len();
    let mut v: u64 = 0;
    let mut k: usize = 0;
    while k < n
        invariant
            k <= n,
            n == ins@.len() <= 0x10000000000,
            v == cell2(ins@, k as int, x as int, y as int),
            v <= 2 * k,
        decreases n - k,
    {
        let (op, b) = ins[k];
        proof {
            assert(ins@[k as int].1@ =~= seq![b@[0], b@[1], b@[2], b@[3]]);
        }
        if b[0] <= x && x <= b[2] && b[1] <= y && y <= b[3] {
            match op {
                Instruction::TurnOn => v = v + 1,
                Instruction::TurnOff => if v > 0 {
                    v = v - 1;
                },
                Instruction::Toggle => v = v + 2,
            }
        }
        k = k + 1;
    }
    v
}

/// How many lights are lit after all instructions.
pub fn part1(input: &Vec<(Instruction, [u32; 4])>) -> (r: u64)
    ensures
        r == total1(input@, 1000),
{
    let mut total: u64 = 0;
    let mut y: u32 = 0;
    while y < 1000
        invariant
            y <= 1000,
            total == total1(input@, y as int),
            total <= 1000 * (y as int),
        decreases 1000 - y,
    {
        let mut row: u64 = 0;
        let mut x: u32 = 0;
        while x < 1000
            invariant
                x <= 1000,
                row == row_count1(input@, y as int, x as int),
                row <= x,
            decreases 1000 - x,
        {
            if eval_cell1(input, x, y) {
                row = row + 1;
            }
            x = x + 1;
        }
        total = total + row;
        y = y + 1;
    }
    total
}

proof fn lemma_row_count2_bound(ins: Seq<(Instruction, [u32; 4])>, y: int, x: int)
    requires
        x >= 0,
    ensures
        row_count2(ins, y, x) <= x * (2 * ins.len()),
    decreases x,
{
    if x > 0 {
        lemma_row_count2_bound(ins, y, x - 1);
        lemma_cell2_bound(ins, ins.len() as int, x - 1, y);
        assert((x - 1) * (2 * ins.len()) + 2 * ins.len() == x * (2 * ins.len()))
            by (nonlinear_arith);
    }
}

proof fn lemma_total2_bound(ins: Seq<(Instruction, [u32; 4])>, y: int)
    requires
        y >= 0,
    ensures
        total2(ins, y) <= y * 2000 * ins.len(),
    decreases y,
{
    if y > 0 {
        lemma_total2_bound(ins, y - 1);
        lemma_row_count2_bound(ins, y - 1, 1000);
        assert((y - 1) * 2000 * ins.len() + 1000 * (2 * ins.len()) == y * 2000 * ins.len())
            by (nonlinear_arith);
    }
}

/// The total brightness after all instructions.
pub fn part2(input: &Vec<(Instruction, [u32; 4])>) -> (r: u64)
    requires
        input@.len() <= 0x10000000000,
    ensures
        r == total2(input@, 1000),
{
    let mut total: u64 = 0;
    let mut y: u32 = 0;
    while y < 1000
        invariant
            input@.len() <= 0x10000000000,
            y <= 1000,
            total == total2(input@, y as int),
            total <= (y as int) * 2000 * input@.len(),
        decreases 1000 - y,
    {
        let mut row: u64 = 0;
        let mut x: u32 = 0;
        while x < 1000
            invariant
                input@.len() <= 0x10000000000,
                x <= 1000,
                row == row_count2(input@, y as int, x as int),
                row <= (x as int) * (2 * input@.len()),
            decreases 1000 - x,
        {
            let c = eval_cell2(input, x, y);
            proof {
                lemma_cell2_bound(input@, input@.len() as int, x as int, y as int);
                assert((x as int) * (2 * input@.len()) + 2 * input@.len() == (x + 1) * (2
                    * input@.len())) by (nonlinear_arith);
                assert((x + 1) * (2 * input@.len()) <= 1000 * (2 * input@.len()))
                    by (nonlinear_arith)
                    requires
                        0 <= x < 1000,
                ;
                assert(1000 * (2 * input@.len()) <= 1000 * (2 * 0x10000000000))
                    by (nonlinear_arith)
                    requires
                        input@.len() <= 0x10000000000,
                ;
            }
            row = row + c;
            x = x + 1;
        }
        proof {
            lemma_total2_bound(input@, y as int);
            lemma_row_count2_bound(input@, y as int, 1000);
            assert((y as int) * 2000 * input@.len() + 1000 * (2 * input@.len()) == (y + 1) * 2000
                * input@.len()) by (nonlinear_arith);
            assert((y + 1) * 2000 * input@.len() <= 1000 * 2000 * input@.len())
                by (nonlinear_arith)
                requires
                    0 <= y < 1000,
            ;
            assert(1000 * 2000 * input@.len() <= 1000 * 2000 * 0x10000000000)
                by (nonlinear_arith)
                requires
                    input@.len() <= 0x10000000000,
            ;
        }
        total = total + row;
        y = y + 1;
    }
    total
}

} // verus!
