//! A little cycle-counting CPU with one register, periodic signal-strength
//! sampling, and a 40x6 sprite-driven screen.

use vstd::prelude::*;

use crate::text::lines_of;
use crate::text::spec_lines;
use crate::text::spec_tokens;
use crate::text::tokens_of;
use crate::text::is_signed_digits;
use crate::text::signed_val;

verus! {

/// One parsed instruction.
#[derive(Debug, PartialEq, Eq, Structural)]
pub enum Command {
    Noop,
    AddX(i64),
}

/// Signal strength is sampled on cycle 20 and every 40 cycles after it.
pub open spec fn is_sample_cycle(cycle: int) -> bool {
    cycle >= 20 && (cycle - 20) % 40 == 0
}

/// Is the pixel drawn during this cycle covered by the three-wide sprite?
pub open spec fn pixel_lit(cycle: int, register: int) -> bool {
    register - 1 <= (cycle - 1) % 40 <= register + 1
}

/// The screen after one cycle: the cycle's pixel is turned on when the
/// sprite covers it.
pub open spec fn screen_after(screen: Seq<Seq<bool>>, cycle: int, register: int) -> Seq<
    Seq<bool>,
> {
    if pixel_lit(cycle, register) {
        let row = (cycle - 1) / 40;
        let col = (cycle - 1) % 40;
        screen.update(row, screen[row].update(col, true))
    } else {
        screen
    }
}

/// A register value small enough that one instruction can never overflow
/// the signal-strength product.
pub open spec fn register_ok(register: int) -> bool {
    -0x0080_0000_0000_0000 <= register <= 0x0080_0000_0000_0000
}

pub struct Processor {
    pub cycle: i64,
    pub register: i64,
    pub screen: Vec<Vec<bool>>,
}

impl Processor {
    /// The screen is 6 rows of 40 pixels and the cycle count starts at one.
    pub open spec fn wf(self) -> bool {
        &&& self.cycle >= 1
        &&& self.screen@.len() == 6
        &&& forall|r: int| 0 <= r < 6 ==> (#[trigger] self.screen@[r])@.len() == 40
    }

    pub open spec fn screen_view(self) -> Seq<Seq<bool>> {
        self.screen.deep_view()
    }

    /// A fresh processor: cycle one, register one, a dark screen.
    pub fn new() -> (r: Processor)
        ensures
            r.wf(),
            r.cycle == 1,
            r.register == 1,
            forall|i: int, j: int| 0 <= i < 6 && 0 <= j < 40 ==> !(#[trigger] r.screen_view()[i][j]),
    {
        let mut screen: Vec<Vec<bool>> = Vec::new();
        let mut i: usize = 0;
        while i < 6
            invariant
                i <= 6,
                screen@.len() == i,
                forall|r: int| 0 <= r < i ==> (#[trigger] screen@[r])@.len() == 40,
                forall|r: int, c: int|
                    0 <= r < i && 0 <= c < 40 ==> !(#[trigger] screen@[r]@[c]),
            decreases 6 - i,
        {
            let mut row: Vec<bool> = Vec::new();
            let mut j: usize = 0;
            while j < 40
                invariant
                    j <= 40,
                    row@.len() == j,
                    forall|c: int| 0 <= c < j ==> !(#[trigger] row@[c]),
                decreases 40 - j,
            {
                row.push(false);
                j = j + 1;
            }
            screen.push(row);
            i = i + 1;
        }
        let p = Processor { cycle: 1, register: 1, screen };
        proof {
            assert forall|i: int, j: int| 0 <= i < 6 && 0 <= j < 40 implies !(
            #[trigger] p.screen_view()[i][j]) by {
                assert(p.screen_view()[i] == p.screen@[i]@);
            }
        }
        p
    }

    /// Is the current cycle a sampling cycle?
    pub fn check_for_sampling(&self) -> (r: bool)
        ensures
            r == is_sample_cycle(self.cycle as int),
    {
        if self.cycle >= 20 {
            (self.cycle - 20) % 40 == 0
        } else {
            false
        }
    }

    /// Turn on the pixel the current cycle draws.
    pub fn draw_pixel(&mut self)
        requires
            old(self).wf(),
            old(self).cycle <= 240,
        ensures
            final(self).cycle == old(self).cycle,
            final(self).register == old(self).register,
            final(self).wf(),
            ({
                let row = (old(self).cycle - 1) as int / 40;
                let col = (old(self).cycle - 1) as int % 40;
                final(self).screen_view() == old(self).screen_view().update(
                    row,
                    old(self).screen_view()[row].update(col, true),
                )
            }),
    {
        let x = (self.cycle - 1) / 40;
        let y = (self.cycle - 1) % 40;
        proof {
            assert(0 <= (self.cycle - 1) as int / 40 < 6 && 0 <= (self.cycle - 1) as int % 40
                < 40) by (nonlinear_arith)
                requires
                    1 <= self.cycle <= 240;
        }
        let ghost before = self.screen.deep_view();
        let mut row = crate::text::copy_vec(&self.screen[x as usize]);
        row[y as usize] = true;
        self.screen[x as usize] = row;
        proof {
            let r = (old(self).cycle - 1) as int / 40;
            let c = (old(self).cycle - 1) as int % 40;
            assert(self.screen.deep_view() =~~= before.update(r, before[r].update(c, true)));
        }
    }

    /// Run one cycle: sample the signal strength if due, draw the cycle's
    /// pixel if the sprite covers it, and advance the cycle counter.
    pub fn process(&mut self, result: &mut Option<i64>)
        requires
            old(self).wf(),
            old(self).cycle <= 240,
            register_ok(old(self).register as int),
        ensures
            final(self).wf(),
            final(self).cycle == old(self).cycle + 1,
            final(self).register == old(self).register,
            *final(result) == if is_sample_cycle(old(self).cycle as int) {
                Some((old(self).register * old(self).cycle) as i64)
            } else {
                *old(result)
            },
            is_sample_cycle(old(self).cycle as int) ==> old(self).register * old(self).cycle
                == (old(self).register * old(self).cycle) as i64,
            final(self).screen_view() == screen_after(
                old(self).screen_view(),
                old(self).cycle as int,
                old(self).register as int,
            ),
    {
        proof {
            let reg = self.register as int;
            let cyc = self.cycle as int;
            assert(reg * cyc <= 0x0080_0000_0000_0000 * 240 && reg * cyc >= -0x0080_0000_0000_0000
                * 240) by (nonlinear_arith)
                requires
                    -0x0080_0000_0000_0000 <= reg <= 0x0080_0000_0000_0000,
                    1 <= cyc <= 240;
        }
        if self.check_for_sampling() {
            *result = Some(self.register * self.cycle);
        }
        let current_pixel = (self.cycle - 1) % 40;
        proof {
            assert(0 <= (self.cycle - 1) as int % 40 < 40) by (nonlinear_arith)
                requires 1 <= self.cycle <= 240;
        }
        if self.register - 1 <= current_pixel && current_pixel <= self.register + 1 {
            self.draw_pixel();
        }
        self.cycle = self.cycle + 1;
    }

    /// Run one `noop` cycle and report the sample it produced, if any.
    pub fn process_noop(&mut self) -> (r: Option<i64>)
        requires
            old(self).wf(),
            old(self).cycle <= 240,
            register_ok(old(self).register as int),
        ensures
            final(self).wf(),
            final(self).cycle == old(self).cycle + 1,
            final(self).register == old(self).register,
            r == if is_sample_cycle(old(self).cycle as int) {
                Some((old(self).register * old(self).cycle) as i64)
            } else {
                None::<i64>
            },
            final(self).screen_view() == screen_after(
                old(self).screen_view(),
                old(self).cycle as int,
                old(self).register as int,
            ),
    {
        let mut result: Option<i64> = None;
        self.process(&mut result);
        result
    }

    /// Run the two cycles of an `addx`, then add its value to the register;
    /// the sample of either cycle (at most one samples) is reported.
    pub fn process_addx(&mut self, value: i64) -> (r: Option<i64>)
        requires
            old(self).wf(),
            old(self).cycle <= 239,
            register_ok(old(self).register as int),
            i64::MIN <= old(self).register + value <= i64::MAX,
        ensures
            final(self).wf(),
            final(self).cycle == old(self).cycle + 2,
            final(self).register == old(self).register + value,
            r == if is_sample_cycle(old(self).cycle as int) {
                Some((old(self).register * old(self).cycle) as i64)
            } else if is_sample_cycle(old(self).cycle + 1 as int) {
                Some((old(self).register * (old(self).cycle + 1)) as i64)
            } else {
                None::<i64>
            },
            final(self).screen_view() == screen_after(
                screen_after(
                    old(self).screen_view(),
                    old(self).cycle as int,
                    old(self).register as int,
                ),
                old(self).cycle + 1 as int,
                old(self).register as int,
            ),
    {
        let mut result: Option<i64> = None;
        self.process(&mut result);
        self.process(&mut result);
        proof {
            let c = old(self).cycle as int;
            assert(!(is_sample_cycle(c) && is_sample_cycle(c + 1))) by (nonlinear_arith)
                requires c >= 1;
        }
        self.register = self.register + value;
        result
    }
}

pub open spec fn noop_chars() -> Seq<char> {
    seq!['n', 'o', 'o', 'p']
}

pub open spec fn addx_chars() -> Seq<char> {
    seq!['a', 'd', 'd', 'x']
}

/// The command a line holds, if it is well formed.
pub open spec fn cmd_of(seg: Seq<char>) -> Option<Command> {
    let toks = spec_tokens(seg);
    if toks.len() >= 1 && toks[0] == noop_chars() {
        Some(Command::Noop)
    } else if toks.len() >= 2 && toks[0] == addx_chars() && is_signed_digits(toks[1])
        && i64::MIN <= signed_val(toks[1]) <= i64::MAX {
        Some(Command::AddX(signed_val(toks[1]) as i64))
    } else {
        None
    }
}

/// Is the token exactly the four given letters?
fn tok_is(s: &str, a: char, b: char, c: char, d: char) -> (r: bool)
    ensures
        r == (s@ == seq![a, b, c, d]),
{
    let len = s.unicode_len();
    if len != 4 {
        proof {
            assert(s@ != seq![a, b, c, d]);
        }
        return false;
    }
    let r = s.get_char(0) == a && s.get_char(1) == b && s.get_char(2) == c && s.get_char(3) == d;
    proof {
        if r {
            assert(s@ =~= seq![a, b, c, d]);
        } else {
            assert(s@ != seq![a, b, c, d]);
        }
    }
    r
}

/// Parse a program: one `noop` or `addx N` per line.
pub fn parse_commands(input: &str) -> (r: Vec<Command>)
    requires
        forall|k: int|
            0 <= k < spec_lines(input@).len() ==> cmd_of(#[trigger] spec_lines(input@)[k])
                is Some,
    ensures
        r@.len() == spec_lines(input@).len(),
        forall|k: int| 0 <= k < r@.len() ==> Some(#[trigger] r@[k]) == cmd_of(spec_lines(input@)[k]),
{
    let lines = lines_of(input);
    let ghost segs = spec_lines(input@);
    let mut result: Vec<Command> = Vec::new();
    let mut i: usize = 0;
    while i < lines.len()
        invariant
            lines.deep_view() == segs,
            segs == spec_lines(input@),
            lines@.len() == segs.len(),
            forall|k: int| 0 <= k < segs.len() ==> cmd_of(#[trigger] segs[k]) is Some,
            i <= segs.len(),
            result@.len() == i,
            forall|k: int| 0 <= k < i ==> Some(#[trigger] result@[k]) == cmd_of(segs[k]),
        decreases segs.len() - i,
    {
        proof {
            assert(lines@[i as int]@ == segs[i as int]);
        }
        let tokens = tokens_of(lines[i].as_str());
        proof {
            assert(cmd_of(segs[i as int]) is Some);
            assert(tokens.deep_view() == spec_tokens(segs[i as int]));
            if tokens@.len() >= 1 {
                assert(tokens@[0]@ == spec_tokens(segs[i as int])[0]);
            }
            if tokens@.len() >= 2 {
                assert(tokens@[1]@ == spec_tokens(segs[i as int])[1]);
            }
        }
        if tokens.len() >= 1 && tok_is(tokens[0].as_str(), 'n', 'o', 'o', 'p') {
            result.push(Command::Noop);
        } else {
            let value = crate::text::parse_i64(tokens[1].as_str());
            result.push(Command::AddX(value));
        }
        i = i + 1;
    }
    result
}

} // verus!
