//! Submarine movement: a position driven by a sequence of commands.
use vstd::prelude::*;

verus! {

/// One movement command.
#[derive(Clone, Copy, Debug)]
pub enum Command {
    /// Increase the horizontal position.
    Forward(isize),
    /// Increase the depth.
    Down(isize),
    /// Decrease the depth.
    Up(isize),
}

/// Horizontal position after the first `i` commands, starting from `x0`.
pub open spec fn x_after(cmds: Seq<Command>, x0: int, i: int) -> int
    decreases i,
{
    if i <= 0 {
        x0
    } else {
        match cmds[i - 1] {
            Command::Forward(d) => x_after(cmds, x0, i - 1) + d,
            _ => x_after(cmds, x0, i - 1),
        }
    }
}

/// Depth after the first `i` commands, starting from `depth0`.
pub open spec fn depth_after(cmds: Seq<Command>, depth0: int, i: int) -> int
    decreases i,
{
    if i <= 0 {
        depth0
    } else {
        match cmds[i - 1] {
            Command::Down(d) => depth_after(cmds, depth0, i - 1) + d,
            Command::Up(d) => depth_after(cmds, depth0, i - 1) - d,
            Command::Forward(_) => depth_after(cmds, depth0, i - 1),
        }
    }
}

/// A submarine's position: horizontal distance and depth.
pub struct Sub {
    /// Horizontal position.
    pub x: isize,
    /// Depth below the surface.
    pub depth: isize,
}

impl Sub {
    /// A submarine at the origin.
    pub fn new() -> (s: Sub)
        ensures
            s.x == 0,
            s.depth == 0,
    {
        Sub { x: 0, depth: 0 }
    }

    /// Applies the commands in order.  Every intermediate position must
    /// stay within machine range.
    pub fn run_commands(&mut self, commands: &[Command])
        requires
            forall|i: int|
                0 <= i <= commands@.len() ==> isize::MIN <= #[trigger] x_after(
                    commands@,
                    old(self).x as int,
                    i,
                ) <= isize::MAX,
            forall|i: int|
                0 <= i <= commands@.len() ==> isize::MIN <= #[trigger] depth_after(
                    commands@,
                    old(self).depth as int,
                    i,
                ) <= isize::MAX,
        ensures
            final(self).x as int == x_after(commands@, old(self).x as int, commands@.len() as int),
            final(self).depth as int == depth_after(
                commands@,
                old(self).depth as int,
                commands@.len() as int,
            ),
    {
        let ghost x0 = self.x as int;
        let ghost d0 = self.depth as int;
        let mut i: usize = 0;
        while i < commands.len()
            invariant
                0 <= i <= commands@.len(),
                forall|k: int|
                    0 <= k <= commands@.len() ==> isize::MIN <= #[trigger] x_after(
                        commands@,
                        x0,
                        k,
                    ) <= isize::MAX,
                forall|k: int|
                    0 <= k <= commands@.len() ==> isize::MIN <= #[trigger] depth_after(
                        commands@,
                        d0,
                        k,
                    ) <= isize::MAX,
                self.x as int == x_after(commands@, x0, i as int),
                self.depth as int == depth_after(commands@, d0, i as int),
            decreases commands@.len() - i,
        {
            proof {
                assert(isize::MIN <= x_after(commands@, x0, i as int + 1) <= isize::MAX);
                assert(isize::MIN <= depth_after(commands@, d0, i as int + 1) <= isize::MAX);
            }
            match commands[i] {
                Command::Forward(d) => {
                    self.x = self.x + d;
                },
                Command::Down(d) => {
                    self.depth = self.depth + d;
                },
                Command::Up(d) => {
                    self.depth = self.depth - d;
                },
            }
            i += 1;
        }
    }
}

} // verus!
