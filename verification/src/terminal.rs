use vstd::prelude::*;
use vstd::utf8::*;

use crate::wire::decode_text;

verus! {

/// How long the message pane waits between two reads, in nanoseconds: one
/// second.
pub const READ_INTERVAL_NANOS: u128 = 1000000000;

/// The kinds of mouse event that the client's window tells apart.
#[derive(Debug, Clone, Copy, PartialEq, Eq, Structural)]
pub enum MouseMove {
    ScrollUp,
    ScrollDown,
    Other,
}

/// A scroll of the message pane.
#[derive(Debug, Clone, Copy, PartialEq, Eq, Structural)]
pub enum Scroll {
    Up,
    Down,
}

/// The window scrolls the message pane up on a scroll up, down on a scroll
/// down, and ignores other mouse events.
pub fn scroll_for(mouse: MouseMove) -> (r: Option<Scroll>)
    ensures
        r == match mouse {
            MouseMove::ScrollUp => Some(Scroll::Up),
            MouseMove::ScrollDown => Some(Scroll::Down),
            MouseMove::Other => None::<Scroll>,
        },
{
    match mouse {
        MouseMove::ScrollUp => Some(Scroll::Up),
        MouseMove::ScrollDown => Some(Scroll::Down),
        MouseMove::Other => None,
    }
}

/// The message pane's timing: the time left, in nanoseconds, before it reads
/// from the server again.
pub struct Messages {
    pub ts: u128,
}

/// The time left after `dt` nanoseconds have passed: never below zero.
pub open spec fn after_elapsed(ts: u128, dt: u128) -> u128 {
    if dt <= ts {
        (ts - dt) as u128
    } else {
        0
    }
}

impl Messages {
    /// A pane that reads at its first tick.
    pub fn new() -> (m: Messages)
        ensures
            m.ts == 0,
    {
        Messages { ts: 0 }
    }

    /// Lets `dt` nanoseconds pass; says whether the pane reads now, which it
    /// does when no time is left.
    pub fn tick(&mut self, dt: u128) -> (read_now: bool)
        ensures
            final(self).ts == after_elapsed(old(self).ts, dt),
            read_now == (final(self).ts == 0),
    {
        self.ts = self.ts.saturating_sub(dt);
        self.ts == 0
    }

    /// Takes the `n` bytes read into `buffer` as one message. Where they are
    /// UTF-8, the message is their text and the pane waits
    /// `READ_INTERVAL_NANOS` before the next read; otherwise nothing comes and
    /// the pane is left as it was.
    pub fn accept_chunk(&mut self, buffer: &[u8], n: usize) -> (r: Option<String>)
        requires
            n <= buffer@.len(),
        ensures
            r is Some <==> valid_utf8(buffer@.subrange(0, n as int)),
            r matches Some(text) ==> text@ == decode_utf8(buffer@.subrange(0, n as int)),
            r is Some ==> final(self).ts == READ_INTERVAL_NANOS,
            r is None ==> final(self).ts == old(self).ts,
    {
        let mut bytes: Vec<u8> = Vec::new();
        let mut i: usize = 0;
        while i < n
            invariant
                n <= buffer@.len(),
                i <= n,
                bytes@ == buffer@.subrange(0, i as int),
            decreases n - i,
        {
            bytes.push(buffer[i]);
            i = i + 1;
            assert(bytes@ == buffer@.subrange(0, i as int));
        }
        match decode_text(bytes.as_slice()) {
            Ok(text) => {
                self.ts = READ_INTERVAL_NANOS;
                Some(text)
            },
            Err(_) => None,
        }
    }
}

/// The nanoseconds that a run of ticks lets pass.
pub open spec fn total(dts: Seq<u128>) -> int
    decreases dts.len(),
{
    if dts.len() == 0 {
        0
    } else {
        total(dts.drop_last()) + dts.last()
    }
}

/// The time left after a run of ticks, each as `tick` counts it.
pub open spec fn after_ticks(ts: u128, dts: Seq<u128>) -> u128
    decreases dts.len(),
{
    if dts.len() == 0 {
        ts
    } else {
        after_elapsed(after_ticks(ts, dts.drop_last()), dts.last())
    }
}

/// Ticks count the time left down by the time that passed, and no further
/// than zero: after a read, the pane reads again exactly once the ticks have
/// let `READ_INTERVAL_NANOS` pass, never earlier.
pub proof fn ticks_count_down(ts: u128, dts: Seq<u128>)
    ensures
        after_ticks(ts, dts) == (if total(dts) < ts {
            ts - total(dts)
        } else {
            0
        }),
    decreases dts.len(),
{
    if dts.len() > 0 {
        ticks_count_down(ts, dts.drop_last());
    }
}

} // verus!
