//! What the status display keeps and where it puts it: the log with its
//! retention rule and the layout of the screen.

use vstd::prelude::*;

verus! {

/// How many entries the log keeps before it drops the oldest.
pub const MAX_LOG_ENTRIES: usize = 1000;

/// One line of the log: when it was written, in seconds since the epoch,
/// and what it says.
#[derive(Debug)]
pub struct LogEntry {
    pub timestamp: u64,
    pub message: String,
}

/// The log after an entry was added: the entry goes to the end, and a log
/// that held more than the ceiling before drops its oldest entries down to
/// the ceiling first.
pub open spec fn spec_add_log(logs: Seq<LogEntry>, entry: LogEntry) -> Seq<LogEntry> {
    if logs.len() > MAX_LOG_ENTRIES {
        logs.push(entry).skip(logs.len() - MAX_LOG_ENTRIES)
    } else {
        logs.push(entry)
    }
}

/// The log of the status display.
#[derive(Debug)]
pub struct LogBuffer {
    entries: Vec<LogEntry>,
}

impl LogBuffer {
    pub closed spec fn view(&self) -> Seq<LogEntry> {
        self.entries@
    }

    /// An empty log.
    pub fn new() -> (log: Self)
        ensures
            log@ == Seq::<LogEntry>::empty(),
    {
        Self { entries: Vec::new() }
    }

    /// Adds a line to the log.
    pub fn add_log(&mut self, timestamp: u64, message: String)
        ensures
            final(self)@ == spec_add_log(old(self)@, LogEntry { timestamp, message }),
    {
        let before: usize = self.entries.len();
        let entry = LogEntry { timestamp, message };
        let ghost pushed = self.entries@.push(entry);
        self.entries.push(entry);
        if before > MAX_LOG_ENTRIES {
            let excess: usize = before - MAX_LOG_ENTRIES;
            let mut dropped: usize = 0;
            while dropped < excess
                invariant
                    dropped <= excess,
                    excess < pushed.len(),
                    self.entries@ == pushed.skip(dropped as int),
                decreases excess - dropped,
            {
                self.entries.remove(0);
                dropped += 1;
                assert(self.entries@ =~= pushed.skip(dropped as int));
            }
        } else {
            assert(pushed.skip(0) =~= pushed);
        }
    }

    /// The number of lines in the log.
    pub fn len(&self) -> (n: usize)
        ensures
            n == self@.len(),
    {
        self.entries.len()
    }

    /// The lines of the log, the oldest first.
    pub fn entries(&self) -> (entries: &Vec<LogEntry>)
        ensures
            entries@ == self@,
    {
        &self.entries
    }
}

/// Where the parts of the status screen go.
#[derive(Debug, Clone, Copy, PartialEq, Eq, Structural)]
pub struct ScreenLayout {
    /// The column of the separator: the left third of the screen belongs to
    /// the counters.
    pub split: u16,
    /// The width of the progress bar between its brackets.
    pub bar_width: usize,
    /// How many log lines fit on the screen.
    pub visible_height: usize,
    /// How many characters of a log message fit in a line.
    pub message_width: usize,
}

/// The difference of two numbers, or zero where the second is larger.
pub open spec fn spec_minus(a: int, b: int) -> int {
    if a >= b {
        a - b
    } else {
        0
    }
}

/// The layout of a screen of the given size.
pub fn layout(width: u16, height: u16) -> (screen: ScreenLayout)
    ensures
        screen.split == width / 3,
        screen.bar_width == spec_minus(width as int / 3, 4),
        screen.visible_height == spec_minus(height as int, 2),
        screen.message_width == spec_minus(spec_minus(width as int, width as int / 3 + 3), 12),
{
    let split: u16 = width / 3;
    let bar_width: usize = if split >= 4 {
        (split - 4) as usize
    } else {
        0
    };
    let visible_height: usize = if height >= 2 {
        (height - 2) as usize
    } else {
        0
    };
    let log_width: usize = if width >= split + 3 {
        (width - (split + 3)) as usize
    } else {
        0
    };
    let message_width: usize = if log_width >= 12 {
        log_width - 12
    } else {
        0
    };
    ScreenLayout { split, bar_width, visible_height, message_width }
}

/// The position of the first of the last `visible_height` lines of a log of
/// `lines` lines.
pub fn first_visible(lines: usize, visible_height: usize) -> (start: usize)
    ensures
        start == spec_minus(lines as int, visible_height as int),
{
    if lines >= visible_height {
        lines - visible_height
    } else {
        0
    }
}

/// How much of a progress bar of `bar_width` cells is filled when
/// `completed` of `total` pieces are complete: that share of the cells,
/// rounded down, and never more than the whole bar; a download without
/// pieces fills nothing.
pub fn filled_cells(bar_width: usize, completed: usize, total: usize) -> (filled: usize)
    ensures
        filled <= bar_width,
        total == 0 ==> filled == 0,
        0 < total && completed <= total ==> filled == (completed * bar_width) / (total as int),
        0 < total && completed > total ==> filled == bar_width,
{
    if total == 0 {
        return 0;
    }
    if completed > total {
        return bar_width;
    }
    assert(completed * bar_width <= 0xffff_ffff_ffff_ffff * 0xffff_ffff_ffff_ffff)
        by (nonlinear_arith)
        requires
            0 <= completed <= 0xffff_ffff_ffff_ffff,
            0 <= bar_width <= 0xffff_ffff_ffff_ffff,
    ;
    let product: u128 = (completed as u128) * (bar_width as u128);
    let filled: u128 = product / (total as u128);
    assert(filled <= bar_width) by (nonlinear_arith)
        requires
            product == completed * bar_width,
            completed <= total,
            total > 0,
            filled == product / (total as u128),
    ;
    filled as usize
}

} // verus!
