//! Redraw policy: when a unit is written, and what erases the previous live render.
use vstd::prelude::*;
use crate::layout::{Aggregate, PrettyPrinter, Record, RenderConfig, RenderError, TerminalSize};
use crate::text::{count_char, count_occurrences};

verus! {

/// One unit of the stream.
pub enum Row {
    Record(Record),
    Aggregate(Aggregate),
}

/// Move the cursor up one line, then clear that line, once per line.
pub open spec fn erase_seq(n: nat) -> Seq<char>
    decreases n,
{
    if n == 0 {
        Seq::empty()
    } else {
        erase_seq((n - 1) as nat) + "\u{1b}[1A\u{1b}[2K"@
    }
}

/// Whether more than `interval` has passed since `last`; true before any print.
pub open spec fn interval_passed(last: Option<u64>, now: u64, interval: u64) -> bool {
    match last {
        None => true,
        Some(t) => now - t > interval,
    }
}

/// What a render call hands back to be written, by view.
pub open spec fn output_view(r: Result<Option<String>, RenderError>) -> Result<
    Option<Seq<char>>,
    RenderError,
> {
    match r {
        Ok(Some(s)) => Ok(Some(s@)),
        Ok(None) => Ok(None),
        Err(e) => Err(e),
    }
}

/// Layout state with the redraw state around it. Times are nanoseconds of a monotonic clock.
pub struct Renderer {
    pub pretty_printer: PrettyPrinter,
    pub update_interval: u64,
    pub reset_sequence: String,
    pub is_tty: bool,
    pub last_print: Option<u64>,
}

/// `after` and `out` are the state and the output once `row` has been handed to `before`
/// at time `now`.
pub open spec fn render_outcome(
    before: Renderer,
    after: Renderer,
    row: Row,
    last_row: bool,
    now: u64,
    out: Result<Option<Seq<char>>, RenderError>,
) -> bool {
    match row {
        Row::Record(rec) => {
            &&& before.pretty_printer.record_state(&after.pretty_printer, &rec)
            &&& after.update_interval == before.update_interval
            &&& after.reset_sequence == before.reset_sequence
            &&& after.is_tty == before.is_tty
            &&& after.last_print == before.last_print
            &&& match before.pretty_printer.record_text(&rec) {
                Ok(t) => out == Ok::<Option<Seq<char>>, RenderError>(Some(t + seq!['\n'])),
                Err(e) => out == Err::<Option<Seq<char>>, RenderError>(e),
            }
        },
        Row::Aggregate(agg) => {
            let t = before.pretty_printer.aggregate_layout(&agg).1;
            if before.is_tty && (last_row || interval_passed(
                before.last_print,
                now,
                before.update_interval,
            )) {
                &&& before.pretty_printer.aggregate_state(&after.pretty_printer, &agg)
                &&& out == Ok::<Option<Seq<char>>, RenderError>(Some(before.reset_sequence@ + t))
                &&& after.reset_sequence@ == erase_seq(count_char(t, '\n'))
                &&& after.last_print == Some(now)
                &&& after.update_interval == before.update_interval
                &&& after.is_tty == before.is_tty
            } else if !before.is_tty && last_row {
                &&& before.pretty_printer.aggregate_state(&after.pretty_printer, &agg)
                &&& out == Ok::<Option<Seq<char>>, RenderError>(Some(t))
                &&& after.reset_sequence == before.reset_sequence
                &&& after.last_print == before.last_print
                &&& after.update_interval == before.update_interval
                &&& after.is_tty == before.is_tty
            } else {
                &&& after == before
                &&& out == Ok::<Option<Seq<char>>, RenderError>(None)
            }
        },
    }
}

/// On an output that is not a live terminal, of three intermediate aggregate snapshots
/// and a final one only the final one is written, from the layout state it found.
pub proof fn lemma_plain_output_writes_final_only(
    r0: Renderer,
    r1: Renderer,
    r2: Renderer,
    r3: Renderer,
    r4: Renderer,
    a0: Aggregate,
    a1: Aggregate,
    a2: Aggregate,
    a3: Aggregate,
    t0: u64,
    t1: u64,
    t2: u64,
    t3: u64,
    o0: Result<Option<Seq<char>>, RenderError>,
    o1: Result<Option<Seq<char>>, RenderError>,
    o2: Result<Option<Seq<char>>, RenderError>,
    o3: Result<Option<Seq<char>>, RenderError>,
)
    requires
        !r0.is_tty,
        render_outcome(r0, r1, Row::Aggregate(a0), false, t0, o0),
        render_outcome(r1, r2, Row::Aggregate(a1), false, t1, o1),
        render_outcome(r2, r3, Row::Aggregate(a2), false, t2, o2),
        render_outcome(r3, r4, Row::Aggregate(a3), true, t3, o3),
    ensures
        o0 == Ok::<Option<Seq<char>>, RenderError>(None),
        o1 == Ok::<Option<Seq<char>>, RenderError>(None),
        o2 == Ok::<Option<Seq<char>>, RenderError>(None),
        o3 == Ok::<Option<Seq<char>>, RenderError>(
            Some(r0.pretty_printer.aggregate_layout(&a3).1),
        ),
{
}

/// `n` copies of the erase step.
fn erase_lines(n: usize) -> (r: String)
    ensures
        r@ == erase_seq(n as nat),
{
    let mut r = String::new();
    let mut i: usize = 0;
    while i < n
        invariant
            i <= n,
            r@ == erase_seq(i as nat),
        decreases n - i,
    {
        r.append("\u{1b}[1A\u{1b}[2K");
        i = i + 1;
    }
    r
}

impl Renderer {
    /// A renderer for an output whose terminal size was sampled once; `None` means the
    /// output is not an interactive terminal.
    pub fn new(config: RenderConfig, update_interval: u64, term_size: Option<TerminalSize>) -> (r:
        Self)
        ensures
            r.is_tty == term_size is Some,
            r.pretty_printer.render_config == config,
            r.pretty_printer.term_size == term_size,
            r.pretty_printer.column_widths@.len() == 0,
            r.pretty_printer.column_order@.len() == 0,
            r.update_interval == update_interval,
            r.reset_sequence@.len() == 0,
            r.last_print is None,
            r.pretty_printer.wf(),
    {
        Renderer {
            is_tty: term_size.is_some(),
            pretty_printer: PrettyPrinter::new(config, term_size),
            reset_sequence: String::new(),
            last_print: None,
            update_interval,
        }
    }

    /// Whether a live terminal is due for a redraw at time `now`.
    pub fn should_print(&self, now: u64) -> (r: bool)
        ensures
            r == (self.is_tty && interval_passed(self.last_print, now, self.update_interval)),
    {
        if !self.is_tty {
            return false;
        }
        match self.last_print {
            None => true,
            Some(t) => now > t && now - t > self.update_interval,
        }
    }

    /// Takes one unit at time `now` and returns the text to write, if any. Records are
    /// always written; aggregates only at the end on a plain output, and on a live
    /// terminal at the end or when the update interval has passed, after erasing the
    /// previous render.
    pub fn render(&mut self, row: &Row, last_row: bool, now: u64) -> (r: Result<
        Option<String>,
        RenderError,
    >)
        ensures
            render_outcome(*old(self), *final(self), *row, last_row, now, output_view(r)),
            old(self).pretty_printer.wf() ==> final(self).pretty_printer.wf(),
    {
        match row {
            Row::Aggregate(aggregate) => {
                if !self.is_tty {
                    if last_row {
                        let output = self.pretty_printer.format_aggregate(aggregate);
                        Ok(Some(output))
                    } else {
                        Ok(None)
                    }
                } else if self.should_print(now) || last_row {
                    let output = self.pretty_printer.format_aggregate(aggregate);
                    let num_lines = count_occurrences(output.as_str(), '\n');
                    let mut text = self.reset_sequence.clone();
                    text.append(output.as_str());
                    self.reset_sequence = erase_lines(num_lines);
                    self.last_print = Some(now);
                    Ok(Some(text))
                } else {
                    Ok(None)
                }
            },
            Row::Record(record) => {
                match self.pretty_printer.format_record(record) {
                    Ok(output) => {
                        let ghost o = output@;
                        let mut text = output;
                        text.append("\n");
                        proof {
                            reveal_strlit("\n");
                            assert(text@ =~= o + seq!['\n']);
                        }
                        Ok(Some(text))
                    },
                    Err(e) => Err(e),
                }
            },
        }
    }
}

} // verus!
