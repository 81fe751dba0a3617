//! What the dashboard shows.

use crate::source::SourceEvent;
use crate::text::{
    contains_text, decimal, law_alignment_adds_spaces_after, law_what_stands_in_a_text_is_found,
    left_aligned, push_decimal, push_left_aligned,
};
use vstd::prelude::*;

verus! {

/// How many signals the log holds.
pub const LOG_LENGTH: usize = 50;

/// The line of an event in the log.
pub open spec fn event_line(event: SourceEvent) -> Seq<char> {
    match event {
        SourceEvent::Trigger { id, velocity } => "Trigger ID: "@ + left_aligned(
            decimal(id as nat),
            3,
        ) + " Vel: "@ + left_aligned(decimal(velocity as nat), 3),
        SourceEvent::DmxFrame { universe, .. } => "DMX Frame (Uni "@ + decimal(universe as nat)
            + ")"@,
        SourceEvent::ClearAll => "Clear All"@,
    }
}

/// The line of an event in the log.
pub fn event_text(event: &SourceEvent) -> (line: String)
    ensures
        line@ == event_line(*event),
{
    match event {
        SourceEvent::Trigger { id, velocity } => {
            let mut line: String = "Trigger ID: ".to_owned();
            push_left_aligned(&mut line, *id as u64, 3);
            line.append(" Vel: ");
            push_left_aligned(&mut line, *velocity as u64, 3);
            line
        },
        SourceEvent::DmxFrame { universe, .. } => {
            let mut line: String = "DMX Frame (Uni ".to_owned();
            push_decimal(&mut line, *universe as u64);
            line.append(")");
            line
        },
        SourceEvent::ClearAll => "Clear All".to_owned(),
    }
}

/// A log with one more entry, without its oldest one where it was full.
pub open spec fn recorded<T>(log: Seq<T>, entry: T) -> Seq<T> {
    if log.len() >= LOG_LENGTH {
        log.push(entry).skip(1)
    } else {
        log.push(entry)
    }
}

/// Adds an entry to a log, which loses its oldest one where it was full.
pub fn record<T>(log: &mut Vec<T>, entry: T)
    ensures
        final(log)@ == recorded(old(log)@, entry),
{
    let ghost before = log@;
    log.push(entry);
    if log.len() > LOG_LENGTH {
        log.remove(0);
        assert(log@ =~= before.push(entry).skip(1));
    }
}

/// An empty log after a number of entries.
pub open spec fn log_of<T>(entries: Seq<T>) -> Seq<T>
    decreases entries.len(),
{
    if entries.len() == 0 {
        Seq::empty()
    } else {
        recorded(log_of(entries.drop_last()), entries.last())
    }
}

/// A log holds the latest entries, in order, and never more than its length.
pub proof fn law_log_holds_latest<T>(entries: Seq<T>)
    ensures
        log_of(entries) == (if entries.len() <= LOG_LENGTH {
            entries
        } else {
            entries.skip(entries.len() - LOG_LENGTH)
        }),
    decreases entries.len(),
{
    if entries.len() > 0 {
        law_log_holds_latest(entries.drop_last());
        if entries.len() <= LOG_LENGTH {
            assert(log_of(entries) =~= entries);
        } else {
            assert(log_of(entries) =~= entries.skip(entries.len() - LOG_LENGTH));
        }
    }
}

/// The status line.
pub fn header_text(version: &str, uptime_seconds: u64, active: usize) -> (line: String)
    ensures
        line@ == " PulsePlex v"@ + version@ + " | Uptime: "@ + decimal(uptime_seconds as nat)
            + "s | Active Envelopes: "@ + decimal(active as nat),
{
    let mut line: String = " PulsePlex v".to_owned();
    line.append(version);
    line.append(" | Uptime: ");
    push_decimal(&mut line, uptime_seconds);
    line.append("s | Active Envelopes: ");
    push_decimal(&mut line, active as u64);
    line
}

/// How a channel is painted.
#[derive(Debug, Clone, Copy, PartialEq, Eq, Structural)]
pub enum Shade {
    /// A channel at zero, in dark gray.
    Off,
    /// A channel above zero, in the gray of its value.
    Gray(u8),
}

/// How a channel value is painted.
pub open spec fn shade(value: u8) -> Shade {
    if value == 0 {
        Shade::Off
    } else {
        Shade::Gray(value)
    }
}

/// How many channels stand in a row of a panel so many characters wide: two
/// characters each between the borders, and at least one.
pub open spec fn columns_in(width: u16) -> nat {
    if width < 4 {
        1
    } else {
        ((width - 2) / 2) as nat
    }
}

/// How many channels stand in a row of a panel so many characters wide.
pub fn columns(width: u16) -> (count: usize)
    ensures
        count == columns_in(width),
        count >= 1,
{
    if width < 4 {
        1
    } else {
        ((width - 2) / 2) as usize
    }
}

/// How the channels are painted.
pub open spec fn shades(channels: Seq<u8>) -> Seq<Shade> {
    channels.map_values(|value: u8| shade(value))
}

/// The cells in rows of `cols`, the last one perhaps shorter.
pub open spec fn rows<T>(cells: Seq<T>, cols: nat) -> Seq<Seq<T>>
    decreases cells.len(),
{
    if cells.len() == 0 || cols == 0 {
        Seq::empty()
    } else if cells.len() <= cols {
        seq![cells]
    } else {
        seq![cells.take(cols as int)] + rows(cells.skip(cols as int), cols)
    }
}

/// The rows of the panel that shows the channels.
pub fn channel_rows(channels: &[u8; 512], cols: usize) -> (lines: Vec<Vec<Shade>>)
    requires
        cols >= 1,
    ensures
        lines@.map_values(|line: Vec<Shade>| line@) == rows(shades(channels@), cols as nat),
{
    let ghost cells = shades(channels@);
    let ghost seen = |line: Vec<Shade>| line@;
    let mut lines: Vec<Vec<Shade>> = Vec::new();
    let mut start: usize = 0;
    assert(cells.skip(0) =~= cells);
    assert(lines@.map_values(seen) + rows(cells, cols as nat) =~= rows(cells, cols as nat));
    while start < 512
        invariant
            cols >= 1,
            start <= 512,
            cells == shades(channels@),
            seen == (|line: Vec<Shade>| line@),
            rows(cells, cols as nat) == lines@.map_values(seen) + rows(
                cells.skip(start as int),
                cols as nat,
            ),
        decreases 512 - start,
    {
        let ghost rest = cells.skip(start as int);
        let end: usize = if cols < 512 - start {
            start + cols
        } else {
            512
        };
        let mut line: Vec<Shade> = Vec::new();
        let mut i: usize = start;
        while i < end
            invariant
                start <= i <= end <= 512,
                cells == shades(channels@),
                line@ == cells.subrange(start as int, i as int),
            decreases end - i,
        {
            let value: u8 = channels[i];
            line.push(
                if value == 0 {
                    Shade::Off
                } else {
                    Shade::Gray(value)
                },
            );
            assert(line@ =~= cells.subrange(start as int, i + 1));
            i += 1;
        }
        let ghost before = lines@;
        lines.push(line);
        proof {
            assert(lines@.map_values(seen) =~= before.map_values(seen).push(line@));
            if cols < 512 - start {
                assert(line@ =~= rest.take(cols as int));
                assert(rest.skip(cols as int) =~= cells.skip(end as int));
                assert(before.map_values(seen) + (seq![line@] + rows(
                    cells.skip(end as int),
                    cols as nat,
                )) =~= lines@.map_values(seen) + rows(cells.skip(end as int), cols as nat));
            } else {
                assert(line@ =~= rest);
                assert(cells.skip(end as int).len() == 0);
                assert(before.map_values(seen) + seq![line@] =~= lines@.map_values(seen) + rows(
                    cells.skip(end as int),
                    cols as nat,
                ));
            }
        }
        start = end;
    }
    assert(lines@.map_values(seen) + rows(cells.skip(512), cols as nat) =~= lines@.map_values(
        seen,
    ));
    lines
}

/// The rows read one after the other.
pub open spec fn joined<T>(lines: Seq<Seq<T>>) -> Seq<T>
    decreases lines.len(),
{
    if lines.len() == 0 {
        Seq::empty()
    } else {
        lines[0] + joined(lines.skip(1))
    }
}

/// Rows show every cell once, in order, and none is wider than the panel or
/// empty.
pub proof fn law_rows_show_every_cell<T>(cells: Seq<T>, cols: nat)
    requires
        cols >= 1,
    ensures
        joined(rows(cells, cols)) == cells,
        forall|i: int|
            0 <= i < rows(cells, cols).len() ==> 0 < (#[trigger] rows(cells, cols)[i]).len()
                <= cols,
    decreases cells.len(),
{
    let lines = rows(cells, cols);
    if cells.len() == 0 {
        assert(joined(lines) =~= cells);
    } else if cells.len() <= cols {
        assert(lines[0] == cells);
        assert(joined(lines.skip(1)) =~= Seq::<T>::empty());
        assert(lines.skip(1) =~= Seq::<Seq<T>>::empty());
        assert(cells + Seq::<T>::empty() =~= cells);
    } else {
        let rest = cells.skip(cols as int);
        law_rows_show_every_cell(rest, cols);
        assert(lines.skip(1) =~= rows(rest, cols));
        assert(cells.take(cols as int) + rest =~= cells);
        assert forall|i: int| 0 <= i < lines.len() implies 0 < (#[trigger] lines[i]).len()
            <= cols by {
            if i > 0 {
                assert(lines[i] == rows(rest, cols)[i - 1]);
            }
        }
    }
}

/// A channel is painted off exactly where its value is zero, and in the gray of
/// its value otherwise.
pub proof fn law_channels_are_painted_by_value(channels: Seq<u8>, i: int)
    requires
        0 <= i < channels.len(),
    ensures
        shades(channels).len() == channels.len(),
        channels[i] == 0 ==> shades(channels)[i] == Shade::Off,
        channels[i] > 0 ==> shades(channels)[i] == Shade::Gray(channels[i]),
{
}

/// The columns of a panel, two characters each, fit between its borders with less
/// than two characters to spare, and there is at least one.
pub proof fn law_columns_fill_the_panel(width: u16)
    ensures
        columns_in(width) >= 1,
        width >= 4 ==> 2 * columns_in(width) + 2 <= width < 2 * columns_in(width) + 4,
        width < 4 ==> columns_in(width) == 1,
{
}

/// One more entry comes last in a log, after the entries that were there; only
/// where there were 50 the first of them goes.
pub proof fn law_recording_appends<T>(log: Seq<T>, entry: T)
    requires
        log.len() <= 50,
    ensures
        recorded(log, entry).last() == entry,
        log.len() < 50 ==> recorded(log, entry).drop_last() == log,
        log.len() == 50 ==> recorded(log, entry).drop_last() == log.skip(1),
{
    if log.len() < 50 {
        assert(recorded(log, entry).drop_last() =~= log);
    } else {
        assert(recorded(log, entry).drop_last() =~= log.skip(1));
    }
}

/// The line of a trigger tells its behavior and then its velocity, in decimal: the
/// behavior behind the words for it, and the velocity at the end with only spaces
/// after it. The line of a frame tells its universe.
pub proof fn law_events_are_told_in_decimal(
    id: u16,
    velocity: u8,
    universe: u16,
    data: Box<[u8; 512]>,
)
    ensures
        ({
            let line = event_line(SourceEvent::Trigger { id, velocity });
            let (a, b) = (decimal(id as nat), decimal(velocity as nat));
            &&& contains_text(line, "Trigger ID: "@ + a)
            &&& contains_text(line, " Vel: "@ + b)
        }),
        contains_text(
            event_line(SourceEvent::DmxFrame { universe, data }),
            "(Uni "@ + decimal(universe as nat) + ")"@,
        ),
{
    let (a, b) = (decimal(id as nat), decimal(velocity as nat));
    let (wide_a, wide_b) = (left_aligned(a, 3), left_aligned(b, 3));
    law_alignment_adds_spaces_after(a, 3);
    law_alignment_adds_spaces_after(b, 3);
    let line = event_line(SourceEvent::Trigger { id, velocity });
    let (pad_a, pad_b) = (wide_a.skip(a.len() as int), wide_b.skip(b.len() as int));
    assert(wide_a =~= a + pad_a);
    assert(wide_b =~= b + pad_b);
    let empty = Seq::<char>::empty();
    assert(line =~= empty + ("Trigger ID: "@ + a) + (pad_a + " Vel: "@ + wide_b));
    law_what_stands_in_a_text_is_found(empty, "Trigger ID: "@ + a, pad_a + " Vel: "@ + wide_b);
    assert(line =~= ("Trigger ID: "@ + wide_a) + (" Vel: "@ + b) + pad_b);
    law_what_stands_in_a_text_is_found("Trigger ID: "@ + wide_a, " Vel: "@ + b, pad_b);
    reveal_strlit("DMX Frame (Uni ");
    reveal_strlit("DMX Frame ");
    reveal_strlit("(Uni ");
    let frame = event_line(SourceEvent::DmxFrame { universe, data });
    assert("DMX Frame (Uni "@ =~= "DMX Frame "@ + "(Uni "@);
    let told = "(Uni "@ + decimal(universe as nat) + ")"@;
    assert(frame =~= "DMX Frame "@ + told + empty);
    law_what_stands_in_a_text_is_found("DMX Frame "@, told, empty);
}

} // verus!
