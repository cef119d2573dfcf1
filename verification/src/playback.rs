//! The decisions of reading a document aloud block by block: which block is
//! read next after a block has played or the user has stepped.
use vstd::prelude::*;

verus! {

/// A block of a document that is read aloud: its text and the identifier by
/// which reading reports its progress.
pub trait ReadingBlock: core::fmt::Debug {
    fn get_text(&self) -> String;

    fn get_id(&self) -> u32;
}

/// An event of the reading of a document.
#[derive(Debug, Clone)]
pub enum TTSEvent {
    Progress { block_id: u32 },
    Stop,
    Next,
    Prev,
    Error(String),
}

/// What reading does once a block has played or been interrupted.
#[derive(Debug)]
pub enum ReadStep {
    /// Read the block with this index next (reading ends when it is past the last block).
    Continue(usize),
    /// Reading was stopped: the position goes back to the first block.
    Finish,
    /// Playing failed with this message.
    Fail(String),
}

/// The index read after block `current` of `total` blocks, when `event` ended it:
/// the next block after a normal end, one block forward or back when the user
/// steps (staying put at either end).
pub open spec fn next_index(current: int, total: int, event: Option<TTSEvent>) -> Option<int> {
    match event {
        Some(TTSEvent::Stop) => None,
        Some(TTSEvent::Error(_)) => None,
        Some(TTSEvent::Next) => Some(if current + 1 < total { current + 1 } else { current }),
        Some(TTSEvent::Prev) => Some(if current > 0 { current - 1 } else { current }),
        _ => Some(current + 1),
    }
}

/// Whether `step` is what reading does after block `current` of `total` ended with `event`.
pub open spec fn step_is(step: ReadStep, current: int, total: int, event: Option<TTSEvent>) -> bool {
    match step {
        ReadStep::Continue(i) => next_index(current, total, event) == Some(i as int),
        ReadStep::Finish => event matches Some(TTSEvent::Stop),
        ReadStep::Fail(m) => event matches Some(TTSEvent::Error(e)) && m@ == e@,
    }
}

/// What reading does after block `current` of `total` blocks ended with `event`
/// (`None` when the block simply finished playing).
pub fn step_after_block(current: usize, total: usize, event: Option<TTSEvent>) -> (r: ReadStep)
    requires
        current < total,
    ensures
        step_is(r, current as int, total as int, event),
{
    match event {
        Some(TTSEvent::Stop) => ReadStep::Finish,
        Some(TTSEvent::Next) => {
            if current + 1 < total {
                ReadStep::Continue(current + 1)
            } else {
                ReadStep::Continue(current)
            }
        },
        Some(TTSEvent::Prev) => {
            if current > 0 {
                ReadStep::Continue(current - 1)
            } else {
                ReadStep::Continue(current)
            }
        },
        Some(TTSEvent::Error(e)) => ReadStep::Fail(e),
        _ => ReadStep::Continue(current + 1),
    }
}

/// What reading does after the user asked to hear block `current` again while
/// it played. The request moves the shared reading position one block back
/// (wrapping below the first block) and stops the audio without an event;
/// the block's end then moves the position one block forward (wrapping the
/// same way), so the same block is read again.
pub fn step_after_repeat(current: usize, total: usize) -> (r: ReadStep)
    requires
        current < total,
    ensures
        r matches ReadStep::Continue(i) && i == current,
{
    let back = current.wrapping_sub(1);
    ReadStep::Continue(back.wrapping_add(1))
}

/// The block reading starts from: nothing to read when there are no blocks or
/// the start lies past the last block.
pub fn first_block(start_from: u32, total: usize) -> (r: Option<usize>)
    ensures
        r matches Some(i) ==> i == start_from && i < total,
        r is None <==> start_from as int >= total,
{
    if total == 0 {
        None
    } else if (start_from as usize) < total {
        Some(start_from as usize)
    } else {
        None
    }
}

/// The page shown after moving `delta` pages from page `current` of a document
/// of `total_pages` pages: the move stops at the first page, and a move past
/// the last page is not made (`None`).
pub fn navigate_page(current: u16, delta: i32, total_pages: u16) -> (r: Option<u16>)
    requires
        current + delta <= i32::MAX,
    ensures
        r == (if (if current + delta < 0 { 0 } else { current + delta }) < total_pages {
            Some((if current + delta < 0 { 0 } else { current + delta }) as u16)
        } else {
            None::<u16>
        }),
{
    let sum = current as i32 + delta;
    let new_page = if sum < 0 { 0 } else { sum };
    if new_page < total_pages as i32 {
        Some(new_page as u16)
    } else {
        None
    }
}

/// The page shown after asking for page `page_number` of a document of
/// `total_pages` pages, when it is one of its pages.
pub fn go_to_page(page_number: i32, total_pages: u16) -> (r: Option<u16>)
    ensures
        r == (if 0 <= page_number < total_pages { Some(page_number as u16) } else { None::<u16> }),
{
    if page_number >= 0 && page_number < total_pages as i32 {
        Some(page_number as u16)
    } else {
        None
    }
}

/// The announcement that block `current` is about to be read, which the
/// reading loop sends before each block plays.
pub fn announce(current: usize) -> (e: TTSEvent)
    requires
        current <= u32::MAX,
    ensures
        e == (TTSEvent::Progress { block_id: current as u32 }),
{
    TTSEvent::Progress { block_id: current as u32 }
}

/// What a text reader does with an event of the reading.
#[derive(Debug)]
pub enum ReaderAction {
    /// Highlight the block with this id.
    Highlight(u32),
    /// Remove the highlight (the user stepped to another block).
    ClearHighlight,
    /// Show this error, remove the highlight and let the text be edited again.
    ReportError(String),
    /// Stop following the reading.
    Finish,
}

/// The action for a reading event, and whether to keep following the reading:
/// a progress event highlights its block, a step clears the highlight, an
/// error is reported and ends the following, and so does a stop.
pub open spec fn reader_step(event: TTSEvent) -> (ReaderAction, bool) {
    match event {
        TTSEvent::Progress { block_id } => (ReaderAction::Highlight(block_id), true),
        TTSEvent::Next => (ReaderAction::ClearHighlight, true),
        TTSEvent::Prev => (ReaderAction::ClearHighlight, true),
        TTSEvent::Error(e) => (ReaderAction::ReportError(e), false),
        TTSEvent::Stop => (ReaderAction::Finish, false),
    }
}

/// What a text reader does with a reading event (`reader_step`).
pub fn on_reading_event(event: TTSEvent) -> (r: (ReaderAction, bool))
    ensures
        r == reader_step(event),
{
    match event {
        TTSEvent::Progress { block_id } => (ReaderAction::Highlight(block_id), true),
        TTSEvent::Next => (ReaderAction::ClearHighlight, true),
        TTSEvent::Prev => (ReaderAction::ClearHighlight, true),
        TTSEvent::Error(e) => (ReaderAction::ReportError(e), false),
        TTSEvent::Stop => (ReaderAction::Finish, false),
    }
}

/// The announcements of an uninterrupted reading from block `i` of `total`
/// blocks: block `i` is announced, then reading goes on with the block that
/// `next_index` picks when a block simply finishes.
pub open spec fn uninterrupted_announcements(i: int, total: int) -> Seq<TTSEvent>
    decreases total - i,
{
    if i < 0 || i >= total {
        seq![]
    } else {
        match next_index(i, total, None) {
            Some(j) => if j > i {
                seq![TTSEvent::Progress { block_id: i as u32 }] + uninterrupted_announcements(j, total)
            } else {
                seq![TTSEvent::Progress { block_id: i as u32 }]
            },
            None => seq![TTSEvent::Progress { block_id: i as u32 }],
        }
    }
}

/// Reading a document without interruptions announces every block from the
/// first one read to the last, once each and in order.
pub proof fn uninterrupted_reading_announces_each_block(start: int, total: int)
    requires
        0 <= start <= total,
        total <= u32::MAX + 1,
    ensures
        uninterrupted_announcements(start, total) == Seq::new(
            (total - start) as nat,
            |k: int| TTSEvent::Progress { block_id: (start + k) as u32 },
        ),
    decreases total - start,
{
    if start < total {
        uninterrupted_reading_announces_each_block(start + 1, total);
        assert(uninterrupted_announcements(start, total) =~= Seq::new(
            (total - start) as nat,
            |k: int| TTSEvent::Progress { block_id: (start + k) as u32 },
        ));
    } else {
        assert(uninterrupted_announcements(start, total) =~= Seq::<TTSEvent>::empty());
    }
}

/// Stepping never leaves the document: after a block of a document, the next
/// index is a block of it, or the end just past the last block.
pub proof fn step_stays_in_document(current: int, total: int, event: Option<TTSEvent>)
    requires
        0 <= current < total,
    ensures
        next_index(current, total, event) matches Some(i) ==> 0 <= i <= total,
        next_index(current, total, event) matches Some(i) ==> (i == total <==> (current + 1 == total && !(
        event matches Some(TTSEvent::Next)) && !(event matches Some(TTSEvent::Prev)))),
{
}

/// Stepping forward and then back returns to the same block, and stepping back
/// and then forward too, away from the ends of the document.
pub proof fn next_then_prev_returns(current: int, total: int)
    requires
        0 <= current,
        current + 1 < total,
    ensures
        next_index(current, total, Some(TTSEvent::Next)) == Some(current + 1),
        next_index(current + 1, total, Some(TTSEvent::Prev)) == Some(current),
        next_index(current + 1, total, Some(TTSEvent::Prev)) matches Some(j) && next_index(j, total, Some(TTSEvent::Next)) == Some(current + 1),
{
}

} // verus!
