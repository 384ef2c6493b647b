//! Finding the ends of the documents in a stream of concatenated JSON values, by
//! counting brackets line after line.
use vstd::prelude::*;

verus! {

/// Where the scan of a stream stands: the bracket that opened the document being
/// read, if one is being read, and how many brackets of that kind are open.
#[derive(Clone, Copy, Debug, PartialEq, Eq, Structural)]
pub struct StreamState {
    pub start: Option<char>,
    pub depth: usize,
}

/// What the scan of a line found.
#[derive(Clone, Copy, Debug, PartialEq, Eq, Structural)]
pub enum LineScan {
    /// A document ends in the line; the number is the position behind its last
    /// character.
    Complete(usize),
    /// The line ends inside a document, or between two.
    Open,
    /// Outside a document stands a character that opens none.
    Invalid(char),
}

/// The outcome of a scan and the state that it leaves.
pub struct Scanned {
    pub outcome: LineScan,
    pub state: StreamState,
}

/// The state before any document: nothing open.
pub open spec fn idle() -> StreamState {
    StreamState { start: None, depth: 0 }
}

/// The bracket that closes what `open` opens.
pub open spec fn closing_of(open: char) -> char {
    if open == '{' {
        '}'
    } else {
        ']'
    }
}

/// The state after one more character, or none where a character that opens no
/// document stands outside one. Only brackets of the kind that opened the document
/// are counted.
pub open spec fn after_char(state: StreamState, c: char) -> Option<StreamState> {
    match state.start {
        None => if c == '{' || c == '[' {
            Some(StreamState { start: Some(c), depth: 1 })
        } else {
            None
        },
        Some(open) => if c == open && state.depth < usize::MAX {
            Some(StreamState { start: state.start, depth: (state.depth + 1) as usize })
        } else if c == closing_of(open) && state.depth > 0 {
            Some(StreamState { start: state.start, depth: (state.depth - 1) as usize })
        } else {
            Some(state)
        },
    }
}

/// What scanning `line` from position `from` on in state `state` finds: the first
/// document that ends, or the first character that is out of place, or neither.
pub open spec fn scanned(state: StreamState, line: Seq<char>, from: int) -> Scanned
    decreases line.len() - from,
{
    if from < 0 || from >= line.len() {
        Scanned { outcome: LineScan::Open, state }
    } else {
        match after_char(state, line[from]) {
            None => Scanned { outcome: LineScan::Invalid(line[from]), state },
            Some(next) => if next.depth == 0 {
                Scanned { outcome: LineScan::Complete((from + 1) as usize), state: idle() }
            } else {
                scanned(next, line, from + 1)
            },
        }
    }
}

/// The state after one more character.
fn step(state: StreamState, c: char) -> (r: Option<StreamState>)
    ensures
        r == after_char(state, c),
{
    match state.start {
        None => {
            if c == '{' || c == '[' {
                Some(StreamState { start: Some(c), depth: 1 })
            } else {
                None
            }
        },
        Some(open) => {
            let closing = if open == '{' {
                '}'
            } else {
                ']'
            };
            if c == open && state.depth < usize::MAX {
                Some(StreamState { start: state.start, depth: state.depth + 1 })
            } else if c == closing && state.depth > 0 {
                Some(StreamState { start: state.start, depth: state.depth - 1 })
            } else {
                Some(state)
            }
        },
    }
}

/// Scans `line` from position `from` on for the end of a document.
pub fn scan_line(state: &mut StreamState, line: &[char], from: usize) -> (r: LineScan)
    ensures
        r == scanned(*old(state), line@, from as int).outcome,
        *final(state) == scanned(*old(state), line@, from as int).state,
{
    let mut i = from;
    while i < line.len()
        invariant
            from <= i,
            scanned(*old(state), line@, from as int) == scanned(*state, line@, i as int),
        decreases line.len() - i,
    {
        match step(*state, line[i]) {
            None => {
                return LineScan::Invalid(line[i]);
            },
            Some(next) => {
                if next.depth == 0 {
                    *state = StreamState { start: None, depth: 0 };
                    return LineScan::Complete(i + 1);
                }
                *state = next;
            },
        }
        i += 1;
    }
    LineScan::Open
}

} // verus!
