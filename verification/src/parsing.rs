//! The decoder's specification: a total, recursive description of what one
//! decode attempt yields on any byte buffer at any position.
//!
//! Recursion through arrays is bounded by a fuel argument that only
//! decreases when an array header is entered; [`spec_parse_at`] supplies
//! enough fuel for any buffer, and the lemmas below show that the outcome
//! does not depend on the exact fuel once it is sufficient.

use vstd::prelude::*;
use vstd::utf8::{decode_utf8, valid_utf8};
use crate::decimal::dec_parse_i64;
use crate::redirect::{redirection_frame_view, spec_redirection};
use crate::types::FrameView;

verus! {

/// The outcome of one decode attempt at a position.
pub enum ParseOutcome {
    /// A full frame is present; `end` is the position just past its bytes.
    Found { frame: FrameView, end: int },
    /// The buffer holds a prefix of a valid frame; more bytes are needed.
    Incomplete,
    /// The buffer can never be completed into a valid frame.
    Malformed,
    /// The nesting bound was reached before an answer was found.
    OutOfFuel,
}

/// The outcome of decoding a run of consecutive frames.
pub enum ListOutcome {
    Found { frames: Seq<FrameView>, end: int },
    Incomplete,
    Malformed,
    OutOfFuel,
}

/// The first index `t >= start` with `buf[t] == CR` and `buf[t+1] == LF`,
/// scanning only to the second-to-last byte, if any.
pub open spec fn find_crlf(buf: Seq<u8>, start: int) -> Option<int>
    decreases buf.len() - start,
{
    if start < 0 || start + 1 >= buf.len() {
        None
    } else if buf[start] == 13 && buf[start + 1] == 10 {
        Some(start)
    } else {
        find_crlf(buf, start + 1)
    }
}

/// What [`find_crlf`] returns, stated directly.
pub proof fn lemma_find_crlf(buf: Seq<u8>, start: int)
    requires
        0 <= start,
    ensures
        match find_crlf(buf, start) {
            Some(t) => start <= t && t + 1 < buf.len() && buf[t] == 13 && buf[t + 1] == 10
                && forall|k: int| start <= k < t ==> !(#[trigger] buf[k] == 13 && buf[k + 1] == 10),
            None => forall|k: int|
                start <= k < buf.len() - 1 ==> !(#[trigger] buf[k] == 13 && buf[k + 1] == 10),
        },
    decreases buf.len() - start,
{
    if start + 1 < buf.len() && !(buf[start] == 13 && buf[start + 1] == 10) {
        lemma_find_crlf(buf, start + 1);
    }
}

/// One decode attempt at `pos`, with `fuel` bounding the array nesting depth.
pub open spec fn spec_parse(buf: Seq<u8>, pos: int, fuel: nat) -> ParseOutcome
    decreases fuel, 0int,
{
    if pos < 0 || pos >= buf.len() {
        ParseOutcome::Incomplete
    } else {
        let tag = buf[pos];
        if tag == 43 {  // '+' simple string
            match find_crlf(buf, pos + 1) {
                None => ParseOutcome::Incomplete,
                Some(t) => {
                    let line = buf.subrange(pos + 1, t);
                    if valid_utf8(line) {
                        ParseOutcome::Found {
                            frame: FrameView::SimpleString(decode_utf8(line)),
                            end: t + 2,
                        }
                    } else {
                        ParseOutcome::Malformed
                    }
                },
            }
        } else if tag == 45 {  // '-' error, possibly a redirection
            match find_crlf(buf, pos + 1) {
                None => ParseOutcome::Incomplete,
                Some(t) => {
                    let line = buf.subrange(pos + 1, t);
                    if valid_utf8(line) {
                        let text = decode_utf8(line);
                        match spec_redirection(text) {
                            Some(rv) => ParseOutcome::Found {
                                frame: redirection_frame_view(rv),
                                end: t + 2,
                            },
                            None => ParseOutcome::Found {
                                frame: FrameView::Error(text),
                                end: t + 2,
                            },
                        }
                    } else {
                        ParseOutcome::Malformed
                    }
                },
            }
        } else if tag == 58 {  // ':' integer
            match find_crlf(buf, pos + 1) {
                None => ParseOutcome::Incomplete,
                Some(t) => match dec_parse_i64(buf.subrange(pos + 1, t)) {
                    Some(v) => ParseOutcome::Found {
                        frame: FrameView::Integer(v as i64),
                        end: t + 2,
                    },
                    None => ParseOutcome::Malformed,
                },
            }
        } else if tag == 36 {  // '$' bulk string or null
            if pos + 1 >= buf.len() {
                ParseOutcome::Incomplete
            } else if buf[pos + 1] == 45 {
                // The only accepted negative length is the null sentinel `-1`.
                match find_crlf(buf, pos + 1) {
                    None => ParseOutcome::Incomplete,
                    Some(t) => {
                        if buf.subrange(pos + 1, t) == seq![45u8, 49u8] {
                            ParseOutcome::Found { frame: FrameView::Null, end: t + 2 }
                        } else {
                            ParseOutcome::Malformed
                        }
                    },
                }
            } else {
                match find_crlf(buf, pos + 1) {
                    None => ParseOutcome::Incomplete,
                    Some(t) => match dec_parse_i64(buf.subrange(pos + 1, t)) {
                        None => ParseOutcome::Malformed,
                        Some(v) => {
                            if v < 0 || v > usize::MAX as int {
                                ParseOutcome::Malformed
                            } else if buf.len() - (t + 2) < v + 2 {
                                ParseOutcome::Incomplete
                            } else if buf[t + 2 + v] == 13 && buf[t + 3 + v] == 10 {
                                ParseOutcome::Found {
                                    frame: FrameView::BulkString(buf.subrange(t + 2, t + 2 + v)),
                                    end: t + 4 + v,
                                }
                            } else {
                                ParseOutcome::Malformed
                            }
                        },
                    },
                }
            }
        } else if tag == 42 {  // '*' array
            match find_crlf(buf, pos + 1) {
                None => ParseOutcome::Incomplete,
                Some(t) => match dec_parse_i64(buf.subrange(pos + 1, t)) {
                    None => ParseOutcome::Malformed,
                    Some(v) => {
                        if v < 0 || v > usize::MAX as int {
                            ParseOutcome::Malformed
                        } else if fuel == 0 {
                            ParseOutcome::OutOfFuel
                        } else {
                            match spec_parse_list(buf, t + 2, v as nat, (fuel - 1) as nat) {
                                ListOutcome::Found { frames, end } => ParseOutcome::Found {
                                    frame: FrameView::Array(frames),
                                    end,
                                },
                                ListOutcome::Incomplete => ParseOutcome::Incomplete,
                                ListOutcome::Malformed => ParseOutcome::Malformed,
                                ListOutcome::OutOfFuel => ParseOutcome::OutOfFuel,
                            }
                        }
                    },
                },
            }
        } else {
            ParseOutcome::Malformed
        }
    }
}

/// `n` consecutive frames starting at `pos`, in order.
pub open spec fn spec_parse_list(buf: Seq<u8>, pos: int, n: nat, fuel: nat) -> ListOutcome
    decreases fuel, n,
{
    if n == 0 {
        ListOutcome::Found { frames: Seq::empty(), end: pos }
    } else {
        match spec_parse(buf, pos, fuel) {
            ParseOutcome::Found { frame, end } => {
                match spec_parse_list(buf, end, (n - 1) as nat, fuel) {
                    ListOutcome::Found { frames, end: end2 } => ListOutcome::Found {
                        frames: seq![frame] + frames,
                        end: end2,
                    },
                    other => other,
                }
            },
            ParseOutcome::Incomplete => ListOutcome::Incomplete,
            ParseOutcome::Malformed => ListOutcome::Malformed,
            ParseOutcome::OutOfFuel => ListOutcome::OutOfFuel,
        }
    }
}

/// Prepends already-decoded frames onto the outcome of the rest of a run.
pub open spec fn glue_list(prefix: Seq<FrameView>, rest: ListOutcome) -> ListOutcome {
    match rest {
        ListOutcome::Found { frames, end } => ListOutcome::Found { frames: prefix + frames, end },
        other => other,
    }
}

/// A successful decode starts before its end position, which lies within the
/// buffer; a run of frames never moves backwards.
pub proof fn lemma_parse_advances(buf: Seq<u8>, pos: int, fuel: nat)
    ensures
        (spec_parse(buf, pos, fuel) matches ParseOutcome::Found { end, .. } ==> pos < end
            <= buf.len()),
    decreases fuel, 0int,
{
    if 0 <= pos < buf.len() {
        let tag = buf[pos];
        lemma_find_crlf(buf, pos + 1);
        if tag == 42 {
            if let Some(t) = find_crlf(buf, pos + 1) {
                if let Some(v) = dec_parse_i64(buf.subrange(pos + 1, t)) {
                    if 0 <= v <= usize::MAX as int && fuel > 0 {
                        lemma_parse_list_advances(buf, t + 2, v as nat, (fuel - 1) as nat);
                    }
                }
            }
        }
    }
}

/// Companion to [`lemma_parse_advances`] for frame runs.
pub proof fn lemma_parse_list_advances(buf: Seq<u8>, pos: int, n: nat, fuel: nat)
    ensures
        (spec_parse_list(buf, pos, n, fuel) matches ListOutcome::Found { end, .. } ==> pos <= end
            && (pos <= buf.len() ==> end <= buf.len())),
    decreases fuel, n,
{
    if n > 0 {
        lemma_parse_advances(buf, pos, fuel);
        if let ParseOutcome::Found { frame, end } = spec_parse(buf, pos, fuel) {
            lemma_parse_list_advances(buf, end, (n - 1) as nat, fuel);
        }
    }
}

/// Raising the fuel does not change an outcome that was already decided.
pub proof fn lemma_parse_fuel_mono(buf: Seq<u8>, pos: int, fuel1: nat, fuel2: nat)
    requires
        fuel1 <= fuel2,
        !(spec_parse(buf, pos, fuel1) is OutOfFuel),
    ensures
        spec_parse(buf, pos, fuel2) == spec_parse(buf, pos, fuel1),
    decreases fuel1, 0int,
{
    if 0 <= pos < buf.len() {
        let tag = buf[pos];
        if tag == 42 {
            if let Some(t) = find_crlf(buf, pos + 1) {
                if let Some(v) = dec_parse_i64(buf.subrange(pos + 1, t)) {
                    if 0 <= v <= usize::MAX as int {
                        lemma_parse_list_fuel_mono(
                            buf,
                            t + 2,
                            v as nat,
                            (fuel1 - 1) as nat,
                            (fuel2 - 1) as nat,
                        );
                    }
                }
            }
        }
    }
}

/// Companion to [`lemma_parse_fuel_mono`] for frame runs.
pub proof fn lemma_parse_list_fuel_mono(buf: Seq<u8>, pos: int, n: nat, fuel1: nat, fuel2: nat)
    requires
        fuel1 <= fuel2,
        !(spec_parse_list(buf, pos, n, fuel1) is OutOfFuel),
    ensures
        spec_parse_list(buf, pos, n, fuel2) == spec_parse_list(buf, pos, n, fuel1),
    decreases fuel1, n,
{
    if n > 0 {
        lemma_parse_fuel_mono(buf, pos, fuel1, fuel2);
        if let ParseOutcome::Found { frame, end } = spec_parse(buf, pos, fuel1) {
            lemma_parse_list_fuel_mono(buf, end, (n - 1) as nat, fuel1, fuel2);
        }
    }
}

/// With fuel exceeding the number of bytes after `pos`, the answer is never
/// `OutOfFuel`: every array header costs at least four bytes.
pub proof fn lemma_parse_enough_fuel(buf: Seq<u8>, pos: int, fuel: nat)
    requires
        fuel >= buf.len() - pos + 1 || fuel >= buf.len() + 1,
    ensures
        !(spec_parse(buf, pos, fuel) is OutOfFuel),
    decreases fuel, 0int,
{
    if 0 <= pos < buf.len() {
        let tag = buf[pos];
        if tag == 42 {
            lemma_find_crlf(buf, pos + 1);
            if let Some(t) = find_crlf(buf, pos + 1) {
                let line = buf.subrange(pos + 1, t);
                if let Some(v) = dec_parse_i64(line) {
                    if 0 <= v <= usize::MAX as int {
                        assert(line.len() >= 1);
                        assert(t >= pos + 2);
                        assert(fuel >= buf.len() - pos + 1);
                        lemma_parse_list_enough_fuel(buf, t + 2, v as nat, (fuel - 1) as nat);
                    }
                }
            }
        }
    }
}

/// Companion to [`lemma_parse_enough_fuel`] for frame runs.
pub proof fn lemma_parse_list_enough_fuel(buf: Seq<u8>, pos: int, n: nat, fuel: nat)
    requires
        fuel >= buf.len() - pos + 1,
    ensures
        !(spec_parse_list(buf, pos, n, fuel) is OutOfFuel),
    decreases fuel, n,
{
    if n > 0 {
        lemma_parse_enough_fuel(buf, pos, fuel);
        if let ParseOutcome::Found { frame, end } = spec_parse(buf, pos, fuel) {
            lemma_parse_advances(buf, pos, fuel);
            lemma_parse_list_enough_fuel(buf, end, (n - 1) as nat, fuel);
        }
    }
}

/// The fuel that [`spec_parse_at`] supplies: always sufficient.
pub open spec fn default_fuel(buf: Seq<u8>) -> nat {
    (buf.len() + 1) as nat
}

/// The outcome of one decode attempt at `pos`; never `OutOfFuel`.
pub open spec fn spec_parse_at(buf: Seq<u8>, pos: int) -> ParseOutcome {
    spec_parse(buf, pos, default_fuel(buf))
}

/// [`spec_parse_at`] is never `OutOfFuel`, and equals [`spec_parse`] under
/// any other sufficient fuel.
pub proof fn lemma_parse_at(buf: Seq<u8>, pos: int)
    ensures
        !(spec_parse_at(buf, pos) is OutOfFuel),
        (spec_parse_at(buf, pos) matches ParseOutcome::Found { end, .. } ==> pos < end
            <= buf.len()),
{
    lemma_parse_enough_fuel(buf, pos, default_fuel(buf));
    lemma_parse_advances(buf, pos, default_fuel(buf));
}


/// The outcome of the completeness scan at a position.
pub enum ScanOutcome {
    /// A full frame is present; `end` is the position just past its bytes.
    Done { end: int },
    Incomplete,
    Malformed,
    OutOfFuel,
}

/// The completeness scan: walks the buffer verifying that a full frame is
/// present, without materializing it. It is laxer than [`spec_parse`]: it
/// skips the null sentinel and a bulk payload without validating their bytes,
/// does not decode text, and treats a negative array count as zero children.
pub open spec fn spec_check(buf: Seq<u8>, pos: int, fuel: nat) -> ScanOutcome
    decreases fuel, 0int,
{
    if pos < 0 || pos >= buf.len() {
        ScanOutcome::Incomplete
    } else {
        let tag = buf[pos];
        if tag == 43 || tag == 45 {
            match find_crlf(buf, pos + 1) {
                None => ScanOutcome::Incomplete,
                Some(t) => ScanOutcome::Done { end: t + 2 },
            }
        } else if tag == 58 {
            match find_crlf(buf, pos + 1) {
                None => ScanOutcome::Incomplete,
                Some(t) => match dec_parse_i64(buf.subrange(pos + 1, t)) {
                    Some(_) => ScanOutcome::Done { end: t + 2 },
                    None => ScanOutcome::Malformed,
                },
            }
        } else if tag == 36 {
            if pos + 1 >= buf.len() {
                ScanOutcome::Incomplete
            } else if buf[pos + 1] == 45 {
                // Skip the four bytes of the `-1` null sentinel.
                if buf.len() - (pos + 1) < 4 {
                    ScanOutcome::Incomplete
                } else {
                    ScanOutcome::Done { end: pos + 5 }
                }
            } else {
                match find_crlf(buf, pos + 1) {
                    None => ScanOutcome::Incomplete,
                    Some(t) => match dec_parse_i64(buf.subrange(pos + 1, t)) {
                        None => ScanOutcome::Malformed,
                        Some(v) => {
                            if v < 0 || v > usize::MAX as int {
                                ScanOutcome::Malformed
                            } else if buf.len() - (t + 2) < v + 2 {
                                ScanOutcome::Incomplete
                            } else {
                                ScanOutcome::Done { end: t + 4 + v }
                            }
                        },
                    },
                }
            }
        } else if tag == 42 {
            match find_crlf(buf, pos + 1) {
                None => ScanOutcome::Incomplete,
                Some(t) => match dec_parse_i64(buf.subrange(pos + 1, t)) {
                    None => ScanOutcome::Malformed,
                    Some(v) => {
                        if fuel == 0 {
                            ScanOutcome::OutOfFuel
                        } else {
                            let n = if v < 0 {
                                0
                            } else {
                                v as nat
                            };
                            spec_check_list(buf, t + 2, n, (fuel - 1) as nat)
                        }
                    },
                },
            }
        } else {
            ScanOutcome::Malformed
        }
    }
}

/// Scans `n` consecutive frames starting at `pos`.
pub open spec fn spec_check_list(buf: Seq<u8>, pos: int, n: nat, fuel: nat) -> ScanOutcome
    decreases fuel, n,
{
    if n == 0 {
        ScanOutcome::Done { end: pos }
    } else {
        match spec_check(buf, pos, fuel) {
            ScanOutcome::Done { end } => spec_check_list(buf, end, (n - 1) as nat, fuel),
            other => other,
        }
    }
}

/// A successful scan advances and stays within the buffer.
pub proof fn lemma_check_advances(buf: Seq<u8>, pos: int, fuel: nat)
    ensures
        (spec_check(buf, pos, fuel) matches ScanOutcome::Done { end } ==> pos < end <= buf.len()),
    decreases fuel, 0int,
{
    if 0 <= pos < buf.len() {
        lemma_find_crlf(buf, pos + 1);
        if buf[pos] == 42 {
            if let Some(t) = find_crlf(buf, pos + 1) {
                if dec_parse_i64(buf.subrange(pos + 1, t)) is Some && fuel > 0 {
                    let v = dec_parse_i64(buf.subrange(pos + 1, t))->0;
                    let n: nat = if v < 0 {
                        0
                    } else {
                        v as nat
                    };
                    lemma_check_list_advances(buf, t + 2, n, (fuel - 1) as nat);
                }
            }
        }
    }
}

/// Companion to [`lemma_check_advances`] for frame runs.
pub proof fn lemma_check_list_advances(buf: Seq<u8>, pos: int, n: nat, fuel: nat)
    ensures
        (spec_check_list(buf, pos, n, fuel) matches ScanOutcome::Done { end } ==> pos <= end && (
        pos <= buf.len() ==> end <= buf.len())),
    decreases fuel, n,
{
    if n > 0 {
        lemma_check_advances(buf, pos, fuel);
        if let ScanOutcome::Done { end } = spec_check(buf, pos, fuel) {
            lemma_check_list_advances(buf, end, (n - 1) as nat, fuel);
        }
    }
}

/// Raising the fuel does not change a scan that was already decided.
pub proof fn lemma_check_fuel_mono(buf: Seq<u8>, pos: int, fuel1: nat, fuel2: nat)
    requires
        fuel1 <= fuel2,
        !(spec_check(buf, pos, fuel1) is OutOfFuel),
    ensures
        spec_check(buf, pos, fuel2) == spec_check(buf, pos, fuel1),
    decreases fuel1, 0int,
{
    if 0 <= pos < buf.len() {
        if buf[pos] == 42 {
            if let Some(t) = find_crlf(buf, pos + 1) {
                if let Some(v) = dec_parse_i64(buf.subrange(pos + 1, t)) {
                    let n: nat = if v < 0 {
                        0
                    } else {
                        v as nat
                    };
                    lemma_check_list_fuel_mono(buf, t + 2, n, (fuel1 - 1) as nat, (fuel2
                        - 1) as nat);
                }
            }
        }
    }
}

/// Companion to [`lemma_check_fuel_mono`] for frame runs.
pub proof fn lemma_check_list_fuel_mono(buf: Seq<u8>, pos: int, n: nat, fuel1: nat, fuel2: nat)
    requires
        fuel1 <= fuel2,
        !(spec_check_list(buf, pos, n, fuel1) is OutOfFuel),
    ensures
        spec_check_list(buf, pos, n, fuel2) == spec_check_list(buf, pos, n, fuel1),
    decreases fuel1, n,
{
    if n > 0 {
        lemma_check_fuel_mono(buf, pos, fuel1, fuel2);
        if let ScanOutcome::Done { end } = spec_check(buf, pos, fuel1) {
            lemma_check_list_fuel_mono(buf, end, (n - 1) as nat, fuel1, fuel2);
        }
    }
}

/// With fuel exceeding the number of bytes after `pos`, a scan is never
/// `OutOfFuel`.
pub proof fn lemma_check_enough_fuel(buf: Seq<u8>, pos: int, fuel: nat)
    requires
        fuel >= buf.len() - pos + 1 || fuel >= buf.len() + 1,
    ensures
        !(spec_check(buf, pos, fuel) is OutOfFuel),
    decreases fuel, 0int,
{
    if 0 <= pos < buf.len() {
        if buf[pos] == 42 {
            lemma_find_crlf(buf, pos + 1);
            if let Some(t) = find_crlf(buf, pos + 1) {
                let line = buf.subrange(pos + 1, t);
                if let Some(v) = dec_parse_i64(line) {
                    assert(line.len() >= 1);
                    let n: nat = if v < 0 {
                        0
                    } else {
                        v as nat
                    };
                    lemma_check_list_enough_fuel(buf, t + 2, n, (fuel - 1) as nat);
                }
            }
        }
    }
}

/// Companion to [`lemma_check_enough_fuel`] for frame runs.
pub proof fn lemma_check_list_enough_fuel(buf: Seq<u8>, pos: int, n: nat, fuel: nat)
    requires
        fuel >= buf.len() - pos + 1,
    ensures
        !(spec_check_list(buf, pos, n, fuel) is OutOfFuel),
    decreases fuel, n,
{
    if n > 0 {
        lemma_check_enough_fuel(buf, pos, fuel);
        if let ScanOutcome::Done { end } = spec_check(buf, pos, fuel) {
            lemma_check_advances(buf, pos, fuel);
            lemma_check_list_enough_fuel(buf, end, (n - 1) as nat, fuel);
        }
    }
}

/// The outcome of one completeness scan at `pos`; never `OutOfFuel`.
pub open spec fn spec_check_at(buf: Seq<u8>, pos: int) -> ScanOutcome {
    spec_check(buf, pos, default_fuel(buf))
}

/// [`spec_check_at`] is never `OutOfFuel`, and a successful scan advances.
pub proof fn lemma_check_at(buf: Seq<u8>, pos: int)
    ensures
        !(spec_check_at(buf, pos) is OutOfFuel),
        (spec_check_at(buf, pos) matches ScanOutcome::Done { end } ==> pos < end <= buf.len()),
{
    lemma_check_enough_fuel(buf, pos, default_fuel(buf));
    lemma_check_advances(buf, pos, default_fuel(buf));
}

} // verus!
