//! The incremental decoder: reads at most one frame from the front of a byte
//! buffer, telling "not enough bytes yet" apart from "malformed data".

use vstd::prelude::*;
use vstd::slice::{slice_subrange, slice_to_vec};
use bytes::BytesMut;
use crate::buffer::{bytes_mut_slice, bytes_mut_view};
use crate::decimal::parse_decimal_i64;
use crate::parsing::{
    default_fuel, find_crlf, glue_list, lemma_check_advances, lemma_check_at,
    lemma_check_enough_fuel, lemma_check_fuel_mono, lemma_find_crlf, lemma_parse_advances,
    lemma_parse_at, lemma_parse_enough_fuel, lemma_parse_fuel_mono, spec_check_at,
    spec_check_list, spec_parse_at, spec_parse_list, ListOutcome, ParseOutcome, ScanOutcome,
};
use crate::text::vec_into_string;
use crate::types::{frames_view, lemma_frames_view_push, Error, Frame};
use crate::utils::string_to_redirection;

verus! {

/// The fixed diagnostic for data that can never complete into a valid frame.
fn format_error() -> (r: Error)
    ensures
        r is Other,
{
    Error::Other("protocol error; invalid frame format".to_owned())
}

/// The fixed diagnostic for an unknown leading type byte.
fn frame_type_error() -> (r: Error)
    ensures
        r is Other,
{
    Error::Other("protocol error; invalid frame type byte".to_owned())
}

/// The first index `t >= start` where `buf` holds the two-byte terminator.
fn find_crlf_slice(buf: &[u8], start: usize) -> (r: Option<usize>)
    requires
        start <= buf@.len(),
    ensures
        match find_crlf(buf@, start as int) {
            Some(t) => r is Some && r->0 == t,
            None => r is None,
        },
{
    let len = buf.len();
    if start >= len {
        return None;
    }
    let mut i = start;
    while i + 1 < len
        invariant
            start <= i < len,
            len == buf@.len(),
            find_crlf(buf@, start as int) == find_crlf(buf@, i as int),
        decreases len - i,
    {
        if buf[i] == 13 && buf[i + 1] == 10 {
            return Some(i);
        }
        i += 1;
    }
    None
}

impl Frame {
    /// Reads the single frame that begins at `pos` in `src`, materializing it
    /// together with the position just past its bytes. The outcome is exactly
    /// what [`spec_parse_at`] describes: a frame, `Incomplete` when the
    /// buffer ends too early, or a hard error on a protocol violation.
    #[verifier::loop_isolation(false)]
    pub fn parse(src: &[u8], pos: usize) -> (r: Result<(Frame, usize), Error>)
        ensures
            match spec_parse_at(src@, pos as int) {
                ParseOutcome::Found { frame, end } => r is Ok && r->Ok_0.0@ == frame
                    && r->Ok_0.1 == end,
                ParseOutcome::Incomplete => r is Err && r->Err_0 is Incomplete,
                ParseOutcome::Malformed => r is Err && r->Err_0 is Other,
                ParseOutcome::OutOfFuel => false,
            },
        decreases src@.len() - pos,
    {
        proof {
            lemma_parse_at(src@, pos as int);
        }
        let ghost fuel0 = default_fuel(src@);
        let len = src.len();
        if pos >= len {
            return Err(Error::Incomplete);
        }
        let tag = src[pos];
        if tag == 43 {  // '+' simple string
            match find_crlf_slice(src, pos + 1) {
                None => Err(Error::Incomplete),
                Some(t) => {
                    proof {
                        lemma_find_crlf(src@, pos + 1);
                    }
                    let line = slice_to_vec(slice_subrange(src, pos + 1, t));
                    match vec_into_string(line) {
                        Some(s) => Ok((Frame::SimpleString(s), t + 2)),
                        None => Err(format_error()),
                    }
                },
            }
        } else if tag == 45 {  // '-' error, possibly a redirection
            match find_crlf_slice(src, pos + 1) {
                None => Err(Error::Incomplete),
                Some(t) => {
                    proof {
                        lemma_find_crlf(src@, pos + 1);
                    }
                    let line = slice_to_vec(slice_subrange(src, pos + 1, t));
                    match vec_into_string(line) {
                        None => Err(format_error()),
                        Some(s) => match string_to_redirection(&s) {
                            Ok(rd) => {
                                let f = Frame::from(rd);
                                Ok((f, t + 2))
                            },
                            Err(_) => Ok((Frame::Error(s), t + 2)),
                        },
                    }
                },
            }
        } else if tag == 58 {  // ':' integer
            match find_crlf_slice(src, pos + 1) {
                None => Err(Error::Incomplete),
                Some(t) => {
                    proof {
                        lemma_find_crlf(src@, pos + 1);
                    }
                    let line = slice_subrange(src, pos + 1, t);
                    match parse_decimal_i64(line) {
                        Some(v) => Ok((Frame::Integer(v), t + 2)),
                        None => Err(format_error()),
                    }
                },
            }
        } else if tag == 36 {  // '$' bulk string or null
            if pos + 1 >= len {
                return Err(Error::Incomplete);
            }
            if src[pos + 1] == 45 {
                match find_crlf_slice(src, pos + 1) {
                    None => Err(Error::Incomplete),
                    Some(t) => {
                        proof {
                            lemma_find_crlf(src@, pos + 1);
                        }
                        let ghost line = src@.subrange(pos + 1, t as int);
                        if t == pos + 3 && src[pos + 2] == 49 {
                            proof {
                                assert(line =~= seq![45u8, 49u8]);
                            }
                            Ok((Frame::Null, t + 2))
                        } else {
                            proof {
                                if line == seq![45u8, 49u8] {
                                    assert(t - (pos + 1) == 2);
                                    assert(line[1] == src@[pos + 2]);
                                }
                            }
                            Err(format_error())
                        }
                    },
                }
            } else {
                match find_crlf_slice(src, pos + 1) {
                    None => Err(Error::Incomplete),
                    Some(t) => {
                        proof {
                            lemma_find_crlf(src@, pos + 1);
                        }
                        let line = slice_subrange(src, pos + 1, t);
                        match parse_decimal_i64(line) {
                            None => Err(format_error()),
                            Some(v) => {
                                if v < 0 {
                                    return Err(format_error());
                                }
                                if (v as u64) > (usize::MAX as u64) {
                                    return Err(format_error());
                                }
                                let l = v as usize;
                                let remaining = len - (t + 2);
                                if remaining < l || remaining - l < 2 {
                                    return Err(Error::Incomplete);
                                }
                                if src[t + 2 + l] == 13 && src[t + 3 + l] == 10 {
                                    let data = slice_to_vec(slice_subrange(src, t + 2, t + 2 + l));
                                    Ok((Frame::BulkString(data), t + 4 + l))
                                } else {
                                    Err(format_error())
                                }
                            },
                        }
                    },
                }
            }
        } else if tag == 42 {  // '*' array
            match find_crlf_slice(src, pos + 1) {
                None => Err(Error::Incomplete),
                Some(t) => {
                    proof {
                        lemma_find_crlf(src@, pos + 1);
                    }
                    let line = slice_subrange(src, pos + 1, t);
                    match parse_decimal_i64(line) {
                        None => Err(format_error()),
                        Some(v) => {
                            if v < 0 {
                                return Err(format_error());
                            }
                            if (v as u64) > (usize::MAX as u64) {
                                return Err(format_error());
                            }
                            let n = v as usize;
                            proof {
                                assert(fuel0 >= 1);
                            }
                            let ghost fuel1 = (fuel0 - 1) as nat;
                            let mut items: Vec<Frame> = Vec::new();
                            let mut p: usize = t + 2;
                            let mut k: usize = 0;
                            proof {
                                assert(frames_view(items@) =~= Seq::<
                                    crate::types::FrameView,
                                >::empty());
                                assert(glue_list(
                                    frames_view(items@),
                                    spec_parse_list(src@, p as int, (n - k) as nat, fuel1),
                                ) == spec_parse_list(src@, t + 2, n as nat, fuel1)) by {
                                    if let ListOutcome::Found { frames, end } = spec_parse_list(
                                        src@,
                                        t + 2,
                                        n as nat,
                                        fuel1,
                                    ) {
                                        assert(frames_view(items@) + frames =~= frames);
                                    }
                                }
                            }
                            while k < n
                                invariant
                                    k <= n,
                                    len == src@.len(),
                                    pos < t + 2 <= p <= len,
                                    fuel0 == default_fuel(src@),
                                    fuel1 == (fuel0 - 1) as nat,
                                    fuel1 >= len,
                                    items@.len() == k,
                                    glue_list(
                                        frames_view(items@),
                                        spec_parse_list(src@, p as int, (n - k) as nat, fuel1),
                                    ) == spec_parse_list(src@, t + 2, n as nat, fuel1),
                                decreases n - k,
                            {
                                proof {
                                    lemma_parse_enough_fuel(src@, p as int, fuel1);
                                    lemma_parse_fuel_mono(src@, p as int, fuel1, fuel0);
                                    lemma_parse_advances(src@, p as int, fuel1);
                                }
                                match Frame::parse(src, p) {
                                    Err(e) => {
                                        return Err(e);
                                    },
                                    Ok((f, end)) => {
                                        proof {
                                            let rest = spec_parse_list(
                                                src@,
                                                end as int,
                                                (n - k - 1) as nat,
                                                fuel1,
                                            );
                                            lemma_frames_view_push(items@, f);
                                            if let ListOutcome::Found { frames, end: e2 } = rest {
                                                assert(frames_view(items@) + (seq![f@] + frames)
                                                    =~= frames_view(items@.push(f)) + frames);
                                            }
                                        }
                                        items.push(f);
                                        p = end;
                                        k += 1;
                                    },
                                }
                            }
                            proof {
                                assert(spec_parse_list(src@, p as int, 0nat, fuel1)
                                    == (ListOutcome::Found {
                                    frames: Seq::<crate::types::FrameView>::empty(),
                                    end: p as int,
                                }));
                                assert(frames_view(items@) + Seq::<
                                    crate::types::FrameView,
                                >::empty() =~= frames_view(items@));
                            }
                            Ok((Frame::Array(items), p))
                        },
                    }
                },
            }
        } else {
            Err(frame_type_error())
        }
    }
}


impl Frame {
    /// Checks whether an entire frame can be read from `src` at `pos`,
    /// without materializing it, and returns the position just past its
    /// bytes. The scan is purely advisory, side-effect-free and idempotent;
    /// [`spec_check_at`] states exactly what it answers.
    #[verifier::loop_isolation(false)]
    pub fn check(src: &[u8], pos: usize) -> (r: Result<usize, Error>)
        ensures
            match spec_check_at(src@, pos as int) {
                ScanOutcome::Done { end } => r is Ok && r->Ok_0 == end,
                ScanOutcome::Incomplete => r is Err && r->Err_0 is Incomplete,
                ScanOutcome::Malformed => r is Err && r->Err_0 is Other,
                ScanOutcome::OutOfFuel => false,
            },
        decreases src@.len() - pos,
    {
        proof {
            lemma_check_at(src@, pos as int);
        }
        let ghost fuel0 = default_fuel(src@);
        let len = src.len();
        if pos >= len {
            return Err(Error::Incomplete);
        }
        let tag = src[pos];
        if tag == 43 || tag == 45 {
            match find_crlf_slice(src, pos + 1) {
                None => Err(Error::Incomplete),
                Some(t) => Ok(t + 2),
            }
        } else if tag == 58 {
            match find_crlf_slice(src, pos + 1) {
                None => Err(Error::Incomplete),
                Some(t) => {
                    proof {
                        lemma_find_crlf(src@, pos + 1);
                    }
                    match parse_decimal_i64(slice_subrange(src, pos + 1, t)) {
                        Some(_) => Ok(t + 2),
                        None => Err(format_error()),
                    }
                },
            }
        } else if tag == 36 {
            if pos + 1 >= len {
                return Err(Error::Incomplete);
            }
            if src[pos + 1] == 45 {
                // Skip the four bytes of the null sentinel.
                if len - (pos + 1) < 4 {
                    Err(Error::Incomplete)
                } else {
                    Ok(pos + 5)
                }
            } else {
                match find_crlf_slice(src, pos + 1) {
                    None => Err(Error::Incomplete),
                    Some(t) => {
                        proof {
                            lemma_find_crlf(src@, pos + 1);
                        }
                        match parse_decimal_i64(slice_subrange(src, pos + 1, t)) {
                            None => Err(format_error()),
                            Some(v) => {
                                if v < 0 {
                                    return Err(format_error());
                                }
                                if (v as u64) > (usize::MAX as u64) {
                                    return Err(format_error());
                                }
                                let l = v as usize;
                                let remaining = len - (t + 2);
                                if remaining < l || remaining - l < 2 {
                                    Err(Error::Incomplete)
                                } else {
                                    Ok(t + 4 + l)
                                }
                            },
                        }
                    },
                }
            }
        } else if tag == 42 {
            match find_crlf_slice(src, pos + 1) {
                None => Err(Error::Incomplete),
                Some(t) => {
                    proof {
                        lemma_find_crlf(src@, pos + 1);
                    }
                    match parse_decimal_i64(slice_subrange(src, pos + 1, t)) {
                        None => Err(format_error()),
                        Some(v) => {
                            proof {
                                assert(fuel0 >= 1);
                            }
                            let ghost fuel1 = (fuel0 - 1) as nat;
                            let ghost n: nat = if v < 0 {
                                0
                            } else {
                                v as nat
                            };
                            let mut p: usize = t + 2;
                            let mut i: i64 = 0;
                            proof {
                                assert(spec_check_list(src@, p as int, (n - 0) as nat, fuel1)
                                    == spec_check_list(src@, t + 2, n, fuel1));
                            }
                            while i < v
                                invariant
                                    0 <= i,
                                    v >= 0 ==> i <= v,
                                    v < 0 ==> i == 0,
                                    n == (if v < 0 { 0int } else { v as int }),
                                    len == src@.len(),
                                    pos < t + 2 <= p <= len,
                                    fuel0 == default_fuel(src@),
                                    fuel1 == (fuel0 - 1) as nat,
                                    fuel1 >= len,
                                    spec_check_list(src@, p as int, (n - i) as nat, fuel1)
                                        == spec_check_list(src@, t + 2, n, fuel1),
                                decreases v - i,
                            {
                                proof {
                                    lemma_check_enough_fuel(src@, p as int, fuel1);
                                    lemma_check_fuel_mono(src@, p as int, fuel1, fuel0);
                                    lemma_check_advances(src@, p as int, fuel1);
                                }
                                match Frame::check(src, p) {
                                    Err(e) => {
                                        return Err(e);
                                    },
                                    Ok(end) => {
                                        p = end;
                                        i += 1;
                                    },
                                }
                            }
                            Ok(p)
                        },
                    }
                },
            }
        } else {
            Err(frame_type_error())
        }
    }
}

/// Attempts to read the first frame from `buf`, returning it together with
/// the number of bytes it occupied. An incomplete frame yields `(None, 0)`;
/// a protocol violation is a hard error. The buffer itself is never touched:
/// the caller advances it by the returned count.
pub fn decode(buf: &[u8]) -> (r: Result<(Option<Frame>, usize), Error>)
    ensures
        match spec_parse_at(buf@, 0) {
            ParseOutcome::Found { frame, end } => r is Ok && r->Ok_0.0 is Some
                && r->Ok_0.0->0@ == frame && r->Ok_0.1 == end,
            ParseOutcome::Incomplete => r is Ok && r->Ok_0.0 is None && r->Ok_0.1 == 0,
            ParseOutcome::Malformed => r is Err && r->Err_0 is Other,
            ParseOutcome::OutOfFuel => false,
        },
{
    match Frame::parse(buf, 0) {
        Ok((f, consumed)) => Ok((Some(f), consumed)),
        Err(Error::Incomplete) => Ok((None, 0)),
        Err(Error::Other(e)) => Err(Error::Other(e)),
    }
}

/// [`decode`] on the contents of a growable transport buffer.
///
/// The caller is responsible for consuming the returned number of bytes.
pub fn decode_bytes(buf: &BytesMut) -> (r: Result<(Option<Frame>, usize), Error>)
    ensures
        match spec_parse_at(bytes_mut_view(*buf), 0) {
            ParseOutcome::Found { frame, end } => r is Ok && r->Ok_0.0 is Some
                && r->Ok_0.0->0@ == frame && r->Ok_0.1 == end,
            ParseOutcome::Incomplete => r is Ok && r->Ok_0.0 is None && r->Ok_0.1 == 0,
            ParseOutcome::Malformed => r is Err && r->Err_0 is Other,
            ParseOutcome::OutOfFuel => false,
        },
{
    decode(bytes_mut_slice(buf))
}

} // verus!
