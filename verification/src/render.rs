//! The textual rendering of a frame, for logs and interactive display:
//! simple strings verbatim, errors behind an `error: ` marker, integers in
//! decimal, bulk strings as text when they are valid UTF-8 and in an escaped
//! byte form otherwise, `(nil)` for null, array children separated by single
//! spaces, and redirections as their reconstructed text.

use vstd::prelude::*;
use vstd::string::StrSliceExecFns;
use vstd::string::StringExecFns;
use vstd::utf8::{decode_utf8, valid_utf8};
use crate::decimal::{dec_int, push_decimal_i64};
use crate::redirect::{ask_chars, moved_chars};
use crate::text::{ascii_to_chars, bytes_as_str, lemma_ascii_bytes, vec_into_string};
use crate::types::{frames_view, lemma_frames_view_index, Frame, FrameView};
use crate::utils::{redirection_text, redirection_to_frame};

verus! {

/// The lowercase hexadecimal digit byte for `n < 16`.
pub open spec fn hex_digit(n: int) -> u8 {
    if n < 10 {
        (48 + n) as u8
    } else {
        (87 + n) as u8
    }
}

/// The escaped byte form of one byte: printable ASCII stands for itself,
/// everything else as `\x` and two hexadecimal digits.
pub open spec fn escape_byte(b: u8) -> Seq<u8> {
    if 32 <= b < 127 && b != 92 {
        seq![b]
    } else {
        seq![92u8, 120u8, hex_digit(b as int / 16), hex_digit(b as int % 16)]
    }
}

/// The escaped byte form of a whole payload.
pub open spec fn escape_bytes(b: Seq<u8>) -> Seq<u8>
    decreases b.len(),
{
    if b.len() == 0 {
        Seq::empty()
    } else {
        escape_byte(b[0]) + escape_bytes(b.drop_first())
    }
}

/// The rendering of one frame, as characters.
pub open spec fn spec_render(fv: FrameView) -> Seq<char>
    decreases fv, 1int,
{
    match fv {
        FrameView::SimpleString(s) => s,
        FrameView::Error(s) => seq!['e', 'r', 'r', 'o', 'r', ':', ' '] + s,
        FrameView::Integer(i) => ascii_to_chars(dec_int(i as int)),
        FrameView::BulkString(b) => if valid_utf8(b) {
            decode_utf8(b)
        } else {
            ascii_to_chars(escape_bytes(b))
        },
        FrameView::Null => seq!['(', 'n', 'i', 'l', ')'],
        FrameView::Array(frames) => if frames.len() == 0 {
            Seq::empty()
        } else {
            spec_render(frames[0]) + spec_render_tail(frames.drop_first())
        },
        FrameView::Moved { slot, host, port } => redirection_text(moved_chars(), slot, host, port),
        FrameView::Ask { slot, host, port } => redirection_text(ask_chars(), slot, host, port),
    }
}

/// The rendering of the children after the first: each behind one space.
pub open spec fn spec_render_tail(frames: Seq<FrameView>) -> Seq<char>
    decreases frames, 0int,
{
    if frames.len() == 0 {
        Seq::empty()
    } else {
        seq![' '] + spec_render(frames[0]) + spec_render_tail(frames.drop_first())
    }
}

/// Appending one child appends one space and its rendering.
proof fn lemma_render_tail_push(frames: Seq<FrameView>, fv: FrameView)
    ensures
        spec_render_tail(frames.push(fv)) == spec_render_tail(frames) + seq![' ']
            + spec_render(fv),
    decreases frames.len(),
{
    reveal_with_fuel(spec_render_tail, 2);
    if frames.len() == 0 {
        assert(frames.push(fv)[0] == fv);
        assert(frames.push(fv).drop_first() =~= Seq::<FrameView>::empty());
        assert(spec_render_tail(frames.push(fv)) =~= spec_render_tail(frames) + seq![' ']
            + spec_render(fv));
    } else {
        assert(frames.push(fv)[0] == frames[0]);
        assert(frames.push(fv).drop_first() =~= frames.drop_first().push(fv));
        lemma_render_tail_push(frames.drop_first(), fv);
        assert(spec_render_tail(frames.push(fv)) =~= spec_render_tail(frames) + seq![' ']
            + spec_render(fv));
    }
}

/// Appending one escaped byte.
proof fn lemma_escape_bytes_push(b: Seq<u8>, x: u8)
    ensures
        escape_bytes(b.push(x)) == escape_bytes(b) + escape_byte(x),
    decreases b.len(),
{
    reveal_with_fuel(escape_bytes, 2);
    if b.len() == 0 {
        assert(b.push(x)[0] == x);
        assert(b.push(x).drop_first() =~= Seq::<u8>::empty());
        assert(escape_bytes(b.push(x)) =~= escape_bytes(b) + escape_byte(x));
    } else {
        assert(b.push(x)[0] == b[0]);
        assert(b.push(x).drop_first() =~= b.drop_first().push(x));
        lemma_escape_bytes_push(b.drop_first(), x);
        assert(escape_bytes(b.push(x)) =~= escape_bytes(b) + escape_byte(x));
    }
}

/// Every escaped byte is ASCII.
proof fn lemma_escape_bytes_ascii(b: Seq<u8>)
    ensures
        forall|i: int| 0 <= i < escape_bytes(b).len() ==> #[trigger] escape_bytes(b)[i] < 128,
    decreases b.len(),
{
    if b.len() > 0 {
        lemma_escape_bytes_ascii(b.drop_first());
        let eb = escape_byte(b[0]);
        assert(forall|i: int| 0 <= i < eb.len() ==> #[trigger] eb[i] < 128);
        assert(forall|i: int|
            0 <= i < escape_bytes(b).len() ==> #[trigger] escape_bytes(b)[i] == if i < eb.len() {
                eb[i]
            } else {
                escape_bytes(b.drop_first())[i - eb.len()]
            });
    }
}

/// Builds the escaped byte form of a payload.
fn escape_payload(b: &[u8]) -> (r: Vec<u8>)
    ensures
        r@ == escape_bytes(b@),
{
    let mut out: Vec<u8> = Vec::new();
    let n = b.len();
    let mut i: usize = 0;
    proof {
        assert(b@.take(0) =~= Seq::<u8>::empty());
    }
    while i < n
        invariant
            i <= n,
            n == b@.len(),
            out@ == escape_bytes(b@.take(i as int)),
        decreases n - i,
    {
        let x = b[i];
        proof {
            assert(b@.take(i + 1) =~= b@.take(i as int).push(x));
            lemma_escape_bytes_push(b@.take(i as int), x);
        }
        if 32 <= x && x < 127 && x != 92 {
            out.push(x);
        } else {
            out.push(92);
            out.push(120);
            let hi = x / 16;
            let lo = x % 16;
            out.push(if hi < 10 { 48 + hi } else { 87 + hi });
            out.push(if lo < 10 { 48 + lo } else { 87 + lo });
        }
        i += 1;
        assert(out@ =~= escape_bytes(b@.take(i as int)));
    }
    proof {
        assert(b@.take(n as int) =~= b@);
    }
    out
}

impl Frame {
    /// Renders the frame as display text, exactly as [`spec_render`] says.
    #[verifier::loop_isolation(false)]
    pub fn display_string(&self) -> (r: String)
        ensures
            r@ == spec_render(self@),
        decreases *self,
    {
        match self {
            Frame::SimpleString(s) => s.clone(),
            Frame::Error(s) => {
                proof {
                    reveal_strlit("error: ");
                }
                let mut out: String = "error: ".to_owned();
                proof {
                    assert(out@ =~= seq!['e', 'r', 'r', 'o', 'r', ':', ' ']);
                }
                out.append(s.as_str());
                out
            },
            Frame::Integer(i) => {
                let mut digits: Vec<u8> = Vec::new();
                push_decimal_i64(&mut digits, *i);
                proof {
                    crate::decimal::lemma_dec_digits_val(
                        if *i < 0 {
                            (-(*i as int)) as nat
                        } else {
                            (*i as int) as nat
                        },
                    );
                    assert(forall|k: int|
                        0 <= k < digits@.len() ==> #[trigger] digits@[k] < 128);
                    lemma_ascii_bytes(digits@);
                }
                match vec_into_string(digits) {
                    Some(s) => s,
                    None => {
                        proof {
                            assert(false);
                        }
                        String::new()
                    },
                }
            },
            Frame::BulkString(b) => {
                match bytes_as_str(b.as_slice()) {
                    Some(s) => s.to_owned(),
                    None => {
                        let escaped = escape_payload(b.as_slice());
                        proof {
                            lemma_escape_bytes_ascii(b@);
                            lemma_ascii_bytes(escaped@);
                        }
                        match vec_into_string(escaped) {
                            Some(s) => s,
                            None => {
                                proof {
                                    assert(false);
                                }
                                String::new()
                            },
                        }
                    },
                }
            },
            Frame::Null => {
                proof {
                    reveal_strlit("(nil)");
                }
                let out: String = "(nil)".to_owned();
                proof {
                    assert(out@ =~= seq!['(', 'n', 'i', 'l', ')']);
                }
                out
            },
            Frame::Array(items) => {
                proof {
                    lemma_frames_view_index(items@);
                }
                let ghost frames = frames_view(items@);
                let n = items.len();
                if n == 0 {
                    let out = String::new();
                    proof {
                        assert(out@ =~= spec_render(self@));
                    }
                    out
                } else {
                    let first: &Frame = &items[0];
                    let mut out: String = first.display_string();
                    let mut i: usize = 1;
                    proof {
                        reveal_strlit(" ");
                        assert(frames.subrange(1, 1) =~= Seq::<FrameView>::empty());
                        assert(out@ =~= spec_render(frames[0]) + spec_render_tail(
                            frames.subrange(1, 1),
                        ));
                    }
                    while i < n
                        invariant
                            1 <= i <= n,
                            n == items@.len(),
                            frames == frames_view(items@),
                            frames.len() == n,
                            forall|k: int| 0 <= k < n ==> #[trigger] frames[k] == items@[k]@,
                            out@ == spec_render(frames[0]) + spec_render_tail(
                                frames.subrange(1, i as int),
                            ),
                        decreases n - i,
                    {
                        out.append(" ");
                        let child: &Frame = &items[i];
                        let rendered = child.display_string();
                        out.append(rendered.as_str());
                        proof {
                            assert(" "@ =~= seq![' ']);
                            assert(frames.subrange(1, i + 1) =~= frames.subrange(
                                1,
                                i as int,
                            ).push(frames[i as int]));
                            lemma_render_tail_push(frames.subrange(1, i as int), frames[i as int]);
                        }
                        i += 1;
                        assert(out@ =~= spec_render(frames[0]) + spec_render_tail(
                            frames.subrange(1, i as int),
                        ));
                    }
                    proof {
                        assert(frames.subrange(1, n as int) =~= frames.drop_first());
                        assert(out@ =~= spec_render(self@));
                    }
                    out
                }
            },
            Frame::Moved { slot, host, port } => {
                proof {
                    reveal_strlit("MOVED");
                }
                let out = redirection_to_frame("MOVED", *slot, host.as_str(), *port);
                proof {
                    assert("MOVED"@ =~= moved_chars());
                }
                out
            },
            Frame::Ask { slot, host, port } => {
                proof {
                    reveal_strlit("ASK");
                }
                let out = redirection_to_frame("ASK", *slot, host.as_str(), *port);
                proof {
                    assert("ASK"@ =~= ask_chars());
                }
                out
            },
        }
    }
}

} // verus!
