//! The encoder: appends the wire representation of a frame onto a growable
//! output buffer, byte-exactly as [`spec_encode`] describes it. Encoding is
//! purely additive and never touches what the buffer already holds.

use vstd::prelude::*;
use bytes::BytesMut;
use crate::buffer::{bytes_mut_extend, bytes_mut_len, bytes_mut_view};
use crate::decimal::{dec_digits, dec_int, lemma_dec_digits_val, push_decimal_i64, push_digits};
use crate::format::{crlf, spec_encode, spec_encode_all};
use crate::redirect::{ask_chars, moved_chars};
use crate::text::{ascii_to_chars, lemma_ascii_bytes, lemma_encode_utf8_concat};
use crate::types::{frames_view, lemma_frames_view_index, Error, Frame, FrameView};
use crate::utils::{dec_chars, redirection_text};

verus! {

broadcast use vstd::std_specs::vec::group_vec_axioms;

/// Appending one frame's bytes appends them after any run of frames.
proof fn lemma_spec_encode_all_push(frames: Seq<FrameView>, fv: FrameView)
    ensures
        spec_encode_all(frames.push(fv)) == spec_encode_all(frames) + spec_encode(fv),
    decreases frames.len(),
{
    reveal_with_fuel(spec_encode_all, 2);
    if frames.len() == 0 {
        assert(frames.push(fv)[0] == fv);
        assert(frames.push(fv).drop_first() =~= Seq::<FrameView>::empty());
        assert(spec_encode_all(frames.push(fv)) =~= spec_encode_all(frames) + spec_encode(fv));
    } else {
        assert(frames.push(fv)[0] == frames[0]);
        assert(frames.push(fv).drop_first() =~= frames.drop_first().push(fv));
        lemma_spec_encode_all_push(frames.drop_first(), fv);
        assert(spec_encode_all(frames.push(fv)) =~= spec_encode_all(frames) + spec_encode(fv));
    }
}

/// The digit characters of `n` spell exactly the digit bytes of `n`.
proof fn lemma_dec_chars_bytes(n: nat)
    ensures
        vstd::utf8::encode_utf8(dec_chars(n)) == dec_digits(n),
{
    lemma_dec_digits_val(n);
    assert(forall|i: int|
        0 <= i < dec_digits(n).len() ==> #[trigger] dec_digits(n)[i] < 128);
    lemma_ascii_bytes(dec_digits(n));
}

/// Writes the minimal decimal rendering of `val` and a line terminator.
fn write_decimal(stream: &mut Vec<u8>, val: i64)
    ensures
        final(stream)@ == old(stream)@ + dec_int(val as int) + crlf(),
{
    push_decimal_i64(stream, val);
    stream.push(13);
    stream.push(10);
    assert(stream@ =~= old(stream)@ + dec_int(val as int) + crlf());
}

/// Writes one frame's wire bytes after the current contents of `stream`.
#[verifier::loop_isolation(false)]
#[verifier::rlimit(60)]
pub fn write_value(stream: &mut Vec<u8>, frame: &Frame)
    ensures
        final(stream)@ == old(stream)@ + spec_encode(frame@),
    decreases *frame,
{
    match frame {
        Frame::SimpleString(val) => {
            stream.push(43);
            stream.extend_from_slice(val.as_str().as_bytes());
            stream.push(13);
            stream.push(10);
            assert(stream@ =~= old(stream)@ + spec_encode(frame@));
        },
        Frame::Error(val) => {
            stream.push(45);
            stream.extend_from_slice(val.as_str().as_bytes());
            stream.push(13);
            stream.push(10);
            assert(stream@ =~= old(stream)@ + spec_encode(frame@));
        },
        Frame::Integer(val) => {
            stream.push(58);
            write_decimal(stream, *val);
            assert(stream@ =~= old(stream)@ + spec_encode(frame@));
        },
        Frame::Null => {
            stream.push(36);
            stream.push(45);
            stream.push(49);
            stream.push(13);
            stream.push(10);
            assert(stream@ =~= old(stream)@ + spec_encode(frame@));
        },
        Frame::BulkString(val) => {
            stream.push(36);
            push_digits(stream, val.len() as u64);
            stream.push(13);
            stream.push(10);
            stream.extend_from_slice(val.as_slice());
            stream.push(13);
            stream.push(10);
            assert(stream@ =~= old(stream)@ + spec_encode(frame@));
        },
        Frame::Array(val) => {
            stream.push(42);
            push_digits(stream, val.len() as u64);
            stream.push(13);
            stream.push(10);
            proof {
                lemma_frames_view_index(val@);
            }
            let ghost frames = frames_view(val@);
            let ghost header = old(stream)@ + seq![42u8] + dec_digits(val@.len() as nat)
                + crlf();
            assert(stream@ =~= header);
            let n = val.len();
            let mut k: usize = 0;
            proof {
                assert(frames.take(0) =~= Seq::<FrameView>::empty());
                assert(header + spec_encode_all(frames.take(0)) =~= header);
            }
            while k < n
                invariant
                    k <= n,
                    n == val@.len(),
                    stream@ == header + spec_encode_all(frames.take(k as int)),
                decreases n - k,
            {
                write_value(stream, &val[k]);
                proof {
                    assert(frames.take(k + 1) =~= frames.take(k as int).push(frames[k as int]));
                    lemma_spec_encode_all_push(frames.take(k as int), frames[k as int]);
                    assert(frames[k as int] == val@[k as int]@);
                }
                k += 1;
                assert(stream@ =~= header + spec_encode_all(frames.take(k as int)));
            }
            proof {
                assert(frames.take(n as int) =~= frames);
                assert(header + spec_encode_all(frames) =~= old(stream)@ + spec_encode(frame@));
            }
        },
        Frame::Moved { slot, host, port } => {
            stream.push(45);
            stream.push(77);
            stream.push(79);
            stream.push(86);
            stream.push(69);
            stream.push(68);
            stream.push(32);
            push_digits(stream, *slot as u64);
            stream.push(32);
            stream.extend_from_slice(host.as_str().as_bytes());
            stream.push(58);
            push_digits(stream, *port as u64);
            stream.push(13);
            stream.push(10);
            proof {
                let pb = seq![77u8, 79u8, 86u8, 69u8, 68u8];
                assert(ascii_to_chars(pb) =~= moved_chars()) by {
                    assert(77u8 as char == 'M' && 79u8 as char == 'O' && 86u8 as char == 'V'
                        && 69u8 as char == 'E' && 68u8 as char == 'D');
                }
                lemma_redirection_text_bytes(moved_chars(), pb, *slot, host@, *port);
            }
            assert(stream@ =~= old(stream)@ + spec_encode(frame@));
        },
        Frame::Ask { slot, host, port } => {
            stream.push(45);
            stream.push(65);
            stream.push(83);
            stream.push(75);
            stream.push(32);
            push_digits(stream, *slot as u64);
            stream.push(32);
            stream.extend_from_slice(host.as_str().as_bytes());
            stream.push(58);
            push_digits(stream, *port as u64);
            stream.push(13);
            stream.push(10);
            proof {
                let pb = seq![65u8, 83u8, 75u8];
                assert(ascii_to_chars(pb) =~= ask_chars()) by {
                    assert(65u8 as char == 'A' && 83u8 as char == 'S' && 75u8 as char == 'K');
                }
                lemma_redirection_text_bytes(ask_chars(), pb, *slot, host@, *port);
            }
            assert(stream@ =~= old(stream)@ + spec_encode(frame@));
        },
    }
}

/// The UTF-8 bytes of a reconstructed redirection text, piece by piece.
pub(crate) proof fn lemma_redirection_text_bytes(
    prefix: Seq<char>,
    prefix_bytes: Seq<u8>,
    slot: u16,
    host: Seq<char>,
    port: u16,
)
    requires
        ascii_to_chars(prefix_bytes) == prefix,
        forall|i: int| 0 <= i < prefix_bytes.len() ==> #[trigger] prefix_bytes[i] < 128,
    ensures
        vstd::utf8::encode_utf8(redirection_text(prefix, slot, host, port)) == prefix_bytes
            + seq![32u8] + dec_digits(slot as nat) + seq![32u8] + vstd::utf8::encode_utf8(host)
            + seq![58u8] + dec_digits(port as nat),
{
    let sp = seq![' '];
    let co = seq![':'];
    let t = redirection_text(prefix, slot, host, port);
    lemma_ascii_bytes(prefix_bytes);
    lemma_ascii_bytes(seq![32u8]);
    assert(ascii_to_chars(seq![32u8]) =~= sp);
    lemma_ascii_bytes(seq![58u8]);
    assert(ascii_to_chars(seq![58u8]) =~= co);
    lemma_dec_chars_bytes(slot as nat);
    lemma_dec_chars_bytes(port as nat);
    lemma_encode_utf8_concat(prefix + sp + dec_chars(slot as nat) + sp + host + co,
        dec_chars(port as nat));
    lemma_encode_utf8_concat(prefix + sp + dec_chars(slot as nat) + sp + host, co);
    lemma_encode_utf8_concat(prefix + sp + dec_chars(slot as nat) + sp, host);
    lemma_encode_utf8_concat(prefix + sp + dec_chars(slot as nat), sp);
    lemma_encode_utf8_concat(prefix + sp, dec_chars(slot as nat));
    lemma_encode_utf8_concat(prefix, sp);
    assert(vstd::utf8::encode_utf8(t) =~= prefix_bytes + seq![32u8] + dec_digits(slot as nat)
        + seq![32u8] + vstd::utf8::encode_utf8(host) + seq![58u8] + dec_digits(port as nat));
}

/// Writes a single frame's wire representation onto the transport buffer.
/// Purely additive: everything the buffer held stays in place.
pub fn write_frame(stream: &mut BytesMut, frame: &Frame) -> (r: Result<(), Error>)
    ensures
        bytes_mut_view(*final(stream)) == bytes_mut_view(*old(stream)) + spec_encode(frame@),
        r is Ok,
{
    let mut out: Vec<u8> = Vec::new();
    write_value(&mut out, frame);
    bytes_mut_extend(stream, out.as_slice());
    proof {
        assert(bytes_mut_view(*stream) =~= bytes_mut_view(*old(stream)) + spec_encode(frame@));
    }
    Ok(())
}

/// Appends the wire representation of `frame` to `buf` and returns the
/// buffer's new total length.
pub fn encode(buf: &mut BytesMut, frame: &Frame) -> (r: Result<usize, Error>)
    ensures
        bytes_mut_view(*final(buf)) == bytes_mut_view(*old(buf)) + spec_encode(frame@),
        r is Ok && r->Ok_0 == bytes_mut_view(*final(buf)).len(),
{
    let res = write_frame(buf, frame);
    match res {
        Ok(()) => Ok(bytes_mut_len(buf)),
        Err(e) => Err(e),
    }
}

} // verus!
