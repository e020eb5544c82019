//! The wire format, byte-exact: what the encoder writes for every frame, and
//! which frames survive a decode round trip unchanged.

use vstd::prelude::*;
use vstd::utf8::{encode_scalar, encode_utf8};
use crate::decimal::{dec_digits, dec_int};
use crate::redirect::spec_redirection;
use crate::types::FrameView;
use crate::utils::redirection_text;
use crate::redirect::{ask_chars, moved_chars};

verus! {

/// The two-byte line terminator.
pub open spec fn crlf() -> Seq<u8> {
    seq![13u8, 10u8]
}

/// The wire bytes of one frame.
pub open spec fn spec_encode(fv: FrameView) -> Seq<u8>
    decreases fv,
{
    match fv {
        FrameView::SimpleString(s) => seq![43u8] + encode_utf8(s) + crlf(),
        FrameView::Error(s) => seq![45u8] + encode_utf8(s) + crlf(),
        FrameView::Integer(i) => seq![58u8] + dec_int(i as int) + crlf(),
        FrameView::BulkString(b) => seq![36u8] + dec_digits(b.len()) + crlf() + b + crlf(),
        FrameView::Null => seq![36u8, 45u8, 49u8, 13u8, 10u8],
        FrameView::Array(frames) => seq![42u8] + dec_digits(frames.len()) + crlf()
            + spec_encode_all(frames),
        FrameView::Moved { slot, host, port } => seq![45u8] + encode_utf8(
            redirection_text(moved_chars(), slot, host, port),
        ) + crlf(),
        FrameView::Ask { slot, host, port } => seq![45u8] + encode_utf8(
            redirection_text(ask_chars(), slot, host, port),
        ) + crlf(),
    }
}

/// The wire bytes of a run of frames, in order.
pub open spec fn spec_encode_all(frames: Seq<FrameView>) -> Seq<u8>
    decreases frames,
{
    if frames.len() == 0 {
        Seq::empty()
    } else {
        spec_encode(frames[0]) + spec_encode_all(frames.drop_first())
    }
}

/// Text that survives the wire: it never contains the two-character line
/// terminator, which would end the frame early.
pub open spec fn text_wf(s: Seq<char>) -> bool {
    forall|i: int| 0 <= i < s.len() - 1 ==> !(#[trigger] s[i] == '\r' && s[i + 1] == '\n')
}

/// A host name that survives reconstruction: the redirection grammar splits
/// on spaces and on the colon, and scans lines on the wire.
pub open spec fn host_wf(h: Seq<char>) -> bool {
    text_wf(h) && forall|i: int| 0 <= i < h.len() ==> #[trigger] h[i] != ' ' && h[i] != ':'
}

/// The frames whose encoding decodes back to the same frame: their texts do
/// not contain a line terminator, an error text does not itself read as a
/// redirection, hosts avoid the delimiters, and sizes fit the machine.
pub open spec fn frame_wf(fv: FrameView) -> bool
    decreases fv,
{
    match fv {
        FrameView::SimpleString(s) => text_wf(s),
        FrameView::Error(s) => text_wf(s) && spec_redirection(s) is None,
        FrameView::Integer(_) => true,
        FrameView::BulkString(b) => b.len() <= usize::MAX && b.len() <= i64::MAX,
        FrameView::Null => true,
        FrameView::Array(frames) => frames.len() <= usize::MAX && frames.len() <= i64::MAX
            && (forall|i: int|
            0 <= i < frames.len() ==> frame_wf(#[trigger] frames[i])),
        FrameView::Moved { slot: _, host, port: _ } => host_wf(host),
        FrameView::Ask { slot: _, host, port: _ } => host_wf(host),
    }
}

/// A character below 128 encodes as its own single byte; any other character
/// encodes entirely as bytes of 128 and above.
pub proof fn lemma_encode_scalar_byte(c: char)
    ensures
        (c as u32) < 128 ==> encode_scalar(c as u32) == seq![(c as u32) as u8],
        (c as u32) >= 128 ==> forall|k: int|
            0 <= k < encode_scalar(c as u32).len() ==> #[trigger] encode_scalar(c as u32)[k]
                >= 128,
{
    let v = c as u32;
    if v < 128 {
        assert((v & 0x7F) == v) by (bit_vector)
            requires
                v < 128,
        ;
        assert(encode_scalar(v) =~= seq![(v & 0x7F) as u8]);
        assert((v & 0x7F) as u8 == v as u8) by (bit_vector)
            requires
                v < 128,
        ;
    } else {
        assert((0xC0u8 | ((v >> 6) & 0x1F) as u8) >= 128) by (bit_vector);
        assert((0xE0u8 | ((v >> 12) & 0x0F) as u8) >= 128) by (bit_vector);
        assert((0xF0u8 | ((v >> 18) & 0x07) as u8) >= 128) by (bit_vector);
        assert((0x80u8 | (v & 0x3F) as u8) >= 128) by (bit_vector);
        assert((0x80u8 | ((v >> 6) & 0x3F) as u8) >= 128) by (bit_vector);
        assert((0x80u8 | ((v >> 12) & 0x3F) as u8) >= 128) by (bit_vector);
    }
}

/// The first byte of an encoded text mirrors its first character: equal to it
/// when that character is below 128, and at least 128 otherwise.
pub proof fn lemma_encode_utf8_first_byte(s: Seq<char>)
    requires
        s.len() > 0,
    ensures
        encode_utf8(s).len() > 0,
        (s[0] as u32) < 128 ==> encode_utf8(s)[0] == (s[0] as u32) as u8,
        (s[0] as u32) >= 128 ==> encode_utf8(s)[0] >= 128,
{
    lemma_encode_scalar_byte(s[0]);
    vstd::utf8::char_is_scalar(s[0]);
    assert(encode_scalar(s[0] as u32).len() >= 1);
    assert(encode_utf8(s)[0] == encode_scalar(s[0] as u32)[0]);
}

/// Well-formed text never encodes to bytes that contain the line terminator.
pub proof fn lemma_text_wf_no_crlf(s: Seq<char>)
    requires
        text_wf(s),
    ensures
        forall|k: int|
            0 <= k < encode_utf8(s).len() - 1 ==> !(#[trigger] encode_utf8(s)[k] == 13
                && encode_utf8(s)[k + 1] == 10),
    decreases s.len(),
{
    if s.len() > 0 {
        let c = s[0];
        let sc = encode_scalar(c as u32);
        let rest = s.drop_first();
        let rb = encode_utf8(rest);
        let eb = encode_utf8(s);
        assert(eb == sc + rb);
        lemma_encode_scalar_byte(c);
        vstd::utf8::char_is_scalar(c);
        assert(text_wf(rest)) by {
            assert(forall|i: int|
                0 <= i < rest.len() ==> #[trigger] rest[i] == s[i + 1]);
        }
        lemma_text_wf_no_crlf(rest);
        let l = sc.len() as int;
        assert(1 <= l <= 4);
        assert forall|k: int| 0 <= k < eb.len() - 1 implies !(#[trigger] eb[k] == 13 && eb[k + 1]
            == 10) by {
            if k >= l {
                assert(eb[k] == rb[k - l] && eb[k + 1] == rb[k - l + 1]);
            } else if k < l - 1 {
                // Both bytes inside the first character's encoding.
                if c as u32 >= 128 {
                    assert(eb[k] == sc[k] && sc[k] >= 128);
                }
                // A character below 128 encodes as one byte, so k < l-1 = 0
                // is impossible then.
            } else {
                // The boundary pair: last byte of `sc` and first byte of `rb`.
                assert(k == l - 1);
                assert(eb[k] == sc[l - 1]);
                assert(eb[k + 1] == rb[0]);
                if c as u32 >= 128 {
                    assert(sc[l - 1] >= 128);
                } else {
                    assert(sc[l - 1] == (c as u32) as u8);
                    if eb[k] == 13 && eb[k + 1] == 10 {
                        assert(rest.len() > 0);
                        lemma_encode_utf8_first_byte(rest);
                        assert((rest[0] as u32) < 128 && (rest[0] as u32) as u8 == 10);
                        assert(rest[0] as u32 == 10);
                        assert(c as u32 == 13);
                        assert(c == '\r' && rest[0] == '\n') by {
                            vstd::utf8::char_u32_cast(c, c as u32);
                            vstd::utf8::char_u32_cast(rest[0], rest[0] as u32);
                            assert(c as u32 == 13 ==> (13u32 as char) == c);
                            assert(rest[0] as u32 == 10 ==> (10u32 as char) == rest[0]);
                        }
                        assert(s[0] == '\r' && s[1] == '\n');
                        assert(false);
                    }
                }
            }
        }
    }
}

} // verus!
