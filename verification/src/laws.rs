//! The codec's laws, proved once and for all: a well-formed frame's encoding
//! decodes back to the same frame and consumes exactly its own bytes, trailing
//! bytes after it change nothing, and any truncation of an encoding reads as
//! "incomplete", never as an error.

use vstd::prelude::*;
use vstd::utf8::{encode_utf8, encode_utf8_decode_utf8, encode_utf8_valid_utf8};
use crate::decimal::{
    all_digits, dec_digits, dec_int, dec_parse_i64, digits_val, lemma_dec_digits_no_cr_lf,
    lemma_dec_digits_val, lemma_dec_int_round_trip,
};
use crate::format::{
    crlf, frame_wf, host_wf, lemma_text_wf_no_crlf, spec_encode, spec_encode_all,
};
use crate::parsing::{
    default_fuel, find_crlf, lemma_find_crlf, spec_parse, spec_parse_at, spec_parse_list,
    ListOutcome, ParseOutcome,
};
use crate::redirect::{
    all_char_digits, ask_chars, char_digits_val, dec_parse_u16_chars, find_char, is_char_digit,
    lemma_find_char, moved_chars, spec_redirection,
};
use crate::text::ascii_to_chars;
use crate::types::{FrameView, RedirectionView};
use crate::utils::{dec_chars, redirection_text};

verus! {

/// `find_crlf` finds exactly the terminator known to be first.
proof fn lemma_find_crlf_at(buf: Seq<u8>, start: int, t: int)
    requires
        0 <= start <= t,
        t + 1 < buf.len(),
        buf[t] == 13 && buf[t + 1] == 10,
        forall|k: int| start <= k < t ==> !(#[trigger] buf[k] == 13 && buf[k + 1] == 10),
    ensures
        find_crlf(buf, start) == Some(t),
{
    lemma_find_crlf(buf, start);
    match find_crlf(buf, start) {
        None => {
            assert(!(buf[t] == 13 && buf[t + 1] == 10));
        },
        Some(t2) => {
            if t2 < t {
                assert(!(buf[t2] == 13 && buf[t2 + 1] == 10));
            }
            if t < t2 {
                assert(!(buf[t] == 13 && buf[t + 1] == 10));
            }
        },
    }
}

/// `find_char` finds exactly the occurrence known to be first.
proof fn lemma_find_char_at(s: Seq<char>, c: char, from: int, t: int)
    requires
        0 <= from <= t < s.len(),
        s[t] == c,
        forall|k: int| from <= k < t ==> #[trigger] s[k] != c,
    ensures
        find_char(s, c, from) == Some(t),
{
    lemma_find_char(s, c, from);
    match find_char(s, c, from) {
        None => {
            assert(s[t] != c);
        },
        Some(t2) => {
            if t2 < t {
                assert(s[t2] != c);
            }
            if t < t2 {
                assert(s[t] != c);
            }
        },
    }
}

/// `find_char` finds nothing where nothing is.
proof fn lemma_find_char_none(s: Seq<char>, c: char, from: int)
    requires
        0 <= from <= s.len(),
        forall|k: int| from <= k < s.len() ==> #[trigger] s[k] != c,
    ensures
        find_char(s, c, from) is None,
{
    lemma_find_char(s, c, from);
    if let Some(t) = find_char(s, c, from) {
        assert(s[t] != c);
    }
}

/// Digit bytes read as characters carry the same decimal value.
proof fn lemma_char_digits_of_ascii(s: Seq<u8>)
    requires
        all_digits(s),
    ensures
        all_char_digits(ascii_to_chars(s)),
        char_digits_val(ascii_to_chars(s)) == digits_val(s),
    decreases s.len(),
{
    let cs = ascii_to_chars(s);
    assert(forall|i: int|
        0 <= i < s.len() ==> #[trigger] cs[i] == s[i] as char && is_char_digit(cs[i]));
    if s.len() > 0 {
        assert(all_digits(s.drop_last())) by {
            assert(forall|i: int|
                0 <= i < s.len() - 1 ==> #[trigger] s.drop_last()[i] == s[i]);
        }
        lemma_char_digits_of_ascii(s.drop_last());
        assert(ascii_to_chars(s.drop_last()) =~= cs.drop_last());
        assert(cs.last() as int - 48 == s.last() - 48);
    }
}

/// The decimal characters of a 16-bit value parse back to it.
proof fn lemma_dec_chars_u16_round_trip(n: u16)
    ensures
        dec_parse_u16_chars(dec_chars(n as nat)) == Some(n),
        all_char_digits(dec_chars(n as nat)),
        dec_chars(n as nat).len() >= 1,
        forall|i: int|
            0 <= i < dec_chars(n as nat).len() ==> is_char_digit(
                #[trigger] dec_chars(n as nat)[i],
            ),
{
    lemma_dec_digits_val(n as nat);
    lemma_char_digits_of_ascii(dec_digits(n as nat));
    assert(forall|i: int|
        0 <= i < dec_chars(n as nat).len() ==> is_char_digit(#[trigger] dec_chars(n as nat)[i]));
}

/// The reconstructed text of a redirection parses back to the same
/// redirection, provided the host avoids the delimiters.
proof fn lemma_redirection_text_parses(moved: bool, slot: u16, host: Seq<char>, port: u16)
    requires
        host_wf(host),
    ensures
        spec_redirection(redirection_text(if moved { moved_chars() } else { ask_chars() },
            slot, host, port)) == Some(if moved {
            RedirectionView::Moved { slot, host, port }
        } else {
            RedirectionView::Ask { slot, host, port }
        }),
{
    let prefix = if moved { moved_chars() } else { ask_chars() };
    let sd = dec_chars(slot as nat);
    let pd = dec_chars(port as nat);
    let t = redirection_text(prefix, slot, host, port);
    let pl = prefix.len() as int;
    lemma_dec_chars_u16_round_trip(slot);
    lemma_dec_chars_u16_round_trip(port);
    let i1 = pl;
    let i2 = pl + 1 + sd.len() as int;
    assert(t.len() == pl + 1 + sd.len() + 1 + host.len() + 1 + pd.len());
    // Where every character of the text sits.
    assert(forall|k: int| 0 <= k < pl ==> t[k] == prefix[k]);
    assert(t[i1] == ' ');
    assert(forall|k: int| 0 <= k < sd.len() ==> t[i1 + 1 + k] == #[trigger] sd[k]);
    assert(t[i2] == ' ');
    assert(forall|k: int| 0 <= k < host.len() ==> t[i2 + 1 + k] == #[trigger] host[k]);
    assert(t[i2 + 1 + host.len()] == ':');
    assert(forall|k: int|
        0 <= k < pd.len() ==> t[i2 + 2 + host.len() + k] == #[trigger] pd[k]);
    // Neither the prefix nor a digit nor a host character is a space.
    assert(forall|k: int| 0 <= k < pl ==> #[trigger] prefix[k] != ' ' && prefix[k] != ':');
    lemma_find_char_at(t, ' ', 0, i1);
    lemma_find_char_at(t, ' ', i1 + 1, i2);
    lemma_find_char_none(t, ' ', i2 + 1);
    assert(t.subrange(0, i1) =~= prefix);
    assert(t.subrange(i1 + 1, i2) =~= sd);
    let addr = t.subrange(i2 + 1, t.len() as int);
    assert(addr =~= host + seq![':'] + pd);
    let j = host.len() as int;
    assert(addr[j] == ':');
    lemma_find_char_at(addr, ':', 0, j);
    lemma_find_char_none(addr, ':', j + 1);
    assert(addr.subrange(0, j) =~= host);
    assert(addr.subrange(j + 1, addr.len() as int) =~= pd);
    if moved {
        assert(prefix != ask_chars());
    } else {
        assert(prefix != moved_chars()) by {
            if prefix == moved_chars() {
                assert(prefix.len() == 5);
            }
        }
    }
}


/// Byte strings in which the two-byte terminator never occurs.
spec fn no_crlf_pair(s: Seq<u8>) -> bool {
    forall|k: int| 0 <= k < s.len() - 1 ==> !(#[trigger] s[k] == 13 && s[k + 1] == 10)
}

/// Concatenation keeps the terminator out if both parts keep it out and it
/// does not arise at the seam.
proof fn lemma_no_crlf_concat(a: Seq<u8>, b: Seq<u8>)
    requires
        no_crlf_pair(a),
        no_crlf_pair(b),
        a.len() > 0 && b.len() > 0 ==> !(a.last() == 13 && b[0] == 10),
    ensures
        no_crlf_pair(a + b),
{
    let ab = a + b;
    assert forall|k: int| 0 <= k < ab.len() - 1 implies !(#[trigger] ab[k] == 13 && ab[k + 1]
        == 10) by {
        if k < a.len() - 1 {
            assert(ab[k] == a[k] && ab[k + 1] == a[k + 1]);
        } else if k == a.len() - 1 {
            assert(ab[k] == a.last() && ab[k + 1] == b[0]);
        } else {
            assert(ab[k] == b[k - a.len()] && ab[k + 1] == b[k - a.len() + 1]);
        }
    }
}

/// The decimal digits of `n` never contain the terminator bytes.
proof fn lemma_dec_digits_pairfree(n: nat)
    ensures
        no_crlf_pair(dec_digits(n)),
        dec_digits(n).len() > 0,
        forall|i: int|
            0 <= i < dec_digits(n).len() ==> #[trigger] dec_digits(n)[i] != 13 && dec_digits(
                n,
            )[i] != 10,
        48 <= dec_digits(n)[0] <= 57,
{
    lemma_dec_digits_no_cr_lf(n);
    lemma_dec_digits_val(n);
}

/// The UTF-8 bytes of a reconstructed redirection text never contain the
/// terminator.
proof fn lemma_redirection_line_pairfree(moved: bool, slot: u16, host: Seq<char>, port: u16)
    requires
        host_wf(host),
    ensures
        no_crlf_pair(encode_utf8(redirection_text(if moved { moved_chars() } else { ask_chars() },
            slot, host, port))),
{
    let prefix = if moved { moved_chars() } else { ask_chars() };
    let pb: Seq<u8> = if moved { seq![77u8, 79u8, 86u8, 69u8, 68u8] } else {
        seq![65u8, 83u8, 75u8]
    };
    assert(ascii_to_chars(pb) =~= prefix) by {
        assert(77u8 as char == 'M' && 79u8 as char == 'O' && 86u8 as char == 'V' && 69u8 as char
            == 'E' && 68u8 as char == 'D');
        assert(65u8 as char == 'A' && 83u8 as char == 'S' && 75u8 as char == 'K');
    }
    crate::encode::lemma_redirection_text_bytes(prefix, pb, slot, host, port);
    let sd = dec_digits(slot as nat);
    let pd = dec_digits(port as nat);
    let hb = encode_utf8(host);
    let sp = seq![32u8];
    let co = seq![58u8];
    lemma_dec_digits_pairfree(slot as nat);
    lemma_dec_digits_pairfree(port as nat);
    lemma_text_wf_no_crlf(host);
    assert(no_crlf_pair(hb));
    assert(no_crlf_pair(pb));
    assert(no_crlf_pair(sp) && no_crlf_pair(co));
    lemma_no_crlf_concat(pb, sp);
    lemma_no_crlf_concat(pb + sp, sd);
    lemma_no_crlf_concat(pb + sp + sd, sp);
    lemma_no_crlf_concat(pb + sp + sd + sp, hb);
    lemma_no_crlf_concat(pb + sp + sd + sp + hb, co);
    lemma_no_crlf_concat(pb + sp + sd + sp + hb + co, pd);
    assert(encode_utf8(redirection_text(prefix, slot, host, port)) =~= pb + sp + sd + sp + hb + co
        + pd);
}

/// When a line's content holds no terminator, the scan finds exactly the
/// terminator that follows the content.
proof fn lemma_find_line(buf: Seq<u8>, pos: int, content: Seq<u8>)
    requires
        0 <= pos,
        pos + 1 + content.len() + 2 <= buf.len(),
        forall|k: int| 0 <= k < content.len() ==> #[trigger] content[k] == buf[pos + 1 + k],
        buf[pos + 1 + content.len()] == 13,
        buf[pos + 2 + content.len()] == 10,
        no_crlf_pair(content),
    ensures
        find_crlf(buf, pos + 1) == Some(pos + 1 + content.len()),
{
    let t = pos + 1 + content.len() as int;
    assert forall|k: int| pos + 1 <= k < t implies !(#[trigger] buf[k] == 13 && buf[k + 1]
        == 10) by {
        if k < t - 1 {
            assert(buf[k] == content[k - pos - 1] && buf[k + 1] == content[k - pos]);
        } else {
            assert(buf[k + 1] == 13);
        }
    }
    lemma_find_crlf_at(buf, pos + 1, t);
}


/// Reads off the bytes of a window shaped `tag, content, CRLF, rest`.
proof fn lemma_line_window(buf: Seq<u8>, pos: int, tag: u8, content: Seq<u8>, rest: Seq<u8>)
    requires
        0 <= pos,
        pos + 3 + content.len() + rest.len() <= buf.len(),
        buf.subrange(pos, pos + 3 + content.len() + rest.len() as int) == seq![tag] + content
            + crlf() + rest,
    ensures
        buf[pos] == tag,
        forall|k: int| 0 <= k < content.len() ==> #[trigger] content[k] == buf[pos + 1 + k],
        buf[pos + 1 + content.len() as int] == 13,
        buf[pos + 2 + content.len() as int] == 10,
        forall|k: int|
            0 <= k < rest.len() ==> #[trigger] rest[k] == buf[pos + 3 + content.len() + k],
{
    let w = seq![tag] + content + crlf() + rest;
    assert(forall|k: int| 0 <= k < w.len() ==> #[trigger] w[k] == buf[pos + k]) by {
        assert(forall|k: int|
            0 <= k < w.len() ==> #[trigger] buf.subrange(pos, pos + w.len() as int)[k] == buf[pos
                + k]);
    }
    assert(w[0] == tag);
    assert forall|k: int| 0 <= k < content.len() implies #[trigger] content[k] == buf[pos + 1
        + k] by {
        assert(w[1 + k] == content[k]);
    }
    assert(w[1 + content.len() as int] == 13);
    assert(w[2 + content.len() as int] == 10);
    assert forall|k: int| 0 <= k < rest.len() implies #[trigger] rest[k] == buf[pos + 3
        + content.len() + k] by {
        assert(w[3 + content.len() + k] == rest[k]);
    }
}

/// Decoding an encoding: at any position of any buffer that holds the full
/// encoding of a well-formed frame, the decoder finds exactly that frame and
/// stops exactly past its bytes — whatever follows.
#[verifier::rlimit(80)]
pub proof fn lemma_parse_encoding(buf: Seq<u8>, pos: int, fv: FrameView, fuel: nat)
    requires
        frame_wf(fv),
        0 <= pos,
        pos + spec_encode(fv).len() <= buf.len(),
        buf.subrange(pos, pos + spec_encode(fv).len() as int) == spec_encode(fv),
        fuel >= buf.len() - pos + 1,
    ensures
        spec_parse(buf, pos, fuel) == (ParseOutcome::Found {
            frame: fv,
            end: pos + spec_encode(fv).len(),
        }),
    decreases fv,
{
    let w = spec_encode(fv);
    let nothing = Seq::<u8>::empty();
    match fv {
        FrameView::SimpleString(s) => {
            let eb = encode_utf8(s);
            assert(seq![43u8] + eb + crlf() + nothing =~= w);
            lemma_line_window(buf, pos, 43, eb, nothing);
            lemma_text_wf_no_crlf(s);
            lemma_find_line(buf, pos, eb);
            let t = pos + 1 + eb.len() as int;
            assert(buf.subrange(pos + 1, t) =~= eb);
            encode_utf8_valid_utf8(s);
            encode_utf8_decode_utf8(s);
        },
        FrameView::Error(s) => {
            let eb = encode_utf8(s);
            assert(seq![45u8] + eb + crlf() + nothing =~= w);
            lemma_line_window(buf, pos, 45, eb, nothing);
            lemma_text_wf_no_crlf(s);
            lemma_find_line(buf, pos, eb);
            let t = pos + 1 + eb.len() as int;
            assert(buf.subrange(pos + 1, t) =~= eb);
            encode_utf8_valid_utf8(s);
            encode_utf8_decode_utf8(s);
        },
        FrameView::Integer(i) => {
            let line = dec_int(i as int);
            assert(seq![58u8] + line + crlf() + nothing =~= w);
            lemma_line_window(buf, pos, 58, line, nothing);
            assert(no_crlf_pair(line)) by {
                if i < 0 {
                    lemma_dec_digits_pairfree((-(i as int)) as nat);
                    let dd = dec_digits((-(i as int)) as nat);
                    lemma_dec_digits_no_cr_lf((-(i as int)) as nat);
                    assert(forall|k: int|
                        1 <= k < line.len() ==> #[trigger] line[k] == dd[k - 1]);
                    assert(forall|k: int|
                        0 <= k < line.len() - 1 ==> !(#[trigger] line[k] == 13 && line[k + 1]
                            == 10)) by {
                        assert(line[0] == 45);
                        assert(forall|k: int| 1 <= k < line.len() ==> #[trigger] line[k] != 13);
                    }
                } else {
                    lemma_dec_digits_pairfree((i as int) as nat);
                }
            }
            lemma_find_line(buf, pos, line);
            let t = pos + 1 + line.len() as int;
            assert(buf.subrange(pos + 1, t) =~= line);
            lemma_dec_int_round_trip(i as int);
        },
        FrameView::BulkString(b) => {
            let dd = dec_digits(b.len());
            let tail = b + crlf();
            assert(seq![36u8] + dd + crlf() + tail =~= w);
            lemma_line_window(buf, pos, 36, dd, tail);
            lemma_dec_digits_pairfree(b.len());
            assert(buf[pos + 1] == dd[0]);
            lemma_find_line(buf, pos, dd);
            let t = pos + 1 + dd.len() as int;
            assert(buf.subrange(pos + 1, t) =~= dd);
            lemma_dec_digits_val(b.len());
            assert(dec_parse_i64(dd) == Some(b.len() as int));
            let v = b.len() as int;
            assert(buf.len() - (t + 2) >= v + 2);
            assert(buf[t + 2 + v] == 13 && buf[t + 3 + v] == 10) by {
                assert(tail[v] == 13 && tail[v + 1] == 10);
            }
            assert(buf.subrange(t + 2, t + 2 + v) =~= b) by {
                assert(forall|k: int| 0 <= k < v ==> #[trigger] tail[k] == b[k]);
                assert(forall|k: int|
                    0 <= k < v ==> #[trigger] buf.subrange(t + 2, t + 2 + v)[k] == buf[t + 2
                        + k] == tail[k]);
            }
        },
        FrameView::Null => {
            let content = seq![45u8, 49u8];
            assert(seq![36u8] + content + crlf() + nothing =~= w);
            lemma_line_window(buf, pos, 36, content, nothing);
            assert(no_crlf_pair(content));
            lemma_find_line(buf, pos, content);
            assert(buf.subrange(pos + 1, pos + 3) =~= content);
        },
        FrameView::Array(frames) => {
            let dd = dec_digits(frames.len());
            let body = spec_encode_all(frames);
            assert(seq![42u8] + dd + crlf() + body =~= w);
            lemma_line_window(buf, pos, 42, dd, body);
            lemma_dec_digits_pairfree(frames.len());
            lemma_find_line(buf, pos, dd);
            let t = pos + 1 + dd.len() as int;
            assert(buf.subrange(pos + 1, t) =~= dd);
            lemma_dec_digits_val(frames.len());
            assert(dec_parse_i64(dd) == Some(frames.len() as int));
            assert(buf.subrange(t + 2, t + 2 + body.len() as int) =~= body);
            lemma_parse_list_encoding(buf, t + 2, frames, (fuel - 1) as nat);
        },
        FrameView::Moved { slot, host, port } => {
            let text = redirection_text(moved_chars(), slot, host, port);
            let eb = encode_utf8(text);
            assert(seq![45u8] + eb + crlf() + nothing =~= w);
            lemma_line_window(buf, pos, 45, eb, nothing);
            lemma_redirection_line_pairfree(true, slot, host, port);
            lemma_find_line(buf, pos, eb);
            let t = pos + 1 + eb.len() as int;
            assert(buf.subrange(pos + 1, t) =~= eb);
            encode_utf8_valid_utf8(text);
            encode_utf8_decode_utf8(text);
            lemma_redirection_text_parses(true, slot, host, port);
        },
        FrameView::Ask { slot, host, port } => {
            let text = redirection_text(ask_chars(), slot, host, port);
            let eb = encode_utf8(text);
            assert(seq![45u8] + eb + crlf() + nothing =~= w);
            lemma_line_window(buf, pos, 45, eb, nothing);
            lemma_redirection_line_pairfree(false, slot, host, port);
            lemma_find_line(buf, pos, eb);
            let t = pos + 1 + eb.len() as int;
            assert(buf.subrange(pos + 1, t) =~= eb);
            encode_utf8_valid_utf8(text);
            encode_utf8_decode_utf8(text);
            lemma_redirection_text_parses(false, slot, host, port);
        },
    }
}

/// Companion to [`lemma_parse_encoding`] for a run of frames.
pub proof fn lemma_parse_list_encoding(buf: Seq<u8>, pos: int, frames: Seq<FrameView>, fuel: nat)
    requires
        forall|i: int| 0 <= i < frames.len() ==> frame_wf(#[trigger] frames[i]),
        0 <= pos,
        pos + spec_encode_all(frames).len() <= buf.len(),
        buf.subrange(pos, pos + spec_encode_all(frames).len() as int) == spec_encode_all(frames),
        fuel >= buf.len() - pos + 1,
    ensures
        spec_parse_list(buf, pos, frames.len(), fuel) == (ListOutcome::Found {
            frames,
            end: pos + spec_encode_all(frames).len(),
        }),
    decreases frames,
{
    if frames.len() == 0 {
        assert(spec_encode_all(frames).len() == 0);
        assert(frames =~= Seq::<FrameView>::empty());
    } else {
        let e0 = spec_encode(frames[0]);
        let rest = frames.drop_first();
        let erest = spec_encode_all(rest);
        let ea = spec_encode_all(frames);
        assert(ea == e0 + erest);
        assert(forall|k: int| 0 <= k < ea.len() ==> #[trigger] ea[k] == buf[pos + k]) by {
            assert(forall|k: int|
                0 <= k < ea.len() ==> #[trigger] buf.subrange(pos, pos + ea.len() as int)[k]
                    == buf[pos + k]);
        }
        assert(buf.subrange(pos, pos + e0.len() as int) =~= e0) by {
            assert(forall|k: int| 0 <= k < e0.len() ==> ea[k] == #[trigger] e0[k]);
        }
        lemma_parse_encoding(buf, pos, frames[0], fuel);
        let mid = pos + e0.len() as int;
        assert(buf.subrange(mid, mid + erest.len() as int) =~= erest) by {
            assert(forall|k: int|
                0 <= k < erest.len() ==> ea[e0.len() + k] == #[trigger] erest[k]);
        }
        lemma_parse_list_encoding(buf, mid, rest, fuel);
        assert(seq![frames[0]] + rest =~= frames);
    }
}


/// A line truncated before its terminator scans as "no terminator".
proof fn lemma_find_line_truncated(buf: Seq<u8>, pos: int, content: Seq<u8>)
    requires
        0 <= pos < buf.len(),
        buf.len() - (pos + 1) < content.len() + 2,
        forall|k: int|
            0 <= k < buf.len() - (pos + 1) ==> #[trigger] buf[pos + 1 + k] == (content
                + crlf())[k],
        no_crlf_pair(content),
    ensures
        find_crlf(buf, pos + 1) is None,
{
    let line = content + crlf();
    assert forall|k: int| pos + 1 <= k < buf.len() - 1 implies !(#[trigger] buf[k] == 13 && buf[k
        + 1] == 10) by {
        let j = k - (pos + 1);
        assert(buf[pos + 1 + j] == line[j]);
        assert(buf[pos + 1 + (j + 1)] == line[j + 1]);
        assert(buf[k] == line[j] && buf[k + 1] == line[j + 1]);
        if j + 1 < content.len() {
            assert(line[j] == content[j] && line[j + 1] == content[j + 1]);
        } else {
            assert(j + 1 == content.len());
            assert(line[j + 1] == 13);
        }
    }
    lemma_find_crlf(buf, pos + 1);
    if let Some(t) = find_crlf(buf, pos + 1) {
        assert(!(buf[t] == 13 && buf[t + 1] == 10));
    }
}

/// Truncation: a buffer that ends anywhere strictly inside the encoding of a
/// well-formed frame decodes as `Incomplete` — never as an error.
#[verifier::rlimit(80)]
pub proof fn lemma_parse_truncated(buf: Seq<u8>, pos: int, fv: FrameView, fuel: nat)
    requires
        frame_wf(fv),
        0 <= pos <= buf.len(),
        buf.len() - pos < spec_encode(fv).len(),
        buf.subrange(pos, buf.len() as int) == spec_encode(fv).take(buf.len() - pos),
        fuel >= buf.len() - pos + 1,
    ensures
        spec_parse(buf, pos, fuel) == ParseOutcome::Incomplete,
    decreases fv,
{
    let w = spec_encode(fv);
    let avail = buf.len() - pos;
    assert forall|k: int| 0 <= k < avail implies #[trigger] buf[pos + k] == w[k] by {
        assert(buf.subrange(pos, buf.len() as int)[k] == buf[pos + k]);
        assert(w.take(avail)[k] == w[k]);
    }
    if avail > 0 {
        assert(buf[pos] == w[0]) by {
            assert(buf[pos + 0] == w[0]);
        }
        match fv {
            FrameView::SimpleString(s) => {
                let eb = encode_utf8(s);
                assert(seq![43u8] + eb + crlf() + Seq::<u8>::empty() =~= w);
                lemma_text_wf_no_crlf(s);
                assert forall|k: int| 0 <= k < avail - 1 implies #[trigger] buf[pos + 1 + k]
                    == (eb + crlf())[k] by {
                    assert(buf[pos + (1 + k)] == w[1 + k]);
                    assert(w[1 + k] == (eb + crlf())[k]);
                }
                lemma_find_line_truncated(buf, pos, eb);
            },
            FrameView::Error(s) => {
                let eb = encode_utf8(s);
                assert(seq![45u8] + eb + crlf() + Seq::<u8>::empty() =~= w);
                lemma_text_wf_no_crlf(s);
                assert forall|k: int| 0 <= k < avail - 1 implies #[trigger] buf[pos + 1 + k]
                    == (eb + crlf())[k] by {
                    assert(buf[pos + (1 + k)] == w[1 + k]);
                    assert(w[1 + k] == (eb + crlf())[k]);
                }
                lemma_find_line_truncated(buf, pos, eb);
            },
            FrameView::Integer(i) => {
                let line = dec_int(i as int);
                assert(seq![58u8] + line + crlf() + Seq::<u8>::empty() =~= w);
                assert(no_crlf_pair(line)) by {
                    if i < 0 {
                        let dd = dec_digits((-(i as int)) as nat);
                        lemma_dec_digits_no_cr_lf((-(i as int)) as nat);
                        assert(forall|k: int|
                            1 <= k < line.len() ==> #[trigger] line[k] == dd[k - 1]);
                        assert(forall|k: int|
                            0 <= k < line.len() - 1 ==> !(#[trigger] line[k] == 13 && line[k + 1]
                                == 10)) by {
                            assert(forall|k: int|
                                1 <= k < line.len() ==> #[trigger] line[k] != 13);
                        }
                    } else {
                        lemma_dec_digits_pairfree((i as int) as nat);
                    }
                }
                assert forall|k: int| 0 <= k < avail - 1 implies #[trigger] buf[pos + 1 + k]
                    == (line + crlf())[k] by {
                    assert(buf[pos + (1 + k)] == w[1 + k]);
                    assert(w[1 + k] == (line + crlf())[k]);
                }
                lemma_find_line_truncated(buf, pos, line);
            },
            FrameView::Null => {
                let content = seq![45u8, 49u8];
                assert(seq![36u8] + content + crlf() + Seq::<u8>::empty() =~= w);
                if avail >= 2 {
                    assert(buf[pos + 1] == 45);
                    assert forall|k: int| 0 <= k < avail - 1 implies #[trigger] buf[pos + 1 + k]
                        == (content + crlf())[k] by {
                        assert(buf[pos + (1 + k)] == w[1 + k]);
                        assert(w[1 + k] == (content + crlf())[k]);
                    }
                    assert(no_crlf_pair(content));
                    lemma_find_line_truncated(buf, pos, content);
                }
            },
            FrameView::BulkString(b) => {
                let dd = dec_digits(b.len());
                let tail = b + crlf();
                assert(seq![36u8] + dd + crlf() + tail =~= w);
                lemma_dec_digits_pairfree(b.len());
                if avail >= 2 {
                    assert(buf[pos + 1] == dd[0]);
                    assert(buf[pos + 1] != 45);
                    if avail < 1 + dd.len() + 2 {
                        assert forall|k: int| 0 <= k < avail - 1 implies #[trigger] buf[pos + 1
                            + k] == (dd + crlf())[k] by {
                            assert(buf[pos + (1 + k)] == w[1 + k]);
                            assert(w[1 + k] == (dd + crlf())[k]);
                        }
                        lemma_find_line_truncated(buf, pos, dd);
                    } else {
                        let t = pos + 1 + dd.len() as int;
                        assert(buf[t] == 13 && buf[t + 1] == 10) by {
                            assert(buf[pos + (1 + dd.len())] == w[1 + dd.len() as int]);
                            assert(buf[pos + (2 + dd.len())] == w[2 + dd.len() as int]);
                            assert(w[1 + dd.len() as int] == 13 && w[2 + dd.len() as int] == 10);
                        }
                        assert forall|k: int| pos + 1 <= k < t implies !(#[trigger] buf[k] == 13
                            && buf[k + 1] == 10) by {
                            assert(buf[pos + (k - pos)] == w[k - pos]);
                            assert(w[k - pos] == dd[k - pos - 1]);
                        }
                        lemma_find_crlf_at(buf, pos + 1, t);
                        assert forall|k: int| 0 <= k < dd.len() implies buf.subrange(
                            pos + 1,
                            t,
                        )[k] == dd[k] by {
                            assert(buf[pos + (1 + k)] == w[1 + k]);
                            assert(w[1 + k] == dd[k]);
                            assert(buf.subrange(pos + 1, t)[k] == buf[pos + 1 + k]);
                        }
                        assert(buf.subrange(pos + 1, t) =~= dd);
                        lemma_dec_digits_val(b.len());
                        assert(dec_parse_i64(dd) == Some(b.len() as int));
                        assert(buf.len() - (t + 2) < b.len() + 2);
                    }
                }
            },
            FrameView::Array(frames) => {
                let dd = dec_digits(frames.len());
                let body = spec_encode_all(frames);
                assert(seq![42u8] + dd + crlf() + body =~= w);
                lemma_dec_digits_pairfree(frames.len());
                if avail < 1 + dd.len() + 2 {
                    assert forall|k: int| 0 <= k < avail - 1 implies #[trigger] buf[pos + 1 + k]
                        == (dd + crlf())[k] by {
                        assert(buf[pos + (1 + k)] == w[1 + k]);
                        assert(w[1 + k] == (dd + crlf())[k]);
                    }
                    lemma_find_line_truncated(buf, pos, dd);
                } else {
                    let t = pos + 1 + dd.len() as int;
                    assert(buf[t] == 13 && buf[t + 1] == 10) by {
                        assert(buf[pos + (1 + dd.len())] == w[1 + dd.len() as int]);
                        assert(buf[pos + (2 + dd.len())] == w[2 + dd.len() as int]);
                        assert(w[1 + dd.len() as int] == 13 && w[2 + dd.len() as int] == 10);
                    }
                    assert forall|k: int| pos + 1 <= k < t implies !(#[trigger] buf[k] == 13
                        && buf[k + 1] == 10) by {
                        assert(buf[pos + (k - pos)] == w[k - pos]);
                        assert(w[k - pos] == dd[k - pos - 1]);
                    }
                    lemma_find_crlf_at(buf, pos + 1, t);
                    assert forall|k: int| 0 <= k < dd.len() implies buf.subrange(pos + 1, t)[k]
                        == dd[k] by {
                        assert(buf[pos + (1 + k)] == w[1 + k]);
                        assert(w[1 + k] == dd[k]);
                        assert(buf.subrange(pos + 1, t)[k] == buf[pos + 1 + k]);
                    }
                    assert(buf.subrange(pos + 1, t) =~= dd);
                    lemma_dec_digits_val(frames.len());
                    assert(dec_parse_i64(dd) == Some(frames.len() as int));
                    assert forall|k: int| 0 <= k < buf.len() - (t + 2) implies #[trigger] buf[t
                        + 2 + k] == body[k] by {
                        assert(buf[pos + (3 + dd.len() + k)] == w[3 + dd.len() + k]);
                        assert(w[3 + dd.len() + k] == body[k]);
                    }
                    assert forall|k: int| 0 <= k < buf.len() - (t + 2) implies #[trigger] buf.subrange(
                        t + 2,
                        buf.len() as int,
                    )[k] == body.take(buf.len() - (t + 2))[k] by {
                        assert(buf.subrange(t + 2, buf.len() as int)[k] == buf[t + 2 + k]);
                        assert(body.take(buf.len() - (t + 2))[k] == body[k]);
                    }
                    assert(buf.subrange(t + 2, buf.len() as int) =~= body.take(
                        buf.len() - (t + 2),
                    ));
                    lemma_parse_list_truncated(buf, t + 2, frames, (fuel - 1) as nat);
                }
            },
            FrameView::Moved { slot, host, port } => {
                let text = redirection_text(moved_chars(), slot, host, port);
                let eb = encode_utf8(text);
                assert(seq![45u8] + eb + crlf() + Seq::<u8>::empty() =~= w);
                lemma_redirection_line_pairfree(true, slot, host, port);
                assert forall|k: int| 0 <= k < avail - 1 implies #[trigger] buf[pos + 1 + k]
                    == (eb + crlf())[k] by {
                    assert(buf[pos + (1 + k)] == w[1 + k]);
                    assert(w[1 + k] == (eb + crlf())[k]);
                }
                lemma_find_line_truncated(buf, pos, eb);
            },
            FrameView::Ask { slot, host, port } => {
                let text = redirection_text(ask_chars(), slot, host, port);
                let eb = encode_utf8(text);
                assert(seq![45u8] + eb + crlf() + Seq::<u8>::empty() =~= w);
                lemma_redirection_line_pairfree(false, slot, host, port);
                assert forall|k: int| 0 <= k < avail - 1 implies #[trigger] buf[pos + 1 + k]
                    == (eb + crlf())[k] by {
                    assert(buf[pos + (1 + k)] == w[1 + k]);
                    assert(w[1 + k] == (eb + crlf())[k]);
                }
                lemma_find_line_truncated(buf, pos, eb);
            },
        }
    }
}

/// Companion to [`lemma_parse_truncated`] for a run of frames.
pub proof fn lemma_parse_list_truncated(buf: Seq<u8>, pos: int, frames: Seq<FrameView>, fuel: nat)
    requires
        forall|i: int| 0 <= i < frames.len() ==> frame_wf(#[trigger] frames[i]),
        0 <= pos <= buf.len(),
        buf.len() - pos < spec_encode_all(frames).len(),
        buf.subrange(pos, buf.len() as int) == spec_encode_all(frames).take(buf.len() - pos),
        fuel >= buf.len() - pos + 1,
    ensures
        spec_parse_list(buf, pos, frames.len(), fuel) == ListOutcome::Incomplete,
    decreases frames,
{
    let ea = spec_encode_all(frames);
    let avail = buf.len() - pos;
    assert(frames.len() > 0);
    let e0 = spec_encode(frames[0]);
    let rest = frames.drop_first();
    let erest = spec_encode_all(rest);
    assert(ea == e0 + erest);
    assert forall|k: int| 0 <= k < avail implies #[trigger] buf[pos + k] == ea[k] by {
        assert(buf.subrange(pos, buf.len() as int)[k] == buf[pos + k]);
        assert(ea.take(avail)[k] == ea[k]);
    }
    if avail < e0.len() {
        assert(buf.subrange(pos, buf.len() as int) =~= e0.take(avail)) by {
            assert(forall|k: int| 0 <= k < avail ==> #[trigger] ea[k] == e0[k]);
            assert(forall|k: int|
                0 <= k < avail ==> #[trigger] buf.subrange(pos, buf.len() as int)[k] == buf[pos
                    + k]);
        }
        lemma_parse_truncated(buf, pos, frames[0], fuel);
    } else {
        assert(buf.subrange(pos, pos + e0.len() as int) =~= e0) by {
            assert(forall|k: int| 0 <= k < e0.len() ==> #[trigger] ea[k] == e0[k]);
        }
        lemma_parse_encoding(buf, pos, frames[0], fuel);
        let mid = pos + e0.len() as int;
        assert(buf.subrange(mid, buf.len() as int) =~= erest.take(buf.len() - mid)) by {
            assert forall|k: int| 0 <= k < buf.len() - mid implies #[trigger] buf[mid + k]
                == erest[k] by {
                assert(buf[pos + (e0.len() + k)] == ea[e0.len() + k]);
                assert(ea[e0.len() + k] == erest[k]);
            }
            assert(forall|k: int|
                0 <= k < buf.len() - mid ==> #[trigger] buf.subrange(mid, buf.len() as int)[k]
                    == buf[mid + k]);
        }
        lemma_parse_list_truncated(buf, mid, rest, fuel);
    }
}


/// Round trip: the encoding of a well-formed frame decodes back to exactly
/// that frame, consuming exactly the encoded bytes.
pub proof fn lemma_round_trip(fv: FrameView)
    requires
        frame_wf(fv),
    ensures
        spec_parse_at(spec_encode(fv), 0) == (ParseOutcome::Found {
            frame: fv,
            end: spec_encode(fv).len() as int,
        }),
{
    let buf = spec_encode(fv);
    assert(buf.subrange(0, buf.len() as int) =~= buf);
    lemma_parse_encoding(buf, 0, fv, default_fuel(buf));
}

/// Idempotent padding: bytes after a complete encoding change neither the
/// decoded frame nor the consumed count.
pub proof fn lemma_round_trip_padded(fv: FrameView, pad: Seq<u8>)
    requires
        frame_wf(fv),
    ensures
        spec_parse_at(spec_encode(fv) + pad, 0) == (ParseOutcome::Found {
            frame: fv,
            end: spec_encode(fv).len() as int,
        }),
{
    let buf = spec_encode(fv) + pad;
    assert(buf.subrange(0, spec_encode(fv).len() as int) =~= spec_encode(fv));
    lemma_parse_encoding(buf, 0, fv, default_fuel(buf));
}

/// Incompleteness: truncating a valid encoding at any byte boundary strictly
/// before its end decodes as `Incomplete` — never as an error.
pub proof fn lemma_truncated_incomplete(fv: FrameView, k: int)
    requires
        frame_wf(fv),
        0 <= k < spec_encode(fv).len(),
    ensures
        spec_parse_at(spec_encode(fv).take(k), 0) == ParseOutcome::Incomplete,
{
    let buf = spec_encode(fv).take(k);
    assert(buf.subrange(0, buf.len() as int) =~= buf);
    lemma_parse_truncated(buf, 0, fv, default_fuel(buf));
}

} // verus!
