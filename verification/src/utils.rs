//! Utility surface: redirection parsing and reconstruction, buffer-sizing
//! helpers, and the cluster key-slot hash.

use vstd::prelude::*;
use vstd::string::StrSliceExecFns;
use vstd::string::StringExecFns;
use vstd::utf8::encode_utf8;
use crate::decimal::{dec_digits, dec_int, digits_in_u64};
use crate::decimal::lemma_dec_digits_val;
use crate::format::spec_encode;
use crate::types::FrameView;
use crate::redirect::{
    all_char_digits, ask_chars, char_digits_val, dec_parse_u16_chars, find_char, is_char_digit,
    lemma_find_char, moved_chars, spec_redirection,
};
use crate::text::{ascii_to_chars, lemma_ascii_bytes, vec_into_string};
use crate::types::{Error, Redirection};

verus! {

/// The number of hash slots in a cluster.
const REDIS_CLUSTER_SLOTS: u16 = 16384;

/// The decimal digit characters of `n`, most significant first.
pub open spec fn dec_chars(n: nat) -> Seq<char> {
    ascii_to_chars(dec_digits(n))
}

/// The reconstructed text of a redirection: `<prefix> <slot> <host>:<port>`.
pub open spec fn redirection_text(
    prefix: Seq<char>,
    slot: u16,
    host: Seq<char>,
    port: u16,
) -> Seq<char> {
    prefix + seq![' '] + dec_chars(slot as nat) + seq![' '] + host + seq![':'] + dec_chars(
        port as nat,
    )
}

/// The first index `i >= from` at which `s` holds the character `c`.
fn find_char_str(s: &str, c: char, from: usize) -> (r: Option<usize>)
    requires
        from <= s@.len(),
    ensures
        match find_char(s@, c, from as int) {
            Some(t) => r is Some && r->0 == t,
            None => r is None,
        },
{
    let n = s.unicode_len();
    let mut i = from;
    while i < n
        invariant
            from <= i <= n,
            n == s@.len(),
            find_char(s@, c, from as int) == find_char(s@, c, i as int),
        decreases n - i,
    {
        if s.get_char(i) == c {
            return Some(i);
        }
        i += 1;
    }
    None
}

/// Strict decimal parse of the characters `s[from..to]` as a `u16`, exactly
/// as [`dec_parse_u16_chars`] describes it.
fn parse_u16_chars_range(s: &str, from: usize, to: usize) -> (r: Option<u16>)
    requires
        from <= to <= s@.len(),
    ensures
        match dec_parse_u16_chars(s@.subrange(from as int, to as int)) {
            Some(v) => r is Some && r->0 == v,
            None => r is None,
        },
{
    let ghost digs = s@.subrange(from as int, to as int);
    if from == to {
        return None;
    }
    let mut i = from;
    let mut val: u32 = 0;
    let mut over: bool = false;
    while i < to
        invariant
            from <= i <= to <= s@.len(),
            digs == s@.subrange(from as int, to as int),
            digs.len() == to - from,
            forall|k: int| 0 <= k < digs.len() ==> digs[k] == s@[from + k],
            all_char_digits(digs.take(i - from)),
            !over ==> val == char_digits_val(digs.take(i - from)) && val <= 65535,
            over ==> char_digits_val(digs.take(i - from)) > 65535,
        decreases to - i,
    {
        let c = s.get_char(i);
        if c < '0' || c > '9' {
            proof {
                assert(digs[i - from] == c);
                assert(!is_char_digit(digs[i - from]));
                assert(!all_char_digits(digs));
            }
            return None;
        }
        let d = (c as u32) - 48;
        proof {
            assert(digs.take(i + 1 - from).drop_last() =~= digs.take(i - from));
            assert(digs.take(i + 1 - from).last() == c);
            assert(is_char_digit(c));
            assert(48 <= c as int <= 57);
            lemma_char_digits_val_nonneg(digs.take(i - from));
            assert(char_digits_val(digs.take(i + 1 - from)) == char_digits_val(
                digs.take(i - from),
            ) * 10 + (c as int - 48));
        }
        if over {
            proof {
                assert(char_digits_val(digs.take(i - from)) * 10 >= char_digits_val(
                    digs.take(i - from),
                )) by (nonlinear_arith)
                    requires
                        char_digits_val(digs.take(i - from)) > 0,
                ;
            }
        } else {
            val = val * 10 + d;
            if val > 65535 {
                over = true;
            }
        }
        i += 1;
        proof {
            assert(all_char_digits(digs.take(i - from))) by {
                assert(forall|k: int|
                    0 <= k < i - from ==> digs.take((i - from) as int)[k] == digs[k]);
            }
        }
    }
    proof {
        assert(digs.take((to - from) as int) =~= digs);
    }
    if over {
        return None;
    }
    Some(val as u16)
}

/// The value of a digit character string is non-negative.
proof fn lemma_char_digits_val_nonneg(s: Seq<char>)
    requires
        all_char_digits(s),
    ensures
        char_digits_val(s) >= 0,
    decreases s.len(),
{
    if s.len() > 0 {
        assert(all_char_digits(s.drop_last())) by {
            assert(forall|i: int|
                0 <= i < s.len() - 1 ==> #[trigger] s.drop_last()[i] == s[i]);
        }
        lemma_char_digits_val_nonneg(s.drop_last());
    }
}

/// Parses an error-frame body as a cluster redirection, exactly as
/// [`spec_redirection`] describes it: any failure means the text is not a
/// redirection, which the decoder treats as a plain error frame.
pub fn string_to_redirection(s: &str) -> (r: Result<Redirection, Error>)
    ensures
        match spec_redirection(s@) {
            Some(rv) => r is Ok && r->Ok_0@ == rv,
            None => r is Err && r->Err_0 is Other,
        },
{
    let n = s.unicode_len();
    proof {
        lemma_find_char(s@, ' ', 0);
    }
    let i1 = match find_char_str(s, ' ', 0) {
        Some(i) => i,
        None => {
            return Err(Error::Other("Invalid redirection".to_owned()));
        },
    };
    proof {
        lemma_find_char(s@, ' ', i1 + 1);
    }
    let i2 = match find_char_str(s, ' ', i1 + 1) {
        Some(i) => i,
        None => {
            return Err(Error::Other("Invalid redirection".to_owned()));
        },
    };
    proof {
        lemma_find_char(s@, ' ', i2 + 1);
    }
    match find_char_str(s, ' ', i2 + 1) {
        Some(_) => {
            return Err(Error::Other("Invalid redirection".to_owned()));
        },
        None => {},
    }
    let ghost kind_tok = s@.subrange(0, i1 as int);
    let is_moved = i1 == 5 && s.get_char(0) == 'M' && s.get_char(1) == 'O' && s.get_char(2) == 'V'
        && s.get_char(3) == 'E' && s.get_char(4) == 'D';
    let is_ask = i1 == 3 && s.get_char(0) == 'A' && s.get_char(1) == 'S' && s.get_char(2) == 'K';
    proof {
        assert(kind_tok.len() == i1);
        assert(forall|k: int| 0 <= k < i1 ==> #[trigger] kind_tok[k] == s@[k]);
        if is_moved {
            assert(kind_tok =~= moved_chars());
        } else {
            assert(kind_tok != moved_chars()) by {
                if kind_tok == moved_chars() {
                    assert(kind_tok[0] == 'M' && kind_tok[1] == 'O' && kind_tok[2] == 'V'
                        && kind_tok[3] == 'E' && kind_tok[4] == 'D');
                }
            }
        }
        if is_ask {
            assert(kind_tok =~= ask_chars());
        } else {
            assert(kind_tok != ask_chars()) by {
                if kind_tok == ask_chars() {
                    assert(kind_tok[0] == 'A' && kind_tok[1] == 'S' && kind_tok[2] == 'K');
                }
            }
        }
    }
    if !is_moved && !is_ask {
        return Err(Error::Other("Invalid redirection kind.".to_owned()));
    }
    let slot = match parse_u16_chars_range(s, i1 + 1, i2) {
        Some(v) => v,
        None => {
            return Err(Error::Other("Invalid hash slot redirection.".to_owned()));
        },
    };
    // The third token, `host:port`, taken relative to its own start.
    let ghost addr_tok = s@.subrange(i2 + 1, s@.len() as int);
    proof {
        assert(forall|k: int| 0 <= k < addr_tok.len() ==> addr_tok[k] == s@[i2 + 1 + k]);
        lemma_find_char(s@, ':', i2 + 1);
        lemma_find_char(addr_tok, ':', 0);
    }
    let j_abs = match find_char_str(s, ':', i2 + 1) {
        Some(j) => j,
        None => {
            proof {
                if let Some(jr) = find_char(addr_tok, ':', 0) {
                    assert(s@[i2 + 1 + jr] == ':');
                }
            }
            return Err(Error::Other("Invalid redirection address.".to_owned()));
        },
    };
    proof {
        // The absolute first colon is the relative first colon.
        match find_char(addr_tok, ':', 0) {
            None => {
                assert(addr_tok[j_abs - (i2 + 1)] == ':');
                assert(false);
            },
            Some(jr) => {
                assert(s@[i2 + 1 + jr] == ':');
                assert(addr_tok[j_abs - (i2 + 1)] == ':');
                assert(jr == j_abs - (i2 + 1));
            },
        }
        lemma_find_char(s@, ':', j_abs + 1);
        lemma_find_char(addr_tok, ':', j_abs - (i2 + 1) + 1);
    }
    match find_char_str(s, ':', j_abs + 1) {
        Some(j2_abs) => {
            proof {
                // A second colon in the whole text is a second one in the
                // address token, so this is no redirection.
                assert(s@[j2_abs as int] == ':');
                assert(addr_tok[j2_abs - (i2 + 1)] == ':');
                if find_char(addr_tok, ':', j_abs - (i2 + 1) + 1) is None {
                    assert(false);
                }
            }
            return Err(Error::Other("Invalid redirection address.".to_owned()));
        },
        None => {
            proof {
                if let Some(j2) = find_char(addr_tok, ':', j_abs - (i2 + 1) + 1) {
                    assert(s@[i2 + 1 + j2] == ':');
                }
            }
        },
    }
    let port = match parse_u16_chars_range(s, j_abs + 1, n) {
        Some(v) => v,
        None => {
            proof {
                assert(addr_tok.subrange(
                    j_abs - (i2 + 1) + 1,
                    addr_tok.len() as int,
                ) =~= s@.subrange(j_abs + 1, s@.len() as int));
            }
            return Err(Error::Other("Invalid redirection address port.".to_owned()));
        },
    };
    proof {
        assert(addr_tok.subrange(j_abs - (i2 + 1) + 1, addr_tok.len() as int) =~= s@.subrange(
            j_abs + 1,
            s@.len() as int,
        ));
    }
    let host = s.substring_char(i2 + 1, j_abs).to_owned();
    proof {
        assert(host@ =~= addr_tok.subrange(0, j_abs - (i2 + 1)));
    }
    if is_moved {
        Ok(Redirection::Moved { slot, host, port })
    } else {
        Ok(Redirection::Ask { slot, host, port })
    }
}


/// The number of bytes in the decimal rendering of `d`: what the encoder
/// writes for a length or count of `d`.
pub fn digits_in_number(d: usize) -> (r: usize)
    ensures
        r == dec_digits(d as nat).len(),
{
    digits_in_u64(d as u64)
}

/// The exact number of bytes that encoding `SimpleString(s)` appends.
pub fn simplestring_encode_len(s: &str) -> (r: usize)
    requires
        encode_utf8(s@).len() + 3 <= usize::MAX,
    ensures
        r == spec_encode(FrameView::SimpleString(s@)).len(),
{
    1 + s.len() + 2
}

/// The exact number of bytes that encoding `Error(s)` appends.
pub fn error_encode_len(s: &str) -> (r: usize)
    requires
        encode_utf8(s@).len() + 3 <= usize::MAX,
    ensures
        r == spec_encode(FrameView::Error(s@)).len(),
{
    1 + s.len() + 2
}

/// The exact number of bytes that encoding `Integer(i)` appends: tag byte,
/// sign if negative, minimal digits, terminator.
pub fn integer_encode_len(i: &i64) -> (r: usize)
    ensures
        r == spec_encode(FrameView::Integer(*i)).len(),
{
    let prefix: usize = if *i < 0 {
        1
    } else {
        0
    };
    let mag: u64 = if *i < 0 {
        ((-(*i + 1)) as u64) + 1
    } else {
        *i as u64
    };
    proof {
        if *i < 0 {
            assert(mag == -(*i as int));
            assert(dec_int(*i as int).len() == 1 + dec_digits(mag as nat).len());
        } else {
            assert(dec_int(*i as int) == dec_digits(mag as nat));
        }
    }
    let digits = digits_in_u64(mag);
    1 + digits + 2 + prefix
}

/// The decimal rendering of `n` as a string.
fn u64_to_dec_string(n: u64) -> (s: String)
    ensures
        s@ == dec_chars(n as nat),
{
    let mut digits: Vec<u8> = Vec::new();
    crate::decimal::push_digits(&mut digits, n);
    proof {
        lemma_dec_digits_val(n as nat);
        assert(forall|i: int|
            0 <= i < digits@.len() ==> #[trigger] digits@[i] < 128);
        lemma_ascii_bytes(digits@);
    }
    match vec_into_string(digits) {
        Some(s) => s,
        None => {
            proof {
                assert(false);
            }
            String::new()
        },
    }
}

/// Reconstructs the textual body of a redirection frame:
/// `<prefix> <slot> <host>:<port>`.
pub fn redirection_to_frame(prefix: &'static str, slot: u16, host: &str, port: u16) -> (r: String)
    ensures
        r@ == redirection_text(prefix@, slot, host@, port),
{
    proof {
        reveal_strlit(" ");
        reveal_strlit(":");
    }
    let mut out: String = prefix.to_owned();
    out.append(" ");
    let slot_s = u64_to_dec_string(slot as u64);
    out.append(slot_s.as_str());
    out.append(" ");
    out.append(host);
    out.append(":");
    let port_s = u64_to_dec_string(port as u64);
    out.append(port_s.as_str());
    proof {
        assert(" "@ =~= seq![' ']);
        assert(":"@ =~= seq![':']);
        assert(out@ =~= redirection_text(prefix@, slot, host@, port));
    }
    out
}

/// What the CRC-16/XMODEM checksum of a byte sequence is.
pub uninterp spec fn crc16_xmodem_of(bytes: Seq<u8>) -> u16;

/// Relies on `crc16::State::<XMODEM>::calculate`: a table-driven checksum
/// whose value depends on the input bytes alone.
#[verifier::external_body]
fn crc16_xmodem_raw(key: &[u8]) -> (r: u16)
    ensures
        r == crc16_xmodem_of(key@),
{
    crc16::State::<crc16::XMODEM>::calculate(key)
}

/// The slot of a byte range: its CRC-16/XMODEM checksum reduced modulo the
/// cluster's 16384 slots.
pub open spec fn spec_crc16_slot(bytes: Seq<u8>) -> u16 {
    (crc16_xmodem_of(bytes) % 16384) as u16
}

/// Performs a CRC-16/XMODEM operation against a string slice, reduced to a
/// cluster slot.
fn crc16_xmodem(key: &str) -> (r: u16)
    ensures
        r == spec_crc16_slot(encode_utf8(key@)),
{
    crc16_xmodem_raw(key.as_bytes()) % REDIS_CLUSTER_SLOTS
}

/// The slot that [`redis_keyslot`] assigns: hash the substring strictly
/// between the first `{` and the first `}` after it — the hash tag — or the
/// whole key when there is no such pair or the tag is empty.
pub open spec fn spec_keyslot(key: Seq<char>) -> u16 {
    match find_char(key, '{', 0) {
        None => spec_crc16_slot(encode_utf8(key)),
        Some(i) => {
            if i == key.len() - 1 {
                spec_crc16_slot(encode_utf8(key))
            } else {
                match find_char(key, '}', i + 1) {
                    None => spec_crc16_slot(encode_utf8(key)),
                    Some(j) => {
                        if j == i + 1 {
                            spec_crc16_slot(encode_utf8(key))
                        } else {
                            spec_crc16_slot(encode_utf8(key.subrange(i + 1, j)))
                        }
                    },
                }
            }
        },
    }
}

/// Maps a key to its cluster hash slot, exactly as [`spec_keyslot`] says.
pub fn redis_keyslot(key: &str) -> (r: u16)
    ensures
        r == spec_keyslot(key@),
{
    let n = key.unicode_len();
    proof {
        lemma_find_char(key@, '{', 0);
    }
    let i = match find_char_str(key, '{', 0) {
        None => {
            return crc16_xmodem(key);
        },
        Some(i) => i,
    };
    if i + 1 == n {
        return crc16_xmodem(key);
    }
    proof {
        lemma_find_char(key@, '}', i + 1);
    }
    let j = match find_char_str(key, '}', i + 1) {
        None => {
            return crc16_xmodem(key);
        },
        Some(j) => j,
    };
    if j == i + 1 {
        return crc16_xmodem(key);
    }
    let tag = key.substring_char(i + 1, j);
    proof {
        assert(tag@ =~= key@.subrange(i + 1, j as int));
    }
    crc16_xmodem(tag)
}

} // verus!
