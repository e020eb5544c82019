//! The redirection grammar: recognizing `MOVED <slot> <host>:<port>` and
//! `ASK <slot> <host>:<port>` in the text body of an error frame.

use vstd::prelude::*;
use crate::types::{FrameView, RedirectionView};

verus! {

/// The first index `i >= from` with `s[i] == c`, if any.
pub open spec fn find_char(s: Seq<char>, c: char, from: int) -> Option<int>
    decreases s.len() - from,
{
    if from < 0 || from >= s.len() {
        None
    } else if s[from] == c {
        Some(from)
    } else {
        find_char(s, c, from + 1)
    }
}

/// What [`find_char`] returns, stated directly: the found index is the first
/// occurrence at or after `from`, and `None` means there is none.
pub proof fn lemma_find_char(s: Seq<char>, c: char, from: int)
    requires
        0 <= from <= s.len(),
    ensures
        match find_char(s, c, from) {
            Some(t) => from <= t < s.len() && s[t] == c && forall|k: int|
                from <= k < t ==> s[k] != c,
            None => forall|k: int| from <= k < s.len() ==> s[k] != c,
        },
    decreases s.len() - from,
{
    if from < s.len() && s[from] != c {
        lemma_find_char(s, c, from + 1);
    }
}

/// Whether `c` is an ASCII decimal digit.
pub open spec fn is_char_digit(c: char) -> bool {
    '0' <= c <= '9'
}

/// Whether every character of `s` is an ASCII decimal digit.
pub open spec fn all_char_digits(s: Seq<char>) -> bool {
    forall|i: int| 0 <= i < s.len() ==> is_char_digit(#[trigger] s[i])
}

/// The non-negative value of a decimal digit character string.
pub open spec fn char_digits_val(s: Seq<char>) -> int
    decreases s.len(),
{
    if s.len() == 0 {
        0
    } else {
        char_digits_val(s.drop_last()) * 10 + (s.last() as int - 48)
    }
}

/// Strict decimal parse of a 16-bit unsigned value from characters: one or
/// more ASCII digits, nothing else, value at most 65535.
pub open spec fn dec_parse_u16_chars(s: Seq<char>) -> Option<u16> {
    if s.len() > 0 && all_char_digits(s) && char_digits_val(s) <= 65535 {
        Some(char_digits_val(s) as u16)
    } else {
        None
    }
}

/// The characters of the `MOVED` keyword.
pub open spec fn moved_chars() -> Seq<char> {
    seq!['M', 'O', 'V', 'E', 'D']
}

/// The characters of the `ASK` keyword.
pub open spec fn ask_chars() -> Seq<char> {
    seq!['A', 'S', 'K']
}

/// The structured reading of an error-frame body as a cluster redirection:
/// exactly three space-separated tokens, the first exactly `MOVED` or `ASK`,
/// the second a decimal `u16` slot, the third `host:port` with exactly one
/// colon and a decimal `u16` port. Any other shape is not a redirection.
pub open spec fn spec_redirection(s: Seq<char>) -> Option<RedirectionView> {
    match find_char(s, ' ', 0) {
        None => None,
        Some(i1) => match find_char(s, ' ', i1 + 1) {
            None => None,
            Some(i2) => {
                if find_char(s, ' ', i2 + 1) is Some {
                    None
                } else {
                    let kind_tok = s.subrange(0, i1);
                    let slot_tok = s.subrange(i1 + 1, i2);
                    let addr_tok = s.subrange(i2 + 1, s.len() as int);
                    if kind_tok != moved_chars() && kind_tok != ask_chars() {
                        None
                    } else {
                        match dec_parse_u16_chars(slot_tok) {
                            None => None,
                            Some(slot) => match find_char(addr_tok, ':', 0) {
                                None => None,
                                Some(j) => {
                                    if find_char(addr_tok, ':', j + 1) is Some {
                                        None
                                    } else {
                                        let host = addr_tok.subrange(0, j);
                                        let port_tok = addr_tok.subrange(
                                            j + 1,
                                            addr_tok.len() as int,
                                        );
                                        match dec_parse_u16_chars(port_tok) {
                                            None => None,
                                            Some(port) => {
                                                if kind_tok == moved_chars() {
                                                    Some(RedirectionView::Moved { slot, host, port })
                                                } else {
                                                    Some(RedirectionView::Ask { slot, host, port })
                                                }
                                            },
                                        }
                                    }
                                },
                            },
                        }
                    }
                }
            },
        },
    }
}

/// The frame that stands for a parsed redirection.
pub open spec fn redirection_frame_view(rv: RedirectionView) -> FrameView {
    match rv {
        RedirectionView::Moved { slot, host, port } => FrameView::Moved { slot, host, port },
        RedirectionView::Ask { slot, host, port } => FrameView::Ask { slot, host, port },
    }
}

} // verus!
