//! The frame data model: the recursive value type exchanged over the wire,
//! its mathematical view, and the codec's error type.

use vstd::prelude::*;
use vstd::slice::slice_to_vec;
use vstd::utf8::{decode_utf8, encode_utf8, valid_utf8};
use crate::text::bytes_as_str;

verus! {

broadcast use vstd::std_specs::vec::group_vec_axioms;

/// Type tag byte that introduces a simple string frame on the wire: `+`.
pub const SIMPLESTRING_BYTE: u8 = 43;
/// Type tag byte that introduces an error frame on the wire: `-`.
pub const ERROR_BYTE: u8 = 45;
/// Type tag byte that introduces an integer frame on the wire: `:`.
pub const INTEGER_BYTE: u8 = 58;
/// Type tag byte that introduces a bulk string frame on the wire: `$`.
pub const BULKSTRING_BYTE: u8 = 36;
/// Type tag byte that introduces an array frame on the wire: `*`.
pub const ARRAY_BYTE: u8 = 42;

/// A cluster redirection message, parsed from the body of an error frame.
#[derive(Clone, Debug)]
pub enum Redirection {
    Moved { slot: u16, host: String, port: u16 },
    Ask { slot: u16, host: String, port: u16 },
}

/// One protocol value. Frames are recursively defined to account for arrays.
#[derive(Debug)]
pub enum Frame {
    /// A short textual status reply.
    SimpleString(String),
    /// A textual error that carries no recognized redirection.
    Error(String),
    /// A signed 64-bit integer reply.
    Integer(i64),
    /// A length-prefixed, binary-safe byte payload.
    BulkString(Vec<u8>),
    /// An ordered sequence of frames; children may be of any variant.
    Array(Vec<Frame>),
    /// A `MOVED` cluster redirection signal.
    Moved { slot: u16, host: String, port: u16 },
    /// An `ASK` cluster redirection signal.
    Ask { slot: u16, host: String, port: u16 },
    /// Explicit absence, wire-distinct from an empty string or array.
    Null,
}

/// The mathematical value of a [`Frame`]: the same tree over `Seq` instead of
/// `String` and `Vec`. Contracts throughout the crate speak of this type.
pub enum FrameView {
    SimpleString(Seq<char>),
    Error(Seq<char>),
    Integer(i64),
    BulkString(Seq<u8>),
    Array(Seq<FrameView>),
    Moved { slot: u16, host: Seq<char>, port: u16 },
    Ask { slot: u16, host: Seq<char>, port: u16 },
    Null,
}

/// The views of a sequence of frames, in order.
pub open spec fn frames_view(items: Seq<Frame>) -> Seq<FrameView>
    decreases items,
{
    if items.len() == 0 {
        Seq::empty()
    } else {
        seq![items[0]@] + frames_view(items.drop_first())
    }
}

/// Appending one frame appends its view.
pub proof fn lemma_frames_view_push(items: Seq<Frame>, f: Frame)
    ensures
        frames_view(items.push(f)) == frames_view(items) + seq![f@],
    decreases items.len(),
{
    reveal_with_fuel(frames_view, 2);
    if items.len() == 0 {
        assert(items.push(f)[0] == f);
        assert(items.push(f).drop_first() =~= Seq::<Frame>::empty());
        assert(frames_view(items.push(f)) =~= frames_view(items) + seq![f@]);
    } else {
        assert(items.push(f)[0] == items[0]);
        assert(items.push(f).drop_first() =~= items.drop_first().push(f));
        lemma_frames_view_push(items.drop_first(), f);
        assert(frames_view(items.push(f)) =~= frames_view(items) + seq![f@]);
    }
}

/// The views of a frame sequence line up with the frames, one for one.
pub proof fn lemma_frames_view_index(items: Seq<Frame>)
    ensures
        frames_view(items).len() == items.len(),
        forall|i: int| 0 <= i < items.len() ==> frames_view(items)[i] == items[i]@,
    decreases items.len(),
{
    reveal_with_fuel(frames_view, 2);
    if items.len() > 0 {
        lemma_frames_view_index(items.drop_first());
        assert(forall|i: int|
            1 <= i < items.len() ==> frames_view(items.drop_first())[i - 1] == #[trigger] items[i]@);
    }
}

impl View for Frame {
    type V = FrameView;

    open spec fn view(&self) -> FrameView
        decreases self,
    {
        match self {
            Frame::SimpleString(s) => FrameView::SimpleString(s@),
            Frame::Error(s) => FrameView::Error(s@),
            Frame::Integer(i) => FrameView::Integer(*i),
            Frame::BulkString(b) => FrameView::BulkString(b@),
            Frame::Array(items) => FrameView::Array(frames_view(items@)),
            Frame::Moved { slot, host, port } => FrameView::Moved {
                slot: *slot,
                host: host@,
                port: *port,
            },
            Frame::Ask { slot, host, port } => FrameView::Ask {
                slot: *slot,
                host: host@,
                port: *port,
            },
            Frame::Null => FrameView::Null,
        }
    }
}

/// The view of a [`Redirection`].
pub enum RedirectionView {
    Moved { slot: u16, host: Seq<char>, port: u16 },
    Ask { slot: u16, host: Seq<char>, port: u16 },
}

impl View for Redirection {
    type V = RedirectionView;

    open spec fn view(&self) -> RedirectionView {
        match self {
            Redirection::Moved { slot, host, port } => RedirectionView::Moved {
                slot: *slot,
                host: host@,
                port: *port,
            },
            Redirection::Ask { slot, host, port } => RedirectionView::Ask {
                slot: *slot,
                host: host@,
                port: *port,
            },
        }
    }
}

impl From<Redirection> for Frame {
    /// Folds a parsed redirection back into its frame variant.
    fn from(redirection: Redirection) -> (f: Frame) {
        match redirection {
            Redirection::Moved { slot, host, port } => Frame::Moved { slot, host, port },
            Redirection::Ask { slot, host, port } => Frame::Ask { slot, host, port },
        }
    }
}

impl vstd::std_specs::convert::FromSpecImpl<Redirection> for Frame {
    open spec fn obeys_from_spec() -> bool {
        true
    }

    open spec fn from_spec(redirection: Redirection) -> Frame {
        match redirection {
            Redirection::Moved { slot, host, port } => Frame::Moved { slot, host, port },
            Redirection::Ask { slot, host, port } => Frame::Ask { slot, host, port },
        }
    }
}

/// The codec's own error type, distinct from the protocol's `Error` frame.
///
/// `Incomplete` is recoverable: the buffer holds a prefix of a valid frame and
/// the caller should retry once more bytes arrive. `Other` is fatal for the
/// byte stream: its contents can never be completed into a valid frame.
#[derive(Debug)]
pub enum Error {
    /// Not enough data is available to parse a message.
    Incomplete,
    /// Invalid message encoding, with a description of the violation.
    Other(String),
}


/// Compares two byte slices for equality, element by element.
fn bytes_eq(a: &[u8], b: &[u8]) -> (r: bool)
    ensures
        r == (a@ == b@),
{
    if a.len() != b.len() {
        proof {
            assert(a@.len() != b@.len());
        }
        return false;
    }
    let n = a.len();
    let mut i: usize = 0;
    while i < n
        invariant
            i <= n,
            n == a@.len() == b@.len(),
            forall|k: int| 0 <= k < i ==> a@[k] == b@[k],
        decreases n - i,
    {
        if a[i] != b[i] {
            return false;
        }
        i += 1;
    }
    proof {
        assert(a@ =~= b@);
    }
    true
}

impl PartialEq for Frame {
    /// Structural equality: deep and recursive through arrays.
    #[verifier::loop_isolation(false)]
    fn eq(&self, other: &Frame) -> (r: bool)
        decreases *self,
    {
        match (self, other) {
            (Frame::SimpleString(a), Frame::SimpleString(b)) => {
                let r = *a == *b;
                proof {
                    assert(r == (self@ == other@));
                }
                r
            },
            (Frame::Error(a), Frame::Error(b)) => {
                let r = *a == *b;
                proof {
                    assert(r == (self@ == other@));
                }
                r
            },
            (Frame::Integer(a), Frame::Integer(b)) => {
                let r = a == b;
                proof {
                    assert(r == (self@ == other@));
                }
                r
            },
            (Frame::BulkString(a), Frame::BulkString(b)) => {
                let r = a == b;
                proof {
                    if a@ =~= b@ {
                        assert(a@ == b@);
                    }
                }
                r
            },
            (Frame::Array(a), Frame::Array(b)) => {
                proof {
                    lemma_frames_view_index(a@);
                    lemma_frames_view_index(b@);
                }
                if a.len() != b.len() {
                    proof {
                        assert(frames_view(a@).len() != frames_view(b@).len());
                    }
                    false
                } else {
                    let n = a.len();
                    let mut i: usize = 0;
                    let mut all_eq = true;
                    while i < n
                        invariant
                            i <= n,
                            n == a@.len() == b@.len(),
                            frames_view(a@).len() == n && frames_view(b@).len() == n,
                            forall|k: int|
                                0 <= k < a@.len() ==> #[trigger] frames_view(a@)[k] == a@[k]@,
                            forall|k: int|
                                0 <= k < b@.len() ==> #[trigger] frames_view(b@)[k] == b@[k]@,
                            all_eq ==> forall|k: int| 0 <= k < i ==> a@[k]@ == #[trigger] b@[k]@,
                            !all_eq ==> frames_view(a@) != frames_view(b@),
                        decreases n - i,
                    {
                        let x: &Frame = &a[i];
                        if !x.eq(&b[i]) {
                            proof {
                                assert(a@[i as int]@ != b@[i as int]@);
                                assert(frames_view(a@)[i as int] != frames_view(b@)[i as int]);
                            }
                            all_eq = false;
                        }
                        i += 1;
                    }
                    proof {
                        if all_eq {
                            assert(frames_view(a@) =~= frames_view(b@));
                        }
                    }
                    all_eq
                }
            },
            (
                Frame::Moved { slot: s1, host: h1, port: p1 },
                Frame::Moved { slot: s2, host: h2, port: p2 },
            ) => {
                let r = s1 == s2 && *h1 == *h2 && p1 == p2;
                proof {
                    assert(r == (self@ == other@));
                }
                r
            },
            (
                Frame::Ask { slot: s1, host: h1, port: p1 },
                Frame::Ask { slot: s2, host: h2, port: p2 },
            ) => {
                let r = s1 == s2 && *h1 == *h2 && p1 == p2;
                proof {
                    assert(r == (self@ == other@));
                }
                r
            },
            (Frame::Null, Frame::Null) => {
                proof {
                    assert(self@ == other@);
                }
                true
            },
            _ => {
                proof {
                    assert(self@ != other@);
                }
                false
            },
        }
    }
}

impl vstd::std_specs::cmp::PartialEqSpecImpl for Frame {
    open spec fn obeys_eq_spec() -> bool {
        true
    }

    open spec fn eq_spec(&self, other: &Frame) -> bool {
        self@ == other@
    }
}

impl Eq for Frame {}

impl PartialEq<&str> for Frame {
    /// The convenience textual comparison against plain text: only the
    /// string-bearing variants can ever equal a string.
    fn eq(&self, other: &&str) -> (r: bool) {
        match self {
            Frame::SimpleString(s) => {
                let r = bytes_eq(s.as_str().as_bytes(), other.as_bytes());
                proof {
                    if encode_utf8(s@) == encode_utf8(other@) {
                        vstd::utf8::encode_utf8_decode_utf8(s@);
                        vstd::utf8::encode_utf8_decode_utf8(other@);
                        assert(s@ == other@);
                    }
                }
                r
            },
            Frame::Error(s) => {
                let r = bytes_eq(s.as_str().as_bytes(), other.as_bytes());
                proof {
                    if encode_utf8(s@) == encode_utf8(other@) {
                        vstd::utf8::encode_utf8_decode_utf8(s@);
                        vstd::utf8::encode_utf8_decode_utf8(other@);
                        assert(s@ == other@);
                    }
                }
                r
            },
            Frame::BulkString(b) => bytes_eq(b.as_slice(), other.as_bytes()),
            _ => false,
        }
    }
}

impl vstd::std_specs::cmp::PartialEqSpecImpl<&str> for Frame {
    open spec fn obeys_eq_spec() -> bool {
        true
    }

    open spec fn eq_spec(&self, other: &&str) -> bool {
        match self {
            Frame::SimpleString(s) => s@ == other@,
            Frame::Error(s) => s@ == other@,
            Frame::BulkString(b) => b@ == encode_utf8(other@),
            _ => false,
        }
    }
}

impl Clone for Frame {
    /// A deep copy: the clone's value equals the original's.
    #[verifier::loop_isolation(false)]
    fn clone(&self) -> (r: Frame)
        ensures
            r@ == self@,
        decreases *self,
    {
        match self {
            Frame::SimpleString(s) => Frame::SimpleString(s.clone()),
            Frame::Error(s) => Frame::Error(s.clone()),
            Frame::Integer(i) => Frame::Integer(*i),
            Frame::BulkString(b) => Frame::BulkString(slice_to_vec(b.as_slice())),
            Frame::Array(items) => {
                let n = items.len();
                let mut out: Vec<Frame> = Vec::new();
                let mut i: usize = 0;
                proof {
                    lemma_frames_view_index(items@);
                    assert(frames_view(out@) =~= Seq::<FrameView>::empty());
                }
                while i < n
                    invariant
                        i <= n,
                        n == items@.len(),
                        out@.len() == i,
                        frames_view(items@).len() == n,
                        forall|k: int|
                            0 <= k < n ==> #[trigger] frames_view(items@)[k] == items@[k]@,
                        frames_view(out@) == frames_view(items@).take(i as int),
                    decreases n - i,
                {
                    let x: &Frame = &items[i];
                    let c = x.clone();
                    proof {
                        lemma_frames_view_push(out@, c);
                        assert(frames_view(items@).take(i + 1) =~= frames_view(items@).take(
                            i as int,
                        ) + seq![items@[i as int]@]);
                    }
                    out.push(c);
                    i += 1;
                }
                proof {
                    assert(frames_view(items@).take(n as int) =~= frames_view(items@));
                }
                Frame::Array(out)
            },
            Frame::Moved { slot, host, port } => Frame::Moved {
                slot: *slot,
                host: host.clone(),
                port: *port,
            },
            Frame::Ask { slot, host, port } => Frame::Ask {
                slot: *slot,
                host: host.clone(),
                port: *port,
            },
            Frame::Null => Frame::Null,
        }
    }
}

impl Frame {
    /// The textual reading of a string-bearing frame: the text of a simple
    /// string or error, a bulk string's payload when it is valid UTF-8.
    pub fn as_str(&self) -> (r: Option<&str>)
        ensures
            match self {
                Frame::BulkString(b) => match r {
                    Some(s) => valid_utf8(b@) && s@ == decode_utf8(b@),
                    None => !valid_utf8(b@),
                },
                Frame::SimpleString(s0) => r is Some && r->0@ == s0@,
                Frame::Error(s0) => r is Some && r->0@ == s0@,
                _ => r is None,
            },
    {
        match self {
            Frame::BulkString(b) => bytes_as_str(b.as_slice()),
            Frame::SimpleString(s) => Some(s.as_str()),
            Frame::Error(s) => Some(s.as_str()),
            _ => None,
        }
    }
}

impl From<String> for Error {
    /// Wraps a description of a protocol violation.
    fn from(src: String) -> (e: Error) {
        Error::Other(src)
    }
}

impl vstd::std_specs::convert::FromSpecImpl<String> for Error {
    open spec fn obeys_from_spec() -> bool {
        true
    }

    open spec fn from_spec(src: String) -> Error {
        Error::Other(src)
    }
}

impl Error {
    /// A description of the error: what a caller would log or show.
    pub fn message(&self) -> (r: String)
        ensures
            match self {
                Error::Incomplete => r@ == "stream ended early"@,
                Error::Other(m) => r@ == m@,
            },
    {
        match self {
            Error::Incomplete => "stream ended early".to_owned(),
            Error::Other(m) => m.clone(),
        }
    }
}

} // verus!
