//! The wire format: one frame is UTF-8 text of the form `room-name:payload`.
//!
//! The room name is everything before the first colon. It is not empty and,
//! being cut at the first colon, holds none. The payload is everything after
//! that colon and may itself hold colons.

use vstd::prelude::*;
use vstd::slice::*;
use vstd::utf8::*;

verus! {

/// The byte that parts the room name from the payload: an ASCII colon.
pub const DELIMITER: u8 = 0x3a;

/// Why a frame or a room name was refused.
#[derive(Clone, Copy, Debug, PartialEq, Eq, Structural)]
pub enum ProtocolError {
    /// The bytes are not UTF-8 text.
    InvalidUtf8,
    /// The frame holds no colon.
    MissingDelimiter,
    /// Nothing stands where the room name belongs.
    EmptyRoom,
    /// A room name holds a colon.
    DelimiterInRoom,
}

/// `core::str::Utf8Error`, the error of `core::str::from_utf8`. It is only
/// passed through: nothing is claimed of what it holds.
#[verifier::external_type_specification]
#[verifier::external_body]
pub struct ExUtf8Error(core::str::Utf8Error);

/// `core::str::from_utf8` is taken at its word: it returns `Ok` exactly when
/// the bytes are well-formed UTF-8. Nothing is claimed of the error value.
pub assume_specification[ core::str::from_utf8 ](v: &[u8]) -> (r: Result<
    &str,
    core::str::Utf8Error,
>)
    ensures
        r is Ok <==> valid_utf8(v@),
;

/// `i` is the place of the first colon in `bytes`.
pub open spec fn is_first_delimiter(bytes: Seq<u8>, i: int) -> bool {
    &&& 0 <= i < bytes.len()
    &&& bytes[i] == DELIMITER
    &&& forall|j: int| 0 <= j < i ==> bytes[j] != DELIMITER
}

/// The place of the first colon in `bytes`, where there is one.
pub open spec fn first_delimiter(bytes: Seq<u8>) -> int {
    choose|i: int| is_first_delimiter(bytes, i)
}

/// What makes a room name: UTF-8 text, not empty, without a colon.
pub open spec fn valid_room_name(name: Seq<u8>) -> bool {
    &&& valid_utf8(name)
    &&& name.len() > 0
    &&& !name.contains(DELIMITER)
}

/// The verdict on a would-be room name: the first rule it breaks, if any.
pub open spec fn spec_check_room_name(name: Seq<u8>) -> Option<ProtocolError> {
    if !valid_utf8(name) {
        Some(ProtocolError::InvalidUtf8)
    } else if name.len() == 0 {
        Some(ProtocolError::EmptyRoom)
    } else if name.contains(DELIMITER) {
        Some(ProtocolError::DelimiterInRoom)
    } else {
        None
    }
}

/// The name of a room, checked once when it is made.
#[derive(Debug)]
pub struct RoomName {
    bytes: Vec<u8>,
}

impl View for RoomName {
    type V = Seq<u8>;

    closed spec fn view(&self) -> Seq<u8> {
        self.bytes@
    }
}

impl RoomName {
    /// Every room name that exists is a valid one.
    #[verifier::type_invariant]
    pub open spec fn well_formed(self) -> bool {
        valid_room_name(self@)
    }

    /// Makes a room name out of `bytes`, or says which rule they break.
    pub fn new(bytes: &[u8]) -> (r: Result<RoomName, ProtocolError>)
        ensures
            r is Ok <==> valid_room_name(bytes@),
            match r {
                Ok(name) => name@ == bytes@,
                Err(e) => spec_check_room_name(bytes@) == Some(e),
            },
    {
        if core::str::from_utf8(bytes).is_err() {
            return Err(ProtocolError::InvalidUtf8);
        }
        if bytes.len() == 0 {
            return Err(ProtocolError::EmptyRoom);
        }
        match find_delimiter(bytes) {
            Some(_) => Err(ProtocolError::DelimiterInRoom),
            None => Ok(RoomName { bytes: slice_to_vec(bytes) }),
        }
    }

    /// The name's bytes. Every room name that exists is a valid one.
    pub fn as_bytes(&self) -> (bytes: &[u8])
        ensures
            bytes@ == self@,
            valid_room_name(self@),
    {
        proof {
            use_type_invariant(self);
        }
        self.bytes.as_slice()
    }

    /// Whether two names are the same name.
    pub fn same(&self, other: &RoomName) -> (eq: bool)
        ensures
            eq == (self@ == other@),
    {
        bytes_equal(self.bytes.as_slice(), other.bytes.as_slice())
    }
}

impl Clone for RoomName {
    fn clone(&self) -> (copy: Self)
        ensures
            copy@ == self@,
    {
        proof {
            use_type_invariant(self);
        }
        RoomName { bytes: slice_to_vec(self.bytes.as_slice()) }
    }
}

/// Whether two byte strings hold the same bytes.
pub fn bytes_equal(a: &[u8], b: &[u8]) -> (eq: bool)
    ensures
        eq == (a@ == b@),
{
    if a.len() != b.len() {
        return false;
    }
    let mut i: usize = 0;
    while i < a.len()
        invariant
            a@.len() == b@.len(),
            i <= a@.len(),
            forall|j: int| 0 <= j < i ==> a@[j] == b@[j],
        decreases a@.len() - i,
    {
        if a[i] != b[i] {
            return false;
        }
        i += 1;
    }
    assert(a@ =~= b@);
    true
}

/// Finds the first colon in `bytes`.
pub fn find_delimiter(bytes: &[u8]) -> (found: Option<usize>)
    ensures
        match found {
            Some(i) => is_first_delimiter(bytes@, i as int),
            None => !bytes@.contains(DELIMITER),
        },
{
    let mut i: usize = 0;
    while i < bytes.len()
        invariant
            i <= bytes@.len(),
            forall|j: int| 0 <= j < i ==> bytes@[j] != DELIMITER,
        decreases bytes@.len() - i,
    {
        if bytes[i] == DELIMITER {
            return Some(i);
        }
        i += 1;
    }
    None
}

/// A frame after parsing: either its two parts, or the reason it is no frame.
#[derive(Debug)]
pub enum ParsedFrame {
    /// A well-formed frame.
    Valid { room: RoomName, payload: Vec<u8> },
    /// Not a frame, and why.
    Malformed(ProtocolError),
}

/// A parsed frame as plain values.
pub enum FrameView {
    Valid { room: Seq<u8>, payload: Seq<u8> },
    Malformed(ProtocolError),
}

impl View for ParsedFrame {
    type V = FrameView;

    open spec fn view(&self) -> FrameView {
        match self {
            ParsedFrame::Valid { room, payload } => FrameView::Valid {
                room: room@,
                payload: payload@,
            },
            ParsedFrame::Malformed(e) => FrameView::Malformed(*e),
        }
    }
}

/// What a frame's bytes mean.
///
/// Bytes that are not UTF-8 are refused first, then a frame without a colon,
/// then one whose first colon stands at the very start. Any other frame is
/// cut at its first colon.
pub open spec fn spec_parse(bytes: Seq<u8>) -> FrameView {
    if !valid_utf8(bytes) {
        FrameView::Malformed(ProtocolError::InvalidUtf8)
    } else if !bytes.contains(DELIMITER) {
        FrameView::Malformed(ProtocolError::MissingDelimiter)
    } else if first_delimiter(bytes) == 0 {
        FrameView::Malformed(ProtocolError::EmptyRoom)
    } else {
        FrameView::Valid {
            room: bytes.subrange(0, first_delimiter(bytes)),
            payload: bytes.subrange(first_delimiter(bytes) + 1, bytes.len() as int),
        }
    }
}

/// The bytes of the frame that carries `payload` to `room`.
pub open spec fn spec_frame(room: Seq<u8>, payload: Seq<u8>) -> Seq<u8> {
    room + seq![DELIMITER] + payload
}

/// There is at most one first colon.
pub proof fn lemma_first_delimiter_unique(bytes: Seq<u8>, i: int)
    requires
        is_first_delimiter(bytes, i),
    ensures
        first_delimiter(bytes) == i,
        bytes.contains(DELIMITER),
{
    let k = first_delimiter(bytes);
    assert(is_first_delimiter(bytes, k));
    if k < i {
        assert(bytes[k] != DELIMITER);
    }
    if i < k {
        assert(bytes[i] != DELIMITER);
    }
}

/// Cutting UTF-8 text at a colon leaves UTF-8 text on both sides.
pub proof fn lemma_cut_at_delimiter(bytes: Seq<u8>, i: int)
    requires
        valid_utf8(bytes),
        0 <= i < bytes.len(),
        bytes[i] == DELIMITER,
    ensures
        valid_utf8(bytes.subrange(0, i)),
        valid_utf8(bytes.subrange(i + 1, bytes.len() as int)),
{
    assert(!is_continuation_byte(bytes[i]));
    is_char_boundary_iff_not_is_continuation_byte(bytes, i);
    valid_utf8_split(bytes, i);
    let tail = bytes.subrange(i, bytes.len() as int);
    assert(tail[0] == DELIMITER);
    assert(is_leading_byte_width_1(tail[0]));
    assert(length_of_first_scalar(tail) == 1);
    assert(pop_first_scalar(tail) =~= bytes.subrange(i + 1, bytes.len() as int));
}

/// Parses one frame. This never fails: a frame that is none comes back as
/// `Malformed`, with the reason.
pub fn parse_frame(bytes: &[u8]) -> (frame: ParsedFrame)
    ensures
        frame@ == spec_parse(bytes@),
{
    if core::str::from_utf8(bytes).is_err() {
        return ParsedFrame::Malformed(ProtocolError::InvalidUtf8);
    }
    match find_delimiter(bytes) {
        None => ParsedFrame::Malformed(ProtocolError::MissingDelimiter),
        Some(i) => {
            proof {
                lemma_first_delimiter_unique(bytes@, i as int);
            }
            if i == 0 {
                ParsedFrame::Malformed(ProtocolError::EmptyRoom)
            } else {
                let end = bytes.len();
                let name = slice_to_vec(slice_subrange(bytes, 0, i));
                let payload = slice_to_vec(slice_subrange(bytes, i + 1, end));
                proof {
                    lemma_cut_at_delimiter(bytes@, i as int);
                    assert(!name@.contains(DELIMITER)) by {
                        if name@.contains(DELIMITER) {
                            let j = choose|j: int| 0 <= j < name@.len() && name@[j] == DELIMITER;
                            assert(bytes@[j] == name@[j]);
                        }
                    }
                }
                ParsedFrame::Valid { room: RoomName { bytes: name }, payload }
            }
        },
    }
}

/// A frame is valid exactly when it is UTF-8 text made of a valid room name,
/// a colon and a payload; its parts are then that name and that payload.
pub proof fn lemma_parse_valid_iff(bytes: Seq<u8>, room: Seq<u8>, payload: Seq<u8>)
    ensures
        spec_parse(bytes) == (FrameView::Valid { room, payload }) <==> (valid_utf8(bytes)
            && valid_room_name(room) && bytes == spec_frame(room, payload)),
{
    if valid_utf8(bytes) && valid_room_name(room) && bytes == spec_frame(room, payload) {
        let i = room.len() as int;
        assert(bytes[i] == DELIMITER);
        assert forall|j: int| 0 <= j < i implies bytes[j] != DELIMITER by {
            assert(bytes[j] == room[j]);
            assert(room.contains(room[j]));
        }
        lemma_first_delimiter_unique(bytes, i);
        assert(bytes.subrange(0, i) =~= room);
        assert(bytes.subrange(i + 1, bytes.len() as int) =~= payload);
    }
    if spec_parse(bytes) == (FrameView::Valid { room, payload }) {
        let i = first_delimiter(bytes);
        let w = choose|w: int| 0 <= w < bytes.len() && bytes[w] == DELIMITER;
        lemma_has_first_delimiter(bytes, w);
        assert(is_first_delimiter(bytes, i));
        lemma_cut_at_delimiter(bytes, i);
        assert(bytes =~= spec_frame(room, payload));
        if room.contains(DELIMITER) {
            let j = choose|j: int| 0 <= j < room.len() && room[j] == DELIMITER;
            assert(bytes[j] == room[j]);
        }
    }
}

/// Where a colon occurs, a first colon occurs.
pub proof fn lemma_has_first_delimiter(bytes: Seq<u8>, w: int)
    requires
        0 <= w < bytes.len(),
        bytes[w] == DELIMITER,
    ensures
        is_first_delimiter(bytes, first_delimiter(bytes)),
    decreases w,
{
    if forall|j: int| 0 <= j < w ==> bytes[j] != DELIMITER {
        assert(is_first_delimiter(bytes, w));
    } else {
        let j = choose|j: int| 0 <= j < w && bytes[j] == DELIMITER;
        lemma_has_first_delimiter(bytes, j);
    }
}

/// Framing and parsing undo each other: the frame built from a valid room
/// name and a UTF-8 payload parses back into exactly those two parts.
pub proof fn lemma_parse_framed(room: Seq<u8>, payload: Seq<u8>)
    requires
        valid_room_name(room),
        valid_utf8(payload),
    ensures
        spec_parse(spec_frame(room, payload)) == (FrameView::Valid { room, payload }),
{
    let colon = seq![DELIMITER];
    assert(valid_utf8(colon)) by {
        reveal_with_fuel(valid_utf8, 2);
        assert(is_leading_byte_width_1(colon[0]));
        assert(pop_first_scalar(colon) =~= Seq::<u8>::empty());
    }
    valid_utf8_concat(room, colon);
    valid_utf8_concat(room + colon, payload);
    lemma_parse_valid_iff(spec_frame(room, payload), room, payload);
}

} // verus!
