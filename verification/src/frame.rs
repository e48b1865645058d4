//! Framing: every message on the wire is preceded by its length, as four
//! bytes, most significant first.

use vstd::prelude::*;

verus! {

/// The length of a frame's header.
pub const FRAME_HEADER_LEN: usize = 4;

/// The longest payload that a frame may carry: 1 MiB.
pub const MAX_FRAME_LEN: usize = 1_048_576;

/// A frame announces or would carry more than the longest payload.
#[derive(Debug, Clone, Copy, PartialEq, Eq, Structural)]
pub struct FrameTooLarge {
    pub len: usize,
}

/// The number that four bytes spell, most significant first.
pub open spec fn big_endian(bytes: Seq<u8>) -> nat
    recommends
        bytes.len() == 4,
{
    (bytes[0] * 0x100_0000 + bytes[1] * 0x1_0000 + bytes[2] * 0x100 + bytes[3]) as nat
}

/// The four bytes that spell a number, most significant first.
pub open spec fn header(len: nat) -> Seq<u8> {
    seq![
        (len / 0x100_0000 % 256) as u8,
        (len / 0x1_0000 % 256) as u8,
        (len / 0x100 % 256) as u8,
        (len % 256) as u8,
    ]
}

/// A payload as it stands on the wire.
pub open spec fn framed(payload: Seq<u8>) -> Seq<u8> {
    header(payload.len()) + payload
}

/// Several payloads as they stand on the wire, one after the other.
pub open spec fn all_framed(payloads: Seq<Seq<u8>>) -> Seq<u8>
    decreases payloads.len(),
{
    if payloads.len() == 0 {
        Seq::empty()
    } else {
        framed(payloads[0]) + all_framed(payloads.drop_first())
    }
}

/// May a frame carry the payload?
pub open spec fn fits_in_frame(payload: Seq<u8>) -> bool {
    payload.len() <= MAX_FRAME_LEN
}

/// What stands at the front of the bytes received so far.
pub enum Front {
    /// Not yet a whole frame.
    Partial,
    /// A frame that announces too much.
    TooLarge { len: nat },
    /// A whole frame.
    Whole { payload: Seq<u8>, rest: Seq<u8> },
}

/// What stands at the front of the bytes received so far.
pub open spec fn front(bytes: Seq<u8>) -> Front {
    if bytes.len() < FRAME_HEADER_LEN {
        Front::Partial
    } else {
        let len = big_endian(bytes.take(4));
        if len > MAX_FRAME_LEN {
            Front::TooLarge { len }
        } else if bytes.len() < FRAME_HEADER_LEN + len {
            Front::Partial
        } else {
            Front::Whole {
                payload: bytes.subrange(4, 4 + len as int),
                rest: bytes.skip(4 + len as int),
            }
        }
    }
}

/// The payloads of the whole frames at the front of the bytes, up to the
/// first that is partial or too large.
pub open spec fn payloads_in(bytes: Seq<u8>) -> Seq<Seq<u8>>
    decreases bytes.len(),
{
    match front(bytes) {
        Front::Whole { payload, rest } => if rest.len() < bytes.len() {
            seq![payload] + payloads_in(rest)
        } else {
            Seq::empty()
        },
        _ => Seq::empty(),
    }
}

/// The bytes behind the whole frames at the front.
pub open spec fn left_over(bytes: Seq<u8>) -> Seq<u8>
    decreases bytes.len(),
{
    match front(bytes) {
        Front::Whole { payload, rest } => if rest.len() < bytes.len() {
            left_over(rest)
        } else {
            bytes
        },
        _ => bytes,
    }
}

proof fn header_spells_its_length(len: nat)
    requires
        len <= u32::MAX,
    ensures
        header(len).len() == 4,
        big_endian(header(len)) == len,
{
}

/// The length that a frame's header announces, if a frame may be that long.
pub fn parse_frame_header(header: &[u8; 4]) -> (len: Result<usize, FrameTooLarge>)
    ensures
        ({
            let announced = big_endian(header@);
            if announced <= MAX_FRAME_LEN {
                len == Ok::<usize, FrameTooLarge>(announced as usize)
            } else {
                len == Err::<usize, FrameTooLarge>(FrameTooLarge { len: announced as usize })
            }
        }),
{
    let a: usize = header[0] as usize;
    let b: usize = header[1] as usize;
    let c: usize = header[2] as usize;
    let d: usize = header[3] as usize;
    let len: usize = a * 0x100_0000 + b * 0x1_0000 + c * 0x100 + d;
    if len > MAX_FRAME_LEN {
        Err(FrameTooLarge { len })
    } else {
        Ok(len)
    }
}

/// Puts a payload into a frame.
pub fn frame(payload: &[u8]) -> (bytes: Result<Vec<u8>, FrameTooLarge>)
    ensures
        if fits_in_frame(payload@) {
            bytes matches Ok(bytes) && bytes@ == framed(payload@)
        } else {
            bytes == Err::<Vec<u8>, FrameTooLarge>(FrameTooLarge { len: payload@.len() as usize })
        },
{
    let len: usize = payload.len();
    if len > MAX_FRAME_LEN {
        return Err(FrameTooLarge { len });
    }
    let mut bytes: Vec<u8> = Vec::new();
    bytes.push((len / 0x100_0000 % 256) as u8);
    bytes.push((len / 0x1_0000 % 256) as u8);
    bytes.push((len / 0x100 % 256) as u8);
    bytes.push((len % 256) as u8);
    assert(bytes@ =~= header(len as nat));
    append(&mut bytes, payload);
    Ok(bytes)
}

fn append(bytes: &mut Vec<u8>, more: &[u8])
    ensures
        final(bytes)@ == old(bytes)@ + more@,
{
    let ghost before = bytes@;
    let n: usize = more.len();
    let mut i: usize = 0;
    while i < n
        invariant
            i <= n,
            n == more@.len(),
            bytes@ == before + more@.take(i as int),
        decreases n - i,
    {
        bytes.push(more[i]);
        assert(more@.take(i + 1) =~= more@.take(i as int).push(more@[i as int]));
        i = i + 1;
    }
    assert(more@.take(n as int) =~= more@);
}

fn copy_range(bytes: &Vec<u8>, from: usize, to: usize) -> (copy: Vec<u8>)
    requires
        from <= to <= bytes@.len(),
    ensures
        copy@ == bytes@.subrange(from as int, to as int),
{
    let mut copy: Vec<u8> = Vec::new();
    let mut i: usize = from;
    while i < to
        invariant
            from <= i <= to <= bytes@.len(),
            copy@ == bytes@.subrange(from as int, i as int),
        decreases to - i,
    {
        copy.push(bytes[i]);
        assert(bytes@.subrange(from as int, i + 1) =~= bytes@.subrange(from as int, i as int).push(
            bytes@[i as int],
        ));
        i = i + 1;
    }
    copy
}

/// The bytes that a connection has received and not yet taken out as
/// frames. A frame that arrives in pieces waits here for its rest.
pub struct FrameBuffer {
    bytes: Vec<u8>,
}

impl View for FrameBuffer {
    type V = Seq<u8>;

    closed spec fn view(&self) -> Seq<u8> {
        self.bytes@
    }
}

impl FrameBuffer {
    pub fn new() -> (buffer: Self)
        ensures
            buffer@ == Seq::<u8>::empty(),
    {
        FrameBuffer { bytes: Vec::new() }
    }

    /// Adds bytes that were read.
    pub fn extend(&mut self, chunk: &[u8])
        ensures
            final(self)@ == old(self)@ + chunk@,
    {
        append(&mut self.bytes, chunk);
    }

    /// Takes the first whole frame out; `None` where there is none yet. A
    /// frame that announces too much is an error, and stays.
    pub fn next_frame(&mut self) -> (taken: Result<Option<Vec<u8>>, FrameTooLarge>)
        ensures
            match front(old(self)@) {
                Front::Partial => {
                    &&& taken == Ok::<Option<Vec<u8>>, FrameTooLarge>(None)
                    &&& final(self)@ == old(self)@
                },
                Front::TooLarge { len } => {
                    &&& taken == Err::<Option<Vec<u8>>, FrameTooLarge>(
                        FrameTooLarge { len: len as usize },
                    )
                    &&& final(self)@ == old(self)@
                },
                Front::Whole { payload, rest } => {
                    &&& taken matches Ok(Some(found)) && found@ == payload
                    &&& final(self)@ == rest
                },
            },
    {
        let have: usize = self.bytes.len();
        if have < FRAME_HEADER_LEN {
            return Ok(None);
        }
        let head: [u8; 4] = [self.bytes[0], self.bytes[1], self.bytes[2], self.bytes[3]];
        assert(head@ =~= self.bytes@.take(4));
        match parse_frame_header(&head) {
            Err(e) => Err(e),
            Ok(len) => {
                if have - FRAME_HEADER_LEN < len {
                    return Ok(None);
                }
                let end: usize = FRAME_HEADER_LEN + len;
                let payload = copy_range(&self.bytes, FRAME_HEADER_LEN, end);
                let rest = copy_range(&self.bytes, end, have);
                assert(rest@ =~= self.bytes@.skip(end as int));
                self.bytes = rest;
                Ok(Some(payload))
            },
        }
    }
}

/// Why a frame could not be read.
#[derive(Debug, Clone, Copy, PartialEq, Eq, Structural)]
pub enum ReadFailure {
    /// The other side closed the connection.
    Closed,
    /// The frame announces too much.
    TooLarge(FrameTooLarge),
}

/// What a read of one frame has come to.
pub enum ReadProgress {
    /// More bytes are needed.
    More,
    /// The frame's payload, and the descriptors that came with it.
    Done { payload: Vec<u8>, fds: Vec<i32> },
    /// The frame cannot be read.
    Failed(ReadFailure),
}

/// The reading of one frame, with the descriptors that come along.
pub struct FrameReader {
    bytes: Vec<u8>,
    fds: Vec<i32>,
}

/// How many bytes are to be read next: the rest of the header, then the
/// rest of the payload.
pub open spec fn missing(bytes: Seq<u8>) -> nat {
    if bytes.len() < FRAME_HEADER_LEN {
        (FRAME_HEADER_LEN - bytes.len()) as nat
    } else {
        let end = FRAME_HEADER_LEN + big_endian(bytes.take(4));
        if bytes.len() < end {
            (end - bytes.len()) as nat
        } else {
            0
        }
    }
}

impl FrameReader {
    /// The bytes received so far.
    pub closed spec fn received(&self) -> Seq<u8> {
        self.bytes@
    }

    /// The descriptors received so far.
    pub closed spec fn descriptors(&self) -> Seq<i32> {
        self.fds@
    }

    /// The frame is still being read: its header is not complete or
    /// announces what a frame may carry, and something is missing.
    pub closed spec fn well_formed(&self) -> bool {
        &&& front(self.bytes@) is Partial
        &&& missing(self.bytes@) > 0
    }

    pub fn new() -> (reader: Self)
        ensures
            reader.well_formed(),
            reader.received() == Seq::<u8>::empty(),
            reader.descriptors() == Seq::<i32>::empty(),
    {
        FrameReader { bytes: Vec::new(), fds: Vec::new() }
    }

    /// How many bytes to ask for next.
    pub fn wanted(&self) -> (n: usize)
        requires
            self.well_formed(),
        ensures
            n == missing(self.received()),
            n > 0,
    {
        let have: usize = self.bytes.len();
        if have < FRAME_HEADER_LEN {
            FRAME_HEADER_LEN - have
        } else {
            let head: [u8; 4] = [self.bytes[0], self.bytes[1], self.bytes[2], self.bytes[3]];
            assert(head@ =~= self.bytes@.take(4));
            match parse_frame_header(&head) {
                Ok(len) => FRAME_HEADER_LEN + len - have,
                Err(_) => 0,
            }
        }
    }

    /// Takes what one read gave: at most as many bytes as were asked for,
    /// none where the connection is closed.
    pub fn receive(&mut self, chunk: &[u8], fds: &[i32]) -> (progress: ReadProgress)
        requires
            old(self).well_formed(),
            chunk@.len() <= missing(old(self).received()),
        ensures
            chunk@.len() == 0 ==> {
                &&& progress == ReadProgress::Failed(ReadFailure::Closed)
                &&& *final(self) == *old(self)
            },
            chunk@.len() > 0 ==> {
                let bytes = old(self).received() + chunk@;
                &&& final(self).received() == bytes
                &&& final(self).descriptors() == old(self).descriptors() + fds@
                &&& match front(bytes) {
                    Front::Partial => progress == ReadProgress::More && final(self).well_formed(),
                    Front::TooLarge { len } => progress == ReadProgress::Failed(
                        ReadFailure::TooLarge(FrameTooLarge { len: len as usize }),
                    ),
                    Front::Whole { payload, rest } => {
                        &&& rest == Seq::<u8>::empty()
                        &&& progress matches ReadProgress::Done { payload: found, fds: all }
                            && found@ == payload && all@ == final(self).descriptors()
                    },
                }
            },
    {
        if chunk.len() == 0 {
            return ReadProgress::Failed(ReadFailure::Closed);
        }
        append(&mut self.bytes, chunk);
        append_descriptors(&mut self.fds, fds);
        let ghost earlier = old(self).received();
        let have: usize = self.bytes.len();
        if have < FRAME_HEADER_LEN {
            return ReadProgress::More;
        }
        proof {
            if earlier.len() >= FRAME_HEADER_LEN {
                assert(self.bytes@.take(4) =~= earlier.take(4));
            }
        }
        let head: [u8; 4] = [self.bytes[0], self.bytes[1], self.bytes[2], self.bytes[3]];
        assert(head@ =~= self.bytes@.take(4));
        match parse_frame_header(&head) {
            Err(e) => ReadProgress::Failed(ReadFailure::TooLarge(e)),
            Ok(len) => {
                if have - FRAME_HEADER_LEN < len {
                    return ReadProgress::More;
                }
                let payload = copy_range(&self.bytes, FRAME_HEADER_LEN, have);
                let mut all: Vec<i32> = Vec::new();
                append_descriptors(&mut all, self.fds.as_slice());
                assert(all@ =~= self.fds@);
                assert(self.bytes@.skip(4 + len as int) =~= Seq::<u8>::empty());
                ReadProgress::Done { payload, fds: all }
            },
        }
    }
}

fn append_descriptors(fds: &mut Vec<i32>, more: &[i32])
    ensures
        final(fds)@ == old(fds)@ + more@,
{
    let ghost before = fds@;
    let n: usize = more.len();
    let mut i: usize = 0;
    while i < n
        invariant
            i <= n,
            n == more@.len(),
            fds@ == before + more@.take(i as int),
        decreases n - i,
    {
        fds.push(more[i]);
        assert(more@.take(i + 1) =~= more@.take(i as int).push(more@[i as int]));
        i = i + 1;
    }
    assert(more@.take(n as int) =~= more@);
}

/// A framed payload is read back, whatever follows it.
pub proof fn frame_is_read_back(payload: Seq<u8>, rest: Seq<u8>)
    requires
        fits_in_frame(payload),
    ensures
        front(framed(payload) + rest) == (Front::Whole { payload, rest }),
{
    let bytes = framed(payload) + rest;
    header_spells_its_length(payload.len());
    assert(bytes.take(4) =~= header(payload.len()));
    assert(bytes.subrange(4, 4 + payload.len() as int) =~= payload);
    assert(bytes.skip(4 + payload.len() as int) =~= rest);
}

/// However the bytes of some framed payloads were cut into pieces on their
/// way, once they are all there the payloads are read back, in order, and
/// what follows is left.
pub proof fn frames_are_read_back(payloads: Seq<Seq<u8>>, rest: Seq<u8>)
    requires
        forall|i: int| 0 <= i < payloads.len() ==> fits_in_frame(#[trigger] payloads[i]),
    ensures
        payloads_in(all_framed(payloads) + rest) == payloads + payloads_in(rest),
        left_over(all_framed(payloads) + rest) == left_over(rest),
    decreases payloads.len(),
{
    if payloads.len() == 0 {
        assert(all_framed(payloads) + rest =~= rest);
        assert(payloads + payloads_in(rest) =~= payloads_in(rest));
    } else {
        let tail = payloads.drop_first();
        let after = all_framed(tail) + rest;
        assert forall|i: int| 0 <= i < tail.len() implies fits_in_frame(#[trigger] tail[i]) by {
            assert(tail[i] == payloads[i + 1]);
        }
        frames_are_read_back(tail, rest);
        assert(all_framed(payloads) + rest =~= framed(payloads[0]) + after);
        frame_is_read_back(payloads[0], after);
        assert(payloads + payloads_in(rest) =~= seq![payloads[0]] + (tail + payloads_in(rest)));
    }
}

/// A frame of which something is missing is not taken out: the beginning of
/// a framed payload holds no whole frame.
pub proof fn partial_frame_waits(payload: Seq<u8>, n: int)
    requires
        fits_in_frame(payload),
        0 <= n < framed(payload).len(),
    ensures
        front(framed(payload).take(n)) is Partial,
{
    header_spells_its_length(payload.len());
    if n >= 4 {
        assert(framed(payload).take(n).take(4) =~= header(payload.len()));
    }
}

/// Two payloads that fit in a frame have the same frame only if they are
/// the same.
pub proof fn frames_are_unambiguous(a: Seq<u8>, b: Seq<u8>)
    requires
        fits_in_frame(a),
        fits_in_frame(b),
        framed(a) == framed(b),
    ensures
        a == b,
{
    frame_is_read_back(a, Seq::empty());
    frame_is_read_back(b, Seq::empty());
}

/// A frame is the payload behind four bytes that spell its length, the most
/// significant one first.
pub proof fn frame_announces_its_length(payload: Seq<u8>)
    requires
        payload.len() <= 1_048_576,
    ensures
        ({
            let bytes = framed(payload);
            &&& bytes.len() == 4 + payload.len()
            &&& bytes.skip(4) == payload
            &&& ((bytes[0] * 256 + bytes[1]) * 256 + bytes[2]) * 256 + bytes[3] == payload.len()
        }),
{
    header_spells_its_length(payload.len());
    assert(framed(payload).skip(4) =~= payload);
}

/// A frame that announces more than a mebibyte is refused as soon as its
/// header is there, and no other is.
pub proof fn only_oversized_frames_are_refused(bytes: Seq<u8>)
    ensures
        front(bytes) is TooLarge <==> bytes.len() >= 4 && ((bytes[0] * 256 + bytes[1]) * 256
            + bytes[2]) * 256 + bytes[3] > 1_048_576,
        front(bytes) matches Front::TooLarge { len } ==> len == ((bytes[0] * 256 + bytes[1]) * 256
            + bytes[2]) * 256 + bytes[3],
{
}

/// A payload may be framed where it is not longer than a mebibyte.
pub proof fn a_mebibyte_fits(payload: Seq<u8>)
    ensures
        fits_in_frame(payload) <==> payload.len() <= 1024 * 1024,
{
}

/// While a frame is read, no more is asked for than belongs to it: first what
/// is missing of its header, then what is missing of the whole.
pub proof fn nothing_behind_the_frame_is_read(payload: Seq<u8>, n: int)
    requires
        fits_in_frame(payload),
        0 <= n < framed(payload).len(),
    ensures
        missing(framed(payload).take(n)) == if n < 4 {
            4 - n
        } else {
            framed(payload).len() - n
        },
{
    header_spells_its_length(payload.len());
    if n >= 4 {
        assert(framed(payload).take(n).take(4) =~= header(payload.len()));
    }
}

} // verus!
