//! Frames and the channel that exchanges them.
//!
//! Every message on the wire is a frame: the payload's length as eight bytes in the
//! sender's byte order, followed by the payload itself.

use vstd::bytes::*;
use vstd::prelude::*;
use vstd::slice::slice_subrange;

verus! {

/// Number of bytes of a frame's length prefix.
pub const PREFIX_LEN: usize = 8;

/// The order in which the eight bytes of a length prefix are laid out.
#[derive(Clone, Copy, Debug, PartialEq, Eq, Structural)]
pub enum ByteOrder {
    Little,
    Big,
}

/// The length prefix that announces a payload of `len` bytes.
pub open spec fn length_prefix(len: u64, order: ByteOrder) -> Seq<u8> {
    match order {
        ByteOrder::Little => spec_u64_to_le_bytes(len),
        ByteOrder::Big => spec_u64_to_le_bytes(len).reverse(),
    }
}

/// The payload length that an eight-byte prefix announces.
pub open spec fn announced_length(prefix: Seq<u8>, order: ByteOrder) -> u64 {
    match order {
        ByteOrder::Little => spec_u64_from_le_bytes(prefix),
        ByteOrder::Big => spec_u64_from_le_bytes(prefix.reverse()),
    }
}

/// The frame that carries `payload`.
pub open spec fn frame(payload: Seq<u8>, order: ByteOrder) -> Seq<u8> {
    length_prefix(payload.len() as u64, order) + payload
}

/// The payload of `bytes` if `bytes` is exactly one frame.
pub open spec fn unframed(bytes: Seq<u8>, order: ByteOrder) -> Option<Seq<u8>> {
    if bytes.len() >= 8 && announced_length(bytes.take(8), order) == bytes.len() - 8 {
        Some(bytes.skip(8))
    } else {
        None
    }
}

/// A length prefix has eight bytes and announces the length it was made from.
pub proof fn lemma_length_prefix_roundtrip(len: u64, order: ByteOrder)
    ensures
        length_prefix(len, order).len() == 8,
        announced_length(length_prefix(len, order), order) == len,
{
    lemma_auto_spec_u64_to_from_le_bytes();
    let le = spec_u64_to_le_bytes(len);
    assert(le.reverse().reverse() =~= le);
}

/// Eight bytes are the length prefix of the length they announce.
pub proof fn lemma_announced_length_roundtrip(prefix: Seq<u8>, order: ByteOrder)
    requires
        prefix.len() == 8,
    ensures
        length_prefix(announced_length(prefix, order), order) == prefix,
{
    lemma_auto_spec_u64_to_from_le_bytes();
    assert(prefix.reverse().reverse() =~= prefix);
}

/// Framing a payload and taking the frame apart again gives the payload back, whatever
/// its length and in either byte order.
pub proof fn lemma_frame_roundtrip(payload: Seq<u8>, order: ByteOrder)
    requires
        payload.len() <= u64::MAX,
    ensures
        unframed(frame(payload, order), order) == Some(payload),
{
    let len = payload.len() as u64;
    lemma_length_prefix_roundtrip(len, order);
    let f = frame(payload, order);
    assert(f.take(8) =~= length_prefix(len, order));
    assert(f.skip(8) =~= payload);
}

/// Whatever can be taken apart as a frame is the frame of its payload.
pub proof fn lemma_unframed_is_framed(bytes: Seq<u8>, order: ByteOrder)
    requires
        unframed(bytes, order) is Some,
    ensures
        frame(unframed(bytes, order)->0, order) == bytes,
{
    lemma_announced_length_roundtrip(bytes.take(8), order);
    assert(bytes.take(8) + bytes.skip(8) =~= bytes);
}

fn reversed(bytes: &Vec<u8>) -> (out: Vec<u8>)
    ensures
        out@ == bytes@.reverse(),
{
    let n = bytes.len();
    let mut out: Vec<u8> = Vec::new();
    let mut i: usize = 0;
    while i < n
        invariant
            n == bytes@.len(),
            i <= n,
            out@.len() == i,
            forall|k: int| 0 <= k < i ==> out@[k] == bytes@[n - 1 - k],
        decreases n - i,
    {
        out.push(bytes[n - 1 - i]);
        i = i + 1;
    }
    assert(out@ =~= bytes@.reverse());
    out
}

/// Lays out a payload length as a length prefix.
pub fn encode_length(len: u64, order: ByteOrder) -> (out: Vec<u8>)
    ensures
        out@ == length_prefix(len, order),
        out@.len() == 8,
{
    let le = u64_to_le_bytes(len);
    match order {
        ByteOrder::Little => le,
        ByteOrder::Big => reversed(&le),
    }
}

/// Reads the payload length out of a length prefix; `None` unless there are eight bytes.
pub fn decode_length(prefix: &Vec<u8>, order: ByteOrder) -> (len: Option<u64>)
    ensures
        len == if prefix@.len() == 8 {
            Some(announced_length(prefix@, order))
        } else {
            None
        },
{
    if prefix.len() != 8 {
        return None;
    }
    match order {
        ByteOrder::Little => Some(u64_from_le_bytes(prefix.as_slice())),
        ByteOrder::Big => {
            let r = reversed(prefix);
            Some(u64_from_le_bytes(r.as_slice()))
        },
    }
}

/// Builds the frame that carries `payload`.
pub fn encode_frame(payload: &Vec<u8>, order: ByteOrder) -> (out: Vec<u8>)
    ensures
        out@ == frame(payload@, order),
{
    let mut out = encode_length(payload.len() as u64, order);
    let n = payload.len();
    let mut i: usize = 0;
    while i < n
        invariant
            n == payload@.len(),
            i <= n,
            out@ == length_prefix(n as u64, order) + payload@.take(i as int),
        decreases n - i,
    {
        out.push(payload[i]);
        assert(payload@.take(i + 1) =~= payload@.take(i as int).push(payload@[i as int]));
        i = i + 1;
    }
    assert(payload@.take(n as int) =~= payload@);
    out
}

/// Takes one frame apart; `None` unless `bytes` is exactly a length prefix followed by
/// as many bytes as it announces.
pub fn decode_frame(bytes: &Vec<u8>, order: ByteOrder) -> (out: Option<Vec<u8>>)
    ensures
        match out {
            Some(payload) => unframed(bytes@, order) == Some(payload@),
            None => unframed(bytes@, order) is None,
        },
{
    let n = bytes.len();
    if n < 8 {
        return None;
    }
    let mut prefix: Vec<u8> = Vec::new();
    let mut i: usize = 0;
    while i < 8
        invariant
            n == bytes@.len(),
            n >= 8,
            i <= 8,
            prefix@ == bytes@.take(i as int),
        decreases 8 - i,
    {
        prefix.push(bytes[i]);
        assert(bytes@.take(i + 1) =~= bytes@.take(i as int).push(bytes@[i as int]));
        i = i + 1;
    }
    let announced = decode_length(&prefix, order).unwrap();
    if announced != (n - 8) as u64 {
        return None;
    }
    let mut payload: Vec<u8> = Vec::new();
    while i < n
        invariant
            n == bytes@.len(),
            8 <= i <= n,
            payload@ == bytes@.subrange(8, i as int),
        decreases n - i,
    {
        payload.push(bytes[i]);
        assert(bytes@.subrange(8, i + 1) =~= bytes@.subrange(8, i as int).push(bytes@[i as int]));
        i = i + 1;
    }
    assert(bytes@.subrange(8, n as int) =~= bytes@.skip(8));
    Some(payload)
}

/// Where a channel stands in the exchange of one frame.
#[derive(Clone, Copy, Debug, PartialEq, Eq, Structural)]
pub enum ChannelState {
    /// Collecting the eight bytes of an inbound length prefix.
    ReadingSize,
    /// Collecting the payload that the prefix announced.
    ReadingBody,
    /// Writing the length prefix of the queued payload.
    WritingSize,
    /// Writing the queued payload.
    WritingBody,
    /// Halted: nothing more is read, written or reported.
    Closed,
}

/// The readiness a channel waits for.
#[derive(Clone, Copy, Debug, PartialEq, Eq, Structural)]
pub enum Interest {
    Readable,
    Writable,
}

/// Why a channel gave up.
#[derive(Clone, Copy, Debug, PartialEq, Eq, Structural)]
pub enum ChannelError {
    /// The transport failed other than by asking to wait, or handed over more than was
    /// asked of it.
    Transport,
    /// The peer went away in the middle of a frame.
    UnexpectedClose,
}

impl ChannelError {
    /// What is said of the error.
    pub open spec fn text(self) -> Seq<char> {
        match self {
            ChannelError::Transport => "Unknown Error"@,
            ChannelError::UnexpectedClose => "Channel has been closed unexpectedly"@,
        }
    }

    /// Says what went wrong.
    pub fn message(&self) -> (message: String)
        ensures
            message@ == self.text(),
    {
        match self {
            ChannelError::Transport => String::from_str("Unknown Error"),
            ChannelError::UnexpectedClose => String::from_str(
                "Channel has been closed unexpectedly",
            ),
        }
    }
}

/// How one attempt to read from the transport ended.
#[derive(Debug)]
pub enum ReadOutcome {
    /// The bytes that were read; none at all means that the peer has closed.
    Data(Vec<u8>),
    /// Nothing to read yet.
    WouldBlock,
    /// Any other failure.
    Failed,
}

/// How one attempt to write to the transport ended.
#[derive(Clone, Copy, Debug, PartialEq, Eq, Structural)]
pub enum WriteOutcome {
    /// The number of bytes that the transport took.
    Written(usize),
    /// No room to write yet.
    WouldBlock,
    /// Any other failure.
    Failed,
}

/// The party that a channel reports to: one implementation per role.
pub trait ChannelListener: Send {
    /// Called with each complete inbound payload. The payload handed back is sent
    /// next; `None` closes the channel.
    fn received(&mut self, buffer: Vec<u8>) -> Option<Vec<u8>>;

    /// Called when a queued payload has been written in full. `Some` makes the channel
    /// wait for the next inbound frame; `None` closes it.
    fn sent(&mut self) -> Option<()>;
}

/// What a channel is, apart from its listener.
pub struct ChannelModel {
    pub state: ChannelState,
    pub order: ByteOrder,
    /// The bytes of the inbound frame collected so far, prefix first.
    pub inbound: Seq<u8>,
    /// The payload queued for sending.
    pub outbound: Seq<u8>,
    /// How many bytes of the outbound frame the transport has taken.
    pub sent: nat,
}

impl ChannelModel {
    /// The invariant of a channel: the progress recorded fits the state.
    pub open spec fn wf(self) -> bool {
        &&& self.outbound.len() <= u64::MAX
        &&& match self.state {
            ChannelState::ReadingSize => self.inbound.len() < 8,
            ChannelState::ReadingBody => self.inbound.len() >= 8 && self.inbound.len() - 8
                < announced_length(self.inbound.take(8), self.order),
            ChannelState::WritingSize => self.sent < 8,
            ChannelState::WritingBody => 8 <= self.sent < 8 + self.outbound.len(),
            ChannelState::Closed => true,
        }
    }

    /// A channel that has seen nothing yet: it waits for a length prefix.
    pub open spec fn fresh(order: ByteOrder) -> ChannelModel {
        ChannelModel {
            state: ChannelState::ReadingSize,
            order,
            inbound: Seq::empty(),
            outbound: Seq::empty(),
            sent: 0,
        }
    }

    /// The readiness to wait for; none once closed.
    pub open spec fn interest(self) -> Option<Interest> {
        match self.state {
            ChannelState::ReadingSize | ChannelState::ReadingBody => Some(Interest::Readable),
            ChannelState::WritingSize | ChannelState::WritingBody => Some(Interest::Writable),
            ChannelState::Closed => None,
        }
    }

    /// How many bytes are missing from the part of the inbound frame being collected.
    pub open spec fn wanted(self) -> nat {
        match self.state {
            ChannelState::ReadingSize => (8 - self.inbound.len()) as nat,
            ChannelState::ReadingBody => (8 + announced_length(self.inbound.take(8), self.order)
                - self.inbound.len()) as nat,
            _ => 0,
        }
    }

    /// The bytes of the part of the outbound frame being written that are still to go.
    pub open spec fn pending(self) -> Seq<u8> {
        match self.state {
            ChannelState::WritingSize => length_prefix(self.outbound.len() as u64, self.order).skip(
                self.sent as int,
            ),
            ChannelState::WritingBody => self.outbound.skip(self.sent - 8),
            _ => Seq::empty(),
        }
    }

    /// The channel, halted.
    pub open spec fn closed(self) -> ChannelModel {
        ChannelModel { state: ChannelState::Closed, ..self }
    }

    /// The channel with `payload` queued in place of what was queued before. A frame
    /// that was being written is started over.
    pub open spec fn queued(self, payload: Seq<u8>) -> ChannelModel {
        match self.state {
            ChannelState::WritingSize | ChannelState::WritingBody => ChannelModel {
                state: ChannelState::WritingSize,
                outbound: payload,
                sent: 0,
                ..self
            },
            _ => ChannelModel { outbound: payload, sent: 0, ..self },
        }
    }

    /// The channel turned towards `interest`, at the start of a frame. A closed channel
    /// stays closed.
    pub open spec fn interested(self, interest: Interest) -> ChannelModel {
        match self.state {
            ChannelState::Closed => self,
            _ => match interest {
                Interest::Readable => ChannelModel {
                    state: ChannelState::ReadingSize,
                    inbound: Seq::empty(),
                    ..self
                },
                Interest::Writable => ChannelModel {
                    state: ChannelState::WritingSize,
                    sent: 0,
                    ..self
                },
            },
        }
    }

    /// The channel as it is between two frames: waiting for a length prefix, with
    /// nothing collected and nothing queued.
    pub open spec fn rested(self) -> ChannelModel {
        ChannelModel {
            state: ChannelState::ReadingSize,
            inbound: Seq::empty(),
            outbound: Seq::empty(),
            sent: 0,
            ..self
        }
    }

    /// The effect of reading `data`: the channel afterwards and, if `data` completes a
    /// frame, that frame's payload.
    ///
    /// Outside the two reading states nothing happens. An empty read means that the
    /// peer is gone; more bytes than the current part still lacks cannot have come
    /// from this frame. Both close the channel.
    pub open spec fn absorb(self, data: Seq<u8>) -> (ChannelModel, Result<
        Option<Seq<u8>>,
        ChannelError,
    >) {
        if self.interest() != Some(Interest::Readable) {
            (self, Ok(None))
        } else if data.len() == 0 {
            (self.closed(), Err(ChannelError::UnexpectedClose))
        } else if data.len() > self.wanted() {
            (self.closed(), Err(ChannelError::Transport))
        } else {
            let inbound = self.inbound + data;
            if inbound.len() < 8 {
                (ChannelModel { inbound, ..self }, Ok(None))
            } else if inbound.len() - 8 < announced_length(inbound.take(8), self.order) {
                (ChannelModel { state: ChannelState::ReadingBody, inbound, ..self }, Ok(None))
            } else {
                (self.rested(), Ok(Some(inbound.skip(8))))
            }
        }
    }

    /// The effect of the transport taking `n` bytes: the channel afterwards and whether
    /// the outbound frame is now written in full.
    ///
    /// Outside the two writing states nothing happens. While the prefix is being
    /// written, a write of nothing means that the peer is gone; while the payload is
    /// being written it is simply tried again. More bytes than were pending cannot
    /// have been taken.
    pub open spec fn advance(self, n: nat) -> (ChannelModel, Result<bool, ChannelError>) {
        if self.interest() != Some(Interest::Writable) {
            (self, Ok(false))
        } else if n == 0 {
            if self.state == ChannelState::WritingSize {
                (self.closed(), Err(ChannelError::UnexpectedClose))
            } else {
                (self, Ok(false))
            }
        } else if n > self.pending().len() {
            (self.closed(), Err(ChannelError::Transport))
        } else {
            let sent = self.sent + n;
            if sent < 8 {
                (ChannelModel { sent, ..self }, Ok(false))
            } else if sent < 8 + self.outbound.len() {
                (ChannelModel { state: ChannelState::WritingBody, sent, ..self }, Ok(false))
            } else {
                (self.rested(), Ok(true))
            }
        }
    }
}

/// The bytes of a frame, read in pieces of whatever sizes were asked for, complete a
/// message exactly when the last of them has come in: before that the channel keeps
/// collecting, and then it hands out the payload that was framed and rests.
pub proof fn lemma_absorb_follows_frame(
    channel: ChannelModel,
    payload: Seq<u8>,
    got: int,
    more: int,
)
    requires
        channel.wf(),
        channel.interest() == Some(Interest::Readable),
        payload.len() <= u64::MAX,
        0 <= got,
        0 < more <= channel.wanted(),
        got + more <= frame(payload, channel.order).len(),
        channel.inbound == frame(payload, channel.order).take(got),
    ensures
        ({
            let whole = frame(payload, channel.order);
            let (next, out) = channel.absorb(whole.subrange(got, got + more));
            if got + more == whole.len() {
                &&& out == Ok::<Option<Seq<u8>>, ChannelError>(Some(payload))
                &&& next == channel.rested()
            } else {
                &&& out == Ok::<Option<Seq<u8>>, ChannelError>(None)
                &&& next.wf()
                &&& next.interest() == Some(Interest::Readable)
                &&& next.inbound == whole.take(got + more)
            }
        }),
{
    let whole = frame(payload, channel.order);
    let inbound = channel.inbound + whole.subrange(got, got + more);
    lemma_length_prefix_roundtrip(payload.len() as u64, channel.order);
    assert(inbound =~= whole.take(got + more));
    if inbound.len() >= 8 {
        assert(inbound.take(8) =~= length_prefix(payload.len() as u64, channel.order));
        if got + more == whole.len() {
            assert(inbound.skip(8) =~= payload);
        }
    }
}

/// What a channel offers to the transport is the part of the frame of the queued
/// payload that comes next: the rest of the prefix first, then the rest of the payload.
/// While it writes there is always something to offer.
pub proof fn lemma_pending_is_the_frame(channel: ChannelModel)
    requires
        channel.wf(),
        channel.interest() == Some(Interest::Writable),
    ensures
        ({
            let whole = frame(channel.outbound, channel.order);
            let end = if channel.state == ChannelState::WritingSize {
                8
            } else {
                whole.len() as int
            };
            &&& channel.sent < end <= whole.len()
            &&& channel.pending() == whole.subrange(channel.sent as int, end)
        }),
{
    let whole = frame(channel.outbound, channel.order);
    let prefix = length_prefix(channel.outbound.len() as u64, channel.order);
    lemma_length_prefix_roundtrip(channel.outbound.len() as u64, channel.order);
    if channel.state == ChannelState::WritingSize {
        assert(prefix.skip(channel.sent as int) =~= whole.subrange(channel.sent as int, 8));
    } else {
        assert(channel.outbound.skip(channel.sent - 8) =~= whole.subrange(
            channel.sent as int,
            whole.len() as int,
        ));
    }
}

/// Whatever part of what was offered the transport takes, the channel goes on with
/// the same frame from where the transport stopped, and has written a message exactly
/// when the last byte of the frame is taken; then it rests.
pub proof fn lemma_advance_follows_frame(channel: ChannelModel, n: nat)
    requires
        channel.wf(),
        channel.interest() == Some(Interest::Writable),
        0 < n <= channel.pending().len(),
    ensures
        ({
            let whole = frame(channel.outbound, channel.order);
            let (next, out) = channel.advance(n);
            if channel.sent + n == whole.len() {
                &&& out == Ok::<bool, ChannelError>(true)
                &&& next == channel.rested()
            } else {
                &&& out == Ok::<bool, ChannelError>(false)
                &&& next.wf()
                &&& next.interest() == Some(Interest::Writable)
                &&& next.outbound == channel.outbound
                &&& next.sent == channel.sent + n
            }
        }),
{
    lemma_length_prefix_roundtrip(channel.outbound.len() as u64, channel.order);
}

/// `u64::to_ne_bytes`: the eight bytes of `value` as this machine lays them out, which
/// is least significant byte first or least significant byte last.
#[verifier::external_body]
fn native_bytes(value: u64) -> (out: [u8; 8])
    ensures
        out@ == length_prefix(value, ByteOrder::Little) || out@ == length_prefix(
            value,
            ByteOrder::Big,
        ),
{
    value.to_ne_bytes()
}

impl ByteOrder {
    /// The order that `probe` shows, `probe` being the number one laid out in eight
    /// bytes: little if the one comes first. Where `probe` is the length prefix of
    /// one in either order, that order is the answer.
    pub fn of_probe(probe: &[u8; 8]) -> (order: ByteOrder)
        ensures
            order == if probe@[0] == 1 {
                ByteOrder::Little
            } else {
                ByteOrder::Big
            },
            probe@ == length_prefix(1, ByteOrder::Little) ==> order == ByteOrder::Little,
            probe@ == length_prefix(1, ByteOrder::Big) ==> order == ByteOrder::Big,
    {
        proof {
            spec_u64_to_le_bytes_to_open(1);
            assert((1u64 & 0xff) as u8 == 1u8) by (bit_vector);
            assert(((1u64 >> 56) & 0xff) as u8 == 0u8) by (bit_vector);
        }
        if probe[0] == 1 {
            ByteOrder::Little
        } else {
            ByteOrder::Big
        }
    }

    /// The byte order of the machine that runs this.
    pub fn native() -> ByteOrder {
        let probe = native_bytes(1);
        ByteOrder::of_probe(&probe)
    }
}

/// What a step of reading came to, with the payload as the bytes it holds.
pub open spec fn payload_view(out: Result<Option<Vec<u8>>, ChannelError>) -> Result<
    Option<Seq<u8>>,
    ChannelError,
> {
    match out {
        Ok(Some(payload)) => Ok(Some(payload@)),
        Ok(None) => Ok(None),
        Err(why) => Err(why),
    }
}

/// One end of a framed duplex connection, together with the listener it reports to.
///
/// The channel moves no bytes itself. Its owner waits for the readiness named by
/// [`Channel::interest`], attempts the read or write described by
/// [`Channel::read_request`] or [`Channel::write_request`], and reports how that went
/// through [`Channel::on_read`] or [`Channel::on_write`].
pub struct Channel<L: ChannelListener> {
    listener: L,
    order: ByteOrder,
    state: ChannelState,
    prefix: Vec<u8>,
    expected: u64,
    read_buf: Vec<u8>,
    write_prefix: Vec<u8>,
    write_buf: Vec<u8>,
    prefix_sent: usize,
    body_sent: usize,
}

impl<L: ChannelListener> View for Channel<L> {
    type V = ChannelModel;

    closed spec fn view(&self) -> ChannelModel {
        ChannelModel {
            state: self.state,
            order: self.order,
            inbound: self.prefix@ + self.read_buf@,
            outbound: self.write_buf@,
            sent: (self.prefix_sent + self.body_sent) as nat,
        }
    }
}

/// Largest number of payload bytes asked of the transport in one read.
pub const CHUNK_LEN: usize = 1024;

impl<L: ChannelListener> Channel<L> {
    /// The invariant that the constructors establish and every operation keeps: what
    /// the channel holds fits [`ChannelModel::wf`] and the state it is in.
    pub closed spec fn wf(&self) -> bool {
        &&& self@.wf()
        &&& self.write_prefix@ == length_prefix(self.write_buf@.len() as u64, self.order)
        &&& self.prefix_sent <= 8
        &&& self.body_sent <= self.write_buf@.len()
        &&& match self.state {
            ChannelState::ReadingSize => self.read_buf@.len() == 0,
            ChannelState::ReadingBody => self.prefix@.len() == 8 && self.expected
                == announced_length(self.prefix@, self.order),
            ChannelState::WritingSize => self.body_sent == 0,
            ChannelState::WritingBody => self.prefix_sent == 8,
            ChannelState::Closed => true,
        }
    }

    /// The listener as it stands.
    pub closed spec fn listener_view(&self) -> L {
        self.listener
    }

    /// A channel that keeps its invariant is one that the laws of the frame hold of.
    pub proof fn lemma_wf(&self)
        requires
            self.wf(),
        ensures
            self@.wf(),
    {
    }

    /// A channel in the byte order of this machine, waiting for an inbound frame.
    pub fn new(listener: L) -> (channel: Channel<L>)
        ensures
            channel.wf(),
            channel@ == ChannelModel::fresh(channel@.order),
            channel.listener_view() == listener,
    {
        Channel::with_order(listener, ByteOrder::native())
    }

    /// A channel in the given byte order, waiting for an inbound frame.
    pub fn with_order(listener: L, order: ByteOrder) -> (channel: Channel<L>)
        ensures
            channel.wf(),
            channel@ == ChannelModel::fresh(order),
            channel.listener_view() == listener,
    {
        let channel = Channel {
            listener,
            order,
            state: ChannelState::ReadingSize,
            prefix: Vec::new(),
            expected: 0,
            read_buf: Vec::new(),
            write_prefix: encode_length(0, order),
            write_buf: Vec::new(),
            prefix_sent: 0,
            body_sent: 0,
        };
        assert(channel@.inbound =~= Seq::empty());
        channel
    }

    /// The state the channel is in.
    pub fn state(&self) -> (state: ChannelState)
        ensures
            state == self@.state,
    {
        self.state
    }

    /// The byte order of the length prefixes.
    pub fn order(&self) -> (order: ByteOrder)
        ensures
            order == self@.order,
    {
        self.order
    }

    /// The readiness to wait for next; `None` once the channel is closed.
    pub fn interest(&self) -> (interest: Option<Interest>)
        ensures
            interest == self@.interest(),
    {
        match self.state {
            ChannelState::ReadingSize | ChannelState::ReadingBody => Some(Interest::Readable),
            ChannelState::WritingSize | ChannelState::WritingBody => Some(Interest::Writable),
            ChannelState::Closed => None,
        }
    }

    /// The listener.
    pub fn listener(&self) -> (listener: &L)
        ensures
            *listener == self.listener_view(),
    {
        &self.listener
    }

    /// Gives the listener back and drops the channel.
    pub fn into_listener(self) -> (listener: L)
        ensures
            listener == self.listener_view(),
    {
        self.listener
    }

    /// Replaces the listener.
    pub fn set_listener(&mut self, listener: L)
        ensures
            final(self)@ == old(self)@,
            final(self).listener_view() == listener,
            old(self).wf() ==> final(self).wf(),
    {
        self.listener = listener;
    }

    /// Halts the channel.
    pub fn close(&mut self)
        ensures
            final(self)@ == old(self)@.closed(),
            final(self).listener_view() == old(self).listener_view(),
            old(self).wf() ==> final(self).wf(),
    {
        self.state = ChannelState::Closed;
    }

    /// Queues `buf` as the next payload to send. A frame that was being written is
    /// started over with the new payload.
    pub fn send(&mut self, buf: Vec<u8>)
        requires
            old(self).wf(),
        ensures
            final(self).wf(),
            final(self)@ == old(self)@.queued(buf@),
            final(self).listener_view() == old(self).listener_view(),
    {
        self.write_prefix = encode_length(buf.len() as u64, self.order);
        self.write_buf = buf;
        self.prefix_sent = 0;
        self.body_sent = 0;
        match self.state {
            ChannelState::WritingSize | ChannelState::WritingBody => {
                self.state = ChannelState::WritingSize;
            },
            _ => {},
        }
    }

    /// Turns the channel towards reading or writing, at the start of a frame. A closed
    /// channel stays closed.
    pub fn set_interest(&mut self, interest: Interest)
        requires
            old(self).wf(),
        ensures
            final(self).wf(),
            final(self)@ == old(self)@.interested(interest),
            final(self).listener_view() == old(self).listener_view(),
    {
        match self.state {
            ChannelState::Closed => {},
            _ => match interest {
                Interest::Readable => {
                    self.state = ChannelState::ReadingSize;
                    self.prefix = Vec::new();
                    self.read_buf = Vec::new();
                    assert(self@.inbound =~= Seq::empty());
                },
                Interest::Writable => {
                    self.state = ChannelState::WritingSize;
                    self.prefix_sent = 0;
                    self.body_sent = 0;
                },
            },
        }
    }

    /// How many bytes to ask of the transport in the next read: what the length prefix
    /// still lacks, or what the payload still lacks up to [`CHUNK_LEN`]; zero when the
    /// channel is not reading.
    pub fn read_request(&self) -> (want: usize)
        requires
            self.wf(),
        ensures
            want == if self@.wanted() <= CHUNK_LEN {
                self@.wanted()
            } else {
                CHUNK_LEN as nat
            },
    {
        match self.state {
            ChannelState::ReadingSize => 8 - self.prefix.len(),
            ChannelState::ReadingBody => {
                assert(self@.inbound.take(8) =~= self.prefix@);
                let missing: u64 = self.expected - self.read_buf.len() as u64;
                if missing <= CHUNK_LEN as u64 {
                    missing as usize
                } else {
                    CHUNK_LEN
                }
            },
            _ => 0,
        }
    }

    /// The bytes to offer the transport in the next write: the rest of the length
    /// prefix, then the rest of the payload; nothing when the channel is not writing.
    pub fn write_request(&self) -> (bytes: &[u8])
        requires
            self.wf(),
        ensures
            bytes@ == self@.pending(),
    {
        proof {
            lemma_length_prefix_roundtrip(self.write_buf@.len() as u64, self.order);
        }
        match self.state {
            ChannelState::WritingSize => {
                let out = slice_subrange(self.write_prefix.as_slice(), self.prefix_sent, 8);
                assert(out@ =~= self@.pending());
                out
            },
            ChannelState::WritingBody => {
                let out = slice_subrange(
                    self.write_buf.as_slice(),
                    self.body_sent,
                    self.write_buf.len(),
                );
                assert(out@ =~= self@.pending());
                out
            },
            _ => {
                let out = slice_subrange(self.write_prefix.as_slice(), 0, 0);
                assert(out@ =~= self@.pending());
                out
            },
        }
    }

    fn rest(&mut self)
        ensures
            final(self).wf(),
            final(self)@ == old(self)@.rested(),
            final(self).listener_view() == old(self).listener_view(),
    {
        self.state = ChannelState::ReadingSize;
        self.prefix = Vec::new();
        self.read_buf = Vec::new();
        self.write_buf = Vec::new();
        self.write_prefix = encode_length(0, self.order);
        self.prefix_sent = 0;
        self.body_sent = 0;
        assert(self@.inbound =~= Seq::empty());
    }

    /// Takes in the bytes of one read and hands out the payload if they complete a
    /// frame. The listener is not involved.
    pub fn absorb(&mut self, data: Vec<u8>) -> (out: Result<Option<Vec<u8>>, ChannelError>)
        requires
            old(self).wf(),
        ensures
            final(self).wf(),
            final(self)@ == old(self)@.absorb(data@).0,
            payload_view(out) == old(self)@.absorb(data@).1,
            final(self).listener_view() == old(self).listener_view(),
    {
        let ghost given = data@;
        let mut data = data;
        match self.state {
            ChannelState::ReadingSize => {
                assert(self@.inbound =~= self.prefix@);
                if data.len() == 0 {
                    self.state = ChannelState::Closed;
                    return Err(ChannelError::UnexpectedClose);
                }
                if data.len() > 8 - self.prefix.len() {
                    self.state = ChannelState::Closed;
                    return Err(ChannelError::Transport);
                }
                self.prefix.append(&mut data);
                assert(self@.inbound =~= old(self)@.inbound + given);
                if self.prefix.len() < 8 {
                    return Ok(None);
                }
                assert(self.prefix@.take(8) =~= self.prefix@);
                let announced = decode_length(&self.prefix, self.order).unwrap();
                if announced == 0 {
                    self.rest();
                    let payload: Vec<u8> = Vec::new();
                    assert(payload@ =~= (old(self)@.inbound + given).skip(8));
                    return Ok(Some(payload));
                }
                self.expected = announced;
                self.state = ChannelState::ReadingBody;
                Ok(None)
            },
            ChannelState::ReadingBody => {
                assert(self@.inbound.take(8) =~= self.prefix@);
                if data.len() == 0 {
                    self.state = ChannelState::Closed;
                    return Err(ChannelError::UnexpectedClose);
                }
                let missing: u64 = self.expected - self.read_buf.len() as u64;
                if data.len() as u64 > missing {
                    self.state = ChannelState::Closed;
                    return Err(ChannelError::Transport);
                }
                self.read_buf.append(&mut data);
                assert(self@.inbound =~= old(self)@.inbound + given);
                assert(self@.inbound.take(8) =~= self.prefix@);
                if (self.read_buf.len() as u64) < self.expected {
                    return Ok(None);
                }
                let mut payload: Vec<u8> = Vec::new();
                payload.append(&mut self.read_buf);
                assert(payload@ =~= (old(self)@.inbound + given).skip(8));
                self.rest();
                Ok(Some(payload))
            },
            _ => Ok(None),
        }
    }

    /// Records that the transport took `n` of the bytes offered to it and tells whether
    /// the outbound frame is now written in full. The listener is not involved.
    pub fn advance(&mut self, n: usize) -> (out: Result<bool, ChannelError>)
        requires
            old(self).wf(),
        ensures
            final(self).wf(),
            final(self)@ == old(self)@.advance(n as nat).0,
            out == old(self)@.advance(n as nat).1,
            final(self).listener_view() == old(self).listener_view(),
    {
        proof {
            lemma_length_prefix_roundtrip(self.write_buf@.len() as u64, self.order);
        }
        match self.state {
            ChannelState::WritingSize => {
                if n == 0 {
                    self.state = ChannelState::Closed;
                    Err(ChannelError::UnexpectedClose)
                } else if n > 8 - self.prefix_sent {
                    self.state = ChannelState::Closed;
                    Err(ChannelError::Transport)
                } else {
                    self.prefix_sent = self.prefix_sent + n;
                    if self.prefix_sent < 8 {
                        Ok(false)
                    } else if self.write_buf.len() == 0 {
                        self.rest();
                        Ok(true)
                    } else {
                        self.state = ChannelState::WritingBody;
                        Ok(false)
                    }
                }
            },
            ChannelState::WritingBody => {
                if n == 0 {
                    Ok(false)
                } else if n > self.write_buf.len() - self.body_sent {
                    self.state = ChannelState::Closed;
                    Err(ChannelError::Transport)
                } else {
                    self.body_sent = self.body_sent + n;
                    if self.body_sent < self.write_buf.len() {
                        Ok(false)
                    } else {
                        self.rest();
                        Ok(true)
                    }
                }
            },
            _ => Ok(false),
        }
    }

    /// Reports how an attempt to read ended.
    ///
    /// Having to wait changes nothing. A failure closes the channel. Bytes are taken in
    /// as by [`Channel::absorb`]; when they complete a frame, the listener is given the
    /// payload, and its answer is queued and the channel turned to writing, or, if it
    /// answers `None`, the channel is closed.
    pub fn on_read(&mut self, outcome: ReadOutcome) -> (out: Result<(), ChannelError>)
        requires
            old(self).wf(),
        ensures
            final(self).wf(),
            match outcome {
                ReadOutcome::WouldBlock => out is Ok && final(self)@ == old(self)@
                    && final(self).listener_view() == old(self).listener_view(),
                ReadOutcome::Failed => out == Err::<(), ChannelError>(ChannelError::Transport)
                    && final(self)@ == old(self)@.closed() && final(self).listener_view() == old(self).listener_view(),
                ReadOutcome::Data(data) => {
                    let (next, step) = old(self)@.absorb(data@);
                    match step {
                        Err(e) => out == Err::<(), ChannelError>(e) && final(self)@ == next
                            && final(self).listener_view() == old(self).listener_view(),
                        Ok(None) => out is Ok && final(self)@ == next && final(self).listener_view() == old(self).listener_view(),
                        Ok(Some(_)) => out is Ok && (final(self)@ == next.closed() || exists|
                            reply: Seq<u8>,
                        |
                            final(self)@ == next.queued(reply).interested(Interest::Writable)),
                    }
                },
            },
    {
        match outcome {
            ReadOutcome::WouldBlock => Ok(()),
            ReadOutcome::Failed => {
                self.close();
                Err(ChannelError::Transport)
            },
            ReadOutcome::Data(data) => {
                match self.absorb(data) {
                    Err(e) => Err(e),
                    Ok(None) => Ok(()),
                    Ok(Some(payload)) => {
                        match self.listener.received(payload) {
                            Some(reply) => {
                                self.send(reply);
                                self.set_interest(Interest::Writable);
                            },
                            None => {
                                self.close();
                            },
                        }
                        Ok(())
                    },
                }
            },
        }
    }

    /// Reports how an attempt to write ended.
    ///
    /// Having to wait changes nothing. A failure closes the channel. Progress is
    /// recorded as by [`Channel::advance`]; when the frame is written in full, the
    /// listener is told, and the channel waits for the next inbound frame or, if the
    /// listener answers `None`, is closed.
    pub fn on_write(&mut self, outcome: WriteOutcome) -> (out: Result<(), ChannelError>)
        requires
            old(self).wf(),
        ensures
            final(self).wf(),
            match outcome {
                WriteOutcome::WouldBlock => out is Ok && final(self)@ == old(self)@
                    && final(self).listener_view() == old(self).listener_view(),
                WriteOutcome::Failed => out == Err::<(), ChannelError>(ChannelError::Transport)
                    && final(self)@ == old(self)@.closed() && final(self).listener_view() == old(self).listener_view(),
                WriteOutcome::Written(n) => {
                    let (next, step) = old(self)@.advance(n as nat);
                    match step {
                        Err(e) => out == Err::<(), ChannelError>(e) && final(self)@ == next
                            && final(self).listener_view() == old(self).listener_view(),
                        Ok(false) => out is Ok && final(self)@ == next && final(self).listener_view() == old(self).listener_view(),
                        Ok(true) => out is Ok && (final(self)@ == next || final(self)@
                            == next.closed()),
                    }
                },
            },
    {
        match outcome {
            WriteOutcome::WouldBlock => Ok(()),
            WriteOutcome::Failed => {
                self.close();
                Err(ChannelError::Transport)
            },
            WriteOutcome::Written(n) => {
                match self.advance(n) {
                    Err(e) => Err(e),
                    Ok(false) => Ok(()),
                    Ok(true) => {
                        match self.listener.sent() {
                            Some(_) => {
                                self.set_interest(Interest::Readable);
                            },
                            None => {
                                self.close();
                            },
                        }
                        Ok(())
                    },
                }
            },
        }
    }
}

} // verus!
