use rust_parallel::remote::channel::{
    decode_frame, decode_length, encode_frame, encode_length, ByteOrder, Channel, ChannelError,
    ChannelListener, ChannelState, Interest, ReadOutcome, WriteOutcome, CHUNK_LEN, PREFIX_LEN,
};

/// A listener that notes what it is told and answers from a script.
struct Scripted {
    received: Vec<Vec<u8>>,
    sent: usize,
    replies: Vec<Option<Vec<u8>>>,
    go_on: bool,
}

impl Scripted {
    fn new(replies: Vec<Option<Vec<u8>>>, go_on: bool) -> Scripted {
        Scripted { received: Vec::new(), sent: 0, replies, go_on }
    }
}

impl ChannelListener for Scripted {
    fn received(&mut self, buffer: Vec<u8>) -> Option<Vec<u8>> {
        self.received.push(buffer);
        if self.replies.is_empty() {
            None
        } else {
            self.replies.remove(0)
        }
    }

    fn sent(&mut self) -> Option<()> {
        self.sent += 1;
        if self.go_on {
            Some(())
        } else {
            None
        }
    }
}

fn payload_of(len: usize) -> Vec<u8> {
    (0..len).map(|i| (i % 251) as u8).collect()
}

fn round_trip(len: usize) {
    for order in [ByteOrder::Little, ByteOrder::Big] {
        let payload = payload_of(len);
        let frame = encode_frame(&payload, order);
        assert_eq!(frame.len(), PREFIX_LEN + len);
        assert_eq!(decode_frame(&frame, order), Some(payload));
    }
}

#[test]
fn frame_round_trip_of_no_byte() {
    round_trip(0);
}

#[test]
fn frame_round_trip_of_one_byte() {
    round_trip(1);
}

#[test]
fn frame_round_trip_of_1024_bytes() {
    round_trip(1024);
}

#[test]
fn frame_round_trip_of_a_million_bytes() {
    round_trip(1_000_000);
}

#[test]
fn length_prefix_has_eight_bytes_in_the_given_order() {
    assert_eq!(encode_length(258, ByteOrder::Little), vec![2, 1, 0, 0, 0, 0, 0, 0]);
    assert_eq!(encode_length(258, ByteOrder::Big), vec![0, 0, 0, 0, 0, 0, 1, 2]);
    assert_eq!(encode_length(u64::MAX, ByteOrder::Big), vec![255; 8]);
    assert_eq!(decode_length(&vec![2, 1, 0, 0, 0, 0, 0, 0], ByteOrder::Little), Some(258));
    assert_eq!(decode_length(&vec![2, 1, 0, 0, 0, 0, 0, 0], ByteOrder::Big), Some(0x0201_0000_0000_0000));
    assert_eq!(decode_length(&vec![0, 0, 0, 0, 0, 0, 1, 2], ByteOrder::Big), Some(258));
}

#[test]
fn decode_length_wants_exactly_eight_bytes() {
    assert_eq!(decode_length(&vec![0; 7], ByteOrder::Little), None);
    assert_eq!(decode_length(&vec![0; 9], ByteOrder::Big), None);
    assert_eq!(decode_length(&Vec::new(), ByteOrder::Big), None);
}

#[test]
fn encode_frame_puts_the_prefix_before_the_payload() {
    assert_eq!(
        encode_frame(&vec![7, 8, 9], ByteOrder::Little),
        vec![3, 0, 0, 0, 0, 0, 0, 0, 7, 8, 9]
    );
    assert_eq!(encode_frame(&Vec::new(), ByteOrder::Big), vec![0; 8]);
}

#[test]
fn decode_frame_refuses_what_is_not_exactly_one_frame() {
    let frame = encode_frame(&vec![7, 8, 9], ByteOrder::Little);
    assert_eq!(decode_frame(&frame[..7].to_vec(), ByteOrder::Little), None);
    assert_eq!(decode_frame(&frame[..10].to_vec(), ByteOrder::Little), None);
    let mut longer = frame.clone();
    longer.push(0);
    assert_eq!(decode_frame(&longer, ByteOrder::Little), None);
    assert_eq!(decode_frame(&frame, ByteOrder::Big), None);
    assert_eq!(decode_frame(&frame, ByteOrder::Little), Some(vec![7, 8, 9]));
}

#[test]
fn native_order_is_the_order_of_this_machine() {
    let order = ByteOrder::native();
    assert_eq!(encode_length(0x0102_0304_0506_0708, order), 0x0102_0304_0506_0708u64.to_ne_bytes().to_vec());
    assert_eq!(ByteOrder::of_probe(&1u64.to_le_bytes()), ByteOrder::Little);
    assert_eq!(ByteOrder::of_probe(&1u64.to_be_bytes()), ByteOrder::Big);
    assert_eq!(Channel::new(Scripted::new(Vec::new(), true)).order(), order);
}

#[test]
fn a_new_channel_waits_for_a_length_prefix() {
    let channel = Channel::with_order(Scripted::new(Vec::new(), true), ByteOrder::Big);
    assert_eq!(channel.state(), ChannelState::ReadingSize);
    assert_eq!(channel.interest(), Some(Interest::Readable));
    assert_eq!(channel.order(), ByteOrder::Big);
    assert_eq!(channel.read_request(), 8);
    assert!(channel.write_request().is_empty());
}

#[test]
fn a_frame_read_in_pieces_reaches_the_listener_whole() {
    let order = ByteOrder::Little;
    let payload = b"Hello World!".to_vec();
    let frame = encode_frame(&payload, order);
    let mut channel =
        Channel::with_order(Scripted::new(vec![Some(b"ok".to_vec())], true), order);

    assert_eq!(channel.on_read(ReadOutcome::Data(frame[..3].to_vec())), Ok(()));
    assert_eq!(channel.state(), ChannelState::ReadingSize);
    assert_eq!(channel.read_request(), 5);
    assert_eq!(channel.on_read(ReadOutcome::WouldBlock), Ok(()));
    assert_eq!(channel.read_request(), 5);
    assert_eq!(channel.on_read(ReadOutcome::Data(frame[3..8].to_vec())), Ok(()));
    assert_eq!(channel.state(), ChannelState::ReadingBody);
    assert_eq!(channel.read_request(), 12);
    assert_eq!(channel.on_read(ReadOutcome::Data(frame[8..19].to_vec())), Ok(()));
    assert_eq!(channel.read_request(), 1);
    assert!(channel.listener().received.is_empty());
    assert_eq!(channel.on_read(ReadOutcome::Data(frame[19..].to_vec())), Ok(()));

    assert_eq!(channel.listener().received, vec![payload]);
    assert_eq!(channel.state(), ChannelState::WritingSize);
    assert_eq!(channel.interest(), Some(Interest::Writable));
    assert_eq!(channel.read_request(), 0);
}

#[test]
fn a_reply_is_written_prefix_first_and_in_pieces() {
    let order = ByteOrder::Big;
    let mut channel = Channel::with_order(Scripted::new(Vec::new(), true), order);
    channel.send(b"abcdef".to_vec());
    channel.set_interest(Interest::Writable);
    assert_eq!(channel.state(), ChannelState::WritingSize);

    assert_eq!(channel.write_request(), &[0, 0, 0, 0, 0, 0, 0, 6]);
    assert_eq!(channel.on_write(WriteOutcome::Written(5)), Ok(()));
    assert_eq!(channel.write_request(), &[0, 0, 6]);
    assert_eq!(channel.on_write(WriteOutcome::WouldBlock), Ok(()));
    assert_eq!(channel.write_request(), &[0, 0, 6]);
    assert_eq!(channel.on_write(WriteOutcome::Written(3)), Ok(()));
    assert_eq!(channel.state(), ChannelState::WritingBody);
    assert_eq!(channel.write_request(), b"abcdef");
    assert_eq!(channel.on_write(WriteOutcome::Written(0)), Ok(()));
    assert_eq!(channel.write_request(), b"abcdef");
    assert_eq!(channel.on_write(WriteOutcome::Written(4)), Ok(()));
    assert_eq!(channel.write_request(), b"ef");
    assert_eq!(channel.listener().sent, 0);
    assert_eq!(channel.on_write(WriteOutcome::Written(2)), Ok(()));

    assert_eq!(channel.listener().sent, 1);
    assert_eq!(channel.state(), ChannelState::ReadingSize);
    assert_eq!(channel.read_request(), 8);
    assert!(channel.write_request().is_empty());
}

#[test]
fn what_one_channel_writes_another_reads() {
    let order = ByteOrder::native();
    let payload = payload_of(3000);
    let mut writer = Channel::with_order(Scripted::new(Vec::new(), false), order);
    let mut reader = Channel::with_order(Scripted::new(Vec::new(), true), order);
    writer.send(payload.clone());
    writer.set_interest(Interest::Writable);

    let mut wire: Vec<u8> = Vec::new();
    while writer.interest() == Some(Interest::Writable) {
        let offered = writer.write_request();
        let taken = offered.len().min(700);
        wire.extend_from_slice(&offered[..taken]);
        assert_eq!(writer.on_write(WriteOutcome::Written(taken)), Ok(()));
    }
    assert_eq!(writer.state(), ChannelState::Closed);
    assert_eq!(wire, encode_frame(&payload, order));

    let mut at = 0;
    while reader.interest() == Some(Interest::Readable) {
        let want = reader.read_request();
        assert!(0 < want && want <= CHUNK_LEN);
        let got = wire[at..at + want.min(wire.len() - at)].to_vec();
        at += got.len();
        assert_eq!(reader.on_read(ReadOutcome::Data(got)), Ok(()));
    }
    assert_eq!(at, wire.len());
    assert_eq!(reader.state(), ChannelState::Closed);
    assert_eq!(reader.into_listener().received, vec![payload]);
}

#[test]
fn an_empty_payload_is_a_message_too() {
    let order = ByteOrder::Little;
    let mut channel = Channel::with_order(Scripted::new(vec![Some(Vec::new())], true), order);
    assert_eq!(channel.on_read(ReadOutcome::Data(vec![0; 8])), Ok(()));
    assert_eq!(channel.listener().received, vec![Vec::<u8>::new()]);
    assert_eq!(channel.state(), ChannelState::WritingSize);
    assert_eq!(channel.write_request(), &[0; 8]);
    assert_eq!(channel.on_write(WriteOutcome::Written(8)), Ok(()));
    assert_eq!(channel.listener().sent, 1);
    assert_eq!(channel.state(), ChannelState::ReadingSize);
}

#[test]
fn the_listener_closes_the_channel_by_answering_nothing() {
    let order = ByteOrder::Little;
    let mut channel = Channel::with_order(Scripted::new(vec![None], true), order);
    let frame = encode_frame(&b"bye".to_vec(), order);
    assert_eq!(channel.on_read(ReadOutcome::Data(frame[..8].to_vec())), Ok(()));
    assert_eq!(channel.on_read(ReadOutcome::Data(frame[8..].to_vec())), Ok(()));
    assert_eq!(channel.state(), ChannelState::Closed);
    assert_eq!(channel.interest(), None);

    let mut writer = Channel::with_order(Scripted::new(Vec::new(), false), order);
    writer.send(b"x".to_vec());
    writer.set_interest(Interest::Writable);
    assert_eq!(writer.on_write(WriteOutcome::Written(8)), Ok(()));
    assert_eq!(writer.on_write(WriteOutcome::Written(1)), Ok(()));
    assert_eq!(writer.listener().sent, 1);
    assert_eq!(writer.state(), ChannelState::Closed);
}

#[test]
fn a_closed_channel_reports_nothing_more() {
    let order = ByteOrder::Little;
    let mut channel = Channel::with_order(Scripted::new(vec![Some(Vec::new())], true), order);
    channel.close();
    assert_eq!(channel.state(), ChannelState::Closed);
    assert_eq!(channel.read_request(), 0);
    assert!(channel.write_request().is_empty());
    assert_eq!(channel.on_read(ReadOutcome::Data(vec![0; 8])), Ok(()));
    assert_eq!(channel.on_write(WriteOutcome::Written(8)), Ok(()));
    channel.set_interest(Interest::Readable);
    assert_eq!(channel.state(), ChannelState::Closed);
    assert!(channel.listener().received.is_empty());
    assert_eq!(channel.listener().sent, 0);
}

#[test]
fn an_empty_read_means_the_peer_is_gone() {
    let mut channel = Channel::with_order(Scripted::new(Vec::new(), true), ByteOrder::Little);
    assert_eq!(channel.on_read(ReadOutcome::Data(vec![5, 0, 0])), Ok(()));
    assert_eq!(
        channel.on_read(ReadOutcome::Data(Vec::new())),
        Err(ChannelError::UnexpectedClose)
    );
    assert_eq!(channel.state(), ChannelState::Closed);

    let mut body = Channel::with_order(Scripted::new(Vec::new(), true), ByteOrder::Little);
    assert_eq!(body.on_read(ReadOutcome::Data(vec![5, 0, 0, 0, 0, 0, 0, 0])), Ok(()));
    assert_eq!(body.on_read(ReadOutcome::Data(Vec::new())), Err(ChannelError::UnexpectedClose));
    assert_eq!(body.state(), ChannelState::Closed);
}

#[test]
fn a_failed_transport_closes_the_channel() {
    let mut reader = Channel::with_order(Scripted::new(Vec::new(), true), ByteOrder::Little);
    assert_eq!(reader.on_read(ReadOutcome::Failed), Err(ChannelError::Transport));
    assert_eq!(reader.state(), ChannelState::Closed);

    let mut writer = Channel::with_order(Scripted::new(Vec::new(), true), ByteOrder::Little);
    writer.send(b"x".to_vec());
    writer.set_interest(Interest::Writable);
    assert_eq!(writer.on_write(WriteOutcome::Failed), Err(ChannelError::Transport));
    assert_eq!(writer.state(), ChannelState::Closed);
}

#[test]
fn more_bytes_than_asked_for_are_a_transport_fault() {
    let mut prefix = Channel::with_order(Scripted::new(Vec::new(), true), ByteOrder::Little);
    assert_eq!(prefix.on_read(ReadOutcome::Data(vec![0; 9])), Err(ChannelError::Transport));
    assert_eq!(prefix.state(), ChannelState::Closed);

    let mut body = Channel::with_order(Scripted::new(Vec::new(), true), ByteOrder::Little);
    assert_eq!(body.on_read(ReadOutcome::Data(vec![2, 0, 0, 0, 0, 0, 0, 0])), Ok(()));
    assert_eq!(body.on_read(ReadOutcome::Data(vec![1, 2, 3])), Err(ChannelError::Transport));
    assert!(body.listener().received.is_empty());

    let mut writer = Channel::with_order(Scripted::new(Vec::new(), true), ByteOrder::Little);
    writer.send(b"x".to_vec());
    writer.set_interest(Interest::Writable);
    assert_eq!(writer.on_write(WriteOutcome::Written(9)), Err(ChannelError::Transport));
    assert_eq!(writer.state(), ChannelState::Closed);
}

#[test]
fn nothing_written_of_the_prefix_means_the_peer_is_gone() {
    let mut writer = Channel::with_order(Scripted::new(Vec::new(), true), ByteOrder::Little);
    writer.send(b"x".to_vec());
    writer.set_interest(Interest::Writable);
    assert_eq!(writer.on_write(WriteOutcome::Written(0)), Err(ChannelError::UnexpectedClose));
    assert_eq!(writer.state(), ChannelState::Closed);
}

#[test]
fn a_read_asks_for_at_most_one_chunk_of_payload() {
    let order = ByteOrder::Little;
    let mut channel = Channel::with_order(Scripted::new(Vec::new(), true), order);
    assert_eq!(channel.on_read(ReadOutcome::Data(encode_length(5000, order))), Ok(()));
    assert_eq!(channel.read_request(), 1024);
    assert_eq!(channel.on_read(ReadOutcome::Data(vec![0; 4000])), Ok(()));
    assert_eq!(channel.read_request(), 1000);
}

#[test]
fn absorb_and_advance_leave_the_listener_out() {
    let order = ByteOrder::Little;
    let mut channel = Channel::with_order(Scripted::new(Vec::new(), true), order);
    assert_eq!(channel.absorb(encode_length(2, order)), Ok(None));
    assert_eq!(channel.absorb(vec![4, 2]), Ok(Some(vec![4, 2])));
    assert!(channel.listener().received.is_empty());
    assert_eq!(channel.state(), ChannelState::ReadingSize);

    channel.send(vec![9]);
    channel.set_interest(Interest::Writable);
    assert_eq!(channel.advance(8), Ok(false));
    assert_eq!(channel.advance(1), Ok(true));
    assert_eq!(channel.listener().sent, 0);
    assert_eq!(channel.state(), ChannelState::ReadingSize);
    assert_eq!(channel.advance(1), Ok(false));
}

#[test]
fn a_new_payload_starts_the_frame_over() {
    let mut channel = Channel::with_order(Scripted::new(Vec::new(), true), ByteOrder::Little);
    channel.send(b"first".to_vec());
    channel.set_interest(Interest::Writable);
    assert_eq!(channel.on_write(WriteOutcome::Written(8)), Ok(()));
    assert_eq!(channel.on_write(WriteOutcome::Written(2)), Ok(()));
    channel.send(b"second".to_vec());
    assert_eq!(channel.state(), ChannelState::WritingSize);
    assert_eq!(channel.write_request(), &[6, 0, 0, 0, 0, 0, 0, 0]);
}

#[test]
fn the_listener_can_be_replaced() {
    let mut channel = Channel::with_order(Scripted::new(Vec::new(), true), ByteOrder::Little);
    channel.set_listener(Scripted::new(vec![Some(vec![1])], false));
    assert_eq!(channel.on_read(ReadOutcome::Data(vec![0; 8])), Ok(()));
    assert_eq!(channel.listener().received.len(), 1);
    assert_eq!(channel.state(), ChannelState::WritingSize);
}

#[test]
fn each_error_says_what_went_wrong() {
    assert_eq!(ChannelError::Transport.message(), "Unknown Error");
    assert_eq!(ChannelError::UnexpectedClose.message(), "Channel has been closed unexpectedly");
}
