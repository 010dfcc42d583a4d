//! The framing of the messages that the oracle and the application under
//! test exchange: the type of the message and the length of its data, each
//! as a decimal number on a line of its own, and then the data.

use vstd::prelude::*;

verus! {

/// What a message is about.
#[derive(Debug, Clone, Copy, PartialEq, Eq, Structural)]
pub enum MessageType {
    LayoutData,
    RequestLayoutData,
    Unknown,
}

impl MessageType {
    /// The type that a number on the wire stands for when a message is
    /// read: 0 is layout data, and nothing else is known.
    pub open spec fn spec_new(val: int) -> MessageType {
        if val == 0 {
            MessageType::LayoutData
        } else {
            MessageType::Unknown
        }
    }

    /// The number that stands for the type on the wire.
    pub open spec fn spec_as_i32(&self) -> int {
        match *self {
            MessageType::LayoutData => 0,
            MessageType::RequestLayoutData => 1,
            MessageType::Unknown => -1,
        }
    }

    /// The type that a number stands for when a message is read.
    pub fn new(val: i32) -> (r: MessageType)
        ensures
            r == MessageType::spec_new(val as int),
    {
        if val == 0 {
            MessageType::LayoutData
        } else {
            MessageType::Unknown
        }
    }

    /// The number that stands for the type when a message is written.
    pub fn as_i32(&self) -> (r: i32)
        ensures
            r == self.spec_as_i32(),
    {
        match self {
            MessageType::LayoutData => 0,
            MessageType::RequestLayoutData => 1,
            MessageType::Unknown => -1,
        }
    }
}

/// The line feed that ends each of the two header lines.
pub const LINE_FEED: u8 = 10;

/// The byte of a decimal digit.
pub open spec fn digit_byte(d: int) -> u8 {
    (48 + d) as u8
}

/// True if the byte is a decimal digit.
pub open spec fn is_digit(b: u8) -> bool {
    48 <= b <= 57
}

/// The decimal digits of a natural number, without leading zeros.
pub open spec fn digit_bytes(n: nat) -> Seq<u8>
    decreases n,
{
    if n < 10 {
        seq![digit_byte(n as int)]
    } else {
        digit_bytes(n / 10).push(digit_byte((n % 10) as int))
    }
}

/// A number in decimal, with a minus sign if it is negative.
pub open spec fn decimal_bytes(v: int) -> Seq<u8> {
    if v < 0 {
        seq![45u8] + digit_bytes((-v) as nat)
    } else {
        digit_bytes(v as nat)
    }
}

/// The number that a sequence of decimal digits stands for.
pub open spec fn digits_value(s: Seq<u8>) -> int
    decreases s.len(),
{
    if s.len() == 0 {
        0
    } else {
        digits_value(s.drop_last()) * 10 + (s.last() - 48)
    }
}

/// True if every byte is a decimal digit.
pub open spec fn all_digits(s: Seq<u8>) -> bool {
    forall|i: int| 0 <= i < s.len() ==> is_digit(#[trigger] s[i])
}

/// The digits of a number without its sign.
pub open spec fn unsigned_part(s: Seq<u8>) -> Seq<u8> {
    if s.len() > 0 && (s[0] == 45 || s[0] == 43) {
        s.drop_first()
    } else {
        s
    }
}

/// The number that a line of the header stands for: an optional sign and
/// one or more decimal digits, within the range of `i32`.
pub open spec fn parse_i32(s: Seq<u8>) -> Option<int> {
    let digits = unsigned_part(s);
    let value = if s.len() > 0 && s[0] == 45 {
        -digits_value(digits)
    } else {
        digits_value(digits)
    };
    if digits.len() > 0 && all_digits(digits) && i32::MIN <= value <= i32::MAX {
        Some(value)
    } else {
        None
    }
}

/// A message as it was read: its type, the length of its data, and the
/// data.
#[derive(Debug)]
pub struct Message {
    pub message_type: MessageType,
    pub length: i32,
    pub data: Vec<u8>,
}

impl Message {
    /// The bytes of the message: its type, the length of its data as the
    /// data has it, and the data. The `length` that the message carries
    /// plays no part.
    pub fn as_bytes(&self) -> (r: Vec<u8>)
        ensures
            r@ == spec_encode(self.message_type, self.data@),
    {
        encode(&self.message_type, self.data.as_slice())
    }

    /// The bytes of the message, as [`Message::as_bytes`] gives them.
    pub fn encode(&mut self) -> (r: Vec<u8>)
        ensures
            r@ == spec_encode(old(self).message_type, old(self).data@),
            *final(self) == *old(self),
    {
        self.as_bytes()
    }

    /// Reads a message from the start of the buffer, as [`decode`] does.
    pub fn decode(buf: &[u8]) -> (r: Decoded)
        ensures
            r@ == spec_decode(buf@),
    {
        decode(buf)
    }
}

/// What reading a message from the start of a buffer gave.
#[derive(Debug)]
pub enum Decoded {
    /// The buffer does not hold a whole message yet.
    Incomplete,
    /// A line of the header is no number.
    Malformed,
    /// A message, and the number of bytes of the buffer that it took.
    Complete { message: Message, bytes_read: usize },
}

/// A [`Message`] as the contracts see it.
pub struct MessageView {
    pub message_type: MessageType,
    pub length: int,
    pub data: Seq<u8>,
}

impl View for Message {
    type V = MessageView;

    open spec fn view(&self) -> MessageView {
        MessageView {
            message_type: self.message_type,
            length: self.length as int,
            data: self.data@,
        }
    }
}

/// [`Decoded`] as the contracts see it.
pub enum DecodedView {
    Incomplete,
    Malformed,
    Complete { message: MessageView, bytes_read: int },
}

impl View for Decoded {
    type V = DecodedView;

    open spec fn view(&self) -> DecodedView {
        match *self {
            Decoded::Incomplete => DecodedView::Incomplete,
            Decoded::Malformed => DecodedView::Malformed,
            Decoded::Complete { message, bytes_read } => DecodedView::Complete {
                message: message@,
                bytes_read: bytes_read as int,
            },
        }
    }
}

/// What the start of a buffer holds: a line with the type, a line with the
/// length, and as many bytes of data as the length says. The header is
/// read as far as it is there: a first line that is no number makes the
/// buffer malformed though the second is missing. A negative length can
/// never be met.
pub open spec fn spec_decode(buf: Seq<u8>) -> DecodedView {
    match buf.index_of_first(LINE_FEED) {
        None => DecodedView::Incomplete,
        Some(i) => match parse_i32(buf.take(i)) {
            None => DecodedView::Malformed,
            Some(kind) => {
                let rest = buf.skip(i + 1);
                match rest.index_of_first(LINE_FEED) {
                    None => DecodedView::Incomplete,
                    Some(j) => match parse_i32(rest.take(j)) {
                        None => DecodedView::Malformed,
                        Some(length) => {
                            let data = rest.skip(j + 1);
                            if 0 <= length <= data.len() {
                                DecodedView::Complete {
                                    message: MessageView {
                                        message_type: MessageType::spec_new(kind),
                                        length: length,
                                        data: data.take(length),
                                    },
                                    bytes_read: i + 1 + j + 1 + length,
                                }
                            } else {
                                DecodedView::Incomplete
                            }
                        },
                    },
                }
            },
        },
    }
}

/// The bytes of a message: the header and the data.
pub open spec fn spec_encode(message_type: MessageType, data: Seq<u8>) -> Seq<u8> {
    decimal_bytes(message_type.spec_as_i32()) + seq![LINE_FEED] + decimal_bytes(data.len() as int)
        + seq![LINE_FEED] + data
}

/// Appends the decimal digits of a number.
fn push_digit_bytes(out: &mut Vec<u8>, n: u64)
    ensures
        final(out)@ == old(out)@ + digit_bytes(n as nat),
    decreases n,
{
    if n >= 10 {
        push_digit_bytes(out, n / 10);
    }
    out.push(48 + (n % 10) as u8);
    proof {
        assert(out@ =~= old(out)@ + digit_bytes(n as nat));
    }
}

/// Appends a number in decimal.
pub fn push_decimal_bytes(out: &mut Vec<u8>, v: i64)
    ensures
        final(out)@ == old(out)@ + decimal_bytes(v as int),
{
    if v < 0 {
        out.push(45);
        let magnitude: u64 = if v == i64::MIN {
            9223372036854775808
        } else {
            (-v) as u64
        };
        push_digit_bytes(out, magnitude);
        proof {
            assert(out@ =~= old(out)@ + decimal_bytes(v as int));
        }
    } else {
        push_digit_bytes(out, v as u64);
    }
}

/// The bytes of a message with this type and this data.
pub fn encode(message_type: &MessageType, data: &[u8]) -> (r: Vec<u8>)
    ensures
        r@ == spec_encode(*message_type, data@),
{
    let mut ret: Vec<u8> = Vec::new();
    push_decimal_bytes(&mut ret, message_type.as_i32() as i64);
    ret.push(10);
    push_digit_bytes(&mut ret, data.len() as u64);
    ret.push(10);
    let mut i: usize = 0;
    let ghost head = ret@;
    while i < data.len()
        invariant
            i <= data.len(),
            ret@ == head + data@.take(i as int),
        decreases data.len() - i,
    {
        ret.push(data[i]);
        proof {
            assert(data@.take(i + 1) =~= data@.take(i as int).push(data@[i as int]));
        }
        i += 1;
    }
    proof {
        assert(data@.take(data.len() as int) =~= data@);
    }
    ret
}

/// Where the first line feed stands at or after `from`.
fn find_line_feed(buf: &[u8], from: usize) -> (r: Option<usize>)
    requires
        from <= buf@.len(),
    ensures
        match r {
            Some(k) => {
                &&& from <= k
                &&& k < buf@.len()
                &&& buf@.skip(from as int).index_of_first(LINE_FEED) == Some(k - from)
            },
            None => buf@.skip(from as int).index_of_first(LINE_FEED) is None,
        },
{
    let ghost rest = buf@.skip(from as int);
    proof {
        rest.index_of_first_ensures(LINE_FEED);
    }
    let mut k: usize = from;
    while k < buf.len()
        invariant
            from <= k <= buf.len(),
            rest == buf@.skip(from as int),
            forall|j: int| 0 <= j < k - from ==> rest[j] != LINE_FEED,
        decreases buf.len() - k,
    {
        if buf[k] == 10 {
            proof {
                rest.index_of_first_ensures(LINE_FEED);
                assert(rest[k - from] == LINE_FEED);
                let first = rest.index_of_first(LINE_FEED).unwrap();
                if first < k - from {
                    assert(rest[first] != LINE_FEED);
                }
                if first > k - from {
                    assert(rest[k - from] != LINE_FEED);
                }
            }
            return Some(k);
        }
        k += 1;
    }
    proof {
        rest.index_of_first_ensures(LINE_FEED);
        if rest.contains(LINE_FEED) {
            let j = choose|j: int| 0 <= j < rest.len() && rest[j] == LINE_FEED;
        }
    }
    None
}

/// Reads the number that the bytes from `from` up to `to` stand for.
fn parse_number(buf: &[u8], from: usize, to: usize) -> (r: Option<i32>)
    requires
        from <= to <= buf@.len(),
    ensures
        match r {
            Some(v) => parse_i32(buf@.subrange(from as int, to as int)) == Some(v as int),
            None => parse_i32(buf@.subrange(from as int, to as int)) is None,
        },
{
    let ghost line = buf@.subrange(from as int, to as int);
    if from == to {
        return None;
    }
    let negative = buf[from] == 45;
    let signed = negative || buf[from] == 43;
    let start: usize = if signed {
        from + 1
    } else {
        from
    };
    let ghost digits = unsigned_part(line);
    proof {
        assert(line[0] == buf@[from as int]);
    }
    if start == to {
        return None;
    }
    let mut value: i64 = 0;
    let mut too_large = false;
    let mut k: usize = start;
    while k < to
        invariant
            start <= k <= to,
            to <= buf@.len(),
            start < to,
            digits == buf@.subrange(start as int, to as int),
            digits == unsigned_part(buf@.subrange(from as int, to as int)),
            forall|i: int| 0 <= i < k - start ==> is_digit(#[trigger] digits[i]),
            !too_large ==> value == digits_value(digits.take(k - start)) && 0 <= value <= 0x8000_0000,
            too_large ==> digits_value(digits.take(k - start)) > 0x8000_0000,
        decreases to - k,
    {
        let b = buf[k];
        proof {
            assert(digits.take(k - start + 1).drop_last() =~= digits.take(k - start));
        }
        if b < 48 || b > 57 {
            proof {
                assert(!is_digit(digits[k - start]));
            }
            return None;
        }
        if !too_large {
            value = value * 10 + (b - 48) as i64;
            if value > 0x8000_0000 {
                too_large = true;
            }
        }
        k += 1;
    }
    proof {
        assert(digits.take(to - start) =~= digits);
    }
    if too_large {
        return None;
    }
    if negative {
        Some((-value) as i32)
    } else if value > 0x7fff_ffff {
        None
    } else {
        Some(value as i32)
    }
}

/// A copy of the bytes from `from` up to `to`.
fn copy_bytes(buf: &[u8], from: usize, to: usize) -> (r: Vec<u8>)
    requires
        from <= to <= buf@.len(),
    ensures
        r@ == buf@.subrange(from as int, to as int),
{
    let mut bytes: Vec<u8> = Vec::new();
    let mut k: usize = from;
    while k < to
        invariant
            from <= k <= to,
            to <= buf@.len(),
            bytes@ == buf@.subrange(from as int, k as int),
        decreases to - k,
    {
        bytes.push(buf[k]);
        proof {
            assert(buf@.subrange(from as int, k + 1) =~= buf@.subrange(from as int, k as int).push(
                buf@[k as int],
            ));
        }
        k += 1;
    }
    bytes
}

/// Reads a message from the start of the buffer.
pub fn decode(buf: &[u8]) -> (r: Decoded)
    ensures
        r@ == spec_decode(buf@),
{
    proof {
        assert(buf@.skip(0) =~= buf@);
    }
    let total: usize = buf.len();
    let i = match find_line_feed(buf, 0) {
        Some(i) => i,
        None => {
            return Decoded::Incomplete;
        },
    };
    proof {
        assert(buf@.index_of_first(LINE_FEED) == Some(i as int));
    }
    let kind = match parse_number(buf, 0, i) {
        Some(kind) => kind,
        None => {
            return Decoded::Malformed;
        },
    };
    let ghost rest = buf@.skip(i + 1);
    let j = match find_line_feed(buf, i + 1) {
        Some(j) => j,
        None => {
            return Decoded::Incomplete;
        },
    };
    let ghost second = j - (i + 1);
    proof {
        assert(rest.take(second) =~= buf@.subrange(i + 1, j as int));
    }
    let length = match parse_number(buf, i + 1, j) {
        Some(length) => length,
        None => {
            return Decoded::Malformed;
        },
    };
    let ghost data = rest.skip(second + 1);
    proof {
        assert(data =~= buf@.skip(j + 1));
    }
    if length < 0 {
        return Decoded::Incomplete;
    }
    let available: usize = total - (j + 1);
    if available < length as usize {
        return Decoded::Incomplete;
    }
    let end: usize = j + 1 + length as usize;
    let bytes = copy_bytes(buf, j + 1, end);
    proof {
        assert(bytes@ =~= data.take(length as int));
    }
    Decoded::Complete {
        message: Message { message_type: MessageType::new(kind), length: length, data: bytes },
        bytes_read: end,
    }
}

/// The messages that stand whole at the start of a buffer, one after the
/// other.
pub open spec fn messages_in(buf: Seq<u8>) -> Seq<MessageView>
    decreases buf.len(),
{
    match spec_decode(buf) {
        DecodedView::Complete { message, bytes_read } => if 0 < bytes_read <= buf.len() {
            seq![message] + messages_in(buf.skip(bytes_read))
        } else {
            Seq::empty()
        },
        _ => Seq::empty(),
    }
}

/// What is left of a buffer behind the messages that stand whole at its
/// start.
pub open spec fn rest_of(buf: Seq<u8>) -> Seq<u8>
    decreases buf.len(),
{
    match spec_decode(buf) {
        DecodedView::Complete { message, bytes_read } => if 0 < bytes_read <= buf.len() {
            rest_of(buf.skip(bytes_read))
        } else {
            buf
        },
        _ => buf,
    }
}

/// A message takes up bytes of the buffer in which it stands, and no more
/// than the buffer holds.
pub proof fn lemma_decode_takes_bytes(buf: Seq<u8>)
    ensures
        spec_decode(buf) matches DecodedView::Complete { bytes_read, .. } ==> 0 < bytes_read
            <= buf.len(),
{
    buf.index_of_first_ensures(LINE_FEED);
    if let Some(i) = buf.index_of_first(LINE_FEED) {
        let rest = buf.skip(i + 1);
        rest.index_of_first_ensures(LINE_FEED);
    }
}

/// The bytes that have arrived and were not yet read as messages.
#[derive(Debug)]
pub struct ServerBuffer {
    pub buffer: Vec<u8>,
}

/// The views of a sequence of messages.
pub open spec fn message_views(s: Seq<Message>) -> Seq<MessageView> {
    s.map_values(|m: Message| m@)
}

impl ServerBuffer {
    /// A buffer without bytes.
    pub fn new() -> (r: ServerBuffer)
        ensures
            r.buffer@ == Seq::<u8>::empty(),
    {
        ServerBuffer { buffer: Vec::new() }
    }

    /// Appends bytes that have arrived.
    pub fn add_to_buffer(&mut self, buff: &[u8])
        ensures
            final(self).buffer@ == old(self).buffer@ + buff@,
    {
        let ghost before = self.buffer@;
        let mut i: usize = 0;
        while i < buff.len()
            invariant
                i <= buff.len(),
                self.buffer@ == before + buff@.take(i as int),
            decreases buff.len() - i,
        {
            self.buffer.push(buff[i]);
            proof {
                assert(buff@.take(i + 1) =~= buff@.take(i as int).push(buff@[i as int]));
            }
            i += 1;
        }
        proof {
            assert(buff@.take(buff.len() as int) =~= buff@);
        }
    }

    /// True if what stands at the start of the buffer can never become a
    /// message, whatever arrives.
    pub fn is_malformed(&self) -> (r: bool)
        ensures
            r == (spec_decode(self.buffer@) is Malformed),
    {
        match decode(self.buffer.as_slice()) {
            Decoded::Malformed => true,
            _ => false,
        }
    }

    /// Takes the messages that stand whole at the start of the buffer out
    /// of it. What follows them stays: the start of a message of which more
    /// is to arrive, or bytes that are no message.
    pub fn decode_messages(&mut self) -> (r: Vec<Message>)
        ensures
            message_views(r@) == messages_in(old(self).buffer@),
            final(self).buffer@ == rest_of(old(self).buffer@),
    {
        let mut ret: Vec<Message> = Vec::new();
        let ghost start = self.buffer@;
        proof {
            assert(message_views(ret@) =~= Seq::<MessageView>::empty());
        }
        loop
            invariant
                start == old(self).buffer@,
                messages_in(start) == message_views(ret@) + messages_in(self.buffer@),
                rest_of(start) == rest_of(self.buffer@),
            decreases self.buffer@.len(),
        {
            let ghost before = self.buffer@;
            let ghost so_far = message_views(ret@);
            proof {
                lemma_decode_takes_bytes(before);
            }
            match decode(self.buffer.as_slice()) {
                Decoded::Complete { message, bytes_read } => {
                    let rest = self.buffer.split_off(bytes_read);
                    self.buffer = rest;
                    proof {
                        assert(self.buffer@ =~= before.skip(bytes_read as int));
                    }
                    ret.push(message);
                    proof {
                        assert(message_views(ret@) =~= so_far.push(message@));
                        assert(messages_in(start) =~= message_views(ret@) + messages_in(
                            self.buffer@,
                        ));
                    }
                },
                _ => {
                    proof {
                        assert(messages_in(before) =~= Seq::<MessageView>::empty());
                    }
                    return ret;
                },
            }
        }
    }
}

/// The digits of a number are digits, and stand for the number.
pub proof fn lemma_digit_bytes(n: nat)
    ensures
        digit_bytes(n).len() > 0,
        all_digits(digit_bytes(n)),
        digits_value(digit_bytes(n)) == n,
    decreases n,
{
    let s = digit_bytes(n);
    if n < 10 {
        assert(digits_value(s.drop_last()) == 0);
    } else {
        lemma_digit_bytes(n / 10);
        let head = digit_bytes(n / 10);
        assert(s.drop_last() =~= head);
    }
}

/// A number of the range of `i32` that was written in decimal is read as
/// itself, and its line holds no line feed.
pub proof fn lemma_decimal_is_read_back(v: int)
    requires
        i32::MIN <= v <= i32::MAX,
    ensures
        parse_i32(decimal_bytes(v)) == Some(v),
        !decimal_bytes(v).contains(LINE_FEED),
{
    let s = decimal_bytes(v);
    if v < 0 {
        let digits = digit_bytes((-v) as nat);
        lemma_digit_bytes((-v) as nat);
        assert(unsigned_part(s) =~= digits);
        if s.contains(LINE_FEED) {
            let i = choose|i: int| 0 <= i < s.len() && s[i] == LINE_FEED;
        }
    } else {
        lemma_digit_bytes(v as nat);
        if s.contains(LINE_FEED) {
            let i = choose|i: int| 0 <= i < s.len() && s[i] == LINE_FEED;
        }
    }
}

/// The first line feed of a line without line feeds, a line feed, and
/// whatever follows, is the one that ends the line.
pub proof fn lemma_first_line_feed(line: Seq<u8>, rest: Seq<u8>)
    requires
        !line.contains(LINE_FEED),
    ensures
        (line + seq![LINE_FEED] + rest).index_of_first(LINE_FEED) == Some(line.len() as int),
{
    let s = line + seq![LINE_FEED] + rest;
    s.index_of_first_ensures(LINE_FEED);
    assert(s[line.len() as int] == LINE_FEED);
    let first = s.index_of_first(LINE_FEED).unwrap();
    if first < line.len() {
        assert(line[first] == LINE_FEED);
    }
    if first > line.len() {
        assert(s[line.len() as int] != LINE_FEED);
    }
}

/// What was encoded is decoded again, whatever follows it in the buffer:
/// the data comes back as it was, with its length, and the message takes
/// the bytes that the encoding made. The type comes back as the type that
/// its number stands for when it is read.
pub proof fn lemma_decode_reads_what_encode_wrote(
    message_type: MessageType,
    data: Seq<u8>,
    follows: Seq<u8>,
)
    requires
        data.len() <= i32::MAX,
    ensures
        spec_decode(spec_encode(message_type, data) + follows) == (DecodedView::Complete {
            message: MessageView {
                message_type: MessageType::spec_new(message_type.spec_as_i32()),
                length: data.len() as int,
                data: data,
            },
            bytes_read: spec_encode(message_type, data).len() as int,
        }),
{
    let kind = decimal_bytes(message_type.spec_as_i32());
    let length = decimal_bytes(data.len() as int);
    let buf = spec_encode(message_type, data) + follows;
    lemma_decimal_is_read_back(message_type.spec_as_i32());
    lemma_decimal_is_read_back(data.len() as int);
    let after_kind = length + seq![LINE_FEED] + (data + follows);
    assert(buf =~= kind + seq![LINE_FEED] + after_kind);
    lemma_first_line_feed(kind, after_kind);
    let i = kind.len() as int;
    assert(buf.take(i) =~= kind);
    let rest = buf.skip(i + 1);
    assert(rest =~= length + seq![LINE_FEED] + (data + follows));
    lemma_first_line_feed(length, data + follows);
    let j = length.len() as int;
    assert(rest.take(j) =~= length);
    assert(rest.skip(j + 1) =~= data + follows);
    assert((data + follows).take(data.len() as int) =~= data);
}

} // verus!
