//! The wire format: frames, their byte encoding, and the decoder.
use vstd::prelude::*;
use vstd::utf8::*;

verus! {

broadcast use vstd::std_specs::vec::axiom_vec_index_decreases;

/// The unit exchanged on the wire.
#[derive(Debug)]
pub enum Frame {
    Simple(String),
    Error(String),
    Integer(u64),
    Bulk(Vec<u8>),
    Null,
    Array(Vec<Frame>),
}

/// The mathematical value of a frame.
pub enum FrameV {
    Simple(Seq<char>),
    Error(Seq<char>),
    Integer(u64),
    Bulk(Seq<u8>),
    Null,
    Array(Seq<FrameV>),
}

/// The views of the first `n` frames of `v`.
pub open spec fn frames_view(v: Vec<Frame>, n: int) -> Seq<FrameV>
    decreases v, n,
{
    if n <= 0 || n > v.len() {
        Seq::empty()
    } else {
        frames_view(v, n - 1).push(frame_view(v[n - 1]))
    }
}

pub open spec fn frame_view(f: Frame) -> FrameV
    decreases f, 0int,
{
    match f {
        Frame::Simple(s) => FrameV::Simple(s@),
        Frame::Error(s) => FrameV::Error(s@),
        Frame::Integer(n) => FrameV::Integer(n),
        Frame::Bulk(b) => FrameV::Bulk(b@),
        Frame::Null => FrameV::Null,
        Frame::Array(v) => FrameV::Array(frames_view(v, v.len() as int)),
    }
}

impl View for Frame {
    type V = FrameV;

    open spec fn view(&self) -> FrameV {
        frame_view(*self)
    }
}

pub open spec fn crlf() -> Seq<u8> {
    seq![13u8, 10u8]
}

/// The decimal digits of `n`, most significant first, without leading zeros.
pub open spec fn decimal(n: nat) -> Seq<u8>
    decreases n,
{
    if n < 10 {
        seq![(48 + n) as u8]
    } else {
        decimal(n / 10).push((48 + n % 10) as u8)
    }
}

/// The bytes that encode the frame `f`.
pub open spec fn encoding(f: FrameV) -> Seq<u8>
    decreases f, 0int,
{
    match f {
        FrameV::Simple(s) => seq![43u8] + encode_utf8(s) + crlf(),
        FrameV::Error(s) => seq![45u8] + encode_utf8(s) + crlf(),
        FrameV::Integer(n) => seq![58u8] + decimal(n as nat) + crlf(),
        FrameV::Bulk(d) => seq![36u8] + decimal(d.len()) + crlf() + d + crlf(),
        FrameV::Null => seq![36u8, 45u8, 49u8, 13u8, 10u8],
        FrameV::Array(items) => seq![42u8] + decimal(items.len()) + crlf() + encoding_all(
            items,
            items.len() as int,
        ),
    }
}

/// The concatenated encodings of the first `n` frames of `items`.
pub open spec fn encoding_all(items: Seq<FrameV>, n: int) -> Seq<u8>
    decreases items, n,
{
    if n <= 0 || n > items.len() {
        Seq::empty()
    } else {
        encoding_all(items, n - 1) + encoding(items[n - 1])
    }
}

/// Appends the decimal digits of `val`.
fn write_digits(out: &mut Vec<u8>, val: u64)
    ensures
        final(out)@ == old(out)@ + decimal(val as nat),
    decreases val,
{
    if val >= 10 {
        write_digits(out, val / 10);
    }
    out.push((48 + val % 10) as u8);
    proof {
        assert(final(out)@ =~= old(out)@ + decimal(val as nat));
    }
}

/// Appends the decimal form of `val` and a line terminator.
pub fn write_decimal(out: &mut Vec<u8>, val: u64)
    ensures
        final(out)@ == old(out)@ + decimal(val as nat) + crlf(),
{
    write_digits(out, val);
    out.push(13u8);
    out.push(10u8);
    proof {
        assert(final(out)@ =~= old(out)@ + decimal(val as nat) + crlf());
    }
}


/// Appends the UTF-8 bytes of `s`.
fn write_text(out: &mut Vec<u8>, s: &String)
    ensures
        final(out)@ == old(out)@ + encode_utf8(s@),
{
    let bytes = s.as_str().as_bytes();
    out.extend_from_slice(bytes);
}

/// Appends the encoding of a frame that is not an array.
pub fn write_value(frame: &Frame, out: &mut Vec<u8>)
    requires
        !(frame is Array),
    ensures
        final(out)@ == old(out)@ + encoding(frame@),
{
    match frame {
        Frame::Simple(val) => {
            out.push(43u8);
            write_text(out, val);
            out.push(13u8);
            out.push(10u8);
        },
        Frame::Error(val) => {
            out.push(45u8);
            write_text(out, val);
            out.push(13u8);
            out.push(10u8);
        },
        Frame::Integer(val) => {
            out.push(58u8);
            write_decimal(out, *val);
        },
        Frame::Null => {
            out.push(36u8);
            out.push(45u8);
            out.push(49u8);
            out.push(13u8);
            out.push(10u8);
        },
        Frame::Bulk(val) => {
            out.push(36u8);
            write_decimal(out, val.len() as u64);
            out.extend_from_slice(val.as_slice());
            out.push(13u8);
            out.push(10u8);
        },
        Frame::Array(_) => {},
    }
    proof {
        assert(out@ =~= old(out)@ + encoding(frame@));
    }
}

/// Appends the encoding of `frame`; an array is written as its header
/// followed by each of its items.
pub fn write_frame(frame: &Frame, out: &mut Vec<u8>)
    ensures
        final(out)@ == old(out)@ + encoding(frame@),
    decreases frame,
{
    match frame {
        Frame::Array(items) => {
            out.push(42u8);
            write_decimal(out, items.len() as u64);
            let ghost head = out@;
            let mut i: usize = 0;
            while i < items.len()
                invariant
                    i <= items.len(),
                    *frame == Frame::Array(*items),
                    out@ == head + encoding_all(frames_view(*items, items.len() as int), i as int),
                decreases items.len() - i,
            {
                proof {
                    vstd::std_specs::vec::axiom_vec_index_decreases(*items, i as int);
                    assert(decreases_to!(*frame => (*frame)->Array_0));
                    assert(decreases_to!(*frame => items[i as int]));
                }
                write_frame(&items[i], out);
                i = i + 1;
                proof {
                    lemma_frames_view_index(*items, items.len() as int, i - 1);
                }
            }
            proof {
                lemma_frames_view_len(*items, items.len() as int);
                assert(out@ =~= old(out)@ + encoding(frame@));
            }
        },
        _ => write_value(frame, out),
    }
}

pub(crate) proof fn lemma_frames_view_len(v: Vec<Frame>, n: int)
    requires
        0 <= n <= v.len(),
    ensures
        frames_view(v, n).len() == n,
    decreases n,
{
    if n > 0 {
        lemma_frames_view_len(v, n - 1);
    }
}

pub(crate) proof fn lemma_frames_view_index(v: Vec<Frame>, n: int, i: int)
    requires
        0 <= i < n <= v.len(),
    ensures
        frames_view(v, n).len() == n,
        frames_view(v, n)[i] == frame_view(v[i]),
    decreases n,
{
    lemma_frames_view_len(v, n);
    if i < n - 1 {
        lemma_frames_view_index(v, n - 1, i);
    }
}


/// Why a buffer does not yield a frame.
#[derive(Debug, Clone, Copy, PartialEq, Eq, Structural)]
pub enum FrameError {
    /// More bytes are needed to complete the frame.
    Incomplete,
    /// The bytes are not a well-formed frame.
    Invalid,
}

pub open spec fn is_digit(b: u8) -> bool {
    48 <= b <= 57
}

/// The number of consecutive ASCII digits in `t` from index `i` on.
pub open spec fn digit_run(t: Seq<u8>, i: int) -> nat
    decreases t.len() - i,
{
    if 0 <= i < t.len() && is_digit(t[i]) {
        1 + digit_run(t, i + 1)
    } else {
        0
    }
}

/// The value of the decimal digits `t[i..j]`.
pub open spec fn digits_value(t: Seq<u8>, i: int, j: int) -> nat
    decreases j - i,
{
    if j <= i {
        0
    } else {
        digits_value(t, i, j - 1) * 10 + (t[j - 1] - 48) as nat
    }
}

/// How `atoi` reads an unsigned 64-bit number from the start of `t`: an
/// optional sign, then the longest run of digits; the bytes after it are
/// ignored. Nothing read at all, a negative non-zero value, or a value
/// beyond `u64::MAX` gives `None`.
pub open spec fn atoi_u64(t: Seq<u8>) -> Option<u64> {
    let signed = t.len() > 0 && (t[0] == 43 || t[0] == 45);
    let start: int = if signed {
        1
    } else {
        0
    };
    let end = start + digit_run(t, start);
    let value = digits_value(t, start, end);
    if end == 0 {
        None
    } else if signed && t[0] == 45 {
        if value == 0 {
            Some(0u64)
        } else {
            None
        }
    } else if value <= u64::MAX {
        Some(value as u64)
    } else {
        None
    }
}

/// Relies on atoi::atoi::<u64>: an optional `+` or `-`, then decimal digits
/// read with overflow checks, stopping at the first byte that is not a digit.
#[verifier::external_body]
pub(crate) fn read_u64(text: &[u8]) -> (r: Option<u64>)
    ensures
        r == atoi_u64(text@),
{
    atoi::atoi::<u64>(text)
}

/// Whether every byte of `t` is an ASCII digit.
pub open spec fn all_digits(t: Seq<u8>) -> bool {
    forall|k: int| 0 <= k < t.len() ==> is_digit(#[trigger] t[k])
}

/// A decimal number as the wire format writes it: one or more ASCII
/// digits and nothing else, whose value fits `u64`.
pub open spec fn decimal_value(t: Seq<u8>) -> Option<u64> {
    if t.len() > 0 && all_digits(t) && digits_value(t, 0, t.len() as int) <= u64::MAX {
        Some(digits_value(t, 0, t.len() as int) as u64)
    } else {
        None
    }
}

/// Reads a decimal number: the bytes must all be digits, and `atoi` reads
/// their value.
pub(crate) fn read_decimal(text: &[u8]) -> (r: Option<u64>)
    ensures
        r == decimal_value(text@),
{
    if text.len() == 0 {
        return None;
    }
    let mut i: usize = 0;
    while i < text.len()
        invariant
            i <= text.len(),
            forall|k: int| 0 <= k < i ==> is_digit(#[trigger] text@[k]),
        decreases text.len() - i,
    {
        if text[i] < 48u8 || text[i] > 57u8 {
            return None;
        }
        i = i + 1;
    }
    proof {
        lemma_digit_run_all(text@, 0);
        assert(is_digit(text@[0]));
    }
    read_u64(text)
}

/// Relies on String::from_utf8: it succeeds exactly on valid UTF-8, and the
/// string holds the decoded characters.
#[verifier::external_body]
pub(crate) fn utf8_string(bytes: Vec<u8>) -> (r: Option<String>)
    ensures
        r is Some <==> valid_utf8(bytes@),
        r matches Some(s) ==> s@ == decode_utf8(bytes@),
{
    String::from_utf8(bytes).ok()
}

/// The number of bytes before the first CR LF pair at or after `start`.
pub open spec fn line_len(buf: Seq<u8>, start: int) -> Option<nat>
    decreases buf.len() - start,
{
    if start < 0 || start + 1 >= buf.len() {
        None
    } else if buf[start] == 13 && buf[start + 1] == 10 {
        Some(0)
    } else {
        match line_len(buf, start + 1) {
            Some(k) => Some(k + 1),
            None => None,
        }
    }
}

/// A line at `start` read as a number: the number and the position after
/// the line.
pub open spec fn decimal_line(buf: Seq<u8>, start: int) -> Result<(u64, int), FrameError> {
    match line_len(buf, start) {
        None => Err(FrameError::Incomplete),
        Some(k) => match decimal_value(buf.subrange(start, start + k)) {
            None => Err(FrameError::Invalid),
            Some(n) => Ok((n, start + k + 2)),
        },
    }
}

/// The number of bytes from `pos` to the end of `buf`.
pub open spec fn rest_len(buf: Seq<u8>, pos: int) -> nat {
    if pos >= buf.len() {
        0
    } else if pos < 0 {
        buf.len()
    } else {
        (buf.len() - pos) as nat
    }
}

/// Where the frame that starts at `pos` ends, as far as `check` decides it.
pub open spec fn check_spec(buf: Seq<u8>, pos: int) -> Result<int, FrameError>
    decreases rest_len(buf, pos), 0nat, 0nat,
{
    if pos < 0 || pos >= buf.len() {
        Err(FrameError::Incomplete)
    } else {
        let tag = buf[pos];
        let p = pos + 1;
        if tag == 43 || tag == 45 {
            match line_len(buf, p) {
                None => Err(FrameError::Incomplete),
                Some(k) => Ok(p + k + 2),
            }
        } else if tag == 58 {
            match decimal_line(buf, p) {
                Err(e) => Err(e),
                Ok((_, q)) => Ok(q),
            }
        } else if tag == 36 {
            if p >= buf.len() {
                Err(FrameError::Incomplete)
            } else if buf[p] == 45 {
                match line_len(buf, p) {
                    None => Err(FrameError::Incomplete),
                    Some(k) => if buf.subrange(p, p + k) == seq![45u8, 49u8] {
                        Ok(p + k + 2)
                    } else {
                        Err(FrameError::Invalid)
                    },
                }
            } else {
                match decimal_line(buf, p) {
                    Err(e) => Err(e),
                    Ok((n, q)) => if n > usize::MAX {
                        Err(FrameError::Invalid)
                    } else if buf.len() - q < n + 2 {
                        Err(FrameError::Incomplete)
                    } else {
                        Ok(q + n + 2)
                    },
                }
            }
        } else if tag == 42 {
            match line_len(buf, p) {
                None => Err(FrameError::Incomplete),
                Some(k) => match decimal_value(buf.subrange(p, p + k)) {
                    None => Err(FrameError::Invalid),
                    Some(n) => check_items(buf, p + k + 2, n as nat),
                },
            }
        } else {
            Err(FrameError::Invalid)
        }
    }
}

/// Where `n` consecutive frames from `pos` end, as far as `check` decides it.
pub open spec fn check_items(buf: Seq<u8>, pos: int, n: nat) -> Result<int, FrameError>
    decreases rest_len(buf, pos), 1nat, n,
{
    if n == 0 {
        Ok(pos)
    } else {
        match check_spec(buf, pos) {
            Err(e) => Err(e),
            Ok(q) => if q <= pos {
                // every frame spans at least its tag byte
                Err(FrameError::Invalid)
            } else {
                check_items(buf, q, (n - 1) as nat)
            },
        }
    }
}

/// The frame that starts at `pos` and the position after it.
pub open spec fn parse_spec(buf: Seq<u8>, pos: int) -> Result<(FrameV, int), FrameError>
    decreases rest_len(buf, pos), 0nat, 0nat,
{
    if pos < 0 || pos >= buf.len() {
        Err(FrameError::Incomplete)
    } else {
        let tag = buf[pos];
        let p = pos + 1;
        if tag == 43 || tag == 45 {
            match line_len(buf, p) {
                None => Err(FrameError::Incomplete),
                Some(k) => {
                    let line = buf.subrange(p, p + k);
                    if !valid_utf8(line) {
                        Err(FrameError::Invalid)
                    } else if tag == 43 {
                        Ok((FrameV::Simple(decode_utf8(line)), p + k + 2))
                    } else {
                        Ok((FrameV::Error(decode_utf8(line)), p + k + 2))
                    }
                },
            }
        } else if tag == 58 {
            match decimal_line(buf, p) {
                Err(e) => Err(e),
                Ok((n, q)) => Ok((FrameV::Integer(n), q)),
            }
        } else if tag == 36 {
            if p >= buf.len() {
                Err(FrameError::Incomplete)
            } else if buf[p] == 45 {
                match line_len(buf, p) {
                    None => Err(FrameError::Incomplete),
                    Some(k) => if buf.subrange(p, p + k) == seq![45u8, 49u8] {
                        Ok((FrameV::Null, p + k + 2))
                    } else {
                        Err(FrameError::Invalid)
                    },
                }
            } else {
                match decimal_line(buf, p) {
                    Err(e) => Err(e),
                    Ok((n, q)) => if n > usize::MAX {
                        Err(FrameError::Invalid)
                    } else if buf.len() - q < n + 2 {
                        Err(FrameError::Incomplete)
                    } else {
                        Ok((FrameV::Bulk(buf.subrange(q, q + n)), q + n + 2))
                    },
                }
            }
        } else if tag == 42 {
            match line_len(buf, p) {
                None => Err(FrameError::Incomplete),
                Some(k) => match decimal_value(buf.subrange(p, p + k)) {
                    None => Err(FrameError::Invalid),
                    Some(n) => if n > usize::MAX {
                        Err(FrameError::Invalid)
                    } else {
                        match parse_items(buf, p + k + 2, n as nat) {
                            Err(e) => Err(e),
                            Ok((items, q)) => Ok((FrameV::Array(items), q)),
                        }
                    },
                },
            }
        } else {
            Err(FrameError::Invalid)
        }
    }
}

/// `n` consecutive frames from `pos` and the position after the last.
pub open spec fn parse_items(buf: Seq<u8>, pos: int, n: nat) -> Result<
    (Seq<FrameV>, int),
    FrameError,
>
    decreases rest_len(buf, pos), 1nat, n,
{
    if n == 0 {
        Ok((Seq::empty(), pos))
    } else {
        match parse_spec(buf, pos) {
            Err(e) => Err(e),
            Ok((f, q)) => if q <= pos {
                // every frame spans at least its tag byte
                Err(FrameError::Invalid)
            } else {
                prepend(seq![f], parse_items(buf, q, (n - 1) as nat))
            },
        }
    }
}

pub open spec fn prepend(fs: Seq<FrameV>, r: Result<(Seq<FrameV>, int), FrameError>) -> Result<
    (Seq<FrameV>, int),
    FrameError,
> {
    match r {
        Ok((gs, e)) => Ok((fs + gs, e)),
        Err(x) => Err(x),
    }
}


/// Reads the byte at the cursor and moves past it.
pub fn get_u8(buf: &[u8], pos: &mut usize) -> (r: Result<u8, FrameError>)
    ensures
        *old(pos) < buf.len() ==> r == Ok::<u8, FrameError>(buf@[*old(pos) as int]) && *final(pos)
            == *old(pos) + 1,
        *old(pos) >= buf.len() ==> r == Err::<u8, FrameError>(FrameError::Incomplete) && *final(pos)
            == *old(pos),
{
    if *pos >= buf.len() {
        return Err(FrameError::Incomplete);
    }
    let b = buf[*pos];
    *pos = *pos + 1;
    Ok(b)
}

/// Reads the byte at the cursor without moving.
pub fn peek_u8(buf: &[u8], pos: usize) -> (r: Result<u8, FrameError>)
    ensures
        pos < buf.len() ==> r == Ok::<u8, FrameError>(buf@[pos as int]),
        pos >= buf.len() ==> r == Err::<u8, FrameError>(FrameError::Incomplete),
{
    if pos >= buf.len() {
        return Err(FrameError::Incomplete);
    }
    Ok(buf[pos])
}

/// Moves the cursor `n` bytes ahead, if that many remain.
pub fn skip(buf: &[u8], pos: &mut usize, n: usize) -> (r: Result<(), FrameError>)
    ensures
        rest_len(buf@, *old(pos) as int) >= n ==> r is Ok && *final(pos) == *old(pos) + n,
        rest_len(buf@, *old(pos) as int) < n ==> r == Err::<(), FrameError>(FrameError::Incomplete)
            && *final(pos) == *old(pos),
{
    let remaining = if *pos >= buf.len() {
        0
    } else {
        buf.len() - *pos
    };
    if remaining < n {
        return Err(FrameError::Incomplete);
    }
    *pos = *pos + n;
    Ok(())
}

/// Finds the line that starts at the cursor, moves past its CR LF, and
/// returns where the line's text ends.
pub fn get_line(buf: &[u8], pos: &mut usize) -> (r: Result<usize, FrameError>)
    ensures
        match line_len(buf@, *old(pos) as int) {
            Some(k) => r matches Ok(e) && e == *old(pos) + k && *final(pos) == *old(pos) + k + 2,
            None => r == Err::<usize, FrameError>(FrameError::Incomplete) && *final(pos) == *old(pos),
        },
{
    let start = *pos;
    if start >= buf.len() {
        return Err(FrameError::Incomplete);
    }
    let mut i = start;
    while buf.len() - i > 1
        invariant
            start <= i <= buf.len(),
            *pos == start,
            start == *old(pos),
            line_len(buf@, start as int) == match line_len(buf@, i as int) {
                Some(k) => Some((k + (i - start)) as nat),
                None => None::<nat>,
            },
        decreases buf.len() - i,
    {
        if buf[i] == 13u8 && buf[i + 1] == 10u8 {
            assert(line_len(buf@, i as int) == Some(0nat));
            *pos = i + 2;
            return Ok(i);
        }
        assert(line_len(buf@, i as int) == match line_len(buf@, i + 1) {
            Some(k) => Some(k + 1),
            None => None::<nat>,
        });
        i = i + 1;
    }
    assert(line_len(buf@, i as int) == None::<nat>);
    Err(FrameError::Incomplete)
}

/// Reads a line holding a decimal number.
pub fn get_decimal(buf: &[u8], pos: &mut usize) -> (r: Result<u64, FrameError>)
    requires
        *old(pos) <= buf.len(),
    ensures
        *final(pos) <= buf.len(),
        match decimal_line(buf@, *old(pos) as int) {
            Ok((n, q)) => r == Ok::<u64, FrameError>(n) && *final(pos) == q,
            Err(e) => r == Err::<u64, FrameError>(e),
        },
{
    let start = *pos;
    proof {
        lemma_line_len_bound(buf@, start as int);
    }
    let end = match get_line(buf, pos) {
        Ok(end) => end,
        Err(e) => return Err(e),
    };
    match read_decimal(&buf[start..end]) {
        Some(n) => Ok(n),
        None => Err(FrameError::Invalid),
    }
}

proof fn lemma_line_len_bound(buf: Seq<u8>, start: int)
    ensures
        line_len(buf, start) matches Some(k) ==> 0 <= start && start + k + 2 <= buf.len(),
    decreases buf.len() - start,
{
    if !(start < 0 || start + 1 >= buf.len()) && !(buf[start] == 13 && buf[start + 1] == 10) {
        lemma_line_len_bound(buf, start + 1);
    }
}


impl Frame {
    /// Appends `item` to an array frame.
    fn push_item(&mut self, item: Frame)
        requires
            *old(self) is Array,
        ensures
            final(self)@ == FrameV::Array(old(self)@->Array_0.push(item@)),
    {
        match self {
            Frame::Array(vec) => {
                let ghost before = *vec;
                vec.push(item);
                proof {
                    lemma_frames_view_prefix(before, *vec, before.len() as int);
                    lemma_frames_view_len(before, before.len() as int);
                }
            },
            _ => {},
        }
    }

    /// Appends a bulk frame holding `data` to an array frame.
    pub fn push_bulk(&mut self, data: Vec<u8>)
        requires
            *old(self) is Array,
        ensures
            final(self)@ == FrameV::Array(old(self)@->Array_0.push(FrameV::Bulk(data@))),
    {
        self.push_item(Frame::Bulk(data));
    }

    /// Appends an integer frame holding `value` to an array frame.
    pub fn push_int(&mut self, value: u64)
        requires
            *old(self) is Array,
        ensures
            final(self)@ == FrameV::Array(old(self)@->Array_0.push(FrameV::Integer(value))),
    {
        self.push_item(Frame::Integer(value));
    }

    /// An empty array frame.
    pub fn array() -> (r: Frame)
        ensures
            r@ == FrameV::Array(Seq::empty()),
    {
        Frame::Array(Vec::new())
    }

    /// Checks that a whole frame starts at the cursor, and moves past it,
    /// without building the frame.
    pub fn check(buf: &[u8], pos: &mut usize) -> (r: Result<(), FrameError>)
        requires
            *old(pos) <= buf.len(),
        ensures
            *final(pos) <= buf.len(),
            match check_spec(buf@, *old(pos) as int) {
                Ok(e) => r is Ok && *final(pos) == e,
                Err(x) => r == Err::<(), FrameError>(x),
            },
            r is Ok ==> *final(pos) > *old(pos),
        decreases buf.len() - *old(pos),
    {
        let start = *pos;
        let tag = match get_u8(buf, pos) {
            Ok(t) => t,
            Err(e) => return Err(e),
        };
        let p = *pos;
        proof {
            lemma_line_len_bound(buf@, p as int);
        }
        if tag == 43u8 || tag == 45u8 {
            match get_line(buf, pos) {
                Ok(_) => Ok(()),
                Err(e) => Err(e),
            }
        } else if tag == 58u8 {
            match get_decimal(buf, pos) {
                Ok(_) => Ok(()),
                Err(e) => Err(e),
            }
        } else if tag == 36u8 {
            let next = match peek_u8(buf, *pos) {
                Ok(b) => b,
                Err(e) => return Err(e),
            };
            if next == 45u8 {
                let end = match get_line(buf, pos) {
                    Ok(end) => end,
                    Err(e) => return Err(e),
                };
                if end - p == 2 && buf[p] == 45u8 && buf[p + 1] == 49u8 {
                    assert(buf@.subrange(p as int, end as int) =~= seq![45u8, 49u8]);
                    Ok(())
                } else {
                    assert(end - p != 2 ==> buf@.subrange(p as int, end as int).len() != 2);
                    Err(FrameError::Invalid)
                }
            } else {
                let n = match get_decimal(buf, pos) {
                    Ok(n) => n,
                    Err(e) => return Err(e),
                };
                if n > usize::MAX as u64 {
                    return Err(FrameError::Invalid);
                }
                let n = n as usize;
                if buf.len() - *pos < n || buf.len() - *pos - n < 2 {
                    return Err(FrameError::Incomplete);
                }
                *pos = *pos + n + 2;
                Ok(())
            }
        } else if tag == 42u8 {
            let n = match get_decimal(buf, pos) {
                Ok(n) => n,
                Err(e) => return Err(e),
            };
            let q = *pos;
            assert(check_spec(buf@, start as int) == check_items(buf@, q as int, n as nat));
            let mut i: u64 = 0;
            while i < n
                invariant
                    i <= n,
                    start == *old(pos),
                    start < q <= *pos <= buf.len(),
                    check_spec(buf@, start as int) == check_items(buf@, q as int, n as nat),
                    check_items(buf@, q as int, n as nat) == check_items(
                        buf@,
                        *pos as int,
                        (n - i) as nat,
                    ),
                decreases n - i,
            {
                let before = *pos;
                let ghost rest = (n - i) as nat;
                assert(check_items(buf@, before as int, rest) == match check_spec(buf@, before as int) {
                    Err(e) => Err(e),
                    Ok(q) => if q <= before {
                        Err(FrameError::Invalid)
                    } else {
                        check_items(buf@, q, (rest - 1) as nat)
                    },
                });
                match Frame::check(buf, pos) {
                    Ok(()) => {},
                    Err(e) => return Err(e),
                }
                i = i + 1;
            }
            Ok(())
        } else {
            Err(FrameError::Invalid)
        }
    }
}


/// What `parse` promises for the frame whose tag byte sits just before `pos`.
pub open spec fn parsed_from(
    buf: Seq<u8>,
    start: int,
    r: Result<Frame, FrameError>,
    end: int,
) -> bool {
    match parse_spec(buf, start) {
        Ok((f, e)) => r matches Ok(g) && g@ == f && end == e,
        Err(x) => r == Err::<Frame, FrameError>(x),
    }
}

/// Decodes a simple or error frame whose tag byte was just read.
fn parse_text(buf: &[u8], pos: &mut usize) -> (r: Result<Frame, FrameError>)
    requires
        1 <= *old(pos) <= buf.len(),
        buf@[*old(pos) - 1] == 43u8 || buf@[*old(pos) - 1] == 45u8,
    ensures
        *final(pos) <= buf.len(),
        parsed_from(buf@, *old(pos) - 1, r, *final(pos) as int),
        r is Ok ==> *final(pos) > *old(pos),
{
    let p = *pos;
    let tag = buf[p - 1];
    proof {
        lemma_line_len_bound(buf@, p as int);
    }
    let end = match get_line(buf, pos) {
        Ok(end) => end,
        Err(e) => return Err(e),
    };
    let line = vstd::slice::slice_to_vec(&buf[p..end]);
    let text = match utf8_string(line) {
        Some(t) => t,
        None => return Err(FrameError::Invalid),
    };
    if tag == 43u8 {
        Ok(Frame::Simple(text))
    } else {
        Ok(Frame::Error(text))
    }
}

/// Decodes a bulk or null frame whose tag byte was just read.
fn parse_bulk(buf: &[u8], pos: &mut usize) -> (r: Result<Frame, FrameError>)
    requires
        1 <= *old(pos) <= buf.len(),
        buf@[*old(pos) - 1] == 36u8,
    ensures
        *final(pos) <= buf.len(),
        parsed_from(buf@, *old(pos) - 1, r, *final(pos) as int),
        r is Ok ==> *final(pos) > *old(pos),
{
    let p = *pos;
    proof {
        lemma_line_len_bound(buf@, p as int);
    }
    let next = match peek_u8(buf, *pos) {
        Ok(b) => b,
        Err(e) => return Err(e),
    };
    if next == 45u8 {
        let end = match get_line(buf, pos) {
            Ok(end) => end,
            Err(e) => return Err(e),
        };
        if end - p == 2 && buf[p] == 45u8 && buf[p + 1] == 49u8 {
            assert(buf@.subrange(p as int, end as int) =~= seq![45u8, 49u8]);
            Ok(Frame::Null)
        } else {
            assert(end - p != 2 ==> buf@.subrange(p as int, end as int).len() != 2);
            Err(FrameError::Invalid)
        }
    } else {
        let n = match get_decimal(buf, pos) {
            Ok(n) => n,
            Err(e) => return Err(e),
        };
        if n > usize::MAX as u64 {
            return Err(FrameError::Invalid);
        }
        let n = n as usize;
        if buf.len() - *pos < n || buf.len() - *pos - n < 2 {
            return Err(FrameError::Incomplete);
        }
        let data = vstd::slice::slice_to_vec(&buf[*pos..*pos + n]);
        *pos = *pos + n + 2;
        Ok(Frame::Bulk(data))
    }
}

impl Frame {
    /// Builds the frame that starts at the cursor and moves past it. Bulk
    /// payloads are copied out of the buffer.
    pub fn parse(buf: &[u8], pos: &mut usize) -> (r: Result<Frame, FrameError>)
        requires
            *old(pos) <= buf.len(),
        ensures
            *final(pos) <= buf.len(),
            parsed_from(buf@, *old(pos) as int, r, *final(pos) as int),
            r is Ok ==> *final(pos) > *old(pos),
        decreases buf.len() - *old(pos), 1nat,
    {
        let tag = match get_u8(buf, pos) {
            Ok(t) => t,
            Err(e) => return Err(e),
        };
        if tag == 43u8 || tag == 45u8 {
            parse_text(buf, pos)
        } else if tag == 58u8 {
            match get_decimal(buf, pos) {
                Ok(n) => Ok(Frame::Integer(n)),
                Err(e) => Err(e),
            }
        } else if tag == 36u8 {
            parse_bulk(buf, pos)
        } else if tag == 42u8 {
            parse_array(buf, pos)
        } else {
            Err(FrameError::Invalid)
        }
    }
}

/// Decodes an array frame whose tag byte was just read.
fn parse_array(buf: &[u8], pos: &mut usize) -> (r: Result<Frame, FrameError>)
    requires
        1 <= *old(pos) <= buf.len(),
        buf@[*old(pos) - 1] == 42u8,
    ensures
        *final(pos) <= buf.len(),
        parsed_from(buf@, *old(pos) - 1, r, *final(pos) as int),
        r is Ok ==> *final(pos) > *old(pos),
    decreases buf.len() - (*old(pos) - 1), 0nat,
{
    let start = *pos - 1;
    proof {
        lemma_line_len_bound(buf@, start + 1);
    }
    let n = match get_decimal(buf, pos) {
        Ok(n) => n,
        Err(e) => return Err(e),
    };
    if n > usize::MAX as u64 {
        return Err(FrameError::Invalid);
    }
    let n = n as usize;
    let q = *pos;
    let mut items: Vec<Frame> = Vec::new();
    let mut i: usize = 0;
    while i < n
        invariant
            i <= n,
            items.len() == i,
            start == *old(pos) - 1,
            start < q <= *pos <= buf.len(),
            parse_spec(buf@, start as int) == (match parse_items(buf@, q as int, n as nat) {
                Err(e) => Err(e),
                Ok((fs, e)) => Ok((FrameV::Array(fs), e)),
            }),
            parse_items(buf@, q as int, n as nat) == prepend(
                frames_view(items, i as int),
                parse_items(buf@, *pos as int, (n - i) as nat),
            ),
        decreases n - i,
    {
        let before = *pos;
        let ghost rest = (n - i) as nat;
        assert(parse_items(buf@, before as int, rest) == match parse_spec(buf@, before as int) {
            Err(e) => Err(e),
            Ok((f, q)) => if q <= before {
                Err(FrameError::Invalid)
            } else {
                prepend(seq![f], parse_items(buf@, q, (rest - 1) as nat))
            },
        });
        let item = match Frame::parse(buf, pos) {
            Ok(f) => f,
            Err(e) => return Err(e),
        };
        let ghost old_items = items;
        items.push(item);
        proof {
            lemma_frames_view_prefix(old_items, items, i as int);
            assert(frames_view(items, i + 1) == frames_view(items, i as int).push(
                frame_view(items[i as int]),
            ));
            let tail = parse_items(buf@, *pos as int, (rest - 1) as nat);
            match tail {
                Ok((gs, e)) => {
                    assert(frames_view(old_items, i as int) + (seq![item@] + gs) =~= frames_view(
                        items,
                        i + 1,
                    ) + gs);
                },
                Err(_) => {},
            }
        }
        i = i + 1;
    }
    proof {
        lemma_frames_view_len(items, n as int);
        match parse_items(buf@, *pos as int, 0) {
            Ok((gs, e)) => {
                assert(frames_view(items, n as int) + gs =~= frames_view(items, n as int));
            },
            Err(_) => {},
        }
    }
    Ok(Frame::Array(items))
}

proof fn lemma_frames_view_prefix(v: Vec<Frame>, w: Vec<Frame>, n: int)
    requires
        0 <= n <= v.len(),
        n <= w.len(),
        forall|j: int| 0 <= j < n ==> v[j] == w[j],
    ensures
        frames_view(v, n) == frames_view(w, n),
    decreases n,
{
    if n > 0 {
        lemma_frames_view_prefix(v, w, n - 1);
    }
}


/// Reads the first whole frame from the start of a connection's read
/// buffer: the frame and the number of bytes it spans, or `None` while more
/// bytes are needed.
pub fn parse_frame(buf: &[u8]) -> (r: Result<Option<(Frame, usize)>, FrameError>)
    ensures
        match check_spec(buf@, 0) {
            Err(FrameError::Incomplete) => r == Ok::<Option<(Frame, usize)>, FrameError>(None),
            Err(FrameError::Invalid) => r == Err::<Option<(Frame, usize)>, FrameError>(
                FrameError::Invalid,
            ),
            Ok(len) => match parse_spec(buf@, 0) {
                Ok((f, _)) => r matches Ok(Some((g, n))) && g@ == f && n == len,
                Err(x) => r == Err::<Option<(Frame, usize)>, FrameError>(x),
            },
        },
{
    let mut pos: usize = 0;
    match Frame::check(buf, &mut pos) {
        Ok(()) => {
            let len = pos;
            let mut pos: usize = 0;
            match Frame::parse(buf, &mut pos) {
                Ok(frame) => Ok(Some((frame, len))),
                Err(e) => Err(e),
            }
        },
        Err(FrameError::Incomplete) => Ok(None),
        Err(e) => Err(e),
    }
}


/// Whether a CR byte at `i` in `b` is directly followed by an LF byte.
pub open spec fn crlf_at(b: Seq<u8>, i: int) -> bool {
    0 <= i && i + 1 < b.len() && b[i] == 13 && b[i + 1] == 10
}

/// Whether `b` holds a CR byte directly followed by an LF byte.
pub open spec fn has_crlf(b: Seq<u8>) -> bool {
    exists|i: int| #[trigger] crlf_at(b, i)
}

/// No simple or error text inside `f` holds a line terminator.
pub open spec fn text_frames(f: FrameV) -> bool
    decreases f, 0int,
{
    match f {
        FrameV::Simple(s) => !has_crlf(encode_utf8(s)),
        FrameV::Error(s) => !has_crlf(encode_utf8(s)),
        FrameV::Array(items) => all_text_frames(items, items.len() as int),
        _ => true,
    }
}

/// `text_frames` holds of the first `n` of `items`.
pub open spec fn all_text_frames(items: Seq<FrameV>, n: int) -> bool
    decreases items, n,
{
    if n <= 0 || n > items.len() {
        true
    } else {
        all_text_frames(items, n - 1) && text_frames(items[n - 1])
    }
}

/// Every bulk payload and array inside `f` has a length that fits `usize`.
pub open spec fn bounded(f: FrameV) -> bool
    decreases f, 0int,
{
    match f {
        FrameV::Bulk(d) => d.len() <= usize::MAX,
        FrameV::Array(items) => items.len() <= usize::MAX && all_bounded(items, items.len() as int),
        _ => true,
    }
}

/// `bounded` holds of the first `n` of `items`.
pub open spec fn all_bounded(items: Seq<FrameV>, n: int) -> bool
    decreases items, n,
{
    if n <= 0 || n > items.len() {
        true
    } else {
        all_bounded(items, n - 1) && bounded(items[n - 1])
    }
}

proof fn lemma_all_index(items: Seq<FrameV>, n: int, i: int)
    requires
        0 <= i < n <= items.len(),
    ensures
        all_text_frames(items, n) ==> text_frames(items[i]),
        all_bounded(items, n) ==> bounded(items[i]),
    decreases n,
{
    if i < n - 1 {
        lemma_all_index(items, n - 1, i);
    }
}

proof fn lemma_digits_value_agree(t: Seq<u8>, u: Seq<u8>, i: int, j: int)
    requires
        forall|k: int| i <= k < j ==> t[k] == u[k],
    ensures
        digits_value(t, i, j) == digits_value(u, i, j),
    decreases j - i,
{
    if j > i {
        lemma_digits_value_agree(t, u, i, j - 1);
    }
}

proof fn lemma_digit_run_all(t: Seq<u8>, i: int)
    requires
        0 <= i <= t.len(),
        forall|k: int| i <= k < t.len() ==> is_digit(t[k]),
    ensures
        digit_run(t, i) == t.len() - i,
    decreases t.len() - i,
{
    if i < t.len() {
        lemma_digit_run_all(t, i + 1);
    }
}

/// The decimal form of `n` is a non-empty run of digits worth `n`.
proof fn lemma_decimal(n: nat)
    ensures
        decimal(n).len() >= 1,
        forall|k: int| 0 <= k < decimal(n).len() ==> is_digit(#[trigger] decimal(n)[k]),
        digits_value(decimal(n), 0, decimal(n).len() as int) == n,
    decreases n,
{
    if n >= 10 {
        lemma_decimal(n / 10);
        let t = decimal(n / 10);
        let u = decimal(n);
        assert(u == t.push((48 + n % 10) as u8));
        lemma_digits_value_agree(t, u, 0, t.len() as int);
        assert(digits_value(u, 0, u.len() as int) == digits_value(u, 0, t.len() as int) * 10 + (
        u[t.len() as int] - 48) as nat);
        assert(n == (n / 10) * 10 + n % 10);
    } else {
        assert(digits_value(decimal(n), 0, 1) == digits_value(decimal(n), 0, 0) * 10 + (decimal(
            n,
        )[0] - 48) as nat);
    }
}

/// The decimal form of a `u64` reads back as that number.
proof fn lemma_decimal_value(n: u64)
    ensures
        decimal_value(decimal(n as nat)) == Some(n),
{
    lemma_decimal(n as nat);
}

/// A line of `k` bytes with no terminator inside, followed by CR LF.
proof fn lemma_line_len_at(buf: Seq<u8>, p: int, k: nat)
    requires
        0 <= p,
        p + k + 2 <= buf.len(),
        forall|i: int| p <= i < p + k ==> !crlf_at(buf, i),
        buf[p + k] == 13,
        buf[p + k + 1] == 10,
    ensures
        line_len(buf, p) == Some(k),
    decreases k,
{
    if k > 0 {
        assert(!crlf_at(buf, p));
        lemma_line_len_at(buf, p + 1, (k - 1) as nat);
    }
}

/// The line starting at `p` is exactly the bytes `t`, when they hold no
/// terminator and are followed by CR LF.
proof fn lemma_line_of(buf: Seq<u8>, p: int, t: Seq<u8>)
    requires
        0 <= p,
        p + t.len() + 2 <= buf.len(),
        buf.subrange(p, p + t.len()) == t,
        !has_crlf(t),
        buf[p + t.len()] == 13,
        buf[p + t.len() + 1] == 10,
    ensures
        line_len(buf, p) == Some(t.len()),
{
    assert forall|i: int| p <= i < p + t.len() implies !crlf_at(buf, i) by {
        if i + 1 < p + t.len() {
            assert(buf[i] == t[i - p]);
            assert(buf[i + 1] == t[i + 1 - p]);
            if crlf_at(buf, i) {
                assert(crlf_at(t, i - p));
            }
        }
    }
    lemma_line_len_at(buf, p, t.len());
}

proof fn lemma_decimal_no_crlf(n: nat)
    ensures
        !has_crlf(decimal(n)),
{
    lemma_decimal(n);
    if has_crlf(decimal(n)) {
        let i = choose|i: int| crlf_at(decimal(n), i);
        assert(is_digit(decimal(n)[i]));
    }
}

/// A decimal line at `p` is read back as `n`.
proof fn lemma_decimal_line(buf: Seq<u8>, p: int, n: u64)
    requires
        0 <= p,
        p + decimal(n as nat).len() + 2 <= buf.len(),
        buf.subrange(p, p + decimal(n as nat).len() + 2) == decimal(n as nat) + crlf(),
    ensures
        decimal_line(buf, p) == Ok::<(u64, int), FrameError>((n, p + decimal(n as nat).len() + 2)),
        is_digit(buf[p]),
{
    let t = decimal(n as nat);
    lemma_decimal(n as nat);
    lemma_decimal_no_crlf(n as nat);
    lemma_decimal_value(n);
    assert(buf.subrange(p, p + t.len()) =~= t) by {
        assert forall|i: int| 0 <= i < t.len() implies buf.subrange(p, p + t.len())[i] == t[i] by {
            assert(buf.subrange(p, p + t.len() + 2)[i] == (t + crlf())[i]);
        }
    }
    assert(buf.subrange(p, p + t.len() + 2)[t.len() as int] == (t + crlf())[t.len() as int]);
    assert(buf.subrange(p, p + t.len() + 2)[t.len() + 1int] == (t + crlf())[t.len() + 1int]);
    assert(buf.subrange(p, p + t.len() + 2)[0] == (t + crlf())[0]);
    lemma_line_of(buf, p, t);
}

proof fn lemma_encoding_all_prefix(items: Seq<FrameV>, j: int, m: int)
    requires
        0 <= j <= m <= items.len(),
    ensures
        encoding_all(items, m).subrange(0, encoding_all(items, j).len() as int) == encoding_all(
            items,
            j,
        ),
        encoding_all(items, j).len() <= encoding_all(items, m).len(),
    decreases m - j,
{
    if j < m {
        lemma_encoding_all_prefix(items, j, m - 1);
        assert(encoding_all(items, m) == encoding_all(items, m - 1) + encoding(items[m - 1]));
        assert(encoding_all(items, m).subrange(0, encoding_all(items, j).len() as int)
            =~= encoding_all(items, m - 1).subrange(0, encoding_all(items, j).len() as int));
    } else {
        assert(encoding_all(items, m).subrange(0, encoding_all(items, j).len() as int)
            =~= encoding_all(items, j));
    }
}


proof fn lemma_window(buf: Seq<u8>, pos: int, e: Seq<u8>, a: int, b: int)
    requires
        0 <= pos,
        0 <= a <= b <= e.len(),
        pos + e.len() <= buf.len(),
        buf.subrange(pos, pos + e.len()) == e,
    ensures
        buf.subrange(pos + a, pos + b) == e.subrange(a, b),
{
    assert forall|i: int| 0 <= i < b - a implies buf.subrange(pos + a, pos + b)[i] == e.subrange(
        a,
        b,
    )[i] by {
        assert(buf.subrange(pos, pos + e.len())[a + i] == e[a + i]);
    }
    assert(buf.subrange(pos + a, pos + b) =~= e.subrange(a, b));
}

proof fn lemma_byte(buf: Seq<u8>, pos: int, e: Seq<u8>, a: int)
    requires
        0 <= pos,
        0 <= a < e.len(),
        pos + e.len() <= buf.len(),
        buf.subrange(pos, pos + e.len()) == e,
    ensures
        buf[pos + a] == e[a],
{
    assert(buf.subrange(pos, pos + e.len())[a] == e[a]);
}

proof fn lemma_encoding_nonempty(f: FrameV)
    ensures
        encoding(f).len() >= 1,
{
    match f {
        FrameV::Simple(s) => assert(encoding(f)[0] == 43u8),
        FrameV::Error(s) => assert(encoding(f)[0] == 45u8),
        FrameV::Integer(n) => assert(encoding(f)[0] == 58u8),
        FrameV::Bulk(d) => assert(encoding(f)[0] == 36u8),
        FrameV::Null => {},
        FrameV::Array(items) => assert(encoding(f)[0] == 42u8),
    }
}

proof fn lemma_decode_text(buf: Seq<u8>, pos: int, f: FrameV)
    requires
        0 <= pos,
        pos + encoding(f).len() <= buf.len(),
        buf.subrange(pos, pos + encoding(f).len()) == encoding(f),
        text_frames(f),
        bounded(f),
        f is Simple || f is Error,
    ensures
        parse_spec(buf, pos) == Ok::<(FrameV, int), FrameError>((f, pos + encoding(f).len())),
        check_spec(buf, pos) == Ok::<int, FrameError>(pos + encoding(f).len()),
{
    let e = encoding(f);
    let p = pos + 1;
    lemma_byte(buf, pos, e, 0);
    let s = match f {
        FrameV::Simple(s) => s,
        FrameV::Error(s) => s,
        _ => Seq::empty(),
    };
    let t = encode_utf8(s);
    lemma_window(buf, pos, e, 1, 1 + t.len() as int);
    assert(e.subrange(1, 1 + t.len() as int) =~= t);
    lemma_byte(buf, pos, e, 1 + t.len() as int);
    lemma_byte(buf, pos, e, 2 + t.len() as int);
    lemma_line_of(buf, p, t);
    encode_utf8_valid_utf8(s);
    encode_utf8_decode_utf8(s);
}

proof fn lemma_decode_integer(buf: Seq<u8>, pos: int, f: FrameV)
    requires
        0 <= pos,
        pos + encoding(f).len() <= buf.len(),
        buf.subrange(pos, pos + encoding(f).len()) == encoding(f),
        text_frames(f),
        bounded(f),
        f is Integer,
    ensures
        parse_spec(buf, pos) == Ok::<(FrameV, int), FrameError>((f, pos + encoding(f).len())),
        check_spec(buf, pos) == Ok::<int, FrameError>(pos + encoding(f).len()),
{
    let e = encoding(f);
    let p = pos + 1;
    lemma_byte(buf, pos, e, 0);
    let n = f->Integer_0;
    let d = decimal(n as nat);
    lemma_window(buf, pos, e, 1, e.len() as int);
    assert(e.subrange(1, e.len() as int) =~= d + crlf());
    lemma_decimal_line(buf, p, n);
}

proof fn lemma_decode_bulk(buf: Seq<u8>, pos: int, f: FrameV)
    requires
        0 <= pos,
        pos + encoding(f).len() <= buf.len(),
        buf.subrange(pos, pos + encoding(f).len()) == encoding(f),
        text_frames(f),
        bounded(f),
        f is Bulk,
    ensures
        parse_spec(buf, pos) == Ok::<(FrameV, int), FrameError>((f, pos + encoding(f).len())),
        check_spec(buf, pos) == Ok::<int, FrameError>(pos + encoding(f).len()),
{
    let e = encoding(f);
    let p = pos + 1;
    lemma_byte(buf, pos, e, 0);
    let data = f->Bulk_0;
    let n = data.len() as u64;
    let d = decimal(n as nat);
    let k = d.len() as int;
    lemma_window(buf, pos, e, 1, 1 + k + 2);
    assert(e.subrange(1, 1 + k + 2) =~= d + crlf());
    lemma_decimal_line(buf, p, n);
    lemma_window(buf, pos, e, 1 + k + 2, 1 + k + 2 + data.len() as int);
    assert(e.subrange(1 + k + 2, 1 + k + 2 + data.len() as int) =~= data);
}

proof fn lemma_decode_null(buf: Seq<u8>, pos: int, f: FrameV)
    requires
        0 <= pos,
        pos + encoding(f).len() <= buf.len(),
        buf.subrange(pos, pos + encoding(f).len()) == encoding(f),
        text_frames(f),
        bounded(f),
        f is Null,
    ensures
        parse_spec(buf, pos) == Ok::<(FrameV, int), FrameError>((f, pos + encoding(f).len())),
        check_spec(buf, pos) == Ok::<int, FrameError>(pos + encoding(f).len()),
{
    let e = encoding(f);
    let p = pos + 1;
    lemma_byte(buf, pos, e, 0);
    let t = seq![45u8, 49u8];
    lemma_window(buf, pos, e, 1, 3);
    assert(e.subrange(1, 3) =~= t);
    lemma_byte(buf, pos, e, 1);
    lemma_byte(buf, pos, e, 3);
    lemma_byte(buf, pos, e, 4);
    assert(!crlf_at(t, 0));
    assert(!crlf_at(t, 1));
    lemma_line_of(buf, p, t);
}

/// Decoding the bytes that encode `f`, wherever they stand in a buffer,
/// gives back `f` and the position right after them.
proof fn lemma_decode_encoding(buf: Seq<u8>, pos: int, f: FrameV)
    requires
        0 <= pos,
        pos + encoding(f).len() <= buf.len(),
        buf.subrange(pos, pos + encoding(f).len()) == encoding(f),
        text_frames(f),
        bounded(f),
    ensures
        parse_spec(buf, pos) == Ok::<(FrameV, int), FrameError>((f, pos + encoding(f).len())),
        check_spec(buf, pos) == Ok::<int, FrameError>(pos + encoding(f).len()),
    decreases f, 0int,
{
    match f {
        FrameV::Array(items) => {
            let e = encoding(f);
            let p = pos + 1;
            lemma_byte(buf, pos, e, 0);
            let n = items.len() as u64;
            let d = decimal(n as nat);
            let k = d.len() as int;
            let all = encoding_all(items, items.len() as int);
            lemma_window(buf, pos, e, 1, 1 + k + 2);
            assert(e.subrange(1, 1 + k + 2) =~= d + crlf());
            lemma_decimal_line(buf, p, n);
            lemma_window(buf, pos, e, 1 + k + 2, e.len() as int);
            assert(e.subrange(1 + k + 2, e.len() as int) =~= all);
            assert forall|i: int| 0 <= i < items.len() implies text_frames(items[i]) && bounded(
                items[i],
            ) by {
                lemma_all_index(items, items.len() as int, i);
            }
            lemma_decode_items(buf, p + k + 2, items, 0);
            assert(items.subrange(0, items.len() as int) =~= items);
        },
        FrameV::Simple(_) => lemma_decode_text(buf, pos, f),
        FrameV::Error(_) => lemma_decode_text(buf, pos, f),
        FrameV::Integer(_) => lemma_decode_integer(buf, pos, f),
        FrameV::Bulk(_) => lemma_decode_bulk(buf, pos, f),
        FrameV::Null => lemma_decode_null(buf, pos, f),
    }
}

/// Decoding the encodings of `items`, from the `j`-th on, gives back those
/// items.
proof fn lemma_decode_items(buf: Seq<u8>, q: int, items: Seq<FrameV>, j: int)
    requires
        0 <= q,
        0 <= j <= items.len(),
        q + encoding_all(items, items.len() as int).len() <= buf.len(),
        buf.subrange(q, q + encoding_all(items, items.len() as int).len()) == encoding_all(
            items,
            items.len() as int,
        ),
        forall|i: int| 0 <= i < items.len() ==> text_frames(items[i]) && bounded(items[i]),
    ensures
        parse_items(buf, q + encoding_all(items, j).len(), (items.len() - j) as nat) == Ok::<
            (Seq<FrameV>, int),
            FrameError,
        >((items.subrange(j, items.len() as int), q + encoding_all(items, items.len() as int).len())),
        check_items(buf, q + encoding_all(items, j).len(), (items.len() - j) as nat) == Ok::<
            int,
            FrameError,
        >(q + encoding_all(items, items.len() as int).len()),
    decreases items, items.len() - j,
{
    let len = items.len() as int;
    let all = encoding_all(items, len);
    if j == len {
        assert(items.subrange(j, len) =~= Seq::<FrameV>::empty());
    } else {
        let before = encoding_all(items, j);
        let upto = encoding_all(items, j + 1);
        let f = items[j];
        let pj = q + before.len();
        lemma_encoding_all_prefix(items, j + 1, len);
        assert(upto == before + encoding(f));
        lemma_window(buf, q, all, before.len() as int, upto.len() as int);
        assert(all.subrange(before.len() as int, upto.len() as int) =~= encoding(f)) by {
            assert(all.subrange(0, upto.len() as int) == upto);
            assert forall|i: int| 0 <= i < encoding(f).len() implies all.subrange(
                before.len() as int,
                upto.len() as int,
            )[i] == encoding(f)[i] by {
                assert(all.subrange(0, upto.len() as int)[before.len() + i] == upto[before.len()
                    + i]);
            }
        }
        lemma_decode_encoding(buf, pj, f);
        lemma_encoding_nonempty(f);
        lemma_decode_items(buf, q, items, j + 1);
        assert(seq![f] + items.subrange(j + 1, len) =~= items.subrange(j, len));
    }
}


proof fn lemma_view_bounded(f: Frame)
    ensures
        bounded(frame_view(f)),
    decreases f, 0int,
{
    if let Frame::Array(v) = f {
        lemma_frames_view_len(v, v.len() as int);
        assert(decreases_to!(f => f->Array_0));
        lemma_items_bounded(v, v.len() as int);
    } else if let Frame::Bulk(b) = f {
        assert(b@.len() == b.len());
    }
}

proof fn lemma_items_bounded(v: Vec<Frame>, n: int)
    requires
        0 <= n <= v.len(),
    ensures
        all_bounded(frames_view(v, v.len() as int), n),
    decreases v, n,
{
    if n > 0 {
        lemma_items_bounded(v, n - 1);
        lemma_frames_view_index(v, v.len() as int, n - 1);
        vstd::std_specs::vec::axiom_vec_index_decreases(v, n - 1);
        lemma_view_bounded(v[n - 1]);
    }
}

/// Round trip: the bytes that encode a frame whose texts hold no line
/// terminator are accepted by `check` and decoded by `parse` as that same
/// frame, and both stop right after those bytes.
pub proof fn lemma_round_trip(f: Frame)
    requires
        text_frames(f@),
    ensures
        check_spec(encoding(f@), 0) == Ok::<int, FrameError>(encoding(f@).len() as int),
        parse_spec(encoding(f@), 0) == Ok::<(FrameV, int), FrameError>(
            (f@, encoding(f@).len() as int),
        ),
{
    let e = encoding(f@);
    lemma_view_bounded(f);
    assert(e.subrange(0, e.len() as int) =~= e);
    lemma_decode_encoding(e, 0, f@);
}

} // verus!
