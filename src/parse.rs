//! Positional reading of the elements of an array frame.
use vstd::prelude::*;
use vstd::utf8::*;
use vstd::string::*;

use crate::frame::{decimal_value, read_decimal, utf8_string, frame_view, frames_view, Frame, FrameV};

verus! {

/// Why the elements of a frame do not make the expected arguments.
#[derive(Debug, Clone, Copy, PartialEq, Eq, Structural)]
pub enum ParseError {
    /// The frame given to `Parse::new` is not an array.
    NotArray,
    /// No element is left.
    EndOfStream,
    /// The element is of a kind that cannot be read as asked.
    UnexpectedFrame,
    /// A bulk element read as text is not UTF-8.
    InvalidString,
    /// The element does not hold a number.
    InvalidInteger,
    /// Elements are left after the last expected one.
    Trailing,
    /// SET was given an option other than EX or PX.
    UnknownOption,
}

/// The text an element stands for, if it stands for one.
pub open spec fn string_of(f: FrameV) -> Result<Seq<char>, ParseError> {
    match f {
        FrameV::Simple(s) => Ok(s),
        FrameV::Bulk(d) => if valid_utf8(d) {
            Ok(decode_utf8(d))
        } else {
            Err(ParseError::InvalidString)
        },
        _ => Err(ParseError::UnexpectedFrame),
    }
}

/// The bytes an element stands for, if it stands for any.
pub open spec fn bytes_of(f: FrameV) -> Result<Seq<u8>, ParseError> {
    match f {
        FrameV::Simple(s) => Ok(encode_utf8(s)),
        FrameV::Bulk(d) => Ok(d),
        _ => Err(ParseError::UnexpectedFrame),
    }
}

/// The number an element stands for, if it stands for one.
pub open spec fn int_of(f: FrameV) -> Result<u64, ParseError> {
    match f {
        FrameV::Integer(n) => Ok(n),
        FrameV::Simple(s) => match decimal_value(encode_utf8(s)) {
            Some(n) => Ok(n),
            None => Err(ParseError::InvalidInteger),
        },
        FrameV::Bulk(d) => match decimal_value(d) {
            Some(n) => Ok(n),
            None => Err(ParseError::InvalidInteger),
        },
        _ => Err(ParseError::UnexpectedFrame),
    }
}

/// The elements of an array frame, read one after the other.
#[derive(Debug)]
pub struct Parse {
    items: Vec<Frame>,
}

impl Parse {
    /// The elements not read yet.
    pub closed spec fn rest(&self) -> Seq<FrameV> {
        self.items@.map_values(|f: Frame| frame_view(f))
    }

    /// Starts reading the elements of `frame`, which must be an array.
    pub fn new(frame: Frame) -> (r: Result<Parse, ParseError>)
        ensures
            frame@ is Array ==> (r matches Ok(p) && p.rest() == frame@->Array_0),
            !(frame@ is Array) ==> r == Err::<Parse, ParseError>(ParseError::NotArray),
    {
        match frame {
            Frame::Array(items) => {
                let p = Parse { items };
                proof {
                    crate::frame::lemma_frames_view_len(items, items.len() as int);
                    assert forall|i: int| 0 <= i < items.len() implies p.rest()[i] == frames_view(
                        items,
                        items.len() as int,
                    )[i] by {
                        crate::frame::lemma_frames_view_index(items, items.len() as int, i);
                    }
                    assert(p.rest() =~= frames_view(items, items.len() as int));
                }
                Ok(p)
            },
            _ => Err(ParseError::NotArray),
        }
    }

    /// Takes the next element.
    fn next(&mut self) -> (r: Result<Frame, ParseError>)
        ensures
            old(self).rest().len() == 0 ==> r == Err::<Frame, ParseError>(ParseError::EndOfStream)
                && final(self).rest() == old(self).rest(),
            old(self).rest().len() > 0 ==> (r matches Ok(f) && f@ == old(self).rest()[0]
                && final(self).rest() == old(self).rest().drop_first()),
    {
        if self.items.len() == 0 {
            return Err(ParseError::EndOfStream);
        }
        let f = self.items.remove(0);
        proof {
            assert(self.rest() =~= old(self).rest().drop_first());
        }
        Ok(f)
    }

    /// Reads the next element as text: a simple frame, or a bulk frame
    /// holding UTF-8.
    pub fn next_string(&mut self) -> (r: Result<String, ParseError>)
        ensures
            old(self).rest().len() == 0 ==> r == Err::<String, ParseError>(ParseError::EndOfStream)
                && final(self).rest() == old(self).rest(),
            old(self).rest().len() > 0 ==> final(self).rest() == old(self).rest().drop_first() && (
            match string_of(old(self).rest()[0]) {
                Ok(s) => r matches Ok(t) && t@ == s,
                Err(e) => r == Err::<String, ParseError>(e),
            }),
    {
        match self.next() {
            Ok(Frame::Simple(s)) => Ok(s),
            Ok(Frame::Bulk(data)) => match utf8_string(data) {
                Some(s) => Ok(s),
                None => Err(ParseError::InvalidString),
            },
            Ok(_) => Err(ParseError::UnexpectedFrame),
            Err(e) => Err(e),
        }
    }

    /// Reads the next element as raw bytes: a bulk frame, or the UTF-8 bytes
    /// of a simple frame.
    pub fn next_bytes(&mut self) -> (r: Result<Vec<u8>, ParseError>)
        ensures
            old(self).rest().len() == 0 ==> r == Err::<Vec<u8>, ParseError>(ParseError::EndOfStream)
                && final(self).rest() == old(self).rest(),
            old(self).rest().len() > 0 ==> final(self).rest() == old(self).rest().drop_first() && (
            match bytes_of(old(self).rest()[0]) {
                Ok(b) => r matches Ok(v) && v@ == b,
                Err(e) => r == Err::<Vec<u8>, ParseError>(e),
            }),
    {
        match self.next() {
            Ok(Frame::Simple(s)) => Ok(s.as_str().as_bytes_vec()),
            Ok(Frame::Bulk(data)) => Ok(data),
            Ok(_) => Err(ParseError::UnexpectedFrame),
            Err(e) => Err(e),
        }
    }

    /// Reads the next element as a number: an integer frame, or the decimal
    /// text of a simple or bulk frame.
    pub fn next_int(&mut self) -> (r: Result<u64, ParseError>)
        ensures
            old(self).rest().len() == 0 ==> r == Err::<u64, ParseError>(ParseError::EndOfStream)
                && final(self).rest() == old(self).rest(),
            old(self).rest().len() > 0 ==> final(self).rest() == old(self).rest().drop_first() && r
                == int_of(old(self).rest()[0]),
    {
        match self.next() {
            Ok(Frame::Integer(v)) => Ok(v),
            Ok(Frame::Simple(s)) => match read_decimal(s.as_str().as_bytes()) {
                Some(v) => Ok(v),
                None => Err(ParseError::InvalidInteger),
            },
            Ok(Frame::Bulk(data)) => match read_decimal(data.as_slice()) {
                Some(v) => Ok(v),
                None => Err(ParseError::InvalidInteger),
            },
            Ok(_) => Err(ParseError::UnexpectedFrame),
            Err(e) => Err(e),
        }
    }

    /// Succeeds when every element has been read.
    pub fn is_finish(&mut self) -> (r: Result<(), ParseError>)
        ensures
            old(self).rest().len() == 0 <==> r is Ok,
            r is Err ==> r == Err::<(), ParseError>(ParseError::Trailing),
    {
        if self.items.len() == 0 {
            Ok(())
        } else {
            Err(ParseError::Trailing)
        }
    }
}

} // verus!
