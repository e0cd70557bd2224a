//! How a client reads the server's replies.
use vstd::prelude::*;
use vstd::string::*;
use vstd::utf8::*;

use crate::cmd::texts;
use crate::frame::{frame_view, Frame, FrameV};
use crate::parse::string_of;

verus! {

/// What `str::to_uppercase` makes of a text.
pub uninterp spec fn upper_of(s: Seq<char>) -> Seq<char>;

/// Relies on str::to_uppercase: the result depends on the characters alone.
#[verifier::external_body]
fn uppercase(s: &String) -> (r: String)
    ensures
        r@ == upper_of(s@),
{
    s.as_str().to_uppercase()
}

/// Whether an element holds the text `t`: a simple frame with that text,
/// or a bulk frame with its UTF-8 bytes.
pub open spec fn holds_text(f: FrameV, t: Seq<char>) -> bool {
    match f {
        FrameV::Simple(s) => s == t,
        FrameV::Bulk(d) => d == encode_utf8(t),
        _ => false,
    }
}

/// Whether `a` and `b` hold the same bytes.
fn same_bytes(a: &[u8], b: &[u8]) -> (r: bool)
    ensures
        r == (a@ == b@),
{
    if a.len() != b.len() {
        return false;
    }
    let mut i: usize = 0;
    while i < a.len()
        invariant
            i <= a.len(),
            a.len() == b.len(),
            forall|j: int| 0 <= j < i ==> a@[j] == b@[j],
        decreases a.len() - i,
    {
        if a[i] != b[i] {
            return false;
        }
        i = i + 1;
    }
    proof {
        assert(a@ =~= b@);
    }
    true
}

/// Whether `frame` holds the text `text`.
pub fn frame_is_text(frame: &Frame, text: &str) -> (r: bool)
    ensures
        r == holds_text(frame@, text@),
{
    match frame {
        Frame::Simple(s) => {
            let t = String::from_str(text);
            *s == t
        },
        Frame::Bulk(d) => same_bytes(d.as_slice(), text.as_bytes()),
        _ => false,
    }
}

/// The reply to PING: the text of a simple frame or the bytes of a bulk
/// frame; any other frame is handed back as unexpected.
pub fn ping_result(frame: Frame) -> (r: Result<Vec<u8>, Frame>)
    ensures
        match frame@ {
            FrameV::Simple(s) => r matches Ok(v) && v@ == encode_utf8(s),
            FrameV::Bulk(d) => r matches Ok(v) && v@ == d,
            f => r matches Err(g) && g@ == f,
        },
{
    match frame {
        Frame::Simple(s) => Ok(s.as_str().as_bytes_vec()),
        Frame::Bulk(d) => Ok(d),
        other => Err(other),
    }
}

/// The reply to GET: the value, or `None` for a null frame.
pub fn get_result(frame: Frame) -> (r: Result<Option<Vec<u8>>, Frame>)
    ensures
        match frame@ {
            FrameV::Simple(s) => r matches Ok(Some(v)) && v@ == encode_utf8(s),
            FrameV::Bulk(d) => r matches Ok(Some(v)) && v@ == d,
            FrameV::Null => r matches Ok(None),
            f => r matches Err(g) && g@ == f,
        },
{
    match frame {
        Frame::Simple(s) => Ok(Some(s.as_str().as_bytes_vec())),
        Frame::Bulk(d) => Ok(Some(d)),
        Frame::Null => Ok(None),
        other => Err(other),
    }
}

/// The reply to SET: a simple frame reading OK in any case.
pub fn set_result(frame: Frame) -> (r: Result<(), Frame>)
    ensures
        match frame@ {
            FrameV::Simple(s) => if upper_of(s) == "OK"@ {
                r is Ok
            } else {
                r matches Err(g) && g@ == frame@
            },
            f => r matches Err(g) && g@ == f,
        },
{
    let ok = match &frame {
        Frame::Simple(s) => {
            let upper = uppercase(s);
            let expected = String::from_str("OK");
            upper == expected
        },
        _ => false,
    };
    if ok {
        Ok(())
    } else {
        Err(frame)
    }
}

/// The reply to PUBLISH: the number of receivers reached.
pub fn publish_result(frame: Frame) -> (r: Result<u64, Frame>)
    ensures
        match frame@ {
            FrameV::Integer(n) => r == Ok::<u64, Frame>(n),
            f => r matches Err(g) && g@ == f,
        },
{
    match frame {
        Frame::Integer(n) => Ok(n),
        other => Err(other),
    }
}

/// Whether a reply to SUBSCRIBE confirms `channel`: an array whose first
/// two elements hold "subscribe" and the channel.
pub open spec fn confirms_subscribe(f: FrameV, channel: Seq<char>) -> bool {
    f matches FrameV::Array(items) && items.len() >= 2 && holds_text(items[0], "subscribe"@)
        && holds_text(items[1], channel)
}

pub fn subscribe_confirmed(frame: &Frame, channel: &String) -> (r: bool)
    ensures
        r == confirms_subscribe(frame@, channel@),
{
    match frame {
        Frame::Array(items) => {
            proof {
                crate::frame::lemma_frames_view_len(*items, items.len() as int);
            }
            if items.len() < 2 {
                return false;
            }
            proof {
                crate::frame::lemma_frames_view_index(*items, items.len() as int, 0);
                crate::frame::lemma_frames_view_index(*items, items.len() as int, 1);
            }
            frame_is_text(&items[0], "subscribe") && frame_is_text(&items[1], channel.as_str())
        },
        _ => false,
    }
}

/// The channel and content of a pushed message: an array of three
/// elements, "message", the channel as text, and the content as bulk bytes.
pub open spec fn message_parts(f: FrameV) -> Option<(Seq<char>, Seq<u8>)> {
    match f {
        FrameV::Array(items) => if items.len() == 3 && holds_text(items[0], "message"@)
            && items[2] is Bulk && string_of(items[1]) is Ok {
            Some((string_of(items[1])->Ok_0, items[2]->Bulk_0))
        } else {
            None
        },
        _ => None,
    }
}

/// The text of an element, as `string_of` reads it.
fn text_of(frame: Frame) -> (r: Option<String>)
    ensures
        match string_of(frame@) {
            Ok(t) => r matches Some(s) && s@ == t,
            Err(_) => r is None,
        },
{
    match frame {
        Frame::Simple(s) => Some(s),
        Frame::Bulk(d) => crate::frame::utf8_string(d),
        _ => None,
    }
}

/// Reads a pushed message.
pub fn message_of(frame: Frame) -> (r: Option<(String, Vec<u8>)>)
    ensures
        match message_parts(frame@) {
            Some((c, m)) => r matches Some((c2, m2)) && c2@ == c && m2@ == m,
            None => r is None,
        },
{
    match frame {
        Frame::Array(mut items) => {
            proof {
                crate::frame::lemma_frames_view_len(items, items.len() as int);
            }
            if items.len() != 3 {
                return None;
            }
            proof {
                crate::frame::lemma_frames_view_index(items, 3, 0);
                crate::frame::lemma_frames_view_index(items, 3, 1);
                crate::frame::lemma_frames_view_index(items, 3, 2);
            }
            let ghost all = items@;
            let content = items.pop().unwrap();
            let channel = items.pop().unwrap();
            let tag = items.pop().unwrap();
            assert(tag == all[0] && channel == all[1] && content == all[2]);
            if !frame_is_text(&tag, "message") {
                return None;
            }
            let data = match content {
                Frame::Bulk(d) => d,
                _ => return None,
            };
            match text_of(channel) {
                Some(c) => Some((c, data)),
                None => None,
            }
        },
        _ => None,
    }
}

/// `channels` without any entry holding `c`.
pub open spec fn without(channels: Seq<Seq<char>>, c: Seq<char>) -> Seq<Seq<char>>
    decreases channels.len(),
{
    if channels.len() == 0 {
        channels
    } else if channels[0] == c {
        without(channels.drop_first(), c)
    } else {
        seq![channels[0]] + without(channels.drop_first(), c)
    }
}

/// The channel a reply to UNSUBSCRIBE confirms: an array whose first
/// element holds "unsubscribe" and whose second is the channel's text.
pub open spec fn unsubscribed_channel(f: FrameV) -> Option<Seq<char>> {
    match f {
        FrameV::Array(items) => if items.len() >= 2 && holds_text(items[0], "unsubscribe"@)
            && string_of(items[1]) is Ok {
            Some(string_of(items[1])->Ok_0)
        } else {
            None
        },
        _ => None,
    }
}

/// Takes a reply to UNSUBSCRIBE into account: the confirmed channel leaves
/// `channels`. Fails, with `channels` left as they are, on a reply that is
/// not a confirmation or when no channel is listed, and, with the channel
/// removed, unless exactly one entry held it.
pub fn unsubscribe_confirmed(channels: &mut Vec<String>, frame: &Frame) -> (r: bool)
    ensures
        match unsubscribed_channel(frame@) {
            Some(c) => if texts(old(channels)@).len() == 0 {
                !r && final(channels)@ == old(channels)@
            } else {
                texts(final(channels)@) == without(texts(old(channels)@), c) && r == (
                texts(final(channels)@).len() + 1 == texts(old(channels)@).len())
            },
            None => !r && final(channels)@ == old(channels)@,
        },
{
    let channel = match frame {
        Frame::Array(items) => {
            if items.len() < 2 {
                proof {
                    crate::frame::lemma_frames_view_len(*items, items.len() as int);
                }
                return false;
            }
            proof {
                crate::frame::lemma_frames_view_index(*items, items.len() as int, 0);
                crate::frame::lemma_frames_view_index(*items, items.len() as int, 1);
            }
            if !frame_is_text(&items[0], "unsubscribe") {
                return false;
            }
            let name = match &items[1] {
                Frame::Simple(s) => Some(s.clone()),
                Frame::Bulk(d) => crate::frame::utf8_string(vstd::slice::slice_to_vec(d.as_slice())),
                _ => None,
            };
            match name {
                Some(n) => n,
                None => return false,
            }
        },
        _ => return false,
    };
    let len = channels.len();
    if len == 0 {
        return false;
    }
    let ghost all = texts(channels@);
    let mut kept: Vec<String> = Vec::new();
    let mut i: usize = 0;
    proof {
        assert(all.subrange(0, all.len() as int) =~= all);
        assert(texts(kept@) + without(all, channel@) =~= without(all, channel@));
    }
    while i < channels.len()
        invariant
            i <= channels@.len(),
            all == texts(channels@),
            without(all, channel@) == texts(kept@) + without(all.subrange(i as int, all.len() as int), channel@),
        decreases channels@.len() - i,
    {
        let ghost rest = all.subrange(i as int, all.len() as int);
        proof {
            assert(rest[0] == all[i as int]);
            assert(rest.drop_first() =~= all.subrange(i + 1, all.len() as int));
        }
        if channels[i] != channel {
            let ghost before = kept@;
            kept.push(channels[i].clone());
            proof {
                assert(texts(kept@) =~= texts(before).push(all[i as int]));
                assert(texts(before) + (seq![all[i as int]] + without(rest.drop_first(), channel@))
                    =~= texts(kept@) + without(rest.drop_first(), channel@));
            }
        }
        i = i + 1;
    }
    proof {
        assert(all.subrange(i as int, all.len() as int) =~= Seq::<Seq<char>>::empty());
        assert(texts(kept@) + Seq::<Seq<char>>::empty() =~= texts(kept@));
    }
    let removed_one = kept.len() == len - 1;
    *channels = kept;
    removed_one
}

} // verus!
