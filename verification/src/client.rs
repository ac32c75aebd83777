//! Client-side reading of server responses.
//!
//! The socket I/O lives outside the library; these functions decide what a
//! received frame means for each request, and keep the subscriber's channel
//! bookkeeping.

use vstd::prelude::*;
use crate::frame::{Frame, SpecFrame};
use crate::parse::token_bytes;
use crate::cmd::{kw_subscribe, kw_unsubscribe};
use crate::cmd::set::ok_bytes;
use crate::cmd::subscribe::{kw_message, bytes_list_model};

verus! {

/// Why a response was rejected by the client.
#[derive(Debug, Clone, Copy, PartialEq, Eq, Structural)]
pub enum ClientError {
    /// The server answered a frame of an unexpected shape.
    UnexpectedFrame,
}

/// A message received on a subscribed channel.
#[derive(Debug)]
pub struct Message {
    pub channel: Vec<u8>,
    pub content: Vec<u8>,
}

/// An error frame is the server refusing the request; any other frame is
/// the answer itself.
pub fn response_or_error(frame: Frame) -> (r: Result<Frame, Vec<u8>>)
    ensures
        match r {
            Ok(f) => f@ == frame@ && !(frame@ is Error),
            Err(m) => frame@ == SpecFrame::Error(m@),
        },
{
    match frame {
        Frame::Error(m) => Err(m),
        f => Ok(f),
    }
}

/// What a `GET` answer means: the value, or nothing for `Null`.
pub fn interpret_get_response(frame: Frame) -> (r: Result<Option<Vec<u8>>, ClientError>)
    ensures
        match frame@ {
            SpecFrame::Simple(s) => r matches Ok(o) && o matches Some(v) && v@ == s,
            SpecFrame::Bulk(s) => r matches Ok(o) && o matches Some(v) && v@ == s,
            SpecFrame::Null => r == Ok::<Option<Vec<u8>>, ClientError>(None),
            _ => r == Err::<Option<Vec<u8>>, ClientError>(ClientError::UnexpectedFrame),
        },
{
    match frame {
        Frame::Simple(v) => Ok(Some(v)),
        Frame::Bulk(v) => Ok(Some(v)),
        Frame::Null => Ok(None),
        _ => Err(ClientError::UnexpectedFrame),
    }
}

/// What a `SET` answer means: only `Simple("OK")` is success.
pub fn interpret_set_response(frame: Frame) -> (r: Result<(), ClientError>)
    ensures
        r is Ok <==> frame@ == SpecFrame::Simple(ok_bytes()),
{
    match frame {
        Frame::Simple(s) => {
            let ok: Vec<u8> = vec![79u8, 75u8];
            proof {
                assert(ok@ =~= ok_bytes());
            }
            if crate::bytes_eq(&s, &ok) {
                Ok(())
            } else {
                Err(ClientError::UnexpectedFrame)
            }
        },
        _ => Err(ClientError::UnexpectedFrame),
    }
}

/// What a `PUBLISH` answer means: the subscriber count.
pub fn interpret_publish_response(frame: Frame) -> (r: Result<u64, ClientError>)
    ensures
        match frame@ {
            SpecFrame::Integer(n) => r == Ok::<u64, ClientError>(n),
            _ => r == Err::<u64, ClientError>(ClientError::UnexpectedFrame),
        },
{
    match frame {
        Frame::Integer(n) => Ok(n),
        _ => Err(ClientError::UnexpectedFrame),
    }
}

/// A subscribe acknowledgement for `channel`: an array starting
/// `["subscribe", channel, ...]`.
pub open spec fn is_subscribe_ack(f: SpecFrame, channel: Seq<u8>) -> bool {
    f matches SpecFrame::Array(elems) && elems.len() >= 2 && elems[0].is_bytes(kw_subscribe())
        && elems[1].is_bytes(channel)
}

/// Check one subscribe acknowledgement during the handshake.
pub fn check_subscribe_ack(frame: &Frame, channel: &Vec<u8>) -> (r: bool)
    ensures
        r == is_subscribe_ack(frame@, channel@),
{
    match frame {
        Frame::Array(elems) => {
            if elems.len() < 2 {
                proof {
                    crate::frame::lemma_frames_model(elems@);
                }
                return false;
            }
            proof {
                crate::frame::lemma_frames_model(elems@);
            }
            let kw: Vec<u8> = vec![115u8, 117u8, 98u8, 115u8, 99u8, 114u8, 105u8, 98u8, 101u8];
            proof {
                assert(kw@ =~= kw_subscribe());
            }
            elems[0].eq_bytes(&kw) && elems[1].eq_bytes(channel)
        },
        _ => false,
    }
}

/// An unsubscribe acknowledgement: an array starting
/// `["unsubscribe", channel, ...]`; gives the channel's bytes back.
pub open spec fn unsubscribe_ack_channel(f: SpecFrame) -> Option<Seq<u8>> {
    if f matches SpecFrame::Array(elems) && elems.len() >= 2 && elems[0].is_bytes(
        kw_unsubscribe(),
    ) {
        token_bytes(f->Array_0[1])
    } else {
        None
    }
}

/// Check one unsubscribe acknowledgement and extract its channel.
pub fn read_unsubscribe_ack(frame: &Frame) -> (r: Result<Vec<u8>, ClientError>)
    ensures
        match unsubscribe_ack_channel(frame@) {
            Some(ch) => r matches Ok(v) && v@ == ch,
            None => r == Err::<Vec<u8>, ClientError>(ClientError::UnexpectedFrame),
        },
{
    match frame {
        Frame::Array(elems) => {
            if elems.len() < 2 {
                proof {
                    crate::frame::lemma_frames_model(elems@);
                }
                return Err(ClientError::UnexpectedFrame);
            }
            proof {
                crate::frame::lemma_frames_model(elems@);
            }
            let kw: Vec<u8> = vec![
                117u8,
                110u8,
                115u8,
                117u8,
                98u8,
                115u8,
                99u8,
                114u8,
                105u8,
                98u8,
                101u8,
            ];
            proof {
                assert(kw@ =~= kw_unsubscribe());
            }
            if !elems[0].eq_bytes(&kw) {
                return Err(ClientError::UnexpectedFrame);
            }
            proof {
                assert(crate::frame::frames_model(elems@)[1] == elems@[1].model());
            }
            match &elems[1] {
                Frame::Simple(s) => Ok(crate::clone_bytes(s)),
                Frame::Bulk(s) => Ok(crate::clone_bytes(s)),
                _ => Err(ClientError::UnexpectedFrame),
            }
        },
        _ => Err(ClientError::UnexpectedFrame),
    }
}

/// A pushed message: exactly `["message", channel, payload]`.
pub open spec fn message_model(f: SpecFrame) -> Option<(Seq<u8>, Seq<u8>)> {
    if f matches SpecFrame::Array(elems) && elems.len() == 3 && elems[0].is_bytes(kw_message())
        && token_bytes(elems[1]) is Some && token_bytes(elems[2]) is Some {
        Some((token_bytes(f->Array_0[1])->Some_0, token_bytes(f->Array_0[2])->Some_0))
    } else {
        None
    }
}

/// Read one pushed message from the subscription stream.
pub fn interpret_message(frame: &Frame) -> (r: Result<Message, ClientError>)
    ensures
        match message_model(frame@) {
            Some(cm) => r matches Ok(m) && m.channel@ == cm.0 && m.content@ == cm.1,
            None => r == Err::<Message, ClientError>(ClientError::UnexpectedFrame),
        },
{
    match frame {
        Frame::Array(elems) => {
            if elems.len() != 3 {
                proof {
                    crate::frame::lemma_frames_model(elems@);
                }
                return Err(ClientError::UnexpectedFrame);
            }
            proof {
                crate::frame::lemma_frames_model(elems@);
            }
            let kw: Vec<u8> = vec![109u8, 101u8, 115u8, 115u8, 97u8, 103u8, 101u8];
            proof {
                assert(kw@ =~= kw_message());
            }
            if !elems[0].eq_bytes(&kw) {
                return Err(ClientError::UnexpectedFrame);
            }
            proof {
                assert(crate::frame::frames_model(elems@)[1] == elems@[1].model());
                assert(crate::frame::frames_model(elems@)[2] == elems@[2].model());
            }
            let channel = match &elems[1] {
                Frame::Simple(s) => crate::clone_bytes(s),
                Frame::Bulk(s) => crate::clone_bytes(s),
                _ => {
                    return Err(ClientError::UnexpectedFrame);
                },
            };
            let content = match &elems[2] {
                Frame::Simple(s) => crate::clone_bytes(s),
                Frame::Bulk(s) => crate::clone_bytes(s),
                _ => {
                    return Err(ClientError::UnexpectedFrame);
                },
            };
            Ok(Message { channel, content })
        },
        _ => Err(ClientError::UnexpectedFrame),
    }
}

/// A channel list with every occurrence of `t` dropped, order kept.
pub open spec fn drop_channel(s: Seq<Seq<u8>>, t: Seq<u8>) -> Seq<Seq<u8>>
    decreases s.len(),
{
    if s.len() == 0 {
        Seq::empty()
    } else if s[0] == t {
        drop_channel(s.drop_first(), t)
    } else {
        seq![s[0]] + drop_channel(s.drop_first(), t)
    }
}

/// The subscriber's bookkeeping after one unsubscribe acknowledgement:
/// the acknowledged channel leaves the subscribed list.
pub fn remove_channel(channels: &Vec<Vec<u8>>, target: &Vec<u8>) -> (r: Vec<Vec<u8>>)
    ensures
        bytes_list_model(r@) == drop_channel(bytes_list_model(channels@), target@),
{
    let mut out: Vec<Vec<u8>> = Vec::new();
    proof {
        assert(bytes_list_model(channels@).take(0) =~= Seq::<Seq<u8>>::empty());
        assert(drop_channel(Seq::<Seq<u8>>::empty(), target@) =~= bytes_list_model(out@));
    }
    let mut i: usize = 0;
    while i < channels.len()
        invariant
            i <= channels@.len(),
            bytes_list_model(out@) == drop_channel(
                bytes_list_model(channels@).take(i as int),
                target@,
            ),
        decreases channels@.len() - i,
    {
        let ghost pre = bytes_list_model(channels@).take(i as int);
        let ghost outm = bytes_list_model(out@);
        if !crate::bytes_eq(&channels[i], target) {
            let c = crate::clone_bytes(&channels[i]);
            out.push(c);
        }
        proof {
            let post = bytes_list_model(channels@).take(i + 1);
            assert(post =~= pre.push(channels@[i as int]@));
            lemma_drop_channel_snoc(pre, channels@[i as int]@, target@);
            if channels@[i as int]@ != target@ {
                assert(bytes_list_model(out@) =~= outm.push(channels@[i as int]@));
            }
        }
        i = i + 1;
    }
    proof {
        assert(bytes_list_model(channels@).take(channels@.len() as int) =~= bytes_list_model(
            channels@,
        ));
    }
    out
}

proof fn lemma_drop_channel_snoc(s: Seq<Seq<u8>>, x: Seq<u8>, t: Seq<u8>)
    ensures
        drop_channel(s.push(x), t) == (if x == t {
            drop_channel(s, t)
        } else {
            drop_channel(s, t).push(x)
        }),
    decreases s.len(),
{
    if s.len() == 0 {
        assert(s.push(x)[0] == x);
        assert(s.push(x).drop_first() =~= Seq::<Seq<u8>>::empty());
        assert(drop_channel(Seq::<Seq<u8>>::empty(), t) =~= Seq::<Seq<u8>>::empty());
        if x != t {
            assert(seq![x] + Seq::<Seq<u8>>::empty() =~= drop_channel(
                Seq::<Seq<u8>>::empty(),
                t,
            ).push(x));
        }
    } else {
        assert(s.push(x)[0] == s[0]);
        assert(s.push(x).drop_first() =~= s.drop_first().push(x));
        lemma_drop_channel_snoc(s.drop_first(), x, t);
        if s[0] != t && x != t {
            assert(seq![s[0]] + drop_channel(s.drop_first(), t).push(x) =~= (seq![s[0]]
                + drop_channel(s.drop_first(), t)).push(x));
        }
    }
}

} // verus!
