//! The `PUBLISH` command.

use vstd::prelude::*;
use crate::frame::{Frame, SpecFrame};
use crate::parse::{Parse, ParseError, token_bytes};
use crate::pubsub::{PubSub, published};

verus! {

/// Arguments of `PUBLISH`: a channel and a message, both byte strings.
pub open spec fn publish_model(args: Seq<SpecFrame>) -> Option<(Seq<u8>, Seq<u8>)> {
    if args.len() == 2 && token_bytes(args[0]) is Some && token_bytes(args[1]) is Some {
        Some((token_bytes(args[0])->Some_0, token_bytes(args[1])->Some_0))
    } else {
        None
    }
}

/// Post a message to a channel.
#[derive(Debug)]
pub struct Publish {
    channel: Vec<u8>,
    message: Vec<u8>,
}

impl Publish {
    pub closed spec fn spec_channel(&self) -> Seq<u8> {
        self.channel@
    }

    pub closed spec fn spec_message(&self) -> Seq<u8> {
        self.message@
    }

    /// Create a new `Publish` command posting `message` on `channel`.
    pub fn new(channel: Vec<u8>, message: Vec<u8>) -> (r: Publish)
        ensures
            r.spec_channel() == channel@,
            r.spec_message() == message@,
    {
        Publish { channel, message }
    }

    /// Hand the channel and message over.
    pub fn into_parts(self) -> (r: (Vec<u8>, Vec<u8>))
        ensures
            r.0@ == self.spec_channel(),
            r.1@ == self.spec_message(),
    {
        (self.channel, self.message)
    }

    /// Read the argument tokens of a `PUBLISH`.
    pub fn parse_frames(parse: &mut Parse) -> (r: Result<Publish, ParseError>)
        ensures
            match r {
                Ok(p) => old(parse).remaining().len() >= 2 && token_bytes(
                    old(parse).remaining()[0],
                ) == Some(p.spec_channel()) && token_bytes(old(parse).remaining()[1]) == Some(
                    p.spec_message(),
                ) && final(parse).remaining() == old(parse).remaining().skip(2),
                Err(_) => old(parse).remaining().len() < 2 || token_bytes(
                    old(parse).remaining()[0],
                ) is None || token_bytes(old(parse).remaining()[1]) is None,
            },
    {
        let channel = match parse.next_bytes() {
            Ok(b) => b,
            Err(e) => {
                return Err(e);
            },
        };
        let message = match parse.next_bytes() {
            Ok(b) => b,
            Err(e) => {
                return Err(e);
            },
        };
        proof {
            assert(old(parse).remaining().drop_first().drop_first() =~= old(
                parse,
            ).remaining().skip(2));
            assert(old(parse).remaining().drop_first()[0] == old(parse).remaining()[1]);
        }
        Ok(Publish { channel, message })
    }

    /// Fan the message out and answer with the subscriber count, a hint:
    /// zero when nobody listens.
    pub fn apply(self, ps: &mut PubSub) -> (resp: Frame)
        requires
            old(ps).wf(),
        ensures
            final(ps).wf(),
            resp@ == SpecFrame::Integer(old(ps).spec_sub_count(self.spec_channel()) as u64),
            final(ps).spec_capacity() == old(ps).spec_capacity(),
            final(ps).spec_next_sub_id() == old(ps).spec_next_sub_id(),
            forall|n: Seq<u8>|
                n != self.spec_channel() ==> #[trigger] final(ps).spec_chan(n) == old(
                    ps,
                ).spec_chan(n),
            published(
                old(ps).spec_chan(self.spec_channel()),
                final(ps).spec_chan(self.spec_channel()),
                self.spec_message(),
                old(ps).spec_capacity(),
            ),
    {
        let count = ps.publish(&self.channel, &self.message);
        Frame::Integer(count as u64)
    }

    /// The wire form of this command: `["publish", channel, message]`.
    pub fn into_frame(self) -> (r: Frame)
        ensures
            r@ == SpecFrame::Array(
                seq![
                    SpecFrame::Bulk(crate::cmd::kw_publish()),
                    SpecFrame::Bulk(self.spec_channel()),
                    SpecFrame::Bulk(self.spec_message()),
                ],
            ),
    {
        let mut frame = Frame::array();
        let name: Vec<u8> = vec![112u8, 117u8, 98u8, 108u8, 105u8, 115u8, 104u8];
        proof {
            assert(name@ =~= crate::cmd::kw_publish());
        }
        frame.push_bulk(name);
        frame.push_bulk(self.channel);
        frame.push_bulk(self.message);
        proof {
            assert(Seq::<SpecFrame>::empty().push(SpecFrame::Bulk(crate::cmd::kw_publish())).push(
                SpecFrame::Bulk(self.spec_channel()),
            ).push(SpecFrame::Bulk(self.spec_message())) =~= seq![
                SpecFrame::Bulk(crate::cmd::kw_publish()),
                SpecFrame::Bulk(self.spec_channel()),
                SpecFrame::Bulk(self.spec_message()),
            ]);
        }
        frame
    }
}

} // verus!
