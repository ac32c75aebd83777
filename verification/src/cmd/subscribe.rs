//! The `SUBSCRIBE` and `UNSUBSCRIBE` commands, and the frames the
//! subscribe state sends.

use vstd::prelude::*;
use crate::frame::{Frame, SpecFrame};
use crate::parse::{Parse, ParseError, token_bytes};

verus! {

/// `message`
pub open spec fn kw_message() -> Seq<u8> {
    seq![109u8, 101u8, 115u8, 115u8, 97u8, 103u8, 101u8]
}

/// A channel list: every token must be a byte string.
pub open spec fn channels_model(args: Seq<SpecFrame>) -> Option<Seq<Seq<u8>>>
    decreases args.len(),
{
    if args.len() == 0 {
        Some(Seq::empty())
    } else {
        match token_bytes(args[0]) {
            Some(b) => match channels_model(args.drop_first()) {
                Some(rest) => Some(seq![b] + rest),
                None => None,
            },
            None => None,
        }
    }
}

/// The elements of a byte-string list, as sequences.
pub open spec fn bytes_list_model(v: Seq<Vec<u8>>) -> Seq<Seq<u8>> {
    Seq::new(v.len(), |i: int| v[i]@)
}

/// The bulk frames of a channel list, in order.
pub open spec fn bulks_of(chs: Seq<Seq<u8>>) -> Seq<SpecFrame> {
    Seq::new(chs.len(), |i: int| SpecFrame::Bulk(chs[i]))
}

/// Subscribe the connection to one or more channels.
#[derive(Debug)]
pub struct Subscribe {
    channels: Vec<Vec<u8>>,
}

/// Unsubscribe the connection from the given channels, or from all of
/// them when none is given.
#[derive(Debug)]
pub struct Unsubscribe {
    channels: Vec<Vec<u8>>,
}

/// Read byte-string tokens until the list runs out.
fn parse_channel_list(parse: &mut Parse) -> (r: Result<Vec<Vec<u8>>, ParseError>)
    ensures
        match r {
            Ok(chs) => channels_model(old(parse).remaining()) == Some(bytes_list_model(chs@))
                && final(parse).remaining().len() == 0,
            Err(_) => channels_model(old(parse).remaining()) is None,
        },
{
    let mut channels: Vec<Vec<u8>> = Vec::new();
    proof {
        match channels_model(parse.remaining()) {
            Some(rest) => {
                assert(bytes_list_model(channels@) + rest =~= rest);
            },
            None => {},
        }
    }
    loop
        invariant
            match channels_model(parse.remaining()) {
                Some(rest) => channels_model(old(parse).remaining()) == Some(
                    bytes_list_model(channels@) + rest,
                ),
                None => channels_model(old(parse).remaining()) is None,
            },
        decreases parse.remaining().len(),
    {
        let ghost rem_b = parse.remaining();
        let ghost chans_b = channels@;
        match parse.next_bytes() {
            Ok(ch) => {
                let ghost chm = ch@;
                channels.push(ch);
                proof {
                    assert(bytes_list_model(chans_b.push(channels@[channels@.len() - 1]))
                        =~= bytes_list_model(chans_b).push(chm));
                    match channels_model(rem_b.drop_first()) {
                        Some(rest2) => {
                            assert(bytes_list_model(chans_b) + (seq![chm] + rest2)
                                =~= bytes_list_model(channels@) + rest2);
                        },
                        None => {},
                    }
                }
            },
            Err(ParseError::EndOfStream) => {
                proof {
                    assert(bytes_list_model(channels@) + Seq::<Seq<u8>>::empty()
                        =~= bytes_list_model(channels@));
                }
                return Ok(channels);
            },
            Err(e) => {
                return Err(e);
            },
        }
    }
}

impl Subscribe {
    /// The channels to subscribe to, in command order.
    pub closed spec fn spec_channels(&self) -> Seq<Seq<u8>> {
        bytes_list_model(self.channels@)
    }

    /// Create a `Subscribe` command for the given channels.
    pub fn new(channels: Vec<Vec<u8>>) -> (r: Subscribe)
        ensures
            r.spec_channels() == bytes_list_model(channels@),
    {
        Subscribe { channels }
    }

    /// Hand the channel list over.
    pub fn into_channels(self) -> (r: Vec<Vec<u8>>)
        ensures
            bytes_list_model(r@) == self.spec_channels(),
    {
        self.channels
    }

    /// Read the argument tokens of a `SUBSCRIBE`: one channel at least.
    pub fn parse_frames(parse: &mut Parse) -> (r: Result<Subscribe, ParseError>)
        ensures
            match r {
                Ok(s) => channels_model(old(parse).remaining()) == Some(s.spec_channels())
                    && s.spec_channels().len() >= 1 && final(parse).remaining().len() == 0,
                Err(_) => old(parse).remaining().len() == 0 || channels_model(
                    old(parse).remaining(),
                ) is None,
            },
    {
        let chs = match parse_channel_list(parse) {
            Ok(chs) => chs,
            Err(e) => {
                return Err(e);
            },
        };
        if chs.len() == 0 {
            proof {
                assert(bytes_list_model(chs@) =~= Seq::<Seq<u8>>::empty());
            }
            return Err(ParseError::EndOfStream);
        }
        Ok(Subscribe { channels: chs })
    }

    /// The wire form of this command: `["subscribe", ch1, ch2, ...]`.
    pub fn into_frame(self) -> (r: Frame)
        ensures
            r@ == SpecFrame::Array(
                seq![SpecFrame::Bulk(crate::cmd::kw_subscribe())] + bulks_of(self.spec_channels()),
            ),
    {
        let name: Vec<u8> = vec![115u8, 117u8, 98u8, 115u8, 99u8, 114u8, 105u8, 98u8, 101u8];
        proof {
            assert(name@ =~= crate::cmd::kw_subscribe());
        }
        frame_of_channel_list(name, self.channels)
    }
}

impl Unsubscribe {
    /// The channels to unsubscribe from; empty means all of them.
    pub closed spec fn spec_channels(&self) -> Seq<Seq<u8>> {
        bytes_list_model(self.channels@)
    }

    /// Create an `Unsubscribe` command for the given channels.
    pub fn new(channels: Vec<Vec<u8>>) -> (r: Unsubscribe)
        ensures
            r.spec_channels() == bytes_list_model(channels@),
    {
        Unsubscribe { channels }
    }

    /// Hand the channel list over.
    pub fn into_channels(self) -> (r: Vec<Vec<u8>>)
        ensures
            bytes_list_model(r@) == self.spec_channels(),
    {
        self.channels
    }

    /// Read the argument tokens of an `UNSUBSCRIBE`: any number of
    /// channels, possibly none.
    pub fn parse_frames(parse: &mut Parse) -> (r: Result<Unsubscribe, ParseError>)
        ensures
            match r {
                Ok(u) => channels_model(old(parse).remaining()) == Some(u.spec_channels())
                    && final(parse).remaining().len() == 0,
                Err(_) => channels_model(old(parse).remaining()) is None,
            },
    {
        match parse_channel_list(parse) {
            Ok(chs) => Ok(Unsubscribe { channels: chs }),
            Err(e) => Err(e),
        }
    }

    /// The wire form of this command: `["unsubscribe", ch1, ...]`.
    pub fn into_frame(self) -> (r: Frame)
        ensures
            r@ == SpecFrame::Array(
                seq![SpecFrame::Bulk(crate::cmd::kw_unsubscribe())] + bulks_of(
                    self.spec_channels(),
                ),
            ),
    {
        let name: Vec<u8> = vec![
            117u8,
            110u8,
            115u8,
            117u8,
            98u8,
            115u8,
            99u8,
            114u8,
            105u8,
            98u8,
            101u8,
        ];
        proof {
            assert(name@ =~= crate::cmd::kw_unsubscribe());
        }
        frame_of_channel_list(name, self.channels)
    }
}

/// An array frame holding a bulk name followed by one bulk per channel.
fn frame_of_channel_list(name: Vec<u8>, channels: Vec<Vec<u8>>) -> (r: Frame)
    ensures
        r@ == SpecFrame::Array(
            seq![SpecFrame::Bulk(name@)] + bulks_of(bytes_list_model(channels@)),
        ),
{
    let ghost name_m = name@;
    let ghost chs_m = bytes_list_model(channels@);
    let mut frame = Frame::array();
    frame.push_bulk(name);
    proof {
        assert(Seq::<SpecFrame>::empty().push(SpecFrame::Bulk(name_m)) =~= seq![
            SpecFrame::Bulk(name_m),
        ] + bulks_of(chs_m).take(0));
    }
    let mut i: usize = 0;
    while i < channels.len()
        invariant
            i <= channels@.len(),
            chs_m == bytes_list_model(channels@),
            frame@ == SpecFrame::Array(seq![SpecFrame::Bulk(name_m)] + bulks_of(chs_m).take(
                i as int,
            )),
        decreases channels@.len() - i,
    {
        let ch = crate::clone_bytes(&channels[i]);
        frame.push_bulk(ch);
        proof {
            assert((seq![SpecFrame::Bulk(name_m)] + bulks_of(chs_m).take(i as int)).push(
                SpecFrame::Bulk(chs_m[i as int]),
            ) =~= seq![SpecFrame::Bulk(name_m)] + bulks_of(chs_m).take(i + 1));
        }
        i = i + 1;
    }
    proof {
        assert(bulks_of(chs_m).take(chs_m.len() as int) =~= bulks_of(chs_m));
    }
    frame
}

/// The acknowledgement for one newly subscribed channel:
/// `["subscribe", channel, count]`.
pub fn make_subscribe_frame(channel_name: Vec<u8>, num_subs: u64) -> (r: Frame)
    ensures
        r@ == SpecFrame::Array(
            seq![
                SpecFrame::Bulk(crate::cmd::kw_subscribe()),
                SpecFrame::Bulk(channel_name@),
                SpecFrame::Integer(num_subs),
            ],
        ),
{
    let mut response = Frame::array();
    let name: Vec<u8> = vec![115u8, 117u8, 98u8, 115u8, 99u8, 114u8, 105u8, 98u8, 101u8];
    proof {
        assert(name@ =~= crate::cmd::kw_subscribe());
    }
    response.push_bulk(name);
    response.push_bulk(channel_name);
    response.push_int(num_subs);
    proof {
        assert(Seq::<SpecFrame>::empty().push(SpecFrame::Bulk(crate::cmd::kw_subscribe())).push(
            SpecFrame::Bulk(channel_name@),
        ).push(SpecFrame::Integer(num_subs)) =~= seq![
            SpecFrame::Bulk(crate::cmd::kw_subscribe()),
            SpecFrame::Bulk(channel_name@),
            SpecFrame::Integer(num_subs),
        ]);
    }
    response
}

/// The acknowledgement for one unsubscribed channel:
/// `["unsubscribe", channel, count]`.
pub fn make_unsubscribe_frame(channel_name: Vec<u8>, num_subs: u64) -> (r: Frame)
    ensures
        r@ == SpecFrame::Array(
            seq![
                SpecFrame::Bulk(crate::cmd::kw_unsubscribe()),
                SpecFrame::Bulk(channel_name@),
                SpecFrame::Integer(num_subs),
            ],
        ),
{
    let mut response = Frame::array();
    let name: Vec<u8> = vec![
        117u8,
        110u8,
        115u8,
        117u8,
        98u8,
        115u8,
        99u8,
        114u8,
        105u8,
        98u8,
        101u8,
    ];
    proof {
        assert(name@ =~= crate::cmd::kw_unsubscribe());
    }
    response.push_bulk(name);
    response.push_bulk(channel_name);
    response.push_int(num_subs);
    proof {
        assert(Seq::<SpecFrame>::empty().push(SpecFrame::Bulk(crate::cmd::kw_unsubscribe())).push(
            SpecFrame::Bulk(channel_name@),
        ).push(SpecFrame::Integer(num_subs)) =~= seq![
            SpecFrame::Bulk(crate::cmd::kw_unsubscribe()),
            SpecFrame::Bulk(channel_name@),
            SpecFrame::Integer(num_subs),
        ]);
    }
    response
}

/// A delivery to a subscriber: `["message", channel, payload]`.
pub fn make_message_frame(channel_name: Vec<u8>, msg: Vec<u8>) -> (r: Frame)
    ensures
        r@ == SpecFrame::Array(
            seq![
                SpecFrame::Bulk(kw_message()),
                SpecFrame::Bulk(channel_name@),
                SpecFrame::Bulk(msg@),
            ],
        ),
{
    let mut response = Frame::array();
    let name: Vec<u8> = vec![109u8, 101u8, 115u8, 115u8, 97u8, 103u8, 101u8];
    proof {
        assert(name@ =~= kw_message());
    }
    response.push_bulk(name);
    response.push_bulk(channel_name);
    response.push_bulk(msg);
    proof {
        assert(Seq::<SpecFrame>::empty().push(SpecFrame::Bulk(kw_message())).push(
            SpecFrame::Bulk(channel_name@),
        ).push(SpecFrame::Bulk(msg@)) =~= seq![
            SpecFrame::Bulk(kw_message()),
            SpecFrame::Bulk(channel_name@),
            SpecFrame::Bulk(msg@),
        ]);
    }
    response
}

/// The channels an `UNSUBSCRIBE` acts on: the requested ones, or every
/// currently subscribed channel when none was requested.
pub fn unsubscribe_targets(requested: Vec<Vec<u8>>, subscribed: &Vec<Vec<u8>>) -> (r: Vec<Vec<u8>>)
    ensures
        bytes_list_model(r@) == (if requested@.len() == 0 {
            bytes_list_model(subscribed@)
        } else {
            bytes_list_model(requested@)
        }),
{
    if requested.len() > 0 {
        return requested;
    }
    let mut out: Vec<Vec<u8>> = Vec::new();
    let mut i: usize = 0;
    while i < subscribed.len()
        invariant
            i <= subscribed@.len(),
            out@.len() == i,
            forall|j: int| 0 <= j < i ==> out@[j]@ == #[trigger] subscribed@[j]@,
        decreases subscribed@.len() - i,
    {
        let c = crate::clone_bytes(&subscribed[i]);
        out.push(c);
        i = i + 1;
    }
    proof {
        assert(bytes_list_model(out@) =~= bytes_list_model(subscribed@));
    }
    out
}

} // verus!
