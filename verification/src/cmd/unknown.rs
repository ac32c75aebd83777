//! The answer to a command name the server does not know.

use vstd::prelude::*;
use crate::frame::{Frame, SpecFrame};

verus! {

/// `"ERR unknown command '"`
pub open spec fn err_prefix() -> Seq<u8> {
    seq![
        69u8,
        82u8,
        82u8,
        32u8,
        117u8,
        110u8,
        107u8,
        110u8,
        111u8,
        119u8,
        110u8,
        32u8,
        99u8,
        111u8,
        109u8,
        109u8,
        97u8,
        110u8,
        100u8,
        32u8,
        39u8,
    ]
}

/// The error line sent back for an unknown command name.
pub open spec fn unknown_response(name: Seq<u8>) -> Seq<u8> {
    err_prefix() + name + seq![39u8]
}

/// A command the server does not recognise. Answered with an error frame;
/// the connection stays open.
#[derive(Debug)]
pub struct Unknown {
    name: Vec<u8>,
}

impl Unknown {
    pub closed spec fn spec_name(&self) -> Seq<u8> {
        self.name@
    }

    /// Record the unrecognised (lower-cased) command name.
    pub fn new(name: Vec<u8>) -> (r: Unknown)
        ensures
            r.spec_name() == name@,
    {
        Unknown { name }
    }

    /// The unrecognised name.
    pub fn name_bytes(&self) -> (r: Vec<u8>)
        ensures
            r@ == self.spec_name(),
    {
        crate::clone_bytes(&self.name)
    }

    /// The response frame: `Error("ERR unknown command '<name>'")`.
    pub fn apply(self) -> (resp: Frame)
        ensures
            resp@ == SpecFrame::Error(unknown_response(self.spec_name())),
    {
        let mut line: Vec<u8> = vec![
            69u8,
            82u8,
            82u8,
            32u8,
            117u8,
            110u8,
            107u8,
            110u8,
            111u8,
            119u8,
            110u8,
            32u8,
            99u8,
            111u8,
            109u8,
            109u8,
            97u8,
            110u8,
            100u8,
            32u8,
            39u8,
        ];
        proof {
            assert(line@ =~= err_prefix());
        }
        crate::connection::push_all(&mut line, &self.name);
        line.push(39u8);
        proof {
            assert(line@ =~= unknown_response(self.spec_name()));
        }
        Frame::Error(line)
    }
}

} // verus!
