//! Application-level commands: constructed by interpreting a decoded
//! array-of-bulk-strings frame (verb first, case-insensitive), and reduced
//! back to the request frame a client writes.

use vstd::prelude::*;
use crate::codec::clone_bytes;
use crate::frame::{Frame, FrameModel};

verus! {

broadcast use vstd::std_specs::vec::group_vec_axioms, vstd::seq::group_seq_axioms;

/// A request: fetch a key's value, or store a value under a key.
#[derive(Debug, PartialEq, Eq)]
pub enum Command {
    Fetch { key: Vec<u8> },
    Store { key: Vec<u8>, value: Vec<u8> },
}

/// The mathematical model of a command.
pub enum CommandModel {
    Fetch(Seq<u8>),
    Store(Seq<u8>, Seq<u8>),
}

impl CommandModel {
    /// Key and value fit the length line of the grammar; true of every
    /// command built from executable values.
    pub open spec fn well_formed(self) -> bool {
        match self {
            CommandModel::Fetch(k) => k.len() <= u64::MAX,
            CommandModel::Store(k, v) => k.len() <= u64::MAX && v.len() <= u64::MAX,
        }
    }
}

impl Command {
    pub open spec fn view(self) -> CommandModel {
        match self {
            Command::Fetch { key } => CommandModel::Fetch(key@),
            Command::Store { key, value } => CommandModel::Store(key@, value@),
        }
    }
}

/// Why a well-formed frame is still not a command. The bytes were
/// syntactically valid: neither case is a decode error.
#[derive(Clone, Copy, PartialEq, Eq, Structural, Debug)]
pub enum CommandError {
    /// Not an array of bulk strings, or the verb's arity is violated;
    /// reported back to the peer as an error frame.
    Shape,
    /// A verb outside the implemented surface; fatal for the connection by
    /// design, never swallowed.
    UnknownVerb,
}

pub open spec fn ascii_lower(c: u8) -> u8 {
    if 65 <= c && c <= 90 {
        (c + 32) as u8
    } else {
        c
    }
}

pub open spec fn lower(s: Seq<u8>) -> Seq<u8> {
    s.map_values(|c: u8| ascii_lower(c))
}

pub open spec fn verb_fetch() -> Seq<u8> {
    seq![103u8, 101u8, 116u8]
}

pub open spec fn verb_store() -> Seq<u8> {
    seq![115u8, 101u8, 116u8]
}

/// Payload of a bulk frame; empty for any other variant.
pub open spec fn bulk_payload(m: FrameModel) -> Seq<u8> {
    match m {
        FrameModel::Bulk(p) => p,
        _ => Seq::empty(),
    }
}

/// The command a decoded frame stands for: an array of bulk strings whose
/// first element names the verb case-insensitively, with exactly one
/// argument for a fetch and two for a store.
pub open spec fn spec_from_frame(m: FrameModel) -> Result<CommandModel, CommandError> {
    match m {
        FrameModel::Array(items) => {
            if items.len() >= 1 && (forall|j: int|
                0 <= j < items.len() ==> #[trigger] items[j] is Bulk) {
                let verb = lower(bulk_payload(items[0]));
                if verb == verb_fetch() {
                    if items.len() == 2 {
                        Ok(CommandModel::Fetch(bulk_payload(items[1])))
                    } else {
                        Err(CommandError::Shape)
                    }
                } else if verb == verb_store() {
                    if items.len() == 3 {
                        Ok(CommandModel::Store(bulk_payload(items[1]), bulk_payload(items[2])))
                    } else {
                        Err(CommandError::Shape)
                    }
                } else {
                    Err(CommandError::UnknownVerb)
                }
            } else {
                Err(CommandError::Shape)
            }
        },
        _ => Err(CommandError::Shape),
    }
}

fn to_lower_byte(c: u8) -> (r: u8)
    ensures
        r == ascii_lower(c),
{
    if 65 <= c && c <= 90 {
        c + 32
    } else {
        c
    }
}

/// Whether `p` lowercased equals the three-byte word `[a, b, c]`.
fn lower_eq3(p: &Vec<u8>, a: u8, b: u8, c: u8) -> (r: bool)
    ensures
        r == (lower(p@) == seq![a, b, c]),
{
    if p.len() != 3 {
        proof {
            assert(lower(p@).len() == p@.len());
        }
        return false;
    }
    let r = to_lower_byte(p[0]) == a && to_lower_byte(p[1]) == b && to_lower_byte(p[2]) == c;
    proof {
        assert(lower(p@).len() == 3);
        assert(lower(p@)[0] == ascii_lower(p@[0]));
        assert(lower(p@)[1] == ascii_lower(p@[1]));
        assert(lower(p@)[2] == ascii_lower(p@[2]));
        if r {
            assert(lower(p@) =~= seq![a, b, c]);
        } else {
            assert(lower(p@) != seq![a, b, c]);
        }
    }
    r
}

impl Command {
    /// Interprets a decoded frame as a command, distinguishing a shape
    /// violation from an unrecognized verb.
    pub fn from_frame(f: &Frame) -> (r: Result<Command, CommandError>)
        ensures
            ({
                match r {
                    Ok(c) => spec_from_frame(f@) == Ok::<CommandModel, CommandError>(c@),
                    Err(e) => spec_from_frame(f@) == Err::<CommandModel, CommandError>(e),
                }
            }),
    {
        match f {
            Frame::Array(items) => {
                let ghost ms = Frame::view_seq(items@);
                proof {
                    crate::frame::lemma_view_seq(items@);
                }
                if items.len() == 0 {
                    return Err(CommandError::Shape);
                }
                let mut j: usize = 0;
                while j < items.len()
                    invariant
                        f@ == FrameModel::Array(ms),
                        j <= items.len(),
                        ms == Frame::view_seq(items@),
                        ms.len() == items@.len(),
                        forall|i: int| 0 <= i < items@.len() ==> ms[i] == items@[i].view(),
                        forall|i: int| 0 <= i < j ==> #[trigger] ms[i] is Bulk,
                    decreases items.len() - j,
                {
                    match &items[j] {
                        Frame::Bulk(_) => {},
                        _ => {
                            proof {
                                assert(!(ms[j as int] is Bulk));
                                assert(f@ == FrameModel::Array(ms));
                                assert(!(forall|i: int|
                                    0 <= i < ms.len() ==> #[trigger] ms[i] is Bulk));
                                assert(spec_from_frame(f@) == Err::<CommandModel, CommandError>(
                                    CommandError::Shape,
                                ));
                            }
                            return Err(CommandError::Shape);
                        },
                    }
                    j = j + 1;
                }
                match &items[0] {
                    Frame::Bulk(verb) => {
                        proof {
                            assert(bulk_payload(ms[0]) == verb@);
                        }
                        if lower_eq3(verb, 103, 101, 116) {
                            if items.len() == 2 {
                                match &items[1] {
                                    Frame::Bulk(key) => Ok(
                                        Command::Fetch { key: clone_bytes(key) },
                                    ),
                                    _ => {
                                        proof {
                                            assert(false);
                                        }
                                        Err(CommandError::Shape)
                                    },
                                }
                            } else {
                                Err(CommandError::Shape)
                            }
                        } else if lower_eq3(verb, 115, 101, 116) {
                            if items.len() == 3 {
                                match (&items[1], &items[2]) {
                                    (Frame::Bulk(key), Frame::Bulk(value)) => Ok(
                                        Command::Store {
                                            key: clone_bytes(key),
                                            value: clone_bytes(value),
                                        },
                                    ),
                                    _ => {
                                        proof {
                                            assert(false);
                                        }
                                        Err(CommandError::Shape)
                                    },
                                }
                            } else {
                                Err(CommandError::Shape)
                            }
                        } else {
                            Err(CommandError::UnknownVerb)
                        }
                    },
                    _ => {
                        proof {
                            assert(false);
                        }
                        Err(CommandError::Shape)
                    },
                }
            },
            _ => Err(CommandError::Shape),
        }
    }
}

/// The request frame a command travels as: an array of bulk strings, the
/// lower-case verb first.
pub open spec fn spec_request_frame(c: CommandModel) -> FrameModel {
    match c {
        CommandModel::Fetch(k) => FrameModel::Array(
            seq![FrameModel::Bulk(verb_fetch()), FrameModel::Bulk(k)],
        ),
        CommandModel::Store(k, v) => FrameModel::Array(
            seq![FrameModel::Bulk(verb_store()), FrameModel::Bulk(k), FrameModel::Bulk(v)],
        ),
    }
}

impl Command {
    /// Builds the request frame for this command.
    pub fn to_frame(&self) -> (r: Frame)
        ensures
            r@ == spec_request_frame(self@),
    {
        match self {
            Command::Fetch { key } => {
                let mut verb: Vec<u8> = Vec::new();
                verb.push(103);
                verb.push(101);
                verb.push(116);
                proof {
                    assert(verb@ =~= verb_fetch());
                }
                let mut items: Vec<Frame> = Vec::new();
                items.push(Frame::Bulk(verb));
                items.push(Frame::Bulk(clone_bytes(key)));
                proof {
                    crate::frame::lemma_view_seq(items@);
                    assert(items@[0].view() == FrameModel::Bulk(verb_fetch()));
                    assert(items@[1].view() == FrameModel::Bulk(key@));
                    assert(Frame::view_seq(items@) =~= seq![
                        FrameModel::Bulk(verb_fetch()),
                        FrameModel::Bulk(key@),
                    ]);
                }
                Frame::Array(items)
            },
            Command::Store { key, value } => {
                let mut verb: Vec<u8> = Vec::new();
                verb.push(115);
                verb.push(101);
                verb.push(116);
                proof {
                    assert(verb@ =~= verb_store());
                }
                let mut items: Vec<Frame> = Vec::new();
                items.push(Frame::Bulk(verb));
                items.push(Frame::Bulk(clone_bytes(key)));
                items.push(Frame::Bulk(clone_bytes(value)));
                proof {
                    crate::frame::lemma_view_seq(items@);
                    assert(items@[0].view() == FrameModel::Bulk(verb_store()));
                    assert(items@[1].view() == FrameModel::Bulk(key@));
                    assert(items@[2].view() == FrameModel::Bulk(value@));
                    assert(Frame::view_seq(items@) =~= seq![
                        FrameModel::Bulk(verb_store()),
                        FrameModel::Bulk(key@),
                        FrameModel::Bulk(value@),
                    ]);
                }
                Frame::Array(items)
            },
        }
    }
}

/// A command's request frame is well-formed and reads back as the same
/// command: what one side builds, the other side interprets identically.
pub proof fn lemma_command_round_trip(c: CommandModel)
    requires
        c.well_formed(),
    ensures
        spec_request_frame(c).well_formed(),
        spec_from_frame(spec_request_frame(c)) == Ok::<CommandModel, CommandError>(c),
{
    match c {
        CommandModel::Fetch(k) => {
            let items = seq![FrameModel::Bulk(verb_fetch()), FrameModel::Bulk(k)];
            assert(items.skip(1) =~= seq![FrameModel::Bulk(k)]);
            assert(items.skip(1).skip(1) =~= Seq::<FrameModel>::empty());
            assert(crate::frame::all_well_formed(Seq::<FrameModel>::empty()));
            assert(items.skip(1)[0] == FrameModel::Bulk(k));
            assert(FrameModel::Bulk(k).well_formed());
            assert(crate::frame::all_well_formed(items.skip(1)));
            assert(items[0] == FrameModel::Bulk(verb_fetch()));
            assert(FrameModel::Bulk(verb_fetch()).well_formed());
            assert(crate::frame::all_well_formed(items));
            assert(forall|j: int| 0 <= j < items.len() ==> #[trigger] items[j] is Bulk);
            assert(lower(verb_fetch()) =~= verb_fetch());
        },
        CommandModel::Store(k, v) => {
            let items = seq![
                FrameModel::Bulk(verb_store()),
                FrameModel::Bulk(k),
                FrameModel::Bulk(v),
            ];
            assert(items.skip(1) =~= seq![FrameModel::Bulk(k), FrameModel::Bulk(v)]);
            assert(items.skip(1).skip(1) =~= seq![FrameModel::Bulk(v)]);
            assert(items.skip(1).skip(1).skip(1) =~= Seq::<FrameModel>::empty());
            assert(crate::frame::all_well_formed(Seq::<FrameModel>::empty()));
            assert(items.skip(1).skip(1)[0] == FrameModel::Bulk(v));
            assert(FrameModel::Bulk(v).well_formed());
            assert(crate::frame::all_well_formed(items.skip(1).skip(1)));
            assert(items.skip(1)[0] == FrameModel::Bulk(k));
            assert(FrameModel::Bulk(k).well_formed());
            assert(crate::frame::all_well_formed(items.skip(1)));
            assert(items[0] == FrameModel::Bulk(verb_store()));
            assert(FrameModel::Bulk(verb_store()).well_formed());
            assert(crate::frame::all_well_formed(items));
            assert(forall|j: int| 0 <= j < items.len() ==> #[trigger] items[j] is Bulk);
            assert(lower(verb_store()) =~= verb_store());
            assert(lower(verb_store())[0] == 115 && verb_fetch()[0] == 103);
            assert(lower(verb_store()) != verb_fetch());
        },
    }
}

} // verus!
