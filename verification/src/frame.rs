//! The wire data model: a tagged frame value with bit-exact encode/decode
//! rules. Text payloads (`Simple`, `Error`) are held as their UTF-8 bytes;
//! a constructible frame's text must be valid UTF-8 and free of the CR-LF
//! delimiter.

use vstd::prelude::*;

verus! {

broadcast use vstd::std_specs::vec::group_vec_axioms, vstd::seq::group_seq_axioms;

/// A protocol message as it travels on the wire.
#[derive(Debug, PartialEq, Eq)]
pub enum Frame {
    Simple(Vec<u8>),
    Error(Vec<u8>),
    Integer(i64),
    Null,
    Bulk(Vec<u8>),
    Array(Vec<Frame>),
}

/// The mathematical model of a frame: the same tree over `Seq<u8>`.
pub enum FrameModel {
    Simple(Seq<u8>),
    Error(Seq<u8>),
    Integer(i64),
    Null,
    Bulk(Seq<u8>),
    Array(Seq<FrameModel>),
}

pub const CR: u8 = 13;
pub const LF: u8 = 10;

/// No CR-LF pair occurs inside `s` (the protocol delimiter must not appear
/// in a text payload).
pub open spec fn crlf_free(s: Seq<u8>) -> bool {
    forall|j: int| #![trigger s[j]] 0 <= j && j + 1 < s.len() ==> !(s[j] == CR && s[j + 1] == LF)
}

impl Frame {
    /// The model of this frame.
    pub open spec fn view(self) -> FrameModel
        decreases self,
    {
        match self {
            Frame::Simple(s) => FrameModel::Simple(s@),
            Frame::Error(s) => FrameModel::Error(s@),
            Frame::Integer(v) => FrameModel::Integer(v),
            Frame::Null => FrameModel::Null,
            Frame::Bulk(p) => FrameModel::Bulk(p@),
            Frame::Array(items) => FrameModel::Array(Frame::view_seq(items@)),
        }
    }

    /// The models of a sequence of frames, in order.
    pub open spec fn view_seq(items: Seq<Frame>) -> Seq<FrameModel>
        decreases items,
    {
        if items.len() == 0 {
            Seq::empty()
        } else {
            seq![items[0].view()] + Frame::view_seq(items.skip(1))
        }
    }
}

impl FrameModel {
    /// A frame a caller may legitimately construct: text payloads carry no
    /// CR-LF delimiter and are valid UTF-8, and payload and element counts
    /// fit the length line of the grammar.
    pub open spec fn well_formed(self) -> bool
        decreases self,
    {
        match self {
            FrameModel::Simple(s) => crlf_free(s) && crate::utf8::is_utf8(s),
            FrameModel::Error(s) => crlf_free(s) && crate::utf8::is_utf8(s),
            FrameModel::Integer(_) => true,
            FrameModel::Null => true,
            FrameModel::Bulk(p) => p.len() <= u64::MAX,
            FrameModel::Array(items) => items.len() <= u64::MAX && all_well_formed(items),
        }
    }
}

/// The models of a frame sequence are its frames' models, in place.
pub proof fn lemma_view_seq(s: Seq<Frame>)
    ensures
        Frame::view_seq(s).len() == s.len(),
        forall|i: int| 0 <= i < s.len() ==> Frame::view_seq(s)[i] == s[i].view(),
    decreases s,
{
    if s.len() > 0 {
        lemma_view_seq(s.skip(1));
        assert forall|i: int| 0 <= i < s.len() implies Frame::view_seq(s)[i] == s[i].view() by {
            if i > 0 {
                assert(Frame::view_seq(s)[i] == Frame::view_seq(s.skip(1))[i - 1]);
                assert(s.skip(1)[i - 1] == s[i]);
            }
        }
    }
}

/// Appending a frame appends its model.
pub proof fn lemma_view_seq_push(s: Seq<Frame>, x: Frame)
    ensures
        Frame::view_seq(s.push(x)) == Frame::view_seq(s).push(x.view()),
    decreases s,
{
    if s.len() == 0 {
        assert(s.push(x)[0] == x);
        assert(s.push(x).skip(1) =~= Seq::<Frame>::empty());
        assert(Frame::view_seq(Seq::<Frame>::empty()) == Seq::<FrameModel>::empty());
        assert(Frame::view_seq(s.push(x)) == seq![x.view()] + Seq::<FrameModel>::empty());
        assert(Frame::view_seq(s.push(x)) =~= Frame::view_seq(s).push(x.view()));
    } else {
        assert(s.push(x).skip(1) =~= s.skip(1).push(x));
        lemma_view_seq_push(s.skip(1), x);
        assert(s.push(x)[0] == s[0]);
        assert(Frame::view_seq(s.push(x)) == seq![s[0].view()] + Frame::view_seq(
            s.skip(1).push(x),
        ));
        assert(Frame::view_seq(s) == seq![s[0].view()] + Frame::view_seq(s.skip(1)));
        assert(Frame::view_seq(s.push(x)) =~= Frame::view_seq(s).push(x.view()));
    }
}

/// Every frame of the sequence is well-formed.
pub open spec fn all_well_formed(items: Seq<FrameModel>) -> bool
    decreases items,
{
    items.len() == 0 || (items[0].well_formed() && all_well_formed(items.skip(1)))
}

} // verus!
