//! The key-value store collaborator, modeled as an explicit object owning a
//! mapping with synchronous exclusive-access methods, and the reduction of
//! a command against it to its response frame.

use vstd::prelude::*;
use crate::codec::clone_bytes;
use crate::command::{Command, CommandModel};
use crate::frame::{Frame, FrameModel};

verus! {

broadcast use vstd::std_specs::vec::group_vec_axioms, vstd::seq::group_seq_axioms,
    vstd::map::group_map_axioms;

/// The mapping an entry list stands for; a later entry for a key wins.
pub open spec fn map_of(es: Seq<(Vec<u8>, Vec<u8>)>) -> Map<Seq<u8>, Seq<u8>>
    decreases es,
{
    if es.len() == 0 {
        Map::empty()
    } else {
        map_of(es.drop_last()).insert(es.last().0@, es.last().1@)
    }
}

/// A mapping from keys to values, owned by whoever holds the store's
/// exclusion.
pub struct KvStore {
    entries: Vec<(Vec<u8>, Vec<u8>)>,
}

impl View for KvStore {
    type V = Map<Seq<u8>, Seq<u8>>;

    closed spec fn view(&self) -> Map<Seq<u8>, Seq<u8>> {
        map_of(self.entries@)
    }
}

/// Entries at or past `j` not naming `k` leave `k`'s binding to the prefix.
proof fn lemma_map_of_prefix(es: Seq<(Vec<u8>, Vec<u8>)>, j: int, k: Seq<u8>)
    requires
        0 <= j <= es.len(),
        forall|l: int| j <= l < es.len() ==> #[trigger] es[l].0@ != k,
    ensures
        map_of(es).contains_key(k) == map_of(es.take(j)).contains_key(k),
        map_of(es).contains_key(k) ==> map_of(es)[k] == map_of(es.take(j))[k],
    decreases es.len() - j,
{
    if j == es.len() {
        assert(es.take(j) =~= es);
    } else {
        assert(es.last().0@ != k);
        assert(es.drop_last() =~= es.take(es.len() - 1));
        lemma_map_of_prefix(es.take(es.len() - 1), j, k);
        assert(es.take(es.len() - 1).take(j) =~= es.take(j));
    }
}

fn bytes_eq(a: &Vec<u8>, b: &Vec<u8>) -> (r: bool)
    ensures
        r == (a@ == b@),
{
    if a.len() != b.len() {
        return false;
    }
    let mut j: usize = 0;
    while j < a.len()
        invariant
            j <= a.len(),
            a@.len() == b@.len(),
            forall|i: int| 0 <= i < j ==> a@[i] == b@[i],
        decreases a.len() - j,
    {
        if a[j] != b[j] {
            return false;
        }
        j = j + 1;
    }
    proof {
        assert(a@ =~= b@);
    }
    true
}

impl KvStore {
    pub fn new() -> (r: KvStore)
        ensures
            r@ == Map::<Seq<u8>, Seq<u8>>::empty(),
    {
        KvStore { entries: Vec::new() }
    }

    /// Binds `value` to `key`, replacing any earlier binding.
    pub fn set(&mut self, key: Vec<u8>, value: Vec<u8>)
        ensures
            final(self)@ == old(self)@.insert(key@, value@),
    {
        let ghost k = key@;
        let ghost v = value@;
        self.entries.push((key, value));
        proof {
            assert(self.entries@.drop_last() =~= old(self).entries@);
            assert(self.entries@.last().0@ == k);
            assert(self.entries@.last().1@ == v);
        }
    }

    /// The value bound to `key`, copied out, if any.
    pub fn get(&self, key: &Vec<u8>) -> (r: Option<Vec<u8>>)
        ensures
            self@.contains_key(key@) ==> (r matches Some(v) && v@ == self@[key@]),
            !self@.contains_key(key@) ==> r is None,
    {
        let ghost es = self.entries@;
        let mut j: usize = self.entries.len();
        while j > 0
            invariant
                j <= es.len(),
                es == self.entries@,
                forall|l: int| j <= l < es.len() ==> #[trigger] es[l].0@ != key@,
            decreases j,
        {
            j = j - 1;
            if bytes_eq(&self.entries[j].0, key) {
                proof {
                    lemma_map_of_prefix(es, j + 1, key@);
                    assert(es.take(j + 1).drop_last() =~= es.take(j as int));
                    assert(es.take(j + 1).last() == es[j as int]);
                }
                let value = clone_bytes(&self.entries[j].1);
                proof {
                    assert(value@ =~= es[j as int].1@);
                }
                return Some(value);
            }
        }
        proof {
            lemma_map_of_prefix(es, 0, key@);
            assert(es.take(0) =~= Seq::<(Vec<u8>, Vec<u8>)>::empty());
        }
        None
    }
}

/// The text of the success response to a store.
pub open spec fn ok_text() -> Seq<u8> {
    seq![79u8, 75u8]
}

impl KvStore {
    /// Serves one command: a store binds the value and answers `Simple(OK)`;
    /// a fetch leaves the store unchanged and answers the value as a bulk
    /// frame on a hit, the null frame on a miss.
    pub fn apply(&mut self, cmd: &Command) -> (r: Frame)
        ensures
            (cmd@ matches CommandModel::Store(k, v) ==> final(self)@ == old(self)@.insert(k, v)
                && r@ == FrameModel::Simple(ok_text())),
            (cmd@ matches CommandModel::Fetch(k) ==> final(self)@ == old(self)@
                && (old(self)@.contains_key(k) ==> r@ == FrameModel::Bulk(old(self)@[k]))
                && (!old(self)@.contains_key(k) ==> r@ == FrameModel::Null)),
    {
        match cmd {
            Command::Store { key, value } => {
                let k = clone_bytes(key);
                let v = clone_bytes(value);
                self.set(k, v);
                let mut text: Vec<u8> = Vec::new();
                text.push(79);
                text.push(75);
                proof {
                    assert(text@ =~= ok_text());
                }
                Frame::Simple(text)
            },
            Command::Fetch { key } => match self.get(key) {
                Some(v) => Frame::Bulk(v),
                None => Frame::Null,
            },
        }
    }
}

} // verus!
