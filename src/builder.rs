//! Building a tree object over a directory, one child at a time. The caller
//! walks the directory depth first: it hands over each file's contents and
//! each subdirectory's tree id (built and stored first), stores the blob
//! framings that come back, and finally stores the tree from `finish`.
use vstd::prelude::*;
use crate::codec::{
    encode_blob, encode_blob_spec, encode_tree, encode_tree_spec, entries_view, name_ok, valid_name, bytes_equal, has_name,
    well_formed_entries, decode_spec, lemma_tree_round_trip, CodecError, ObjectView,
    Entry, EntryView, Mode,
};
use crate::error::ObjError;
use crate::id::{fingerprint, sha1_of, ObjectId};

verus! {

/// `".git"`: the store's own directory, left out of every tree.
pub open spec fn reserved_name() -> Seq<u8> {
    seq![46u8, 103, 105, 116]
}

/// Whether `name` is the store's reserved directory name.
pub fn is_reserved(name: &[u8]) -> (r: bool)
    ensures
        r == (name@ == reserved_name()),
{
    if name.len() == 4 && name[0] == 46u8 && name[1] == 103u8 && name[2] == 105u8 && name[3]
        == 116u8 {
        assert(name@ =~= reserved_name());
        true
    } else {
        proof {
            if name@ == reserved_name() {
                assert(name@[0] == 46u8 && name@[1] == 103u8 && name@[2] == 105u8 && name@[3]
                    == 116u8);
            }
        }
        false
    }
}

/// Whether `name` may stand as an entry name.
pub fn is_valid_name(name: &[u8]) -> (r: bool)
    ensures
        r == valid_name(name@),
{
    let r = name_ok(name, 0, name.len());
    assert(name@.subrange(0, name@.len() as int) =~= name@);
    r
}

/// The entries gathered so far for one directory, in the order given.
pub struct TreeBuilder {
    entries: Vec<Entry>,
}

impl View for TreeBuilder {
    type V = Seq<EntryView>;

    closed spec fn view(&self) -> Seq<EntryView> {
        entries_view(self.entries@)
    }
}

/// A blob to be stored: its fingerprint and framing.
#[derive(Debug)]
pub struct StoredBlob {
    pub id: ObjectId,
    pub framed: Vec<u8>,
}

impl TreeBuilder {
    /// Valid entries, with distinct names.
    pub open spec fn wf(&self) -> bool {
        well_formed_entries(self@)
    }

    pub fn new() -> (r: TreeBuilder)
        ensures
            r@ == Seq::<EntryView>::empty(),
            r.wf(),
    {
        let r = TreeBuilder { entries: Vec::new() };
        assert(r@ =~= Seq::<EntryView>::empty());
        r
    }

    /// Whether an entry named `name` is recorded.
    pub fn contains(&self, name: &[u8]) -> (r: bool)
        ensures
            r == has_name(self@, name@),
    {
        let mut i: usize = 0;
        while i < self.entries.len()
            invariant
                i <= self.entries@.len(),
                forall|j: int| 0 <= j < i ==> (#[trigger] self@[j]).name != name@,
            decreases self.entries@.len() - i,
        {
            if bytes_equal(self.entries[i].name.as_slice(), name) {
                assert(self@[i as int].name == name@);
                return true;
            }
            i = i + 1;
        }
        false
    }

    /// Records a regular file. The reserved name is skipped (`Ok(None)`);
    /// an invalid or already recorded name is refused and nothing is
    /// recorded. Otherwise the file's blob is returned for storing and an
    /// entry pointing at it is appended.
    pub fn add_file(&mut self, name: &[u8], data: &[u8]) -> (r: Result<
        Option<StoredBlob>,
        ObjError,
    >)
        requires
            old(self).wf(),
        ensures
            final(self).wf(),
            name@ == reserved_name() ==> (r matches Ok(None) && final(self)@ == old(self)@),
            name@ != reserved_name() && !valid_name(name@) ==> r == Err::<
                Option<StoredBlob>,
                ObjError,
            >(ObjError::InvalidName) && final(self)@ == old(self)@,
            name@ != reserved_name() && valid_name(name@) && has_name(old(self)@, name@) ==> r
                == Err::<Option<StoredBlob>, ObjError>(ObjError::DuplicateName) && final(self)@
                == old(self)@,
            name@ != reserved_name() && valid_name(name@) && !has_name(old(self)@, name@) ==> (r matches Ok(Some(b)) && b.framed@
                == encode_blob_spec(data@) && b.id@ == sha1_of(b.framed@) && b.id.wf()
                && final(self)@ == old(self)@.push(
                EntryView { mode: Mode::RegularFile, name: name@, target: b.id@ },
            )),
    {
        if is_reserved(name) {
            return Ok(None);
        }
        if !is_valid_name(name) {
            return Err(ObjError::InvalidName);
        }
        if self.contains(name) {
            return Err(ObjError::DuplicateName);
        }
        let framed = encode_blob(data);
        let id = fingerprint(framed.as_slice());
        let entry = Entry {
            mode: Mode::RegularFile,
            name: vstd::slice::slice_to_vec(name),
            target: id.duplicate(),
        };
        self.entries.push(entry);
        assert(self@ =~= old(self)@.push(
            EntryView { mode: Mode::RegularFile, name: name@, target: id@ },
        ));
        Ok(Some(StoredBlob { id, framed }))
    }

    /// Records a subdirectory whose tree has the fingerprint `id`. The
    /// reserved name is skipped (`Ok(false)`); an invalid or already
    /// recorded name is refused.
    pub fn add_dir(&mut self, name: &[u8], id: &ObjectId) -> (r: Result<bool, ObjError>)
        requires
            old(self).wf(),
            id.wf(),
        ensures
            final(self).wf(),
            name@ == reserved_name() ==> r == Ok::<bool, ObjError>(false) && final(self)@ == old(
                self,
            )@,
            name@ != reserved_name() && !valid_name(name@) ==> r == Err::<bool, ObjError>(
                ObjError::InvalidName,
            ) && final(self)@ == old(self)@,
            name@ != reserved_name() && valid_name(name@) && has_name(old(self)@, name@) ==> r
                == Err::<bool, ObjError>(ObjError::DuplicateName) && final(self)@ == old(self)@,
            name@ != reserved_name() && valid_name(name@) && !has_name(old(self)@, name@) ==> r
                == Ok::<bool, ObjError>(true)
                && final(self)@ == old(self)@.push(
                EntryView { mode: Mode::Directory, name: name@, target: id@ },
            ),
    {
        if is_reserved(name) {
            return Ok(false);
        }
        if !is_valid_name(name) {
            return Err(ObjError::InvalidName);
        }
        if self.contains(name) {
            return Err(ObjError::DuplicateName);
        }
        let entry = Entry {
            mode: Mode::Directory,
            name: vstd::slice::slice_to_vec(name),
            target: id.duplicate(),
        };
        self.entries.push(entry);
        assert(self@ =~= old(self)@.push(
            EntryView { mode: Mode::Directory, name: name@, target: id@ },
        ));
        Ok(true)
    }

    /// The tree over the entries recorded so far: its fingerprint and framing.
    pub fn finish(&self) -> (r: (ObjectId, Vec<u8>))
        ensures
            r.1@ == encode_tree_spec(self@),
            r.0@ == sha1_of(r.1@),
            r.0.wf(),
            self.wf() ==> decode_spec(r.1@) == Ok::<ObjectView, CodecError>(ObjectView::Tree(self@)),
    {
        proof {
            if self.wf() {
                lemma_tree_round_trip(self@);
            }
        }
        let framed = encode_tree(&self.entries);
        let id = fingerprint(framed.as_slice());
        (id, framed)
    }
}

/// An empty directory always frames as `"tree 0\0"`, so its tree always has
/// the same fingerprint.
pub proof fn lemma_empty_tree_fixed()
    ensures
        encode_tree_spec(Seq::empty()) == seq![116u8, 114, 101, 101, 32, 48, 0],
        sha1_of(encode_tree_spec(Seq::empty())) == sha1_of(seq![116u8, 114, 101, 101, 32, 48, 0]),
{
    assert(crate::codec::decimal(0) =~= seq![48u8]);
    assert(encode_tree_spec(Seq::empty()) =~= seq![116u8, 114, 101, 101, 32, 48, 0]);
}

} // verus!
