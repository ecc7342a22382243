//! Entries of an archive and the samples assembled from them.

use vstd::prelude::*;

use crate::error::{IoKind, SampleError};
use crate::path::{key_of, role, role_of, split, suffix_of, well_formed, Role};

verus! {

/// What an entry is: the characters of its path and the bytes of its body.
pub struct EntryView {
    pub path: Seq<char>,
    pub data: Seq<u8>,
}

/// One member of an archive: its stored path and its whole content.
#[derive(Clone, Debug, PartialEq, Eq)]
pub struct SampleFile {
    pub path: String,
    pub data: Vec<u8>,
}

impl View for SampleFile {
    type V = EntryView;

    open spec fn view(&self) -> EntryView {
        EntryView { path: self.path@, data: self.data@ }
    }
}

impl SampleFile {
    /// An entry with the given path and content.
    pub fn new(path: String, data: Vec<u8>) -> (r: Self)
        ensures
            r.path == path,
            r.data == data,
    {
        SampleFile { path, data }
    }

    /// An entry whose body was read in full: `data` has to be as long as the
    /// archive announced for the member, else the member is refused.
    pub fn complete(path: String, announced: u64, data: Vec<u8>) -> (r: Result<Self, IoKind>)
        ensures
            data@.len() == announced <==> r is Ok,
            r matches Ok(entry) ==> entry.path == path && entry.data == data,
            r matches Err(kind) ==> kind == IoKind::ShortBody,
    {
        if data.len() as u64 == announced {
            Ok(SampleFile { path, data })
        } else {
            Err(IoKind::ShortBody)
        }
    }

    /// Key and suffix of the entry, from its path split at the first `.`.
    /// A path that is not well formed is refused.
    pub fn path_info(&self) -> (r: Result<(String, String), IoKind>)
        ensures
            well_formed(self@.path) <==> r is Ok,
            r matches Ok((key, suffix)) ==> key@ == key_of(self@.path) && suffix@ == suffix_of(
                self@.path,
            ),
            r matches Err(kind) ==> kind == IoKind::MalformedPath,
    {
        match split(self.path.as_str()) {
            Some(parts) => Ok(parts),
            None => Err(IoKind::MalformedPath),
        }
    }
}

/// What a sample is: its key, the bodies of its frames in order, and the body
/// of its target where it has one.
pub struct SampleView {
    pub key: Seq<char>,
    pub frames: Seq<Seq<u8>>,
    pub target: Option<Seq<u8>>,
}

/// A sample with the given key, no frame and no target.
pub open spec fn blank(key: Seq<char>) -> SampleView {
    SampleView { key, frames: Seq::empty(), target: None }
}

/// The bodies held by a list of buffers.
pub open spec fn bodies(buffers: Seq<Vec<u8>>) -> Seq<Seq<u8>> {
    buffers.map_values(|b: Vec<u8>| b@)
}

/// The body held by an optional buffer.
pub open spec fn body(buffer: Option<Vec<u8>>) -> Option<Seq<u8>> {
    match buffer {
        Some(b) => Some(b@),
        None => None,
    }
}

/// The sample after a member with the given suffix and body was applied to
/// it: a frame is appended, a first target is set, a second target is an
/// error, and any other member leaves the sample as it is.
pub open spec fn applied(sample: SampleView, suffix: Seq<char>, data: Seq<u8>) -> Result<
    SampleView,
    SampleError,
> {
    match role_of(suffix) {
        Role::Frame => Ok(SampleView { frames: sample.frames.push(data), ..sample }),
        Role::Target => if sample.target is Some {
            Err(SampleError::DuplicateTarget)
        } else {
            Ok(SampleView { target: Some(data), ..sample })
        },
        Role::Other => Ok(sample),
    }
}

/// One training example, assembled from a run of entries that share a key.
#[derive(Clone, Debug, PartialEq, Eq)]
pub struct Sample {
    pub key: String,
    pub frames: Vec<Vec<u8>>,
    pub target: Option<Vec<u8>>,
}

impl View for Sample {
    type V = SampleView;

    open spec fn view(&self) -> SampleView {
        SampleView { key: self.key@, frames: bodies(self.frames@), target: body(self.target) }
    }
}

/// A sample as it is handed to the host: here the target is present.
#[derive(Clone, Debug, PartialEq, Eq)]
pub struct Record {
    pub key: String,
    pub target: Vec<u8>,
    pub frames: Vec<Vec<u8>>,
}

impl Sample {
    /// A sample is well formed when its key is not empty.
    pub open spec fn wf(&self) -> bool {
        self@.key.len() > 0
    }

    /// A sample with the given key, no frame and no target.
    pub fn new(key: String) -> (r: Self)
        ensures
            r@ == blank(key@),
    {
        let r = Sample { key, frames: Vec::new(), target: None };
        assert(r@.frames =~= Seq::empty());
        r
    }

    /// Appends a frame.
    pub fn _add_sample(&mut self, data: Vec<u8>)
        ensures
            final(self)@ == (SampleView { frames: old(self)@.frames.push(data@), ..old(self)@ }),
    {
        self.frames.push(data);
        assert(bodies(self.frames@) =~= bodies(old(self).frames@).push(data@));
    }

    /// Sets the target; a sample that has one already is left as it is and
    /// the second target is refused.
    pub fn _set_target(&mut self, target: Vec<u8>) -> (r: Result<(), SampleError>)
        ensures
            old(self)@.target is None ==> r is Ok && final(self)@ == (SampleView {
                target: Some(target@),
                ..old(self)@
            }),
            old(self)@.target is Some ==> r == Err::<(), SampleError>(SampleError::DuplicateTarget)
                && final(self)@ == old(self)@,
    {
        if self.target.is_some() {
            Err(SampleError::DuplicateTarget)
        } else {
            self.target = Some(target);
            Ok(())
        }
    }

    /// Applies a member with the given suffix and body to the sample. Where
    /// the member is refused the sample stays as it was.
    pub fn update(&mut self, file_name: &str, data: Vec<u8>) -> (r: Result<(), SampleError>)
        ensures
            match applied(old(self)@, file_name@, data@) {
                Ok(next) => r is Ok && final(self)@ == next,
                Err(e) => r == Err::<(), SampleError>(e) && final(self)@ == old(self)@,
            },
    {
        match role(file_name) {
            Role::Frame => {
                self._add_sample(data);
                Ok(())
            },
            Role::Target => self._set_target(data),
            Role::Other => Ok(()),
        }
    }

    /// Hands the sample on as a record; a sample without target is refused.
    pub fn into_record(self) -> (r: Result<Record, SampleError>)
        ensures
            self@.target is None <==> r is Err,
            r matches Err(e) ==> e == SampleError::MissingTarget,
            r matches Ok(record) ==> record.key@ == self@.key && bodies(record.frames@)
                == self@.frames && Some(record.target@) == self@.target,
    {
        match self.target {
            None => Err(SampleError::MissingTarget),
            Some(target) => Ok(Record { key: self.key, target, frames: self.frames }),
        }
    }
}

} // verus!
