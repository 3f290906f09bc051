//! The manifest record that sits beside a merged archive, and the module
//! flag word of the wire schema.

use vstd::prelude::*;

verus! {

/// The sidecar manifest of one merged archive: identity, the inclusive
/// record range `[head, tail]`, the data file's name, the upload headers,
/// and the time of a completed upload. Headers are held as pairs with
/// distinct keys, in insertion order.
#[derive(Debug)]
pub struct FileMeta {
    pub sync_id: String,
    pub device_id: String,
    pub generation_id: Option<String>,
    pub head: i64,
    pub tail: i64,
    pub data_name: String,
    pub headers: Vec<(String, String)>,
    pub uploaded: Option<i64>,
}

#[verifier::ext_equal]
pub struct FileMetaV {
    pub sync_id: Seq<char>,
    pub device_id: Seq<char>,
    pub generation_id: Option<Seq<char>>,
    pub head: i64,
    pub tail: i64,
    pub data_name: Seq<char>,
    pub headers: Seq<(Seq<char>, Seq<char>)>,
    pub uploaded: Option<i64>,
}

impl View for FileMeta {
    type V = FileMetaV;

    open spec fn view(&self) -> FileMetaV {
        FileMetaV {
            sync_id: self.sync_id@,
            device_id: self.device_id@,
            generation_id: match self.generation_id {
                Some(ref g) => Some(g@),
                None => None,
            },
            head: self.head,
            tail: self.tail,
            data_name: self.data_name@,
            headers: Seq::new(
                self.headers@.len(),
                |i: int| (self.headers@[i].0@, self.headers@[i].1@),
            ),
            uploaded: self.uploaded,
        }
    }
}

/// A header list carries the key with the given value.
pub open spec fn has_header(hs: Seq<(Seq<char>, Seq<char>)>, key: Seq<char>, value: Seq<char>) -> bool {
    exists|i: int| 0 <= i < hs.len() && hs[i] == (key, value)
}

impl Clone for FileMeta {
    fn clone(&self) -> (r: FileMeta)
        ensures
            r@ == self@,
    {
        let mut headers: Vec<(String, String)> = Vec::new();
        let mut i: usize = 0;
        while i < self.headers.len()
            invariant
                i <= self.headers.len(),
                headers@.len() == i,
                forall|k: int|
                    0 <= k < i ==> (#[trigger] headers@[k]).0@ == self.headers@[k].0@
                        && headers@[k].1@ == self.headers@[k].1@,
            decreases self.headers.len() - i,
        {
            let pair = (self.headers[i].0.clone(), self.headers[i].1.clone());
            headers.push(pair);
            i = i + 1;
        }
        let r = FileMeta {
            sync_id: self.sync_id.clone(),
            device_id: self.device_id.clone(),
            generation_id: match &self.generation_id {
                Some(g) => Some(g.clone()),
                None => None,
            },
            head: self.head,
            tail: self.tail,
            data_name: self.data_name.clone(),
            headers,
            uploaded: self.uploaded,
        };
        proof {
            assert(r@ =~= self@);
        }
        r
    }
}

/// The wire flag marking a module as internal.
pub const MODULES_FLAG_INTERNAL: u32 = 0x1;

/// A module's flag word from the wire schema.
#[derive(Clone, Copy, Debug)]
pub struct ModuleFlags(pub u32);

impl ModuleFlags {
    /// Wrap a raw flag word.
    pub fn new(value: u32) -> (r: ModuleFlags)
        ensures
            r.0 == value,
    {
        ModuleFlags(value)
    }

    /// Wrap a raw flag word; what the wire conversion does.
    pub fn from_raw(value: u32) -> (r: ModuleFlags)
        ensures
            r.0 == value,
    {
        ModuleFlags(value)
    }
}

/// Whether a flag word marks its carrier as an internal module, one that a
/// station always reports and no user attached.
pub trait InternalFlag {
    /// The internal bit is set.
    fn internal(&self) -> bool;
}

impl InternalFlag for ModuleFlags {
    fn internal(&self) -> (r: bool)
        ensures
            r == (self.0 & MODULES_FLAG_INTERNAL == MODULES_FLAG_INTERNAL),
    {
        self.0 & MODULES_FLAG_INTERNAL == MODULES_FLAG_INTERNAL
    }
}

} // verus!
