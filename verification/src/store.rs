//! Where the replay theater's transcripts come from: the filesystem on native
//! builds, a transcript bundled into the binary on the web.
//!
//! Reading the file and parsing its records are the caller's I/O; the stores
//! here name their origin and check the reference a user typed.
use vstd::prelude::*;
use crate::text::{chars_of, string_of, trim, trim_chars};

verus! {

/// The native store: transcripts are read from the filesystem.
#[derive(Debug, Default, Clone, Copy)]
pub struct FsSessionStore;

/// The web store: a transcript is compiled into the binary.
#[derive(Debug, Default, Clone, Copy)]
pub struct BundledSessionStore;

impl FsSessionStore {
    /// A short label naming where this store reads transcripts from.
    pub fn origin_label(&self) -> (r: &'static str)
        ensures
            r@ == "filesystem"@,
    {
        "filesystem"
    }

    /// The path to read for the reference a user typed: the reference
    /// trimmed, or the prompt to show when it is blank.
    pub fn reference_path(&self, reference: &str) -> (r: Result<String, String>)
        ensures
            trim(reference@).len() > 0 ==> (r matches Ok(p) && p@ == trim(reference@)),
            trim(reference@).len() == 0 ==> (r matches Err(m) && m@ == "Enter a transcript .jsonl path"@),
    {
        let v = chars_of(reference);
        let t = trim_chars(&v);
        if t.len() == 0 {
            let m = chars_of("Enter a transcript .jsonl path");
            return Err(string_of(&m));
        }
        Ok(string_of(&t))
    }
}

impl BundledSessionStore {
    /// A short label naming where this store reads transcripts from.
    pub fn origin_label(&self) -> (r: &'static str)
        ensures
            r@ == "bundled demo"@,
    {
        "bundled demo"
    }
}

/// The platform default store for native builds.
pub fn default_store() -> (r: FsSessionStore) {
    FsSessionStore
}

} // verus!
