//! Where the experts of a model lie on disk: one file per expert.

use crate::manifest::Manifest;
use crate::text::{join_path, push_decimal};
use vstd::prelude::*;
use vstd::string::*;

verus! {

/// One file per expert, read at once, by default around the page cache.
pub struct PreadStorage {
    base_path: String,
    manifest: Manifest,
    expert_size: usize,
    use_direct_io: bool,
}

/// `expert_{id}.bin`.
pub open spec fn default_file(id: u32) -> Seq<char> {
    "expert_"@ + crate::text::decimal(id as nat) + ".bin"@
}

/// The file name of an expert that no manifest lists.
pub fn default_file_name(id: u32) -> (s: String)
    ensures
        s@ == default_file(id),
{
    let mut s: String = String::new();
    s.append("expert_");
    push_decimal(&mut s, id as u64);
    s.append(".bin");
    assert(s@ =~= default_file(id));
    s
}

impl PreadStorage {
    pub closed spec fn spec_base_path(&self) -> Seq<char> {
        self.base_path@
    }

    pub closed spec fn spec_manifest(&self) -> Manifest {
        self.manifest
    }

    pub closed spec fn spec_expert_size(&self) -> usize {
        self.expert_size
    }

    pub closed spec fn spec_direct_io(&self) -> bool {
        self.use_direct_io
    }

    /// The path of an expert's file: as listed in the manifest, else by its id.
    pub open spec fn path_of(&self, id: u32) -> Seq<char> {
        let map = self.spec_manifest().expert_map@;
        crate::text::joined(
            self.spec_base_path(),
            if map.contains_key(id) {
                map[id].file@
            } else {
                default_file(id)
            },
        )
    }

    /// The expert size is that of the manifest's first expert.
    pub fn new(base_path: String, manifest: Manifest) -> (s: Self)
        ensures
            s.spec_base_path() == base_path@,
            s.spec_manifest() == manifest,
            s.spec_expert_size() == match crate::manifest::lowest_entry(manifest.expert_map@) {
                Some(e) => e.byte_size as usize,
                None => 0,
            },
            s.spec_direct_io(),
    {
        let expert_size: usize = match manifest.first_entry() {
            Some(e) => e.byte_size as usize,
            None => 0,
        };
        PreadStorage { base_path, manifest, expert_size, use_direct_io: true }
    }

    pub fn set_direct_io(&mut self, on: bool)
        ensures
            final(self).spec_direct_io() == on,
            final(self).spec_base_path() == old(self).spec_base_path(),
            final(self).spec_manifest() == old(self).spec_manifest(),
            final(self).spec_expert_size() == old(self).spec_expert_size(),
    {
        self.use_direct_io = on;
    }

    pub fn direct_io(&self) -> (on: bool)
        ensures
            on == self.spec_direct_io(),
    {
        self.use_direct_io
    }

    pub fn manifest(&self) -> (m: &Manifest)
        ensures
            *m == self.spec_manifest(),
    {
        &self.manifest
    }

    pub fn expert_path(&self, expert_id: u32) -> (p: String)
        ensures
            p@ == self.path_of(expert_id),
    {
        match self.manifest.lookup(expert_id) {
            Some(entry) => join_path(self.base_path.as_str(), entry.file.as_str()),
            None => join_path(
                self.base_path.as_str(),
                default_file_name(expert_id).as_str(),
            ),
        }
    }

    /// How many bytes a read into a buffer of `buf_len` bytes should give, if
    /// `got` is fewer.
    pub fn short_read(&self, buf_len: usize, got: usize) -> (expected: Option<usize>)
        ensures
            ({
                let n = if buf_len < self.spec_expert_size() {
                    buf_len
                } else {
                    self.spec_expert_size()
                };
                expected == if got < n {
                    Some(n)
                } else {
                    None
                }
            }),
    {
        let n: usize = if buf_len < self.expert_size {
            buf_len
        } else {
            self.expert_size
        };
        if got < n {
            Some(n)
        } else {
            None
        }
    }
}

/// An expert that the manifest lists is looked for in the file that is listed,
/// and any other in the one that its id names, both below the storage's
/// directory.
pub proof fn law_path(s: &PreadStorage, id: u32)
    ensures
        ({
            let map = s.spec_manifest().expert_map@;
            let file = if map.contains_key(id) {
                map[id].file@
            } else {
                "expert_"@ + crate::text::decimal(id as nat) + ".bin"@
            };
            let base = s.spec_base_path();
            s.path_of(id) == if file.len() > 0 && file[0] == '/' {
                file
            } else if base.len() == 0 || base.last() == '/' {
                base + file
            } else {
                base.push('/') + file
            }
        }),
{
    let map = s.spec_manifest().expert_map@;
    let file = if map.contains_key(id) {
        map[id].file@
    } else {
        default_file(id)
    };
    crate::text::law_joined(s.spec_base_path(), file);
}

/// Different experts have different file names.
pub proof fn law_default_files_distinct(a: u32, b: u32)
    requires
        a != b,
    ensures
        default_file(a) != default_file(b),
{
    let (x, y) = (crate::text::decimal(a as nat), crate::text::decimal(b as nat));
    if default_file(a) == default_file(b) {
        let s = default_file(a);
        assert(s =~= "expert_"@ + (x + ".bin"@));
        assert(default_file(b) =~= "expert_"@ + (y + ".bin"@));
        crate::text::law_prefix(s, "expert_"@, x + ".bin"@);
        crate::text::law_prefix(s, "expert_"@, y + ".bin"@);
        crate::text::law_suffix(x + ".bin"@, ".bin"@, x);
        crate::text::law_suffix(x + ".bin"@, ".bin"@, y);
        crate::text::law_decimal_distinct(a as nat, b as nat);
    }
}

} // verus!
