use vstd::prelude::*;

verus! {

/// One supported archive dialect. The variants are ordered oldest to
/// newest; every dialect fixes its trailer size and index feature set.
#[derive(Debug, Clone, Copy, PartialEq, Eq, Structural)]
pub enum Version {
    Initial,
    NoTimestamps,
    CompressionEncryption,
    IndexEncryption,
    RelativeChunkOffsets,
    DeleteRecords,
    EncryptionKeyGuid,
    FNameBasedCompression,
    FrozenIndex,
    PathHashIndex,
    Fnv64BugFix,
}

impl Version {
    /// The number this dialect writes in the trailer's version field.
    pub open spec fn spec_num(self) -> u32 {
        match self {
            Version::Initial => 1,
            Version::NoTimestamps => 2,
            Version::CompressionEncryption => 3,
            Version::IndexEncryption => 4,
            Version::RelativeChunkOffsets => 5,
            Version::DeleteRecords => 6,
            Version::EncryptionKeyGuid => 7,
            Version::FNameBasedCompression => 8,
            Version::FrozenIndex => 9,
            Version::PathHashIndex => 10,
            Version::Fnv64BugFix => 11,
        }
    }

    /// Exec mirror of `spec_num`.
    #[verifier::when_used_as_spec(spec_num)]
    pub fn num(self) -> (r: u32)
        ensures
            r == self.spec_num(),
    {
        match self {
            Version::Initial => 1,
            Version::NoTimestamps => 2,
            Version::CompressionEncryption => 3,
            Version::IndexEncryption => 4,
            Version::RelativeChunkOffsets => 5,
            Version::DeleteRecords => 6,
            Version::EncryptionKeyGuid => 7,
            Version::FNameBasedCompression => 8,
            Version::FrozenIndex => 9,
            Version::PathHashIndex => 10,
            Version::Fnv64BugFix => 11,
        }
    }

    /// Whether the index carries the path-hash and full-directory
    /// sub-indexes with compact encoded entries, instead of the legacy
    /// flat entry list.
    pub open spec fn spec_has_path_hash_index(self) -> bool {
        self.spec_num() >= 10
    }

    #[verifier::when_used_as_spec(spec_has_path_hash_index)]
    pub fn has_path_hash_index(self) -> (r: bool)
        ensures
            r == self.spec_has_path_hash_index(),
    {
        self.num() >= 10
    }

    /// How many compression-method names the trailer carries.
    pub open spec fn spec_method_count(self) -> u64 {
        if self.spec_num() >= 11 {
            6
        } else if self.spec_num() >= 8 {
            5
        } else {
            0
        }
    }

    #[verifier::when_used_as_spec(spec_method_count)]
    pub fn method_count(self) -> (r: u64)
        ensures
            r == self.spec_method_count(),
    {
        if self.num() >= 11 {
            6
        } else if self.num() >= 8 {
            5
        } else {
            0
        }
    }

    /// The byte size of this dialect's trailer: the fixed fields plus an
    /// encrypted flag, a key guid, a frozen flag and the method-name table
    /// in the dialects that carry them.
    pub open spec fn spec_footer_size(self) -> u64 {
        (44 + (if self.spec_num() >= 4 {
            1int
        } else {
            0int
        }) + (if self.spec_num() >= 7 {
            16int
        } else {
            0int
        }) + (if self.spec_num() == 9 {
            1int
        } else {
            0int
        }) + 32 * self.spec_method_count()) as u64
    }

    #[verifier::when_used_as_spec(spec_footer_size)]
    pub fn footer_size(self) -> (r: u64)
        ensures
            r == self.spec_footer_size(),
    {
        let mut s: u64 = 44;
        if self.num() >= 4 {
            s = s + 1;
        }
        if self.num() >= 7 {
            s = s + 16;
        }
        if self.num() == 9 {
            s = s + 1;
        }
        s + 32 * self.method_count()
    }

    /// Every supported dialect, oldest first.
    pub open spec fn spec_all() -> Seq<Version> {
        seq![
            Version::Initial,
            Version::NoTimestamps,
            Version::CompressionEncryption,
            Version::IndexEncryption,
            Version::RelativeChunkOffsets,
            Version::DeleteRecords,
            Version::EncryptionKeyGuid,
            Version::FNameBasedCompression,
            Version::FrozenIndex,
            Version::PathHashIndex,
            Version::Fnv64BugFix,
        ]
    }

    /// The profile table, oldest first.
    pub fn all() -> (r: Vec<Version>)
        ensures
            r@ == Version::spec_all(),
    {
        let v: Vec<Version> = vec![
            Version::Initial,
            Version::NoTimestamps,
            Version::CompressionEncryption,
            Version::IndexEncryption,
            Version::RelativeChunkOffsets,
            Version::DeleteRecords,
            Version::EncryptionKeyGuid,
            Version::FNameBasedCompression,
            Version::FrozenIndex,
            Version::PathHashIndex,
            Version::Fnv64BugFix,
        ];
        proof {
            assert(v@ =~= Version::spec_all());
        }
        v
    }
}

} // verus!
