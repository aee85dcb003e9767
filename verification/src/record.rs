//! The package record: what the index says of one variant of a package.

use vstd::prelude::*;

verus! {

/// One variant of a package, as the channel index describes it.
///
/// The version is kept as it is written in the index; what it means is
/// decided by the conda rules (see `crate::conda`).
pub struct PackageRecord {
    /// The package's name.
    pub name: String,
    /// The version, as written.
    pub version: String,
    /// The build string.
    pub build: String,
    /// The build number.
    pub build_number: u64,
    /// The single feature tag, if the variant has one.
    pub features: Option<String>,
    /// The tracked feature tags.
    pub track_features: Vec<String>,
    /// The dependency clauses: a package name, and after one white space an
    /// optional constraint.
    pub depends: Vec<String>,
    /// The MD5 digest of the package's archive, if the index gives one.
    pub md5: Option<[u8; 16]>,
    /// The SHA-256 digest of the package's archive, if the index gives one.
    pub sha256: Option<[u8; 32]>,
    /// The licence, if the index gives one.
    pub license: Option<String>,
    /// The licence family, if the index gives one.
    pub license_family: Option<String>,
    /// The flags by which variants are told apart.
    pub flags: Vec<String>,
}

/// A package record as plain values.
pub struct PackageRecordView {
    pub name: Seq<char>,
    pub version: Seq<char>,
    pub build: Seq<char>,
    pub build_number: u64,
    pub features: Option<Seq<char>>,
    pub track_features: Seq<Seq<char>>,
    pub depends: Seq<Seq<char>>,
    pub md5: Option<Seq<u8>>,
    pub sha256: Option<Seq<u8>>,
    pub license: Option<Seq<char>>,
    pub license_family: Option<Seq<char>>,
    pub flags: Seq<Seq<char>>,
}

impl View for PackageRecord {
    type V = PackageRecordView;

    open spec fn view(&self) -> PackageRecordView {
        PackageRecordView {
            name: self.name@,
            version: self.version@,
            build: self.build@,
            build_number: self.build_number,
            features: match self.features {
                Some(tag) => Some(tag@),
                None => None,
            },
            track_features: self.track_features@.map_values(|tag: String| tag@),
            depends: self.depends@.map_values(|clause: String| clause@),
            md5: match self.md5 {
                Some(digest) => Some(digest@),
                None => None,
            },
            sha256: match self.sha256 {
                Some(digest) => Some(digest@),
                None => None,
            },
            license: match self.license {
                Some(text) => Some(text@),
                None => None,
            },
            license_family: match self.license_family {
                Some(text) => Some(text@),
                None => None,
            },
            flags: self.flags@.map_values(|flag: String| flag@),
        }
    }
}

} // verus!
