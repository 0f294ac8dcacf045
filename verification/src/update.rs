//! Deciding how to install an update package picked by the user (the
//! offline path for users who cannot reach the online updater): which kind of
//! package it is, and which application bundle in it to install.
use vstd::prelude::*;
use crate::scanner;
use crate::scanner::file_extension;
use crate::text;
use crate::text::{chars_of, eq_chars, to_lowercase};

verus! {

/// The kinds of update package that can be installed.
#[derive(Debug, Clone, Copy, PartialEq, Eq, Structural)]
pub enum UpdatePackageKind {
    /// A disk image (`.dmg`), mounted to copy the application out.
    DiskImage,
    /// A gzipped tarball (`.app.tar.gz` or `.tgz`), unpacked.
    TarGz,
}

/// The kind of a package by its file name's extension, lowercased: `dmg` is a
/// disk image; `gz` (as in `.app.tar.gz`, whose last extension is `gz`) and
/// `tgz` are tarballs; anything else is not supported.
pub open spec fn spec_package_kind(file_name: Seq<char>) -> Option<UpdatePackageKind> {
    match scanner::spec_extension(file_name) {
        Some(ext) => spec_kind_of_extension(text::lowercase(ext)),
        None => None,
    }
}

/// The kind of package a lowercased extension stands for.
pub open spec fn spec_kind_of_extension(low: Seq<char>) -> Option<UpdatePackageKind> {
    if low == seq!['d', 'm', 'g'] {
        Some(UpdatePackageKind::DiskImage)
    } else if low == seq!['g', 'z'] || low == seq!['t', 'g', 'z'] {
        Some(UpdatePackageKind::TarGz)
    } else {
        None
    }
}

/// The kind of package an already lowercased extension stands for, if supported.
pub fn package_kind_of_extension(low: &str) -> (r: Option<UpdatePackageKind>)
    ensures
        r == spec_kind_of_extension(low@),
{
    let low = chars_of(low);
    let dmg = vec!['d', 'm', 'g'];
    let gz = vec!['g', 'z'];
    let tgz = vec!['t', 'g', 'z'];
    proof {
        assert(dmg@ =~= seq!['d', 'm', 'g']);
        assert(gz@ =~= seq!['g', 'z']);
        assert(tgz@ =~= seq!['t', 'g', 'z']);
    }
    if eq_chars(&low, &dmg) {
        Some(UpdatePackageKind::DiskImage)
    } else if eq_chars(&low, &gz) || eq_chars(&low, &tgz) {
        Some(UpdatePackageKind::TarGz)
    } else {
        None
    }
}

/// The kind of the update package named `file_name`, if supported.
pub fn update_package_kind(file_name: &str) -> (r: Option<UpdatePackageKind>)
    ensures
        r == spec_package_kind(file_name@),
{
    match file_extension(file_name) {
        Some(ext) => package_kind_of_extension(to_lowercase(ext.as_str()).as_str()),
        None => None,
    }
}

/// Whether a file name is that of an application bundle: its extension is
/// exactly `app`.
pub open spec fn spec_is_app_bundle_name(name: Seq<char>) -> bool {
    scanner::spec_extension(name) == Some(seq!['a', 'p', 'p'])
}

/// Whether `name` is that of an application bundle.
pub fn is_app_bundle_name(name: &str) -> (r: bool)
    ensures
        r == spec_is_app_bundle_name(name@),
{
    match file_extension(name) {
        Some(ext) => {
            let app = vec!['a', 'p', 'p'];
            proof {
                assert(app@ =~= seq!['a', 'p', 'p']);
            }
            eq_chars(&chars_of(ext.as_str()), &app)
        },
        None => false,
    }
}

/// An entry of an unpacked package.
pub struct PackageItem {
    /// The entry's file name.
    pub name: String,
    /// Whether it is a directory.
    pub is_dir: bool,
}

/// The first directory among the items that is an application bundle.
pub open spec fn spec_find_app_bundle(items: Seq<PackageItem>) -> Option<Seq<char>>
    decreases items.len(),
{
    if items.len() == 0 {
        None
    } else if items[0].is_dir && spec_is_app_bundle_name(items[0].name@) {
        Some(items[0].name@)
    } else {
        spec_find_app_bundle(items.drop_first())
    }
}

/// The name of the application bundle in an unpacked package: the first
/// directory, in the order given, whose extension is `app`.
pub fn find_app_bundle(items: &Vec<PackageItem>) -> (r: Option<String>)
    ensures
        match r {
            Some(n) => spec_find_app_bundle(items@) == Some(n@),
            None => spec_find_app_bundle(items@) is None,
        },
{
    let mut i: usize = 0;
    proof {
        assert(items@.skip(0) =~= items@);
    }
    while i < items.len()
        invariant
            i <= items.len(),
            spec_find_app_bundle(items@) == spec_find_app_bundle(items@.skip(i as int)),
        decreases items.len() - i,
    {
        proof {
            assert(items@.skip(i as int)[0] == items@[i as int]);
            assert(items@.skip(i as int).drop_first() =~= items@.skip(i + 1));
        }
        if items[i].is_dir && is_app_bundle_name(items[i].name.as_str()) {
            return Some(items[i].name.clone());
        }
        i = i + 1;
    }
    None
}

} // verus!
