//! Shorthands for writing advisories and packages in examples and tests.
use vstd::prelude::*;

use crate::advisory::{cve_of, is_cve, Advisory};
use crate::branch::Branch;
use crate::package::{has_split, splits_at, Package};

verus! {

/// The advisory named by well-formed CVE text.
pub fn adv(cve: &str) -> (r: Advisory)
    requires
        is_cve(cve@),
    ensures
        r == cve_of(cve@),
{
    Advisory::parse(cve).unwrap()
}

/// The package named by text that holds a version.
pub fn pkg(p: &str) -> (r: Package)
    requires
        has_split(p@),
    ensures
        r.wf(),
        r.name_spec() == p@,
        splits_at(p@, r.version_start() - 1),
        forall|j: int| 0 <= j < r.version_start() - 1 ==> !splits_at(p@, j),
{
    Package::parse(p).unwrap()
}

/// The branch of that name, checked out at the revision of the same name.
pub fn br(name: &str) -> (r: Branch)
    ensures
        r.name@ == name@,
        r.rev@ == name@,
{
    Branch::new(name)
}

} // verus!
