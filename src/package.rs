//! Package names as `<pname>-<version>`.
use vstd::prelude::*;

use crate::text::is_ascii_digit;

verus! {

/// A package name together with the place where its version starts.
#[derive(Debug, Clone, PartialEq, Eq, PartialOrd, Ord, Hash)]
pub struct Package {
    pub name: String,
    v_idx: usize,
}

/// Text that has no version part.
#[derive(Debug)]
pub enum PackageErr {
    Version { name: String },
}

/// Position `i` starts a version split: a dash followed by an ASCII digit.
pub open spec fn splits_at(s: Seq<char>, i: int) -> bool {
    0 <= i && i + 1 < s.len() && s[i] == '-' && is_ascii_digit(s[i + 1])
}

/// Whether `s` holds a version split anywhere.
pub open spec fn has_split(s: Seq<char>) -> bool {
    exists|i: int| #[trigger] splits_at(s, i)
}

impl Package {
    /// The full name.
    pub closed spec fn name_spec(&self) -> Seq<char> {
        self.name@
    }

    /// Where the version starts, just after the separating dash.
    pub closed spec fn version_start(&self) -> int {
        self.v_idx as int
    }

    /// The separating dash lies inside the name.
    pub open spec fn wf(&self) -> bool {
        1 <= self.version_start() <= self.name_spec().len()
    }

    pub open spec fn pname_spec(&self) -> Seq<char> {
        self.name_spec().subrange(0, self.version_start() - 1)
    }

    pub open spec fn version_spec(&self) -> Seq<char> {
        self.name_spec().subrange(self.version_start(), self.name_spec().len() as int)
    }

    /// `<pname>-<version>`, split after `pname`.
    pub fn new(pname: &str, version: &str) -> (r: Package)
        requires
            pname@.len() + 1 + version@.len() <= usize::MAX,
        ensures
            r.wf(),
            r.name_spec() == pname@ + seq!['-'] + version@,
            r.pname_spec() == pname@,
            r.version_spec() == version@,
    {
        let mut name = pname.to_owned();
        name.append("-");
        name.append(version);
        proof {
            reveal_strlit("-");
        }
        let k = pname.unicode_len();
        let r = Package { name, v_idx: k + 1 };
        assert(r.name_spec() =~= pname@ + seq!['-'] + version@);
        assert(r.pname_spec() =~= pname@);
        assert(r.version_spec() =~= version@);
        r
    }

    /// The name without its version.
    pub fn pname(&self) -> (r: &str)
        requires
            self.wf(),
        ensures
            r@ == self.pname_spec(),
    {
        self.name.as_str().substring_char(0, self.v_idx - 1)
    }

    /// The version.
    pub fn version(&self) -> (r: &str)
        requires
            self.wf(),
        ensures
            r@ == self.version_spec(),
    {
        let n = self.name.as_str().unicode_len();
        self.name.as_str().substring_char(self.v_idx, n)
    }

    /// The full name.
    pub fn to_string(&self) -> (r: String)
        ensures
            r@ == self.name_spec(),
    {
        self.name.clone()
    }

    /// Splits a derivation name at its first dash that is followed by a
    /// digit.
    pub fn parse(s: &str) -> (r: Result<Package, PackageErr>)
        ensures
            r is Ok <==> has_split(s@),
            r matches Ok(p) ==> p.wf() && p.name_spec() == s@ && splits_at(s@, p.version_start() - 1)
                && forall|j: int| 0 <= j < p.version_start() - 1 ==> !splits_at(s@, j),
            r matches Err(PackageErr::Version { name }) ==> name@ == s@,
    {
        let n = s.unicode_len();
        let mut i: usize = 0;
        while i < n
            invariant
                n == s@.len(),
                i <= n,
                forall|j: int| 0 <= j < i ==> !splits_at(s@, j),
            decreases n - i,
        {
            if i + 1 < n && s.get_char(i) == '-' {
                let c = s.get_char(i + 1);
                if '0' <= c && c <= '9' {
                    assert(splits_at(s@, i as int));
                    return Ok(Package { name: s.to_owned(), v_idx: i + 1 });
                }
            }
            i = i + 1;
        }
        Err(PackageErr::Version { name: s.to_owned() })
    }
}

impl std::str::FromStr for Package {
    type Err = PackageErr;

    fn from_str(s: &str) -> (r: Result<Package, PackageErr>)
        ensures
            r is Ok <==> has_split(s@),
            r matches Ok(p) ==> p.wf() && p.name_spec() == s@ && splits_at(s@, p.version_start() - 1)
                && forall|j: int| 0 <= j < p.version_start() - 1 ==> !splits_at(s@, j),
            r matches Err(PackageErr::Version { name }) ==> name@ == s@,
    {
        Package::parse(s)
    }
}

} // verus!
