//! Issue tracker repository names.
use vstd::prelude::*;

verus! {

/// A repository on the issue tracker: `<owner>/<repo>`.
#[derive(Debug, Clone, PartialEq)]
pub struct RepoSpec {
    pub owner: String,
    pub repo: String,
}

/// Text that is not `<owner>/<repo>`.
#[derive(Debug)]
pub enum RepoFormatErr {
    RepoFormat,
}

/// `s` has exactly one slash, at `k`, with text on both sides.
pub open spec fn splits_repo(s: Seq<char>, k: int) -> bool {
    &&& 0 < k && k + 1 < s.len()
    &&& s[k] == '/'
    &&& forall|j: int| 0 <= j < s.len() && j != k ==> s[j] != '/'
}

impl RepoSpec {
    pub fn new(owner: &str, repo: &str) -> (r: RepoSpec)
        ensures
            r.owner@ == owner@,
            r.repo@ == repo@,
    {
        RepoSpec { owner: owner.to_owned(), repo: repo.to_owned() }
    }

    /// Reads `<owner>/<repo>`: one slash, neither part empty.
    pub fn parse(s: &str) -> (r: Result<RepoSpec, RepoFormatErr>)
        ensures
            r is Ok <==> exists|k: int| splits_repo(s@, k),
            r matches Ok(p) ==> exists|k: int| splits_repo(s@, k) && p.owner@ == s@.subrange(0, k)
                && p.repo@ == s@.subrange(k + 1, s@.len() as int),
    {
        let n = s.unicode_len();
        let mut i: usize = 0;
        let mut slash: Option<usize> = None;
        while i < n
            invariant
                n == s@.len(),
                i <= n,
                match slash {
                    None => forall|j: int| 0 <= j < i ==> s@[j] != '/',
                    Some(k) => k < i && s@[k as int] == '/' && forall|j: int| 0 <= j < i && j != k ==> s@[j] != '/',
                },
            decreases n - i,
        {
            if s.get_char(i) == '/' {
                if let Some(k) = slash {
                    assert(!splits_repo(s@, k as int));
                    assert forall|m: int| !splits_repo(s@, m) by {
                        if m != k as int {
                            assert(s@[k as int] == '/');
                        }
                    }
                    return Err(RepoFormatErr::RepoFormat);
                }
                slash = Some(i);
            }
            i = i + 1;
        }
        match slash {
            Some(k) => {
                if k == 0 || k + 1 == n {
                    assert forall|m: int| !splits_repo(s@, m) by {
                        if m != k as int {
                            assert(s@[k as int] == '/');
                        }
                    }
                    return Err(RepoFormatErr::RepoFormat);
                }
                assert(splits_repo(s@, k as int));
                Ok(RepoSpec {
                    owner: s.substring_char(0, k).to_owned(),
                    repo: s.substring_char(k + 1, n).to_owned(),
                })
            },
            None => {
                assert forall|m: int| !splits_repo(s@, m) by {
                    if 0 <= m < s@.len() {
                        assert(s@[m] != '/');
                    }
                }
                Err(RepoFormatErr::RepoFormat)
            },
        }
    }
}

impl std::str::FromStr for RepoSpec {
    type Err = RepoFormatErr;

    fn from_str(s: &str) -> (r: Result<RepoSpec, RepoFormatErr>)
        ensures
            r is Ok <==> exists|k: int| splits_repo(s@, k),
            r matches Ok(p) ==> exists|k: int| splits_repo(s@, k) && p.owner@ == s@.subrange(0, k)
                && p.repo@ == s@.subrange(k + 1, s@.len() as int),
    {
        RepoSpec::parse(s)
    }
}

} // verus!
