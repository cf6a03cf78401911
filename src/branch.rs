//! Release branches to scan: a published name and the git revision behind it.
use vstd::prelude::*;

use crate::text::{is_posix_space, is_unicode_space, posix_space, unicode_space};

verus! {

/// A NixOS release to scan. The git revision may differ from the name under
/// which results are published.
#[derive(Debug, Default, Hash, PartialEq, Eq, PartialOrd, Ord)]
pub struct Branch {
    /// Release name used in tickets.
    pub name: String,
    /// Git revision specification, usually a branch name.
    pub rev: String,
}

/// A branch specification that cannot be used.
#[derive(Debug)]
pub enum BranchErr {
    /// Not `<name>` or `<name>=<rev>`.
    Invalid { spec: String },
    /// Two branches share a name.
    Duplicate { name: String },
}

/// A release name: no slash, no `=` and no ASCII whitespace.
pub open spec fn name_char(c: char) -> bool {
    c != '/' && c != '=' && !is_posix_space(c)
}

/// A revision: no whitespace at all.
pub open spec fn rev_char(c: char) -> bool {
    !is_unicode_space(c)
}

/// Position of the first `=` in `s`, or its length when there is none.
pub open spec fn name_end(s: Seq<char>) -> int {
    if exists|i: int| 0 <= i < s.len() && s[i] == '=' {
        choose|i: int| 0 <= i < s.len() && s[i] == '=' && forall|j: int| 0 <= j < i ==> s[j] != '='
    } else {
        s.len() as int
    }
}

/// `<name>` or `<name>=<rev>`, both parts non-empty.
pub open spec fn is_branch_spec(s: Seq<char>, k: int) -> bool {
    &&& 0 < k
    &&& forall|j: int| 0 <= j < k ==> name_char(#[trigger] s[j])
    &&& (k == s.len() || (s[k] == '=' && k + 1 < s.len()
        && forall|j: int| k < j < s.len() ==> rev_char(#[trigger] s[j])))
}

impl Clone for Branch {
    fn clone(&self) -> (r: Self)
        ensures
            r.name@ == self.name@,
            r.rev@ == self.rev@,
    {
        Branch { name: self.name.clone(), rev: self.rev.clone() }
    }
}

impl Branch {
    /// A branch whose revision is its name.
    pub fn new(name: &str) -> (r: Branch)
        ensures
            r.name@ == name@,
            r.rev@ == name@,
    {
        Branch { name: name.to_owned(), rev: name.to_owned() }
    }

    /// Reads `<name>` or `<name>=<rev>`: the name holds no slash, `=` or
    /// ASCII whitespace, the revision no whitespace.
    pub fn parse(s: &str) -> (r: Result<Branch, BranchErr>)
        ensures
            r is Ok <==> is_branch_spec(s@, name_end(s@)),
            r matches Ok(b) ==> b.name@ == s@.subrange(0, name_end(s@)) && b.rev@ == if name_end(s@)
                == s@.len() {
                s@
            } else {
                s@.subrange(name_end(s@) + 1, s@.len() as int)
            },
            r matches Err(e) ==> (e matches BranchErr::Invalid { spec } && spec@ == s@),
    {
        let n = s.unicode_len();
        let mut k: usize = 0;
        let mut ok = true;
        while k < n && s.get_char(k) != '='
            invariant
                n == s@.len(),
                k <= n,
                forall|j: int| 0 <= j < k ==> s@[j] != '=',
                ok == forall|j: int| 0 <= j < k ==> name_char(#[trigger] s@[j]),
            decreases n - k,
        {
            let c = s.get_char(k);
            if c == '/' || posix_space(c) {
                ok = false;
            }
            k = k + 1;
        }
        proof {
            if k < n {
                assert(exists|i: int| 0 <= i < s@.len() && s@[i] == '=');
                let m = name_end(s@);
                assert(s@[m] == '=' && forall|j: int| 0 <= j < m ==> s@[j] != '=');
                assert(m == k) by {
                    if m < k {
                    } else if m > k {
                        assert(s@[k as int] == '=');
                    }
                }
            } else {
                assert(!exists|i: int| 0 <= i < s@.len() && s@[i] == '=');
            }
        }
        if k == 0 || !ok {
            return Err(BranchErr::Invalid { spec: s.to_owned() });
        }
        let name = s.substring_char(0, k).to_owned();
        if k == n {
            return Ok(Branch { name, rev: s.to_owned() });
        }
        if k + 1 == n {
            return Err(BranchErr::Invalid { spec: s.to_owned() });
        }
        let mut j: usize = k + 1;
        while j < n
            invariant
                n == s@.len(),
                k < j <= n,
                name_end(s@) == k as int,
                forall|i: int| k < i < j ==> rev_char(#[trigger] s@[i]),
            decreases n - j,
        {
            if unicode_space(s.get_char(j)) {
                assert(!rev_char(s@[j as int]));
                return Err(BranchErr::Invalid { spec: s.to_owned() });
            }
            j = j + 1;
        }
        Ok(Branch { name, rev: s.substring_char(k + 1, n).to_owned() })
    }
}

impl std::str::FromStr for Branch {
    type Err = BranchErr;

    fn from_str(s: &str) -> (r: Result<Branch, BranchErr>)
        ensures
            r is Ok <==> is_branch_spec(s@, name_end(s@)),
            r matches Ok(b) ==> b.name@ == s@.subrange(0, name_end(s@)) && b.rev@ == if name_end(s@)
                == s@.len() {
                s@
            } else {
                s@.subrange(name_end(s@) + 1, s@.len() as int)
            },
            r matches Err(e) ==> (e matches BranchErr::Invalid { spec } && spec@ == s@),
    {
        Branch::parse(s)
    }
}

/// No two branches share a name.
pub open spec fn names_distinct(bs: Seq<Branch>) -> bool {
    forall|i: int, j: int| 0 <= i < j < bs.len() ==> bs[i].name@ != bs[j].name@
}

/// The branches to scan, with distinct names.
pub struct Branches {
    specs: Vec<Branch>,
}

impl Branches {
    pub closed spec fn view_specs(&self) -> Seq<Branch> {
        self.specs@
    }

    /// Checks that the names are distinct and keeps the branches in order.
    pub fn init(specs: &Vec<Branch>) -> (r: Result<Branches, BranchErr>)
        ensures
            r is Ok <==> names_distinct(specs@),
            r matches Ok(b) ==> b.view_specs().len() == specs@.len() && forall|i: int|
                0 <= i < specs@.len() ==> (#[trigger] b.view_specs()[i]).name@ == specs@[i].name@
                    && b.view_specs()[i].rev@ == specs@[i].rev@,
            r matches Err(e) ==> (e matches BranchErr::Duplicate { name } && exists|i: int, j: int|
                #![trigger specs@[i], specs@[j]]
                0 <= i < j < specs@.len() && specs@[i].name@ == name@ && specs@[j].name@ == name@),
    {
        let mut out: Vec<Branch> = Vec::new();
        let mut i: usize = 0;
        while i < specs.len()
            invariant
                i <= specs.len(),
                out@.len() == i,
                forall|a: int| 0 <= a < i ==> (#[trigger] out@[a]).name@ == specs@[a].name@
                    && out@[a].rev@ == specs@[a].rev@,
                forall|a: int, b: int| 0 <= a < b < specs@.len() && a < i ==> specs@[a].name@ != specs@[b].name@,
            decreases specs.len() - i,
        {
            let mut j: usize = i + 1;
            while j < specs.len()
                invariant
                    i < specs.len(),
                    i < j <= specs.len(),
                    forall|b: int| i < b < j ==> specs@[i as int].name@ != (#[trigger] specs@[b]).name@,
                decreases specs.len() - j,
            {
                if specs[j].name == specs[i].name {
                    return Err(BranchErr::Duplicate { name: specs[i].name.clone() });
                }
                j = j + 1;
            }
            out.push(specs[i].clone());
            i = i + 1;
        }
        Ok(Branches { specs: out })
    }

    /// The branches, in the order given.
    pub fn specs(&self) -> (r: &Vec<Branch>)
        ensures
            r@ == self.view_specs(),
    {
        &self.specs
    }
}

} // verus!
