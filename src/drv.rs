//! Derivation paths: the node identifiers of the build graph.
use vstd::prelude::*;

use crate::text::{is_ascii_digit, matches_at};

verus! {

/// The store root every derivation path lives under.
pub open spec fn store_prefix() -> Seq<char> {
    seq!['/', 'n', 'i', 'x', '/', 's', 't', 'o', 'r', 'e', '/']
}

/// The extension every derivation path carries.
pub open spec fn drv_suffix() -> Seq<char> {
    seq!['.', 'd', 'r', 'v']
}

/// A path under the store root whose file name has a non-empty stem and the
/// `drv` extension.
pub open spec fn is_drv_path(s: Seq<char>) -> bool {
    &&& s.len() >= 16
    &&& s.subrange(0, 11) == store_prefix()
    &&& s.subrange(s.len() - 4, s.len() as int) == drv_suffix()
    &&& s[s.len() - 5] != '/'
}

/// A name carries a version when it holds no line break and a dash, preceded by
/// at least one character, is directly followed by an ASCII digit.
pub open spec fn has_version_spec(s: Seq<char>) -> bool {
    &&& forall|i: int| 0 <= i < s.len() ==> s[i] != '\n'
    &&& exists|i: int| 1 <= i && i + 1 < s.len() && s[i] == '-' && is_ascii_digit(#[trigger] s[i + 1])
}

/// Validated path of a derivation in the store.
pub struct DrvPath {
    path: String,
}

impl View for DrvPath {
    type V = Seq<char>;

    closed spec fn view(&self) -> Seq<char> {
        self.path@
    }
}

impl Clone for DrvPath {
    fn clone(&self) -> (r: Self)
        ensures
            r@ == self@,
    {
        DrvPath { path: self.path.clone() }
    }
}

/// Decides `is_drv_path` for a raw string.
pub fn is_valid_drv_path(s: &str) -> (r: bool)
    ensures
        r == is_drv_path(s@),
{
    let n = s.unicode_len();
    if n < 16 {
        return false;
    }
    let pre = matches_at(s, 0, "/nix/store/");
    let suf = matches_at(s, n - 4, ".drv");
    let stem = s.get_char(n - 5) != '/';
    proof {
        reveal_strlit("/nix/store/");
        reveal_strlit(".drv");
        assert("/nix/store/"@ =~= store_prefix());
        assert(".drv"@ =~= drv_suffix());
    }
    pre && suf && stem
}

impl DrvPath {
    /// Wraps a string known to be a derivation path.
    pub fn new(p: &str) -> (r: DrvPath)
        requires
            is_drv_path(p@),
        ensures
            r@ == p@,
    {
        DrvPath { path: p.to_owned() }
    }

    /// Validates `p`; `None` exactly when it is not a derivation path.
    pub fn parse(p: &str) -> (r: Option<DrvPath>)
        ensures
            r is Some <==> is_drv_path(p@),
            r matches Some(d) ==> d@ == p@,
    {
        if is_valid_drv_path(p) {
            Some(DrvPath::new(p))
        } else {
            None
        }
    }

    /// The path as text.
    pub fn as_str(&self) -> (r: &str)
        ensures
            r@ == self@,
    {
        self.path.as_str()
    }

    /// Whether two paths are the same.
    pub fn same(&self, other: &DrvPath) -> (r: bool)
        ensures
            r == (self@ == other@),
    {
        self.path == other.path
    }

    /// Whether the derivation's name carries a version number.
    pub fn has_version(&self) -> (r: bool)
        ensures
            r == has_version_spec(self@),
    {
        has_version(self.path.as_str())
    }
}

/// Decides `has_version_spec` in one pass over the characters.
pub fn has_version(s: &str) -> (r: bool)
    ensures
        r == has_version_spec(s@),
{
    let n = s.unicode_len();
    let mut i: usize = 0;
    let mut found = false;
    let mut prev: char = 'x';
    while i < n
        invariant
            n == s@.len(),
            i <= n,
            forall|j: int| 0 <= j < i ==> s@[j] != '\n',
            i > 0 ==> prev == s@[i - 1],
            found <==> exists|j: int| 1 <= j && j + 1 < i && s@[j] == '-' && is_ascii_digit(#[trigger] s@[j + 1]),
        decreases n - i,
    {
        let c = s.get_char(i);
        if c == '\n' {
            return false;
        }
        if i >= 2 && prev == '-' && '0' <= c && c <= '9' {
            assert(s@[(i - 1) as int] == '-' && is_ascii_digit(s@[(i - 1) + 1]));
            found = true;
        }
        prev = c;
        i = i + 1;
    }
    found
}

} // verus!
