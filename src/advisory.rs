//! Security advisory identifiers.
use vstd::prelude::*;

use crate::text::{decimal, digit_value, digits_value, is_ascii_digit, push_char, push_decimal};

verus! {

/// A security advisory.
#[derive(Debug, Clone, Copy, PartialEq, Eq, Structural, PartialOrd, Ord, Hash)]
pub enum Advisory {
    /// A CVE entry: year and sequence number.
    CVE { y: u16, n: u64 },
}

/// Text that is not an advisory identifier.
#[derive(Debug)]
pub enum AdvErr {
    ParseCVE { id: String },
}

/// `s` left-padded with zeros to at least four characters.
pub open spec fn pad4(s: Seq<char>) -> Seq<char> {
    if s.len() < 4 {
        Seq::new((4 - s.len()) as nat, |_i: int| '0') + s
    } else {
        s
    }
}

/// `CVE-<year>-<number>`, the number zero-padded to at least four digits.
pub open spec fn cve_text(y: nat, n: nat) -> Seq<char> {
    seq!['C', 'V', 'E', '-'] + decimal(y) + seq!['-'] + pad4(decimal(n))
}

pub open spec fn all_digits(s: Seq<char>) -> bool {
    forall|i: int| 0 <= i < s.len() ==> is_ascii_digit(#[trigger] s[i])
}

/// `CVE-`, four digits, `-`, and one or more digits whose number fits in 64
/// bits.
pub open spec fn is_cve(s: Seq<char>) -> bool {
    &&& s.len() >= 10
    &&& s.subrange(0, 4) == seq!['C', 'V', 'E', '-']
    &&& all_digits(s.subrange(4, 8))
    &&& s[8] == '-'
    &&& all_digits(s.subrange(9, s.len() as int))
    &&& digits_value(s.subrange(9, s.len() as int)) <= u64::MAX
}

/// The advisory that `is_cve` text names.
pub open spec fn cve_of(s: Seq<char>) -> Advisory {
    Advisory::CVE {
        y: digits_value(s.subrange(4, 8)) as u16,
        n: digits_value(s.subrange(9, s.len() as int)) as u64,
    }
}

proof fn lemma_digits_value_prefix(s: Seq<char>, i: int)
    requires
        0 <= i <= s.len(),
    ensures
        digits_value(s.subrange(0, i)) <= digits_value(s),
    decreases s.len(),
{
    if i < s.len() {
        assert(s.drop_last().subrange(0, i) =~= s.subrange(0, i));
        lemma_digits_value_prefix(s.drop_last(), i);
    } else {
        assert(s.subrange(0, i) =~= s);
    }
}

proof fn lemma_four_digits(s: Seq<char>)
    requires
        s.len() == 4,
        all_digits(s),
    ensures
        digits_value(s) <= 9999,
{
    reveal_with_fuel(digits_value, 5);
    assert(s.drop_last().drop_last().drop_last().drop_last() =~= Seq::<char>::empty());
    assert(is_ascii_digit(s[0]) && is_ascii_digit(s[1]) && is_ascii_digit(s[2]) && is_ascii_digit(s[3]));
}

/// The number that the ASCII digits `s[from..to]` denote; `None` when the
/// range is empty, holds another character, or the number exceeds 64 bits.
fn parse_digits(s: &str, from: usize, to: usize) -> (r: Option<u64>)
    requires
        from <= to <= s@.len(),
    ensures
        r is Some <==> (from < to && all_digits(s@.subrange(from as int, to as int))
            && digits_value(s@.subrange(from as int, to as int)) <= u64::MAX),
        r matches Some(v) ==> v == digits_value(s@.subrange(from as int, to as int)),
{
    if from == to {
        return None;
    }
    let ghost t = s@.subrange(from as int, to as int);
    let mut v: u64 = 0;
    let mut i: usize = from;
    while i < to
        invariant
            from <= i <= to <= s@.len(),
            t == s@.subrange(from as int, to as int),
            all_digits(s@.subrange(from as int, i as int)),
            v == digits_value(s@.subrange(from as int, i as int)),
        decreases to - i,
    {
        let c = s.get_char(i);
        let ghost pre = s@.subrange(from as int, i as int);
        assert(s@.subrange(from as int, i + 1).drop_last() =~= pre);
        if c < '0' || c > '9' {
            assert(t[i - from] == c);
            return None;
        }
        let d = (c as u32 - 48) as u64;
        assert(d == digit_value(c));
        let w: u128 = v as u128 * 10 + d as u128;
        if w > u64::MAX as u128 {
            proof {
                assert(t.subrange(0, i + 1 - from) =~= s@.subrange(from as int, i + 1));
                lemma_digits_value_prefix(t, i + 1 - from);
                if all_digits(t) {
                }
            }
            return None;
        }
        v = w as u64;
        i = i + 1;
    }
    Some(v)
}

impl Advisory {
    /// Reads `CVE-<year>-<number>`.
    pub fn parse(s: &str) -> (r: Result<Advisory, AdvErr>)
        ensures
            r is Ok <==> is_cve(s@),
            r matches Ok(a) ==> a == cve_of(s@),
            r matches Err(AdvErr::ParseCVE { id }) ==> id@ == s@,
    {
        let len = s.unicode_len();
        if len < 10 || !crate::text::matches_at(s, 0, "CVE-") || s.get_char(8) != '-' {
            proof {
                reveal_strlit("CVE-");
                assert("CVE-"@ =~= seq!['C', 'V', 'E', '-']);
            }
            return Err(AdvErr::ParseCVE { id: s.to_owned() });
        }
        proof {
            reveal_strlit("CVE-");
            assert("CVE-"@ =~= seq!['C', 'V', 'E', '-']);
        }
        proof {
            if all_digits(s@.subrange(4, 8)) {
                lemma_four_digits(s@.subrange(4, 8));
            }
        }
        let y = parse_digits(s, 4, 8);
        let n = parse_digits(s, 9, len);
        match (y, n) {
            (Some(y), Some(n)) => {
                Ok(Advisory::CVE { y: y as u16, n })
            },
            _ => Err(AdvErr::ParseCVE { id: s.to_owned() }),
        }
    }

    /// `CVE-<year>-<number>`, the number zero-padded to four digits.
    pub fn to_string(&self) -> (r: String)
        ensures
            match *self {
                Advisory::CVE { y, n } => r@ == cve_text(y as nat, n as nat),
            },
    {
        match *self {
            Advisory::CVE { y, n } => {
                let mut s = String::new();
                push_char(&mut s, 'C');
                push_char(&mut s, 'V');
                push_char(&mut s, 'E');
                push_char(&mut s, '-');
                push_decimal(&mut s, y as u64);
                push_char(&mut s, '-');
                let ghost before = s@;
                let zeros: usize = if n < 10 {
                    3
                } else if n < 100 {
                    2
                } else if n < 1000 {
                    1
                } else {
                    0
                };
                proof {
                    reveal_with_fuel(decimal, 4);
                    assert(decimal(n as nat).len() + zeros == 4 || (zeros == 0 && decimal(n as nat).len() >= 4)) by {
                        lemma_decimal_len(n as nat);
                    }
                }
                let mut k: usize = 0;
                while k < zeros
                    invariant
                        k <= zeros,
                        s@ == before + Seq::new(k as nat, |_i: int| '0'),
                    decreases zeros - k,
                {
                    push_char(&mut s, '0');
                    assert(s@ =~= before + Seq::new((k + 1) as nat, |_i: int| '0'));
                    k = k + 1;
                }
                push_decimal(&mut s, n);
                assert(s@ =~= cve_text(y as nat, n as nat));
                s
            },
        }
    }
}

proof fn lemma_decimal_len(n: nat)
    ensures
        n < 10 ==> decimal(n).len() == 1,
        10 <= n < 100 ==> decimal(n).len() == 2,
        100 <= n < 1000 ==> decimal(n).len() == 3,
        1000 <= n ==> decimal(n).len() >= 4,
    decreases n,
{
    if n >= 10 {
        lemma_decimal_len(n / 10);
    }
}

impl std::str::FromStr for Advisory {
    type Err = AdvErr;

    fn from_str(s: &str) -> (r: Result<Advisory, AdvErr>)
        ensures
            r is Ok <==> is_cve(s@),
            r matches Ok(a) ==> a == cve_of(s@),
            r matches Err(AdvErr::ParseCVE { id }) ==> id@ == s@,
    {
        Advisory::parse(s)
    }
}

} // verus!
