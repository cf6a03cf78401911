//! What a batch query reports, and how it becomes new work for the crawler.
use vstd::prelude::*;

use crate::crawl::ids;
use crate::drv::{is_drv_path, DrvPath};
use crate::text::{push_char, trim, trim_ws};

verus! {

/// ASCII whitespace: space, tab, line feed, form feed and carriage return.
pub open spec fn is_ascii_ws(c: char) -> bool {
    c == ' ' || c == '\t' || c == '\n' || c == '\x0C' || c == '\r'
}

/// The maximal runs of non-whitespace characters of `s`, in order.
pub open spec fn words(s: Seq<char>) -> Seq<Seq<char>>
    decreases s.len(),
{
    if s.len() == 0 {
        Seq::empty()
    } else {
        let w = words(s.drop_last());
        let c = s.last();
        if is_ascii_ws(c) {
            w
        } else if s.len() == 1 || is_ascii_ws(s[s.len() - 2]) {
            w.push(seq![c])
        } else {
            w.update(w.len() - 1, w.last().push(c))
        }
    }
}

/// Splits `s` at ASCII whitespace, dropping empty pieces.
pub fn split_words(s: &str) -> (r: Vec<String>)
    ensures
        r@.map_values(|w: String| w@) == words(s@),
{
    let mut out: Vec<String> = Vec::new();
    let mut cur = String::new();
    let n = s.unicode_len();
    let mut i: usize = 0;
    let mut in_word = false;
    while i < n
        invariant
            n == s@.len(),
            in_word == (cur@.len() > 0),
            i <= n,
            cur@.len() > 0 <==> (i > 0 && !is_ascii_ws(s@[i - 1])),
            words(s@.subrange(0, i as int)) == if cur@.len() > 0 {
                out@.map_values(|w: String| w@).push(cur@)
            } else {
                out@.map_values(|w: String| w@)
            },
        decreases n - i,
    {
        let c = s.get_char(i);
        let ghost pre = s@.subrange(0, i as int);
        let ghost o0 = out@.map_values(|w: String| w@);
        let ghost c0 = cur@;
        assert(s@.subrange(0, i + 1).drop_last() =~= pre);
        assert(s@.subrange(0, i + 1).last() == c);
        if c == ' ' || c == '\t' || c == '\n' || c == '\x0C' || c == '\r' {
            if in_word {
                out.push(cur);
                cur = String::new();
                assert(out@.map_values(|w: String| w@) =~= o0.push(c0));
                in_word = false;
            }
        } else {
            if i > 0 {
                assert(s@.subrange(0, i + 1)[i - 1] == s@[i - 1]);
            }
            push_char(&mut cur, c);
            proof {
                if c0.len() > 0 {
                    assert(o0.push(c0).update(o0.len() as int, c0.push(c)) =~= o0.push(cur@));
                } else {
                    assert(cur@ =~= seq![c]);
                }
            }
            in_word = true;
        }
        i = i + 1;
    }
    assert(s@.subrange(0, n as int) =~= s@);
    if in_word {
        out.push(cur);
    }
    out
}

/// What the batch query reports for one queried derivation.
pub struct DrvInfo {
    /// Paths of the derivation's input derivations.
    pub input_drvs: Vec<String>,
    /// Its `constituents` field, if it has one: resolution-target names
    /// separated by ASCII whitespace, with white space trimmed at both ends.
    pub constituents: Option<String>,
}

/// A batch query whose output cannot be used.
#[derive(Debug)]
pub enum BatchError {
    /// A reported input is not a derivation path.
    BadPath { path: String },
}

pub open spec fn inputs_of(d: DrvInfo) -> Seq<Seq<char>> {
    d.input_drvs@.map_values(|s: String| s@)
}

pub open spec fn targets_of(d: DrvInfo) -> Seq<Seq<char>> {
    match d.constituents {
        Some(c) => words(trim(c@)),
        None => Seq::empty(),
    }
}

/// All reported inputs of a batch, in report order.
pub open spec fn all_inputs(infos: Seq<DrvInfo>) -> Seq<Seq<char>> {
    infos.map_values(|d: DrvInfo| inputs_of(d)).flatten_alt()
}

/// All resolution targets named by a batch, in report order.
pub open spec fn all_targets(infos: Seq<DrvInfo>) -> Seq<Seq<char>> {
    infos.map_values(|d: DrvInfo| targets_of(d)).flatten_alt()
}

/// Turns a batch report into new work: the input derivations to queue and
/// the resolution targets to dispatch. Fails on the first reported input
/// that is not a derivation path.
pub fn batch_result(infos: &Vec<DrvInfo>) -> (r: Result<(Vec<DrvPath>, Vec<String>), BatchError>)
    ensures
        r is Ok <==> forall|x| #[trigger] all_inputs(infos@).contains(x) ==> is_drv_path(x),
        r matches Ok((ins, ts)) ==> ids(ins@) == all_inputs(infos@)
            && ts@.map_values(|w: String| w@) == all_targets(infos@),
        r matches Err(BatchError::BadPath { path }) ==> all_inputs(infos@).contains(path@)
            && !is_drv_path(path@),
{
    let mut ins: Vec<DrvPath> = Vec::new();
    let mut ts: Vec<String> = Vec::new();
    let mut k: usize = 0;
    while k < infos.len()
        invariant
            k <= infos.len(),
            ids(ins@) == all_inputs(infos@.subrange(0, k as int)),
            ts@.map_values(|w: String| w@) == all_targets(infos@.subrange(0, k as int)),
            forall|x| #[trigger] all_inputs(infos@.subrange(0, k as int)).contains(x) ==> is_drv_path(x),
        decreases infos.len() - k,
    {
        let info = &infos[k];
        let ghost pre = infos@.subrange(0, k as int);
        let ghost next = infos@.subrange(0, k + 1);
        assert(next.drop_last() =~= pre);
        assert(next.map_values(|d: DrvInfo| inputs_of(d)).drop_last()
            =~= pre.map_values(|d: DrvInfo| inputs_of(d)));
        assert(next.map_values(|d: DrvInfo| targets_of(d)).drop_last()
            =~= pre.map_values(|d: DrvInfo| targets_of(d)));
        assert(all_inputs(next) == all_inputs(pre) + inputs_of(*info));
        assert(all_targets(next) == all_targets(pre) + targets_of(*info));
        let ghost ins0 = ids(ins@);
        let mut j: usize = 0;
        while j < info.input_drvs.len()
            invariant
                j <= info.input_drvs.len(),
                k < infos.len(),
                *info == infos@[k as int],
                next == infos@.subrange(0, k + 1),
                ins0 == all_inputs(pre),
                all_inputs(next) == all_inputs(pre) + inputs_of(*info),
                ids(ins@) == ins0 + inputs_of(*info).subrange(0, j as int),
                forall|x| #[trigger] ins0.contains(x) ==> is_drv_path(x),
                forall|i: int| 0 <= i < j ==> is_drv_path(#[trigger] inputs_of(*info)[i]),
            decreases info.input_drvs.len() - j,
        {
            let p = info.input_drvs[j].as_str();
            match DrvPath::parse(p) {
                Some(d) => {
                    let ghost before = ids(ins@);
                    ins.push(d);
                    assert(ids(ins@) =~= before.push(p@));
                    assert(inputs_of(*info).subrange(0, j + 1) =~= inputs_of(*info).subrange(0, j as int).push(p@));
                },
                None => {
                    assert(all_inputs(next)[all_inputs(pre).len() + j] == p@);
                    assert(all_inputs(next).contains(p@));
                    proof {
                        lemma_inputs_prefix(infos@, k as int + 1);
                    }
                    return Err(BatchError::BadPath { path: p.to_owned() });
                },
            }
            j = j + 1;
        }
        assert(inputs_of(*info).subrange(0, j as int) =~= inputs_of(*info));
        assert forall|x| #[trigger] all_inputs(next).contains(x) implies is_drv_path(x) by {
            let i = choose|i: int| 0 <= i < all_inputs(next).len() && all_inputs(next)[i] == x;
            if i < ins0.len() {
                assert(ins0[i] == x);
                assert(ins0.contains(x));
            } else {
                let m = i - ins0.len();
                assert(inputs_of(*info)[m] == x);
                assert(is_drv_path(inputs_of(*info)[m]));
            }
        }
        if let Some(c) = &info.constituents {
            let ws = split_words(trim_ws(c.as_str()));
            let ghost t0 = ts@.map_values(|w: String| w@);
            let mut j: usize = 0;
            while j < ws.len()
                invariant
                    j <= ws.len(),
                    ts@.map_values(|w: String| w@) == t0 + ws@.map_values(|w: String| w@).subrange(0, j as int),
                decreases ws.len() - j,
            {
                let ghost before = ts@.map_values(|w: String| w@);
                ts.push(ws[j].clone());
                assert(ts@.map_values(|w: String| w@) =~= before.push(ws@[j as int]@));
                assert(ws@.map_values(|w: String| w@).subrange(0, j + 1)
                    =~= ws@.map_values(|w: String| w@).subrange(0, j as int).push(ws@[j as int]@));
                j = j + 1;
            }
            assert(ws@.map_values(|w: String| w@).subrange(0, j as int) =~= ws@.map_values(|w: String| w@));
        } else {
            assert(targets_of(*info) =~= Seq::empty());
            assert(all_targets(next) =~= all_targets(pre));
        }
        k = k + 1;
    }
    assert(infos@.subrange(0, k as int) =~= infos@);
    Ok((ins, ts))
}

/// An input reported by the first `k` entries is reported by the whole batch.
proof fn lemma_inputs_prefix(infos: Seq<DrvInfo>, k: int)
    requires
        0 <= k <= infos.len(),
    ensures
        forall|x| #[trigger] all_inputs(infos.subrange(0, k)).contains(x) ==> all_inputs(infos).contains(x),
    decreases infos.len() - k,
{
    if k < infos.len() {
        lemma_inputs_prefix(infos, k + 1);
        let pre = infos.subrange(0, k);
        let next = infos.subrange(0, k + 1);
        assert(next.drop_last() =~= pre);
        assert(next.map_values(|d: DrvInfo| inputs_of(d)).drop_last()
            =~= pre.map_values(|d: DrvInfo| inputs_of(d)));
        assert forall|x| #[trigger] all_inputs(pre).contains(x) implies all_inputs(next).contains(x) by {
            let i = choose|i: int| 0 <= i < all_inputs(pre).len() && all_inputs(pre)[i] == x;
            assert(all_inputs(next)[i] == x);
        }
    } else {
        assert(infos.subrange(0, k) =~= infos);
    }
}

} // verus!
