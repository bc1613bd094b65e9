//! Options and outcome records for conversions, and the filename pattern
//! matcher used when processing directories.

use vstd::prelude::*;
use crate::chars::str_to_chars;

verus! {

/// Options for one conversion: the suffix appended to derived output file
/// names, the serialization mode, and an optional filename pattern for
/// directory processing.
pub struct ConvertOptions {
    pub suffix: String,
    pub pretty: bool,
    pub pattern: Option<String>,
}

impl Default for ConvertOptions {
    /// The defaults: suffix `.readable`, pretty serialization, no pattern.
    fn default() -> (r: Self)
        ensures
            r.suffix@ == ".readable"@,
            r.pretty,
            r.pattern is None,
    {
        ConvertOptions { suffix: String::from_str(".readable"), pretty: true, pattern: None }
    }
}

/// The outcome of converting one input: the paths involved, whether it
/// succeeded, an error message when it did not, and how many entries were
/// rendered. Paths are held as plain strings.
pub struct ConvertResult {
    pub input_path: String,
    pub output_path: Option<String>,
    pub success: bool,
    pub error: Option<String>,
    pub item_count: Option<usize>,
}

/// The index of the first `*` in `p` at or after `i`, or the length when
/// there is none.
pub open spec fn first_star(p: Seq<char>, i: int) -> int
    decreases p.len() - i,
{
    if 0 <= i < p.len() {
        if p[i] == '*' {
            i
        } else {
            first_star(p, i + 1)
        }
    } else {
        p.len() as int
    }
}

pub proof fn lemma_first_star_bounds(p: Seq<char>, i: int)
    requires
        0 <= i <= p.len(),
    ensures
        i <= first_star(p, i) <= p.len(),
    decreases p.len() - i,
{
    if i < p.len() && p[i] != '*' {
        lemma_first_star_bounds(p, i + 1);
    }
}

/// The pattern split on `*`: the texts between the stars, empty pieces
/// kept.
pub open spec fn sp_split_star(p: Seq<char>) -> Seq<Seq<char>>
    decreases p.len(),
    when true
    via sp_split_star_via
{
    let k = first_star(p, 0);
    if 0 <= k < p.len() {
        seq![p.subrange(0, k)] + sp_split_star(p.subrange(k + 1, p.len() as int))
    } else {
        seq![p]
    }
}

#[via_fn]
proof fn sp_split_star_via(p: Seq<char>) {
    lemma_first_star_bounds(p, 0);
}

/// Whether `part` occurs in `f` starting exactly at `pos`.
pub open spec fn occurs_at(f: Seq<char>, pos: int, part: Seq<char>) -> bool {
    0 <= pos && pos + part.len() <= f.len() && f.subrange(pos, pos + part.len() as int) == part
}

/// The first position at or after `from` where `part` occurs in `f`, or
/// `-1` when there is none.
pub open spec fn sp_find(f: Seq<char>, from: int, part: Seq<char>) -> int
    decreases f.len() - from,
    when true
    via sp_find_via
{
    if 0 <= from && from + part.len() <= f.len() {
        if occurs_at(f, from, part) {
            from
        } else {
            sp_find(f, from + 1, part)
        }
    } else {
        -1
    }
}

#[via_fn]
proof fn sp_find_via(f: Seq<char>, from: int, part: Seq<char>) {
    if 0 <= from && from + part.len() <= f.len() && part.len() == 0 {
        assert(f.subrange(from, from + part.len() as int) =~= part);
    }
}

/// Greedy left-to-right matching of the split pattern pieces against `f`
/// from `pos`: each piece is found at its leftmost occurrence and consumed;
/// an empty first or last piece is skipped. Yields the position just past
/// the last consumed piece, or nothing when some piece never occurs.
pub open spec fn sp_match_from(f: Seq<char>, pos: int, parts: Seq<Seq<char>>, i: int) -> Option<
    int,
>
    decreases parts.len() - i,
{
    if i < 0 || i >= parts.len() {
        Some(pos)
    } else {
        let part = parts[i];
        if part.len() == 0 && (i == 0 || i == parts.len() - 1) {
            sp_match_from(f, pos, parts, i + 1)
        } else {
            let q = sp_find(f, pos, part);
            if q >= 0 {
                sp_match_from(f, q + part.len(), parts, i + 1)
            } else {
                None
            }
        }
    }
}

/// Glob-style matching of a filename against a pattern whose `*` pieces
/// match any text: the pieces between stars are found greedily from the
/// left, and unless the pattern ends with `*` the last piece must end at
/// the end of the filename.
pub open spec fn sp_matches_pattern(f: Seq<char>, p: Seq<char>) -> bool {
    match sp_match_from(f, 0, sp_split_star(p), 0) {
        Some(endpos) => (p.len() > 0 && p.last() == '*') || endpos == f.len(),
        None => false,
    }
}

pub open spec fn vecs_views(s: Seq<Vec<char>>) -> Seq<Seq<char>> {
    s.map_values(|v: Vec<char>| v@)
}

/// Copies the characters of `p` between `from` and `to`.
fn copy_range(p: &Vec<char>, from: usize, to: usize) -> (r: Vec<char>)
    requires
        from <= to <= p.len(),
    ensures
        r@ == p@.subrange(from as int, to as int),
{
    let mut out: Vec<char> = Vec::new();
    let mut j = from;
    while j < to
        invariant
            from <= j <= to <= p.len(),
            out@ == p@.subrange(from as int, j as int),
        decreases to - j,
    {
        out.push(p[j]);
        proof {
            assert(out@ =~= p@.subrange(from as int, j + 1 as int));
        }
        j += 1;
    }
    out
}

/// Splits the suffix of `p` from `from` on `*`, exactly as `sp_split_star`
/// describes.
fn split_star(p: &Vec<char>, from: usize) -> (r: Vec<Vec<char>>)
    requires
        from <= p.len(),
    ensures
        vecs_views(r@) == sp_split_star(p@.subrange(from as int, p@.len() as int)),
    decreases p.len() - from,
{
    let ghost t = p@.subrange(from as int, p@.len() as int);
    let mut k = from;
    while k < p.len() && p[k] != '*'
        invariant
            from <= k <= p.len(),
            t == p@.subrange(from as int, p@.len() as int),
            first_star(t, 0) == first_star(t, k - from),
        decreases p.len() - k,
    {
        proof {
            assert(t[k - from] == p@[k as int]);
        }
        k += 1;
    }
    proof {
        if k < p.len() {
            assert(t[k - from] == p@[k as int]);
        }
        assert(first_star(t, k - from) == k - from);
    }
    if k >= p.len() {
        let part = copy_range(p, from, p.len());
        let mut out: Vec<Vec<char>> = Vec::new();
        out.push(part);
        proof {
            assert(part@ =~= t);
            assert(vecs_views(out@) =~= seq![t]);
        }
        out
    } else {
        let part = copy_range(p, from, k);
        let mut rest = split_star(p, k + 1);
        let mut out: Vec<Vec<char>> = Vec::new();
        out.push(part);
        out.append(&mut rest);
        proof {
            let kk = (k - from) as int;
            assert(part@ =~= t.subrange(0, kk));
            assert(p@.subrange(k + 1 as int, p@.len() as int) =~= t.subrange(
                kk + 1,
                t.len() as int,
            ));
            assert(vecs_views(out@) =~= seq![t.subrange(0, kk)] + sp_split_star(
                t.subrange(kk + 1, t.len() as int),
            ));
        }
        out
    }
}

/// Whether `part` occurs in `f` exactly at `q`.
fn range_eq(f: &Vec<char>, q: usize, part: &Vec<char>) -> (r: bool)
    requires
        q + part.len() <= f.len(),
    ensures
        r == occurs_at(f@, q as int, part@),
{
    let mut m: usize = 0;
    while m < part.len()
        invariant
            m <= part.len(),
            q + part.len() <= f.len(),
            forall|j: int| 0 <= j < m ==> f@[q + j] == part@[j],
        decreases part.len() - m,
    {
        if f[q + m] != part[m] {
            proof {
                assert(f@.subrange(q as int, q + part@.len() as int)[m as int] == f@[q + m]);
            }
            return false;
        }
        m += 1;
    }
    proof {
        assert(f@.subrange(q as int, q + part@.len() as int) =~= part@);
    }
    true
}

/// The leftmost occurrence of `part` in `f` at or after `from`, exactly as
/// `sp_find` describes.
fn find_part(f: &Vec<char>, from: usize, part: &Vec<char>) -> (r: Option<usize>)
    requires
        from <= f.len(),
    ensures
        match r {
            Some(q) => sp_find(f@, from as int, part@) == q as int && from <= q && q
                + part@.len() <= f@.len(),
            None => sp_find(f@, from as int, part@) == -1,
        },
{
    let mut q = from;
    while q <= f.len() && part.len() <= f.len() - q
        invariant
            from <= q <= f.len() + 1,
            sp_find(f@, from as int, part@) == sp_find(f@, q as int, part@),
        decreases f.len() + 1 - q,
    {
        if range_eq(f, q, part) {
            return Some(q);
        }
        proof {
            if part@.len() == 0 {
                assert(f@.subrange(q as int, q + part@.len() as int) =~= part@);
            }
        }
        q += 1;
    }
    None
}

/// Matches a filename against a glob-style pattern, exactly as
/// `sp_matches_pattern` describes.
pub fn matches_pattern(filename: &str, pattern: &str) -> (r: bool)
    ensures
        r == sp_matches_pattern(filename@, pattern@),
{
    let f = str_to_chars(filename);
    let p = str_to_chars(pattern);
    let parts = split_star(&p, 0);
    let ghost pv = vecs_views(parts@);
    proof {
        assert(p@.subrange(0, p@.len() as int) =~= p@);
        assert(pv == sp_split_star(p@));
    }
    let n = parts.len();
    let mut pos: usize = 0;
    let mut i: usize = 0;
    while i < n
        invariant
            i <= n,
            n == parts.len(),
            pv == vecs_views(parts@),
            pv == sp_split_star(p@),
            pos <= f.len(),
            f@ == filename@,
            p@ == pattern@,
            sp_match_from(f@, 0, pv, 0) == sp_match_from(f@, pos as int, pv, i as int),
        decreases n - i,
    {
        let part = &parts[i];
        proof {
            assert(pv[i as int] == parts@[i as int]@);
        }
        let skip = part.len() == 0 && (i == 0 || i == n - 1);
        if !skip {
            match find_part(&f, pos, part) {
                Some(q) => {
                    pos = q + part.len();
                },
                None => {
                    return false;
                },
            }
        }
        i += 1;
    }
    let ends_star = p.len() > 0 && p[p.len() - 1] == '*';
    ends_star || pos == f.len()
}

} // verus!
