//! Locating the bug from suspicious cover points: reading a point's source
//! line and hierarchy from its name, and finding the block it belongs to.
use vstd::prelude::*;
use vstd::string::StrSliceExecFns;

use crate::block::{Block, BlockType, DataFlowBlock};
use crate::cli::{parse_unsigned, parse_unsigned_spec};
use crate::state_tracker::str_eq;

verus! {

/// The position of the first occurrence of `pat` in `s`.
#[verifier::opaque]
pub open spec fn find_in(s: Seq<char>, pat: Seq<char>) -> Option<int> {
    if exists|i: int| 0 <= i <= s.len() - pat.len() && #[trigger] s.subrange(i, i + pat.len()) == pat {
        Some(
            choose|i: int|
                0 <= i <= s.len() - pat.len() && #[trigger] s.subrange(i, i + pat.len()) == pat
                    && forall|k: int| 0 <= k < i ==> #[trigger] s.subrange(k, k + pat.len()) != pat,
        )
    } else {
        None
    }
}

/// Whether `pat` occurs in `s` at `i`.
fn matches_at(s: &str, i: usize, pat: &str) -> (b: bool)
    requires
        i + pat@.len() <= s@.len(),
    ensures
        b == (s@.subrange(i as int, i + pat@.len()) == pat@),
{
    let n = pat.unicode_len();
    let sl = s.unicode_len();
    let mut k: usize = 0;
    while k < n
        invariant
            k <= n,
            n == pat@.len(),
            sl == s@.len(),
            i + n <= s@.len(),
            forall|j: int| 0 <= j < k ==> #[trigger] s@[i + j] == pat@[j],
        decreases n - k,
    {
        if s.get_char(i + k) != pat.get_char(k) {
            assert(s@.subrange(i as int, i + pat@.len())[k as int] != pat@[k as int]);
            return false;
        }
        k += 1;
    }
    assert forall|j: int| 0 <= j < n implies s@.subrange(i as int, i + pat@.len())[j] == pat@[j] by {
        assert(s@[i + j] == pat@[j]);
    }
    assert(s@.subrange(i as int, i + pat@.len()) =~= pat@);
    true
}

/// The position of the first occurrence of `pat` in `s`.
pub fn find_str(s: &str, pat: &str) -> (r: Option<usize>)
    ensures
        match find_in(s@, pat@) {
            Some(i) => r matches Some(x) && x == i,
            None => r is None,
        },
        r matches Some(i) ==> i + pat@.len() <= s@.len(),
{
    let n = s.unicode_len();
    let m = pat.unicode_len();
    if m > n {
        proof {
            lemma_find_in_none(s@, pat@);
        }
        return None;
    }
    if m == 0 {
        proof {
            assert(s@.subrange(0, 0) =~= pat@);
            lemma_find_in_is(s@, pat@, 0);
        }
        return Some(0);
    }
    let mut i: usize = 0;
    while i <= n - m
        invariant
            n == s@.len(),
            m == pat@.len(),
            1 <= m <= n,
            i <= n - m + 1,
            forall|k: int| 0 <= k < i ==> #[trigger] s@.subrange(k, k + m) != pat@,
        decreases n - m + 1 - i,
    {
        if matches_at(s, i, pat) {
            proof {
                lemma_find_in_is(s@, pat@, i as int);
            }
            return Some(i);
        }
        i += 1;
    }
    proof {
        lemma_find_in_none(s@, pat@);
    }
    None
}

proof fn lemma_find_in_is(s: Seq<char>, pat: Seq<char>, i: int)
    requires
        0 <= i <= s.len() - pat.len(),
        s.subrange(i, i + pat.len()) == pat,
        forall|k: int| 0 <= k < i ==> #[trigger] s.subrange(k, k + pat.len()) != pat,
    ensures
        find_in(s, pat) == Some(i),
{
    reveal(find_in);
    let c = choose|c: int|
        0 <= c <= s.len() - pat.len() && #[trigger] s.subrange(c, c + pat.len()) == pat && forall|
            k: int,
        | 0 <= k < c ==> #[trigger] s.subrange(k, k + pat.len()) != pat;
    if c < i {
        assert(s.subrange(c, c + pat.len()) != pat);
    } else if c > i {
        assert(s.subrange(i, i + pat.len()) != pat);
    }
}

proof fn lemma_find_in_none(s: Seq<char>, pat: Seq<char>)
    requires
        forall|k: int| 0 <= k <= s.len() - pat.len() ==> #[trigger] s.subrange(k, k + pat.len()) != pat,
    ensures
        find_in(s, pat) is None,
{
    reveal(find_in);
}

/// Whitespace as `char::is_whitespace` defines it (the Unicode White_Space
/// property).
pub open spec fn is_ws(c: char) -> bool {
    ('\u{9}' <= c <= '\u{d}') || c == ' ' || c == '\u{85}' || c == '\u{a0}' || c == '\u{1680}' || (
    '\u{2000}' <= c <= '\u{200a}') || c == '\u{2028}' || c == '\u{2029}' || c == '\u{202f}' || c
        == '\u{205f}' || c == '\u{3000}'
}

fn is_whitespace(c: char) -> (b: bool)
    ensures
        b == is_ws(c),
{
    ('\u{9}' <= c && c <= '\u{d}') || c == ' ' || c == '\u{85}' || c == '\u{a0}' || c == '\u{1680}'
        || ('\u{2000}' <= c && c <= '\u{200a}') || c == '\u{2028}' || c == '\u{2029}' || c
        == '\u{202f}' || c == '\u{205f}' || c == '\u{3000}'
}

/// The first position from `i` on that is not whitespace.
pub open spec fn skip_ws(s: Seq<char>, i: int) -> int
    decreases s.len() - i,
{
    if i < s.len() && is_ws(s[i]) {
        skip_ws(s, i + 1)
    } else {
        i
    }
}

/// The position just past the last non-whitespace character before `j`,
/// not going below `lo`.
pub open spec fn back_ws(s: Seq<char>, lo: int, j: int) -> int
    decreases j - lo,
{
    if j > lo && is_ws(s[j - 1]) {
        back_ws(s, lo, j - 1)
    } else {
        j
    }
}

/// `s` without leading and trailing whitespace.
pub open spec fn trim_spec(s: Seq<char>) -> Seq<char> {
    let a = skip_ws(s, 0);
    s.subrange(a, back_ws(s, a, s.len() as int))
}

/// The characters from `from` to `to`, trimmed.
fn trimmed(s: &str, from: usize, to: usize) -> (r: &str)
    requires
        from <= to <= s@.len(),
    ensures
        r@ == trim_spec(s@.subrange(from as int, to as int)),
{
    let ghost t = s@.subrange(from as int, to as int);
    let mut a = from;
    while a < to && is_whitespace(s.get_char(a))
        invariant
            from <= a <= to <= s@.len(),
            t == s@.subrange(from as int, to as int),
            skip_ws(t, (a - from) as int) == skip_ws(t, 0),
        decreases to - a,
    {
        a += 1;
    }
    let mut b = to;
    while b > a && is_whitespace(s.get_char(b - 1))
        invariant
            a <= b <= to,
            from <= a,
            to <= s@.len(),
            t == s@.subrange(from as int, to as int),
            back_ws(t, (a - from) as int, (b - from) as int) == back_ws(
                t,
                (a - from) as int,
                (to - from) as int,
            ),
        decreases b - a,
    {
        b -= 1;
    }
    let r = s.substring_char(a, b);
    assert(r@ =~= trim_spec(t));
    r
}

/// What `str::parse::<u32>` accepts: decimal digits, optionally after a
/// `+`, of a value that fits.
pub open spec fn parse_u32_spec(s: Seq<char>) -> Option<u32> {
    match parse_unsigned_spec(s, u32::MAX as int) {
        None => None,
        Some(v) => Some(v as u32),
    }
}

/// Parses a decimal `u32` as `str::parse` does.
pub fn parse_u32(s: &str) -> (r: Option<u32>)
    ensures
        r == parse_u32_spec(s@),
{
    match parse_unsigned(s, u32::MAX as u64) {
        None => None,
        Some(v) => Some(v as u32),
    }
}

/// Why a cover point name could not be read.
#[derive(Clone, Copy, Debug, PartialEq, Eq, Structural)]
pub enum PointNameError {
    MissingLineno,
    MissingColumn,
    InvalidLineno,
    MissingHier,
}

/// The line of a cover point name: the trimmed text between the first
/// `lineno: ` and the next `, column: `.
pub open spec fn lineno_spec(name: Seq<char>) -> Result<u32, PointNameError> {
    let lineno_tag = seq!['l', 'i', 'n', 'e', 'n', 'o', ':', ' '];
    let column_tag = seq![',', ' ', 'c', 'o', 'l', 'u', 'm', 'n', ':', ' '];
    match find_in(name, lineno_tag) {
        None => Err(PointNameError::MissingLineno),
        Some(a) => {
            let rest = name.skip(a + 8);
            match find_in(rest, column_tag) {
                None => Err(PointNameError::MissingColumn),
                Some(b) => match parse_u32_spec(trim_spec(rest.take(b))) {
                    None => Err(PointNameError::InvalidLineno),
                    Some(lineno) => Ok(lineno),
                },
            }
        },
    }
}

/// The hierarchy of a cover point name: the trimmed rest after the first
/// `, hier: `.
pub open spec fn hier_spec(name: Seq<char>) -> Option<Seq<char>> {
    let hier_tag = seq![',', ' ', 'h', 'i', 'e', 'r', ':', ' '];
    match find_in(name, hier_tag) {
        None => None,
        Some(h) => Some(trim_spec(name.skip(h + 8))),
    }
}

/// What a cover point name `... lineno: L, column: C, ..., hier: H` gives:
/// the line `L` and the hierarchy `H`, both trimmed.
pub open spec fn point_name_spec(name: Seq<char>) -> Result<(u32, Seq<char>), PointNameError> {
    match lineno_spec(name) {
        Err(e) => Err(e),
        Ok(lineno) => match hier_spec(name) {
            None => Err(PointNameError::MissingHier),
            Some(hier) => Ok((lineno, hier)),
        },
    }
}

fn parse_lineno(name: &str) -> (r: Result<u32, PointNameError>)
    ensures
        r == lineno_spec(name@),
{
    proof {
        reveal_strlit("lineno: ");
        reveal_strlit(", column: ");
    }
    let lineno_tag = "lineno: ";
    let column_tag = ", column: ";
    assert(lineno_tag@ =~= seq!['l', 'i', 'n', 'e', 'n', 'o', ':', ' ']);
    assert(column_tag@ =~= seq![',', ' ', 'c', 'o', 'l', 'u', 'm', 'n', ':', ' ']);
    let n = name.unicode_len();
    let a = match find_str(name, lineno_tag) {
        Some(a) => a,
        None => return Err(PointNameError::MissingLineno),
    };
    let rest = name.substring_char(a + 8, n);
    assert(rest@ =~= name@.skip(a + 8));
    let b = match find_str(rest, column_tag) {
        Some(b) => b,
        None => return Err(PointNameError::MissingColumn),
    };
    let lineno_text = trimmed(rest, 0, b);
    assert(rest@.subrange(0, b as int) =~= rest@.take(b as int));
    match parse_u32(lineno_text) {
        Some(v) => Ok(v),
        None => Err(PointNameError::InvalidLineno),
    }
}

fn parse_hier(name: &str) -> (r: Option<&str>)
    ensures
        match hier_spec(name@) {
            None => r is None,
            Some(h) => r matches Some(v) && v@ == h,
        },
{
    proof {
        reveal_strlit(", hier: ");
    }
    let hier_tag = ", hier: ";
    assert(hier_tag@ =~= seq![',', ' ', 'h', 'i', 'e', 'r', ':', ' ']);
    let n = name.unicode_len();
    let h = match find_str(name, hier_tag) {
        Some(h) => h,
        None => return None,
    };
    let hier = trimmed(name, h + 8, n);
    assert(name@.subrange(h + 8, n as int) =~= name@.skip(h + 8));
    Some(hier)
}

/// Reads the source line and the hierarchical scope from a cover point's
/// name.
pub fn parse_cover_point_name(name: &str) -> (r: Result<(u32, &str), PointNameError>)
    ensures
        match point_name_spec(name@) {
            Ok((lineno, hier)) => r matches Ok(v) && v.0 == lineno && v.1@ == hier,
            Err(e) => r == Err::<(u32, &str), PointNameError>(e),
        },
{
    let lineno = match parse_lineno(name) {
        Ok(v) => v,
        Err(e) => return Err(e),
    };
    match parse_hier(name) {
        Some(hier) => Ok((lineno, hier)),
        None => Err(PointNameError::MissingHier),
    }
}

/// The `rtl_path`, `include_paths`, `top_module` and `top_scope` options
/// are given all together or not at all.
pub fn check_rtl_args(rtl_path: bool, include_paths: bool, top_module: bool, top_scope: bool) -> (r:
    Option<bool>)
    ensures
        r == (if rtl_path && include_paths && top_module && top_scope {
            Some(true)
        } else if !rtl_path && !include_paths && !top_module && !top_scope {
            Some(false)
        } else {
            None
        }),
{
    if rtl_path && include_paths && top_module && top_scope {
        Some(true)
    } else if !rtl_path && !include_paths && !top_module && !top_scope {
        Some(false)
    } else {
        None
    }
}

/// Blocks that suspiciousness is assigned to: not ports.
pub open spec fn sbfl_block(b: DataFlowBlock) -> bool {
    !(b.block_type_view() is ModuleInput || b.block_type_view() is ModuleOutput)
}

/// The block a point at `lineno` in scope `hier` belongs to.
pub open spec fn owns_point(b: DataFlowBlock, hier: Seq<char>, lineno: u32) -> bool {
    sbfl_block(b) && b.scope_view() == hier && b.lines_view().contains(lineno)
}

/// The first non-port block of scope `hier` that covers `lineno`.
pub fn find_point_block(blocks: &[DataFlowBlock], hier: &str, lineno: u32) -> (r: Option<usize>)
    ensures
        match r {
            Some(k) => k < blocks@.len() && owns_point(blocks@[k as int], hier@, lineno) && forall|
                j: int,
            | 0 <= j < k ==> !owns_point(#[trigger] blocks@[j], hier@, lineno),
            None => forall|j: int|
                0 <= j < blocks@.len() ==> !owns_point(#[trigger] blocks@[j], hier@, lineno),
        },
{
    let mut k: usize = 0;
    while k < blocks.len()
        invariant
            k <= blocks@.len(),
            forall|j: int| 0 <= j < k ==> !owns_point(#[trigger] blocks@[j], hier@, lineno),
        decreases blocks@.len() - k,
    {
        let block = &blocks[k];
        let is_port = match block.block_type() {
            BlockType::ModuleInput | BlockType::ModuleOutput => true,
            _ => false,
        };
        if !is_port && str_eq(block.scope(), hier) {
            let lines = block.line_ranges();
            let mut i: usize = 0;
            let mut found = false;
            while i < lines.len()
                invariant
                    i <= lines@.len(),
                    lines@ == block.lines_view(),
                    k < blocks@.len(),
                    *block == blocks@[k as int],
                    sbfl_block(*block),
                    block.scope_view() == hier@,
                    forall|j: int| 0 <= j < k ==> !owns_point(#[trigger] blocks@[j], hier@, lineno),
                    !found,
                    forall|m: int| 0 <= m < i ==> #[trigger] lines@[m] != lineno,
                decreases lines@.len() - i,
            {
                if lines[i] == lineno {
                    assert(lines@[i as int] == lineno);
                    assert(block.lines_view().contains(lineno));
                    return Some(k);
                }
                i += 1;
            }
            proof {
                assert(!block.lines_view().contains(lineno)) by {
                    if block.lines_view().contains(lineno) {
                        let m = choose|m: int| 0 <= m < lines@.len() && lines@[m] == lineno;
                        assert(lines@[m] != lineno);
                    }
                }
            }
        }
        k += 1;
    }
    None
}

} // verus!
