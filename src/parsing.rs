//! Reading FMI-text graphs: header counts, then node lines and edge lines whose
//! columns are described by the parsing configuration. Lines that are empty or
//! start with `#` are skipped. Numbers are unsigned decimals; a shortcut index
//! of `-1` marks an edge that is no shortcut.

use crate::builder::{BuildError, BuilderModel, GraphBuilder};
use crate::configs::{check_config, config_error, ConfigError, EdgeCategory, NodeCategory, ParsingConfig};
use crate::graph::Graph;
use crate::metrics::METRIC_CAPACITY;
use vstd::prelude::*;

verus! {

/// Why a map could not be read.
#[derive(Clone, Copy, Debug, PartialEq, Eq, Structural)]
pub enum ParseError {
    /// The configuration was refused.
    Config(ConfigError),
    /// The map file is neither `*.fmi` nor `*.pbf`.
    UnknownExtension,
    /// `*.pbf` maps are read by a separate tool; this library reads FMI text.
    PbfInput,
    /// A node or edge count is missing or malformed.
    BadHeader,
    /// A line ends early, has too many columns, or holds a malformed number; the
    /// byte offset where the line starts.
    BadLine(usize),
    /// The file ends before all announced lines.
    MissingLines,
    /// An edge names a node index beyond the node lines; the byte offset of its line.
    BadNodeIndex(usize),
    /// The records do not make a graph.
    Build(BuildError),
}

/// The two kinds of map files.
#[derive(Clone, Copy, Debug, PartialEq, Eq, Structural)]
pub enum MapFileExt {
    Fmi,
    Pbf,
}

pub open spec fn has_suffix(s: Seq<char>, suffix: Seq<char>) -> bool {
    s.len() >= suffix.len() && s.subrange(s.len() - suffix.len(), s.len() as int) == suffix
}

/// The kind of a map file named `name`, by its extension.
pub open spec fn ext_of(name: Seq<char>) -> Option<MapFileExt> {
    if has_suffix(name, seq!['.', 'f', 'm', 'i']) {
        Some(MapFileExt::Fmi)
    } else if has_suffix(name, seq!['.', 'p', 'b', 'f']) {
        Some(MapFileExt::Pbf)
    } else {
        None
    }
}

/// The kind of a map file, by its extension.
pub fn map_file_ext(name: &str) -> (r: Option<MapFileExt>)
    ensures
        r == ext_of(name@),
{
    let n = name.unicode_len();
    if n < 4 {
        return None;
    }
    let a = name.get_char(n - 4);
    let b = name.get_char(n - 3);
    let c = name.get_char(n - 2);
    let d = name.get_char(n - 1);
    let ghost tail = name@.subrange(n - 4, n as int);
    assert(tail =~= seq![a, b, c, d]);
    if a == '.' && b == 'f' && c == 'm' && d == 'i' {
        Some(MapFileExt::Fmi)
    } else if a == '.' && b == 'p' && c == 'b' && d == 'f' {
        Some(MapFileExt::Pbf)
    } else {
        None
    }
}

pub open spec fn is_digit(b: u8) -> bool {
    48 <= b <= 57
}

/// Value of a string of decimal digits.
pub open spec fn digits_value(s: Seq<u8>) -> int
    decreases s.len(),
{
    if s.len() == 0 {
        0
    } else {
        digits_value(s.drop_last()) * 10 + (s.last() - 48)
    }
}

/// `s` is a non-empty string of decimal digits.
pub open spec fn is_decimal(s: Seq<u8>) -> bool {
    s.len() > 0 && forall|i: int| 0 <= i < s.len() ==> is_digit(#[trigger] s[i])
}

proof fn lemma_digits_value_grows(s: Seq<u8>, k: int)
    requires
        0 <= k <= s.len(),
        forall|i: int| 0 <= i < s.len() ==> is_digit(#[trigger] s[i]),
    ensures
        digits_value(s.subrange(0, k)) <= digits_value(s),
        digits_value(s) >= 0,
    decreases s.len() - k,
{
    if k < s.len() {
        lemma_digits_value_grows(s, k + 1);
        let t = s.subrange(0, k + 1);
        assert(t.drop_last() =~= s.subrange(0, k));
        assert(t.last() == s[k]);
        lemma_digits_value_nonneg(s.subrange(0, k));
    } else {
        assert(s.subrange(0, k) =~= s);
        lemma_digits_value_nonneg(s);
    }
}

proof fn lemma_digits_value_nonneg(s: Seq<u8>)
    requires
        forall|i: int| 0 <= i < s.len() ==> is_digit(#[trigger] s[i]),
    ensures
        digits_value(s) >= 0,
    decreases s.len(),
{
    if s.len() > 0 {
        lemma_digits_value_nonneg(s.drop_last());
    }
}

/// The unsigned decimal at `bytes[start..end]`, if it is one and fits in 64 bits.
pub fn parse_u64(bytes: &Vec<u8>, start: usize, end: usize) -> (r: Option<u64>)
    requires
        start <= end <= bytes@.len(),
    ensures
        r == if is_decimal(bytes@.subrange(start as int, end as int)) && digits_value(
            bytes@.subrange(start as int, end as int),
        ) <= u64::MAX {
            Some(digits_value(bytes@.subrange(start as int, end as int)) as u64)
        } else {
            None
        },
{
    let ghost s = bytes@.subrange(start as int, end as int);
    if start == end {
        return None;
    }
    let mut v: u64 = 0;
    let mut i: usize = start;
    while i < end
        invariant
            start <= i <= end <= bytes@.len(),
            s == bytes@.subrange(start as int, end as int),
            forall|k: int| 0 <= k < i - start ==> is_digit(#[trigger] s[k]),
            v == digits_value(s.subrange(0, i - start)),
        decreases end - i,
    {
        let b = bytes[i];
        if b < 48 || b > 57 {
            assert(!is_digit(s[i - start]));
            return None;
        }
        let d = (b - 48) as u64;
        let ghost t = s.subrange(0, i - start + 1);
        assert(t.drop_last() =~= s.subrange(0, i - start));
        assert(t.last() == b);
        if v > (u64::MAX - d) / 10 {
            proof {
                assert(v * 10 + d > u64::MAX) by (nonlinear_arith)
                    requires v > (u64::MAX - d) as int / 10, d <= 9;
                if is_decimal(s) {
                    lemma_digits_value_grows(s, i - start + 1);
                }
            }
            return None;
        }
        proof {
            assert(v * 10 + d <= u64::MAX) by (nonlinear_arith)
                requires v <= (u64::MAX - d) as int / 10, d <= 9;
        }
        v = v * 10 + d;
        i = i + 1;
    }
    assert(s.subrange(0, end - start) =~= s);
    Some(v)
}

/// A shortcut index column: `-1` for none, else an unsigned decimal that fits an index.
pub open spec fn shortcut_token(b: Seq<u8>, t: (int, int)) -> Option<Option<usize>> {
    if b.subrange(t.0, t.1) == seq![45u8, 49u8] {
        Some(None)
    } else {
        match token_u64(b, t) {
            Some(v) => if v <= usize::MAX { Some(Some(v as usize)) } else { None },
            None => None,
        }
    }
}

/// A shortcut index column: `-1` for none, else an unsigned decimal.
fn parse_shortcut_index(bytes: &Vec<u8>, start: usize, end: usize) -> (r: Option<Option<usize>>)
    requires
        start <= end <= bytes@.len(),
    ensures
        r == shortcut_token(bytes@, (start as int, end as int)),
{
    if end - start == 2 && bytes[start] == 45 && bytes[start + 1] == 49 {
        assert(bytes@.subrange(start as int, end as int) =~= seq![45u8, 49u8]);
        return Some(None);
    }
    proof {
        if bytes@.subrange(start as int, end as int) == seq![45u8, 49u8] {
            assert(bytes@.subrange(start as int, end as int)[0] == bytes@[start as int]);
            assert(bytes@.subrange(start as int, end as int)[1] == bytes@[start + 1]);
        }
    }
    match parse_u64(bytes, start, end) {
        Some(v) => {
            proof {
                lemma_digits_value_nonneg(bytes@.subrange(start as int, end as int));
            }
            if v <= usize::MAX as u64 {
                Some(Some(v as usize))
            } else {
                None
            }
        },
        None => None,
    }
}

/// A byte that separates tokens: space, tab, carriage return or comma.
pub open spec fn is_sep(c: u8) -> bool {
    c == 32 || c == 9 || c == 13 || c == 44
}

/// Where the line containing position `i` ends: the next newline, or the end.
pub open spec fn line_end(b: Seq<u8>, i: int) -> int
    decreases b.len() - i,
{
    if i < 0 || i >= b.len() {
        b.len() as int
    } else if b[i] == 10 {
        i
    } else {
        line_end(b, i + 1)
    }
}

/// Start of the line after the one at `i`.
pub open spec fn next_line(b: Seq<u8>, i: int) -> int {
    if line_end(b, i) < b.len() {
        line_end(b, i) + 1
    } else {
        b.len() as int
    }
}

/// End of the token starting at `i`, before position `e`.
pub open spec fn token_end(b: Seq<u8>, i: int, e: int) -> int
    decreases e - i,
{
    if i >= e || is_sep(b[i]) {
        i
    } else {
        token_end(b, i + 1, e)
    }
}

/// The tokens between `i` and `e`, as byte ranges.
pub open spec fn tokens_from(b: Seq<u8>, i: int, e: int) -> Seq<(int, int)>
    decreases e - i,
{
    if i >= e {
        Seq::empty()
    } else if is_sep(b[i]) {
        tokens_from(b, i + 1, e)
    } else {
        let j = token_end(b, i, e);
        if j <= i || j > e {
            Seq::empty()
        } else {
            seq![(i, j)] + tokens_from(b, j, e)
        }
    }
}

/// The tokens of the first line from `pos` on that is neither empty nor a comment
/// (its first token starts with `#`), where that line starts, and where the next
/// line starts; no tokens at the end of the input.
pub open spec fn data_line(b: Seq<u8>, pos: int) -> (Seq<(int, int)>, int, int)
    decreases b.len() - pos,
{
    if pos < 0 || pos >= b.len() {
        (Seq::empty(), pos, pos)
    } else {
        let toks = tokens_from(b, pos, line_end(b, pos));
        let nx = next_line(b, pos);
        if toks.len() > 0 && b[toks[0].0] != 35 {
            (toks, pos, nx)
        } else if nx <= pos {
            (Seq::empty(), pos, pos)
        } else {
            data_line(b, nx)
        }
    }
}

/// Token ranges as integers.
pub open spec fn spans(t: Seq<(usize, usize)>) -> Seq<(int, int)> {
    t.map_values(|x: (usize, usize)| (x.0 as int, x.1 as int))
}

proof fn lemma_line_end(b: Seq<u8>, pos: int, i: int)
    requires
        0 <= pos <= i <= line_end(b, pos),
    ensures
        line_end(b, i) == line_end(b, pos),
        pos <= line_end(b, pos) <= b.len(),
        line_end(b, pos) < b.len() ==> b[line_end(b, pos)] == 10,
        i < line_end(b, pos) ==> b[i] != 10 && i < b.len(),
    decreases i - pos,
{
    lemma_line_end_basic(b, pos);
    lemma_line_end_basic(b, i);
    if i > pos {
        lemma_line_end(b, pos, i - 1);
    }
}

proof fn lemma_line_end_basic(b: Seq<u8>, i: int)
    requires
        0 <= i,
    ensures
        i <= line_end(b, i) <= b.len() || i > b.len(),
        i <= b.len() ==> i <= line_end(b, i) <= b.len(),
        line_end(b, i) < b.len() ==> b[line_end(b, i)] == 10,
    decreases b.len() - i,
{
    if i < b.len() && b[i] != 10 {
        lemma_line_end_basic(b, i + 1);
    }
}

proof fn lemma_token_end(b: Seq<u8>, start: int, i: int, e: int)
    requires
        start <= i <= e,
        forall|k: int| start <= k < i ==> !is_sep(#[trigger] b[k]),
    ensures
        token_end(b, start, e) == token_end(b, i, e),
    decreases i - start,
{
    if i > start {
        lemma_token_end(b, start + 1, i, e);
    }
}

/// The tokens of the line that starts at `pos`, as byte ranges, and the start of the
/// next line.
fn line_tokens(bytes: &Vec<u8>, pos: usize) -> (r: (Vec<(usize, usize)>, usize))
    requires
        pos <= bytes@.len(),
    ensures
        spans(r.0@) == tokens_from(bytes@, pos as int, line_end(bytes@, pos as int)),
        r.1 == next_line(bytes@, pos as int),
        pos <= r.1 <= bytes@.len(),
        pos < bytes@.len() ==> pos < r.1,
        forall|k: int| 0 <= k < r.0@.len() ==> pos <= (#[trigger] r.0@[k]).0 < r.0@[k].1 <= r.1,
{
    let ghost b = bytes@;
    let ghost e = line_end(b, pos as int);
    proof {
        lemma_line_end_basic(b, pos as int);
        lemma_line_end(b, pos as int, pos as int);
    }
    let mut toks: Vec<(usize, usize)> = Vec::new();
    let mut i = pos;
    while i < bytes.len() && bytes[i] != 10
        invariant
            b == bytes@,
            e == line_end(b, pos as int),
            pos <= i <= e,
            e <= b.len(),
            e < b.len() ==> b[e] == 10,
            spans(toks@) + tokens_from(b, i as int, e) == tokens_from(b, pos as int, e),
            forall|k: int| 0 <= k < toks@.len() ==> pos <= (#[trigger] toks@[k]).0 < toks@[k].1 <= i,
        decreases bytes@.len() - i,
    {
        proof {
            lemma_line_end(b, pos as int, i as int);
        }
        assert(i < e) by {
            if i == e {
                assert(b[e] == 10);
            }
        }
        let c = bytes[i];
        if c == 32 || c == 9 || c == 13 || c == 44 {
            i = i + 1;
        } else {
            let start = i;
            while i < bytes.len() && bytes[i] != 10 && bytes[i] != 32 && bytes[i] != 9 && bytes[i] != 13 && bytes[i] != 44
                invariant
                    b == bytes@,
                    e == line_end(b, pos as int),
                    pos <= start <= i <= e,
                    e <= b.len(),
                    e < b.len() ==> b[e] == 10,
                    forall|k: int| start <= k < i ==> !is_sep(#[trigger] b[k]),
                decreases bytes@.len() - i,
            {
                proof {
                    lemma_line_end(b, pos as int, i as int);
                }
                assert(i < e) by {
                    if i == e {
                        assert(b[e] == 10);
                    }
                }
                i = i + 1;
            }
            proof {
                lemma_token_end(b, start as int, i as int, e);
                if i < e {
                    lemma_line_end(b, pos as int, i as int);
                    assert(is_sep(b[i as int]));
                }
                assert(token_end(b, i as int, e) == i);
                assert(i > start);
                assert(tokens_from(b, start as int, e) == seq![(start as int, i as int)] + tokens_from(b, i as int, e));
            }
            let ghost before = toks@;
            toks.push((start, i));
            proof {
                assert(spans(toks@) =~= spans(before).push((start as int, i as int)));
                assert(spans(before) + tokens_from(b, start as int, e) == tokens_from(b, pos as int, e));
                assert(spans(toks@) + tokens_from(b, i as int, e) =~= spans(before) + (seq![(start as int, i as int)] + tokens_from(b, i as int, e)));
            }
        }
    }
    proof {
        if i < e {
            lemma_line_end(b, pos as int, i as int);
        }
        assert(i == e);
        assert(spans(toks@) =~= spans(toks@) + tokens_from(b, i as int, e));
    }
    if i < bytes.len() {
        i = i + 1;
    }
    (toks, i)
}

/// The tokens of the next line from `pos` on that is neither empty nor a comment,
/// the offset where that line starts, and the start of the line after it. At the
/// end of the input the token list is empty.
fn next_data_line(bytes: &Vec<u8>, pos: usize) -> (r: (Vec<(usize, usize)>, usize, usize))
    requires
        pos <= bytes@.len(),
    ensures
        (spans(r.0@), r.1 as int, r.2 as int) == data_line(bytes@, pos as int),
        pos <= r.1 <= r.2 <= bytes@.len(),
        r.0@.len() > 0 ==> r.1 < bytes@.len(),
        forall|k: int| 0 <= k < r.0@.len() ==> (#[trigger] r.0@[k]).0 < r.0@[k].1 <= r.2,
{
    let mut p = pos;
    while p < bytes.len()
        invariant
            pos <= p <= bytes@.len(),
            data_line(bytes@, p as int) == data_line(bytes@, pos as int),
        decreases bytes@.len() - p,
    {
        let (toks, next) = line_tokens(bytes, p);
        if toks.len() > 0 && bytes[toks[0].0] != 35 {
            proof {
                assert(spans(toks@)[0] == (toks@[0].0 as int, toks@[0].1 as int));
            }
            return (toks, p, next);
        }
        proof {
            if toks@.len() > 0 {
                assert(spans(toks@)[0] == (toks@[0].0 as int, toks@[0].1 as int));
            }
        }
        p = next;
    }
    let v: Vec<(usize, usize)> = Vec::new();
    assert(spans(v@) =~= Seq::<(int, int)>::empty());
    (v, p, p)
}

/// The single count on the data line from `pos` on, and where the next line starts.
pub open spec fn count_line(b: Seq<u8>, pos: int) -> Option<(u64, usize)> {
    let (toks, start, nx) = data_line(b, pos);
    if toks.len() == 1 && token_u64(b, toks[0]) is Some {
        Some((token_u64(b, toks[0]).unwrap(), nx as usize))
    } else {
        None
    }
}

/// The single count on the next data line.
fn read_count(bytes: &Vec<u8>, pos: usize) -> (r: Option<(u64, usize)>)
    requires
        pos <= bytes@.len(),
    ensures
        r == count_line(bytes@, pos as int),
        r matches Some((_, next)) ==> pos <= next <= bytes@.len(),
{
    let (toks, _start, next) = next_data_line(bytes, pos);
    if toks.len() != 1 {
        return None;
    }
    assert(spans(toks@)[0] == (toks@[0].0 as int, toks@[0].1 as int));
    match parse_u64(bytes, toks[0].0, toks[0].1) {
        Some(v) => Some((v, next)),
        None => None,
    }
}

/// One route-pair: origin id, destination id, number of routes.
pub struct RoutePair {
    pub src_id: u64,
    pub dst_id: u64,
    pub count: u64,
}

/// The value of token `t` of `b`, if it is an unsigned decimal that fits in 64 bits.
pub open spec fn token_u64(b: Seq<u8>, t: (int, int)) -> Option<u64> {
    let s = b.subrange(t.0, t.1);
    if is_decimal(s) && digits_value(s) <= u64::MAX {
        Some(digits_value(s) as u64)
    } else {
        None
    }
}

/// The route-pairs from position `pos` on: the triples of the data lines, in order,
/// or the offset of the first data line that is not three 64-bit decimals.
pub open spec fn route_pairs_from(b: Seq<u8>, pos: int) -> Result<Seq<(u64, u64, u64)>, int>
    decreases b.len() - pos,
{
    let (toks, start, nx) = data_line(b, pos);
    if pos < 0 || pos >= b.len() || toks.len() == 0 {
        Ok(Seq::empty())
    } else if toks.len() != 3 || token_u64(b, toks[0]) is None || token_u64(b, toks[1]) is None || token_u64(b, toks[2]) is None {
        Err(start)
    } else if nx <= pos || nx > b.len() {
        Ok(seq![(token_u64(b, toks[0]).unwrap(), token_u64(b, toks[1]).unwrap(), token_u64(b, toks[2]).unwrap())])
    } else {
        match route_pairs_from(b, nx) {
            Ok(rest) => Ok(seq![(token_u64(b, toks[0]).unwrap(), token_u64(b, toks[1]).unwrap(), token_u64(b, toks[2]).unwrap())] + rest),
            Err(x) => Err(x),
        }
    }
}

/// `pre` followed by the pairs of `r`, or the error of `r`.
pub open spec fn after_pairs(pre: Seq<(u64, u64, u64)>, r: Result<Seq<(u64, u64, u64)>, int>) -> Result<Seq<(u64, u64, u64)>, int> {
    match r {
        Ok(rest) => Ok(pre + rest),
        Err(x) => Err(x),
    }
}

/// The pairs as triples.
pub open spec fn triples(pairs: Seq<RoutePair>) -> Seq<(u64, u64, u64)> {
    pairs.map_values(|p: RoutePair| (p.src_id, p.dst_id, p.count))
}

/// Reads a route-pairs file: one `src_id dst_id count` line per pair, the columns
/// separated by spaces, tabs or commas; empty lines and lines starting with `#` are
/// skipped. On a malformed line, the byte offset where it starts.
pub fn parse_route_pairs(content: &Vec<u8>) -> (r: Result<Vec<RoutePair>, usize>)
    ensures
        match r {
            Ok(v) => route_pairs_from(content@, 0) == Ok::<Seq<(u64, u64, u64)>, int>(triples(v@)),
            Err(pos) => route_pairs_from(content@, 0) == Err::<Seq<(u64, u64, u64)>, int>(pos as int),
        },
{
    let ghost b = content@;
    let mut pairs: Vec<RoutePair> = Vec::new();
    let mut pos: usize = 0;
    assert(triples(pairs@) + Seq::<(u64, u64, u64)>::empty() =~= Seq::<(u64, u64, u64)>::empty());
    proof {
        lemma_after_pairs_empty(route_pairs_from(b, 0));
    }
    while pos < content.len()
        invariant
            b == content@,
            pos <= content@.len(),
            route_pairs_from(b, 0) == after_pairs(triples(pairs@), route_pairs_from(b, pos as int)),
        decreases content@.len() - pos,
    {
        let (toks, start, next) = next_data_line(content, pos);
        if toks.len() == 0 {
            assert(triples(pairs@) + Seq::<(u64, u64, u64)>::empty() =~= triples(pairs@));
            return Ok(pairs);
        }
        let ghost sp = spans(toks@);
        if toks.len() != 3 {
            return Err(start);
        }
        assert(sp[0] == (toks@[0].0 as int, toks@[0].1 as int));
        assert(sp[1] == (toks@[1].0 as int, toks@[1].1 as int));
        assert(sp[2] == (toks@[2].0 as int, toks@[2].1 as int));
        let a = parse_u64(content, toks[0].0, toks[0].1);
        let bb = parse_u64(content, toks[1].0, toks[1].1);
        let c = parse_u64(content, toks[2].0, toks[2].1);
        match (a, bb, c) {
            (Some(src_id), Some(dst_id), Some(count)) => {
                let ghost before = triples(pairs@);
                pairs.push(RoutePair { src_id, dst_id, count });
                proof {
                    assert(triples(pairs@) =~= before.push((src_id, dst_id, count)));
                    assert(before + seq![(src_id, dst_id, count)] =~= triples(pairs@));
                    let rest = route_pairs_from(b, next as int);
                    match rest {
                        Ok(r) => {
                            assert(before + (seq![(src_id, dst_id, count)] + r) =~= before.push((src_id, dst_id, count)) + r);
                        },
                        Err(_) => {},
                    }
                }
            },
            _ => {
                return Err(start);
            },
        }
        if next <= pos {
            assert(triples(pairs@) + Seq::<(u64, u64, u64)>::empty() =~= triples(pairs@));
            return Ok(pairs);
        }
        pos = next;
    }
    assert(triples(pairs@) + Seq::<(u64, u64, u64)>::empty() =~= triples(pairs@));
    Ok(pairs)
}

proof fn lemma_after_pairs_empty(r: Result<Seq<(u64, u64, u64)>, int>)
    ensures
        after_pairs(Seq::empty(), r) == r,
{
    match r {
        Ok(rest) => {
            assert(Seq::<(u64, u64, u64)>::empty() + rest =~= rest);
        },
        Err(_) => {},
    }
}

/// Node id and level from columns `c..` of a node line, given those read so far: the
/// last id and level columns count; `None` when one of them is malformed.
pub open spec fn node_cols(b: Seq<u8>, toks: Seq<(int, int)>, cats: Seq<NodeCategory>, c: int, id: u64, level: u64) -> Option<(u64, u64)>
    decreases cats.len() - c,
{
    if c < 0 || c >= cats.len() {
        Some((id, level))
    } else {
        match cats[c] {
            NodeCategory::NodeId => match token_u64(b, toks[c]) {
                Some(v) => node_cols(b, toks, cats, c + 1, v, level),
                None => None,
            },
            NodeCategory::Level => match token_u64(b, toks[c]) {
                Some(v) => node_cols(b, toks, cats, c + 1, id, v),
                None => None,
            },
            _ => node_cols(b, toks, cats, c + 1, id, level),
        }
    }
}

/// The fields of an edge line read so far.
pub ghost struct EdgeFields {
    pub src_id: u64,
    pub dst_id: u64,
    pub metrics: Seq<u32>,
    pub sc0: Option<usize>,
    pub sc1: Option<usize>,
}

/// Edge fields from columns `c..` of an edge line, given those read so far. Node
/// indices name the `nodes` read before. `Err(true)`: an index beyond them;
/// `Err(false)`: a malformed column.
pub open spec fn edge_cols(b: Seq<u8>, toks: Seq<(int, int)>, cats: Seq<EdgeCategory>, c: int, nodes: Seq<u64>, f: EdgeFields) -> Result<EdgeFields, bool>
    decreases cats.len() - c,
{
    if c < 0 || c >= cats.len() {
        Ok(f)
    } else {
        let v = token_u64(b, toks[c]);
        match cats[c] {
            EdgeCategory::SrcId => if v is Some { edge_cols(b, toks, cats, c + 1, nodes, EdgeFields { src_id: v.unwrap(), ..f }) } else { Err(false) },
            EdgeCategory::DstId => if v is Some { edge_cols(b, toks, cats, c + 1, nodes, EdgeFields { dst_id: v.unwrap(), ..f }) } else { Err(false) },
            EdgeCategory::SrcIdx => if v is None { Err(false) } else if v.unwrap() >= nodes.len() { Err(true) } else {
                edge_cols(b, toks, cats, c + 1, nodes, EdgeFields { src_id: nodes[v.unwrap() as int], ..f })
            },
            EdgeCategory::DstIdx => if v is None { Err(false) } else if v.unwrap() >= nodes.len() { Err(true) } else {
                edge_cols(b, toks, cats, c + 1, nodes, EdgeFields { dst_id: nodes[v.unwrap() as int], ..f })
            },
            EdgeCategory::Metric => if v is Some && v.unwrap() <= u32::MAX {
                edge_cols(b, toks, cats, c + 1, nodes, EdgeFields { metrics: f.metrics.push(v.unwrap() as u32), ..f })
            } else {
                Err(false)
            },
            EdgeCategory::ShortcutIdx0 => match shortcut_token(b, toks[c]) {
                Some(x) => edge_cols(b, toks, cats, c + 1, nodes, EdgeFields { sc0: x, ..f }),
                None => Err(false),
            },
            EdgeCategory::ShortcutIdx1 => match shortcut_token(b, toks[c]) {
                Some(x) => edge_cols(b, toks, cats, c + 1, nodes, EdgeFields { sc1: x, ..f }),
                None => Err(false),
            },
            EdgeCategory::Ignored => edge_cols(b, toks, cats, c + 1, nodes, f),
        }
    }
}

pub open spec fn no_fields() -> EdgeFields {
    EdgeFields { src_id: 0, dst_id: 0, metrics: Seq::empty(), sc0: None, sc1: None }
}

/// The shortcut of an edge: both children given, or none.
pub open spec fn shortcut_of(f: EdgeFields) -> Option<(usize, usize)> {
    match (f.sc0, f.sc1) {
        (Some(x), Some(y)) => Some((x, y)),
        _ => None,
    }
}

/// Ids and levels of `k` node lines from `pos` on, and where the lines after them start.
pub open spec fn fmi_nodes(b: Seq<u8>, cats: Seq<NodeCategory>, pos: int, k: nat) -> Result<(Seq<u64>, Seq<u64>, int), ParseError>
    decreases k,
{
    if k == 0 {
        Ok((Seq::empty(), Seq::empty(), pos))
    } else {
        let (toks, start, nx) = data_line(b, pos);
        if toks.len() == 0 {
            Err(ParseError::MissingLines)
        } else if toks.len() != cats.len() {
            Err(ParseError::BadLine(start as usize))
        } else {
            match node_cols(b, toks, cats, 0, 0, 0) {
                None => Err(ParseError::BadLine(start as usize)),
                Some((id, lv)) => match fmi_nodes(b, cats, nx, (k - 1) as nat) {
                    Ok((ids, lvs, end)) => Ok((seq![id] + ids, seq![lv] + lvs, end)),
                    Err(e) => Err(e),
                },
            }
        }
    }
}

/// The records of `k` edge lines from `pos` on: sources, destinations, metrics,
/// shortcuts.
pub open spec fn fmi_edges(b: Seq<u8>, cats: Seq<EdgeCategory>, nodes: Seq<u64>, pos: int, k: nat) -> Result<
    (Seq<u64>, Seq<u64>, Seq<Seq<u32>>, Seq<Option<(usize, usize)>>),
    ParseError,
>
    decreases k,
{
    if k == 0 {
        Ok((Seq::empty(), Seq::empty(), Seq::empty(), Seq::empty()))
    } else {
        let (toks, start, nx) = data_line(b, pos);
        if toks.len() == 0 {
            Err(ParseError::MissingLines)
        } else if toks.len() != cats.len() {
            Err(ParseError::BadLine(start as usize))
        } else {
            match edge_cols(b, toks, cats, 0, nodes, no_fields()) {
                Err(true) => Err(ParseError::BadNodeIndex(start as usize)),
                Err(false) => Err(ParseError::BadLine(start as usize)),
                Ok(f) => match fmi_edges(b, cats, nodes, nx, (k - 1) as nat) {
                    Ok((ss, ds, ms, scs)) => Ok((seq![f.src_id] + ss, seq![f.dst_id] + ds, seq![f.metrics] + ms, seq![shortcut_of(f)] + scs)),
                    Err(e) => Err(e),
                },
            }
        }
    }
}

/// What FMI text holds under the column layout of `cfg`: a node count and an edge
/// count on the first two data lines (the node count below `usize::MAX`), then that
/// many node lines and edge lines; or the first problem met.
pub open spec fn fmi_parse(cfg: &ParsingConfig, b: Seq<u8>) -> Result<BuilderModel, ParseError> {
    match count_line(b, 0) {
        None => Err(ParseError::BadHeader),
        Some((n, p1)) => match count_line(b, p1 as int) {
            None => Err(ParseError::BadHeader),
            Some((m, p2)) => if n >= usize::MAX {
                Err(ParseError::BadHeader)
            } else {
                match fmi_nodes(b, cfg.node_categories@, p2 as int, n as nat) {
                    Err(e) => Err(e),
                    Ok((ids, lvs, p3)) => match fmi_edges(b, cfg.edge_categories@, ids, p3, m as nat) {
                        Err(e) => Err(e),
                        Ok((ss, ds, ms, scs)) => Ok(
                            BuilderModel {
                                combine: cfg.combine@,
                                tolerance: cfg.tolerance,
                                node_ids: ids,
                                levels: lvs,
                                src_ids: ss,
                                dst_ids: ds,
                                metrics: ms,
                                shortcuts: scs,
                            },
                        ),
                    },
                }
            },
        },
    }
}

pub open spec fn after_nodes(pi: Seq<u64>, pl: Seq<u64>, r: Result<(Seq<u64>, Seq<u64>, int), ParseError>) -> Result<(Seq<u64>, Seq<u64>, int), ParseError> {
    match r {
        Ok((ids, lvs, end)) => Ok((pi + ids, pl + lvs, end)),
        Err(e) => Err(e),
    }
}

pub open spec fn after_edges(
    b: BuilderModel,
    r: Result<(Seq<u64>, Seq<u64>, Seq<Seq<u32>>, Seq<Option<(usize, usize)>>), ParseError>,
) -> Result<(Seq<u64>, Seq<u64>, Seq<Seq<u32>>, Seq<Option<(usize, usize)>>), ParseError> {
    match r {
        Ok((ss, ds, ms, scs)) => Ok((b.src_ids + ss, b.dst_ids + ds, b.metrics + ms, b.shortcuts + scs)),
        Err(e) => Err(e),
    }
}

fn parse_node_line(cfg: &ParsingConfig, content: &Vec<u8>, toks: &Vec<(usize, usize)>) -> (r: Option<(u64, u64)>)
    requires
        toks@.len() == cfg.node_categories@.len(),
        forall|k: int| 0 <= k < toks@.len() ==> (#[trigger] toks@[k]).0 < toks@[k].1 <= content@.len(),
    ensures
        r == node_cols(content@, spans(toks@), cfg.node_categories@, 0, 0, 0),
{
    let ghost sp = spans(toks@);
    let mut id: u64 = 0;
    let mut level: u64 = 0;
    let mut c: usize = 0;
    while c < toks.len()
        invariant
            sp == spans(toks@),
            c <= toks@.len(),
            toks@.len() == cfg.node_categories@.len(),
            forall|k: int| 0 <= k < toks@.len() ==> (#[trigger] toks@[k]).0 < toks@[k].1 <= content@.len(),
            node_cols(content@, sp, cfg.node_categories@, 0, 0, 0) == node_cols(content@, sp, cfg.node_categories@, c as int, id, level),
        decreases toks.len() - c,
    {
        let (a, b) = toks[c];
        assert(sp[c as int] == (a as int, b as int));
        match cfg.node_categories[c] {
            NodeCategory::NodeId => {
                match parse_u64(content, a, b) {
                    Some(v) => {
                        id = v;
                    },
                    None => {
                        return None;
                    },
                }
            },
            NodeCategory::Level => {
                match parse_u64(content, a, b) {
                    Some(v) => {
                        level = v;
                    },
                    None => {
                        return None;
                    },
                }
            },
            _ => {},
        }
        c = c + 1;
    }
    Some((id, level))
}

fn parse_edge_line(cfg: &ParsingConfig, content: &Vec<u8>, toks: &Vec<(usize, usize)>, nodes: &Vec<u64>) -> (r: Result<(u64, u64, Vec<u32>, Option<usize>, Option<usize>), bool>)
    requires
        toks@.len() == cfg.edge_categories@.len(),
        forall|k: int| 0 <= k < toks@.len() ==> (#[trigger] toks@[k]).0 < toks@[k].1 <= content@.len(),
    ensures
        match r {
            Ok((s, d, m, x, y)) => edge_cols(content@, spans(toks@), cfg.edge_categories@, 0, nodes@, no_fields()) == Ok::<EdgeFields, bool>(
                EdgeFields { src_id: s, dst_id: d, metrics: m@, sc0: x, sc1: y },
            ),
            Err(e) => edge_cols(content@, spans(toks@), cfg.edge_categories@, 0, nodes@, no_fields()) == Err::<EdgeFields, bool>(e),
        },
{
    let ghost sp = spans(toks@);
    let ghost cats = cfg.edge_categories@;
    let mut src_id: u64 = 0;
    let mut dst_id: u64 = 0;
    let mut metrics: Vec<u32> = Vec::new();
    let mut sc0: Option<usize> = None;
    let mut sc1: Option<usize> = None;
    assert(metrics@ =~= Seq::<u32>::empty());
    let mut c: usize = 0;
    while c < toks.len()
        invariant
            sp == spans(toks@),
            cats == cfg.edge_categories@,
            c <= toks@.len(),
            toks@.len() == cats.len(),
            forall|k: int| 0 <= k < toks@.len() ==> (#[trigger] toks@[k]).0 < toks@[k].1 <= content@.len(),
            edge_cols(content@, sp, cats, 0, nodes@, no_fields()) == edge_cols(content@, sp, cats, c as int, nodes@,
                EdgeFields { src_id, dst_id, metrics: metrics@, sc0, sc1 }),
        decreases toks.len() - c,
    {
        let (a, b) = toks[c];
        assert(sp[c as int] == (a as int, b as int));
        match cfg.edge_categories[c] {
            EdgeCategory::SrcId => {
                match parse_u64(content, a, b) {
                    Some(v) => { src_id = v; },
                    None => { return Err(false); },
                }
            },
            EdgeCategory::DstId => {
                match parse_u64(content, a, b) {
                    Some(v) => { dst_id = v; },
                    None => { return Err(false); },
                }
            },
            EdgeCategory::SrcIdx => {
                match parse_u64(content, a, b) {
                    Some(v) => {
                        if v >= nodes.len() as u64 {
                            return Err(true);
                        }
                        src_id = nodes[v as usize];
                    },
                    None => { return Err(false); },
                }
            },
            EdgeCategory::DstIdx => {
                match parse_u64(content, a, b) {
                    Some(v) => {
                        if v >= nodes.len() as u64 {
                            return Err(true);
                        }
                        dst_id = nodes[v as usize];
                    },
                    None => { return Err(false); },
                }
            },
            EdgeCategory::Metric => {
                match parse_u64(content, a, b) {
                    Some(v) => {
                        if v > u32::MAX as u64 {
                            return Err(false);
                        }
                        metrics.push(v as u32);
                    },
                    None => { return Err(false); },
                }
            },
            EdgeCategory::ShortcutIdx0 => {
                match parse_shortcut_index(content, a, b) {
                    Some(x) => { sc0 = x; },
                    None => { return Err(false); },
                }
            },
            EdgeCategory::ShortcutIdx1 => {
                match parse_shortcut_index(content, a, b) {
                    Some(x) => { sc1 = x; },
                    None => { return Err(false); },
                }
            },
            EdgeCategory::Ignored => {},
        }
        c = c + 1;
    }
    Ok((src_id, dst_id, metrics, sc0, sc1))
}

proof fn lemma_after_nodes_empty(r: Result<(Seq<u64>, Seq<u64>, int), ParseError>)
    ensures
        after_nodes(Seq::empty(), Seq::empty(), r) == r,
{
    match r {
        Ok((ids, lvs, end)) => {
            assert(Seq::<u64>::empty() + ids =~= ids);
            assert(Seq::<u64>::empty() + lvs =~= lvs);
        },
        Err(_) => {},
    }
}

proof fn lemma_after_edges_empty(
    b: BuilderModel,
    r: Result<(Seq<u64>, Seq<u64>, Seq<Seq<u32>>, Seq<Option<(usize, usize)>>), ParseError>,
)
    requires
        b.src_ids.len() == 0,
        b.dst_ids.len() == 0,
        b.metrics.len() == 0,
        b.shortcuts.len() == 0,
    ensures
        after_edges(b, r) == r,
{
    match r {
        Ok((ss, ds, ms, scs)) => {
            assert(b.src_ids + ss =~= ss);
            assert(b.dst_ids + ds =~= ds);
            assert(b.metrics + ms =~= ms);
            assert(b.shortcuts + scs =~= scs);
        },
        Err(_) => {},
    }
}

/// Reads FMI text into a builder.
pub struct Parser;

impl Parser {
    /// Parses the FMI-text `content` of `cfg.map_file` into a builder. The
    /// configuration is checked first; a `*.pbf` map or another extension is refused.
    pub fn parse(cfg: &ParsingConfig, content: &Vec<u8>) -> (r: Result<GraphBuilder, ParseError>)
        ensures
            config_error(cfg) is Some ==> r == Err::<GraphBuilder, ParseError>(ParseError::Config(config_error(cfg).unwrap())),
            config_error(cfg) is None && ext_of(cfg.map_file@) is None ==> r == Err::<GraphBuilder, ParseError>(ParseError::UnknownExtension),
            config_error(cfg) is None && ext_of(cfg.map_file@) == Some(MapFileExt::Pbf) ==> r == Err::<GraphBuilder, ParseError>(ParseError::PbfInput),
            config_error(cfg) is None && ext_of(cfg.map_file@) == Some(MapFileExt::Fmi) ==> match r {
                Ok(b) => b.inv() && fmi_parse(cfg, content@) == Ok::<BuilderModel, ParseError>(b@),
                Err(e) => fmi_parse(cfg, content@) == Err::<BuilderModel, ParseError>(e),
            },
    {
        match check_config(cfg) {
            Ok(()) => {},
            Err(e) => {
                return Err(ParseError::Config(e));
            },
        }
        match map_file_ext(cfg.map_file.as_str()) {
            Some(MapFileExt::Fmi) => {},
            Some(MapFileExt::Pbf) => {
                return Err(ParseError::PbfInput);
            },
            None => {
                return Err(ParseError::UnknownExtension);
            },
        }
        Self::parse_fmi(cfg, content)
    }

    fn parse_fmi(cfg: &ParsingConfig, content: &Vec<u8>) -> (r: Result<GraphBuilder, ParseError>)
        requires
            cfg.combine@.len() <= METRIC_CAPACITY,
        ensures
            match r {
                Ok(b) => b.inv() && fmi_parse(cfg, content@) == Ok::<BuilderModel, ParseError>(b@),
                Err(e) => fmi_parse(cfg, content@) == Err::<BuilderModel, ParseError>(e),
            },
    {
        let ghost bytes = content@;
        let (n, p1) = match read_count(content, 0) {
            Some(x) => x,
            None => {
                return Err(ParseError::BadHeader);
            },
        };
        let (m, p2) = match read_count(content, p1) {
            Some(x) => x,
            None => {
                return Err(ParseError::BadHeader);
            },
        };
        if n >= usize::MAX as u64 {
            return Err(ParseError::BadHeader);
        }
        let mut builder = GraphBuilder::new(cfg.combine.clone(), cfg.tolerance);
        let mut node_ids: Vec<u64> = Vec::new();
        let mut pos = p2;
        let mut i: u64 = 0;
        proof {
            lemma_after_nodes_empty(fmi_nodes(bytes, cfg.node_categories@, p2 as int, n as nat));
        }
        while i < n
            invariant
                bytes == content@,
                pos <= content@.len(),
                i <= n,
                n < usize::MAX,
                builder.inv(),
                builder@.combine == cfg.combine@,
                builder@.tolerance == cfg.tolerance,
                builder@.node_ids.len() == i,
                builder@.src_ids.len() == 0,
                count_line(bytes, 0) == Some((n, p1)),
                count_line(bytes, p1 as int) == Some((m, p2)),
                node_ids@ == builder@.node_ids,
                fmi_nodes(bytes, cfg.node_categories@, p2 as int, n as nat) == after_nodes(builder@.node_ids, builder@.levels,
                    fmi_nodes(bytes, cfg.node_categories@, pos as int, (n - i) as nat)),
            decreases n - i,
        {
            let (toks, start, next) = next_data_line(content, pos);
            if toks.len() == 0 {
                return Err(ParseError::MissingLines);
            }
            if toks.len() != cfg.node_categories.len() {
                return Err(ParseError::BadLine(start));
            }
            let (id, level) = match parse_node_line(cfg, content, &toks) {
                Some(x) => x,
                None => {
                    return Err(ParseError::BadLine(start));
                },
            };
            let ghost pre_ids = builder@.node_ids;
            let ghost pre_lv = builder@.levels;
            builder.add_node(id, level);
            node_ids.push(id);
            proof {
                let rest = fmi_nodes(bytes, cfg.node_categories@, next as int, (n - i - 1) as nat);
                match rest {
                    Ok((ids, lvs, end)) => {
                        assert(pre_ids + (seq![id] + ids) =~= pre_ids.push(id) + ids);
                        assert(pre_lv + (seq![level] + lvs) =~= pre_lv.push(level) + lvs);
                    },
                    Err(_) => {},
                }
            }
            pos = next;
            i = i + 1;
        }
        let ghost b0 = builder@;
        proof {
            assert(builder@.node_ids + Seq::<u64>::empty() =~= builder@.node_ids);
            assert(builder@.levels + Seq::<u64>::empty() =~= builder@.levels);
            lemma_after_edges_empty(builder@, fmi_edges(bytes, cfg.edge_categories@, node_ids@, pos as int, m as nat));
        }
        let ghost p3 = pos;
        let mut j: u64 = 0;
        while j < m
            invariant
                bytes == content@,
                pos <= content@.len(),
                j <= m,
                builder.inv(),
                builder@.combine == cfg.combine@,
                builder@.tolerance == cfg.tolerance,
                builder@.node_ids == b0.node_ids,
                builder@.levels == b0.levels,
                node_ids@ == b0.node_ids,
                b0.src_ids.len() == 0,
                b0.dst_ids.len() == 0,
                b0.metrics.len() == 0,
                b0.shortcuts.len() == 0,
                count_line(bytes, 0) == Some((n, p1)),
                count_line(bytes, p1 as int) == Some((m, p2)),
                n < usize::MAX,
                fmi_nodes(bytes, cfg.node_categories@, p2 as int, n as nat) == Ok::<(Seq<u64>, Seq<u64>, int), ParseError>((b0.node_ids, b0.levels, p3 as int)),
                fmi_edges(bytes, cfg.edge_categories@, node_ids@, p3 as int, m as nat) == after_edges(builder@,
                    fmi_edges(bytes, cfg.edge_categories@, node_ids@, pos as int, (m - j) as nat)),
            decreases m - j,
        {
            let (toks, start, next) = next_data_line(content, pos);
            if toks.len() == 0 {
                return Err(ParseError::MissingLines);
            }
            if toks.len() != cfg.edge_categories.len() {
                return Err(ParseError::BadLine(start));
            }
            let (src_id, dst_id, metrics, sc0, sc1) = match parse_edge_line(cfg, content, &toks, &node_ids) {
                Ok(x) => x,
                Err(true) => {
                    return Err(ParseError::BadNodeIndex(start));
                },
                Err(false) => {
                    return Err(ParseError::BadLine(start));
                },
            };
            let shortcut = match (sc0, sc1) {
                (Some(x), Some(y)) => Some((x, y)),
                _ => None,
            };
            let ghost pre = builder@;
            let ghost f = EdgeFields { src_id, dst_id, metrics: metrics@, sc0, sc1 };
            assert(shortcut == shortcut_of(f));
            builder.add_edge(src_id, dst_id, metrics, shortcut);
            proof {
                let rest = fmi_edges(bytes, cfg.edge_categories@, node_ids@, next as int, (m - j - 1) as nat);
                match rest {
                    Ok((ss, ds, ms, scs)) => {
                        assert(pre.src_ids + (seq![src_id] + ss) =~= pre.src_ids.push(src_id) + ss);
                        assert(pre.dst_ids + (seq![dst_id] + ds) =~= pre.dst_ids.push(dst_id) + ds);
                        assert(pre.metrics + (seq![f.metrics] + ms) =~= pre.metrics.push(f.metrics) + ms);
                        assert(pre.shortcuts + (seq![shortcut] + scs) =~= pre.shortcuts.push(shortcut) + scs);
                    },
                    Err(_) => {},
                }
            }
            pos = next;
            j = j + 1;
        }
        proof {
            assert(builder@.src_ids + Seq::<u64>::empty() =~= builder@.src_ids);
            assert(builder@.dst_ids + Seq::<u64>::empty() =~= builder@.dst_ids);
            assert(builder@.metrics + Seq::<Seq<u32>>::empty() =~= builder@.metrics);
            assert(builder@.shortcuts + Seq::<Option<(usize, usize)>>::empty() =~= builder@.shortcuts);
            assert(fmi_parse(cfg, bytes) == Ok::<BuilderModel, ParseError>(builder@));
        }
        Ok(builder)
    }

    /// Parses `content` and finalizes the graph: `parse` followed by `finalize`.
    pub fn parse_and_finalize(cfg: &ParsingConfig, content: &Vec<u8>) -> (r: Result<Graph, ParseError>)
        ensures
            config_error(cfg) is Some ==> r == Err::<Graph, ParseError>(ParseError::Config(config_error(cfg).unwrap())),
            config_error(cfg) is None && ext_of(cfg.map_file@) is None ==> r == Err::<Graph, ParseError>(ParseError::UnknownExtension),
            config_error(cfg) is None && ext_of(cfg.map_file@) == Some(MapFileExt::Pbf) ==> r == Err::<Graph, ParseError>(ParseError::PbfInput),
            config_error(cfg) is None && ext_of(cfg.map_file@) == Some(MapFileExt::Fmi) ==> match fmi_parse(cfg, content@) {
                Err(e) => r == Err::<Graph, ParseError>(e),
                Ok(bm) => match r {
                    Ok(g) => bm.builds() && g.wf() && bm.finalizes_to(g@),
                    Err(ParseError::Build(e)) => bm.refuses(e),
                    Err(_) => false,
                },
            },
    {
        let builder = match Self::parse(cfg, content) {
            Ok(b) => b,
            Err(e) => {
                return Err(e);
            },
        };
        proof {
            lemma_parsed_node_count(cfg, content@);
        }
        match builder.finalize() {
            Ok(g) => Ok(g),
            Err(e) => Err(ParseError::Build(e)),
        }
    }
}

proof fn lemma_fmi_nodes_len(b: Seq<u8>, cats: Seq<NodeCategory>, pos: int, k: nat)
    ensures
        fmi_nodes(b, cats, pos, k) matches Ok((ids, lvs, _)) ==> ids.len() == k && lvs.len() == k,
    decreases k,
{
    if k > 0 {
        let (toks, start, nx) = data_line(b, pos);
        lemma_fmi_nodes_len(b, cats, nx, (k - 1) as nat);
    }
}

/// Parsed FMI text has fewer than `usize::MAX` nodes.
proof fn lemma_parsed_node_count(cfg: &ParsingConfig, b: Seq<u8>)
    ensures
        fmi_parse(cfg, b) matches Ok(bm) ==> bm.node_ids.len() < usize::MAX,
{
    match count_line(b, 0) {
        Some((n, p1)) => match count_line(b, p1 as int) {
            Some((m, p2)) => {
                lemma_fmi_nodes_len(b, cfg.node_categories@, p2 as int, n as nat);
            },
            None => {},
        },
        None => {},
    }
}

} // verus!
