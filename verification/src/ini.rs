//! The INI-like configuration grammar: raw text is split into lines, each
//! line is classified, and the lines fold into an ordered sequence of
//! sections. The first malformed line stops the parse and is reported with
//! its 1-based number.

use vstd::prelude::*;
use crate::bytes::spec_trim;
use crate::bytes::trim;
use crate::bytes::sub_vec;

verus! {

/// A section as specification data: the raw pattern and the raw
/// (name, value) pairs, in file order. The preamble is the section with the
/// empty pattern.
#[verifier::ext_equal]
pub struct SectionV {
    /// The glob pattern between the brackets, blanks stripped.
    pub pattern: Seq<u8>,
    /// The (name, value) pairs exactly as written, blanks stripped.
    pub props: Seq<(Seq<u8>, Seq<u8>)>,
}

/// A parsed section: a glob pattern and its ordered properties.
pub struct RawSection {
    /// The glob pattern between the brackets, blanks stripped; empty for the
    /// preamble.
    pub pattern: Vec<u8>,
    /// The (name, value) pairs exactly as written, blanks stripped.
    pub props: Vec<(Vec<u8>, Vec<u8>)>,
}

impl View for RawSection {
    type V = SectionV;

    open spec fn view(&self) -> SectionV {
        SectionV {
            pattern: self.pattern@,
            props: self.props@.map_values(|p: (Vec<u8>, Vec<u8>)| (p.0@, p.1@)),
        }
    }
}

/// The sections denoted by a section vector.
pub open spec fn secs_view(s: Seq<RawSection>) -> Seq<SectionV> {
    s.map_values(|x: RawSection| x@)
}

/// Index of the first line feed in `s`, if any.
pub open spec fn spec_first_nl(s: Seq<u8>) -> Option<int>
    decreases s.len(),
{
    if s.len() == 0 {
        None
    } else if s[0] == 10 {
        Some(0)
    } else {
        match spec_first_nl(s.skip(1)) {
            None => None,
            Some(i) => Some(i + 1),
        }
    }
}

/// What `spec_first_nl` finds: the first line feed, or none at all.
pub proof fn lemma_first_nl(s: Seq<u8>)
    ensures
        match spec_first_nl(s) {
            Some(i) => 0 <= i < s.len() && s[i] == 10 && forall|j: int| 0 <= j < i ==> s[j] != 10,
            None => forall|j: int| 0 <= j < s.len() ==> s[j] != 10,
        },
    decreases s.len(),
{
    if s.len() > 0 && s[0] != 10 {
        lemma_first_nl(s.skip(1));
        assert(forall|j: int| 0 <= j < s.len() - 1 ==> s.skip(1)[j] == s[j + 1]);
        match spec_first_nl(s.skip(1)) {
            Some(i) => {
                assert(s[i + 1] == s.skip(1)[i]);
                assert forall|j: int| 0 <= j < i + 1 implies s[j] != 10 by {
                    if j > 0 {
                        assert(s[j] == s.skip(1)[j - 1]);
                    }
                }
            },
            None => {
                assert forall|j: int| 0 <= j < s.len() implies s[j] != 10 by {
                    if j > 0 {
                        assert(s[j] == s.skip(1)[j - 1]);
                    }
                }
            },
        }
    }
}

/// A line with one trailing carriage return removed.
pub open spec fn strip_cr(line: Seq<u8>) -> Seq<u8> {
    if line.len() > 0 && line.last() == 13 {
        line.drop_last()
    } else {
        line
    }
}

/// The lines of a text, split on line feeds, each stripped of one trailing
/// carriage return. A text without a line feed is one line.
pub open spec fn spec_lines(t: Seq<u8>) -> Seq<Seq<u8>>
    decreases t.len(),
    via spec_lines_dec
{
    match spec_first_nl(t) {
        None => seq![strip_cr(t)],
        Some(i) => seq![strip_cr(t.take(i))] + spec_lines(t.skip(i + 1)),
    }
}

#[via_fn]
proof fn spec_lines_dec(t: Seq<u8>) {
    lemma_first_nl(t);
}

/// How one line reads under the grammar.
pub enum LineClassV {
    /// Nothing but blanks.
    Blank,
    /// First non-blank byte is `;` or `#`.
    Comment,
    /// `[pattern]`, blanks around the pattern stripped.
    Header(Seq<u8>),
    /// `name = value` or `name: value`, blanks around both stripped.
    Pair(Seq<u8>, Seq<u8>),
    /// None of the above: a syntax error.
    Bad,
}

/// Index of the first `=` or `:` in `s`, if any.
pub open spec fn spec_first_delim(s: Seq<u8>) -> Option<int>
    decreases s.len(),
{
    if s.len() == 0 {
        None
    } else if s[0] == 61 || s[0] == 58 {
        Some(0)
    } else {
        match spec_first_delim(s.skip(1)) {
            None => None,
            Some(i) => Some(i + 1),
        }
    }
}

/// What `spec_first_delim` finds.
pub proof fn lemma_first_delim(s: Seq<u8>)
    ensures
        match spec_first_delim(s) {
            Some(i) => 0 <= i < s.len() && (s[i] == 61 || s[i] == 58) && forall|j: int|
                0 <= j < i ==> (s[j] != 61 && s[j] != 58),
            None => forall|j: int| 0 <= j < s.len() ==> (s[j] != 61 && s[j] != 58),
        },
    decreases s.len(),
{
    if s.len() > 0 && s[0] != 61 && s[0] != 58 {
        lemma_first_delim(s.skip(1));
        assert(forall|j: int| 0 <= j < s.len() - 1 ==> s.skip(1)[j] == s[j + 1]);
        match spec_first_delim(s.skip(1)) {
            Some(i) => {
                assert(s[i + 1] == s.skip(1)[i]);
                assert forall|j: int| 0 <= j < i + 1 implies (s[j] != 61 && s[j] != 58) by {
                    if j > 0 {
                        assert(s[j] == s.skip(1)[j - 1]);
                    }
                }
            },
            None => {
                assert forall|j: int| 0 <= j < s.len() implies (s[j] != 61 && s[j] != 58) by {
                    if j > 0 {
                        assert(s[j] == s.skip(1)[j - 1]);
                    }
                }
            },
        }
    }
}

/// Classifies one line: blank, comment, section header, property pair, or a
/// syntax error.
pub open spec fn spec_classify(line: Seq<u8>) -> LineClassV {
    let t = spec_trim(line);
    if t.len() == 0 {
        LineClassV::Blank
    } else if t[0] == 59 || t[0] == 35 {
        LineClassV::Comment
    } else if t[0] == 91 {
        if t.len() >= 2 && t.last() == 93 {
            LineClassV::Header(spec_trim(t.subrange(1, t.len() - 1)))
        } else {
            LineClassV::Bad
        }
    } else {
        match spec_first_delim(t) {
            Some(i) => {
                let name = spec_trim(t.take(i));
                if name.len() > 0 {
                    LineClassV::Pair(name, spec_trim(t.skip(i + 1)))
                } else {
                    LineClassV::Bad
                }
            },
            None => LineClassV::Bad,
        }
    }
}

/// Folds one classified line into the sections built so far; `n` is the
/// line's 1-based number, reported when the line is malformed.
pub open spec fn spec_parse_step(secs: Seq<SectionV>, cls: LineClassV, n: int) -> Result<
    Seq<SectionV>,
    int,
> {
    match cls {
        LineClassV::Blank => Ok(secs),
        LineClassV::Comment => Ok(secs),
        LineClassV::Header(p) => Ok(secs.push(SectionV { pattern: p, props: Seq::empty() })),
        LineClassV::Pair(name, val) => if secs.len() == 0 {
            Ok(seq![SectionV { pattern: Seq::empty(), props: seq![(name, val)] }])
        } else {
            Ok(
                secs.update(
                    secs.len() - 1,
                    SectionV {
                        pattern: secs.last().pattern,
                        props: secs.last().props.push((name, val)),
                    },
                ),
            )
        },
        LineClassV::Bad => Err(n),
    }
}

/// Folds the first `n` lines into sections, stopping at the first error.
pub open spec fn spec_parse_upto(lines: Seq<Seq<u8>>, n: int) -> Result<Seq<SectionV>, int>
    decreases n,
{
    if n <= 0 {
        Ok(Seq::empty())
    } else {
        match spec_parse_upto(lines, n - 1) {
            Err(e) => Err(e),
            Ok(secs) => spec_parse_step(secs, spec_classify(lines[n - 1]), n),
        }
    }
}

/// The parse of a whole text: its ordered sections, or the 1-based number of
/// the first malformed line.
pub open spec fn spec_parse(t: Seq<u8>) -> Result<Seq<SectionV>, int> {
    spec_parse_upto(spec_lines(t), spec_lines(t).len() as int)
}

proof fn lemma_parse_err_persists(lines: Seq<Seq<u8>>, k: int, n: int, e: int)
    requires
        spec_parse_upto(lines, k) == Err::<Seq<SectionV>, int>(e),
        k <= n,
    ensures
        spec_parse_upto(lines, n) == Err::<Seq<SectionV>, int>(e),
    decreases n - k,
{
    if k < n {
        lemma_parse_err_persists(lines, k, n - 1, e);
    }
}

/// The lines denoted by a line vector.
pub open spec fn lines_view(s: Seq<Vec<u8>>) -> Seq<Seq<u8>> {
    s.map_values(|x: Vec<u8>| x@)
}

fn split_lines(text: &[u8]) -> (r: Vec<Vec<u8>>)
    ensures
        lines_view(r@) == spec_lines(text@),
{
    let mut r: Vec<Vec<u8>> = Vec::new();
    let mut p: usize = 0;
    proof {
        assert(text@.skip(0) =~= text@);
        assert(lines_view(r@) + spec_lines(text@.skip(0)) =~= spec_lines(text@));
    }
    loop
        invariant
            0 <= p <= text@.len(),
            spec_lines(text@) =~= lines_view(r@) + spec_lines(text@.skip(p as int)),
        decreases text@.len() - p + 1,
    {
        let ghost rest: Seq<u8> = text@.skip(p as int);
        let mut q: usize = p;
        while q < text.len() && text[q] != 10
            invariant
                p <= q <= text@.len(),
                forall|j: int| p <= j < q ==> text@[j] != 10,
            decreases text@.len() - q,
        {
            q += 1;
        }
        proof {
            lemma_first_nl(rest);
            assert(forall|j: int| 0 <= j < rest.len() ==> rest[j] == text@[p + j]);
        }
        let line: Vec<u8> = if q > p && text[q - 1] == 13 {
            sub_vec(text, p, q - 1)
        } else {
            sub_vec(text, p, q)
        };
        if q == text.len() {
            proof {
                assert(spec_first_nl(rest) is None);
                assert(rest =~= text@.subrange(p as int, q as int));
                assert(strip_cr(rest) =~= line@);
                assert(spec_lines(rest) =~= seq![line@]);
                assert(lines_view(r@.push(line)) =~= lines_view(r@) + seq![line@]);
            }
            r.push(line);
            proof {
                assert(spec_lines(text@) =~= lines_view(r@));
            }
            return r;
        }
        proof {
            assert(rest[q - p] == 10);
            assert(spec_first_nl(rest) == Some(q as int - p as int));
            assert(rest.take(q as int - p as int) =~= text@.subrange(p as int, q as int));
            assert(strip_cr(rest.take(q as int - p as int)) =~= line@);
            assert(rest.skip(q as int - p as int + 1) =~= text@.skip(q as int + 1));
            assert(spec_lines(rest) =~= seq![line@] + spec_lines(text@.skip(q as int + 1)));
            assert(lines_view(r@.push(line)) =~= lines_view(r@) + seq![line@]);
        }
        r.push(line);
        p = q + 1;
    }
}

/// A classified line as executable data.
enum LineKind {
    Blank,
    Comment,
    Header(Vec<u8>),
    Pair(Vec<u8>, Vec<u8>),
    Bad,
}

spec fn kind_view(k: LineKind) -> LineClassV {
    match k {
        LineKind::Blank => LineClassV::Blank,
        LineKind::Comment => LineClassV::Comment,
        LineKind::Header(p) => LineClassV::Header(p@),
        LineKind::Pair(n, v) => LineClassV::Pair(n@, v@),
        LineKind::Bad => LineClassV::Bad,
    }
}

fn classify(line: &[u8]) -> (r: LineKind)
    ensures
        kind_view(r) == spec_classify(line@),
{
    let t = trim(line);
    if t.len() == 0 {
        return LineKind::Blank;
    }
    let c = t[0];
    if c == 59 || c == 35 {
        return LineKind::Comment;
    }
    if c == 91 {
        if t.len() >= 2 && t[t.len() - 1] == 93 {
            let mid = sub_vec(t.as_slice(), 1, t.len() - 1);
            let pat = trim(mid.as_slice());
            return LineKind::Header(pat);
        }
        return LineKind::Bad;
    }
    let mut i: usize = 0;
    while i < t.len() && t[i] != 61 && t[i] != 58
        invariant
            0 <= i <= t@.len(),
            forall|j: int| 0 <= j < i ==> (t@[j] != 61 && t@[j] != 58),
        decreases t@.len() - i,
    {
        i += 1;
    }
    proof {
        lemma_first_delim(t@);
    }
    if i < t.len() {
        proof {
            assert(spec_first_delim(t@) == Some(i as int));
        }
        let head = sub_vec(t.as_slice(), 0, i);
        let name = trim(head.as_slice());
        proof {
            assert(t@.take(i as int) =~= t@.subrange(0, i as int));
        }
        if name.len() == 0 {
            LineKind::Bad
        } else {
            let tail = sub_vec(t.as_slice(), i + 1, t.len());
            let value = trim(tail.as_slice());
            proof {
                assert(t@.skip(i as int + 1) =~= t@.subrange(i as int + 1, t@.len() as int));
            }
            LineKind::Pair(name, value)
        }
    } else {
        LineKind::Bad
    }
}

/// Parses a configuration file's raw text into its ordered sections, or
/// reports the 1-based number of the first malformed line.
pub fn parse_ini(text: &[u8]) -> (r: Result<Vec<RawSection>, usize>)
    ensures
        match r {
            Ok(secs) => spec_parse(text@) == Ok::<Seq<SectionV>, int>(secs_view(secs@)),
            Err(n) => spec_parse(text@) == Err::<Seq<SectionV>, int>(n as int),
        },
{
    let lines = split_lines(text);
    let ghost lv: Seq<Seq<u8>> = spec_lines(text@);
    let mut secs: Vec<RawSection> = Vec::new();
    let mut k: usize = 0;
    proof {
        assert(secs_view(secs@) =~= Seq::<SectionV>::empty());
    }
    while k < lines.len()
        invariant
            0 <= k <= lines@.len(),
            lines_view(lines@) == lv,
            lv == spec_lines(text@),
            spec_parse_upto(lv, k as int) == Ok::<Seq<SectionV>, int>(secs_view(secs@)),
        decreases lines@.len() - k,
    {
        let ghost pre: Seq<SectionV> = secs_view(secs@);
        let cls = classify(lines[k].as_slice());
        proof {
            assert(lv[k as int] == lines@[k as int]@);
        }
        match cls {
            LineKind::Blank => {},
            LineKind::Comment => {},
            LineKind::Header(p) => {
                secs.push(RawSection { pattern: p, props: Vec::new() });
                proof {
                    assert(secs_view(secs@) =~~= pre.push(
                        SectionV { pattern: p@, props: Seq::empty() },
                    ));
                }
            },
            LineKind::Pair(name, value) => {
                if secs.len() == 0 {
                    let mut props: Vec<(Vec<u8>, Vec<u8>)> = Vec::new();
                    props.push((name, value));
                    let ghost nv: (Seq<u8>, Seq<u8>) = (props@[0].0@, props@[0].1@);
                    secs.push(RawSection { pattern: Vec::new(), props });
                    proof {
                        assert(secs_view(secs@) =~~= seq![
                            SectionV { pattern: Seq::empty(), props: seq![nv] },
                        ]);
                    }
                } else {
                    let ghost nv: (Seq<u8>, Seq<u8>) = (name@, value@);
                    let mut last = secs.pop().unwrap();
                    last.props.push((name, value));
                    secs.push(last);
                    proof {
                        assert(secs_view(secs@) =~~= pre.update(
                            pre.len() - 1,
                            SectionV {
                                pattern: pre.last().pattern,
                                props: pre.last().props.push(nv),
                            },
                        ));
                    }
                }
            },
            LineKind::Bad => {
                proof {
                    assert(spec_parse_upto(lv, k as int + 1) == Err::<Seq<SectionV>, int>(
                        k as int + 1,
                    ));
                    lemma_parse_err_persists(lv, k as int + 1, lv.len() as int, k as int + 1);
                }
                return Err(k + 1);
            },
        }
        k += 1;
    }
    Ok(secs)
}

} // verus!
