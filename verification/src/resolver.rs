//! The resolver: orchestrates the walker, the parser and the glob matcher
//! for one target path and one requested version, and merges matching
//! sections' properties so that the file closest to the target wins.
//!
//! Candidate files are read by the caller and handed in as optional byte
//! texts, nearest directory first; an absent file contributes nothing. The
//! resolver walks the candidates nearest-first until a file declares
//! `root = true` or a file fails to parse, then applies the considered
//! files' matching sections outermost-first, so the nearest file's
//! properties are applied last and win.

use vstd::prelude::*;
use crate::bytes::spec_lower;
use crate::bytes::lower;
use crate::bytes::eq_bytes;
use crate::bytes::sub_vec;
use crate::errors::ResolutionError;
use crate::glob::spec_glob_match;
use crate::glob::glob_match;
use crate::ini::SectionV;
use crate::ini::RawSection;
use crate::ini::secs_view;
use crate::ini::spec_parse;
use crate::ini::parse_ini;
use crate::rules::ResolvedRuleSet;
use crate::version::Version;
use crate::version::spec_version_le;
use crate::version::version_le;
use crate::version::spec_current_version;
use crate::version::get_version;
use crate::version::spec_lowercase_gate;
use crate::version::lowercase_gate;
use crate::walker::spec_is_absolute;
use crate::walker::spec_candidate_dirs;
use crate::walker::candidate_files;

verus! {

/// The property name `root`, whose `true` value stops the walk.
pub open spec fn root_name() -> Seq<u8> {
    seq![114u8, 111, 111, 116]
}

/// The value `true`, compared case-insensitively.
pub open spec fn true_value() -> Seq<u8> {
    seq![116u8, 114, 117, 101]
}

/// The value `unset`, which removes a property from the merge.
pub open spec fn unset_value() -> Seq<u8> {
    seq![117u8, 110, 115, 101, 116]
}

/// The property names whose values are lowercased when the requested version
/// enables value lowercasing: `end_of_line`, `indent_style`, `indent_size`,
/// `insert_final_newline`, `trim_trailing_whitespace` and `charset`.
pub open spec fn is_lowercased_value_name(n: Seq<u8>) -> bool {
    ||| n == seq![101u8, 110, 100, 95, 111, 102, 95, 108, 105, 110, 101]
    ||| n == seq![105u8, 110, 100, 101, 110, 116, 95, 115, 116, 121, 108, 101]
    ||| n == seq![105u8, 110, 100, 101, 110, 116, 95, 115, 105, 122, 101]
    ||| n == seq![
        105u8, 110, 115, 101, 114, 116, 95, 102, 105, 110, 97, 108, 95, 110, 101, 119, 108, 105,
        110, 101,
    ]
    ||| n == seq![
        116u8, 114, 105, 109, 95, 116, 114, 97, 105, 108, 105, 110, 103, 95, 119, 104, 105, 116,
        101, 115, 112, 97, 99, 101,
    ]
    ||| n == seq![99u8, 104, 97, 114, 115, 101, 116]
}

fn is_root_name(n: &[u8]) -> (r: bool)
    ensures
        r == (n@ == root_name()),
{
    let a: [u8; 4] = [114, 111, 111, 116];
    proof {
        assert(a@ =~= root_name());
    }
    eq_bytes(n, a.as_slice())
}

fn is_true_value(v: &[u8]) -> (r: bool)
    ensures
        r == (v@ == true_value()),
{
    let a: [u8; 4] = [116, 114, 117, 101];
    proof {
        assert(a@ =~= true_value());
    }
    eq_bytes(v, a.as_slice())
}

fn is_unset_value(v: &[u8]) -> (r: bool)
    ensures
        r == (v@ == unset_value()),
{
    let a: [u8; 5] = [117, 110, 115, 101, 116];
    proof {
        assert(a@ =~= unset_value());
    }
    eq_bytes(v, a.as_slice())
}

fn is_lowercased_name_exec(n: &[u8]) -> (r: bool)
    ensures
        r == is_lowercased_value_name(n@),
{
    let a1: [u8; 11] = [101, 110, 100, 95, 111, 102, 95, 108, 105, 110, 101];
    let a2: [u8; 12] = [105, 110, 100, 101, 110, 116, 95, 115, 116, 121, 108, 101];
    let a3: [u8; 11] = [105, 110, 100, 101, 110, 116, 95, 115, 105, 122, 101];
    let a4: [u8; 20] = [
        105, 110, 115, 101, 114, 116, 95, 102, 105, 110, 97, 108, 95, 110, 101, 119, 108, 105,
        110, 101,
    ];
    let a5: [u8; 24] = [
        116, 114, 105, 109, 95, 116, 114, 97, 105, 108, 105, 110, 103, 95, 119, 104, 105, 116,
        101, 115, 112, 97, 99, 101,
    ];
    let a6: [u8; 7] = [99, 104, 97, 114, 115, 101, 116];
    proof {
        assert(a1@ =~= seq![101u8, 110, 100, 95, 111, 102, 95, 108, 105, 110, 101]);
        assert(a2@ =~= seq![105u8, 110, 100, 101, 110, 116, 95, 115, 116, 121, 108, 101]);
        assert(a3@ =~= seq![105u8, 110, 100, 101, 110, 116, 95, 115, 105, 122, 101]);
        assert(a4@ =~= seq![
            105u8, 110, 115, 101, 114, 116, 95, 102, 105, 110, 97, 108, 95, 110, 101, 119, 108,
            105, 110, 101,
        ]);
        assert(a5@ =~= seq![
            116u8, 114, 105, 109, 95, 116, 114, 97, 105, 108, 105, 110, 103, 95, 119, 104, 105,
            116, 101, 115, 112, 97, 99, 101,
        ]);
        assert(a6@ =~= seq![99u8, 104, 97, 114, 115, 101, 116]);
    }
    eq_bytes(n, a1.as_slice()) || eq_bytes(n, a2.as_slice()) || eq_bytes(n, a3.as_slice())
        || eq_bytes(n, a4.as_slice()) || eq_bytes(n, a5.as_slice()) || eq_bytes(n, a6.as_slice())
}

/// One step of the merge: store a value under a name, or remove a name.
pub enum RuleOp {
    /// Store a value under a (lowercased) name.
    SetRule(Seq<u8>, Seq<u8>),
    /// Remove a (lowercased) name.
    UnsetRule(Seq<u8>),
}

/// The merge step one property gives: the name is lowercased; the name
/// `root` is a walk directive and yields no step; the value `unset`
/// (case-insensitively) removes the name; otherwise the value is stored,
/// lowercased for the enumerated names when the version enables it.
pub open spec fn spec_prop_op(name: Seq<u8>, value: Seq<u8>, ver: Version) -> Option<RuleOp> {
    let k = spec_lower(name);
    if k == root_name() {
        None
    } else if spec_lower(value) == unset_value() {
        Some(RuleOp::UnsetRule(k))
    } else if spec_lowercase_gate(ver) && is_lowercased_value_name(k) {
        Some(RuleOp::SetRule(k, spec_lower(value)))
    } else {
        Some(RuleOp::SetRule(k, value))
    }
}

/// The merge steps of a property list, in order.
pub open spec fn spec_props_ops(props: Seq<(Seq<u8>, Seq<u8>)>, ver: Version) -> Seq<RuleOp>
    decreases props.len(),
{
    if props.len() == 0 {
        Seq::empty()
    } else {
        spec_props_ops(props.drop_last(), ver) + (match spec_prop_op(
            props.last().0,
            props.last().1,
            ver,
        ) {
            None => Seq::<RuleOp>::empty(),
            Some(op) => seq![op],
        })
    }
}

/// The merge steps one section contributes: its properties when its pattern
/// matches the target, nothing otherwise.
pub open spec fn spec_section_ops(sec: SectionV, rel: Seq<u8>, ver: Version) -> Seq<RuleOp> {
    if spec_glob_match(sec.pattern, rel) {
        spec_props_ops(sec.props, ver)
    } else {
        Seq::empty()
    }
}

/// The merge steps one file contributes: its sections' steps in file order,
/// the preamble first.
pub open spec fn spec_file_ops(secs: Seq<SectionV>, rel: Seq<u8>, ver: Version) -> Seq<RuleOp>
    decreases secs.len(),
{
    if secs.len() == 0 {
        Seq::empty()
    } else {
        spec_file_ops(secs.drop_last(), rel, ver) + spec_section_ops(secs.last(), rel, ver)
    }
}

/// Applies one merge step to a mapping.
pub open spec fn spec_apply_op(m: Map<Seq<u8>, Seq<u8>>, op: RuleOp) -> Map<Seq<u8>, Seq<u8>> {
    match op {
        RuleOp::SetRule(k, v) => m.insert(k, v),
        RuleOp::UnsetRule(k) => m.remove(k),
    }
}

/// Applies merge steps left to right.
pub open spec fn spec_apply_ops(m: Map<Seq<u8>, Seq<u8>>, ops: Seq<RuleOp>) -> Map<
    Seq<u8>,
    Seq<u8>,
>
    decreases ops.len(),
{
    if ops.len() == 0 {
        m
    } else {
        spec_apply_op(spec_apply_ops(m, ops.drop_last()), ops.last())
    }
}

/// Steps applied to a concatenation are the steps applied one list after the
/// other.
pub proof fn lemma_apply_ops_concat(m: Map<Seq<u8>, Seq<u8>>, a: Seq<RuleOp>, b: Seq<RuleOp>)
    ensures
        spec_apply_ops(m, a + b) == spec_apply_ops(spec_apply_ops(m, a), b),
    decreases b.len(),
{
    if b.len() == 0 {
        assert(a + b =~= a);
    } else {
        assert((a + b).drop_last() =~= a + b.drop_last());
        assert((a + b).last() == b.last());
        lemma_apply_ops_concat(m, a, b.drop_last());
    }
}

/// The content of the `i`-th candidate; indexes beyond the given list are
/// absent files.
pub open spec fn content_at(contents: Seq<Option<Seq<u8>>>, i: int) -> Option<Seq<u8>> {
    if 0 <= i < contents.len() {
        contents[i]
    } else {
        None
    }
}

/// The parse of the `i`-th candidate; an absent file has no sections.
pub open spec fn spec_sections_at(contents: Seq<Option<Seq<u8>>>, i: int) -> Result<
    Seq<SectionV>,
    int,
> {
    match content_at(contents, i) {
        None => Ok(Seq::empty()),
        Some(t) => spec_parse(t),
    }
}

/// The sections of the `i`-th candidate when it parses; nothing otherwise.
pub open spec fn ok_sections(contents: Seq<Option<Seq<u8>>>, i: int) -> Seq<SectionV> {
    match spec_sections_at(contents, i) {
        Ok(s) => s,
        Err(_) => Seq::empty(),
    }
}

/// A property that declares the file authoritative: name `root`, value
/// `true`, both compared case-insensitively.
pub open spec fn is_root_prop(p: (Seq<u8>, Seq<u8>)) -> bool {
    spec_lower(p.0) == root_name() && spec_lower(p.1) == true_value()
}

/// Whether any section of a file carries `root = true`.
pub open spec fn spec_has_root(secs: Seq<SectionV>) -> bool {
    exists|i: int, j: int|
        0 <= i < secs.len() && 0 <= j < secs[i].props.len() && #[trigger] is_root_prop(
            secs[i].props[j],
        )
}

/// How the nearest-first walk over `n` candidates ends.
pub enum ScanV {
    /// The first `m` candidates are considered; the walk stopped at a root
    /// file or ran out of candidates.
    Stopped(int),
    /// The candidate at the index is malformed at the 1-based line.
    Failed(int, int),
}

/// Walks the candidates from index `i` on: stops after the first file with
/// `root = true`, or fails at the first file that does not parse.
pub open spec fn spec_scan(n: int, contents: Seq<Option<Seq<u8>>>, i: int) -> ScanV
    decreases n - i,
{
    if i >= n {
        ScanV::Stopped(i)
    } else {
        match spec_sections_at(contents, i) {
            Err(line) => ScanV::Failed(i, line),
            Ok(secs) => if spec_has_root(secs) {
                ScanV::Stopped(i + 1)
            } else {
                spec_scan(n, contents, i + 1)
            },
        }
    }
}

/// The target path relative to a candidate directory, `/`-separated.
pub open spec fn spec_rel_path(target: Seq<u8>, dir: Seq<u8>) -> Seq<u8> {
    let c: int = if dir.len() == 1 {
        1
    } else {
        dir.len() as int + 1
    };
    if c <= target.len() {
        target.skip(c)
    } else {
        Seq::empty()
    }
}

/// Merges the considered files `j..m` (nearest-first indexes): the farther
/// files are applied first, then file `j`'s steps on top, so the nearest
/// file wins.
pub open spec fn spec_merge(
    target: Seq<u8>,
    ver: Version,
    dirs: Seq<Seq<u8>>,
    contents: Seq<Option<Seq<u8>>>,
    j: int,
    m: int,
) -> Map<Seq<u8>, Seq<u8>>
    decreases m - j,
{
    if j >= m {
        Map::empty()
    } else {
        spec_apply_ops(
            spec_merge(target, ver, dirs, contents, j + 1, m),
            spec_file_ops(ok_sections(contents, j), spec_rel_path(target, dirs[j]), ver),
        )
    }
}

/// The whole resolution: version gate, absolute-path gate, walk, and merge.
/// `contents[i]` is the text of the `i`-th candidate file (nearest first);
/// a missing entry is an absent file.
pub open spec fn spec_resolve(
    target: Seq<u8>,
    ver: Version,
    contents: Seq<Option<Seq<u8>>>,
) -> Result<Map<Seq<u8>, Seq<u8>>, ResolutionError> {
    if !spec_version_le(ver, spec_current_version()) {
        Err(ResolutionError::VersionTooNew)
    } else if !spec_is_absolute(target) {
        Err(ResolutionError::RelativePathError)
    } else {
        let dirs = spec_candidate_dirs(target);
        match spec_scan(dirs.len() as int, contents, 0) {
            ScanV::Failed(fi, line) => Err(
                ResolutionError::SyntaxError { file_index: fi as usize, line: line as usize },
            ),
            ScanV::Stopped(m) => Ok(spec_merge(target, ver, dirs, contents, 0, m)),
        }
    }
}

/// The optional texts a content vector denotes.
pub open spec fn contents_vw(s: Seq<Option<Vec<u8>>>) -> Seq<Option<Seq<u8>>> {
    s.map_values(
        |o: Option<Vec<u8>>|
            match o {
                None => None,
                Some(v) => Some(v@),
            },
    )
}

fn has_root_exec(secs: &Vec<RawSection>) -> (r: bool)
    ensures
        r == spec_has_root(secs_view(secs@)),
{
    let ghost sv: Seq<SectionV> = secs_view(secs@);
    let mut i: usize = 0;
    while i < secs.len()
        invariant
            0 <= i <= secs@.len(),
            sv == secs_view(secs@),
            forall|x: int, y: int|
                0 <= x < i && 0 <= y < sv[x].props.len() ==> !is_root_prop(#[trigger] sv[x].props[y]),
        decreases secs@.len() - i,
    {
        let sec = &secs[i];
        let mut j: usize = 0;
        while j < sec.props.len()
            invariant
                0 <= i < secs@.len(),
                0 <= j <= sec.props@.len(),
                sv == secs_view(secs@),
                sec == &secs@[i as int],
                forall|y: int| 0 <= y < j ==> !is_root_prop(#[trigger] sv[i as int].props[y]),
            decreases sec.props@.len() - j,
        {
            proof {
                assert(sv[i as int] == secs@[i as int]@);
                assert(sv[i as int].props[j as int] == (
                    sec.props@[j as int].0@,
                    sec.props@[j as int].1@,
                ));
            }
            let k = lower(sec.props[j].0.as_slice());
            let v = lower(sec.props[j].1.as_slice());
            if is_root_name(k.as_slice()) && is_true_value(v.as_slice()) {
                proof {
                    assert(is_root_prop(sv[i as int].props[j as int]));
                }
                return true;
            }
            j += 1;
        }
        i += 1;
    }
    proof {
        assert forall|x: int, y: int|
            0 <= x < sv.len() && 0 <= y < sv[x].props.len() implies !is_root_prop(
            #[trigger] sv[x].props[y],
        ) by {}
    }
    false
}

} // verus!

verus! {

/// Resolves the effective rules for one absolute target path against one
/// requested version. `contents[i]` is the raw text of the `i`-th candidate
/// configuration file, nearest directory first, as `candidate_files`
/// enumerates them; `None` (or a missing entry) is an absent file. Returns
/// the merged rule set, or the error `spec_resolve` names.
pub fn resolve_with_contents(
    target: &[u8],
    version: &Version,
    contents: &Vec<Option<Vec<u8>>>,
) -> (r: Result<ResolvedRuleSet, ResolutionError>)
    ensures
        match r {
            Ok(rules) => rules.wf() && spec_resolve(target@, *version, contents_vw(contents@))
                == Ok::<Map<Seq<u8>, Seq<u8>>, ResolutionError>(rules@),
            Err(e) => spec_resolve(target@, *version, contents_vw(contents@)) == Err::<
                Map<Seq<u8>, Seq<u8>>,
                ResolutionError,
            >(e),
        },
{
    let ghost cv: Seq<Option<Seq<u8>>> = contents_vw(contents@);
    let cur = get_version();
    if !version_le(version, &cur) {
        return Err(ResolutionError::VersionTooNew);
    }
    if target.len() == 0 || target[0] != 47 {
        return Err(ResolutionError::RelativePathError);
    }
    let empty_name: Vec<u8> = Vec::new();
    let cands = match candidate_files(target, empty_name.as_slice()) {
        Ok(c) => c,
        Err(_) => {
            proof {
                assert(false);
            }
            return Err(ResolutionError::RelativePathError);
        },
    };
    let ghost dirs: Seq<Seq<u8>> = spec_candidate_dirs(target@);
    let n = cands.len();
    let ghost nn: int = dirs.len() as int;
    let mut files: Vec<Vec<RawSection>> = Vec::new();
    let mut i: usize = 0;
    let mut rooted = false;
    while i < n && !rooted
        invariant
            0 <= i <= n,
            n == cands@.len(),
            n as int == nn,
            nn == dirs.len(),
            cv == contents_vw(contents@),
            spec_version_le(*version, spec_current_version()),
            spec_is_absolute(target@),
            dirs == spec_candidate_dirs(target@),
            files@.len() == i,
            forall|t: int| 0 <= t < i ==> secs_view((#[trigger] files@[t])@) == ok_sections(cv, t),
            !rooted ==> spec_scan(nn, cv, 0) == spec_scan(nn, cv, i as int),
            rooted ==> spec_scan(nn, cv, 0) == ScanV::Stopped(i as int),
        decreases n - i,
    {
        let secs: Vec<RawSection>;
        if i < contents.len() {
            match &contents[i] {
                Some(text) => {
                    proof {
                        assert(cv[i as int] == Some(text@));
                    }
                    match parse_ini(text.as_slice()) {
                        Ok(s) => {
                            secs = s;
                        },
                        Err(line) => {
                            proof {
                                assert(spec_sections_at(cv, i as int) == Err::<Seq<SectionV>, int>(
                                    line as int,
                                ));
                                assert(spec_scan(nn, cv, i as int) == ScanV::Failed(
                                    i as int,
                                    line as int,
                                ));
                            }
                            return Err(ResolutionError::SyntaxError { file_index: i, line });
                        },
                    }
                },
                None => {
                    proof {
                        assert(cv[i as int] is None);
                    }
                    secs = Vec::new();
                    proof {
                        assert(secs_view(secs@) =~= Seq::<SectionV>::empty());
                    }
                },
            }
        } else {
            proof {
                assert(content_at(cv, i as int) is None);
            }
            secs = Vec::new();
            proof {
                assert(secs_view(secs@) =~= Seq::<SectionV>::empty());
            }
        }
        proof {
            assert(spec_sections_at(cv, i as int) == Ok::<Seq<SectionV>, int>(secs_view(secs@)));
        }
        let root = has_root_exec(&secs);
        let ghost pre: Seq<Vec<RawSection>> = files@;
        files.push(secs);
        proof {
            assert(forall|t: int| 0 <= t < i ==> files@[t] == pre[t]);
            assert(files@[i as int] == secs);
        }
        if root {
            rooted = true;
            proof {
                assert(spec_scan(nn, cv, i as int) == ScanV::Stopped(i as int + 1));
            }
        } else {
            proof {
                assert(spec_scan(nn, cv, i as int) == spec_scan(nn, cv, i as int + 1));
            }
        }
        i += 1;
    }
    let m = files.len();
    proof {
        if !rooted {
            assert(i == n);
            assert(spec_scan(nn, cv, nn) == ScanV::Stopped(nn));
        }
        assert(spec_scan(nn, cv, 0) == ScanV::Stopped(m as int));
    }
    let mut rules = ResolvedRuleSet::new();
    let mut jj: usize = m;
    while jj > 0
        invariant
            0 <= jj <= m,
            m == files@.len(),
            m <= n,
            n == cands@.len(),
            n as int == nn,
            nn == dirs.len(),
            cv == contents_vw(contents@),
            target@.len() > 0,
            forall|t: int| 0 <= t < n ==> (#[trigger] cands@[t]).dir@ == dirs[t],
            forall|t: int| 0 <= t < m ==> secs_view((#[trigger] files@[t])@) == ok_sections(cv, t),
            rules.wf(),
            rules@ == spec_merge(target@, *version, dirs, cv, jj as int, m as int),
        decreases jj,
    {
        let j = jj - 1;
        let dl = cands[j].dir.len();
        let rel: Vec<u8>;
        if dl == 1 {
            rel = sub_vec(target, 1, target.len());
        } else {
            if dl < target.len() {
                rel = sub_vec(target, dl + 1, target.len());
            } else {
                rel = Vec::new();
            }
        }
        proof {
            assert(cands@[j as int].dir@ == dirs[j as int]);
            assert(rel@ =~= spec_rel_path(target@, dirs[j as int]));
        }
        let file = &files[j];
        let ghost m0: Map<Seq<u8>, Seq<u8>> = rules@;
        let ghost fsecs: Seq<SectionV> = secs_view(file@);
        let ghost relv: Seq<u8> = rel@;
        let ghost ver: Version = *version;
        proof {
            assert(fsecs.take(0) =~= Seq::<SectionV>::empty());
            assert(spec_apply_ops(m0, spec_file_ops(fsecs.take(0), relv, ver)) == m0);
        }
        let mut s: usize = 0;
        while s < file.len()
            invariant
                0 <= s <= file@.len(),
                fsecs == secs_view(file@),
                relv == rel@,
                ver == *version,
                rules.wf(),
                rules@ == spec_apply_ops(m0, spec_file_ops(fsecs.take(s as int), relv, ver)),
            decreases file@.len() - s,
        {
            let sec = &file[s];
            proof {
                assert(fsecs[s as int] == file@[s as int]@);
            }
            let matched = glob_match(sec.pattern.as_slice(), rel.as_slice());
            let ghost base_ops: Seq<RuleOp> = spec_file_ops(fsecs.take(s as int), relv, ver);
            if matched {
                let ghost props: Seq<(Seq<u8>, Seq<u8>)> = fsecs[s as int].props;
                proof {
                    assert(props.take(0) =~= Seq::<(Seq<u8>, Seq<u8>)>::empty());
                    assert(base_ops + spec_props_ops(props.take(0), ver) =~= base_ops);
                }
                let mut t: usize = 0;
                while t < sec.props.len()
                    invariant
                        0 <= t <= sec.props@.len(),
                        fsecs == secs_view(file@),
                        0 <= s < file@.len(),
                        fsecs[s as int] == file@[s as int]@,
                        sec == &file@[s as int],
                        props == fsecs[s as int].props,
                        props.len() == sec.props@.len(),
                        relv == rel@,
                        ver == *version,
                        rules.wf(),
                        rules@ == spec_apply_ops(
                            m0,
                            base_ops + spec_props_ops(props.take(t as int), ver),
                        ),
                    decreases sec.props@.len() - t,
                {
                    let ghost sofar: Seq<RuleOp> = base_ops + spec_props_ops(
                        props.take(t as int),
                        ver,
                    );
                    proof {
                        assert(props[t as int] == (sec.props@[t as int].0@, sec.props@[t as int].1@));
                        assert(props.take(t as int + 1).drop_last() =~= props.take(t as int));
                        assert(props.take(t as int + 1).last() == props[t as int]);
                    }
                    let name = &sec.props[t].0;
                    let value = &sec.props[t].1;
                    let k = lower(name.as_slice());
                    if is_root_name(k.as_slice()) {
                        proof {
                            assert(spec_prop_op(name@, value@, ver) is None);
                            assert(base_ops + spec_props_ops(props.take(t as int + 1), ver)
                                =~= sofar);
                        }
                    } else {
                        let lv = lower(value.as_slice());
                        if is_unset_value(lv.as_slice()) {
                            let ghost op: RuleOp = RuleOp::UnsetRule(k@);
                            proof {
                                assert(spec_prop_op(name@, value@, ver) == Some(op));
                                assert(base_ops + spec_props_ops(props.take(t as int + 1), ver)
                                    =~= sofar.push(op));
                                assert(sofar.push(op).drop_last() =~= sofar);
                            }
                            rules.unset(k.as_slice());
                        } else if lowercase_gate(version) && is_lowercased_name_exec(
                            k.as_slice(),
                        ) {
                            let ghost op: RuleOp = RuleOp::SetRule(k@, lv@);
                            proof {
                                assert(spec_prop_op(name@, value@, ver) == Some(op));
                                assert(base_ops + spec_props_ops(props.take(t as int + 1), ver)
                                    =~= sofar.push(op));
                                assert(sofar.push(op).drop_last() =~= sofar);
                            }
                            rules.set(k, lv);
                        } else {
                            let vcopy = sub_vec(value.as_slice(), 0, value.len());
                            proof {
                                assert(vcopy@ =~= value@);
                            }
                            let ghost op: RuleOp = RuleOp::SetRule(k@, value@);
                            proof {
                                assert(spec_prop_op(name@, value@, ver) == Some(op));
                                assert(base_ops + spec_props_ops(props.take(t as int + 1), ver)
                                    =~= sofar.push(op));
                                assert(sofar.push(op).drop_last() =~= sofar);
                            }
                            rules.set(k, vcopy);
                        }
                    }
                    t += 1;
                }
                proof {
                    assert(props.take(props.len() as int) =~= props);
                    assert(spec_glob_match(fsecs[s as int].pattern, relv));
                    assert(spec_section_ops(fsecs[s as int], relv, ver) == spec_props_ops(
                        props,
                        ver,
                    ));
                    assert(fsecs.take(s as int + 1).drop_last() =~= fsecs.take(s as int));
                    assert(fsecs.take(s as int + 1).last() == fsecs[s as int]);
                    lemma_apply_ops_concat(
                        m0,
                        base_ops,
                        spec_section_ops(fsecs[s as int], relv, ver),
                    );
                    lemma_apply_ops_concat(m0, base_ops, spec_props_ops(props, ver));
                    assert(spec_file_ops(fsecs.take(s as int + 1), relv, ver) == base_ops
                        + spec_section_ops(fsecs[s as int], relv, ver));
                }
            } else {
                proof {
                    assert(!spec_glob_match(fsecs[s as int].pattern, relv));
                    assert(spec_section_ops(fsecs[s as int], relv, ver) =~= Seq::<RuleOp>::empty());
                    assert(fsecs.take(s as int + 1).drop_last() =~= fsecs.take(s as int));
                    assert(fsecs.take(s as int + 1).last() == fsecs[s as int]);
                    assert(spec_file_ops(fsecs.take(s as int + 1), relv, ver) =~= spec_file_ops(
                        fsecs.take(s as int),
                        relv,
                        ver,
                    ) + Seq::<RuleOp>::empty());
                    assert(spec_file_ops(fsecs.take(s as int + 1), relv, ver) =~= spec_file_ops(
                        fsecs.take(s as int),
                        relv,
                        ver,
                    ));
                }
            }
            s += 1;
        }
        proof {
            assert(fsecs.take(file@.len() as int) =~= fsecs);
            assert(fsecs == ok_sections(cv, j as int));
            assert(relv == spec_rel_path(target@, dirs[j as int]));
            assert(spec_merge(target@, ver, dirs, cv, j as int, m as int) == spec_apply_ops(
                spec_merge(target@, ver, dirs, cv, j as int + 1, m as int),
                spec_file_ops(ok_sections(cv, j as int), spec_rel_path(target@, dirs[j as int]), ver),
            ));
        }
        jj = j;
    }
    proof {
        assert(rules@ == spec_merge(target@, *version, dirs, cv, 0, m as int));
    }
    Ok(rules)
}

} // verus!

verus! {

/// The name a merge step concerns.
pub open spec fn op_key(op: RuleOp) -> Seq<u8> {
    match op {
        RuleOp::SetRule(k, _) => k,
        RuleOp::UnsetRule(k) => k,
    }
}

/// The last merge step of `ops` that concerns the name `k`, if any.
pub open spec fn last_op_on(ops: Seq<RuleOp>, k: Seq<u8>) -> Option<RuleOp>
    decreases ops.len(),
{
    if ops.len() == 0 {
        None
    } else if op_key(ops.last()) == k {
        Some(ops.last())
    } else {
        last_op_on(ops.drop_last(), k)
    }
}

/// What a step list leaves under a name: the last step on the name decides;
/// a list without a step on the name leaves the mapping's entry alone.
pub proof fn lemma_apply_ops_value(m: Map<Seq<u8>, Seq<u8>>, ops: Seq<RuleOp>, k: Seq<u8>)
    ensures
        match last_op_on(ops, k) {
            Some(op) => op_key(op) == k && (match op {
                RuleOp::SetRule(_, v) => spec_apply_ops(m, ops).contains_key(k) && spec_apply_ops(
                    m,
                    ops,
                )[k] == v,
                RuleOp::UnsetRule(_) => !spec_apply_ops(m, ops).contains_key(k),
            }),
            None => spec_apply_ops(m, ops).contains_key(k) == m.contains_key(k) && (
            m.contains_key(k) ==> spec_apply_ops(m, ops)[k] == m[k]),
        },
    decreases ops.len(),
{
    if ops.len() > 0 {
        lemma_apply_ops_value(m, ops.drop_last(), k);
    }
}

/// The merge steps the candidate at index `j` contributes.
pub open spec fn file_ops_at(
    target: Seq<u8>,
    ver: Version,
    dirs: Seq<Seq<u8>>,
    contents: Seq<Option<Seq<u8>>>,
    j: int,
) -> Seq<RuleOp> {
    spec_file_ops(ok_sections(contents, j), spec_rel_path(target, dirs[j]), ver)
}

/// The nearest considered candidate in `[j, m)` with a merge step on `k`.
pub open spec fn first_mention(
    target: Seq<u8>,
    ver: Version,
    dirs: Seq<Seq<u8>>,
    contents: Seq<Option<Seq<u8>>>,
    j: int,
    m: int,
    k: Seq<u8>,
) -> Option<int>
    decreases m - j,
{
    if j >= m {
        None
    } else if last_op_on(file_ops_at(target, ver, dirs, contents, j), k) is Some {
        Some(j)
    } else {
        first_mention(target, ver, dirs, contents, j + 1, m, k)
    }
}

/// Merge precedence: the merged value of a name is decided entirely by the
/// candidate nearest the target whose matching sections mention the name.
/// Its last step on the name gives the value, or removes the name when it is
/// an `unset`; a name no considered candidate mentions is absent.
pub proof fn lemma_merge_value(
    target: Seq<u8>,
    ver: Version,
    dirs: Seq<Seq<u8>>,
    contents: Seq<Option<Seq<u8>>>,
    j: int,
    m: int,
    k: Seq<u8>,
)
    ensures
        ({
            let merged = spec_merge(target, ver, dirs, contents, j, m);
            match first_mention(target, ver, dirs, contents, j, m, k) {
                None => !merged.contains_key(k),
                Some(i) => match last_op_on(file_ops_at(target, ver, dirs, contents, i), k) {
                    Some(RuleOp::SetRule(_, v)) => merged.contains_key(k) && merged[k] == v,
                    Some(RuleOp::UnsetRule(_)) => !merged.contains_key(k),
                    None => true,
                },
            }
        }),
    decreases m - j,
{
    if j < m {
        lemma_merge_value(target, ver, dirs, contents, j + 1, m, k);
        lemma_apply_ops_value(
            spec_merge(target, ver, dirs, contents, j + 1, m),
            file_ops_at(target, ver, dirs, contents, j),
            k,
        );
    }
}

proof fn lemma_first_mention_is(
    target: Seq<u8>,
    ver: Version,
    dirs: Seq<Seq<u8>>,
    contents: Seq<Option<Seq<u8>>>,
    j: int,
    i: int,
    m: int,
    k: Seq<u8>,
)
    requires
        j <= i < m,
        forall|t: int|
            j <= t < i ==> last_op_on(#[trigger] file_ops_at(target, ver, dirs, contents, t), k)
                is None,
        last_op_on(file_ops_at(target, ver, dirs, contents, i), k) is Some,
    ensures
        first_mention(target, ver, dirs, contents, j, m, k) == Some(i),
    decreases i - j,
{
    if j < i {
        lemma_first_mention_is(target, ver, dirs, contents, j + 1, i, m, k);
    }
}

/// Merge precedence between files: when the candidate at index `i` is the
/// nearest one to mention a name and its last step sets a value, that value
/// is the merged result — whatever any farther candidate set the name to.
pub proof fn lemma_nearest_set_wins(
    target: Seq<u8>,
    ver: Version,
    dirs: Seq<Seq<u8>>,
    contents: Seq<Option<Seq<u8>>>,
    i: int,
    m: int,
    k: Seq<u8>,
    v: Seq<u8>,
)
    requires
        0 <= i < m,
        forall|t: int|
            0 <= t < i ==> last_op_on(#[trigger] file_ops_at(target, ver, dirs, contents, t), k)
                is None,
        last_op_on(file_ops_at(target, ver, dirs, contents, i), k) == Some(RuleOp::SetRule(k, v)),
    ensures
        spec_merge(target, ver, dirs, contents, 0, m).contains_key(k),
        spec_merge(target, ver, dirs, contents, 0, m)[k] == v,
{
    lemma_first_mention_is(target, ver, dirs, contents, 0, i, m, k);
    lemma_merge_value(target, ver, dirs, contents, 0, m, k);
}

/// `unset` removes: when the candidate at index `i` is the nearest one to
/// mention a name and its last step is an `unset`, the name is absent from
/// the merged result — even when a farther candidate set it and no file
/// closer in re-sets it.
pub proof fn lemma_nearest_unset_removes(
    target: Seq<u8>,
    ver: Version,
    dirs: Seq<Seq<u8>>,
    contents: Seq<Option<Seq<u8>>>,
    i: int,
    m: int,
    k: Seq<u8>,
)
    requires
        0 <= i < m,
        forall|t: int|
            0 <= t < i ==> last_op_on(#[trigger] file_ops_at(target, ver, dirs, contents, t), k)
                is None,
        last_op_on(file_ops_at(target, ver, dirs, contents, i), k) == Some(RuleOp::UnsetRule(k)),
    ensures
        !spec_merge(target, ver, dirs, contents, 0, m).contains_key(k),
{
    lemma_first_mention_is(target, ver, dirs, contents, 0, i, m, k);
    lemma_merge_value(target, ver, dirs, contents, 0, m, k);
}

proof fn lemma_scan_clean_prefix(n: int, contents: Seq<Option<Seq<u8>>>, i: int)
    requires
        0 <= i <= n,
        forall|t: int|
            0 <= t < i ==> (#[trigger] spec_sections_at(contents, t)) is Ok && !spec_has_root(
                ok_sections(contents, t),
            ),
    ensures
        spec_scan(n, contents, 0) == spec_scan(n, contents, i),
    decreases i,
{
    if i > 0 {
        lemma_scan_clean_prefix(n, contents, i - 1);
    }
}

/// With no `root = true` anywhere and every candidate parsing, the walk
/// considers every candidate directory, up to and including the filesystem
/// root.
pub proof fn lemma_no_root_considers_all(n: int, contents: Seq<Option<Seq<u8>>>)
    requires
        0 <= n,
        forall|t: int|
            0 <= t < n ==> (#[trigger] spec_sections_at(contents, t)) is Ok && !spec_has_root(
                ok_sections(contents, t),
            ),
    ensures
        spec_scan(n, contents, 0) == ScanV::Stopped(n),
{
    lemma_scan_clean_prefix(n, contents, n);
}

proof fn lemma_scan_bounds(n: int, contents: Seq<Option<Seq<u8>>>, i: int)
    requires
        0 <= i,
    ensures
        match spec_scan(n, contents, i) {
            ScanV::Stopped(m) => i <= m && (i < n ==> m <= n),
            ScanV::Failed(fi, _) => i <= fi < n,
        },
    decreases n - i,
{
    if i < n {
        match spec_sections_at(contents, i) {
            Err(_) => {},
            Ok(secs) => {
                if !spec_has_root(secs) {
                    lemma_scan_bounds(n, contents, i + 1);
                }
            },
        }
    }
}

proof fn lemma_scan_agree(
    n: int,
    c1: Seq<Option<Seq<u8>>>,
    c2: Seq<Option<Seq<u8>>>,
    i: int,
    m: int,
)
    requires
        0 <= i,
        spec_scan(n, c1, i) == ScanV::Stopped(m),
        forall|t: int| i <= t < m ==> content_at(c1, t) == content_at(c2, t),
    ensures
        spec_scan(n, c2, i) == ScanV::Stopped(m),
    decreases n - i,
{
    lemma_scan_bounds(n, c1, i);
    if i < n {
        match spec_sections_at(c1, i) {
            Err(_) => {},
            Ok(secs) => {
                if spec_has_root(secs) {
                    assert(m == i + 1);
                    assert(content_at(c1, i) == content_at(c2, i));
                } else {
                    lemma_scan_bounds(n, c1, i + 1);
                    assert(i < m);
                    assert(content_at(c1, i) == content_at(c2, i));
                    lemma_scan_agree(n, c1, c2, i + 1, m);
                }
            },
        }
    }
}

proof fn lemma_merge_agree(
    target: Seq<u8>,
    ver: Version,
    dirs: Seq<Seq<u8>>,
    c1: Seq<Option<Seq<u8>>>,
    c2: Seq<Option<Seq<u8>>>,
    j: int,
    m: int,
)
    requires
        forall|t: int| j <= t < m ==> content_at(c1, t) == content_at(c2, t),
    ensures
        spec_merge(target, ver, dirs, c1, j, m) == spec_merge(target, ver, dirs, c2, j, m),
    decreases m - j,
{
    if j < m {
        lemma_merge_agree(target, ver, dirs, c1, c2, j + 1, m);
        assert(content_at(c1, j) == content_at(c2, j));
        assert(ok_sections(c1, j) == ok_sections(c2, j));
    }
}

/// A `root = true` file stops the walk after that file: when the candidate
/// at index `i` declares itself root (its nearer candidates parsing and
/// rootless), the resolution reads nothing farther out — any two content
/// lists that agree on the candidates up to and including index `i` resolve
/// to the same result, wherever in its file the root property stands.
pub proof fn lemma_root_stops_walk(
    target: Seq<u8>,
    ver: Version,
    c1: Seq<Option<Seq<u8>>>,
    c2: Seq<Option<Seq<u8>>>,
    i: int,
)
    requires
        0 <= i < spec_candidate_dirs(target).len(),
        forall|t: int|
            0 <= t <= i ==> (#[trigger] spec_sections_at(c1, t)) is Ok,
        forall|t: int| 0 <= t < i ==> !spec_has_root(ok_sections(c1, t)),
        spec_has_root(ok_sections(c1, i)),
        forall|t: int| 0 <= t <= i ==> content_at(c1, t) == content_at(c2, t),
    ensures
        spec_resolve(target, ver, c1) == spec_resolve(target, ver, c2),
{
    let n = spec_candidate_dirs(target).len() as int;
    assert forall|t: int|
        0 <= t < i implies (#[trigger] spec_sections_at(c1, t)) is Ok && !spec_has_root(
        ok_sections(c1, t),
    ) by {}
    lemma_scan_clean_prefix(n, c1, i);
    assert(spec_scan(n, c1, i) == ScanV::Stopped(i + 1));
    lemma_scan_agree(n, c1, c2, 0, i + 1);
    lemma_merge_agree(target, ver, spec_candidate_dirs(target), c1, c2, 0, i + 1);
}

} // verus!
