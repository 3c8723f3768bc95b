//! The path walker: enumerates the candidate configuration files for a
//! target path, from the target's own directory up to and including the
//! filesystem root. The walker does no matching and touches no file; it only
//! names locations, nearest to the target first.

use vstd::prelude::*;
use crate::bytes::spec_last_slash;
use crate::bytes::lemma_last_slash;
use crate::bytes::last_slash;
use crate::bytes::sub_vec;
use crate::errors::ParseError;

verus! {

/// An absolute path starts with `/`.
pub open spec fn spec_is_absolute(t: Seq<u8>) -> bool {
    t.len() > 0 && t[0] == 47
}

/// The directory prefix of a path: everything before the last `/`, or the
/// root when the last `/` is the leading one.
pub open spec fn spec_parent(d: Seq<u8>) -> Seq<u8>
    recommends
        d.len() >= 2,
{
    match spec_last_slash(d) {
        Some(l) => if l == 0 {
            d.take(1)
        } else {
            d.take(l)
        },
        None => d.take(1),
    }
}

/// A directory and each of its ancestors, up to and including the root.
pub open spec fn spec_chain(d: Seq<u8>) -> Seq<Seq<u8>>
    decreases d.len(),
    via spec_chain_dec
{
    if d.len() <= 1 {
        seq![d]
    } else {
        seq![d] + spec_chain(spec_parent(d))
    }
}

#[via_fn]
proof fn spec_chain_dec(d: Seq<u8>) {
    if d.len() >= 2 {
        lemma_last_slash(d);
    }
}

/// The directory the walk starts in: the target's immediate parent.
pub open spec fn spec_start_dir(t: Seq<u8>) -> Seq<u8> {
    if t.len() <= 1 {
        seq![47u8]
    } else {
        spec_parent(t)
    }
}

/// The candidate directories for a target, nearest first, ending at the root.
pub open spec fn spec_candidate_dirs(t: Seq<u8>) -> Seq<Seq<u8>> {
    spec_chain(spec_start_dir(t))
}

/// The full path of the configuration file expected in a directory.
pub open spec fn spec_config_path(dir: Seq<u8>, fname: Seq<u8>) -> Seq<u8> {
    if dir.len() == 1 {
        dir + fname
    } else {
        dir + seq![47u8] + fname
    }
}

/// A directory and the full path of the configuration file expected in it.
/// Whether a file exists there is not the walker's concern.
pub struct CandidateFile {
    /// The directory, without a trailing `/` unless it is the root.
    pub dir: Vec<u8>,
    /// The configuration file's full path within `dir`.
    pub file_path: Vec<u8>,
}

/// The default configuration filename, `.editorconfig`.
pub open spec fn spec_default_config_filename() -> Seq<u8> {
    seq![46u8, 101, 100, 105, 116, 111, 114, 99, 111, 110, 102, 105, 103]
}

/// Returns the default configuration filename, `.editorconfig`.
pub fn default_config_filename() -> (r: Vec<u8>)
    ensures
        r@ == spec_default_config_filename(),
{
    let a: [u8; 13] = [46, 101, 100, 105, 116, 111, 114, 99, 111, 110, 102, 105, 103];
    let mut r: Vec<u8> = Vec::new();
    let mut i: usize = 0;
    while i < 13
        invariant
            0 <= i <= 13,
            a@ =~= spec_default_config_filename(),
            r@ == a@.take(i as int),
        decreases 13 - i,
    {
        r.push(a[i]);
        proof {
            assert(a@.take(i as int).push(a@[i as int]) =~= a@.take(i as int + 1));
        }
        i += 1;
    }
    proof {
        assert(a@.take(13) =~= a@);
    }
    r
}

fn parent_dir(d: &[u8]) -> (r: Vec<u8>)
    requires
        d.len() >= 1,
    ensures
        r@ == spec_parent(d@),
{
    proof {
        lemma_last_slash(d@);
    }
    match last_slash(d) {
        Some(l) => {
            if l == 0 {
                let r = sub_vec(d, 0, 1);
                proof {
                    assert(d@.subrange(0, 1) =~= d@.take(1));
                }
                r
            } else {
                let r = sub_vec(d, 0, l);
                proof {
                    assert(d@.subrange(0, l as int) =~= d@.take(l as int));
                }
                r
            }
        },
        None => {
            let r = sub_vec(d, 0, 1);
            proof {
                assert(d@.subrange(0, 1) =~= d@.take(1));
            }
            r
        },
    }
}

fn config_path(dir: &[u8], fname: &[u8]) -> (r: Vec<u8>)
    requires
        dir.len() >= 1,
    ensures
        r@ == spec_config_path(dir@, fname@),
{
    let mut r = sub_vec(dir, 0, dir.len());
    proof {
        assert(dir@.subrange(0, dir@.len() as int) =~= dir@);
    }
    if dir.len() != 1 {
        r.push(47);
    }
    let ghost head: Seq<u8> = r@;
    let mut i: usize = 0;
    while i < fname.len()
        invariant
            0 <= i <= fname@.len(),
            r@ == head + fname@.take(i as int),
        decreases fname@.len() - i,
    {
        r.push(fname[i]);
        proof {
            assert(head + fname@.take(i as int + 1) =~= (head + fname@.take(i as int)).push(
                fname@[i as int],
            ));
        }
        i += 1;
    }
    proof {
        assert(fname@.take(fname@.len() as int) =~= fname@);
        assert(r@ =~= spec_config_path(dir@, fname@));
    }
    r
}

/// The directories a candidate list names, in order.
pub open spec fn dirs_of(s: Seq<CandidateFile>) -> Seq<Seq<u8>> {
    s.map_values(|c: CandidateFile| c.dir@)
}

/// Enumerates the candidate configuration files for a target path, nearest
/// directory first, ending at the filesystem root. A target that is not
/// absolute is rejected before anything else happens.
pub fn candidate_files(target: &[u8], config_filename: &[u8]) -> (r: Result<
    Vec<CandidateFile>,
    ParseError,
>)
    ensures
        spec_is_absolute(target@) ==> r is Ok && {
            let dirs = spec_candidate_dirs(target@);
            let cs = r.unwrap()@;
            cs.len() == dirs.len() && forall|i: int|
                0 <= i < dirs.len() ==> (#[trigger] cs[i]).dir@ == dirs[i] && cs[i].file_path@
                    == spec_config_path(dirs[i], config_filename@)
        },
        !spec_is_absolute(target@) ==> (r matches Err(e) && e == ParseError::NotFullPathError),
{
    if target.len() == 0 || target[0] != 47 {
        return Err(ParseError::NotFullPathError);
    }
    let mut cur: Vec<u8>;
    if target.len() <= 1 {
        let mut v: Vec<u8> = Vec::new();
        v.push(47);
        proof {
            assert(v@ =~= seq![47u8]);
        }
        cur = v;
    } else {
        cur = parent_dir(target);
    }
    proof {
        assert(cur@ == spec_start_dir(target@));
        if target@.len() >= 2 {
            lemma_last_slash(target@);
        }
    }
    let ghost dirs: Seq<Seq<u8>> = spec_candidate_dirs(target@);
    let mut out: Vec<CandidateFile> = Vec::new();
    loop
        invariant_except_break
            cur@.len() >= 1,
            dirs =~= dirs_of(out@) + spec_chain(cur@),
        invariant
            forall|i: int|
                0 <= i < out@.len() ==> (#[trigger] out@[i]).file_path@ == spec_config_path(
                    out@[i].dir@,
                    config_filename@,
                ),
        ensures
            dirs =~= dirs_of(out@),
        decreases cur@.len(),
    {
        let fp = config_path(cur.as_slice(), config_filename);
        let dir_copy = sub_vec(cur.as_slice(), 0, cur.len());
        proof {
            assert(cur@.subrange(0, cur@.len() as int) =~= cur@);
        }
        let ghost pre: Seq<CandidateFile> = out@;
        out.push(CandidateFile { dir: dir_copy, file_path: fp });
        proof {
            assert(dirs_of(out@) =~= dirs_of(pre).push(cur@));
        }
        if cur.len() <= 1 {
            proof {
                assert(spec_chain(cur@) =~= seq![cur@]);
                assert(dirs =~= dirs_of(out@));
            }
            break ;
        }
        proof {
            lemma_last_slash(cur@);
            assert(spec_chain(cur@) =~= seq![cur@] + spec_chain(spec_parent(cur@)));
            assert(dirs_of(pre).push(cur@) + spec_chain(spec_parent(cur@)) =~= dirs_of(pre) + (
            seq![cur@] + spec_chain(spec_parent(cur@))));
        }
        cur = parent_dir(cur.as_slice());
    }
    proof {
        assert(out@.len() == dirs.len());
        assert forall|i: int| 0 <= i < dirs.len() implies (#[trigger] out@[i]).dir@ == dirs[i] by {
            assert(dirs_of(out@)[i] == out@[i].dir@);
        }
    }
    Ok(out)
}

/// A target in canonical absolute form: a leading `/`, no empty segment, no
/// trailing `/`.
pub open spec fn spec_canonical_path(t: Seq<u8>) -> bool {
    t.len() >= 2 && t[0] == 47 && t.last() != 47 && forall|i: int|
        0 <= i < t.len() - 1 ==> !((#[trigger] t[i]) == 47 && t[i + 1] == 47)
}

/// A directory in canonical form: the root, or a canonical path.
pub open spec fn spec_canonical_dir(d: Seq<u8>) -> bool {
    d == seq![47u8] || spec_canonical_path(d)
}

/// `d` is an ancestor directory of `t`: the root, or a proper prefix of `t`
/// ending at a segment boundary.
pub open spec fn spec_is_ancestor_dir(d: Seq<u8>, t: Seq<u8>) -> bool {
    d == seq![47u8] || (0 < d.len() < t.len() && d == t.take(d.len() as int) && t[d.len() as int]
        == 47)
}

proof fn lemma_ancestor_step(p: Seq<u8>, d: Seq<u8>)
    requires
        spec_canonical_path(p),
        spec_is_ancestor_dir(d, p),
    ensures
        spec_parent(p).len() < p.len(),
        spec_canonical_dir(spec_parent(p)),
        d == spec_parent(p) || spec_is_ancestor_dir(d, spec_parent(p)),
{
    lemma_last_slash(p);
    let l = spec_last_slash(p).unwrap();
    assert(p[0] == 47);
    assert(0 <= l < p.len());
    let q = spec_parent(p);
    if l == 0 || l == 1 {
        assert(q =~= seq![47u8]);
    } else {
        assert(q == p.take(l));
        assert(q.last() == p[l - 1]);
        assert(p[l] == 47);
        assert(p[l - 1] != 47);
        assert(spec_canonical_path(q));
    }
    assert(l < p.len() - 1) by {
        assert(p.last() != 47);
    }
    if d == seq![47u8] {
        if q == seq![47u8] {
        } else {
            assert(spec_is_ancestor_dir(d, q));
        }
    } else {
        let n = d.len() as int;
        assert(0 < n < p.len() && d == p.take(n) && p[n] == 47);
        assert(n <= l);
        if n == l {
            if l == 1 {
                assert(d =~= p.take(1));
                assert(p.take(1) =~= seq![47u8]);
            } else {
                assert(d == q);
            }
        } else {
            assert(n < l);
            if l == 0 || l == 1 {
                assert(false);
            } else {
                assert(d =~= q.take(n));
                assert(q[n] == p[n]);
                assert(spec_is_ancestor_dir(d, q));
            }
        }
    }
}

proof fn lemma_chain_covers(p: Seq<u8>, d: Seq<u8>)
    requires
        spec_canonical_dir(p),
        d == p || spec_is_ancestor_dir(d, p),
    ensures
        spec_chain(p).contains(d),
    decreases p.len(),
{
    if d == p {
        assert(spec_chain(p)[0] == p);
        assert(spec_chain(p).contains(d));
    } else {
        assert(spec_is_ancestor_dir(d, p));
        if p == seq![47u8] {
            assert(d == seq![47u8] || d.len() < 1) by {
                assert(p.len() == 1);
            }
            assert(false);
        } else {
            assert(spec_canonical_path(p));
            lemma_ancestor_step(p, d);
            lemma_chain_covers(spec_parent(p), d);
            let q = spec_parent(p);
            let i = choose|i: int| 0 <= i < spec_chain(q).len() && spec_chain(q)[i] == d;
            assert(spec_chain(p) == seq![p] + spec_chain(q));
            assert(spec_chain(p)[i + 1] == d);
        }
    }
}

/// The walk reaches every ancestor: for a canonical absolute target, every
/// ancestor directory of the target, up to and including the filesystem
/// root, appears among the candidate directories.
pub proof fn lemma_walk_covers_ancestors(target: Seq<u8>, d: Seq<u8>)
    requires
        spec_canonical_path(target),
        spec_is_ancestor_dir(d, target),
    ensures
        spec_candidate_dirs(target).contains(d),
{
    lemma_ancestor_step(target, d);
    assert(spec_start_dir(target) == spec_parent(target));
    lemma_chain_covers(spec_parent(target), d);
}

} // verus!
