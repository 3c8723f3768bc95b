//! Byte-sequence helpers shared by the parser, the glob matcher and the
//! resolver: blank trimming, ASCII lowercasing, slicing and searching.

use vstd::prelude::*;

verus! {

/// Space and horizontal tab, the blank characters the INI grammar ignores.
pub open spec fn is_ws(c: u8) -> bool {
    c == 32 || c == 9
}

/// ASCII lowercasing of one byte; bytes outside `A`-`Z` are unchanged.
pub open spec fn spec_lower_byte(c: u8) -> u8 {
    if 65 <= c && c <= 90 {
        (c + 32) as u8
    } else {
        c
    }
}

/// ASCII lowercasing of a byte sequence.
pub open spec fn spec_lower(s: Seq<u8>) -> Seq<u8> {
    s.map_values(|c: u8| spec_lower_byte(c))
}

pub open spec fn spec_trim_front(s: Seq<u8>) -> Seq<u8>
    decreases s.len(),
{
    if s.len() > 0 && is_ws(s[0]) {
        spec_trim_front(s.skip(1))
    } else {
        s
    }
}

pub open spec fn spec_trim_back(s: Seq<u8>) -> Seq<u8>
    decreases s.len(),
{
    if s.len() > 0 && is_ws(s.last()) {
        spec_trim_back(s.drop_last())
    } else {
        s
    }
}

/// A byte sequence with blanks removed from both ends.
pub open spec fn spec_trim(s: Seq<u8>) -> Seq<u8> {
    spec_trim_back(spec_trim_front(s))
}

/// Copies `v[i..j]` into a fresh vector.
pub fn sub_vec(v: &[u8], i: usize, j: usize) -> (r: Vec<u8>)
    requires
        i <= j && j <= v.len(),
    ensures
        r@ == v@.subrange(i as int, j as int),
{
    let mut r: Vec<u8> = Vec::new();
    let mut k: usize = i;
    while k < j
        invariant
            i <= k <= j <= v.len(),
            r@ == v@.subrange(i as int, k as int),
        decreases j - k,
    {
        r.push(v[k]);
        proof {
            assert(v@.subrange(i as int, k as int).push(v@[k as int]) =~= v@.subrange(
                i as int,
                k as int + 1,
            ));
        }
        k += 1;
    }
    r
}

/// Byte-wise equality of two slices.
pub fn eq_bytes(a: &[u8], b: &[u8]) -> (r: bool)
    ensures
        r == (a@ == b@),
{
    if a.len() != b.len() {
        return false;
    }
    let mut k: usize = 0;
    while k < a.len()
        invariant
            0 <= k <= a.len(),
            a.len() == b.len(),
            forall|j: int| 0 <= j < k ==> a@[j] == b@[j],
        decreases a.len() - k,
    {
        if a[k] != b[k] {
            return false;
        }
        k += 1;
    }
    proof {
        assert(a@ =~= b@);
    }
    true
}

/// ASCII lowercasing, executable form.
pub fn lower(v: &[u8]) -> (r: Vec<u8>)
    ensures
        r@ == spec_lower(v@),
{
    let mut r: Vec<u8> = Vec::new();
    let mut k: usize = 0;
    while k < v.len()
        invariant
            0 <= k <= v.len(),
            r@ == spec_lower(v@.take(k as int)),
        decreases v.len() - k,
    {
        let c = v[k];
        if 65 <= c && c <= 90 {
            r.push(c + 32);
        } else {
            r.push(c);
        }
        proof {
            assert(spec_lower(v@.take(k as int)).push(spec_lower_byte(v@[k as int])) =~= spec_lower(
                v@.take(k as int + 1),
            ));
        }
        k += 1;
    }
    proof {
        assert(v@.take(v@.len() as int) =~= v@);
    }
    r
}

/// Blanks removed from both ends, executable form.
pub fn trim(v: &[u8]) -> (r: Vec<u8>)
    ensures
        r@ == spec_trim(v@),
{
    proof {
        assert(v@.skip(0) =~= v@);
    }
    let mut i: usize = 0;
    while i < v.len() && (v[i] == 32 || v[i] == 9)
        invariant
            0 <= i <= v.len(),
            spec_trim_front(v@) == spec_trim_front(v@.skip(i as int)),
        decreases v.len() - i,
    {
        proof {
            assert(v@.skip(i as int)[0] == v@[i as int]);
            assert(v@.skip(i as int).skip(1) =~= v@.skip(i as int + 1));
        }
        i += 1;
    }
    proof {
        if i < v.len() {
            assert(v@.skip(i as int)[0] == v@[i as int]);
        }
        assert(spec_trim_front(v@) == v@.skip(i as int));
    }
    let ghost t: Seq<u8> = v@.skip(i as int);
    proof {
        assert(t.take(v@.len() - i as int) =~= t);
    }
    let mut j: usize = v.len();
    while j > i && (v[j - 1] == 32 || v[j - 1] == 9)
        invariant
            i <= j <= v.len(),
            t == v@.skip(i as int),
            spec_trim_back(t) == spec_trim_back(t.take(j as int - i as int)),
        decreases j,
    {
        proof {
            assert(t.take(j as int - i as int).last() == t[j as int - i as int - 1] == v@[j as int
                - 1]);
            assert(t.take(j as int - i as int).drop_last() =~= t.take(j as int - 1 - i as int));
        }
        j -= 1;
    }
    proof {
        if j > i {
            assert(t.take(j as int - i as int).last() == t[j as int - i as int - 1] == v@[j as int
                - 1]);
        }
        assert(spec_trim_back(t) == t.take(j as int - i as int));
        assert(t.take(j as int - i as int) =~= v@.subrange(i as int, j as int));
    }
    sub_vec(v, i, j)
}

/// Index of the last `/` in `s`, if any.
pub open spec fn spec_last_slash(s: Seq<u8>) -> Option<int>
    decreases s.len(),
{
    if s.len() == 0 {
        None
    } else if s.last() == 47 {
        Some(s.len() - 1)
    } else {
        spec_last_slash(s.drop_last())
    }
}

/// What `spec_last_slash` finds: the last slash position, or no slash at all.
pub proof fn lemma_last_slash(s: Seq<u8>)
    ensures
        match spec_last_slash(s) {
            Some(l) => 0 <= l < s.len() && s[l] == 47 && forall|j: int|
                l < j < s.len() ==> s[j] != 47,
            None => forall|j: int| 0 <= j < s.len() ==> s[j] != 47,
        },
    decreases s.len(),
{
    if s.len() > 0 && s.last() != 47 {
        lemma_last_slash(s.drop_last());
        assert(forall|j: int| 0 <= j < s.len() - 1 ==> s[j] == s.drop_last()[j]);
        match spec_last_slash(s.drop_last()) {
            Some(l) => {
                assert forall|j: int| l < j < s.len() implies s[j] != 47 by {
                    if j == s.len() - 1 {
                        assert(s[j] == s.last());
                    }
                }
            },
            None => {
                assert forall|j: int| 0 <= j < s.len() implies s[j] != 47 by {
                    if j == s.len() - 1 {
                        assert(s[j] == s.last());
                    }
                }
            },
        }
    }
}

/// Whether `s` contains a `/` anywhere.
pub open spec fn spec_has_slash(s: Seq<u8>) -> bool {
    spec_last_slash(s) is Some
}

/// Finds the last `/`, executable form.
pub fn last_slash(v: &[u8]) -> (r: Option<usize>)
    ensures
        match r {
            Some(l) => Some(l as int) == spec_last_slash(v@),
            None => spec_last_slash(v@) is None,
        },
{
    proof {
        assert(v@.take(v@.len() as int) =~= v@);
    }
    let mut j: usize = v.len();
    while j > 0
        invariant
            0 <= j <= v.len(),
            spec_last_slash(v@) == spec_last_slash(v@.take(j as int)),
        decreases j,
    {
        proof {
            assert(v@.take(j as int).last() == v@[j as int - 1]);
            assert(v@.take(j as int).drop_last() =~= v@.take(j as int - 1));
        }
        if v[j - 1] == 47 {
            return Some(j - 1);
        }
        j -= 1;
    }
    proof {
        assert(v@.take(0) =~= Seq::<u8>::empty());
    }
    None
}

} // verus!
