//! The glob matcher. A pattern is compiled into a set of alternative atom
//! sequences (brace alternation is expanded at compile time) and evaluated
//! against a `/`-separated relative path. Malformed class or brace syntax
//! makes the pattern match nothing rather than raising an error.
//!
//! Bytes are matched literally and case-sensitively. `*` crosses no `/`,
//! `**` crosses everything, `?` matches one byte that is not `/`, classes
//! match one byte, `{a,b}` alternates, and `{n1..n2}` matches a decimal
//! integer within the inclusive range.

use vstd::prelude::*;
use crate::bytes::spec_last_slash;
use crate::bytes::spec_has_slash;
use crate::bytes::lemma_last_slash;
use crate::bytes::last_slash;
use crate::bytes::sub_vec;

verus! {

/// One entry of a character class: a single byte or an inclusive range.
#[derive(Clone, Copy, Debug, PartialEq, Eq, Structural)]
pub enum ClassItem {
    /// A literal byte.
    Ch(u8),
    /// An inclusive byte range, low end first.
    Range(u8, u8),
}

/// A compiled pattern element, as specification data.
pub enum AtomV {
    /// One literal byte.
    Lit(u8),
    /// `?`: one byte that is not `/`.
    AnyChar,
    /// `*`: any run of bytes without `/`.
    AnySeq,
    /// `**`: any run of bytes.
    AnyDeep,
    /// `[...]`: one byte tested against the items, possibly negated.
    Class { negated: bool, items: Seq<ClassItem> },
    /// `{n1..n2}`: a decimal integer within the inclusive range.
    NumRange(int, int),
}

/// A compiled pattern element, as executable data.
pub enum GlobAtom {
    /// One literal byte.
    Lit(u8),
    /// `?`: one byte that is not `/`.
    AnyChar,
    /// `*`: any run of bytes without `/`.
    AnySeq,
    /// `**`: any run of bytes.
    AnyDeep,
    /// `[...]`: one byte tested against the items, possibly negated.
    Class { negated: bool, items: Vec<ClassItem> },
    /// `{n1..n2}`: a decimal integer within the inclusive range.
    NumRange(i64, i64),
}

impl View for GlobAtom {
    type V = AtomV;

    open spec fn view(&self) -> AtomV {
        match *self {
            GlobAtom::Lit(c) => AtomV::Lit(c),
            GlobAtom::AnyChar => AtomV::AnyChar,
            GlobAtom::AnySeq => AtomV::AnySeq,
            GlobAtom::AnyDeep => AtomV::AnyDeep,
            GlobAtom::Class { negated, items } => AtomV::Class { negated, items: items@ },
            GlobAtom::NumRange(lo, hi) => AtomV::NumRange(lo as int, hi as int),
        }
    }
}

/// The atom sequence denoted by an atom vector.
pub open spec fn atoms_vw(s: Seq<GlobAtom>) -> Seq<AtomV> {
    s.map_values(|a: GlobAtom| a@)
}

/// The alternative list denoted by a vector of atom vectors.
pub open spec fn alts_vw(s: Seq<Vec<GlobAtom>>) -> Seq<Seq<AtomV>> {
    s.map_values(|v: Vec<GlobAtom>| atoms_vw(v@))
}

/// Whether one class item accepts a byte.
pub open spec fn class_item_matches(it: ClassItem, c: u8) -> bool {
    match it {
        ClassItem::Ch(x) => c == x,
        ClassItem::Range(a, b) => a <= c && c <= b,
    }
}

/// Whether any item of a class accepts a byte.
pub open spec fn class_matches(items: Seq<ClassItem>, c: u8) -> bool {
    exists|i: int| 0 <= i < items.len() && class_item_matches(items[i], c)
}

/// No `/` anywhere in `s`.
pub open spec fn no_slash(s: Seq<u8>) -> bool {
    forall|i: int| 0 <= i < s.len() ==> s[i] != 47
}

/// Every byte of `s` is a decimal digit.
pub open spec fn all_digits(s: Seq<u8>) -> bool {
    forall|i: int| 0 <= i < s.len() ==> 48 <= #[trigger] s[i] <= 57
}

/// The number a digit string denotes.
pub open spec fn digits_value(s: Seq<u8>) -> int
    decreases s.len(),
{
    if s.len() == 0 {
        0
    } else {
        digits_value(s.drop_last()) * 10 + (s.last() - 48)
    }
}

/// An optional `-` followed by at least one digit; leading zeros allowed.
pub open spec fn is_int_literal(s: Seq<u8>) -> bool {
    if s.len() > 0 && s[0] == 45 {
        s.len() >= 2 && all_digits(s.skip(1))
    } else {
        s.len() >= 1 && all_digits(s)
    }
}

/// The signed value an integer literal denotes.
pub open spec fn int_value(s: Seq<u8>) -> int {
    if s.len() > 0 && s[0] == 45 {
        -digits_value(s.skip(1))
    } else {
        digits_value(s)
    }
}

/// Whether an atom sequence matches a whole byte string.
pub open spec fn atoms_match(atoms: Seq<AtomV>, s: Seq<u8>) -> bool
    decreases atoms.len(),
{
    if atoms.len() == 0 {
        s.len() == 0
    } else {
        match atoms[0] {
            AtomV::Lit(c) => s.len() > 0 && s[0] == c && atoms_match(atoms.skip(1), s.skip(1)),
            AtomV::AnyChar => s.len() > 0 && s[0] != 47 && atoms_match(atoms.skip(1), s.skip(1)),
            AtomV::Class { negated, items } => s.len() > 0 && (class_matches(items, s[0])
                != negated) && atoms_match(atoms.skip(1), s.skip(1)),
            AtomV::AnySeq => exists|k: int|
                0 <= k <= s.len() && no_slash(s.take(k)) && atoms_match(
                    atoms.skip(1),
                    s.skip(k),
                ),
            AtomV::AnyDeep => exists|k: int|
                0 <= k <= s.len() && atoms_match(atoms.skip(1), s.skip(k)),
            AtomV::NumRange(lo, hi) => exists|k: int|
                1 <= k <= s.len() && is_int_literal(s.take(k)) && lo <= int_value(s.take(k)) <= hi
                    && atoms_match(atoms.skip(1), s.skip(k)),
        }
    }
}

/// Index of the `}` that closes, at nesting depth zero, the group whose body
/// starts at `i`; escapes are honored.
pub open spec fn spec_find_close(p: Seq<u8>, i: int, depth: int) -> Option<int>
    decreases p.len() - i + 2,
{
    if i < 0 || i >= p.len() {
        None
    } else if p[i] == 92 {
        spec_find_close(p, i + 2, depth)
    } else if p[i] == 123 {
        spec_find_close(p, i + 1, depth + 1)
    } else if p[i] == 125 {
        if depth == 0 {
            Some(i)
        } else {
            spec_find_close(p, i + 1, depth - 1)
        }
    } else {
        spec_find_close(p, i + 1, depth)
    }
}

proof fn lemma_find_close_bounds(p: Seq<u8>, i: int, depth: int)
    ensures
        match spec_find_close(p, i, depth) {
            Some(c) => i <= c < p.len() && p[c] == 125,
            None => true,
        },
    decreases p.len() - i + 2,
{
    if 0 <= i && i < p.len() {
        if p[i] == 92 {
            lemma_find_close_bounds(p, i + 2, depth);
        } else if p[i] == 123 {
            lemma_find_close_bounds(p, i + 1, depth + 1);
        } else if p[i] == 125 {
            if depth != 0 {
                lemma_find_close_bounds(p, i + 1, depth - 1);
            }
        } else {
            lemma_find_close_bounds(p, i + 1, depth);
        }
    }
}

/// Index of the first comma of `p[i..j)` that lies outside every brace
/// group; escapes are honored.
pub open spec fn spec_find_comma(p: Seq<u8>, i: int, j: int) -> Option<int>
    decreases j - i + 2,
    via spec_find_comma_dec
{
    if i < 0 || i >= j || i >= p.len() {
        None
    } else if p[i] == 92 {
        spec_find_comma(p, i + 2, j)
    } else if p[i] == 123 {
        match spec_find_close(p, i + 1, 0) {
            Some(c) => if c < j {
                spec_find_comma(p, c + 1, j)
            } else {
                None
            },
            None => None,
        }
    } else if p[i] == 44 {
        Some(i)
    } else {
        spec_find_comma(p, i + 1, j)
    }
}

#[via_fn]
proof fn spec_find_comma_dec(p: Seq<u8>, i: int, j: int) {
    if 0 <= i && i < j && i < p.len() && p[i] == 123 {
        lemma_find_close_bounds(p, i + 1, 0);
    }
}

proof fn lemma_find_comma_bounds(p: Seq<u8>, i: int, j: int)
    ensures
        match spec_find_comma(p, i, j) {
            Some(c) => i <= c < j && c < p.len() && p[c] == 44,
            None => true,
        },
    decreases j - i + 2,
{
    if 0 <= i && i < j && i < p.len() {
        if p[i] == 92 {
            lemma_find_comma_bounds(p, i + 2, j);
        } else if p[i] == 123 {
            lemma_find_close_bounds(p, i + 1, 0);
            match spec_find_close(p, i + 1, 0) {
                Some(c) => {
                    if c < j {
                        lemma_find_comma_bounds(p, c + 1, j);
                    }
                },
                None => {},
            }
        } else if p[i] == 44 {
        } else {
            lemma_find_comma_bounds(p, i + 1, j);
        }
    }
}

/// Index of the first `..` in `p[i..j)`, if any.
pub open spec fn spec_find_dotdot(p: Seq<u8>, i: int, j: int) -> Option<int>
    decreases j - i,
{
    if i < 0 || i + 1 >= j || i + 1 >= p.len() {
        None
    } else if p[i] == 46 && p[i + 1] == 46 {
        Some(i)
    } else {
        spec_find_dotdot(p, i + 1, j)
    }
}

proof fn lemma_find_dotdot_bounds(p: Seq<u8>, i: int, j: int)
    ensures
        match spec_find_dotdot(p, i, j) {
            Some(d) => i <= d && d + 1 < j && d + 1 < p.len() && p[d] == 46 && p[d + 1] == 46,
            None => true,
        },
    decreases j - i,
{
    if 0 <= i && i + 1 < j && i + 1 < p.len() {
        if !(p[i] == 46 && p[i + 1] == 46) {
            lemma_find_dotdot_bounds(p, i + 1, j);
        }
    }
}

/// Reads `p[i..j)` as `lo..hi` with both ends integer literals.
pub open spec fn spec_num_range(p: Seq<u8>, i: int, j: int) -> Option<(int, int)> {
    match spec_find_dotdot(p, i, j) {
        Some(d) => {
            let lo = p.subrange(i, d);
            let hi = p.subrange(d + 2, j);
            if is_int_literal(lo) && is_int_literal(hi) {
                Some((int_value(lo), int_value(hi)))
            } else {
                None
            }
        },
        None => None,
    }
}

/// A range bound this library can evaluate: it fits a 64-bit signed value,
/// the most negative one excluded.
pub open spec fn spec_bound_ok(v: int) -> bool {
    -9223372036854775807 <= v <= 9223372036854775807
}

/// The class items of `p[i..j)` starting at `i`, and the index just past the
/// closing `]`. `first` is true at the first content position, where `]` is
/// literal. `None` when the class never closes.
pub open spec fn spec_class_items(p: Seq<u8>, i: int, j: int, first: bool) -> Option<
    (Seq<ClassItem>, int),
>
    decreases j - i,
{
    if i < 0 || i >= j || i >= p.len() {
        None
    } else if p[i] == 93 && !first {
        Some((Seq::empty(), i + 1))
    } else if p[i] == 92 {
        if i + 1 < j && i + 1 < p.len() {
            match spec_class_items(p, i + 2, j, false) {
                Some((items, nx)) => Some((seq![ClassItem::Ch(p[i + 1])] + items, nx)),
                None => None,
            }
        } else {
            None
        }
    } else if i + 2 < j && i + 2 < p.len() && p[i + 1] == 45 && p[i + 2] != 93 {
        match spec_class_items(p, i + 3, j, false) {
            Some((items, nx)) => Some((seq![ClassItem::Range(p[i], p[i + 2])] + items, nx)),
            None => None,
        }
    } else {
        match spec_class_items(p, i + 1, j, false) {
            Some((items, nx)) => Some((seq![ClassItem::Ch(p[i])] + items, nx)),
            None => None,
        }
    }
}

proof fn lemma_class_items_bounds(p: Seq<u8>, i: int, j: int, first: bool)
    ensures
        match spec_class_items(p, i, j, first) {
            Some((items, nx)) => i < nx <= j && nx <= p.len(),
            None => true,
        },
    decreases j - i,
{
    if 0 <= i && i < j && i < p.len() {
        if p[i] == 93 && !first {
        } else if p[i] == 92 {
            if i + 1 < j && i + 1 < p.len() {
                lemma_class_items_bounds(p, i + 2, j, false);
            }
        } else if i + 2 < j && i + 2 < p.len() && p[i + 1] == 45 && p[i + 2] != 93 {
            lemma_class_items_bounds(p, i + 3, j, false);
        } else {
            lemma_class_items_bounds(p, i + 1, j, false);
        }
    }
}

/// The whole class starting at the `[` at `i`: negation flag, items, and the
/// index just past the closing `]`.
pub open spec fn spec_class(p: Seq<u8>, i: int, j: int) -> Option<(bool, Seq<ClassItem>, int)> {
    let negated = i + 1 < j && i + 1 < p.len() && (p[i + 1] == 33 || p[i + 1] == 94);
    let start = if negated {
        i + 2
    } else {
        i + 1
    };
    match spec_class_items(p, start, j, true) {
        Some((items, nx)) => Some((negated, items, nx)),
        None => None,
    }
}

/// Each alternative of `alts` with `a` put in front.
pub open spec fn prepend_all(a: AtomV, alts: Seq<Seq<AtomV>>) -> Seq<Seq<AtomV>> {
    alts.map_values(|x: Seq<AtomV>| seq![a] + x)
}

/// One row of the alternation product: `x` followed by each of `ys`.
pub open spec fn row_concat(x: Seq<AtomV>, ys: Seq<Seq<AtomV>>) -> Seq<Seq<AtomV>> {
    ys.map_values(|y: Seq<AtomV>| x + y)
}

/// Every `x` of `xs` followed by every `y` of `ys`.
pub open spec fn cross_concat(xs: Seq<Seq<AtomV>>, ys: Seq<Seq<AtomV>>) -> Seq<Seq<AtomV>>
    decreases xs.len(),
{
    if xs.len() == 0 {
        Seq::empty()
    } else {
        cross_concat(xs.drop_last(), ys) + row_concat(xs.last(), ys)
    }
}

/// Lifts prepending over an optional alternative list.
pub open spec fn prepend_opt(a: AtomV, alts: Option<Seq<Seq<AtomV>>>) -> Option<
    Seq<Seq<AtomV>>,
> {
    match alts {
        None => None,
        Some(s) => Some(prepend_all(a, s)),
    }
}

/// Compiles `p[i..j)` into its alternatives: each alternative is one atom
/// sequence, and the pattern matches what any alternative matches. `None`
/// when the syntax is malformed, which makes the pattern match nothing.
pub open spec fn spec_compile_range(p: Seq<u8>, i: int, j: int) -> Option<Seq<Seq<AtomV>>>
    decreases j - i, 0int,
    via spec_compile_range_dec
{
    if i < 0 || j > p.len() {
        None
    } else if i >= j {
        Some(seq![Seq::<AtomV>::empty()])
    } else if p[i] == 92 {
        if i + 1 < j {
            prepend_opt(AtomV::Lit(p[i + 1]), spec_compile_range(p, i + 2, j))
        } else {
            None
        }
    } else if p[i] == 42 {
        if i + 1 < j && p[i + 1] == 42 {
            prepend_opt(AtomV::AnyDeep, spec_compile_range(p, i + 2, j))
        } else {
            prepend_opt(AtomV::AnySeq, spec_compile_range(p, i + 1, j))
        }
    } else if p[i] == 63 {
        prepend_opt(AtomV::AnyChar, spec_compile_range(p, i + 1, j))
    } else if p[i] == 91 {
        match spec_class(p, i, j) {
            Some((negated, items, nx)) => prepend_opt(
                AtomV::Class { negated, items },
                spec_compile_range(p, nx, j),
            ),
            None => None,
        }
    } else if p[i] == 123 {
        match spec_find_close(p, i + 1, 0) {
            Some(c) => if c < j {
                if spec_find_comma(p, i + 1, c) is Some {
                    match (spec_compile_alts(p, i + 1, c), spec_compile_range(p, c + 1, j)) {
                        (Some(a), Some(b)) => Some(cross_concat(a, b)),
                        _ => None,
                    }
                } else {
                    match spec_num_range(p, i + 1, c) {
                        Some((lo, hi)) => if spec_bound_ok(lo) && spec_bound_ok(hi) {
                            prepend_opt(AtomV::NumRange(lo, hi), spec_compile_range(p, c + 1, j))
                        } else {
                            None
                        },
                        None => prepend_opt(AtomV::Lit(123), spec_compile_range(p, i + 1, j)),
                    }
                }
            } else {
                prepend_opt(AtomV::Lit(123), spec_compile_range(p, i + 1, j))
            },
            None => prepend_opt(AtomV::Lit(123), spec_compile_range(p, i + 1, j)),
        }
    } else {
        prepend_opt(AtomV::Lit(p[i]), spec_compile_range(p, i + 1, j))
    }
}

/// Compiles the comma-separated segments of `p[i..j)` and pools their
/// alternatives.
pub open spec fn spec_compile_alts(p: Seq<u8>, i: int, j: int) -> Option<Seq<Seq<AtomV>>>
    decreases j - i, 1int,
    via spec_compile_alts_dec
{
    match spec_find_comma(p, i, j) {
        None => spec_compile_range(p, i, j),
        Some(c) => match (spec_compile_range(p, i, c), spec_compile_alts(p, c + 1, j)) {
            (Some(a), Some(b)) => Some(a + b),
            _ => None,
        },
    }
}

#[via_fn]
proof fn spec_compile_range_dec(p: Seq<u8>, i: int, j: int) {
    if 0 <= i && i < j && j <= p.len() {
        if p[i] == 91 {
            let negated = i + 1 < j && i + 1 < p.len() && (p[i + 1] == 33 || p[i + 1] == 94);
            let start = if negated {
                i + 2
            } else {
                i + 1
            };
            lemma_class_items_bounds(p, start, j, true);
        } else if p[i] == 123 {
            lemma_find_close_bounds(p, i + 1, 0);
        }
    }
}

#[via_fn]
proof fn spec_compile_alts_dec(p: Seq<u8>, i: int, j: int) {
    lemma_find_comma_bounds(p, i, j);
}

/// The compiled form of a whole pattern.
pub open spec fn spec_compile(p: Seq<u8>) -> Option<Seq<Seq<AtomV>>> {
    spec_compile_range(p, 0, p.len() as int)
}

/// The final segment of a relative path.
pub open spec fn spec_basename(s: Seq<u8>) -> Seq<u8> {
    match spec_last_slash(s) {
        Some(l) => s.skip(l + 1),
        None => s,
    }
}

/// The pattern text that is compiled: one leading `/` is stripped from a
/// pattern that contains `/`.
pub open spec fn spec_effective_pattern(p: Seq<u8>) -> Seq<u8> {
    if spec_has_slash(p) && p[0] == 47 {
        p.skip(1)
    } else {
        p
    }
}

/// What the pattern is held against: the whole relative path for a pattern
/// with `/`, the final segment otherwise.
pub open spec fn spec_effective_target(p: Seq<u8>, rel: Seq<u8>) -> Seq<u8> {
    if spec_has_slash(p) {
        rel
    } else {
        spec_basename(rel)
    }
}

/// Whether any alternative matches the target.
pub open spec fn spec_any_alt(alts: Seq<Seq<AtomV>>, target: Seq<u8>) -> bool {
    exists|i: int| 0 <= i < alts.len() && #[trigger] atoms_match(alts[i], target)
}

/// Whether any alternative of a compiled pattern matches the target; a
/// pattern that failed to compile matches nothing.
pub open spec fn spec_alts_match(alts_opt: Option<Seq<Seq<AtomV>>>, target: Seq<u8>) -> bool {
    match alts_opt {
        None => false,
        Some(alts) => spec_any_alt(alts, target),
    }
}

proof fn lemma_any_alt_intro(alts: Seq<Seq<AtomV>>, target: Seq<u8>, i: int)
    requires
        0 <= i < alts.len(),
        atoms_match(alts[i], target),
    ensures
        spec_any_alt(alts, target),
{
}

/// Whether a pattern matches a target path given relative to the pattern's
/// defining directory. The empty pattern (the preamble's) matches
/// everything. A pattern without `/` is matched against the final path
/// segment only; one with `/` is matched against the whole relative path,
/// one leading `/` stripped.
pub open spec fn spec_glob_match(p: Seq<u8>, rel: Seq<u8>) -> bool {
    p.len() == 0 || spec_alts_match(
        spec_compile(spec_effective_pattern(p)),
        spec_effective_target(p, rel),
    )
}

} // verus!

verus! {

/// Ten to the `n`-th, one for non-positive `n`.
pub open spec fn pow10(n: int) -> int
    decreases n,
{
    if n <= 0 {
        1
    } else {
        10 * pow10(n - 1)
    }
}

proof fn lemma_pow10_table()
    ensures
        pow10(17) == 100000000000000000,
        pow10(18) == 1000000000000000000,
        pow10(19) == 10000000000000000000,
{
    assert(pow10(0) == 1);
    assert(pow10(1) == 10);
    assert(pow10(2) == 100);
    assert(pow10(3) == 1000);
    assert(pow10(4) == 10000);
    assert(pow10(5) == 100000);
    assert(pow10(6) == 1000000);
    assert(pow10(7) == 10000000);
    assert(pow10(8) == 100000000);
    assert(pow10(9) == 1000000000);
    assert(pow10(10) == 10000000000);
    assert(pow10(11) == 100000000000);
    assert(pow10(12) == 1000000000000);
    assert(pow10(13) == 10000000000000);
    assert(pow10(14) == 100000000000000);
    assert(pow10(15) == 1000000000000000);
    assert(pow10(16) == 10000000000000000);
    assert(pow10(17) == 100000000000000000);
    assert(pow10(18) == 1000000000000000000);
    assert(pow10(19) == 10000000000000000000);
}

proof fn lemma_pow10_pos(n: int)
    ensures
        pow10(n) >= 1,
    decreases n,
{
    if n > 0 {
        lemma_pow10_pos(n - 1);
    }
}

proof fn lemma_pow10_mono(a: int, b: int)
    requires
        a <= b,
    ensures
        pow10(a) <= pow10(b),
    decreases b - a,
{
    if a < b {
        lemma_pow10_mono(a, b - 1);
        lemma_pow10_pos(b - 1);
    }
}

proof fn lemma_digits_bound(s: Seq<u8>)
    requires
        all_digits(s),
    ensures
        0 <= digits_value(s) < pow10(s.len() as int),
    decreases s.len(),
{
    if s.len() > 0 {
        assert(forall|i: int| 0 <= i < s.len() - 1 ==> s.drop_last()[i] == s[i]);
        lemma_digits_bound(s.drop_last());
        assert(48 <= s.last() <= 57);
        assert(pow10(s.len() as int) == 10 * pow10(s.len() as int - 1));
    }
}

proof fn lemma_digits_lower(s: Seq<u8>)
    requires
        all_digits(s),
        s.len() >= 1,
        s[0] != 48,
    ensures
        digits_value(s) >= pow10(s.len() as int - 1),
    decreases s.len(),
{
    if s.len() == 1 {
        assert(48 <= s[0] <= 57);
        assert(digits_value(s) == digits_value(s.drop_last()) * 10 + (s.last() - 48));
        assert(digits_value(s.drop_last()) == 0);
    } else {
        assert(forall|i: int| 0 <= i < s.len() - 1 ==> s.drop_last()[i] == s[i]);
        lemma_digits_lower(s.drop_last());
        assert(48 <= s.last() <= 57);
        assert(pow10(s.len() as int - 1) == 10 * pow10(s.len() as int - 2));
    }
}

proof fn lemma_leading_zero(s: Seq<u8>)
    requires
        s.len() >= 1,
        s[0] == 48,
    ensures
        digits_value(s) == digits_value(s.skip(1)),
    decreases s.len(),
{
    if s.len() == 1 {
        assert(s.skip(1) =~= Seq::<u8>::empty());
        assert(digits_value(s) == digits_value(s.drop_last()) * 10 + (s.last() - 48));
    } else {
        assert(s.drop_last()[0] == s[0]);
        lemma_leading_zero(s.drop_last());
        assert(s.drop_last().skip(1) =~= s.skip(1).drop_last());
        assert(s.skip(1).last() == s.last());
        assert(digits_value(s.skip(1)) == digits_value(s.skip(1).drop_last()) * 10 + (s.skip(
            1,
        ).last() - 48));
    }
}

proof fn lemma_strip_zeros(s: Seq<u8>, z: int)
    requires
        0 <= z <= s.len(),
        forall|j: int| 0 <= j < z ==> s[j] == 48,
    ensures
        digits_value(s) == digits_value(s.skip(z)),
    decreases z,
{
    if z == 0 {
        assert(s.skip(0) =~= s);
    } else {
        lemma_leading_zero(s);
        assert(forall|j: int| 0 <= j < z - 1 ==> s.skip(1)[j] == s[j + 1]);
        lemma_strip_zeros(s.skip(1), z - 1);
        assert(s.skip(1).skip(z - 1) =~= s.skip(z));
    }
}

/// Reads `s[i..k)` as a sign and a decimal magnitude. `None` when it is not
/// an integer literal or its magnitude has at least twenty significant
/// digits.
fn scan_int(s: &[u8], i: usize, k: usize) -> (r: Option<(bool, u64)>)
    requires
        i <= k && k <= s.len(),
    ensures
        ({
            let t = s@.subrange(i as int, k as int);
            match r {
                Some(p) => is_int_literal(t) && int_value(t) == (if p.0 {
                    -(p.1 as int)
                } else {
                    p.1 as int
                }),
                None => !is_int_literal(t) || int_value(t) >= pow10(19) || int_value(t) <= -pow10(
                    19,
                ),
            }
        }),
{
    let ghost t: Seq<u8> = s@.subrange(i as int, k as int);
    proof {
        lemma_pow10_table();
    }
    if i == k {
        return None;
    }
    let neg = s[i] == 45;
    let start = if neg {
        i + 1
    } else {
        i
    };
    if start == k {
        return None;
    }
    let ghost d: Seq<u8> = s@.subrange(start as int, k as int);
    proof {
        if neg {
            assert(t.skip(1) =~= d);
            assert(t[0] == 45 && t.len() >= 2);
        } else {
            assert(t =~= d);
            assert(t.len() >= 1 && t[0] != 45);
        }
        assert(is_int_literal(t) <==> all_digits(d));
    }
    let mut m: usize = start;
    while m < k
        invariant
            start <= m <= k <= s.len(),
            d == s@.subrange(start as int, k as int),
            t == s@.subrange(i as int, k as int),
            is_int_literal(t) <==> all_digits(d),
            forall|j: int| start <= j < m ==> 48 <= #[trigger] s@[j] <= 57,
        decreases k - m,
    {
        if s[m] < 48 || s[m] > 57 {
            proof {
                let idx = m as int - start as int;
                assert(0 <= idx < d.len());
                assert(d[idx] == s@[start as int + idx]);
                assert(!(48 <= d[idx] <= 57));
                assert(!all_digits(d));
            }
            return None;
        }
        m += 1;
    }
    proof {
        assert forall|j: int| 0 <= j < d.len() implies 48 <= #[trigger] d[j] <= 57 by {
            assert(d[j] == s@[start + j]);
        }
        assert(all_digits(d));
        assert(is_int_literal(t));
    }
    let mut z: usize = start;
    while z < k && s[z] == 48
        invariant
            start <= z <= k <= s.len(),
            forall|j: int| start <= j < z ==> s@[j] == 48,
        decreases k - z,
    {
        z += 1;
    }
    let ghost e: Seq<u8> = s@.subrange(z as int, k as int);
    proof {
        assert(forall|j: int| 0 <= j < z - start ==> d[j] == s@[start + j]);
        lemma_strip_zeros(d, z as int - start as int);
        assert(d.skip(z as int - start as int) =~= e);
        assert(digits_value(d) == digits_value(e));
        assert forall|j: int| 0 <= j < e.len() implies 48 <= #[trigger] e[j] <= 57 by {
            assert(e[j] == d[(z as int - start as int) + j]);
        }
    }
    if k - z > 19 {
        proof {
            assert(e[0] == s@[z as int]);
            assert(e[0] != 48);
            lemma_digits_lower(e);
            lemma_pow10_mono(19, e.len() as int - 1);
            assert(digits_value(d) >= pow10(19));
        }
        return None;
    }
    let mut acc: u64 = 0;
    let mut m2: usize = z;
    proof {
        assert(s@.subrange(z as int, z as int) =~= Seq::<u8>::empty());
    }
    while m2 < k
        invariant
            z <= m2 <= k <= s.len(),
            k - z <= 19,
            forall|j: int| 0 <= j < e.len() ==> 48 <= #[trigger] e[j] <= 57,
            e == s@.subrange(z as int, k as int),
            acc as int == digits_value(s@.subrange(z as int, m2 as int)),
            (acc as int) < pow10(m2 as int - z as int),
        decreases k - m2,
    {
        let ghost pre: Seq<u8> = s@.subrange(z as int, m2 as int);
        proof {
            lemma_pow10_table();
            lemma_pow10_mono(m2 as int - z as int, 18);
            assert((acc as int) < pow10(18));
            assert(e[m2 - z] == s@[m2 as int]);
            assert(48 <= s@[m2 as int] <= 57);
        }
        let dg = s[m2] - 48;
        acc = acc * 10 + (dg as u64);
        proof {
            let cur = s@.subrange(z as int, m2 as int + 1);
            assert(cur.drop_last() =~= pre);
            assert(cur.last() == s@[m2 as int]);
            assert(pow10(m2 as int + 1 - z as int) == 10 * pow10(m2 as int - z as int));
        }
        m2 += 1;
    }
    proof {
        assert(acc as int == digits_value(e));
        assert(digits_value(d) == acc as int);
        if neg {
            assert(int_value(t) == -(acc as int));
        } else {
            assert(int_value(t) == acc as int);
        }
    }
    Some((neg, acc))
}

/// Reads `s[i..k)` as a signed 64-bit value; `None` when it is not an
/// integer literal or is out of the evaluable range.
fn parse_int64(s: &[u8], i: usize, k: usize) -> (r: Option<i64>)
    requires
        i <= k && k <= s.len(),
    ensures
        ({
            let t = s@.subrange(i as int, k as int);
            match r {
                Some(v) => is_int_literal(t) && int_value(t) == v as int && spec_bound_ok(v as int),
                None => !is_int_literal(t) || !spec_bound_ok(int_value(t)),
            }
        }),
{
    proof {
        lemma_pow10_table();
    }
    match scan_int(s, i, k) {
        None => None,
        Some((neg, mag)) => {
            if mag <= 9223372036854775807 {
                if neg {
                    Some(-(mag as i64))
                } else {
                    Some(mag as i64)
                }
            } else {
                None
            }
        },
    }
}

fn val_le(neg: bool, mag: u64, b: i64) -> (r: bool)
    ensures
        r == ({
            let v: int = if neg {
                -(mag as int)
            } else {
                mag as int
            };
            v <= b as int
        }),
{
    if !neg {
        if b < 0 {
            false
        } else {
            mag <= b as u64
        }
    } else {
        if b >= 0 {
            true
        } else {
            let nb: u64 = ((-(b + 1)) as u64) + 1;
            mag >= nb
        }
    }
}

fn val_ge(neg: bool, mag: u64, b: i64) -> (r: bool)
    ensures
        r == ({
            let v: int = if neg {
                -(mag as int)
            } else {
                mag as int
            };
            v >= b as int
        }),
{
    if neg {
        if b > 0 {
            false
        } else if b == 0 {
            mag == 0
        } else {
            let nb: u64 = ((-(b + 1)) as u64) + 1;
            mag <= nb
        }
    } else {
        if b <= 0 {
            true
        } else {
            mag >= b as u64
        }
    }
}

/// Decides whether `s[i..k)` is an integer literal whose value lies in
/// `[lo, hi]`.
fn int_in_range(s: &[u8], i: usize, k: usize, lo: i64, hi: i64) -> (r: bool)
    requires
        i <= k && k <= s.len(),
    ensures
        r == ({
            let t = s@.subrange(i as int, k as int);
            is_int_literal(t) && lo as int <= int_value(t) <= hi as int
        }),
{
    proof {
        lemma_pow10_table();
    }
    match scan_int(s, i, k) {
        None => false,
        Some((neg, mag)) => val_ge(neg, mag, lo) && val_le(neg, mag, hi),
    }
}

} // verus!

verus! {

fn is_int_lit(p: &[u8], i: usize, k: usize) -> (r: bool)
    requires
        i <= k && k <= p.len(),
    ensures
        r == is_int_literal(p@.subrange(i as int, k as int)),
{
    let ghost t: Seq<u8> = p@.subrange(i as int, k as int);
    if i == k {
        return false;
    }
    let neg = p[i] == 45;
    let start = if neg {
        i + 1
    } else {
        i
    };
    if start == k {
        proof {
            assert(t[0] == 45 && t.len() == 1);
        }
        return false;
    }
    let ghost d: Seq<u8> = p@.subrange(start as int, k as int);
    proof {
        if neg {
            assert(t.skip(1) =~= d);
            assert(t[0] == 45 && t.len() >= 2);
        } else {
            assert(t =~= d);
            assert(t.len() >= 1 && t[0] != 45);
        }
        assert(is_int_literal(t) <==> all_digits(d));
    }
    let mut m: usize = start;
    while m < k
        invariant
            start <= m <= k <= p.len(),
            d == p@.subrange(start as int, k as int),
            t == p@.subrange(i as int, k as int),
            is_int_literal(t) <==> all_digits(d),
            forall|j: int| start <= j < m ==> 48 <= #[trigger] p@[j] <= 57,
        decreases k - m,
    {
        if p[m] < 48 || p[m] > 57 {
            proof {
                let idx = m as int - start as int;
                assert(d[idx] == p@[start as int + idx]);
                assert(!(48 <= d[idx] <= 57));
                assert(!all_digits(d));
            }
            return false;
        }
        m += 1;
    }
    proof {
        assert forall|j: int| 0 <= j < d.len() implies 48 <= #[trigger] d[j] <= 57 by {
            assert(d[j] == p@[start + j]);
        }
        assert(all_digits(d));
    }
    true
}

fn find_close(p: &[u8], i: usize, depth: usize) -> (r: Option<usize>)
    requires
        depth <= i,
    ensures
        match r {
            Some(c) => spec_find_close(p@, i as int, depth as int) == Some(c as int) && i <= c
                < p.len(),
            None => spec_find_close(p@, i as int, depth as int) is None,
        },
    decreases p@.len() - i + 2,
{
    proof {
        lemma_find_close_bounds(p@, i as int, depth as int);
    }
    if i >= p.len() {
        return None;
    }
    let c = p[i];
    if c == 92 {
        if p.len() - i >= 2 {
            find_close(p, i + 2, depth)
        } else {
            proof {
                assert(spec_find_close(p@, i as int + 2, depth as int) is None);
            }
            None
        }
    } else if c == 123 {
        find_close(p, i + 1, depth + 1)
    } else if c == 125 {
        if depth == 0 {
            Some(i)
        } else {
            find_close(p, i + 1, depth - 1)
        }
    } else {
        find_close(p, i + 1, depth)
    }
}

fn find_comma(p: &[u8], i: usize, j: usize) -> (r: Option<usize>)
    requires
        j <= p.len(),
    ensures
        match r {
            Some(c) => spec_find_comma(p@, i as int, j as int) == Some(c as int) && i <= c < j,
            None => spec_find_comma(p@, i as int, j as int) is None,
        },
    decreases j - i + 2,
{
    proof {
        lemma_find_comma_bounds(p@, i as int, j as int);
    }
    if i >= j {
        return None;
    }
    let c = p[i];
    if c == 92 {
        if j - i >= 2 {
            find_comma(p, i + 2, j)
        } else {
            proof {
                assert(spec_find_comma(p@, i as int + 2, j as int) is None);
            }
            None
        }
    } else if c == 123 {
        match find_close(p, i + 1, 0) {
            Some(cl) => {
                if cl < j {
                    proof {
                        lemma_find_close_bounds(p@, i as int + 1, 0);
                    }
                    find_comma(p, cl + 1, j)
                } else {
                    None
                }
            },
            None => None,
        }
    } else if c == 44 {
        Some(i)
    } else {
        find_comma(p, i + 1, j)
    }
}

fn find_dotdot(p: &[u8], i: usize, j: usize) -> (r: Option<usize>)
    requires
        j <= p.len(),
    ensures
        match r {
            Some(d) => spec_find_dotdot(p@, i as int, j as int) == Some(d as int) && i <= d && d
                + 1 < j,
            None => spec_find_dotdot(p@, i as int, j as int) is None,
        },
    decreases j - i + 2,
{
    proof {
        lemma_find_dotdot_bounds(p@, i as int, j as int);
    }
    if i >= j {
        return None;
    }
    if j - i < 2 {
        return None;
    }
    if p[i] == 46 && p[i + 1] == 46 {
        Some(i)
    } else {
        find_dotdot(p, i + 1, j)
    }
}

fn class_items_exec(p: &[u8], i: usize, j: usize, first: bool) -> (r: Option<(Vec<ClassItem>, usize)>)
    requires
        j <= p.len(),
    ensures
        match r {
            Some(pair) => spec_class_items(p@, i as int, j as int, first) == Some(
                (pair.0@, pair.1 as int),
            ) && i < pair.1 <= j,
            None => spec_class_items(p@, i as int, j as int, first) is None,
        },
    decreases j - i + 2,
{
    proof {
        lemma_class_items_bounds(p@, i as int, j as int, first);
    }
    if i >= j {
        return None;
    }
    let c = p[i];
    if c == 93 && !first {
        let items: Vec<ClassItem> = Vec::new();
        proof {
            assert(items@ =~= Seq::<ClassItem>::empty());
        }
        return Some((items, i + 1));
    }
    if c == 92 {
        if i + 1 < j {
            match class_items_exec(p, i + 2, j, false) {
                Some((mut items, nx)) => {
                    let ghost pre: Seq<ClassItem> = items@;
                    items.insert(0, ClassItem::Ch(p[i + 1]));
                    proof {
                        assert(items@ =~= seq![ClassItem::Ch(p@[i as int + 1])] + pre);
                    }
                    Some((items, nx))
                },
                None => None,
            }
        } else {
            None
        }
    } else if j - i > 2 && p[i + 1] == 45 && p[i + 2] != 93 {
        match class_items_exec(p, i + 3, j, false) {
            Some((mut items, nx)) => {
                let ghost pre: Seq<ClassItem> = items@;
                items.insert(0, ClassItem::Range(p[i], p[i + 2]));
                proof {
                    assert(items@ =~= seq![ClassItem::Range(p@[i as int], p@[i as int + 2])] + pre);
                }
                Some((items, nx))
            },
            None => None,
        }
    } else {
        match class_items_exec(p, i + 1, j, false) {
            Some((mut items, nx)) => {
                let ghost pre: Seq<ClassItem> = items@;
                items.insert(0, ClassItem::Ch(p[i]));
                proof {
                    assert(items@ =~= seq![ClassItem::Ch(p@[i as int])] + pre);
                }
                Some((items, nx))
            },
            None => None,
        }
    }
}

fn clone_atom(a: &GlobAtom) -> (r: GlobAtom)
    ensures
        r@ == a@,
{
    match a {
        GlobAtom::Lit(c) => GlobAtom::Lit(*c),
        GlobAtom::AnyChar => GlobAtom::AnyChar,
        GlobAtom::AnySeq => GlobAtom::AnySeq,
        GlobAtom::AnyDeep => GlobAtom::AnyDeep,
        GlobAtom::Class { negated, items } => {
            let mut its: Vec<ClassItem> = Vec::new();
            let mut x: usize = 0;
            while x < items.len()
                invariant
                    0 <= x <= items@.len(),
                    its@ == items@.take(x as int),
                decreases items@.len() - x,
            {
                its.push(items[x]);
                proof {
                    assert(items@.take(x as int).push(items@[x as int]) =~= items@.take(
                        x as int + 1,
                    ));
                }
                x += 1;
            }
            proof {
                assert(items@.take(items@.len() as int) =~= items@);
            }
            GlobAtom::Class { negated: *negated, items: its }
        },
        GlobAtom::NumRange(lo, hi) => GlobAtom::NumRange(*lo, *hi),
    }
}

fn concat_atoms(a: &Vec<GlobAtom>, b: &Vec<GlobAtom>) -> (r: Vec<GlobAtom>)
    ensures
        atoms_vw(r@) == atoms_vw(a@) + atoms_vw(b@),
{
    let mut r: Vec<GlobAtom> = Vec::new();
    let mut x: usize = 0;
    proof {
        assert(atoms_vw(r@) =~= atoms_vw(a@).take(0));
    }
    while x < a.len()
        invariant
            0 <= x <= a@.len(),
            atoms_vw(r@) == atoms_vw(a@).take(x as int),
        decreases a@.len() - x,
    {
        let ghost pre: Seq<GlobAtom> = r@;
        let na = clone_atom(&a[x]);
        r.push(na);
        proof {
            assert(atoms_vw(r@) =~= atoms_vw(pre).push(a@[x as int]@));
            assert(atoms_vw(a@)[x as int] == a@[x as int]@);
            assert(atoms_vw(a@).take(x as int).push(atoms_vw(a@)[x as int]) =~= atoms_vw(
                a@,
            ).take(x as int + 1));
        }
        x += 1;
    }
    proof {
        assert(atoms_vw(a@).take(a@.len() as int) =~= atoms_vw(a@));
    }
    let mut y: usize = 0;
    while y < b.len()
        invariant
            0 <= y <= b@.len(),
            atoms_vw(r@) == atoms_vw(a@) + atoms_vw(b@).take(y as int),
        decreases b@.len() - y,
    {
        let ghost pre: Seq<GlobAtom> = r@;
        let nb = clone_atom(&b[y]);
        r.push(nb);
        proof {
            assert(atoms_vw(r@) =~= atoms_vw(pre).push(b@[y as int]@));
            assert(atoms_vw(b@)[y as int] == b@[y as int]@);
            assert(atoms_vw(a@) + atoms_vw(b@).take(y as int + 1) =~= (atoms_vw(a@) + atoms_vw(
                b@,
            ).take(y as int)).push(atoms_vw(b@)[y as int]));
        }
        y += 1;
    }
    proof {
        assert(atoms_vw(b@).take(b@.len() as int) =~= atoms_vw(b@));
    }
    r
}

fn prepend_exec(a: &GlobAtom, alts: &Vec<Vec<GlobAtom>>) -> (r: Vec<Vec<GlobAtom>>)
    ensures
        alts_vw(r@) == prepend_all(a@, alts_vw(alts@)),
{
    let mut out: Vec<Vec<GlobAtom>> = Vec::new();
    let mut x: usize = 0;
    proof {
        assert(alts_vw(out@) =~= prepend_all(a@, alts_vw(alts@)).take(0));
    }
    while x < alts.len()
        invariant
            0 <= x <= alts@.len(),
            alts_vw(out@) == prepend_all(a@, alts_vw(alts@)).take(x as int),
        decreases alts@.len() - x,
    {
        let ghost pre: Seq<Vec<GlobAtom>> = out@;
        let mut single: Vec<GlobAtom> = Vec::new();
        single.push(clone_atom(a));
        proof {
            assert(atoms_vw(single@) =~= seq![a@]);
        }
        let na = concat_atoms(&single, &alts[x]);
        out.push(na);
        proof {
            let full = prepend_all(a@, alts_vw(alts@));
            assert(alts_vw(out@) =~= alts_vw(pre).push(atoms_vw(na@)));
            assert(alts_vw(alts@)[x as int] == atoms_vw(alts@[x as int]@));
            assert(full[x as int] == seq![a@] + alts_vw(alts@)[x as int]);
            assert(full.take(x as int).push(full[x as int]) =~= full.take(x as int + 1));
        }
        x += 1;
    }
    proof {
        assert(prepend_all(a@, alts_vw(alts@)).take(alts@.len() as int) =~= prepend_all(
            a@,
            alts_vw(alts@),
        ));
    }
    out
}

fn cross_exec(xs: &Vec<Vec<GlobAtom>>, ys: &Vec<Vec<GlobAtom>>) -> (r: Vec<Vec<GlobAtom>>)
    ensures
        alts_vw(r@) == cross_concat(alts_vw(xs@), alts_vw(ys@)),
{
    let ghost xv: Seq<Seq<AtomV>> = alts_vw(xs@);
    let ghost yv: Seq<Seq<AtomV>> = alts_vw(ys@);
    let mut out: Vec<Vec<GlobAtom>> = Vec::new();
    let mut x: usize = 0;
    proof {
        assert(xv.take(0) =~= Seq::<Seq<AtomV>>::empty());
        assert(alts_vw(out@) =~= cross_concat(xv.take(0), yv));
    }
    while x < xs.len()
        invariant
            0 <= x <= xs@.len(),
            xv == alts_vw(xs@),
            yv == alts_vw(ys@),
            alts_vw(out@) == cross_concat(xv.take(x as int), yv),
        decreases xs@.len() - x,
    {
        let mut y: usize = 0;
        proof {
            assert(row_concat(xv[x as int], yv).take(0) =~= Seq::<Seq<AtomV>>::empty());
            assert(alts_vw(out@) =~= cross_concat(xv.take(x as int), yv) + row_concat(
                xv[x as int],
                yv,
            ).take(0));
        }
        while y < ys.len()
            invariant
                0 <= y <= ys@.len(),
                0 <= x < xs@.len(),
                xv == alts_vw(xs@),
                yv == alts_vw(ys@),
                alts_vw(out@) == cross_concat(xv.take(x as int), yv) + row_concat(
                    xv[x as int],
                    yv,
                ).take(y as int),
            decreases ys@.len() - y,
        {
            let ghost pre: Seq<Vec<GlobAtom>> = out@;
            let na = concat_atoms(&xs[x], &ys[y]);
            out.push(na);
            proof {
                let rowf = row_concat(xv[x as int], yv);
                assert(alts_vw(out@) =~= alts_vw(pre).push(atoms_vw(na@)));
                assert(xv[x as int] == atoms_vw(xs@[x as int]@));
                assert(yv[y as int] == atoms_vw(ys@[y as int]@));
                assert(rowf[y as int] == xv[x as int] + yv[y as int]);
                assert((cross_concat(xv.take(x as int), yv) + rowf.take(y as int)).push(
                    rowf[y as int],
                ) =~= cross_concat(xv.take(x as int), yv) + rowf.take(y as int + 1));
            }
            y += 1;
        }
        proof {
            let rowf = row_concat(xv[x as int], yv);
            assert(rowf.take(ys@.len() as int) =~= rowf);
            assert(xv.take(x as int + 1).drop_last() =~= xv.take(x as int));
            assert(xv.take(x as int + 1).last() == xv[x as int]);
            assert(cross_concat(xv.take(x as int + 1), yv) == cross_concat(xv.take(x as int), yv)
                + rowf);
        }
        x += 1;
    }
    proof {
        assert(xv.take(xs@.len() as int) =~= xv);
    }
    out
}

fn append_alts(a: Vec<Vec<GlobAtom>>, b: Vec<Vec<GlobAtom>>) -> (r: Vec<Vec<GlobAtom>>)
    ensures
        alts_vw(r@) == alts_vw(a@) + alts_vw(b@),
{
    let ghost av: Seq<Vec<GlobAtom>> = a@;
    let ghost bv: Seq<Vec<GlobAtom>> = b@;
    let mut a = a;
    let mut b = b;
    a.append(&mut b);
    proof {
        assert(alts_vw(av + bv) =~= alts_vw(av) + alts_vw(bv));
    }
    a
}

} // verus!

verus! {

fn compile_range(p: &[u8], i: usize, j: usize) -> (r: Option<Vec<Vec<GlobAtom>>>)
    requires
        i <= j && j <= p.len(),
    ensures
        match r {
            Some(v) => spec_compile_range(p@, i as int, j as int) == Some(alts_vw(v@)),
            None => spec_compile_range(p@, i as int, j as int) is None,
        },
    decreases j - i, 0int,
{
    if i >= j {
        let mut out: Vec<Vec<GlobAtom>> = Vec::new();
        out.push(Vec::new());
        proof {
            assert(alts_vw(out@) =~~= seq![Seq::<AtomV>::empty()]);
        }
        return Some(out);
    }
    let c = p[i];
    if c == 92 {
        if i + 1 < j {
            match compile_range(p, i + 2, j) {
                Some(rest) => Some(prepend_exec(&GlobAtom::Lit(p[i + 1]), &rest)),
                None => None,
            }
        } else {
            None
        }
    } else if c == 42 {
        if i + 1 < j && p[i + 1] == 42 {
            match compile_range(p, i + 2, j) {
                Some(rest) => Some(prepend_exec(&GlobAtom::AnyDeep, &rest)),
                None => None,
            }
        } else {
            match compile_range(p, i + 1, j) {
                Some(rest) => Some(prepend_exec(&GlobAtom::AnySeq, &rest)),
                None => None,
            }
        }
    } else if c == 63 {
        match compile_range(p, i + 1, j) {
            Some(rest) => Some(prepend_exec(&GlobAtom::AnyChar, &rest)),
            None => None,
        }
    } else if c == 91 {
        let negated = i + 1 < j && (p[i + 1] == 33 || p[i + 1] == 94);
        let start = if negated {
            i + 2
        } else {
            i + 1
        };
        match class_items_exec(p, start, j, true) {
            Some((items, nx)) => {
                match compile_range(p, nx, j) {
                    Some(rest) => Some(
                        prepend_exec(&GlobAtom::Class { negated, items }, &rest),
                    ),
                    None => None,
                }
            },
            None => None,
        }
    } else if c == 123 {
        match find_close(p, i + 1, 0) {
            Some(cl) => {
                if cl < j {
                    match find_comma(p, i + 1, cl) {
                        Some(_) => {
                            match compile_alts(p, i + 1, cl) {
                                Some(a) => {
                                    match compile_range(p, cl + 1, j) {
                                        Some(b) => Some(cross_exec(&a, &b)),
                                        None => None,
                                    }
                                },
                                None => None,
                            }
                        },
                        None => {
                            match find_dotdot(p, i + 1, cl) {
                                Some(d) => {
                                    let lit_lo = is_int_lit(p, i + 1, d);
                                    let lit_hi = is_int_lit(p, d + 2, cl);
                                    if lit_lo && lit_hi {
                                        let vlo = parse_int64(p, i + 1, d);
                                        let vhi = parse_int64(p, d + 2, cl);
                                        match (vlo, vhi) {
                                            (Some(lo), Some(hi)) => {
                                                match compile_range(p, cl + 1, j) {
                                                    Some(rest) => Some(
                                                        prepend_exec(
                                                            &GlobAtom::NumRange(lo, hi),
                                                            &rest,
                                                        ),
                                                    ),
                                                    None => None,
                                                }
                                            },
                                            _ => None,
                                        }
                                    } else {
                                        match compile_range(p, i + 1, j) {
                                            Some(rest) => Some(
                                                prepend_exec(&GlobAtom::Lit(123), &rest),
                                            ),
                                            None => None,
                                        }
                                    }
                                },
                                None => {
                                    match compile_range(p, i + 1, j) {
                                        Some(rest) => Some(
                                            prepend_exec(&GlobAtom::Lit(123), &rest),
                                        ),
                                        None => None,
                                    }
                                },
                            }
                        },
                    }
                } else {
                    match compile_range(p, i + 1, j) {
                        Some(rest) => Some(prepend_exec(&GlobAtom::Lit(123), &rest)),
                        None => None,
                    }
                }
            },
            None => {
                match compile_range(p, i + 1, j) {
                    Some(rest) => Some(prepend_exec(&GlobAtom::Lit(123), &rest)),
                    None => None,
                }
            },
        }
    } else {
        match compile_range(p, i + 1, j) {
            Some(rest) => Some(prepend_exec(&GlobAtom::Lit(p[i]), &rest)),
            None => None,
        }
    }
}

fn compile_alts(p: &[u8], i: usize, j: usize) -> (r: Option<Vec<Vec<GlobAtom>>>)
    requires
        i <= j && j <= p.len(),
    ensures
        match r {
            Some(v) => spec_compile_alts(p@, i as int, j as int) == Some(alts_vw(v@)),
            None => spec_compile_alts(p@, i as int, j as int) is None,
        },
    decreases j - i, 1int,
{
    match find_comma(p, i, j) {
        None => compile_range(p, i, j),
        Some(c) => {
            match compile_range(p, i, c) {
                Some(a) => {
                    match compile_alts(p, c + 1, j) {
                        Some(b) => Some(append_alts(a, b)),
                        None => None,
                    }
                },
                None => None,
            }
        },
    }
}

} // verus!

verus! {

fn class_match_exec(items: &Vec<ClassItem>, c: u8) -> (r: bool)
    ensures
        r == class_matches(items@, c),
{
    let mut x: usize = 0;
    while x < items.len()
        invariant
            0 <= x <= items@.len(),
            forall|i: int| 0 <= i < x ==> !class_item_matches(items@[i], c),
        decreases items@.len() - x,
    {
        let hit = match items[x] {
            ClassItem::Ch(y) => c == y,
            ClassItem::Range(a, b) => a <= c && c <= b,
        };
        if hit {
            proof {
                assert(class_item_matches(items@[x as int], c));
            }
            return true;
        }
        x += 1;
    }
    false
}

fn match_atoms(atoms: &Vec<GlobAtom>, ai: usize, s: &[u8], si: usize) -> (r: bool)
    requires
        ai <= atoms.len(),
        si <= s.len(),
    ensures
        r == atoms_match(atoms_vw(atoms@).skip(ai as int), s@.skip(si as int)),
    decreases atoms@.len() - ai,
{
    let ghost av: Seq<AtomV> = atoms_vw(atoms@).skip(ai as int);
    let ghost t: Seq<u8> = s@.skip(si as int);
    if ai == atoms.len() {
        proof {
            assert(av.len() == 0);
        }
        return si == s.len();
    }
    proof {
        assert(av[0] == atoms@[ai as int]@);
        assert(atoms_vw(atoms@).skip(ai as int).skip(1) =~= atoms_vw(atoms@).skip(ai as int + 1));
    }
    match &atoms[ai] {
        GlobAtom::Lit(c) => {
            if si < s.len() && s[si] == *c {
                proof {
                    assert(t[0] == s@[si as int]);
                    assert(t.skip(1) =~= s@.skip(si as int + 1));
                }
                match_atoms(atoms, ai + 1, s, si + 1)
            } else {
                proof {
                    if si < s.len() {
                        assert(t[0] == s@[si as int]);
                    }
                }
                false
            }
        },
        GlobAtom::AnyChar => {
            if si < s.len() && s[si] != 47 {
                proof {
                    assert(t[0] == s@[si as int]);
                    assert(t.skip(1) =~= s@.skip(si as int + 1));
                }
                match_atoms(atoms, ai + 1, s, si + 1)
            } else {
                proof {
                    if si < s.len() {
                        assert(t[0] == s@[si as int]);
                    }
                }
                false
            }
        },
        GlobAtom::Class { negated, items } => {
            if si == s.len() {
                return false;
            }
            proof {
                assert(t[0] == s@[si as int]);
            }
            let hit = class_match_exec(items, s[si]);
            if hit != *negated {
                proof {
                    assert(t.skip(1) =~= s@.skip(si as int + 1));
                }
                match_atoms(atoms, ai + 1, s, si + 1)
            } else {
                false
            }
        },
        GlobAtom::AnySeq => {
            let ghost rest: Seq<AtomV> = atoms_vw(atoms@).skip(ai as int + 1);
            let mut k: usize = si;
            loop
                invariant
                    si <= k <= s.len(),
                    ai < atoms.len(),
                    si <= s.len(),
                    av == atoms_vw(atoms@).skip(ai as int),
                    t == s@.skip(si as int),
                    rest == atoms_vw(atoms@).skip(ai as int + 1),
                    av.len() > 0 && av[0] is AnySeq && av.skip(1) == rest,
                    no_slash(s@.subrange(si as int, k as int)),
                    forall|j: int|
                        si <= j < k ==> !atoms_match(rest, s@.skip(j)),
                decreases s@.len() - k,
            {
                if match_atoms(atoms, ai + 1, s, k) {
                    proof {
                        let kk = k as int - si as int;
                        assert(t.take(kk) =~= s@.subrange(si as int, k as int));
                        assert(t.skip(kk) =~= s@.skip(k as int));
                        assert(no_slash(t.take(kk)) && atoms_match(av.skip(1), t.skip(kk)));
                        assert(atoms_match(av, t));
                    }
                    return true;
                }
                if k == s.len() || s[k] == 47 {
                    proof {
                        assert forall|kk: int|
                            0 <= kk <= t.len() implies !(no_slash(t.take(kk)) && atoms_match(
                            av.skip(1),
                            t.skip(kk),
                        )) by {
                            let j = si as int + kk;
                            assert(t.take(kk) =~= s@.subrange(si as int, j));
                            assert(t.skip(kk) =~= s@.skip(j));
                            if j < k {
                            } else if j == k {
                            } else {
                                assert(s@.subrange(si as int, j)[k - si] == s@[k as int]);
                                assert(!no_slash(t.take(kk)));
                            }
                        }
                        assert(!atoms_match(av, t));
                    }
                    return false;
                }
                proof {
                    assert(s@.subrange(si as int, k as int + 1) =~= s@.subrange(
                        si as int,
                        k as int,
                    ).push(s@[k as int]));
                }
                k += 1;
            }
        },
        GlobAtom::AnyDeep => {
            let ghost rest: Seq<AtomV> = atoms_vw(atoms@).skip(ai as int + 1);
            let mut k: usize = si;
            loop
                invariant
                    si <= k <= s.len(),
                    ai < atoms.len(),
                    si <= s.len(),
                    av == atoms_vw(atoms@).skip(ai as int),
                    t == s@.skip(si as int),
                    rest == atoms_vw(atoms@).skip(ai as int + 1),
                    av.len() > 0 && av[0] is AnyDeep && av.skip(1) == rest,
                    forall|j: int|
                        si <= j < k ==> !atoms_match(rest, s@.skip(j)),
                decreases s@.len() - k,
            {
                if match_atoms(atoms, ai + 1, s, k) {
                    proof {
                        let kk = k as int - si as int;
                        assert(t.skip(kk) =~= s@.skip(k as int));
                        assert(atoms_match(av.skip(1), t.skip(kk)));
                        assert(atoms_match(av, t));
                    }
                    return true;
                }
                if k == s.len() {
                    proof {
                        assert forall|kk: int|
                            0 <= kk <= t.len() implies !atoms_match(av.skip(1), t.skip(kk)) by {
                            let j = si as int + kk;
                            assert(t.skip(kk) =~= s@.skip(j));
                        }
                        assert(!atoms_match(av, t));
                    }
                    return false;
                }
                k += 1;
            }
        },
        GlobAtom::NumRange(lo, hi) => {
            let lo = *lo;
            let hi = *hi;
            let ghost rest: Seq<AtomV> = atoms_vw(atoms@).skip(ai as int + 1);
            if si == s.len() {
                proof {
                    assert(!atoms_match(av, t));
                }
                return false;
            }
            let mut k: usize = si + 1;
            loop
                invariant
                    si + 1 <= k <= s.len(),
                    ai < atoms.len(),
                    si < s.len(),
                    av == atoms_vw(atoms@).skip(ai as int),
                    t == s@.skip(si as int),
                    rest == atoms_vw(atoms@).skip(ai as int + 1),
                    av.len() > 0 && av[0] == AtomV::NumRange(lo as int, hi as int) && av.skip(1)
                        == rest,
                    forall|j: int|
                        si < j < k ==> !(is_int_literal(s@.subrange(si as int, j)) && lo as int
                            <= int_value(s@.subrange(si as int, j)) <= hi as int && atoms_match(
                            rest,
                            s@.skip(j),
                        )),
                decreases s@.len() + 1 - k,
            {
                let in_range = if k <= s.len() {
                    int_in_range(s, si, k, lo, hi)
                } else {
                    false
                };
                if in_range && match_atoms(atoms, ai + 1, s, if k <= s.len() {
                    k
                } else {
                    s.len()
                }) {
                    proof {
                        let kk = k as int - si as int;
                        assert(t.take(kk) =~= s@.subrange(si as int, k as int));
                        assert(t.skip(kk) =~= s@.skip(k as int));
                        assert(atoms_match(av, t));
                    }
                    return true;
                }
                if k >= s.len() {
                    proof {
                        assert forall|kk: int|
                            1 <= kk <= t.len() implies !(is_int_literal(t.take(kk)) && lo as int
                            <= int_value(t.take(kk)) <= hi as int && atoms_match(
                            av.skip(1),
                            t.skip(kk),
                        )) by {
                            let j = si as int + kk;
                            assert(t.take(kk) =~= s@.subrange(si as int, j));
                            assert(t.skip(kk) =~= s@.skip(j));
                        }
                        assert(!atoms_match(av, t));
                    }
                    return false;
                }
                k += 1;
            }
        },
    }
}

/// Decides whether a pattern matches a target path given relative to the
/// pattern's defining directory, as `spec_glob_match` states it.
#[verifier::rlimit(50)]
pub fn glob_match(pattern: &[u8], rel_path: &[u8]) -> (r: bool)
    ensures
        r == spec_glob_match(pattern@, rel_path@),
{
    if pattern.len() == 0 {
        return true;
    }
    let has = match last_slash(pattern) {
        Some(_) => true,
        None => false,
    };
    let pstart: usize = if has && pattern[0] == 47 {
        1
    } else {
        0
    };
    let pat = sub_vec(pattern, pstart, pattern.len());
    proof {
        if pstart == 1 {
            assert(pat@ =~= pattern@.skip(1));
        } else {
            assert(pat@ =~= pattern@);
        }
        assert(pat@ == spec_effective_pattern(pattern@));
    }
    proof {
        lemma_last_slash(rel_path@);
    }
    let target: Vec<u8> = if has {
        sub_vec(rel_path, 0, rel_path.len())
    } else {
        match last_slash(rel_path) {
            Some(l) => {
                let n = rel_path.len();
                proof {
                    assert(spec_last_slash(rel_path@) == Some(l as int));
                    assert(l < rel_path@.len());
                }
                sub_vec(rel_path, l + 1, n)
            },
            None => sub_vec(rel_path, 0, rel_path.len()),
        }
    };
    proof {
        if has {
            assert(target@ =~= rel_path@);
        } else {
            match spec_last_slash(rel_path@) {
                Some(l) => {
                    assert(target@ =~= rel_path@.skip(l + 1));
                },
                None => {
                    assert(target@ =~= rel_path@);
                },
            }
        }
        assert(target@ == spec_effective_target(pattern@, rel_path@));
    }
    match compile_range(pat.as_slice(), 0, pat.len()) {
        None => {
            proof {
                assert(spec_compile(pat@) is None);
                assert(!spec_alts_match(spec_compile(pat@), target@));
                assert(!spec_glob_match(pattern@, rel_path@));
            }
            false
        },
        Some(alts) => {
            let ghost altv: Seq<Seq<AtomV>> = alts_vw(alts@);
            let mut x: usize = 0;
            while x < alts.len()
                invariant
                    0 <= x <= alts@.len(),
                    altv == alts_vw(alts@),
                    spec_compile(pat@) == Some(altv),
                    pattern@.len() > 0,
                    pat@ == spec_effective_pattern(pattern@),
                    target@ == spec_effective_target(pattern@, rel_path@),
                    forall|i: int| 0 <= i < x ==> !atoms_match(altv[i], target@),
                decreases alts@.len() - x,
            {
                if match_atoms(&alts[x], 0, target.as_slice(), 0) {
                    proof {
                        assert(atoms_vw(alts@[x as int]@).skip(0) =~= altv[x as int]);
                        assert(target@.skip(0) =~= target@);
                        assert(atoms_match(altv[x as int], target@));
                        lemma_any_alt_intro(altv, target@, x as int);
                        assert(spec_alts_match(Some(altv), target@));
                        assert(spec_glob_match(pattern@, rel_path@));
                    }
                    return true;
                }
                proof {
                    assert(atoms_vw(alts@[x as int]@).skip(0) =~= altv[x as int]);
                    assert(target@.skip(0) =~= target@);
                }
                x += 1;
            }
            false
        },
    }
}

} // verus!
