//! Ranking of fitness totals in a total order that is safe against NaN.
//!
//! A fitness total is a single-precision IEEE-754 number, handed to the
//! engine as its bit pattern. Its rank is an integer that orders totals as
//! the numbers do, with every NaN below every other value and all NaNs equal.
use vstd::prelude::*;

verus! {

/// The rank of every NaN total: below the rank of every other total.
pub const NAN_RANK: i64 = -0x1_0000_0000;

/// Bits of the sign.
pub const SIGN_BIT: u32 = 0x8000_0000;

/// Bit pattern of positive infinity, the largest magnitude that is a number.
pub const INFINITY_BITS: u32 = 0x7f80_0000;

/// The magnitude part (all bits but the sign) of a bit pattern.
pub open spec fn magnitude(bits: u32) -> int {
    bits as int % SIGN_BIT as int
}

/// The bit pattern is a NaN: all exponent bits set and a non-zero fraction.
pub open spec fn is_nan_bits(bits: u32) -> bool {
    magnitude(bits) > INFINITY_BITS
}

/// The sign bit is set.
pub open spec fn is_negative_bits(bits: u32) -> bool {
    bits >= SIGN_BIT
}

/// The rank of a total: `NAN_RANK` for a NaN, otherwise the magnitude with
/// the total's sign (so both zeros rank 0).
pub open spec fn rank_spec(bits: u32) -> int {
    if is_nan_bits(bits) {
        NAN_RANK as int
    } else if is_negative_bits(bits) {
        -magnitude(bits)
    } else {
        magnitude(bits)
    }
}

/// The rank of the total whose bit pattern is `bits`.
pub fn rank_of_total(bits: u32) -> (r: i64)
    ensures
        r == rank_spec(bits),
{
    let mag = bits % SIGN_BIT;
    if mag > INFINITY_BITS {
        NAN_RANK
    } else if bits >= SIGN_BIT {
        -(mag as i64)
    } else {
        mag as i64
    }
}

/// NaN ranks strictly below every other total and equal to every other NaN;
/// the two zeros rank equal; among totals that are numbers, a greater
/// magnitude ranks higher when positive and lower when negative.
pub proof fn lemma_rank_order(a: u32, b: u32)
    ensures
        is_nan_bits(a) && !is_nan_bits(b) ==> rank_spec(a) < rank_spec(b),
        is_nan_bits(a) && is_nan_bits(b) ==> rank_spec(a) == rank_spec(b),
        magnitude(a) == 0 && magnitude(b) == 0 ==> rank_spec(a) == rank_spec(b),
        !is_nan_bits(a) && !is_nan_bits(b) && !is_negative_bits(a) && !is_negative_bits(b) ==> (
        rank_spec(a) < rank_spec(b) <==> magnitude(a) < magnitude(b)),
        !is_nan_bits(a) && !is_nan_bits(b) && is_negative_bits(a) && is_negative_bits(b) ==> (
        rank_spec(a) < rank_spec(b) <==> magnitude(a) > magnitude(b)),
        !is_nan_bits(a) && !is_nan_bits(b) && is_negative_bits(a) && !is_negative_bits(b) ==> (
        rank_spec(a) < rank_spec(b) <==> magnitude(a) > 0 || magnitude(b) > 0),
{
}

/// A score name as the bytes of its text.
pub open spec fn name_views(names: Seq<Vec<u8>>) -> Seq<Seq<u8>> {
    names.map_values(|b: Vec<u8>| b@)
}

/// Position of the first name in `names` equal to `x`, or `names.len()`
/// when there is none.
pub open spec fn first_match(names: Seq<Seq<u8>>, x: Seq<u8>) -> int
    decreases names.len(),
{
    if names.len() == 0 {
        0
    } else if first_match(names.drop_last(), x) < names.len() - 1 {
        first_match(names.drop_last(), x)
    } else if names.last() == x {
        names.len() - 1
    } else {
        names.len() as int
    }
}

/// The names after merging the first `j` names of `incoming` into `names`:
/// each one that has no equal yet is appended.
pub open spec fn merged_names(names: Seq<Seq<u8>>, incoming: Seq<Seq<u8>>, j: int) -> Seq<Seq<u8>>
    decreases j,
{
    if j <= 0 {
        names
    } else {
        let before = merged_names(names, incoming, j - 1);
        if first_match(before, incoming[j - 1]) < before.len() {
            before
        } else {
            before.push(incoming[j - 1])
        }
    }
}

/// No name occurs twice.
pub open spec fn distinct_names(names: Seq<Seq<u8>>) -> bool {
    forall|a: int, b: int| 0 <= a < b < names.len() ==> names[a] != names[b]
}

/// `first_match` finds the first equal name, and finds none only when no
/// name is equal.
pub proof fn lemma_first_match(names: Seq<Seq<u8>>, x: Seq<u8>)
    ensures
        0 <= first_match(names, x) <= names.len(),
        first_match(names, x) < names.len() ==> names[first_match(names, x)] == x,
        forall|k: int| 0 <= k < first_match(names, x) ==> names[k] != x,
    decreases names.len(),
{
    if names.len() > 0 {
        let init = names.drop_last();
        lemma_first_match(init, x);
        assert forall|k: int| 0 <= k < init.len() implies init[k] == names[k] by {}
    }
}

/// Merging by name keeps the names it starts with, in front and in order,
/// holds every merged name, and adds no name twice: merged into a list of
/// distinct names, the result is a list of distinct names.
pub proof fn lemma_merged_names(names: Seq<Seq<u8>>, incoming: Seq<Seq<u8>>, j: int)
    requires
        0 <= j <= incoming.len(),
    ensures
        merged_names(names, incoming, j).len() >= names.len(),
        merged_names(names, incoming, j).subrange(0, names.len() as int) == names,
        forall|k: int| 0 <= k < j ==> merged_names(names, incoming, j).contains(#[trigger] incoming[k]),
        forall|i: int|
            0 <= i < merged_names(names, incoming, j).len() ==> names.contains(
                #[trigger] merged_names(names, incoming, j)[i],
            ) || exists|k: int| 0 <= k < j && incoming[k] == merged_names(names, incoming, j)[i],
        distinct_names(names) ==> distinct_names(merged_names(names, incoming, j)),
    decreases j,
{
    if j == 0 {
        assert(names.subrange(0, names.len() as int) =~= names);
    } else {
        lemma_merged_names(names, incoming, j - 1);
        let before = merged_names(names, incoming, j - 1);
        let x = incoming[j - 1];
        lemma_first_match(before, x);
        let after = merged_names(names, incoming, j);
        if first_match(before, x) < before.len() {
            assert(after == before);
            assert(after[first_match(before, x)] == x);
        } else {
            assert(after == before.push(x));
            assert(after.subrange(0, names.len() as int) =~= before.subrange(0, names.len() as int));
            assert(after[before.len() as int] == x);
            assert forall|k: int| 0 <= k < j implies after.contains(#[trigger] incoming[k]) by {
                if k < j - 1 {
                    let i = choose|i: int| 0 <= i < before.len() && before[i] == incoming[k];
                    assert(after[i] == incoming[k]);
                }
            }
            assert forall|i: int| 0 <= i < after.len() implies names.contains(#[trigger] after[i]) || exists|k: int|
                0 <= k < j && incoming[k] == after[i] by {
                if i < before.len() {
                    assert(after[i] == before[i]);
                } else {
                    assert(incoming[j - 1] == after[i]);
                }
            }
        }
    }
}

/// Whether two names have the same bytes.
pub fn same_name(a: &Vec<u8>, b: &Vec<u8>) -> (r: bool)
    ensures
        r == (a@ == b@),
{
    if a.len() != b.len() {
        return false;
    }
    let mut i: usize = 0;
    while i < a.len()
        invariant
            i <= a@.len(),
            a@.len() == b@.len(),
            forall|k: int| 0 <= k < i ==> a@[k] == b@[k],
        decreases a@.len() - i,
    {
        if a[i] != b[i] {
            return false;
        }
        i += 1;
    }
    proof {
        assert(a@ =~= b@);
    }
    true
}

fn copy_name(a: &Vec<u8>) -> (r: Vec<u8>)
    ensures
        r@ == a@,
{
    let mut r: Vec<u8> = Vec::new();
    let mut i: usize = 0;
    while i < a.len()
        invariant
            i <= a@.len(),
            r@ == a@.subrange(0, i as int),
        decreases a@.len() - i,
    {
        r.push(a[i]);
        i += 1;
    }
    proof {
        assert(r@ =~= a@);
    }
    r
}

/// Where each component of `incoming` goes when it is merged by name into a
/// list of components named `names`: the position of the first component
/// with an equal name, counting the ones appended before it, or the next
/// free position, where it is appended.
pub fn merge_plan(names: &Vec<Vec<u8>>, incoming: &Vec<Vec<u8>>) -> (r: Vec<usize>)
    requires
        names@.len() + incoming@.len() <= usize::MAX,
    ensures
        r@.len() == incoming@.len(),
        forall|j: int| 0 <= j < r@.len() ==> r@[j] <= names@.len() + j,
        forall|j: int|
            0 <= j < r@.len() ==> r@[j] == first_match(
                #[trigger] merged_names(name_views(names@), name_views(incoming@), j),
                incoming@[j]@,
            ),
{
    let ghost nv = name_views(names@);
    let ghost iv = name_views(incoming@);
    let mut current: Vec<Vec<u8>> = Vec::new();
    let mut i: usize = 0;
    while i < names.len()
        invariant
            i <= names@.len(),
            current@.len() == i,
            name_views(current@) == nv.subrange(0, i as int),
            nv == name_views(names@),
        decreases names@.len() - i,
    {
        let ghost before = current@;
        let c = copy_name(&names[i]);
        let ghost cv = c@;
        current.push(c);
        proof {
            assert(current@ == before.push(current@[i as int]));
            assert(current@[i as int]@ == cv);
            assert forall|k: int| 0 <= k < i + 1 implies name_views(current@)[k] == nv.subrange(0, i + 1)[k] by {
                if k < i {
                    assert(current@[k] == before[k]);
                    assert(name_views(before)[k] == nv.subrange(0, i as int)[k]);
                }
            }
            assert(name_views(current@) =~= nv.subrange(0, i + 1));
        }
        i += 1;
    }
    proof {
        assert(name_views(current@) =~= nv);
    }
    let mut plan: Vec<usize> = Vec::new();
    let mut j: usize = 0;
    while j < incoming.len()
        invariant
            j <= incoming@.len(),
            names@.len() + incoming@.len() <= usize::MAX,
            nv == name_views(names@),
            iv == name_views(incoming@),
            plan@.len() == j,
            current@.len() <= names@.len() + j,
            name_views(current@).len() == current@.len(),
            name_views(current@) == merged_names(nv, iv, j as int),
            forall|k: int| 0 <= k < j ==> plan@[k] <= names@.len() + k,
            forall|k: int|
                0 <= k < j ==> plan@[k] == first_match(#[trigger] merged_names(nv, iv, k), iv[k]),
        decreases incoming@.len() - j,
    {
        let x = &incoming[j];
        let mut pos: usize = 0;
        while pos < current.len() && !same_name(&current[pos], x)
            invariant
                pos <= current@.len(),
                forall|k: int| 0 <= k < pos ==> current@[k]@ != x@,
            decreases current@.len() - pos,
        {
            pos += 1;
        }
        proof {
            let cv = name_views(current@);
            assert forall|k: int| 0 <= k < pos implies cv[k] != x@ by {}
            lemma_first_match_scan(cv, x@, pos as int);
            assert(iv[j as int] == x@);
        }
        if pos == current.len() {
            let ghost cb = current@;
            let c = copy_name(x);
            let ghost cv = c@;
            current.push(c);
            proof {
                assert(current@ == cb.push(current@[cb.len() as int]));
                assert(current@[cb.len() as int]@ == cv);
                assert forall|k: int| 0 <= k < cb.len() implies name_views(current@)[k] == name_views(cb)[k] by {
                    assert(current@[k] == cb[k]);
                }
                assert(name_views(current@) =~= name_views(cb).push(x@));
            }
        }
        plan.push(pos);
        j += 1;
    }
    plan
}

/// A scan that stops at the first equal name, or at the end, finds
/// `first_match`.
proof fn lemma_first_match_scan(names: Seq<Seq<u8>>, x: Seq<u8>, pos: int)
    requires
        0 <= pos <= names.len(),
        forall|k: int| 0 <= k < pos ==> names[k] != x,
        pos < names.len() ==> names[pos] == x,
    ensures
        first_match(names, x) == pos,
    decreases names.len(),
{
    if names.len() > 0 {
        let init = names.drop_last();
        if pos < names.len() - 1 {
            lemma_first_match_scan(init, x, pos);
        } else {
            lemma_first_match_scan(init, x, init.len() as int);
        }
    }
}

} // verus!
