//! The mathematical model of a measure: a pair of natural numbers, the first
//! counting positions (bytes, characters) and the second counting a secondary
//! quantity (such as newlines). Pairs are added componentwise, subtracted with
//! saturation componentwise, and ordered lexicographically.
use vstd::prelude::*;

verus! {

/// Componentwise sum of two measure models.
pub open spec fn padd(a: (nat, nat), b: (nat, nat)) -> (nat, nat) {
    ((a.0 + b.0) as nat, (a.1 + b.1) as nat)
}

/// Saturating subtraction of natural numbers.
pub open spec fn nsub(a: nat, b: nat) -> nat {
    if a >= b {
        (a - b) as nat
    } else {
        0nat
    }
}

/// Componentwise saturating difference of two measure models.
pub open spec fn psub(a: (nat, nat), b: (nat, nat)) -> (nat, nat) {
    (nsub(a.0, b.0), nsub(a.1, b.1))
}

/// Strict lexicographic order on measure models.
pub open spec fn plt(a: (nat, nat), b: (nat, nat)) -> bool {
    a.0 < b.0 || (a.0 == b.0 && a.1 < b.1)
}

/// Lexicographic order on measure models.
pub open spec fn ple(a: (nat, nat), b: (nat, nat)) -> bool {
    plt(a, b) || a == b
}

/// Componentwise order on measure models.
pub open spec fn pbelow(a: (nat, nat), b: (nat, nat)) -> bool {
    a.0 <= b.0 && a.1 <= b.1
}

/// The sum of a sequence of measure models.
pub open spec fn psum(s: Seq<(nat, nat)>) -> (nat, nat)
    decreases s.len(),
{
    if s.len() == 0 {
        (0nat, 0nat)
    } else {
        padd(psum(s.drop_last()), s.last())
    }
}

pub proof fn lemma_psum_concat(a: Seq<(nat, nat)>, b: Seq<(nat, nat)>)
    ensures
        psum(a + b) == padd(psum(a), psum(b)),
    decreases b.len(),
{
    if b.len() == 0 {
        assert(a + b =~= a);
    } else {
        lemma_psum_concat(a, b.drop_last());
        assert((a + b).drop_last() =~= a + b.drop_last());
    }
}

pub proof fn lemma_psum_single(x: (nat, nat))
    ensures
        psum(seq![x]) == x,
{
    assert(seq![x].drop_last() =~= Seq::<(nat, nat)>::empty());
    assert(psum(Seq::<(nat, nat)>::empty()) == (0nat, 0nat));
    assert(seq![x].last() == x);
}

pub proof fn lemma_psum_push(s: Seq<(nat, nat)>, x: (nat, nat))
    ensures
        psum(s.push(x)) == padd(psum(s), x),
{
    assert(s.push(x).drop_last() =~= s);
}

/// Splitting a sequence at index `k` splits its sum.
pub proof fn lemma_psum_split(s: Seq<(nat, nat)>, k: int)
    requires
        0 <= k <= s.len(),
    ensures
        psum(s) == padd(psum(s.take(k)), psum(s.skip(k))),
{
    lemma_psum_concat(s.take(k), s.skip(k));
    assert(s.take(k) + s.skip(k) =~= s);
}

/// Every prefix sum, and every element, lies componentwise below the total.
pub proof fn lemma_psum_take_below(s: Seq<(nat, nat)>, k: int)
    requires
        0 <= k <= s.len(),
    ensures
        pbelow(psum(s.take(k)), psum(s)),
{
    lemma_psum_split(s, k);
}

pub proof fn lemma_psum_elem_below(s: Seq<(nat, nat)>, k: int)
    requires
        0 <= k < s.len(),
    ensures
        pbelow(s[k], psum(s)),
        pbelow(psum(s.take(k)), psum(s)),
        pbelow(padd(psum(s.take(k)), s[k]), psum(s)),
{
    lemma_psum_split(s, k);
    lemma_psum_split(s.skip(k), 1);
    assert(s.skip(k).take(1) =~= seq![s[k]]);
    lemma_psum_single(s[k]);
    lemma_psum_take_plus_one(s, k);
}

/// The prefix of length `k + 1` sums to the prefix of length `k` plus element `k`.
pub proof fn lemma_psum_take_plus_one(s: Seq<(nat, nat)>, k: int)
    requires
        0 <= k < s.len(),
    ensures
        psum(s.take(k + 1)) == padd(psum(s.take(k)), s[k]),
{
    assert(s.take(k + 1).drop_last() =~= s.take(k));
}

/// Replacing element `k` changes the sum by the difference of the elements.
pub proof fn lemma_psum_update(s: Seq<(nat, nat)>, k: int, x: (nat, nat))
    requires
        0 <= k < s.len(),
    ensures
        padd(psum(s.update(k, x)), s[k]) == padd(psum(s), x),
{
    lemma_psum_split(s, k);
    lemma_psum_split(s.update(k, x), k);
    lemma_psum_split(s.skip(k), 1);
    lemma_psum_split(s.update(k, x).skip(k), 1);
    assert(s.update(k, x).take(k) =~= s.take(k));
    assert(s.update(k, x).skip(k).skip(1) =~= s.skip(k).skip(1));
    assert(s.skip(k).take(1) =~= seq![s[k]]);
    assert(s.update(k, x).skip(k).take(1) =~= seq![x]);
    lemma_psum_single(s[k]);
    lemma_psum_single(x);
}

/// Inserting an element adds it to the sum.
pub proof fn lemma_psum_insert(s: Seq<(nat, nat)>, k: int, x: (nat, nat))
    requires
        0 <= k <= s.len(),
    ensures
        psum(s.insert(k, x)) == padd(psum(s), x),
{
    lemma_psum_split(s, k);
    assert(s.insert(k, x) =~= s.take(k) + (seq![x] + s.skip(k)));
    lemma_psum_concat(s.take(k), seq![x] + s.skip(k));
    lemma_psum_concat(seq![x], s.skip(k));
    lemma_psum_single(x);
}

/// Removing an element subtracts it from the sum.
pub proof fn lemma_psum_remove(s: Seq<(nat, nat)>, k: int)
    requires
        0 <= k < s.len(),
    ensures
        padd(psum(s.remove(k)), s[k]) == psum(s),
{
    lemma_psum_insert(s.remove(k), k, s[k]);
    assert(s.remove(k).insert(k, s[k]) =~= s);
}


/// Two distinct elements together lie componentwise below the total.
pub proof fn lemma_psum_two_below(s: Seq<(nat, nat)>, i: int, j: int)
    requires
        0 <= i < s.len(),
        0 <= j < s.len(),
        i != j,
    ensures
        pbelow(padd(s[i], s[j]), psum(s)),
{
    lemma_psum_remove(s, i);
    let t = s.remove(i);
    let j2 = if j < i { j } else { j - 1 };
    assert(t[j2] == s[j]);
    lemma_psum_elem_below(t, j2);
}

/// Replacing two distinct elements by two others with the same sum keeps the total.
pub proof fn lemma_psum_update2(s: Seq<(nat, nat)>, i: int, j: int, a: (nat, nat), b: (nat, nat))
    requires
        0 <= i < s.len(),
        0 <= j < s.len(),
        i != j,
        padd(a, b) == padd(s[i], s[j]),
    ensures
        psum(s.update(i, a).update(j, b)) == psum(s),
{
    lemma_psum_update(s, i, a);
    lemma_psum_update(s.update(i, a), j, b);
}

/// Adding element `j` into element `i` and removing element `j` keeps the total.
pub proof fn lemma_psum_merge(s: Seq<(nat, nat)>, i: int, j: int)
    requires
        0 <= i < s.len(),
        0 <= j < s.len(),
        i != j,
    ensures
        psum(s.update(i, padd(s[i], s[j])).remove(j)) == psum(s),
{
    let u = s.update(i, padd(s[i], s[j]));
    lemma_psum_update(s, i, padd(s[i], s[j]));
    lemma_psum_remove(u, j);
}
/// How much a deletion of `l` positions from position `t` removes from a span of `w`
/// positions: what the span holds from `t` on, at most `l`.
pub open spec fn removed_amount(w: nat, t: nat, l: nat) -> nat {
    if l <= nsub(w, t) {
        l
    } else {
        nsub(w, t)
    }
}

} // verus!
