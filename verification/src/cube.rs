use vstd::prelude::*;

use crate::lit::{lit_code, Lit};
use crate::var::Var;

verus! {

broadcast use crate::lit::Lit::lemma_from_code_view;

/// Two to the power `n`.
pub open spec fn two_pow(n: nat) -> nat
    decreases n,
{
    if n == 0 {
        1
    } else {
        2 * two_pow((n - 1) as nat)
    }
}

/// The number that a sign vector writes in binary, its first sign being the most significant
/// bit (`true` is 1).
pub open spec fn cube_value(cube: Seq<bool>) -> nat
    decreases cube.len(),
{
    if cube.len() == 0 {
        0
    } else {
        (if cube[0] {
            two_pow((cube.len() - 1) as nat)
        } else {
            0
        }) + cube_value(cube.skip(1))
    }
}

/// Powers of two grow with the exponent.
pub proof fn lemma_two_pow_mono(a: nat, b: nat)
    requires
        a <= b,
    ensures
        1 <= two_pow(a) <= two_pow(b),
    decreases b,
{
    if b > a {
        lemma_two_pow_mono(a, (b - 1) as nat);
    } else if a > 0 {
        lemma_two_pow_mono((a - 1) as nat, (a - 1) as nat);
    }
}

/// `2^30` fits comfortably in 64 bits.
pub proof fn lemma_two_pow_30()
    ensures
        two_pow(30) == 0x4000_0000,
{
    reveal_with_fuel(two_pow, 31);
}

/// `2^63`, the largest power of two below `u64::MAX`.
pub proof fn lemma_two_pow_63()
    ensures
        two_pow(63) == 0x8000_0000_0000_0000,
{
    reveal_with_fuel(two_pow, 64);
}

/// A sign vector of length `n` writes a number below `2^n`.
pub proof fn lemma_cube_value_bound(cube: Seq<bool>)
    ensures
        cube_value(cube) < two_pow(cube.len()),
    decreases cube.len(),
{
    if cube.len() > 0 {
        lemma_cube_value_bound(cube.skip(1));
    }
}

/// Of two sign vectors of the same length that agree before position `p`, the one with
/// `true` at `p` writes the larger number.
pub proof fn lemma_cube_value_increases(a: Seq<bool>, b: Seq<bool>, p: int)
    requires
        a.len() == b.len(),
        0 <= p < a.len(),
        !a[p],
        b[p],
        forall|i: int| 0 <= i < p ==> a[i] == b[i],
    ensures
        cube_value(a) < cube_value(b),
    decreases p,
{
    if p == 0 {
        lemma_cube_value_bound(a.skip(1));
    } else {
        assert forall|i: int| 0 <= i < p - 1 implies a.skip(1)[i] == b.skip(1)[i] by {
            assert(a[i + 1] == b[i + 1]);
        }
        lemma_cube_value_increases(a.skip(1), b.skip(1), p - 1);
        assert(a[0] == b[0]);
    }
}

/// The sign vector of length `n` that writes `v` in binary (see [`cube_value`]).
pub open spec fn cube_at(n: nat, v: nat) -> Seq<bool>
    decreases n,
{
    if n == 0 {
        Seq::empty()
    } else if v >= two_pow((n - 1) as nat) {
        seq![true] + cube_at((n - 1) as nat, (v - two_pow((n - 1) as nat)) as nat)
    } else {
        seq![false] + cube_at((n - 1) as nat, v)
    }
}

/// A sign vector is the one that writes its number.
pub proof fn lemma_cube_at_value(c: Seq<bool>)
    ensures
        cube_at(c.len(), cube_value(c)) == c,
    decreases c.len(),
{
    if c.len() > 0 {
        lemma_cube_value_bound(c.skip(1));
        lemma_cube_at_value(c.skip(1));
        assert(c =~= seq![c[0]] + c.skip(1));
    }
}

/// A sign vector of `true` only writes `2^n - 1`.
pub proof fn lemma_cube_value_all_true(c: Seq<bool>)
    requires
        forall|i: int| 0 <= i < c.len() ==> c[i],
    ensures
        cube_value(c) + 1 == two_pow(c.len()),
    decreases c.len(),
{
    if c.len() > 0 {
        assert forall|i: int| 0 <= i < c.skip(1).len() implies c.skip(1)[i] by {
            assert(c.skip(1)[i] == c[i + 1]);
        }
        lemma_cube_value_all_true(c.skip(1));
    }
}

/// A sign vector of `false` only writes `0`.
pub proof fn lemma_cube_value_all_false(c: Seq<bool>)
    requires
        forall|i: int| 0 <= i < c.len() ==> !c[i],
    ensures
        cube_value(c) == 0,
    decreases c.len(),
{
    if c.len() > 0 {
        assert forall|i: int| 0 <= i < c.skip(1).len() implies !c.skip(1)[i] by {
            assert(c.skip(1)[i] == c[i + 1]);
        }
        lemma_cube_value_all_false(c.skip(1));
    }
}

/// Setting the last `false` sign to `true` and every later sign to `false` adds one to the
/// number a sign vector writes.
pub proof fn lemma_cube_value_next(a: Seq<bool>, b: Seq<bool>, p: int)
    requires
        a.len() == b.len(),
        0 <= p < a.len(),
        !a[p],
        b[p],
        forall|i: int| 0 <= i < p ==> a[i] == b[i],
        forall|i: int| p < i < a.len() ==> a[i] && !b[i],
    ensures
        cube_value(b) == cube_value(a) + 1,
    decreases p,
{
    if p == 0 {
        assert forall|i: int| 0 <= i < a.skip(1).len() implies a.skip(1)[i] by {
            assert(a.skip(1)[i] == a[i + 1]);
        }
        assert forall|i: int| 0 <= i < b.skip(1).len() implies !b.skip(1)[i] by {
            assert(b.skip(1)[i] == b[i + 1]);
        }
        lemma_cube_value_all_true(a.skip(1));
        lemma_cube_value_all_false(b.skip(1));
    } else {
        assert forall|i: int| 0 <= i < p - 1 implies a.skip(1)[i] == b.skip(1)[i] by {
            assert(a[i + 1] == b[i + 1]);
        }
        assert forall|i: int| p - 1 < i < a.skip(1).len() implies a.skip(1)[i] && !b.skip(1)[i] by {
            assert(a.skip(1)[i] == a[i + 1]);
            assert(b.skip(1)[i] == b[i + 1]);
        }
        lemma_cube_value_next(a.skip(1), b.skip(1), p - 1);
        assert(a[0] == b[0]);
    }
}

/// The sign vector that writes a number has the length asked for.
pub proof fn lemma_cube_at_len(n: nat, v: nat)
    ensures
        cube_at(n, v).len() == n,
    decreases n,
{
    if n > 0 {
        if v >= two_pow((n - 1) as nat) {
            lemma_cube_at_len((n - 1) as nat, (v - two_pow((n - 1) as nat)) as nat);
        } else {
            lemma_cube_at_len((n - 1) as nat, v);
        }
    }
}

/// A sign vector whose signs from `l` on are `false` leaves room for `2^(n - l)` numbers
/// below `2^n` from its own.
pub proof fn lemma_cube_value_prefix_bound(c: Seq<bool>, l: int)
    requires
        0 <= l <= c.len(),
        forall|i: int| l <= i < c.len() ==> !c[i],
    ensures
        cube_value(c) + two_pow((c.len() - l) as nat) <= two_pow(c.len()),
    decreases c.len(),
{
    if l == 0 {
        lemma_cube_value_all_false(c);
    } else {
        assert forall|i: int| l - 1 <= i < c.skip(1).len() implies !c.skip(1)[i] by {
            assert(c.skip(1)[i] == c[i + 1]);
        }
        lemma_cube_value_prefix_bound(c.skip(1), l - 1);
    }
}

/// The numbers from that of a sign vector whose signs from `l` on are `false`, up to `2^(n -
/// l)` more, are written by sign vectors with the same first `l` signs.
pub proof fn lemma_cube_at_prefix(c: Seq<bool>, l: int, w: nat)
    requires
        0 <= l <= c.len(),
        forall|i: int| l <= i < c.len() ==> !c[i],
        cube_value(c) <= w < cube_value(c) + two_pow((c.len() - l) as nat),
    ensures
        cube_at(c.len(), w).len() == c.len(),
        cube_at(c.len(), w).take(l) == c.take(l),
    decreases c.len(),
{
    let n = c.len();
    lemma_cube_at_len(n, w);
    if l > 0 {
        let h = two_pow((n - 1) as nat);
        let rest = c.skip(1);
        assert forall|i: int| l - 1 <= i < rest.len() implies !rest[i] by {
            assert(rest[i] == c[i + 1]);
        }
        lemma_cube_value_prefix_bound(rest, l - 1);
        if c[0] {
            lemma_cube_at_prefix(rest, l - 1, (w - h) as nat);
            let r = cube_at((n - 1) as nat, (w - h) as nat);
            assert(cube_at(n, w) == seq![true] + r);
            assert(cube_at(n, w).take(l) =~= c.take(l)) by {
                assert forall|i: int| 0 <= i < l implies cube_at(n, w).take(l)[i] == c.take(l)[i] by {
                    if i > 0 {
                        assert(r.take(l - 1)[i - 1] == rest.take(l - 1)[i - 1]);
                    }
                }
            }
        } else {
            lemma_cube_at_prefix(rest, l - 1, w);
            let r = cube_at((n - 1) as nat, w);
            assert(cube_at(n, w) == seq![false] + r);
            assert(cube_at(n, w).take(l) =~= c.take(l)) by {
                assert forall|i: int| 0 <= i < l implies cube_at(n, w).take(l)[i] == c.take(l)[i] by {
                    if i > 0 {
                        assert(r.take(l - 1)[i - 1] == rest.take(l - 1)[i - 1]);
                    }
                }
            }
        }
    } else {
        assert(cube_at(n, w).take(0) =~= c.take(0));
    }
}

/// A sign vector with `true` before `l` and `false` from `l` on writes `2^n - 2^(n - l)`.
pub proof fn lemma_cube_value_ones_then_zeros(c: Seq<bool>, l: int)
    requires
        0 <= l <= c.len(),
        forall|i: int| 0 <= i < l ==> c[i],
        forall|i: int| l <= i < c.len() ==> !c[i],
    ensures
        cube_value(c) + two_pow((c.len() - l) as nat) == two_pow(c.len()),
    decreases c.len(),
{
    if l == 0 {
        lemma_cube_value_all_false(c);
    } else {
        assert forall|i: int| 0 <= i < l - 1 implies c.skip(1)[i] by {
            assert(c.skip(1)[i] == c[i + 1]);
        }
        assert forall|i: int| l - 1 <= i < c.skip(1).len() implies !c.skip(1)[i] by {
            assert(c.skip(1)[i] == c[i + 1]);
        }
        lemma_cube_value_ones_then_zeros(c.skip(1), l - 1);
    }
}

/// Moving to the next sign vector over the first `l` signs, the later ones `false`, adds
/// `2^(n - l)` to the number written.
pub proof fn lemma_cube_value_step(a: Seq<bool>, b: Seq<bool>, p: int, l: int)
    requires
        a.len() == b.len(),
        0 <= p < l <= a.len(),
        !a[p],
        b[p],
        forall|i: int| 0 <= i < p ==> a[i] == b[i],
        forall|i: int| p < i < l ==> a[i] && !b[i],
        forall|i: int| l <= i < a.len() ==> !a[i] && !b[i],
    ensures
        cube_value(b) == cube_value(a) + two_pow((a.len() - l) as nat),
    decreases p,
{
    let ra = a.skip(1);
    let rb = b.skip(1);
    if p == 0 {
        assert forall|i: int| 0 <= i < l - 1 implies ra[i] by {
            assert(ra[i] == a[i + 1]);
        }
        assert forall|i: int| l - 1 <= i < ra.len() implies !ra[i] by {
            assert(ra[i] == a[i + 1]);
        }
        assert forall|i: int| 0 <= i < rb.len() implies !rb[i] by {
            assert(rb[i] == b[i + 1]);
        }
        lemma_cube_value_ones_then_zeros(ra, l - 1);
        lemma_cube_value_all_false(rb);
    } else {
        assert forall|i: int| 0 <= i < p - 1 implies ra[i] == rb[i] by {
            assert(a[i + 1] == b[i + 1]);
        }
        assert forall|i: int| p - 1 < i < l - 1 implies ra[i] && !rb[i] by {
            assert(ra[i] == a[i + 1]);
            assert(rb[i] == b[i + 1]);
        }
        assert forall|i: int| l - 1 <= i < ra.len() implies !ra[i] && !rb[i] by {
            assert(ra[i] == a[i + 1]);
            assert(rb[i] == b[i + 1]);
        }
        lemma_cube_value_step(ra, rb, p - 1, l - 1);
        assert(a[0] == b[0]);
    }
}

/// Moves `cube` to the next sign vector over its first `upto` positions: the last `false`
/// among them becomes `true` and every later position `false`. Returns that position plus
/// one, or `0`, leaving the cube unchanged, when the first `upto` signs are all `true`.
pub fn increment_cube(cube: &mut Vec<bool>, upto: usize) -> (res: usize)
    requires
        upto <= old(cube)@.len(),
    ensures
        final(cube)@.len() == old(cube)@.len(),
        res <= upto,
        res == 0 ==> final(cube)@ == old(cube)@ && forall|i: int| 0 <= i < upto ==> old(cube)@[i],
        res > 0 ==> {
            &&& !old(cube)@[res - 1]
            &&& forall|i: int| res <= i < upto ==> old(cube)@[i]
            &&& forall|i: int| 0 <= i < res - 1 ==> final(cube)@[i] == old(cube)@[i]
            &&& final(cube)@[res - 1]
            &&& forall|i: int| res <= i < final(cube)@.len() ==> !final(cube)@[i]
            &&& cube_value(old(cube)@) < cube_value(final(cube)@)
        },
{
    let mut j = upto;
    while j > 0 && cube[j - 1]
        invariant
            j <= upto <= cube@.len(),
            cube@ == old(cube)@,
            forall|i: int| j <= i < upto ==> cube@[i],
        decreases j,
    {
        j = j - 1;
    }
    if j == 0 {
        return 0;
    }
    cube.set(j - 1, true);
    let mut i = j;
    while i < cube.len()
        invariant
            j <= i <= cube@.len(),
            cube@.len() == old(cube)@.len(),
            0 < j <= upto <= cube@.len(),
            forall|k: int| 0 <= k < j - 1 ==> cube@[k] == old(cube)@[k],
            cube@[j - 1],
            forall|k: int| j <= k < i ==> !cube@[k],
        decreases cube@.len() - i,
    {
        cube.set(i, false);
        i = i + 1;
    }
    proof {
        lemma_cube_value_increases(old(cube)@, cube@, j - 1);
    }
    j
}

/// The literals that assign the sign vector `cube` to `vars`, position by position.
pub open spec fn cube_lits_spec(vars: Seq<Var>, cube: Seq<bool>) -> Seq<Lit> {
    Seq::new(cube.len(), |i: int| Lit::spec_from_code(lit_code(vars[i]@, cube[i])))
}

/// The literals assigning the first `len` signs of `cube` to `vars` (`Lit::new(vars[i],
/// cube[i])`).
pub fn cube_lits(vars: &[Var], cube: &[bool], len: usize) -> (res: Vec<Lit>)
    requires
        len <= vars@.len(),
        len <= cube@.len(),
    ensures
        res@ == cube_lits_spec(vars@, cube@.take(len as int)),
        forall|i: int| 0 <= i < len ==> vars@[i]@ < 0x8000_0000u32 ==> (#[trigger] res@[i]).var() == vars@[i] && res@[i].negated() == cube@[i],
{
    let mut res: Vec<Lit> = Vec::new();
    let mut i: usize = 0;
    while i < len
        invariant
            i <= len,
            len <= vars@.len(),
            len <= cube@.len(),
            res@ == cube_lits_spec(vars@, cube@.take(i as int)),
            forall|k: int| 0 <= k < i ==> vars@[k]@ < 0x8000_0000u32 ==> (#[trigger] res@[k]).var() == vars@[k] && res@[k].negated() == cube@[k],
        decreases len - i,
    {
        let lit = Lit::new(vars[i], cube[i]);
        res.push(lit);
        proof {
            let sl = Lit::spec_from_code(lit_code(vars@[i as int]@, cube@[i as int]));
            assert(sl@ == lit@);
            Lit::lemma_view_injective(lit, sl);
            assert(res@[i as int] == sl);
            assert(res@ =~= cube_lits_spec(vars@, cube@.take(i + 1)));
        }
        i = i + 1;
    }
    res
}

} // verus!
