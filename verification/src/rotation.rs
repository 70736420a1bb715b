//! The cyclic rotations of a block and their lexicographic order.

use crate::stable::{injective_into, lemma_pigeonhole_onto};
use vstd::arithmetic::div_mod::*;
use vstd::prelude::*;

verus! {

/// The byte at offset `k` of the rotation of `s` that starts at `x`.
pub open spec fn rot_at(s: Seq<u8>, x: int, k: int) -> u8 {
    s[(x + k) % (s.len() as int)]
}

/// The rotations at `x` and at `y` agree on their first `m` bytes.
pub open spec fn rot_eq(s: Seq<u8>, x: int, y: int, m: int) -> bool {
    forall|k: int| 0 <= k < m ==> rot_at(s, x, k) == rot_at(s, y, k)
}

/// The rotation at `x` comes before the rotation at `y` when their first `m`
/// bytes are compared lexicographically.
pub open spec fn rot_lt(s: Seq<u8>, x: int, y: int, m: int) -> bool {
    exists|k: int| 0 <= k < m && rot_at(s, x, k) < rot_at(s, y, k) && rot_eq(s, x, y, k)
}

/// The smallest of `start`, `2 * start`, `4 * start`, ... that reaches `n`.
pub open spec fn reach_from(start: int, n: int) -> int
    decreases
        if start < n {
            n - start
        } else {
            0
        },
{
    if start >= n || start <= 0 {
        start
    } else {
        reach_from(start + start, n)
    }
}

/// The number of leading bytes on which the prefix-doubling sort compares
/// rotations of a block of `n` bytes: the smallest power of two that is at
/// least `n`.
pub open spec fn full_reach(n: int) -> int {
    reach_from(1, n)
}

/// The rank that settles the order of position `x` among rotations that agree
/// on their first `reach` bytes: the higher rank stands first.
pub open spec fn tie_rank(n: int, reach: int, x: int) -> int {
    (x + reach - 1) % n
}

/// `p` lists the start positions of the rotations of `s` in ascending order.
/// Rotations that are equal as byte sequences stand by falling tie rank, which
/// is what the stable passes of the prefix-doubling sort leave.
pub open spec fn is_rotation_order(s: Seq<u8>, p: Seq<usize>) -> bool {
    let n = s.len() as int;
    &&& p.len() == n
    &&& forall|i: int| 0 <= i < n ==> 0 <= #[trigger] p[i] < n
    &&& forall|i: int, j: int|
        0 <= i < j < n ==> rot_lt(s, #[trigger] p[i] as int, #[trigger] p[j] as int, n) || (rot_eq(
            s,
            p[i] as int,
            p[j] as int,
            n,
        ) && tie_rank(n, full_reach(n), p[i] as int) > tie_rank(n, full_reach(n), p[j] as int))
}

/// `p` holds distinct positions of a block of `p.len()` bytes.
pub open spec fn is_index_order(p: Seq<usize>) -> bool {
    &&& forall|i: int| 0 <= i < p.len() ==> 0 <= #[trigger] p[i] < p.len()
    &&& forall|i: int, j: int|
        0 <= i < p.len() && 0 <= j < p.len() && i != j ==> #[trigger] p[i] != #[trigger] p[j]
}

/// In a list of distinct positions every position occurs.
pub proof fn lemma_index_order_onto(p: Seq<usize>, x: int)
    requires
        is_index_order(p),
        0 <= x < p.len(),
    ensures
        exists|i: int| 0 <= i < p.len() && p[i] == x,
{
    let f = Seq::new(p.len(), |i: int| p[i] as int);
    assert(injective_into(f, f.len() as int)) by {
        assert forall|i: int| 0 <= i < f.len() implies 0 <= #[trigger] f[i] < f.len() by {
            assert(p[i] < p.len());
        }
        assert forall|i: int, j: int|
            0 <= i < f.len() && 0 <= j < f.len() && i != j implies f[i] != f[j] by {
            assert(p[i] != p[j]);
        }
    }
    lemma_pigeonhole_onto(f, x);
    let i = choose|i: int| 0 <= i < f.len() && f[i] == x;
    assert(p[i] == x);
}

/// A position may be reduced before or after a shift.
pub proof fn lemma_mod_shift(a: int, b: int, n: int)
    requires
        0 < n,
    ensures
        ((a % n) + b) % n == (a + b) % n,
{
    lemma_add_mod_noop_right(b, a, n);
}

/// The rotation that starts `m` bytes later.
pub proof fn lemma_rot_shift(s: Seq<u8>, x: int, m: int, k: int)
    requires
        0 < s.len(),
    ensures
        rot_at(s, (x + m) % (s.len() as int), k) == rot_at(s, x, m + k),
{
    lemma_mod_shift(x + m, k, s.len() as int);
}

/// Offsets that differ by the length of the block name the same byte.
pub proof fn lemma_rot_wrap(s: Seq<u8>, x: int, k: int)
    requires
        0 < s.len(),
    ensures
        rot_at(s, x, k) == rot_at(s, x, k % (s.len() as int)),
{
    let n = s.len() as int;
    lemma_add_mod_noop_right(x, k, n);
}

/// Agreement on a longer stretch holds on each shorter one.
pub proof fn lemma_rot_eq_shorter(s: Seq<u8>, x: int, y: int, m1: int, m2: int)
    requires
        rot_eq(s, x, y, m2),
        m1 <= m2,
    ensures
        rot_eq(s, x, y, m1),
{
}

/// An order decided on a shorter stretch stands on each longer one.
pub proof fn lemma_rot_lt_longer(s: Seq<u8>, x: int, y: int, m1: int, m2: int)
    requires
        rot_lt(s, x, y, m1),
        m1 <= m2,
    ensures
        rot_lt(s, x, y, m2),
{
    let k = choose|k: int| 0 <= k < m1 && rot_at(s, x, k) < rot_at(s, y, k) && rot_eq(s, x, y, k);
    assert(0 <= k < m2 && rot_at(s, x, k) < rot_at(s, y, k) && rot_eq(s, x, y, k));
}

/// Two stretches that agree make one stretch that agrees.
pub proof fn lemma_rot_eq_join(s: Seq<u8>, x: int, y: int, m1: int, m2: int)
    requires
        0 < s.len(),
        0 <= m1,
        rot_eq(s, x, y, m1),
        rot_eq(s, (x + m1) % (s.len() as int), (y + m1) % (s.len() as int), m2),
    ensures
        rot_eq(s, x, y, m1 + m2),
{
    let n = s.len() as int;
    assert forall|k: int| 0 <= k < m1 + m2 implies rot_at(s, x, k) == rot_at(s, y, k) by {
        if k >= m1 {
            lemma_rot_shift(s, x, m1, k - m1);
            lemma_rot_shift(s, y, m1, k - m1);
            assert(rot_at(s, (x + m1) % n, k - m1) == rot_at(s, (y + m1) % n, k - m1));
        }
    }
}

/// After a stretch that agrees, the order of what follows is the order of
/// the whole.
pub proof fn lemma_rot_lt_join(s: Seq<u8>, x: int, y: int, m1: int, m2: int)
    requires
        0 < s.len(),
        0 <= m1,
        rot_eq(s, x, y, m1),
        rot_lt(s, (x + m1) % (s.len() as int), (y + m1) % (s.len() as int), m2),
    ensures
        rot_lt(s, x, y, m1 + m2),
{
    let n = s.len() as int;
    let xs = (x + m1) % n;
    let ys = (y + m1) % n;
    let k = choose|k: int| 0 <= k < m2 && rot_at(s, xs, k) < rot_at(s, ys, k) && rot_eq(s, xs, ys, k);
    lemma_rot_eq_join(s, x, y, m1, k);
    lemma_rot_shift(s, x, m1, k);
    lemma_rot_shift(s, y, m1, k);
    assert(0 <= m1 + k < m1 + m2 && rot_at(s, x, m1 + k) < rot_at(s, y, m1 + k) && rot_eq(
        s,
        x,
        y,
        m1 + k,
    ));
}

/// Rotations that agree on a whole turn agree on every stretch.
pub proof fn lemma_rot_eq_turn(s: Seq<u8>, x: int, y: int, m: int)
    requires
        0 < s.len(),
        rot_eq(s, x, y, s.len() as int),
    ensures
        rot_eq(s, x, y, m),
{
    let n = s.len() as int;
    assert forall|k: int| 0 <= k < m implies rot_at(s, x, k) == rot_at(s, y, k) by {
        lemma_rot_wrap(s, x, k);
        lemma_rot_wrap(s, y, k);
        lemma_mod_pos_bound(k, n);
        assert(rot_at(s, x, k % n) == rot_at(s, y, k % n));
    }
}

/// An order decided on a stretch of a turn or more is decided within the
/// first turn.
pub proof fn lemma_rot_lt_turn(s: Seq<u8>, x: int, y: int, m: int)
    requires
        0 < s.len(),
        rot_lt(s, x, y, m),
    ensures
        rot_lt(s, x, y, s.len() as int),
{
    let n = s.len() as int;
    let k = choose|k: int| 0 <= k < m && rot_at(s, x, k) < rot_at(s, y, k) && rot_eq(s, x, y, k);
    if k >= n {
        lemma_rot_eq_shorter(s, x, y, n, k);
        lemma_rot_eq_turn(s, x, y, k + 1);
        assert(rot_at(s, x, k) == rot_at(s, y, k));
    }
}

/// Of two rotations one comes first, or they agree.
pub proof fn lemma_rot_total(s: Seq<u8>, x: int, y: int, m: int)
    requires
        0 <= m,
    ensures
        rot_lt(s, x, y, m) || rot_lt(s, y, x, m) || rot_eq(s, x, y, m),
    decreases m,
{
    if m > 0 {
        lemma_rot_total(s, x, y, m - 1);
        if rot_eq(s, x, y, m - 1) {
            if rot_at(s, x, m - 1) < rot_at(s, y, m - 1) {
                assert(0 <= m - 1 < m && rot_at(s, x, m - 1) < rot_at(s, y, m - 1) && rot_eq(
                    s,
                    x,
                    y,
                    m - 1,
                ));
            } else if rot_at(s, y, m - 1) < rot_at(s, x, m - 1) {
                assert(rot_eq(s, y, x, m - 1));
                assert(0 <= m - 1 < m && rot_at(s, y, m - 1) < rot_at(s, x, m - 1) && rot_eq(
                    s,
                    y,
                    x,
                    m - 1,
                ));
            } else {
                assert forall|k: int| 0 <= k < m implies rot_at(s, x, k) == rot_at(s, y, k) by {
                    if k < m - 1 {
                    }
                }
            }
        } else if rot_lt(s, x, y, m - 1) {
            lemma_rot_lt_longer(s, x, y, m - 1, m);
        } else {
            lemma_rot_lt_longer(s, y, x, m - 1, m);
        }
    }
}

/// A rotation that comes first neither agrees nor comes second.
pub proof fn lemma_rot_lt_excludes(s: Seq<u8>, x: int, y: int, m: int)
    requires
        rot_lt(s, x, y, m),
    ensures
        !rot_eq(s, x, y, m),
        !rot_lt(s, y, x, m),
{
    let k = choose|k: int| 0 <= k < m && rot_at(s, x, k) < rot_at(s, y, k) && rot_eq(s, x, y, k);
    if rot_eq(s, x, y, m) {
        assert(rot_at(s, x, k) == rot_at(s, y, k));
    }
    if rot_lt(s, y, x, m) {
        let k2 = choose|k2: int|
            0 <= k2 < m && rot_at(s, y, k2) < rot_at(s, x, k2) && rot_eq(s, y, x, k2);
        if k2 < k {
            assert(rot_at(s, x, k2) == rot_at(s, y, k2));
        } else if k < k2 {
            assert(rot_at(s, y, k) == rot_at(s, x, k));
        }
    }
}

/// The order of rotations is transitive, also through agreement.
pub proof fn lemma_rot_lt_trans(s: Seq<u8>, x: int, y: int, z: int, m: int)
    requires
        rot_lt(s, x, y, m) || rot_eq(s, x, y, m),
        rot_lt(s, y, z, m) || rot_eq(s, y, z, m),
    ensures
        rot_lt(s, x, z, m) || rot_eq(s, x, z, m),
        rot_lt(s, x, y, m) || rot_lt(s, y, z, m) ==> rot_lt(s, x, z, m),
{
    if rot_lt(s, x, y, m) {
        let k = choose|k: int|
            0 <= k < m && rot_at(s, x, k) < rot_at(s, y, k) && rot_eq(s, x, y, k);
        if rot_lt(s, y, z, m) {
            let k2 = choose|k2: int|
                0 <= k2 < m && rot_at(s, y, k2) < rot_at(s, z, k2) && rot_eq(s, y, z, k2);
            if k <= k2 {
                assert(rot_eq(s, x, z, k)) by {
                    assert forall|i: int| 0 <= i < k implies rot_at(s, x, i) == rot_at(s, z, i) by {
                        assert(rot_at(s, x, i) == rot_at(s, y, i));
                        assert(rot_at(s, y, i) == rot_at(s, z, i));
                    }
                }
                assert(0 <= k < m && rot_at(s, x, k) < rot_at(s, z, k) && rot_eq(s, x, z, k));
            } else {
                assert(rot_eq(s, x, z, k2)) by {
                    assert forall|i: int| 0 <= i < k2 implies rot_at(s, x, i) == rot_at(
                        s,
                        z,
                        i,
                    ) by {
                        assert(rot_at(s, x, i) == rot_at(s, y, i));
                        assert(rot_at(s, y, i) == rot_at(s, z, i));
                    }
                }
                assert(rot_at(s, x, k2) == rot_at(s, y, k2));
                assert(0 <= k2 < m && rot_at(s, x, k2) < rot_at(s, z, k2) && rot_eq(s, x, z, k2));
            }
        } else {
            assert(rot_eq(s, x, z, k)) by {
                assert forall|i: int| 0 <= i < k implies rot_at(s, x, i) == rot_at(s, z, i) by {
                    assert(rot_at(s, x, i) == rot_at(s, y, i));
                    assert(rot_at(s, y, i) == rot_at(s, z, i));
                }
            }
            assert(rot_at(s, y, k) == rot_at(s, z, k));
            assert(0 <= k < m && rot_at(s, x, k) < rot_at(s, z, k) && rot_eq(s, x, z, k));
        }
    } else {
        if rot_lt(s, y, z, m) {
            let k2 = choose|k2: int|
                0 <= k2 < m && rot_at(s, y, k2) < rot_at(s, z, k2) && rot_eq(s, y, z, k2);
            assert(rot_eq(s, x, z, k2)) by {
                assert forall|i: int| 0 <= i < k2 implies rot_at(s, x, i) == rot_at(s, z, i) by {
                    assert(rot_at(s, x, i) == rot_at(s, y, i));
                    assert(rot_at(s, y, i) == rot_at(s, z, i));
                }
            }
            assert(rot_at(s, x, k2) == rot_at(s, y, k2));
            assert(0 <= k2 < m && rot_at(s, x, k2) < rot_at(s, z, k2) && rot_eq(s, x, z, k2));
        } else {
            assert forall|i: int| 0 <= i < m implies rot_at(s, x, i) == rot_at(s, z, i) by {
                assert(rot_at(s, x, i) == rot_at(s, y, i));
                assert(rot_at(s, y, i) == rot_at(s, z, i));
            }
        }
    }
}

} // verus!
