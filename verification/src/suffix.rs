//! The order of the cyclic rotations of a block, by prefix doubling: a
//! counting sort on single bytes, then passes that each double the number of
//! leading bytes by which the rotations are ordered.

use crate::rotation::{
    full_reach, is_index_order, is_rotation_order, lemma_index_order_onto, lemma_mod_shift,
    lemma_rot_eq_join, lemma_rot_eq_shorter, lemma_rot_lt_join, lemma_rot_lt_longer,
    lemma_rot_lt_turn, reach_from, rot_at, rot_eq, rot_lt, tie_rank,
};
use crate::stable::{keys_of, lemma_slot_onto, lemma_source_order, sort_by_class, stable_source};
use vstd::arithmetic::div_mod::*;
use vstd::prelude::*;

verus! {

/// The pair of classes of position `x`, one at `x` and one `shift` bytes
/// later, comes before that of `y`.
pub open spec fn pair_lt(c: Seq<usize>, shift: int, x: int, y: int) -> bool {
    let n = c.len() as int;
    c[x] < c[y] || (c[x] == c[y] && c[(x + shift) % n] < c[(y + shift) % n])
}

/// The pairs of classes of `x` and of `y` are equal.
pub open spec fn pair_eq(c: Seq<usize>, shift: int, x: int, y: int) -> bool {
    let n = c.len() as int;
    c[x] == c[y] && c[(x + shift) % n] == c[(y + shift) % n]
}

/// The classes `c` order the rotations of `s` as their first `m` bytes do.
pub open spec fn classes_rank(s: Seq<u8>, c: Seq<usize>, m: int) -> bool {
    &&& c.len() == s.len()
    &&& forall|x: int, y: int|
        #![trigger c[x], c[y]]
        0 <= x < s.len() && 0 <= y < s.len() ==> (c[x] < c[y] ==> rot_lt(s, x, y, m)) && (c[x]
            == c[y] ==> rot_eq(s, x, y, m))
}

/// `p` lists positions by rising class, positions of one class by falling
/// tie rank.
pub open spec fn order_by_class(c: Seq<usize>, p: Seq<usize>, reach: int) -> bool {
    let n = p.len() as int;
    forall|i: int, j: int|
        #![trigger p[i], p[j]]
        0 <= i < j < n ==> c[p[i] as int] < c[p[j] as int] || (c[p[i] as int] == c[p[j] as int]
            && tie_rank(n, reach, p[i] as int) > tie_rank(n, reach, p[j] as int))
}

/// `p` lists positions by rising pair of classes, positions of one pair by
/// falling tie rank.
pub open spec fn order_by_pair(c: Seq<usize>, p: Seq<usize>, shift: int, reach: int) -> bool {
    let n = p.len() as int;
    forall|i: int, j: int|
        #![trigger p[i], p[j]]
        0 <= i < j < n ==> pair_lt(c, shift, p[i] as int, p[j] as int) || (pair_eq(
            c,
            shift,
            p[i] as int,
            p[j] as int,
        ) && tie_rank(n, reach, p[i] as int) > tie_rank(n, reach, p[j] as int))
}

/// The classes `cn` order positions as the pairs of classes of `c` do.
pub open spec fn classes_follow_pairs(c: Seq<usize>, cn: Seq<usize>, shift: int) -> bool {
    forall|x: int, y: int|
        #![trigger cn[x], cn[y]]
        0 <= x < c.len() && 0 <= y < c.len() ==> (cn[x] < cn[y] ==> pair_lt(c, shift, x, y)) && (
        cn[x] == cn[y] ==> pair_eq(c, shift, x, y))
}

/// The position `shift` bytes after `x`, around the end of the block.
fn add_wrap(x: usize, shift: usize, n: usize) -> (r: usize)
    requires
        x < n,
        shift < n,
    ensures
        r == (x + shift) % (n as int),
        r < n,
{
    if x >= n - shift {
        proof {
            let b = x + shift - n;
            lemma_mod_add_multiples_vanish(b, n as int);
            lemma_small_mod(b as nat, n as nat);
        }
        x - (n - shift)
    } else {
        proof {
            lemma_small_mod((x + shift) as nat, n as nat);
        }
        x + shift
    }
}

/// The position `shift` bytes before `x`, around the start of the block.
fn sub_wrap(x: usize, shift: usize, n: usize) -> (r: usize)
    requires
        x < n,
        shift < n,
    ensures
        r < n,
        (r + shift) % (n as int) == x,
{
    if x >= shift {
        proof {
            lemma_small_mod(x as nat, n as nat);
        }
        x - shift
    } else {
        proof {
            lemma_mod_add_multiples_vanish(x as int, n as int);
            lemma_small_mod(x as nat, n as nat);
        }
        x + (n - shift)
    }
}

/// Numbers the pairs of classes along `p`, which lists them in rising order:
/// equal pairs get one number, a greater pair the next number.
fn refine_classes(p: &Vec<usize>, c: &Vec<usize>, shift: usize) -> (res: (Vec<usize>, usize))
    requires
        p.len() > 0,
        c.len() == p.len(),
        shift < p.len(),
        is_index_order(p@),
        forall|i: int, j: int|
            #![trigger p[i], p[j]]
            0 <= i < j < p.len() ==> pair_lt(c@, shift as int, p[i] as int, p[j] as int)
                || pair_eq(c@, shift as int, p[i] as int, p[j] as int),
    ensures
        res.0.len() == p.len(),
        1 <= res.1 <= p.len(),
        forall|x: int| 0 <= x < p.len() ==> res.0[x] < res.1,
        classes_follow_pairs(c@, res.0@, shift as int),
        forall|i: int, j: int|
            #![trigger p[i], p[j]]
            0 <= i <= j < p.len() ==> res.0[p[i] as int] <= res.0[p[j] as int],
{
    let n = p.len();
    let mut cn: Vec<usize> = Vec::new();
    let mut k: usize = 0;
    while k < n
        invariant
            k <= n,
            cn.len() == k,
        decreases n - k,
    {
        cn.push(0);
        k += 1;
    }
    let mut classes: usize = 1;
    cn.set(p[0], 0);
    let mut i: usize = 1;
    while i < n
        invariant
            1 <= i <= n,
            n == p.len(),
            c.len() == n,
            cn.len() == n,
            shift < n,
            is_index_order(p@),
            forall|a: int, b: int|
                #![trigger p[a], p[b]]
                0 <= a < b < n ==> pair_lt(c@, shift as int, p[a] as int, p[b] as int) || pair_eq(
                    c@,
                    shift as int,
                    p[a] as int,
                    p[b] as int,
                ),
            1 <= classes <= i,
            cn[p[i - 1] as int] == classes - 1,
            forall|a: int, b: int|
                #![trigger p[a], p[b]]
                0 <= a <= b < i ==> cn[p[a] as int] <= cn[p[b] as int] && (cn[p[a] as int]
                    == cn[p[b] as int] ==> pair_eq(c@, shift as int, p[a] as int, p[b] as int))
                    && (cn[p[a] as int] < cn[p[b] as int] ==> pair_lt(
                    c@,
                    shift as int,
                    p[a] as int,
                    p[b] as int,
                )),
        decreases n - i,
    {
        let cur = p[i];
        let prev = p[i - 1];
        let cur_far = add_wrap(cur, shift, n);
        let prev_far = add_wrap(prev, shift, n);
        if c[cur] != c[prev] || c[cur_far] != c[prev_far] {
            classes += 1;
        }
        let ghost before = cn@;
        cn.set(cur, classes - 1);
        proof {
            assert(p[i - 1] != p[i as int]);
            assert forall|a: int, b: int|
                #![trigger p[a], p[b]]
                0 <= a <= b < i + 1 implies cn[p[a] as int] <= cn[p[b] as int] && (cn[p[a] as int]
                == cn[p[b] as int] ==> pair_eq(c@, shift as int, p[a] as int, p[b] as int)) && (
            cn[p[a] as int] < cn[p[b] as int] ==> pair_lt(
                c@,
                shift as int,
                p[a] as int,
                p[b] as int,
            )) by {
                if a < i {
                    assert(p[a] != p[i as int]);
                    assert(cn[p[a] as int] == before[p[a] as int]);
                }
                if b < i {
                    assert(p[b] != p[i as int]);
                    assert(cn[p[b] as int] == before[p[b] as int]);
                } else if a < i {
                    assert(before[p[a] as int] <= before[p[i - 1] as int]);
                    assert(pair_lt(c@, shift as int, p[i - 1] as int, p[i as int] as int)
                        || pair_eq(c@, shift as int, p[i - 1] as int, p[i as int] as int));
                }
            }
        }
        i += 1;
    }
    proof {
        assert forall|x: int| 0 <= x < p.len() implies cn[x] < classes by {
            lemma_index_order_onto(p@, x);
            let a = choose|a: int| 0 <= a < p.len() && p[a] == x;
            assert(cn[p[a] as int] <= cn[p[n - 1] as int]);
        }
        assert forall|x: int, y: int|
            #![trigger cn[x], cn[y]]
            0 <= x < c.len() && 0 <= y < c.len() implies (cn[x] < cn[y] ==> pair_lt(
            c@,
            shift as int,
            x,
            y,
        )) && (cn[x] == cn[y] ==> pair_eq(c@, shift as int, x, y)) by {
            lemma_index_order_onto(p@, x);
            lemma_index_order_onto(p@, y);
            let a = choose|a: int| 0 <= a < p.len() && p[a] == x;
            let b = choose|b: int| 0 <= b < p.len() && p[b] == y;
            if a <= b {
                assert(cn[p[a] as int] <= cn[p[b] as int]);
            } else {
                assert(cn[p[b] as int] <= cn[p[a] as int]);
            }
        }
    }
    (cn, classes)
}

/// A stable sort by class of the positions that stand `span` bytes before
/// those of a list ordered by class orders them by pair of classes.
proof fn lemma_step_order(
    c: Seq<usize>,
    p: Seq<usize>,
    pn: Seq<usize>,
    pnext: Seq<usize>,
    span: int,
)
    requires
        p.len() > 0,
        0 < span < p.len(),
        c.len() == p.len(),
        pn.len() == p.len(),
        pnext.len() == p.len(),
        is_index_order(p),
        order_by_class(c, p, span),
        forall|i: int|
            0 <= i < p.len() ==> #[trigger] pn[i] < p.len() && (pn[i] + span) % (p.len() as int)
                == p[i],
        forall|q: int| 0 <= q < p.len() ==> #[trigger] pnext[q] == pn[stable_source(keys_of(pn, c), q)],
    ensures
        is_index_order(pnext),
        order_by_pair(c, pnext, span, 2 * span),
{
    let n = p.len() as int;
    let keys = keys_of(pn, c);
    assert forall|i: int, j: int| 0 <= i < n && 0 <= j < n && i != j implies pn[i] != pn[j] by {
        assert(p[i] != p[j]);
    }
    assert forall|q: int| 0 <= q < n implies 0 <= #[trigger] pnext[q] < n by {
        lemma_slot_onto(keys, q);
    }
    assert forall|q1: int, q2: int| 0 <= q1 < n && 0 <= q2 < n && q1 != q2 implies #[trigger] pnext[q1]
        != #[trigger] pnext[q2] by {
        lemma_slot_onto(keys, q1);
        lemma_slot_onto(keys, q2);
    }
    assert forall|q1: int, q2: int|
        #![trigger pnext[q1], pnext[q2]]
        0 <= q1 < q2 < n implies pair_lt(c, span, pnext[q1] as int, pnext[q2] as int) || (pair_eq(
        c,
        span,
        pnext[q1] as int,
        pnext[q2] as int,
    ) && tie_rank(n, 2 * span, pnext[q1] as int) > tie_rank(n, 2 * span, pnext[q2] as int)) by {
        lemma_slot_onto(keys, q1);
        lemma_slot_onto(keys, q2);
        lemma_source_order(keys, q1, q2);
        let o1 = stable_source(keys, q1);
        let o2 = stable_source(keys, q2);
        let a = pn[o1] as int;
        let b = pn[o2] as int;
        assert(keys[o1] == c[a]);
        assert(keys[o2] == c[b]);
        assert(pnext[q1] == a);
        assert(pnext[q2] == b);
        if c[a] == c[b] {
            assert(o1 < o2);
            assert(p[o1] == (a + span) % n);
            assert(p[o2] == (b + span) % n);
            lemma_mod_shift(a + span, span - 1, n);
            lemma_mod_shift(b + span, span - 1, n);
            assert(tie_rank(n, span, p[o1] as int) == tie_rank(n, 2 * span, a));
            assert(tie_rank(n, span, p[o2] as int) == tie_rank(n, 2 * span, b));
        }
    }
}

/// Classes that follow the pairs of classes for `span` bytes rank the
/// rotations by twice as many bytes.
proof fn lemma_step_classes(s: Seq<u8>, c: Seq<usize>, cn: Seq<usize>, span: int)
    requires
        0 < s.len(),
        0 < span,
        classes_rank(s, c, span),
        cn.len() == s.len(),
        classes_follow_pairs(c, cn, span),
    ensures
        classes_rank(s, cn, 2 * span),
{
    let n = s.len() as int;
    assert forall|x: int, y: int|
        #![trigger cn[x], cn[y]]
        0 <= x < n && 0 <= y < n implies (cn[x] < cn[y] ==> rot_lt(s, x, y, 2 * span)) && (cn[x]
        == cn[y] ==> rot_eq(s, x, y, 2 * span)) by {
        let xs = (x + span) % n;
        let ys = (y + span) % n;
        lemma_mod_pos_bound(x + span, n);
        lemma_mod_pos_bound(y + span, n);
        assert(c[x] < c[y] ==> rot_lt(s, x, y, span));
        assert(c[x] == c[y] ==> rot_eq(s, x, y, span));
        assert(c[xs] < c[ys] ==> rot_lt(s, xs, ys, span));
        assert(c[xs] == c[ys] ==> rot_eq(s, xs, ys, span));
        if cn[x] < cn[y] {
            assert(pair_lt(c, span, x, y));
            if c[x] < c[y] {
                lemma_rot_lt_longer(s, x, y, span, 2 * span);
            } else {
                lemma_rot_lt_join(s, x, y, span, span);
            }
        }
        if cn[x] == cn[y] {
            assert(pair_eq(c, span, x, y));
            lemma_rot_eq_join(s, x, y, span, span);
        }
    }
}

/// Once classes number the pairs along a list ordered by pair, the list is
/// ordered by class.
proof fn lemma_order_after_refine(
    c: Seq<usize>,
    cn: Seq<usize>,
    p: Seq<usize>,
    shift: int,
    reach: int,
)
    requires
        c.len() == p.len(),
        cn.len() == p.len(),
        is_index_order(p),
        order_by_pair(c, p, shift, reach),
        classes_follow_pairs(c, cn, shift),
        forall|i: int, j: int|
            #![trigger p[i], p[j]]
            0 <= i <= j < p.len() ==> cn[p[i] as int] <= cn[p[j] as int],
    ensures
        order_by_class(cn, p, reach),
{
    let n = p.len() as int;
    assert forall|i: int, j: int|
        #![trigger p[i], p[j]]
        0 <= i < j < n implies cn[p[i] as int] < cn[p[j] as int] || (cn[p[i] as int] == cn[p[j] as int]
        && tie_rank(n, reach, p[i] as int) > tie_rank(n, reach, p[j] as int)) by {
        assert(cn[p[i] as int] <= cn[p[j] as int]);
        assert(0 <= p[i] < n && 0 <= p[j] < n);
        if cn[p[i] as int] == cn[p[j] as int] {
            assert(pair_eq(c, shift, p[i] as int, p[j] as int));
        }
    }
}

/// The start positions of the cyclic rotations of `buffer`, in ascending
/// order of the rotations.
pub fn sort_cyclic_shifts(buffer: &[u8]) -> (p: Vec<usize>)
    ensures
        is_rotation_order(buffer@, p@),
{
    let n = buffer.len();
    if n == 0 {
        return Vec::new();
    }
    let ghost s = buffer@;
    let mut bytes: Vec<usize> = Vec::new();
    let mut falling: Vec<usize> = Vec::new();
    let mut i: usize = 0;
    while i < n
        invariant
            i <= n,
            n == buffer.len(),
            bytes.len() == i,
            falling.len() == i,
            forall|j: int| 0 <= j < i ==> bytes[j] == buffer[j],
            forall|j: int| 0 <= j < i ==> falling[j] == n - 1 - j,
        decreases n - i,
    {
        bytes.push(buffer[i] as usize);
        falling.push(n - 1 - i);
        i += 1;
    }
    let mut p = sort_by_class(&falling, &bytes, 256);
    proof {
        let keys = keys_of(falling@, bytes@);
        assert forall|q: int| 0 <= q < n implies 0 <= #[trigger] p[q] < n by {
            lemma_slot_onto(keys, q);
        }
        assert forall|q1: int, q2: int| 0 <= q1 < n && 0 <= q2 < n && q1 != q2 implies #[trigger] p[q1]
            != #[trigger] p[q2] by {
            lemma_slot_onto(keys, q1);
            lemma_slot_onto(keys, q2);
        }
        assert forall|q1: int, q2: int|
            #![trigger p[q1], p[q2]]
            0 <= q1 < q2 < n implies pair_lt(bytes@, 0, p[q1] as int, p[q2] as int) || (pair_eq(
            bytes@,
            0,
            p[q1] as int,
            p[q2] as int,
        ) && tie_rank(n as int, 1, p[q1] as int) > tie_rank(n as int, 1, p[q2] as int)) by {
            lemma_slot_onto(keys, q1);
            lemma_slot_onto(keys, q2);
            lemma_source_order(keys, q1, q2);
            let o1 = stable_source(keys, q1);
            let o2 = stable_source(keys, q2);
            assert(keys[o1] == bytes[p[q1] as int]);
            assert(keys[o2] == bytes[p[q2] as int]);
            lemma_small_mod(p[q1] as nat, n as nat);
            lemma_small_mod(p[q2] as nat, n as nat);
        }
    }
    let (mut c, mut classes) = refine_classes(&p, &bytes, 0);
    proof {
        lemma_order_after_refine(bytes@, c@, p@, 0, 1);
        assert forall|x: int, y: int|
            #![trigger c[x], c[y]]
            0 <= x < n && 0 <= y < n implies (c[x] < c[y] ==> rot_lt(s, x, y, 1)) && (c[x] == c[y]
            ==> rot_eq(s, x, y, 1)) by {
            lemma_small_mod(x as nat, n as nat);
            lemma_small_mod(y as nat, n as nat);
            assert(rot_at(s, x, 0) == s[x]);
            assert(rot_at(s, y, 0) == s[y]);
            if c[x] < c[y] {
                assert(pair_lt(bytes@, 0, x, y));
                assert(rot_eq(s, x, y, 0));
                assert(0 <= 0 < 1 && rot_at(s, x, 0) < rot_at(s, y, 0) && rot_eq(s, x, y, 0));
            }
            if c[x] == c[y] {
                assert(pair_eq(bytes@, 0, x, y));
            }
        }
    }
    let mut span: usize = 1;
    let ghost mut reach: int = 1;
    while span < n
        invariant
            n == buffer.len(),
            s == buffer@,
            n > 0,
            p.len() == n,
            c.len() == n,
            is_index_order(p@),
            forall|x: int| 0 <= x < n ==> c[x] < classes,
            classes_rank(s, c@, reach),
            order_by_class(c@, p@, reach),
            1 <= span <= n,
            span < n ==> reach == span,
            span >= n ==> reach >= n,
            reach_from(reach, n as int) == full_reach(n as int),
        decreases n - span,
    {
        let mut pn: Vec<usize> = Vec::new();
        let mut i: usize = 0;
        while i < n
            invariant
                i <= n,
                n == p.len(),
                0 < span < n,
                pn.len() == i,
                is_index_order(p@),
                forall|j: int|
                    0 <= j < i ==> #[trigger] pn[j] < n && (pn[j] + span) % (n as int) == p[j],
            decreases n - i,
        {
            pn.push(sub_wrap(p[i], span, n));
            i += 1;
        }
        let pnext = sort_by_class(&pn, &c, classes);
        proof {
            lemma_step_order(c@, p@, pn@, pnext@, span as int);
        }
        let (cn, count) = refine_classes(&pnext, &c, span);
        proof {
            lemma_step_classes(s, c@, cn@, span as int);
            lemma_order_after_refine(c@, cn@, pnext@, span as int, 2 * span);
            reach = 2 * reach;
        }
        p = pnext;
        c = cn;
        classes = count;
        if span >= n - span {
            span = n;
        } else {
            span = span + span;
        }
    }
    proof {
        assert(reach == full_reach(n as int));
        assert forall|i: int, j: int| 0 <= i < j < n implies rot_lt(
            s,
            #[trigger] p[i] as int,
            #[trigger] p[j] as int,
            n as int,
        ) || (rot_eq(s, p[i] as int, p[j] as int, n as int) && tie_rank(
            n as int,
            full_reach(n as int),
            p[i] as int,
        ) > tie_rank(n as int, full_reach(n as int), p[j] as int)) by {
            let x = p[i] as int;
            let y = p[j] as int;
            assert(0 <= x < n && 0 <= y < n);
            assert(c[x] < c[y] ==> rot_lt(s, x, y, reach));
            assert(c[x] == c[y] ==> rot_eq(s, x, y, reach));
            if c[x] < c[y] {
                lemma_rot_lt_turn(s, x, y, reach);
            } else {
                lemma_rot_eq_shorter(s, x, y, n as int, reach);
            }
        }
    }
    p
}

} // verus!
