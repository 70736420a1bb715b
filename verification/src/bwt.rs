//! The Burrows-Wheeler transform of a block and its inverse.

use crate::result::{Error, ErrorKind};
use crate::rotation::{
    is_index_order, is_rotation_order, lemma_index_order_onto, lemma_mod_shift, lemma_rot_eq_join,
    lemma_rot_eq_shorter, lemma_rot_eq_turn, lemma_rot_lt_excludes, lemma_rot_lt_join,
    lemma_rot_lt_trans, lemma_rot_lt_turn, lemma_rot_shift, lemma_rot_total, rot_at, rot_eq,
    rot_lt, full_reach, tie_rank,
};
use crate::stable::{
    injective_into, keys_of, lemma_pigeonhole, lemma_pigeonhole_onto, lemma_slot_onto,
    lemma_source_order, sort_by_class, stable_source,
};
use crate::suffix::sort_cyclic_shifts;
use vstd::arithmetic::div_mod::*;
use vstd::prelude::*;

verus! {

/// The last bytes of the rotations of `s`, in the order `p` of the rotations:
/// for each rotation the byte that stands before its start.
pub open spec fn last_column(s: Seq<u8>, p: Seq<usize>) -> Seq<u8> {
    Seq::new(s.len(), |k: int| s[(p[k] + s.len() - 1) % (s.len() as int)])
}

/// The order of the rotations of `s`.
pub open spec fn rotation_order(s: Seq<u8>) -> Seq<usize> {
    choose|p: Seq<usize>| is_rotation_order(s, p)
}

/// The last column of the sorted rotations of `s`.
pub open spec fn transform(s: Seq<u8>) -> Seq<u8> {
    last_column(s, rotation_order(s))
}

/// The place, among the sorted rotations of `s`, of the rotation that starts
/// at the first byte of `s`.
pub open spec fn primary_index(s: Seq<u8>) -> int {
    choose|k: int| 0 <= k < s.len() && rotation_order(s)[k] == 0
}

/// The bytes of a block as sort keys.
pub open spec fn byte_keys(last: Seq<u8>) -> Seq<int> {
    Seq::new(last.len(), |i: int| last[i] as int)
}

/// Where the inverse transform stands after `steps` steps from `start`: each
/// step goes from a place in the sorted bytes of `last` to the place in `last`
/// that the same byte came from.
pub open spec fn walk_at(last: Seq<u8>, start: int, steps: nat) -> int
    decreases steps,
{
    if steps == 0 {
        start
    } else {
        stable_source(byte_keys(last), walk_at(last, start, (steps - 1) as nat))
    }
}

/// The block of which `last` is the last column and `primary` the primary
/// index: the bytes met on a walk of as many steps as the block has bytes.
pub open spec fn inverse_transform(last: Seq<u8>, primary: int) -> Seq<u8> {
    Seq::new(last.len(), |t: int| last[walk_at(last, primary, (t + 1) as nat)])
}

/// `x` stands before `y` in the order of the rotations of `s`, or is `y`.
pub open spec fn stands_before(s: Seq<u8>, x: int, y: int) -> bool {
    let n = s.len() as int;
    x == y || rot_lt(s, x, y, n) || (rot_eq(s, x, y, n) && tie_rank(n, full_reach(n), x)
        > tie_rank(n, full_reach(n), y))
}

/// The rotation at `x` is at most the rotation at `y`.
pub open spec fn rot_le(s: Seq<u8>, x: int, y: int) -> bool {
    rot_lt(s, x, y, s.len() as int) || rot_eq(s, x, y, s.len() as int)
}

/// Two lists of all positions, both rising in one total order that is
/// transitive, hold at each place items of which the first list's is at most
/// the second's.
pub proof fn lemma_sorted_lists_agree(
    p: Seq<usize>,
    second: Seq<usize>,
    le: spec_fn(int, int) -> bool,
    q: int,
)
    requires
        is_index_order(p),
        is_index_order(second),
        p.len() == second.len(),
        0 <= q < p.len(),
        forall|x: int, y: int|
            0 <= x < p.len() && 0 <= y < p.len() ==> #[trigger] le(x, y) || le(y, x),
        forall|x: int, y: int, z: int|
            #![trigger le(x, y), le(y, z)]
            0 <= x < p.len() && 0 <= y < p.len() && 0 <= z < p.len() && le(x, y) && le(y, z)
                ==> le(x, z),
        forall|i: int, j: int| 0 <= i <= j < p.len() ==> le(#[trigger] p[i] as int, #[trigger] p[j] as int),
        forall|i: int, j: int|
            0 <= i <= j < p.len() ==> le(#[trigger] second[i] as int, #[trigger] second[j] as int),
    ensures
        le(p[q] as int, second[q] as int),
{
    let n = p.len() as int;
    let x = p[q] as int;
    let y = second[q] as int;
    if !le(x, y) {
        assert(le(x, y) || le(y, x));
        // each of the first q + 1 items of second stands in p before place q
        let g = Seq::new(
            (q + 1) as nat,
            |i: int| choose|j: int| 0 <= j < n && p[j] == second[i],
        );
        assert forall|i: int| 0 <= i < g.len() implies 0 <= #[trigger] g[i] < q by {
            lemma_index_order_onto(p, second[i] as int);
            let j = g[i];
            assert(0 <= j < n && p[j] == second[i]);
            if j >= q {
                assert(le(p[q] as int, p[j] as int));
                assert(le(second[i] as int, second[q] as int));
                assert(le(x, second[i] as int) && le(second[i] as int, y));
            }
        }
        assert forall|i: int, j: int|
            0 <= i < g.len() && 0 <= j < g.len() && i != j implies g[i] != g[j] by {
            lemma_index_order_onto(p, second[i] as int);
            lemma_index_order_onto(p, second[j] as int);
            assert(p[g[i]] == second[i]);
            assert(p[g[j]] == second[j]);
            assert(second[i] != second[j]);
        }
        assert(injective_into(g, q));
        lemma_pigeonhole(g, q);
    }
}

/// The tie rank tells positions apart.
pub proof fn lemma_tie_rank_distinct(n: int, reach: int, x: int, y: int)
    requires
        0 <= x < n,
        0 <= y < n,
        1 <= reach,
        x != y,
    ensures
        tie_rank(n, reach, x) != tie_rank(n, reach, y),
{
    let r = reach - 1;
    if (x + r) % n == (y + r) % n {
        lemma_fundamental_div_mod(x + r, n);
        lemma_fundamental_div_mod(y + r, n);
        let a = (x + r) / n;
        let b = (y + r) / n;
        assert(x - y == n * a - n * b);
        assert(n * a - n * b == n * (a - b)) by (nonlinear_arith);
        if a > b {
            assert(n * (a - b) >= n) by (nonlinear_arith)
                requires
                    a - b >= 1,
                    n > 0,
            ;
        } else if a < b {
            assert(n * (a - b) <= -n) by (nonlinear_arith)
                requires
                    a - b <= -1,
                    n > 0,
            ;
        }
    }
}

/// Doubling a positive length never reaches below one.
pub proof fn lemma_full_reach_positive(start: int, n: int)
    requires
        1 <= start,
    ensures
        1 <= crate::rotation::reach_from(start, n),
    decreases
        if start < n {
            n - start
        } else {
            0
        },
{
    if start < n {
        lemma_full_reach_positive(start + start, n);
    }
}

/// The order in which rotations stand is total and transitive.
pub proof fn lemma_stands_before_order(s: Seq<u8>)
    requires
        0 < s.len(),
    ensures
        forall|x: int, y: int|
            0 <= x < s.len() && 0 <= y < s.len() ==> #[trigger] stands_before(s, x, y)
                || stands_before(s, y, x),
        forall|x: int, y: int, z: int|
            #![trigger stands_before(s, x, y), stands_before(s, y, z)]
            0 <= x < s.len() && 0 <= y < s.len() && 0 <= z < s.len() && stands_before(s, x, y)
                && stands_before(s, y, z) ==> stands_before(s, x, z),
        forall|x: int, y: int|
            0 <= x < s.len() && 0 <= y < s.len() && #[trigger] stands_before(s, x, y)
                && stands_before(s, y, x) ==> x == y,
{
    let n = s.len() as int;
    let r = full_reach(n);
    lemma_full_reach_positive(1, n);
    assert forall|x: int, y: int| 0 <= x < s.len() && 0 <= y < s.len() implies #[trigger] stands_before(
        s,
        x,
        y,
    ) || stands_before(s, y, x) by {
        lemma_rot_total(s, x, y, n);
        if x != y {
            lemma_tie_rank_distinct(n, r, x, y);
        }
        if rot_eq(s, x, y, n) {
            assert(rot_eq(s, y, x, n));
        }
    }
    assert forall|x: int, y: int, z: int|
        #![trigger stands_before(s, x, y), stands_before(s, y, z)]
        0 <= x < s.len() && 0 <= y < s.len() && 0 <= z < s.len() && stands_before(s, x, y)
            && stands_before(s, y, z) implies stands_before(s, x, z) by {
        if x != y && y != z {
            lemma_rot_lt_trans(s, x, y, z, n);
        }
    }
    assert forall|x: int, y: int|
        0 <= x < s.len() && 0 <= y < s.len() && #[trigger] stands_before(s, x, y) && stands_before(
            s,
            y,
            x,
        ) implies x == y by {
        if x != y {
            if rot_lt(s, x, y, n) {
                lemma_rot_lt_excludes(s, x, y, n);
                assert(rot_eq(s, y, x, n) ==> rot_eq(s, x, y, n));
            } else if rot_lt(s, y, x, n) {
                lemma_rot_lt_excludes(s, y, x, n);
                assert(rot_eq(s, x, y, n) ==> rot_eq(s, y, x, n));
            }
        }
    }
}

/// A block has one order of its rotations.
pub proof fn lemma_rotation_order_unique(s: Seq<u8>, p: Seq<usize>, second: Seq<usize>)
    requires
        is_rotation_order(s, p),
        is_rotation_order(s, second),
    ensures
        p == second,
{
    let n = s.len() as int;
    if n > 0 {
        lemma_rotation_order_distinct(s, p);
        lemma_rotation_order_distinct(s, second);
        lemma_stands_before_order(s);
        let le = |x: int, y: int| stands_before(s, x, y);
        assert forall|x: int, y: int| 0 <= x < p.len() && 0 <= y < p.len() implies #[trigger] le(
            x,
            y,
        ) || le(y, x) by {
            assert(stands_before(s, x, y) || stands_before(s, y, x));
        }
        assert forall|x: int, y: int, z: int|
            #![trigger le(x, y), le(y, z)]
            0 <= x < p.len() && 0 <= y < p.len() && 0 <= z < p.len() && le(x, y) && le(
                y,
                z,
            ) implies le(x, z) by {
            assert(stands_before(s, x, y) && stands_before(s, y, z));
        }
        assert forall|q: int| 0 <= q < n implies p[q] == second[q] by {
            lemma_sorted_lists_agree(p, second, le, q);
            lemma_sorted_lists_agree(second, p, le, q);
            assert(stands_before(s, p[q] as int, second[q] as int));
            assert(stands_before(s, second[q] as int, p[q] as int));
        }
    }
    assert(p =~= second);
}

/// An order of rotations lists distinct positions.
pub proof fn lemma_rotation_order_distinct(s: Seq<u8>, p: Seq<usize>)
    requires
        is_rotation_order(s, p),
    ensures
        is_index_order(p),
{
    let n = s.len() as int;
    assert forall|i: int, j: int|
        0 <= i < p.len() && 0 <= j < p.len() && i != j implies #[trigger] p[i] != #[trigger] p[j] by {
        if p[i] == p[j] {
            let x = p[i] as int;
            if rot_lt(s, x, x, n) {
                lemma_rot_lt_excludes(s, x, x, n);
                assert(rot_eq(s, x, x, n));
            }
            if i < j {
                assert(rot_lt(s, p[i] as int, p[j] as int, n) || (rot_eq(
                    s,
                    p[i] as int,
                    p[j] as int,
                    n,
                ) && tie_rank(n, full_reach(n), p[i] as int) > tie_rank(
                    n,
                    full_reach(n),
                    p[j] as int,
                )));
            } else {
                assert(rot_lt(s, p[j] as int, p[i] as int, n) || (rot_eq(
                    s,
                    p[j] as int,
                    p[i] as int,
                    n,
                ) && tie_rank(n, full_reach(n), p[j] as int) > tie_rank(
                    n,
                    full_reach(n),
                    p[i] as int,
                )));
            }
        }
    }
}

/// The Burrows-Wheeler transform of a block: the last column of its sorted
/// rotations, and the primary index.
pub fn apply(buffer: &[u8]) -> (res: (Vec<u8>, u32))
    requires
        0 < buffer.len() <= u32::MAX,
    ensures
        res.0@ == transform(buffer@),
        res.1 == primary_index(buffer@),
        0 <= primary_index(buffer@) < buffer.len(),
{
    let n = buffer.len();
    let indices = sort_cyclic_shifts(buffer);
    proof {
        lemma_rotation_order_unique(buffer@, indices@, rotation_order(buffer@));
        lemma_rotation_order_distinct(buffer@, indices@);
        lemma_index_order_onto(indices@, 0);
    }
    let mut last_symbols: Vec<u8> = Vec::new();
    let mut k: usize = 0;
    while k < n
        invariant
            k <= n,
            n == buffer.len(),
            indices.len() == n,
            last_symbols.len() == k,
            forall|i: int| 0 <= i < n ==> 0 <= #[trigger] indices[i] < n,
            forall|i: int|
                0 <= i < k ==> last_symbols[i] == buffer[(indices[i] + n - 1) % (n as int)],
        decreases n - k,
    {
        let start = indices[k];
        let before = if start == 0 {
            proof {
                lemma_small_mod((n - 1) as nat, n as nat);
            }
            n - 1
        } else {
            proof {
                lemma_mod_add_multiples_vanish(start - 1, n as int);
                lemma_small_mod((start - 1) as nat, n as nat);
            }
            start - 1
        };
        last_symbols.push(buffer[before]);
        k += 1;
    }
    let mut initial: usize = 0;
    while indices[initial] != 0
        invariant
            initial < n,
            indices.len() == n,
            exists|i: int| initial <= i < n && indices[i] == 0,
        decreases n - initial,
    {
        initial += 1;
    }
    proof {
        assert(last_symbols@ =~= transform(buffer@));
        let p = rotation_order(buffer@);
        let chosen = primary_index(buffer@);
        assert(0 <= initial < n && p[initial as int] == 0);
        assert(0 <= chosen < n && p[chosen] == 0);
        assert(chosen == initial);
    }
    (last_symbols, initial as u32)
}

/// For each place in the sorted bytes of `buffer`, the place in `buffer` that
/// the byte came from, equal bytes keeping their order.
pub fn shift_vector(buffer: &[u8]) -> (shift: Vec<usize>)
    ensures
        shift.len() == buffer.len(),
        forall|q: int|
            0 <= q < buffer.len() ==> shift[q] == stable_source(byte_keys(buffer@), q),
{
    let n = buffer.len();
    let mut bytes: Vec<usize> = Vec::new();
    let mut places: Vec<usize> = Vec::new();
    let mut i: usize = 0;
    while i < n
        invariant
            i <= n,
            n == buffer.len(),
            bytes.len() == i,
            places.len() == i,
            forall|j: int| 0 <= j < i ==> bytes[j] == buffer[j],
            forall|j: int| 0 <= j < i ==> places[j] == j,
        decreases n - i,
    {
        bytes.push(buffer[i] as usize);
        places.push(i);
        i += 1;
    }
    let shift = sort_by_class(&places, &bytes, 256);
    proof {
        let keys = keys_of(places@, bytes@);
        assert(keys =~= byte_keys(buffer@));
        assert forall|q: int| 0 <= q < buffer.len() implies shift[q] == stable_source(
            byte_keys(buffer@),
            q,
        ) by {
            lemma_slot_onto(keys, q);
        }
    }
    shift
}

/// Every place of a walk lies inside the block.
pub proof fn lemma_walk_range(last: Seq<u8>, start: int, steps: nat)
    requires
        0 <= start < last.len(),
    ensures
        0 <= walk_at(last, start, steps) < last.len(),
    decreases steps,
{
    if steps > 0 {
        lemma_walk_range(last, start, (steps - 1) as nat);
        lemma_slot_onto(byte_keys(last), walk_at(last, start, (steps - 1) as nat));
    }
}

/// The inverse transform: the block of which `buffer` is the last column and
/// `initial` the primary index. An index that is no place of the block is
/// reported.
pub fn reverse(buffer: &[u8], initial: u32) -> (res: Result<Vec<u8>, Error>)
    ensures
        initial < buffer.len() ==> res.is_ok() && res.unwrap()@ == inverse_transform(
            buffer@,
            initial as int,
        ),
        initial >= buffer.len() ==> res.is_err() && res.unwrap_err().kind
            == ErrorKind::InvalidIndex,
{
    let n = buffer.len();
    if initial as usize >= n {
        return Err(Error::of_kind(ErrorKind::InvalidIndex));
    }
    let shift = shift_vector(buffer);
    let mut output: Vec<u8> = Vec::new();
    let mut current: usize = initial as usize;
    let mut t: usize = 0;
    while t < n
        invariant
            t <= n,
            n == buffer.len(),
            shift.len() == n,
            initial < n,
            output.len() == t,
            current == walk_at(buffer@, initial as int, t as nat),
            current < n,
            forall|q: int|
                0 <= q < n ==> shift[q] == stable_source(byte_keys(buffer@), q),
            forall|j: int|
                0 <= j < t ==> output[j] == buffer[walk_at(buffer@, initial as int, (j + 1) as nat)],
        decreases n - t,
    {
        proof {
            lemma_walk_range(buffer@, initial as int, (t + 1) as nat);
        }
        current = shift[current];
        output.push(buffer[current]);
        t += 1;
    }
    proof {
        assert(output@ =~= inverse_transform(buffer@, initial as int));
    }
    Ok(output)
}

/// The position one byte before `x`, around the start of the block.
pub open spec fn step_back(n: int, x: int) -> int {
    (x + n - 1) % n
}

/// One step back and one step on lead to the same place; the step back from
/// the start leads to the end.
pub proof fn lemma_step_back(n: int, x: int)
    requires
        0 <= x < n,
    ensures
        0 <= step_back(n, x) < n,
        (step_back(n, x) + 1) % n == x,
        x == 0 ==> step_back(n, x) == n - 1,
        x > 0 ==> step_back(n, x) == x - 1,
{
    if x == 0 {
        lemma_small_mod((n - 1) as nat, n as nat);
        lemma_mod_self_0(n);
    } else {
        lemma_mod_add_multiples_vanish(x - 1, n);
        lemma_small_mod((x - 1) as nat, n as nat);
        lemma_small_mod(x as nat, n as nat);
    }
}

/// In the sorted rotations, the rotation at the place that the inverse
/// transform steps to from place `q` is the rotation at place `q` started one
/// byte later.
pub proof fn lemma_step_follows_rotation(s: Seq<u8>, p: Seq<usize>, q: int)
    requires
        0 < s.len(),
        is_rotation_order(s, p),
        0 <= q < s.len(),
    ensures
        0 <= stable_source(byte_keys(last_column(s, p)), q) < s.len(),
        rot_eq(
            s,
            p[stable_source(byte_keys(last_column(s, p)), q)] as int,
            (p[q] + 1) % (s.len() as int),
            s.len() as int,
        ),
{
    let n = s.len() as int;
    let last = last_column(s, p);
    let keys = byte_keys(last);
    lemma_rotation_order_distinct(s, p);
    assert(n - 1 <= usize::MAX) by {
        lemma_index_order_onto(p, n - 1);
        let i = choose|i: int| 0 <= i < p.len() && p[i] == n - 1;
        assert(p[i] <= usize::MAX);
    }
    // the rotations that start one byte earlier, sorted by their first byte
    let second = Seq::new(
        s.len(),
        |k: int| step_back(n, p[stable_source(keys, k)] as int) as usize,
    );
    assert forall|k: int| 0 <= k < n implies 0 <= #[trigger] second[k] < n && 0 <= stable_source(
        keys,
        k,
    ) < n && second[k] == step_back(n, p[stable_source(keys, k)] as int) by {
        lemma_slot_onto(keys, k);
        lemma_step_back(n, p[stable_source(keys, k)] as int);
    }
    assert forall|i: int, j: int|
        0 <= i < second.len() && 0 <= j < second.len() && i != j implies #[trigger] second[i] != #[trigger] second[j] by {
        lemma_slot_onto(keys, i);
        lemma_slot_onto(keys, j);
        let a = stable_source(keys, i);
        let b = stable_source(keys, j);
        assert(a != b);
        assert(p[a] != p[b]);
        lemma_step_back(n, p[a] as int);
        lemma_step_back(n, p[b] as int);
    }
    assert(is_index_order(second));
    let le = |x: int, y: int| rot_le(s, x, y);
    assert forall|x: int, y: int| 0 <= x < p.len() && 0 <= y < p.len() implies #[trigger] le(x, y)
        || le(y, x) by {
        lemma_rot_total(s, x, y, n);
        if rot_eq(s, x, y, n) {
            assert(rot_eq(s, y, x, n));
        }
    }
    assert forall|x: int, y: int, z: int|
        #![trigger le(x, y), le(y, z)]
        0 <= x < p.len() && 0 <= y < p.len() && 0 <= z < p.len() && le(x, y) && le(y, z) implies le(
        x,
        z,
    ) by {
        lemma_rot_lt_trans(s, x, y, z, n);
    }
    assert forall|i: int, j: int| 0 <= i <= j < p.len() implies le(
        #[trigger] p[i] as int,
        #[trigger] p[j] as int,
    ) by {
        if i == j {
            assert(rot_eq(s, p[i] as int, p[i] as int, n));
        }
    }
    assert forall|i: int, j: int| 0 <= i <= j < p.len() implies le(
        #[trigger] second[i] as int,
        #[trigger] second[j] as int,
    ) by {
        let x1 = second[i] as int;
        let x2 = second[j] as int;
        if i == j {
            assert(rot_eq(s, x1, x1, n));
        } else {
            lemma_slot_onto(keys, i);
            lemma_slot_onto(keys, j);
            lemma_source_order(keys, i, j);
            let o1 = stable_source(keys, i);
            let o2 = stable_source(keys, j);
            lemma_step_back(n, p[o1] as int);
            lemma_step_back(n, p[o2] as int);
            lemma_small_mod(x1 as nat, n as nat);
            lemma_small_mod(x2 as nat, n as nat);
            assert(rot_at(s, x1, 0) == s[x1]);
            assert(rot_at(s, x2, 0) == s[x2]);
            assert(keys[o1] == s[x1]);
            assert(keys[o2] == s[x2]);
            if keys[o1] < keys[o2] {
                assert(rot_eq(s, x1, x2, 0));
                assert(0 <= 0 < n && rot_at(s, x1, 0) < rot_at(s, x2, 0) && rot_eq(s, x1, x2, 0));
            } else {
                assert(o1 < o2);
                assert(rot_eq(s, x1, x2, 1)) by {
                    assert forall|k: int| 0 <= k < 1 implies rot_at(s, x1, k) == rot_at(
                        s,
                        x2,
                        k,
                    ) by {}
                }
                assert(rot_lt(s, p[o1] as int, p[o2] as int, n) || rot_eq(
                    s,
                    p[o1] as int,
                    p[o2] as int,
                    n,
                ));
                if rot_lt(s, p[o1] as int, p[o2] as int, n) {
                    lemma_rot_lt_join(s, x1, x2, 1, n);
                    lemma_rot_lt_turn(s, x1, x2, 1 + n);
                } else {
                    lemma_rot_eq_join(s, x1, x2, 1, n);
                    lemma_rot_eq_shorter(s, x1, x2, n, 1 + n);
                }
            }
        }
    }
    lemma_sorted_lists_agree(p, second, le, q);
    lemma_sorted_lists_agree(second, p, le, q);
    let next = stable_source(keys, q);
    let x = p[q] as int;
    let y = second[q] as int;
    assert(y == step_back(n, p[next] as int));
    lemma_step_back(n, p[next] as int);
    if rot_lt(s, x, y, n) {
        lemma_rot_lt_excludes(s, x, y, n);
        assert(rot_eq(s, y, x, n) ==> rot_eq(s, x, y, n));
    }
    assert(rot_eq(s, x, y, n));
    // start both one byte later
    lemma_rot_eq_turn(s, x, y, 1 + n);
    assert forall|k: int| 0 <= k < n implies rot_at(s, p[next] as int, k) == rot_at(
        s,
        (x + 1) % n,
        k,
    ) by {
        lemma_rot_shift(s, x, 1, k);
        lemma_rot_shift(s, y, 1, k);
        assert(rot_at(s, x, 1 + k) == rot_at(s, y, 1 + k));
    }
}

/// The inverse transform undoes the transform: from the last column of the
/// sorted rotations of a block that is not empty, and the place of the
/// rotation that starts at its first byte, it gives the block back. The
/// block has no more bytes than the machine can count.
pub proof fn lemma_inverse_of_transform(s: Seq<u8>)
    requires
        0 < s.len() <= usize::MAX,
    ensures
        inverse_transform(transform(s), primary_index(s)) == s,
{
    lemma_rotation_order_exists(s);
    let n = s.len() as int;
    let p = rotation_order(s);
    let last = transform(s);
    let start = primary_index(s);
    assert forall|t: int| 0 <= t < n implies last[walk_at(last, start, (t + 1) as nat)] == s[t] by {
        lemma_walk_matches(s, (t + 1) as nat);
        lemma_walk_range(last, start, (t + 1) as nat);
        let place = walk_at(last, start, (t + 1) as nat);
        let x = p[place] as int;
        // the byte before the rotation at `place` is the last byte of that rotation
        assert(last[place] == s[(x + n - 1) % n]);
        assert(rot_at(s, x, n - 1) == s[(x + n - 1) % n]);
        assert(rot_at(s, x, n - 1) == rot_at(s, (t + 1) % n, n - 1));
        lemma_mod_shift(t + 1, n - 1, n);
        lemma_mod_add_multiples_vanish(t, n);
        lemma_small_mod(t as nat, n as nat);
    }
    assert(inverse_transform(last, start) =~= s);
}

/// After `t` steps the inverse transform stands at the place of a rotation
/// that equals the rotation which starts at byte `t` of the block.
pub proof fn lemma_walk_matches(s: Seq<u8>, t: nat)
    requires
        0 < s.len() <= usize::MAX,
    ensures
        0 <= walk_at(transform(s), primary_index(s), t) < s.len(),
        rot_eq(
            s,
            rotation_order(s)[walk_at(transform(s), primary_index(s), t)] as int,
            (t as int) % (s.len() as int),
            s.len() as int,
        ),
    decreases t,
{
    lemma_rotation_order_exists(s);
    let n = s.len() as int;
    let p = rotation_order(s);
    let last = transform(s);
    let start = primary_index(s);
    lemma_walk_range(last, start, t);
    if t == 0 {
        lemma_small_mod(0, n as nat);
    } else {
        lemma_walk_matches(s, (t - 1) as nat);
        let q = walk_at(last, start, (t - 1) as nat);
        lemma_step_follows_rotation(s, p, q);
        let next = walk_at(last, start, t);
        assert(next == stable_source(byte_keys(last), q));
        let x = p[q] as int;
        let u = (t - 1) % n;
        // rotations that agree still agree when both start one byte later
        lemma_rot_eq_turn(s, x, u, 1 + n);
        assert forall|k: int| 0 <= k < n implies rot_at(s, p[next] as int, k) == rot_at(
            s,
            (t as int) % n,
            k,
        ) by {
            lemma_rot_shift(s, x, 1, k);
            lemma_rot_shift(s, u, 1, k);
            assert(rot_at(s, x, 1 + k) == rot_at(s, u, 1 + k));
            lemma_mod_shift(t - 1, 1, n);
            assert(rot_at(s, p[next] as int, k) == rot_at(s, (x + 1) % n, k));
        }
    }
}

/// How many of the positions below `upto` stand before `x`.
pub open spec fn standing_before(s: Seq<u8>, x: int, upto: int) -> int
    decreases upto,
{
    if upto <= 0 {
        0
    } else {
        standing_before(s, x, upto - 1) + if upto - 1 != x && stands_before(s, upto - 1, x) {
            1int
        } else {
            0int
        }
    }
}

/// A position before which another stands has more positions before it.
pub proof fn lemma_standing_before(s: Seq<u8>, x: int, y: int, upto: int)
    requires
        0 < s.len(),
        0 <= x < s.len(),
        0 <= y < s.len(),
        x != y,
        stands_before(s, x, y),
        0 <= upto <= s.len(),
    ensures
        0 <= standing_before(s, x, upto) <= standing_before(s, y, upto),
        upto > x ==> standing_before(s, x, upto) < standing_before(s, y, upto),
    decreases upto,
{
    lemma_stands_before_order(s);
    if upto > 0 {
        lemma_standing_before(s, x, y, upto - 1);
        let z = upto - 1;
        if z != x && stands_before(s, z, x) {
            assert(stands_before(s, z, x) && stands_before(s, x, y));
            assert(stands_before(s, z, y));
            if z == y {
                assert(stands_before(s, y, x) && stands_before(s, x, y));
            }
        }
    }
}

/// No position has as many positions before it as there are positions.
pub proof fn lemma_standing_before_bound(s: Seq<u8>, x: int, upto: int)
    requires
        0 <= x < s.len(),
        0 <= upto <= s.len(),
    ensures
        0 <= standing_before(s, x, upto) <= upto,
        upto > x ==> standing_before(s, x, upto) < upto,
    decreases upto,
{
    if upto > 0 {
        lemma_standing_before_bound(s, x, upto - 1);
    }
}

/// Every block that the machine can hold has an order of its rotations.
pub proof fn lemma_rotation_order_exists(s: Seq<u8>)
    requires
        s.len() <= usize::MAX,
    ensures
        is_rotation_order(s, rotation_order(s)),
        s.len() > 0 ==> 0 <= primary_index(s) < s.len() && rotation_order(s)[primary_index(s)]
            == 0,
{
    let n = s.len() as int;
    if n == 0 {
        assert(is_rotation_order(s, Seq::<usize>::empty()));
    } else {
        lemma_stands_before_order(s);
        let ranks = Seq::new(s.len(), |x: int| standing_before(s, x, n));
        assert(injective_into(ranks, n)) by {
            assert forall|x: int| 0 <= x < n implies 0 <= #[trigger] ranks[x] < n by {
                lemma_standing_before_bound(s, x, n);
            }
            assert forall|x: int, y: int| 0 <= x < n && 0 <= y < n && x != y implies ranks[x]
                != ranks[y] by {
                assert(stands_before(s, x, y) || stands_before(s, y, x));
                if stands_before(s, x, y) {
                    lemma_standing_before(s, x, y, n);
                } else {
                    lemma_standing_before(s, y, x, n);
                }
            }
        }
        let p = Seq::new(
            s.len(),
            |k: int| (choose|x: int| 0 <= x < n && ranks[x] == k) as usize,
        );
        assert forall|k: int| 0 <= k < n implies 0 <= #[trigger] p[k] < n && ranks[p[k] as int]
            == k by {
            lemma_pigeonhole_onto(ranks, k);
        }
        assert forall|i: int, j: int| 0 <= i < j < n implies rot_lt(
            s,
            #[trigger] p[i] as int,
            #[trigger] p[j] as int,
            n,
        ) || (rot_eq(s, p[i] as int, p[j] as int, n) && tie_rank(n, full_reach(n), p[i] as int)
            > tie_rank(n, full_reach(n), p[j] as int)) by {
            let x = p[i] as int;
            let y = p[j] as int;
            assert(ranks[x] == i && ranks[y] == j);
            assert(stands_before(s, x, y) || stands_before(s, y, x));
            if stands_before(s, y, x) {
                lemma_standing_before(s, y, x, n);
            }
        }
        assert(is_rotation_order(s, p));
        let order = rotation_order(s);
        lemma_rotation_order_distinct(s, order);
        lemma_index_order_onto(order, 0);
    }
}

} // verus!
