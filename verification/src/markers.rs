//! The marker array of a sieve: one flag per candidate from 0 to the bound,
//! how it is set up, and the passes that clear flags and read them off.

use vstd::prelude::*;
use crate::primality::{divides, values};

verus! {

/// The markers for the candidates from 0 to `n` before any sifting: set from
/// 2 on.
pub open spec fn unsifted(n: int) -> Seq<bool> {
    Seq::new((n + 1) as nat, |m: int| 2 <= m)
}

/// The markers for the candidates from 0 to `n` with the even numbers beyond
/// 2 left out from the start: set at 2 and at the odd numbers from 3 on.
pub open spec fn odd_candidates(n: int) -> Seq<bool> {
    Seq::new((n + 1) as nat, |m: int| m == 2 || (3 <= m && m % 2 == 1))
}

/// `m` is `start`, or a whole number of steps of width `step` beyond it.
pub open spec fn on_stride(m: int, start: int, step: int) -> bool {
    start <= m && divides(step, m - start)
}

/// `marks` with the flags on the stride from `start` cleared.
pub open spec fn stride_cleared(marks: Seq<bool>, start: int, step: int) -> Seq<bool> {
    Seq::new(marks.len(), |m: int| marks[m] && !on_stride(m, start, step))
}

/// The positions from `from` to `to - 1` whose flag is set, in increasing
/// order.
pub open spec fn marked_between(marks: Seq<bool>, from: int, to: int) -> Seq<int>
    decreases to - from,
{
    if to <= from {
        Seq::empty()
    } else if marks[to - 1] {
        marked_between(marks, from, to - 1).push(to - 1)
    } else {
        marked_between(marks, from, to - 1)
    }
}

/// Between one point of a stride and the next there is none.
proof fn lemma_stride_gap(m: int, start: int, step: int, at: int)
    requires
        1 <= step,
        on_stride(at, start, step),
        at < m < at + step,
    ensures
        !on_stride(m, start, step),
{
    crate::primality::lemma_divides_offset(step, at - start, m - start);
    vstd::arithmetic::div_mod::lemma_small_mod((m - at) as nat, step as nat);
}

/// One step along a stride stays on it.
proof fn lemma_stride_step(start: int, step: int, at: int)
    requires
        1 <= step,
        on_stride(at, start, step),
    ensures
        on_stride(at + step, start, step),
{
    vstd::arithmetic::div_mod::lemma_mod_add_multiples_vanish(at - start, step);
}

/// A marker array for the candidates from 0 to `n`, every flag set except
/// those of 0 and 1.
pub fn fresh_markers(n: u64) -> (markers: Vec<bool>)
    requires
        n < usize::MAX,
    ensures
        markers@ == unsifted(n as int),
{
    let mut markers: Vec<bool> = vec![true; (n + 1) as usize];
    markers.set(0, false);
    if n >= 1 {
        markers.set(1, false);
    }
    assert(markers@ =~= unsifted(n as int));
    markers
}

/// A marker array for the candidates from 0 to `n` in which only 2 and the
/// odd numbers from 3 on are set, laid down pair by pair.
///
/// The flags are written as pairs of a cleared and a set one; where the
/// number of candidates is odd, one cleared flag follows the pairs. Then the
/// flag of 1 is cleared and that of 2 is set.
pub fn packed_markers(n: u64) -> (markers: Vec<bool>)
    requires
        n < usize::MAX,
    ensures
        markers@ == odd_candidates(n as int),
{
    let pairs: usize = ((n + 1) / 2) as usize;
    let mut markers: Vec<bool> = Vec::new();
    let mut k: usize = 0;
    while k < pairs
        invariant
            k <= pairs,
            2 * pairs <= n + 1,
            markers@.len() == 2 * k,
            forall|m: int| 0 <= m < markers@.len() ==> markers@[m] == (m % 2 == 1),
        decreases pairs - k,
    {
        markers.push(false);
        markers.push(true);
        k += 1;
    }
    if (n + 1) % 2 != 0 {
        markers.push(false);
    }
    if n >= 1 {
        markers.set(1, false);
    }
    if n >= 2 {
        markers.set(2, true);
    }
    assert(markers@ =~= odd_candidates(n as int));
    markers
}

/// The same marker array as `packed_markers` gives, made by setting every
/// flag and then clearing those of 0, of 1 and of the even numbers from 4 on.
pub fn cleared_markers(n: u64) -> (markers: Vec<bool>)
    requires
        n < usize::MAX,
    ensures
        markers@ == odd_candidates(n as int),
{
    let top: usize = n as usize;
    let mut markers: Vec<bool> = vec![true; top + 1];
    markers.set(0, false);
    if n >= 1 {
        markers.set(1, false);
    }
    let mut i: usize = 4;
    while i <= top
        invariant
            top == n,
            n < usize::MAX,
            i <= top ==> i % 2 == 0,
            4 <= i,
            markers@.len() == top + 1,
            forall|m: int|
                0 <= m <= top ==> markers@[m] == (2 <= m && !(4 <= m < i && m % 2 == 0)),
        decreases top + 1 - i,
    {
        markers.set(i, false);
        i = if top - i >= 2 {
            i + 2
        } else {
            top + 1
        };
    }
    assert(markers@ =~= odd_candidates(n as int));
    markers
}

/// Clears the flag at `start` and at every `step`-th position after it.
pub fn eliminate_multiples(markers: &mut Vec<bool>, start: usize, step: usize)
    requires
        1 <= step,
    ensures
        final(markers)@ == stride_cleared(old(markers)@, start as int, step as int),
{
    let len: usize = markers.len();
    let mut j: usize = if start < len {
        start
    } else {
        len
    };
    proof {
        if start < len {
            assert(divides(step as int, 0int)) by (nonlinear_arith)
                requires
                    1 <= step,
            ;
        }
    }
    while j < len
        invariant
            1 <= step,
            len == old(markers)@.len(),
            markers@.len() == len,
            j <= len,
            j < len ==> on_stride(j as int, start as int, step as int),
            forall|m: int|
                #![trigger markers@[m]]
                0 <= m < len ==> markers@[m] == (old(markers)@[m] && !(m < j && on_stride(
                    m,
                    start as int,
                    step as int,
                ))),
        decreases len - j,
    {
        markers.set(j, false);
        let ghost at: int = j as int;
        j = if step < len - j {
            j + step
        } else {
            len
        };
        proof {
            lemma_stride_step(start as int, step as int, at);
            assert forall|m: int| at < m < j implies !on_stride(m, start as int, step as int) by {
                lemma_stride_gap(m, start as int, step as int, at);
            }
        }
    }
    assert(markers@ =~= stride_cleared(old(markers)@, start as int, step as int));
}

/// Appends to `found` each position from `from` on whose flag is set, in
/// increasing order.
pub fn collect_marked(markers: &Vec<bool>, from: usize, found: &mut Vec<u64>)
    ensures
        values(final(found)@) == values(old(found)@) + marked_between(
            markers@,
            from as int,
            markers@.len() as int,
        ),
{
    let len: usize = markers.len();
    let mut i: usize = from;
    assert(values(found@) =~= values(old(found)@) + marked_between(
        markers@,
        from as int,
        from as int,
    ));
    while i < len
        invariant
            len == markers@.len(),
            from <= i,
            i <= len || i == from,
            values(found@) == values(old(found)@) + marked_between(
                markers@,
                from as int,
                i as int,
            ),
        decreases len - i,
    {
        if markers[i] {
            let ghost before = found@;
            found.push(i as u64);
            assert(values(found@) =~= values(before).push(i as int));
            assert(values(found@) =~= values(old(found)@) + marked_between(
                markers@,
                from as int,
                i + 1,
            ));
        }
        i += 1;
    }
    proof {
        if i > len {
            lemma_marked_between_empty(markers@, from as int, len as int);
        }
    }
}

/// A range that ends before it begins holds no position.
proof fn lemma_marked_between_empty(marks: Seq<bool>, from: int, to: int)
    requires
        to <= from,
    ensures
        marked_between(marks, from, to) == Seq::<int>::empty(),
{
}

} // verus!
