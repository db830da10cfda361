//! Rule engine of a sliding-tile merge puzzle: a line-merge algorithm over
//! rows and columns of a grid, directional shift operations, a random tile
//! spawner and a game-over detector.

use vstd::prelude::*;

pub mod board;
pub mod game;
pub mod rng;

verus! {

/// Which end of a line tiles are pushed and merged toward.
#[derive(Debug, PartialEq, Eq, Structural, Clone, Copy)]
pub enum Placement {
    Start,
    End,
}

/// The non-zero values of a line, in order.
pub open spec fn nonzeros(s: Seq<usize>) -> Seq<usize>
    decreases s.len(),
{
    if s.len() == 0 {
        Seq::empty()
    } else if s.last() != 0 {
        nonzeros(s.drop_last()).push(s.last())
    } else {
        nonzeros(s.drop_last())
    }
}

/// The sum of the values of a line, as a mathematical integer.
pub open spec fn seq_sum(s: Seq<usize>) -> int
    decreases s.len(),
{
    if s.len() == 0 {
        0
    } else {
        seq_sum(s.drop_last()) + s.last()
    }
}

/// A run of `n` empty cells.
pub open spec fn zero_pad(n: int) -> Seq<usize> {
    Seq::new(n as nat, |i: int| 0usize)
}

/// One merge pass toward the end of a line that holds no gaps: scanning from
/// the end, each pair of equal adjacent values becomes one doubled value, and
/// a value that has merged is not considered again.
pub open spec fn merge_pairs(s: Seq<usize>) -> Seq<usize>
    decreases s.len(),
{
    if s.len() < 2 {
        s
    } else if s.last() == s[s.len() - 2] {
        merge_pairs(s.take(s.len() - 2)).push((2 * s.last()) as usize)
    } else {
        merge_pairs(s.take(s.len() - 1)).push(s.last())
    }
}

/// The points scored by one merge pass toward the end: the sum, over every
/// merge event, of the merged value it produces.
pub open spec fn merge_pair_points(s: Seq<usize>) -> int
    decreases s.len(),
{
    if s.len() < 2 {
        0
    } else if s.last() == s[s.len() - 2] {
        merge_pair_points(s.take(s.len() - 2)) + 2 * s.last()
    } else {
        merge_pair_points(s.take(s.len() - 1))
    }
}

/// The sum of the values that come through one merge pass unmerged.
pub open spec fn unmerged_pair_sum(s: Seq<usize>) -> int
    decreases s.len(),
{
    if s.len() < 2 {
        seq_sum(s)
    } else if s.last() == s[s.len() - 2] {
        unmerged_pair_sum(s.take(s.len() - 2))
    } else {
        unmerged_pair_sum(s.take(s.len() - 1)) + s.last()
    }
}

/// The line after a merge toward the end: the merged non-zero values sit at
/// the end, the freed cells are zeros at the start.
pub open spec fn merge_end(s: Seq<usize>) -> Seq<usize> {
    zero_pad(s.len() - merge_pairs(nonzeros(s)).len()) + merge_pairs(nonzeros(s))
}

/// The line after a merge toward the given end.
pub open spec fn merge_spec(line: Seq<usize>, dir: Placement) -> Seq<usize> {
    if dir == Placement::End {
        merge_end(line)
    } else {
        merge_end(line.reverse()).reverse()
    }
}

/// The points scored by a merge toward the given end.
pub open spec fn points_spec(line: Seq<usize>, dir: Placement) -> int {
    if dir == Placement::End {
        merge_pair_points(nonzeros(line))
    } else {
        merge_pair_points(nonzeros(line.reverse()))
    }
}

/// The sum of the values of a line that a merge in the given direction leaves
/// unmerged.
pub open spec fn unmerged_sum(line: Seq<usize>, dir: Placement) -> int {
    if dir == Placement::End {
        unmerged_pair_sum(nonzeros(line))
    } else {
        unmerged_pair_sum(nonzeros(line.reverse()))
    }
}

/// The sum of a line of unsigned values is never negative.
pub proof fn lemma_seq_sum_nonneg(s: Seq<usize>)
    ensures
        seq_sum(s) >= 0,
    decreases s.len(),
{
    if s.len() > 0 {
        lemma_seq_sum_nonneg(s.drop_last());
    }
}

proof fn lemma_seq_sum_concat(a: Seq<usize>, b: Seq<usize>)
    ensures
        seq_sum(a + b) == seq_sum(a) + seq_sum(b),
    decreases b.len(),
{
    if b.len() == 0 {
        assert(a + b =~= a);
    } else {
        assert((a + b).drop_last() =~= a + b.drop_last());
        lemma_seq_sum_concat(a, b.drop_last());
    }
}

proof fn lemma_zero_pad_sum(n: int)
    requires
        n >= 0,
    ensures
        seq_sum(zero_pad(n)) == 0,
        zero_pad(n).len() == n,
    decreases n,
{
    if n > 0 {
        assert(zero_pad(n).drop_last() =~= zero_pad(n - 1));
        lemma_zero_pad_sum(n - 1);
    }
}

proof fn lemma_sum_nonzeros(s: Seq<usize>)
    ensures
        seq_sum(nonzeros(s)) == seq_sum(s),
        nonzeros(s).len() <= s.len(),
    decreases s.len(),
{
    if s.len() > 0 {
        lemma_sum_nonzeros(s.drop_last());
        if s.last() != 0 {
            assert(nonzeros(s.drop_last()).push(s.last()).drop_last() =~= nonzeros(
                s.drop_last(),
            ));
        }
    }
}

proof fn lemma_sum_reverse(s: Seq<usize>)
    ensures
        seq_sum(s.reverse()) == seq_sum(s),
    decreases s.len(),
{
    if s.len() > 0 {
        assert(s.reverse() =~= seq![s.last()] + s.drop_last().reverse());
        lemma_sum_reverse(s.drop_last());
        lemma_seq_sum_concat(seq![s.last()], s.drop_last().reverse());
        assert(seq_sum(seq![s.last()]) == s.last()) by {
            let single = seq![s.last()];
            assert(single.drop_last() =~= Seq::<usize>::empty());
            assert(seq_sum(single) == seq_sum(single.drop_last()) + single.last());
            assert(seq_sum(Seq::<usize>::empty()) == 0);
        }
    }
}

proof fn lemma_seq_sum_last2(s: Seq<usize>)
    requires
        s.len() >= 2,
    ensures
        seq_sum(s) == seq_sum(s.take(s.len() - 2)) + s[s.len() - 2] + s.last(),
{
    assert(s.drop_last() =~= s.take(s.len() - 1));
    assert(s.take(s.len() - 1).drop_last() =~= s.take(s.len() - 2));
    assert(seq_sum(s) == seq_sum(s.drop_last()) + s.last());
    assert(seq_sum(s.take(s.len() - 1)) == seq_sum(s.take(s.len() - 1).drop_last()) + s.take(
        s.len() - 1,
    ).last());
}

proof fn lemma_merge_pairs_len(s: Seq<usize>)
    ensures
        merge_pairs(s).len() <= s.len(),
    decreases s.len(),
{
    if s.len() >= 2 {
        if s.last() == s[s.len() - 2] {
            lemma_merge_pairs_len(s.take(s.len() - 2));
        } else {
            lemma_merge_pairs_len(s.take(s.len() - 1));
        }
    }
}

proof fn lemma_merge_pairs_sum(s: Seq<usize>)
    requires
        seq_sum(s) <= usize::MAX,
    ensures
        seq_sum(merge_pairs(s)) == seq_sum(s),
    decreases s.len(),
{
    if s.len() >= 2 {
        let v = s.last();
        lemma_seq_sum_last2(s);
        if v == s[s.len() - 2] {
            lemma_seq_sum_nonneg(s.take(s.len() - 2));
            assert((2 * v) as usize == 2 * v);
            lemma_merge_pairs_sum(s.take(s.len() - 2));
            assert(merge_pairs(s.take(s.len() - 2)).push((2 * v) as usize).drop_last()
                =~= merge_pairs(s.take(s.len() - 2)));
        } else {
            lemma_merge_pairs_sum(s.take(s.len() - 1));
            assert(merge_pairs(s.take(s.len() - 1)).push(v).drop_last() =~= merge_pairs(
                s.take(s.len() - 1),
            ));
        }
    }
}

proof fn lemma_merge_pair_points_nonneg(s: Seq<usize>)
    ensures
        merge_pair_points(s) >= 0,
    decreases s.len(),
{
    if s.len() >= 2 {
        if s.last() == s[s.len() - 2] {
            lemma_merge_pair_points_nonneg(s.take(s.len() - 2));
        } else {
            lemma_merge_pair_points_nonneg(s.take(s.len() - 1));
        }
    }
}

proof fn lemma_merge_pair_points_le_sum(s: Seq<usize>)
    ensures
        merge_pair_points(s) <= seq_sum(s),
    decreases s.len(),
{
    if s.len() < 2 {
        lemma_seq_sum_nonneg(s);
    } else {
        let v = s.last();
        lemma_seq_sum_last2(s);
        if v == s[s.len() - 2] {
            lemma_merge_pair_points_le_sum(s.take(s.len() - 2));
        } else {
            lemma_merge_pair_points_le_sum(s.take(s.len() - 1));
            assert(seq_sum(s.take(s.len() - 1)) == seq_sum(s) - s.last());
        }
    }
}

proof fn lemma_points_unmerged(s: Seq<usize>)
    ensures
        merge_pair_points(s) + unmerged_pair_sum(s) == seq_sum(s),
    decreases s.len(),
{
    if s.len() >= 2 {
        let v = s.last();
        lemma_seq_sum_last2(s);
        if v == s[s.len() - 2] {
            lemma_points_unmerged(s.take(s.len() - 2));
        } else {
            lemma_points_unmerged(s.take(s.len() - 1));
            assert(seq_sum(s.take(s.len() - 1)) == seq_sum(s) - s.last());
        }
    }
}

proof fn lemma_reverse_push(s: Seq<usize>, x: usize)
    ensures
        s.push(x).reverse() == seq![x] + s.reverse(),
{
    assert(s.push(x).reverse() =~= seq![x] + s.reverse());
}

proof fn lemma_reverse_involution(s: Seq<usize>)
    ensures
        s.reverse().reverse() == s,
{
    assert(s.reverse().reverse() =~= s);
}

/// The sum of a merged line equals the sum of the line it came from: merging
/// only replaces two equal values by their sum; nothing is created or lost.
/// The bound on the sum keeps every merged value within the machine word.
pub proof fn lemma_merge_conservation(line: Seq<usize>, dir: Placement)
    requires
        seq_sum(line) <= usize::MAX,
    ensures
        seq_sum(merge_spec(line, dir)) == seq_sum(line),
{
    if dir == Placement::End {
        lemma_merge_end_sum(line);
    } else {
        lemma_sum_reverse(line);
        lemma_merge_end_sum(line.reverse());
        lemma_sum_reverse(merge_end(line.reverse()));
    }
}

proof fn lemma_merge_end_sum(s: Seq<usize>)
    requires
        seq_sum(s) <= usize::MAX,
    ensures
        seq_sum(merge_end(s)) == seq_sum(s),
        merge_end(s).len() == s.len(),
{
    lemma_sum_nonzeros(s);
    lemma_merge_pairs_sum(nonzeros(s));
    lemma_merge_end_len(s);
    let m = merge_pairs(nonzeros(s));
    lemma_zero_pad_sum(s.len() - m.len());
    lemma_seq_sum_concat(zero_pad(s.len() - m.len()), m);
}

proof fn lemma_merge_end_len(s: Seq<usize>)
    ensures
        merge_end(s).len() == s.len(),
        merge_pairs(nonzeros(s)).len() <= s.len(),
{
    lemma_sum_nonzeros(s);
    lemma_merge_pairs_len(nonzeros(s));
    let m = merge_pairs(nonzeros(s));
    assert(zero_pad(s.len() - m.len()).len() == s.len() - m.len());
}

/// The length of a merged line equals the length of the line it came from.
pub proof fn lemma_merge_spec_len(line: Seq<usize>, dir: Placement)
    ensures
        merge_spec(line, dir).len() == line.len(),
{
    if dir == Placement::End {
        lemma_merge_end_len(line);
    } else {
        lemma_merge_end_len(line.reverse());
    }
}

/// The points of a merge equal the sum of the merged values it produces;
/// equivalently, the sum of the input line minus the sum of the values that
/// come through unmerged.
pub proof fn lemma_points_value_correspondence(line: Seq<usize>, dir: Placement)
    ensures
        points_spec(line, dir) == seq_sum(line) - unmerged_sum(line, dir),
{
    if dir == Placement::End {
        lemma_points_unmerged(nonzeros(line));
        lemma_sum_nonzeros(line);
    } else {
        lemma_points_unmerged(nonzeros(line.reverse()));
        lemma_sum_nonzeros(line.reverse());
        lemma_sum_reverse(line);
    }
}

/// The points of a merge never exceed the sum of the line, and are never
/// negative.
pub proof fn lemma_points_spec_bounds(line: Seq<usize>, dir: Placement)
    ensures
        0 <= points_spec(line, dir) <= seq_sum(line),
{
    if dir == Placement::End {
        lemma_merge_pair_points_nonneg(nonzeros(line));
        lemma_merge_pair_points_le_sum(nonzeros(line));
        lemma_sum_nonzeros(line);
    } else {
        lemma_merge_pair_points_nonneg(nonzeros(line.reverse()));
        lemma_merge_pair_points_le_sum(nonzeros(line.reverse()));
        lemma_sum_nonzeros(line.reverse());
        lemma_sum_reverse(line);
    }
}

/// A line is settled for a direction when no merge and no movement is
/// reachable there: every zero lies on the far side of every non-zero value,
/// and no two adjacent non-zero values are equal.
pub open spec fn settled(line: Seq<usize>, dir: Placement) -> bool {
    if dir == Placement::End {
        settled_end(line)
    } else {
        settled_end(line.reverse())
    }
}

/// Settled for a merge toward the end: zeros only at the start, and no two
/// adjacent equal non-zero values.
pub open spec fn settled_end(s: Seq<usize>) -> bool {
    &&& forall|i: int, j: int| #![trigger s[i], s[j]] 0 <= i < j < s.len() && s[i] != 0 ==> s[j]
        != 0
    &&& forall|i: int| 0 <= i < s.len() - 1 && #[trigger] s[i] != 0 ==> s[i] != s[i + 1]
}

proof fn lemma_nonzeros_all_zero(s: Seq<usize>)
    requires
        forall|i: int| 0 <= i < s.len() ==> s[i] == 0,
    ensures
        nonzeros(s) == Seq::<usize>::empty(),
    decreases s.len(),
{
    if s.len() > 0 {
        lemma_nonzeros_all_zero(s.drop_last());
    }
}

proof fn lemma_settled_structure(s: Seq<usize>)
    requires
        settled_end(s),
    ensures
        s == zero_pad(s.len() - nonzeros(s).len()) + nonzeros(s),
        nonzeros(s).len() <= s.len(),
    decreases s.len(),
{
    lemma_sum_nonzeros(s);
    if s.len() == 0 {
        assert(s =~= zero_pad(0) + nonzeros(s));
    } else if s.last() != 0 {
        let dl = s.drop_last();
        assert(settled_end(dl)) by {
            assert(forall|i: int, j: int| #![trigger dl[i], dl[j]]
                0 <= i < j < dl.len() && dl[i] != 0 ==> s[i] != 0 && s[j] == dl[j] && s[j] != 0);
            assert(forall|i: int|
                0 <= i < dl.len() - 1 && #[trigger] dl[i] != 0 ==> s[i] != 0 && dl[i] == s[i]
                    && dl[i + 1] == s[i + 1]);
        }
        lemma_settled_structure(dl);
        let k = dl.len() - nonzeros(dl).len();
        assert(s =~= (zero_pad(k) + nonzeros(dl)).push(s.last()));
        assert((zero_pad(k) + nonzeros(dl)).push(s.last()) =~= zero_pad(k) + nonzeros(
            dl,
        ).push(s.last()));
    } else {
        assert(forall|i: int| 0 <= i < s.len() ==> #[trigger] s[i] == 0) by {
            assert(forall|i: int|
                0 <= i < s.len() - 1 && #[trigger] s[i] != 0 ==> s[s.len() - 1] != 0);
        }
        lemma_nonzeros_all_zero(s);
        assert(s =~= zero_pad(s.len() as int) + nonzeros(s));
    }
}

proof fn lemma_merge_pairs_fix(t: Seq<usize>)
    requires
        forall|i: int| 0 <= i < t.len() ==> #[trigger] t[i] != 0,
        forall|i: int| 0 <= i < t.len() - 1 ==> #[trigger] t[i] != t[i + 1],
    ensures
        merge_pairs(t) == t,
        merge_pair_points(t) == 0,
    decreases t.len(),
{
    if t.len() >= 2 {
        assert(t[t.len() - 2] != t[t.len() - 1]);
        let u = t.take(t.len() - 1);
        assert(forall|i: int| 0 <= i < u.len() ==> #[trigger] u[i] == t[i]);
        lemma_merge_pairs_fix(u);
        assert(u.push(t.last()) =~= t);
    }
}

/// A settled line is a fixed point of the merge: the line comes back
/// unchanged and no points are scored, so repeating the merge is identical.
pub proof fn lemma_settled_fixpoint(line: Seq<usize>, dir: Placement)
    requires
        settled(line, dir),
    ensures
        merge_spec(line, dir) == line,
        points_spec(line, dir) == 0,
{
    if dir == Placement::End {
        lemma_settled_end_fixpoint(line);
    } else {
        lemma_settled_end_fixpoint(line.reverse());
        lemma_reverse_involution(line);
    }
}

proof fn lemma_settled_end_fixpoint(s: Seq<usize>)
    requires
        settled_end(s),
    ensures
        merge_end(s) == s,
        merge_pair_points(nonzeros(s)) == 0,
{
    lemma_settled_structure(s);
    let nz = nonzeros(s);
    let k = s.len() - nz.len();
    assert(forall|i: int| 0 <= i < nz.len() ==> #[trigger] nz[i] == s[k + i]) by {
        assert(forall|i: int| 0 <= i < nz.len() ==> #[trigger] (zero_pad(k) + nz)[k + i] == nz[i]);
    }
    assert(forall|i: int| 0 <= i < nz.len() ==> #[trigger] nz[i] != 0) by {
        lemma_nonzeros_nonzero(s);
    }
    assert(forall|i: int| 0 <= i < nz.len() - 1 ==> #[trigger] nz[i] != nz[i + 1]) by {
        assert(forall|i: int|
            0 <= i < nz.len() - 1 ==> #[trigger] nz[i] == s[k + i] && nz[i + 1] == s[k + i + 1]);
    }
    lemma_merge_pairs_fix(nz);
    assert(merge_end(s) == zero_pad(k) + nz);
}

proof fn lemma_nonzeros_nonzero(s: Seq<usize>)
    ensures
        forall|i: int| 0 <= i < nonzeros(s).len() ==> #[trigger] nonzeros(s)[i] != 0,
    decreases s.len(),
{
    if s.len() > 0 {
        lemma_nonzeros_nonzero(s.drop_last());
        let dl = s.drop_last();
        assert forall|i: int| 0 <= i < nonzeros(s).len() implies #[trigger] nonzeros(s)[i]
            != 0 by {
            if s.last() != 0 {
                if i < nonzeros(s).len() - 1 {
                    assert(nonzeros(s)[i] == nonzeros(dl)[i]);
                }
            } else {
                assert(nonzeros(s)[i] == nonzeros(dl)[i]);
            }
        }
    }
}

/// Merging toward the end equals reversing, merging toward the start and
/// reversing again, with equal points: the two directions are mirror images.
pub proof fn lemma_direction_symmetry(line: Seq<usize>)
    ensures
        merge_spec(line, Placement::End) == merge_spec(line.reverse(), Placement::Start).reverse(),
        points_spec(line, Placement::End) == points_spec(line.reverse(), Placement::Start),
{
    lemma_reverse_involution(line);
    lemma_reverse_involution(merge_end(line));
}

/// A line of three equal non-zero values merges exactly once, at the pair
/// nearest the merge end: the third value stays unmerged in the same pass.
pub proof fn lemma_three_equal_one_merge(v: usize)
    requires
        v != 0,
        v <= usize::MAX / 2,
    ensures
        merge_spec(seq![v, v, v], Placement::End) == seq![0usize, v, (v + v) as usize],
        points_spec(seq![v, v, v], Placement::End) == v + v,
{
    let s = seq![v, v, v];
    assert(s.drop_last() =~= seq![v, v]);
    assert(seq![v, v].drop_last() =~= seq![v]);
    assert(seq![v].drop_last() =~= Seq::<usize>::empty());
    assert(nonzeros(Seq::<usize>::empty()) =~= Seq::<usize>::empty());
    assert(nonzeros(seq![v]) =~= seq![v]);
    assert(nonzeros(seq![v, v]) =~= seq![v, v]);
    assert(nonzeros(s) =~= s);
    assert(s[s.len() - 2] == v && s.last() == v);
    assert(s.take(s.len() - 2) =~= seq![v]);
    assert(merge_pairs(seq![v]) == seq![v]);
    assert(merge_pairs(s) =~= seq![v, (2 * v) as usize]);
    assert(merge_pair_points(seq![v]) == 0);
    assert(merge_pair_points(s) == 2 * v);
    assert(merge_end(s) =~= zero_pad(1) + seq![v, (2 * v) as usize]);
    assert(zero_pad(1) + seq![v, (2 * v) as usize] =~= seq![0usize, v, (v + v) as usize]);
}

/// A line with no empty cell and no two adjacent equal values is settled
/// toward either end: nothing in it can move or merge.
pub proof fn lemma_full_distinct_settled(line: Seq<usize>)
    requires
        forall|i: int| 0 <= i < line.len() ==> #[trigger] line[i] != 0,
        forall|i: int| 0 <= i < line.len() - 1 ==> #[trigger] line[i] != line[i + 1],
    ensures
        settled(line, Placement::End),
        settled(line, Placement::Start),
{
    assert(settled_end(line));
    let rev = line.reverse();
    let n = line.len();
    assert forall|i: int| 0 <= i < rev.len() implies #[trigger] rev[i] != 0 by {
        assert(rev[i] == line[n - 1 - i]);
    }
    assert forall|i: int| 0 <= i < rev.len() - 1 && #[trigger] rev[i] != 0 implies rev[i] != rev[i
        + 1] by {
        assert(rev[i] == line[n - 1 - i]);
        assert(rev[i + 1] == line[n - 2 - i]);
        assert(line[n - 2 - i] != line[n - 2 - i + 1]);
    }
    assert(settled_end(rev));
}

/// A tile value: a positive power of two, at least 2.
pub open spec fn is_tile(v: usize) -> bool {
    exists|k: nat| 1 <= k && v == vstd::arithmetic::power2::pow2(k)
}

/// Every cell of the line is empty or holds a tile.
pub open spec fn valid_line(s: Seq<usize>) -> bool {
    forall|i: int| 0 <= i < s.len() ==> s[i] == 0 || is_tile(#[trigger] s[i])
}

proof fn lemma_nonzeros_valid(s: Seq<usize>)
    requires
        valid_line(s),
    ensures
        valid_line(nonzeros(s)),
    decreases s.len(),
{
    if s.len() > 0 {
        assert(valid_line(s.drop_last()));
        lemma_nonzeros_valid(s.drop_last());
        let dl = s.drop_last();
        assert forall|i: int| 0 <= i < nonzeros(s).len() implies nonzeros(s)[i] == 0 || is_tile(
            #[trigger] nonzeros(s)[i],
        ) by {
            if s.last() != 0 && i == nonzeros(s).len() - 1 {
                assert(nonzeros(s)[i] == s.last());
                assert(s.last() == s[s.len() - 1]);
            } else {
                assert(nonzeros(s)[i] == nonzeros(dl)[i]);
            }
        }
    }
}

proof fn lemma_merge_pairs_valid(s: Seq<usize>)
    requires
        valid_line(s),
        seq_sum(s) <= usize::MAX,
    ensures
        valid_line(merge_pairs(s)),
    decreases s.len(),
{
    if s.len() >= 2 {
        let v = s.last();
        lemma_seq_sum_last2(s);
        if v == s[s.len() - 2] {
            let pre = s.take(s.len() - 2);
            assert(valid_line(pre));
            lemma_seq_sum_nonneg(pre);
            lemma_merge_pairs_valid(pre);
            assert(v == s[s.len() - 1]);
            let doubled = (2 * v) as usize;
            assert(doubled == 0 || is_tile(doubled)) by {
                if v != 0 {
                    let k = choose|k: nat| 1 <= k && v == vstd::arithmetic::power2::pow2(k);
                    vstd::arithmetic::power2::lemma_pow2_unfold((k + 1) as nat);
                    assert(doubled == vstd::arithmetic::power2::pow2((k + 1) as nat));
                }
            }
            let m = merge_pairs(pre).push(doubled);
            assert forall|i: int| 0 <= i < m.len() implies m[i] == 0 || is_tile(
                #[trigger] m[i],
            ) by {
                if i < m.len() - 1 {
                    assert(m[i] == merge_pairs(pre)[i]);
                }
            }
        } else {
            let pre = s.take(s.len() - 1);
            assert(valid_line(pre));
            lemma_merge_pairs_valid(pre);
            assert(v == s[s.len() - 1]);
            let m = merge_pairs(pre).push(v);
            assert forall|i: int| 0 <= i < m.len() implies m[i] == 0 || is_tile(
                #[trigger] m[i],
            ) by {
                if i < m.len() - 1 {
                    assert(m[i] == merge_pairs(pre)[i]);
                }
            }
        }
    }
}

/// A merge keeps every cell empty or a tile: doubling a power of two gives
/// the next power of two, and nothing else is ever written.
pub proof fn lemma_merge_preserves_tiles(line: Seq<usize>, dir: Placement)
    requires
        valid_line(line),
        seq_sum(line) <= usize::MAX,
    ensures
        valid_line(merge_spec(line, dir)),
{
    if dir == Placement::End {
        lemma_merge_end_valid(line);
    } else {
        assert(valid_line(line.reverse()));
        lemma_sum_reverse(line);
        lemma_merge_end_valid(line.reverse());
        let m = merge_end(line.reverse());
        assert(valid_line(m.reverse()));
    }
}

proof fn lemma_merge_end_valid(s: Seq<usize>)
    requires
        valid_line(s),
        seq_sum(s) <= usize::MAX,
    ensures
        valid_line(merge_end(s)),
{
    lemma_sum_nonzeros(s);
    lemma_nonzeros_valid(s);
    lemma_merge_pairs_valid(nonzeros(s));
    lemma_merge_end_len(s);
    let m = merge_pairs(nonzeros(s));
    let pad = zero_pad(s.len() - m.len());
    assert forall|i: int| 0 <= i < merge_end(s).len() implies merge_end(s)[i] == 0 || is_tile(
        #[trigger] merge_end(s)[i],
    ) by {
        if i < pad.len() {
            assert(merge_end(s)[i] == 0);
        } else {
            assert(merge_end(s)[i] == m[i - pad.len()]);
        }
    }
}

fn zero_vec(n: usize) -> (r: Vec<usize>)
    ensures
        r@ == zero_pad(n as int),
{
    let mut r: Vec<usize> = Vec::new();
    let mut i: usize = 0;
    while i < n
        invariant
            i <= n,
            r@.len() == i as int,
            forall|t: int| 0 <= t < i ==> r@[t] == 0usize,
        decreases n - i,
    {
        r.push(0);
        i += 1;
    }
    proof {
        assert(r@ =~= zero_pad(n as int));
    }
    r
}

fn reversed(v: &Vec<usize>) -> (r: Vec<usize>)
    ensures
        r@ == v@.reverse(),
{
    let mut r: Vec<usize> = Vec::new();
    let mut i: usize = v.len();
    while i > 0
        invariant
            i <= v@.len(),
            r@.len() == v@.len() - i,
            forall|k: int| 0 <= k < r@.len() ==> r@[k] == v@[v@.len() - 1 - k],
        decreases i,
    {
        i = i - 1;
        r.push(v[i]);
    }
    proof {
        assert(r@ =~= v@.reverse());
    }
    r
}

fn copied(v: &Vec<usize>) -> (r: Vec<usize>)
    ensures
        r@ == v@,
{
    let mut r: Vec<usize> = Vec::new();
    let mut i: usize = 0;
    while i < v.len()
        invariant
            i <= v@.len(),
            r@ == v@.take(i as int),
        decreases v@.len() - i,
    {
        r.push(v[i]);
        i += 1;
        proof {
            assert(v@.take(i as int) =~= v@.take(i - 1).push(v@[i - 1]));
        }
    }
    proof {
        assert(v@.take(v@.len() as int) =~= v@);
    }
    r
}

fn collect_nonzeros(v: &Vec<usize>) -> (r: Vec<usize>)
    ensures
        r@ == nonzeros(v@),
{
    let mut r: Vec<usize> = Vec::new();
    let mut i: usize = 0;
    while i < v.len()
        invariant
            i <= v@.len(),
            r@ == nonzeros(v@.take(i as int)),
        decreases v@.len() - i,
    {
        let x = v[i];
        if x != 0 {
            r.push(x);
        }
        i += 1;
        proof {
            let t = v@.take(i as int);
            assert(t.drop_last() =~= v@.take(i - 1));
            assert(t.last() == v@[i - 1]);
        }
    }
    proof {
        assert(v@.take(v@.len() as int) =~= v@);
    }
    r
}

fn merge_line_end(nz: &Vec<usize>) -> (r: (Vec<usize>, usize))
    requires
        seq_sum(nz@) <= usize::MAX,
    ensures
        r.0@ == merge_pairs(nz@),
        r.1 == merge_pair_points(nz@),
{
    let mut i: usize = nz.len();
    let mut acc_rev: Vec<usize> = Vec::new();
    let mut points: usize = 0;
    proof {
        assert(nz@.take(i as int) =~= nz@);
    }
    while i > 0
        invariant
            i <= nz@.len(),
            seq_sum(nz@) <= usize::MAX,
            merge_pairs(nz@) == merge_pairs(nz@.take(i as int)) + acc_rev@.reverse(),
            merge_pair_points(nz@) == merge_pair_points(nz@.take(i as int)) + points,
        decreases i,
    {
        let ghost pre = nz@.take(i as int);
        proof {
            lemma_merge_pair_points_le_sum(nz@);
            lemma_merge_pair_points_nonneg(pre);
            lemma_seq_sum_nonneg(nz@);
        }
        if i >= 2 && nz[i - 1] == nz[i - 2] {
            let v = nz[i - 1];
            proof {
                assert(pre.last() == v && pre[pre.len() - 2] == v);
                assert(pre.take(pre.len() - 2) =~= nz@.take(i - 2));
                lemma_merge_pair_points_nonneg(nz@.take(i - 2));
                assert(merge_pair_points(pre) == merge_pair_points(nz@.take(i - 2)) + 2 * v);
                assert(points + 2 * v <= merge_pair_points(nz@) <= usize::MAX);
            }
            let merged = v + v;
            proof {
                lemma_reverse_push(acc_rev@, merged);
                assert(merge_pairs(pre) == merge_pairs(nz@.take(i - 2)).push(merged));
                assert(merge_pairs(nz@.take(i - 2)).push(merged) + acc_rev@.reverse()
                    =~= merge_pairs(nz@.take(i - 2)) + (seq![merged] + acc_rev@.reverse()));
            }
            acc_rev.push(merged);
            points = points + merged;
            i = i - 2;
        } else {
            let v = nz[i - 1];
            proof {
                assert(pre.last() == v);
                if i >= 2 {
                    assert(pre.take(pre.len() - 1) =~= nz@.take(i - 1));
                    assert(merge_pairs(pre) == merge_pairs(nz@.take(i - 1)).push(v));
                } else {
                    assert(pre =~= seq![v]);
                    assert(nz@.take(i - 1) =~= Seq::<usize>::empty());
                    assert(merge_pairs(pre) == merge_pairs(nz@.take(i - 1)).push(v)) by {
                        assert(merge_pairs(seq![v]) == seq![v]);
                        assert(merge_pairs(Seq::<usize>::empty()) =~= Seq::<usize>::empty());
                        assert(Seq::<usize>::empty().push(v) =~= seq![v]);
                    }
                    assert(merge_pair_points(pre) == merge_pair_points(nz@.take(i - 1)));
                }
                lemma_reverse_push(acc_rev@, v);
                assert(merge_pairs(nz@.take(i - 1)).push(v) + acc_rev@.reverse()
                    =~= merge_pairs(nz@.take(i - 1)) + (seq![v] + acc_rev@.reverse()));
            }
            acc_rev.push(v);
            i = i - 1;
        }
    }
    proof {
        assert(nz@.take(0) =~= Seq::<usize>::empty());
        assert(merge_pairs(Seq::<usize>::empty()) =~= Seq::<usize>::empty());
        assert(Seq::<usize>::empty() + acc_rev@.reverse() =~= acc_rev@.reverse());
    }
    let out = reversed(&acc_rev);
    proof {
        lemma_reverse_involution(acc_rev@);
    }
    (out, points)
}

/// Moves every zero of the line to the front (`Placement::End`) or to the
/// back (`Placement::Start`), keeping the relative order of the non-zero
/// values: the compaction step of a merge toward that end.
pub fn sort_zeros(arr: &mut Vec<usize>, dir: Placement)
    ensures
        final(arr)@.len() == old(arr)@.len(),
        dir == Placement::End ==> final(arr)@ == zero_pad(
            old(arr)@.len() - nonzeros(old(arr)@).len(),
        ) + nonzeros(old(arr)@),
        dir == Placement::Start ==> final(arr)@ == nonzeros(old(arr)@) + zero_pad(
            old(arr)@.len() - nonzeros(old(arr)@).len(),
        ),
{
    let n = arr.len();
    let mut nz = collect_nonzeros(arr);
    proof {
        lemma_sum_nonzeros(arr@);
    }
    let k = nz.len();
    let mut out = zero_vec(n - k);
    if dir == Placement::End {
        out.append(&mut nz);
        *arr = out;
    } else {
        nz.append(&mut out);
        *arr = nz;
    }
}

/// Merges a line the way the puzzle does: gaps collapse toward the far end,
/// equal adjacent tiles pair up into their doubled value starting from the
/// merge end, and each tile merges at most once. Returns the merged line and
/// the points scored, which are the sum of the merged values produced.
pub fn merge_2048(arr: &Vec<usize>, dir: Placement) -> (r: (Vec<usize>, usize))
    requires
        seq_sum(arr@) <= usize::MAX,
    ensures
        r.0@ == merge_spec(arr@, dir),
        r.1 == points_spec(arr@, dir),
        r.0@.len() == arr@.len(),
{
    let oriented = if dir == Placement::End {
        copied(arr)
    } else {
        reversed(arr)
    };
    proof {
        lemma_sum_reverse(arr@);
        lemma_sum_nonzeros(oriented@);
    }
    let nz = collect_nonzeros(&oriented);
    let (mut merged, points) = merge_line_end(&nz);
    proof {
        lemma_merge_end_len(oriented@);
    }
    let k = merged.len();
    let n = arr.len();
    let mut out = zero_vec(n - k);
    out.append(&mut merged);
    proof {
        assert(out@ == merge_end(oriented@));
        lemma_merge_spec_len(arr@, dir);
    }
    if dir == Placement::End {
        (out, points)
    } else {
        let flipped = reversed(&out);
        (flipped, points)
    }
}

} // verus!
