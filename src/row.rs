//! The model of a row: its tiles, how a move to the left merges them, the
//! points it earns, the laws of that reduction, and the reduction itself.
use vstd::prelude::*;

verus! {

/// The tiles of a row in order, empty cells left out.
pub open spec fn tiles(row: Seq<u32>) -> Seq<u32>
    decreases row.len(),
{
    if row.len() == 0 {
        seq![]
    } else if row.last() == 0 {
        tiles(row.drop_last())
    } else {
        tiles(row.drop_last()).push(row.last())
    }
}

/// Merges a dense run of tiles left to right: two equal neighbours become one
/// tile of twice the value, and a merged tile takes part in no further merge.
pub open spec fn merge(t: Seq<u32>) -> Seq<u32>
    decreases t.len(),
{
    if t.len() >= 2 && t[0] == t[1] {
        seq![(t[0] + t[0]) as u32] + merge(t.subrange(2, t.len() as int))
    } else if t.len() >= 1 {
        seq![t[0]] + merge(t.subrange(1, t.len() as int))
    } else {
        seq![]
    }
}

/// The points that `merge` earns: the sum of the tiles it produces by merging.
pub open spec fn merge_gain(t: Seq<u32>) -> int
    decreases t.len(),
{
    if t.len() >= 2 && t[0] == t[1] {
        t[0] + t[0] + merge_gain(t.subrange(2, t.len() as int))
    } else if t.len() >= 1 {
        merge_gain(t.subrange(1, t.len() as int))
    } else {
        0
    }
}

/// Every tile that `merge` produces by merging fits in a `u32`.
pub open spec fn merge_fits(t: Seq<u32>) -> bool
    decreases t.len(),
{
    if t.len() >= 2 && t[0] == t[1] {
        t[0] + t[0] <= u32::MAX && merge_fits(t.subrange(2, t.len() as int))
    } else if t.len() >= 1 {
        merge_fits(t.subrange(1, t.len() as int))
    } else {
        true
    }
}

/// `n` empty cells.
pub open spec fn empties(n: nat) -> Seq<u32> {
    Seq::new(n, |k: int| 0u32)
}

/// `s` followed by empty cells up to length `n`.
pub open spec fn pad(s: Seq<u32>, n: nat) -> Seq<u32> {
    s + empties((n - s.len()) as nat)
}

/// The row read from right to left.
pub open spec fn reversed(s: Seq<u32>) -> Seq<u32> {
    Seq::new(s.len(), |j: int| s[s.len() - 1 - j])
}

/// No two neighbouring values are equal.
pub open spec fn distinct_neighbours(t: Seq<u32>) -> bool {
    forall|k: int| 0 <= k < t.len() - 1 ==> #[trigger] t[k] != t[k + 1]
}

/// The sum of the values.
pub open spec fn total(s: Seq<u32>) -> int
    decreases s.len(),
{
    if s.len() == 0 {
        0
    } else {
        s[0] + total(s.subrange(1, s.len() as int))
    }
}

/// A row after a move to the left: compacted, merged and padded back to its length.
pub open spec fn reduce(row: Seq<u32>) -> Seq<u32> {
    pad(merge(tiles(row)), row.len())
}

/// The points that a move to the left earns on one row.
pub open spec fn row_gain(row: Seq<u32>) -> int {
    merge_gain(tiles(row))
}

/// A move to the left on the row does not overflow a tile.
pub open spec fn row_fits(row: Seq<u32>) -> bool {
    merge_fits(tiles(row))
}

proof fn lemma_tiles_len(row: Seq<u32>)
    ensures
        tiles(row).len() <= row.len(),
        forall|k: int| 0 <= k < tiles(row).len() ==> tiles(row)[k] != 0,
    decreases row.len(),
{
    if row.len() > 0 {
        lemma_tiles_len(row.drop_last());
    }
}

proof fn lemma_merge_len(t: Seq<u32>)
    ensures
        merge(t).len() <= t.len(),
    decreases t.len(),
{
    if t.len() >= 2 && t[0] == t[1] {
        lemma_merge_len(t.subrange(2, t.len() as int));
    } else if t.len() >= 1 {
        lemma_merge_len(t.subrange(1, t.len() as int));
    }
}

proof fn lemma_merge_gain_nonneg(t: Seq<u32>)
    ensures
        merge_gain(t) >= 0,
    decreases t.len(),
{
    if t.len() >= 2 && t[0] == t[1] {
        lemma_merge_gain_nonneg(t.subrange(2, t.len() as int));
    } else if t.len() >= 1 {
        lemma_merge_gain_nonneg(t.subrange(1, t.len() as int));
    }
}

pub(crate) proof fn lemma_row_gain_nonneg(row: Seq<u32>)
    ensures
        row_gain(row) >= 0,
{
    lemma_merge_gain_nonneg(tiles(row));
}

/// A row without empty cells is its own run of tiles.
pub(crate) proof fn lemma_tiles_of_dense(s: Seq<u32>)
    requires
        forall|k: int| 0 <= k < s.len() ==> s[k] != 0,
    ensures
        tiles(s) == s,
    decreases s.len(),
{
    if s.len() > 0 {
        lemma_tiles_of_dense(s.drop_last());
        assert(s.drop_last().push(s.last()) == s);
    }
}

/// Empty cells appended to a row add no tile.
proof fn lemma_tiles_pad(s: Seq<u32>, n: nat)
    ensures
        tiles(s + empties(n)) == tiles(s),
    decreases n,
{
    if n > 0 {
        assert((s + empties(n)).drop_last() == s + empties((n - 1) as nat));
        lemma_tiles_pad(s, (n - 1) as nat);
    } else {
        assert(s + empties(n) == s);
    }
}

/// The tiles of a row with one more cell in front.
proof fn lemma_tiles_cons(x: u32, u: Seq<u32>)
    ensures
        tiles(seq![x] + u) == if x == 0 {
            tiles(u)
        } else {
            seq![x] + tiles(u)
        },
    decreases u.len(),
{
    let v = seq![x] + u;
    if u.len() == 0 {
        assert(v == seq![x]);
        assert(v.drop_last() == u);
        assert(tiles(u) == Seq::<u32>::empty());
        assert(tiles(u).push(x) == seq![x] + tiles(u));
    } else {
        assert(v.drop_last() == seq![x] + u.drop_last());
        lemma_tiles_cons(x, u.drop_last());
        if x != 0 && u.last() != 0 {
            assert((seq![x] + tiles(u.drop_last())).push(u.last()) == seq![x] + tiles(u.drop_last()).push(
                u.last(),
            ));
        }
    }
}

/// Empty cells put in front of a row add no tile.
proof fn lemma_tiles_empties_front(n: nat, s: Seq<u32>)
    ensures
        tiles(empties(n) + s) == tiles(s),
    decreases n,
{
    if n > 0 {
        assert(empties(n) + s == seq![0u32] + (empties((n - 1) as nat) + s));
        lemma_tiles_cons(0, empties((n - 1) as nat) + s);
        lemma_tiles_empties_front((n - 1) as nat, s);
    } else {
        assert(empties(n) + s == s);
    }
}

/// The tiles of a reversed row are its tiles reversed.
proof fn lemma_tiles_reversed(s: Seq<u32>)
    ensures
        tiles(reversed(s)) == reversed(tiles(s)),
    decreases s.len(),
{
    if s.len() == 0 {
        assert(reversed(s) == s);
        assert(reversed(tiles(s)) == tiles(s));
    } else {
        let d = s.drop_last();
        assert(reversed(s) == seq![s.last()] + reversed(d));
        lemma_tiles_cons(s.last(), reversed(d));
        lemma_tiles_reversed(d);
        if s.last() != 0 {
            assert(reversed(tiles(d).push(s.last())) == seq![s.last()] + reversed(tiles(d)));
        }
    }
}

proof fn lemma_reversed_twice(s: Seq<u32>)
    ensures
        reversed(reversed(s)) == s,
{
    assert(reversed(reversed(s)) == s);
}

proof fn lemma_distinct_reversed(t: Seq<u32>)
    requires
        distinct_neighbours(t),
    ensures
        distinct_neighbours(reversed(t)),
{
    let r = reversed(t);
    assert forall|k: int| 0 <= k < r.len() - 1 implies #[trigger] r[k] != r[k + 1] by {
        let m = t.len() - 2 - k;
        assert(t[m] != t[m + 1]);
    }
}

/// Tiles without equal neighbours are not merged.
pub(crate) proof fn lemma_merge_distinct(t: Seq<u32>)
    requires
        distinct_neighbours(t),
    ensures
        merge(t) == t,
    decreases t.len(),
{
    if t.len() >= 1 {
        let rest = t.subrange(1, t.len() as int);
        if t.len() >= 2 {
            assert(t[0] != t[1]);
        }
        assert forall|k: int| 0 <= k < rest.len() - 1 implies #[trigger] rest[k] != rest[k + 1] by {
            assert(t[k + 1] != t[k + 2]);
        }
        lemma_merge_distinct(rest);
        assert(seq![t[0]] + rest == t);
    }
}

/// Setting an empty cell to a tile adds exactly one tile to the row.
pub(crate) proof fn lemma_tiles_fill(row: Seq<u32>, j: int, v: u32)
    requires
        0 <= j < row.len(),
        row[j] == 0,
        v != 0,
    ensures
        tiles(row.update(j, v)).len() == tiles(row).len() + 1,
    decreases row.len(),
{
    let r2 = row.update(j, v);
    if j == row.len() - 1 {
        assert(r2.drop_last() == row.drop_last());
    } else {
        assert(r2.drop_last() == row.drop_last().update(j, v));
        lemma_tiles_fill(row.drop_last(), j, v);
    }
}

/// Merging tiles that fit yields tiles only.
proof fn lemma_merge_nonzero(t: Seq<u32>)
    requires
        merge_fits(t),
        forall|k: int| 0 <= k < t.len() ==> t[k] != 0,
    ensures
        forall|k: int| 0 <= k < merge(t).len() ==> merge(t)[k] != 0,
    decreases t.len(),
{
    if t.len() >= 2 && t[0] == t[1] {
        let rest = t.subrange(2, t.len() as int);
        lemma_merge_nonzero(rest);
        let head = seq![(t[0] + t[0]) as u32];
        assert(head[0] != 0);
        assert forall|k: int| 0 <= k < merge(t).len() implies merge(t)[k] != 0 by {
            if k > 0 {
                assert(merge(t)[k] == merge(rest)[k - 1]);
            }
        }
    } else if t.len() >= 1 {
        let rest = t.subrange(1, t.len() as int);
        lemma_merge_nonzero(rest);
        assert forall|k: int| 0 <= k < merge(t).len() implies merge(t)[k] != 0 by {
            if k > 0 {
                assert(merge(t)[k] == merge(rest)[k - 1]);
            }
        }
    }
}

/// A merge that keeps the number of tiles merged nothing and earned nothing.
proof fn lemma_merge_keeps_len(t: Seq<u32>)
    requires
        merge(t).len() == t.len(),
    ensures
        merge_gain(t) == 0,
        merge(t) == t,
        distinct_neighbours(t),
    decreases t.len(),
{
    if t.len() >= 2 && t[0] == t[1] {
        lemma_merge_len(t.subrange(2, t.len() as int));
    } else if t.len() >= 1 {
        let rest = t.subrange(1, t.len() as int);
        lemma_merge_keeps_len(rest);
        assert(seq![t[0]] + rest == t);
        assert forall|k: int| 0 <= k < t.len() - 1 implies #[trigger] t[k] != t[k + 1] by {
            if k > 0 {
                assert(rest[k - 1] != rest[k]);
            }
        }
    }
}

/// A row keeps its length under a move to the left.
pub(crate) proof fn lemma_reduce_len(row: Seq<u32>)
    ensures
        reduce(row).len() == row.len(),
{
    lemma_tiles_len(row);
    lemma_merge_len(tiles(row));
}

/// A row that a move to the left leaves as it is has no equal neighbouring
/// tiles and earns no points.
pub(crate) proof fn lemma_reduce_fixed(row: Seq<u32>)
    requires
        reduce(row) == row,
    ensures
        merge(tiles(row)) == tiles(row),
        distinct_neighbours(tiles(row)),
        row_gain(row) == 0,
{
    let t = tiles(row);
    let m = merge(t);
    lemma_tiles_len(row);
    lemma_merge_len(t);
    lemma_tiles_pad(m, (row.len() - m.len()) as nat);
    lemma_tiles_len(m);
    lemma_merge_keeps_len(t);
}

/// A row with as many tiles as cells is its own run of tiles.
proof fn lemma_tiles_all(row: Seq<u32>)
    requires
        tiles(row).len() == row.len(),
    ensures
        tiles(row) == row,
    decreases row.len(),
{
    if row.len() > 0 {
        let d = row.drop_last();
        lemma_tiles_len(d);
        lemma_tiles_all(d);
        assert(d.push(row.last()) == row);
    }
}

/// A row that a move to the left changes ends in an empty cell.
pub(crate) proof fn lemma_reduce_changed_ends_empty(row: Seq<u32>)
    requires
        row.len() == 4,
        reduce(row) != row,
    ensures
        reduce(row)[3] == 0,
{
    let t = tiles(row);
    let m = merge(t);
    lemma_tiles_len(row);
    lemma_merge_len(t);
    if m.len() == 4 {
        lemma_tiles_all(row);
        lemma_merge_keeps_len(t);
        assert(reduce(row) == row + empties(0));
        assert(row + empties(0) == row);
    }
}

/// The tiles of a reduced row are the merged tiles of the row.
proof fn lemma_tiles_of_reduce(row: Seq<u32>)
    requires
        row_fits(row),
    ensures
        tiles(reduce(row)) == merge(tiles(row)),
        reduce(row).len() == row.len(),
{
    lemma_tiles_len(row);
    lemma_merge_len(tiles(row));
    lemma_merge_nonzero(tiles(row));
    let m = merge(tiles(row));
    lemma_tiles_pad(m, (row.len() - m.len()) as nat);
    lemma_tiles_of_dense(m);
}

proof fn lemma_total_cons(x: u32, u: Seq<u32>)
    ensures
        total(seq![x] + u) == x + total(u),
{
    assert((seq![x] + u).subrange(1, u.len() + 1 as int) == u);
}

proof fn lemma_total_push(s: Seq<u32>, x: u32)
    ensures
        total(s.push(x)) == total(s) + x,
    decreases s.len(),
{
    if s.len() > 0 {
        let rest = s.subrange(1, s.len() as int);
        assert(s.push(x).subrange(1, s.len() + 1 as int) == rest.push(x));
        lemma_total_push(rest, x);
    } else {
        assert(s.push(x).subrange(1, 1) == s);
    }
}

proof fn lemma_total_tiles(row: Seq<u32>)
    ensures
        total(tiles(row)) == total(row),
        forall|k: int| 0 <= k < tiles(row).len() ==> exists|m: int| 0 <= m < row.len() && #[trigger] tiles(row)[k] == row[m],
    decreases row.len(),
{
    if row.len() > 0 {
        let d = row.drop_last();
        lemma_total_tiles(d);
        lemma_total_push(d, row.last());
        assert(d.push(row.last()) == row);
        if row.last() != 0 {
            lemma_total_push(tiles(d), row.last());
        }
        assert forall|k: int| 0 <= k < tiles(row).len() implies exists|m: int| 0 <= m < row.len() && #[trigger] tiles(row)[k] == row[m] by {
            if k < tiles(d).len() {
                let m = choose|m: int| 0 <= m < d.len() && tiles(d)[k] == d[m];
                assert(tiles(row)[k] == row[m]);
            } else {
                assert(tiles(row)[k] == row[row.len() - 1]);
            }
        }
    }
}

proof fn lemma_merge_bounded(t: Seq<u32>)
    requires
        forall|k: int| 0 <= k < t.len() ==> #[trigger] t[k] < 0x8000_0000,
    ensures
        merge_fits(t),
        merge_gain(t) <= total(t),
    decreases t.len(),
{
    if t.len() >= 2 && t[0] == t[1] {
        let rest = t.subrange(2, t.len() as int);
        lemma_merge_bounded(rest);
        let t1 = t.subrange(1, t.len() as int);
        assert(t1.subrange(1, t1.len() as int) == rest);
        assert(total(t) == t[0] + total(t1));
        assert(total(t1) == t1[0] + total(rest));
    } else if t.len() >= 1 {
        let rest = t.subrange(1, t.len() as int);
        lemma_merge_bounded(rest);
    }
}

pub(crate) proof fn lemma_row_bounded(row: Seq<u32>)
    requires
        row.len() == 4,
        forall|k: int| 0 <= k < 4 ==> #[trigger] row[k] < 0x8000_0000,
    ensures
        row_fits(row),
        0 <= row_gain(row) <= row[0] + row[1] + row[2] + row[3],
{
    lemma_total_tiles(row);
    lemma_merge_gain_nonneg(tiles(row));
    assert forall|k: int| 0 <= k < tiles(row).len() implies #[trigger] tiles(row)[k] < 0x8000_0000 by {
        let m = choose|m: int| 0 <= m < row.len() && tiles(row)[k] == row[m];
    }
    lemma_merge_bounded(tiles(row));
    reveal_with_fuel(total, 5);
}

/// A row that a move to the right leaves as it is comes back after a move to
/// the left followed by a move to the right.
pub proof fn lemma_row_left_right(r: Seq<u32>)
    requires
        reversed(reduce(reversed(r))) == r,
    ensures
        reversed(reduce(reversed(reduce(r)))) == r,
{
    let t = tiles(r);
    let q = reversed(r);
    lemma_reversed_twice(reduce(q));
    assert(reduce(q) == q);
    lemma_reduce_fixed(q);
    lemma_tiles_reversed(r);
    lemma_reversed_twice(t);
    lemma_distinct_reversed(reversed(t));
    lemma_merge_distinct(t);
    lemma_tiles_len(r);
    let p = reduce(r);
    let n = (r.len() - t.len()) as nat;
    assert(p == t + empties(n));
    assert(reversed(p) == empties(n) + reversed(t));
    lemma_tiles_empties_front(n, reversed(t));
    lemma_tiles_of_dense(t);
    lemma_tiles_reversed(t);
    assert(tiles(reversed(p)) == tiles(q));
}

/// A row whose tiles have no equal neighbours: a move to the left followed by
/// a move to the right ends as a move to the right alone, and neither move
/// earns a point.
pub proof fn lemma_row_left_right_no_merge(r: Seq<u32>)
    requires
        distinct_neighbours(tiles(r)),
    ensures
        reversed(reduce(reversed(reduce(r)))) == reversed(reduce(reversed(r))),
        row_gain(r) == 0,
        row_gain(reversed(reduce(r))) == 0,
{
    let t = tiles(r);
    lemma_merge_distinct(t);
    lemma_merge_keeps_len(t);
    lemma_tiles_len(r);
    let p = reduce(r);
    let n = (r.len() - t.len()) as nat;
    assert(p == t + empties(n));
    assert(reversed(p) == empties(n) + reversed(t));
    lemma_tiles_empties_front(n, reversed(t));
    lemma_tiles_of_dense(t);
    lemma_tiles_reversed(t);
    lemma_tiles_reversed(r);
    assert(tiles(reversed(p)) == tiles(reversed(r)));
    lemma_distinct_reversed(t);
    lemma_merge_distinct(reversed(t));
    lemma_merge_keeps_len(reversed(t));
}

/// Without a merge a row earns nothing: when merging leaves the tiles of the
/// row as they are, its gain is 0.
pub proof fn lemma_no_merge_no_gain(row: Seq<u32>)
    requires
        merge(tiles(row)) == tiles(row),
    ensures
        row_gain(row) == 0,
{
    lemma_merge_keeps_len(tiles(row));
}

/// Merging keeps the total of the tile values, never adds a tile, removes at
/// most half of them (a tile takes part in one merge at most), and yields
/// only tiles of the run or doubles of a value that two of its tiles share.
pub proof fn lemma_merge_conserves(t: Seq<u32>)
    requires
        merge_fits(t),
    ensures
        merge(t).len() <= t.len(),
        2 * merge(t).len() >= t.len(),
        total(merge(t)) == total(t),
        forall|k: int|
            0 <= k < merge(t).len() ==> t.contains(#[trigger] merge(t)[k]) || exists|a: int, b: int|
                0 <= a < b < t.len() && t[a] == t[b] && merge(t)[k] == t[a] + t[a],
    decreases t.len(),
{
    lemma_merge_len(t);
    if t.len() >= 2 && t[0] == t[1] {
        let rest = t.subrange(2, t.len() as int);
        lemma_merge_conserves(rest);
        let v = (t[0] + t[0]) as u32;
        lemma_total_cons(v, merge(rest));
        let t1 = t.subrange(1, t.len() as int);
        assert(t1.subrange(1, t1.len() as int) == rest);
        assert(total(t) == t[0] + total(t1));
        assert(total(t1) == t1[0] + total(rest));
        assert(v == t[0] + t[0]);
        assert forall|k: int| 0 <= k < merge(t).len() implies t.contains(#[trigger] merge(t)[k]) || exists|
            a: int,
            b: int,
        | 0 <= a < b < t.len() && t[a] == t[b] && merge(t)[k] == t[a] + t[a] by {
            if k == 0 {
                assert(0 < 1 < t.len() && t[0] == t[1] && merge(t)[0] == t[0] + t[0]);
            } else {
                let x = merge(rest)[k - 1];
                assert(merge(t)[k] == x);
                if rest.contains(x) {
                    let m = choose|m: int| 0 <= m < rest.len() && rest[m] == x;
                    assert(t[m + 2] == x);
                } else {
                    let (a, b) = choose|a: int, b: int|
                        0 <= a < b < rest.len() && rest[a] == rest[b] && x == rest[a] + rest[a];
                    assert(t[a + 2] == t[b + 2] && x == t[a + 2] + t[a + 2]);
                }
            }
        }
    } else if t.len() >= 1 {
        let rest = t.subrange(1, t.len() as int);
        lemma_merge_conserves(rest);
        lemma_total_cons(t[0], merge(rest));
        assert forall|k: int| 0 <= k < merge(t).len() implies t.contains(#[trigger] merge(t)[k]) || exists|
            a: int,
            b: int,
        | 0 <= a < b < t.len() && t[a] == t[b] && merge(t)[k] == t[a] + t[a] by {
            if k == 0 {
                assert(t[0] == merge(t)[0]);
            } else {
                let x = merge(rest)[k - 1];
                assert(merge(t)[k] == x);
                if rest.contains(x) {
                    let m = choose|m: int| 0 <= m < rest.len() && rest[m] == x;
                    assert(t[m + 1] == x);
                } else {
                    let (a, b) = choose|a: int, b: int|
                        0 <= a < b < rest.len() && rest[a] == rest[b] && x == rest[a] + rest[a];
                    assert(t[a + 1] == t[b + 1] && x == t[a + 1] + t[a + 1]);
                }
            }
        }
    }
}

/// A move to the left conserves the tiles of a row: the reduced row holds no
/// more tiles than the row and at least half as many, the same total of tile values, and each of its
/// tiles is either a tile of the row or the double of a value that two tiles
/// of the row share.
pub proof fn lemma_reduce_conserves(row: Seq<u32>)
    requires
        row_fits(row),
    ensures
        tiles(reduce(row)).len() <= tiles(row).len(),
        2 * tiles(reduce(row)).len() >= tiles(row).len(),
        total(tiles(reduce(row))) == total(tiles(row)),
        forall|k: int|
            0 <= k < tiles(reduce(row)).len() ==> tiles(row).contains(#[trigger] tiles(reduce(row))[k])
                || exists|a: int, b: int|
                0 <= a < b < tiles(row).len() && tiles(row)[a] == tiles(row)[b] && tiles(reduce(row))[k]
                    == tiles(row)[a] + tiles(row)[a],
{
    lemma_tiles_of_reduce(row);
    lemma_merge_conserves(tiles(row));
}

/// The tiles of a row in order, empty cells left out.
fn compact(row: [u32; 4]) -> (r: Vec<u32>)
    ensures
        r@ == tiles(row@),
        r@.len() <= 4,
{
    let mut non_zero: Vec<u32> = Vec::new();
    let mut col: usize = 0;
    while col < 4
        invariant
            col <= 4,
            non_zero@ == tiles(row@.take(col as int)),
        decreases 4 - col,
    {
        assert(row@.take(col + 1).drop_last() == row@.take(col as int));
        if row[col] != 0 {
            non_zero.push(row[col]);
        }
        col += 1;
    }
    assert(row@.take(4) == row@);
    proof {
        lemma_tiles_len(row@);
    }
    non_zero
}

/// Whether a move to the left on the row keeps every merged tile within
/// `u32`, and if so the points it earns.
pub fn row_check(row: [u32; 4]) -> (r: (bool, u64))
    ensures
        r.0 == row_fits(row@),
        r.0 ==> r.1 == row_gain(row@),
        r.1 <= 0x2_0000_0000,
{
    let non_zero = compact(row);
    let ghost t = non_zero@;
    let mut gained: u64 = 0;
    let mut i: usize = 0;
    assert(t.subrange(0, t.len() as int) == t);
    while i < non_zero.len()
        invariant
            t == non_zero@,
            t == tiles(row@),
            t.len() <= 4,
            i <= t.len(),
            gained <= i * 0x8000_0000,
            gained + merge_gain(t.subrange(i as int, t.len() as int)) == merge_gain(t),
            merge_fits(t) == merge_fits(t.subrange(i as int, t.len() as int)),
        decreases t.len() - i,
    {
        let ghost rest = t.subrange(i as int, t.len() as int);
        if i + 1 < non_zero.len() && non_zero[i] == non_zero[i + 1] {
            assert(rest.subrange(2, rest.len() as int) == t.subrange(i + 2, t.len() as int));
            if non_zero[i] > 0x7fff_ffff {
                return (false, 0);
            }
            gained = gained + 2 * (non_zero[i] as u64);
            i += 2;
        } else {
            assert(rest.subrange(1, rest.len() as int) == t.subrange(i + 1, t.len() as int));
            i += 1;
        }
    }
    assert(t.subrange(i as int, t.len() as int) == Seq::<u32>::empty());
    (true, gained)
}

/// Moves one row to the left: drops the empty cells, merges equal neighbours
/// pairwise from the left and pads with empty cells. Returns the new row and
/// the points earned.
pub fn slide_row(row: [u32; 4]) -> (r: ([u32; 4], u32))
    requires
        row_fits(row@),
        row_gain(row@) <= u32::MAX,
    ensures
        r.0@ == reduce(row@),
        r.1 == row_gain(row@),
{
    let non_zero = compact(row);
    let mut merged: Vec<u32> = Vec::new();
    let mut gained: u32 = 0;
    let mut i: usize = 0;
    let ghost t = non_zero@;
    assert(t.subrange(0, t.len() as int) == t);
    while i < non_zero.len()
        invariant
            t == non_zero@,
            t == tiles(row@),
            t.len() <= 4,
            i <= t.len(),
            merged@ + merge(t.subrange(i as int, t.len() as int)) == merge(t),
            gained + merge_gain(t.subrange(i as int, t.len() as int)) == merge_gain(t),
            merge_fits(t.subrange(i as int, t.len() as int)),
            merge_gain(t) <= u32::MAX,
            merged@.len() <= i,
        decreases t.len() - i,
    {
        let ghost rest = t.subrange(i as int, t.len() as int);
        if i + 1 < non_zero.len() && non_zero[i] == non_zero[i + 1] {
            assert(rest.subrange(2, rest.len() as int) == t.subrange(i + 2, t.len() as int));
            proof {
                lemma_merge_gain_nonneg(t.subrange(i + 2, t.len() as int));
            }
            let v = non_zero[i] + non_zero[i];
            merged.push(v);
            gained = gained + v;
            i += 2;
        } else {
            assert(rest.subrange(1, rest.len() as int) == t.subrange(i + 1, t.len() as int));
            merged.push(non_zero[i]);
            i += 1;
        }
    }
    assert(t.subrange(i as int, t.len() as int) == Seq::<u32>::empty());
    assert(merged@ == merge(t));
    let mut out: [u32; 4] = [0; 4];
    let mut c: usize = 0;
    while c < 4
        invariant
            c <= 4,
            merged@ == merge(t),
            merged@.len() <= 4,
            forall|k: int| 0 <= k < c ==> out@[k] == pad(merged@, 4)[k],
        decreases 4 - c,
    {
        out[c] = if c < merged.len() { merged[c] } else { 0 };
        c += 1;
    }
    assert(out@ == reduce(row@));
    (out, gained)
}

} // verus!
