//! The edit distance between names.

use crate::text::{lowercase, to_chars};
use vstd::prelude::*;

verus! {

/// The smaller of two numbers.
pub open spec fn least(a: int, b: int) -> int {
    if a <= b {
        a
    } else {
        b
    }
}

/// The larger of two numbers.
pub open spec fn most(a: int, b: int) -> int {
    if a >= b {
        a
    } else {
        b
    }
}

/// Whether the last two elements of `a` are those of `b` the other way round.
pub open spec fn swapped_ends(a: Seq<char>, b: Seq<char>) -> bool {
    &&& a.len() > 1
    &&& b.len() > 1
    &&& a[a.len() - 1] == b[b.len() - 2]
    &&& a[a.len() - 2] == b[b.len() - 1]
}

/// The fewest insertions, deletions, replacements and swaps of neighbours that turn
/// `a` into `b`, where no part is edited twice.
pub open spec fn edits(a: Seq<char>, b: Seq<char>) -> int
    decreases a.len() + b.len(),
{
    if a.len() == 0 {
        b.len() as int
    } else if b.len() == 0 {
        a.len() as int
    } else {
        let drop_a = edits(a.drop_last(), b) + 1;
        let drop_b = edits(a, b.drop_last()) + 1;
        let both = edits(a.drop_last(), b.drop_last()) + if a.last() == b.last() {
            0int
        } else {
            1int
        };
        let plain = least(least(drop_a, drop_b), both);
        if swapped_ends(a, b) {
            least(plain, edits(a.take(a.len() - 2), b.take(b.len() - 2)) + 1)
        } else {
            plain
        }
    }
}

/// Law: no more edits are needed than the longer text has characters, and no fewer
/// than the lengths differ by.
pub proof fn law_edits_bounds(a: Seq<char>, b: Seq<char>)
    ensures
        0 <= edits(a, b) <= most(a.len() as int, b.len() as int),
        a.len() - b.len() <= edits(a, b),
        b.len() - a.len() <= edits(a, b),
    decreases a.len() + b.len(),
{
    if a.len() > 0 && b.len() > 0 {
        law_edits_bounds(a.drop_last(), b);
        law_edits_bounds(a, b.drop_last());
        law_edits_bounds(a.drop_last(), b.drop_last());
        if swapped_ends(a, b) {
            law_edits_bounds(a.take(a.len() - 2), b.take(b.len() - 2));
        }
    }
}

/// Law: the distance is the same both ways.
pub proof fn law_edits_symmetric(a: Seq<char>, b: Seq<char>)
    ensures
        edits(a, b) == edits(b, a),
    decreases a.len() + b.len(),
{
    if a.len() > 0 && b.len() > 0 {
        law_edits_symmetric(a.drop_last(), b);
        law_edits_symmetric(a, b.drop_last());
        law_edits_symmetric(a.drop_last(), b.drop_last());
        if swapped_ends(a, b) {
            law_edits_symmetric(a.take(a.len() - 2), b.take(b.len() - 2));
        }
    }
}

/// Law: nothing needs to be edited exactly where the texts are equal.
pub proof fn law_edits_zero(a: Seq<char>, b: Seq<char>)
    ensures
        edits(a, b) == 0 <==> a == b,
    decreases a.len() + b.len(),
{
    if a.len() > 0 && b.len() > 0 {
        law_edits_zero(a.drop_last(), b.drop_last());
        law_edits_bounds(a.drop_last(), b);
        law_edits_bounds(a, b.drop_last());
        law_edits_bounds(a.drop_last(), b.drop_last());
        if swapped_ends(a, b) {
            law_edits_bounds(a.take(a.len() - 2), b.take(b.len() - 2));
        }
        if a == b {
            assert(a.drop_last() =~= b.drop_last());
        } else if a.drop_last() == b.drop_last() && a.last() == b.last() {
            assert(a =~= a.drop_last().push(a.last()));
            assert(b =~= b.drop_last().push(b.last()));
        }
    } else if a.len() == 0 && b.len() == 0 {
        assert(a =~= b);
    }
}

/// Law: texts whose lengths differ by more than `threshold` are more than
/// `threshold` edits apart, so they need not be compared at all.
pub proof fn law_length_filter(a: Seq<char>, b: Seq<char>, threshold: int)
    requires
        a.len() - b.len() > threshold || b.len() - a.len() > threshold,
    ensures
        edits(a, b) > threshold,
{
    law_edits_bounds(a, b);
}

/// The distances from `a` to every beginning of `b`.
pub open spec fn row(a: Seq<char>, b: Seq<char>) -> Seq<int> {
    Seq::new(b.len() + 1, |j: int| edits(a, b.take(j)))
}

/// A list of indices as mathematical integers.
pub open spec fn ints(list: Seq<usize>) -> Seq<int> {
    Seq::new(list.len(), |i: int| list[i] as int)
}

/// The distance of the prefixes `i + 1` and `j + 1` long, from those before it.
proof fn lemma_cell(a: Seq<char>, b: Seq<char>, i: int, j: int)
    requires
        0 <= i < a.len(),
        0 <= j < b.len(),
    ensures
        ({
            let plain = least(
                least(
                    edits(a.take(i), b.take(j + 1)) + 1,
                    edits(a.take(i + 1), b.take(j)) + 1,
                ),
                edits(a.take(i), b.take(j)) + if a[i] == b[j] {
                    0int
                } else {
                    1int
                },
            );
            edits(a.take(i + 1), b.take(j + 1)) == if i > 0 && j > 0 && a[i] == b[j - 1] && a[i - 1]
                == b[j] {
                least(plain, edits(a.take(i - 1), b.take(j - 1)) + 1)
            } else {
                plain
            }
        }),
        0 <= edits(a.take(i + 1), b.take(j + 1)) <= most(i + 1, j + 1),
        0 <= edits(a.take(i), b.take(j + 1)),
        0 <= edits(a.take(i + 1), b.take(j)),
        0 <= edits(a.take(i), b.take(j)) <= most(i, j),
        i > 0 && j > 0 ==> 0 <= edits(a.take(i - 1), b.take(j - 1)),
{
    let x = a.take(i + 1);
    let y = b.take(j + 1);
    assert(x.drop_last() =~= a.take(i));
    assert(y.drop_last() =~= b.take(j));
    if i > 0 && j > 0 {
        assert(x.take(x.len() - 2) =~= a.take(i - 1));
        assert(y.take(y.len() - 2) =~= b.take(j - 1));
        law_edits_bounds(a.take(i - 1), b.take(j - 1));
    }
    law_edits_bounds(x, y);
    law_edits_bounds(a.take(i), y);
    law_edits_bounds(x, b.take(j));
    law_edits_bounds(a.take(i), b.take(j));
}

/// The distance in one cell, from the cells above, to the left, at the corner and,
/// where the last two characters are swapped, two rows and columns back.
fn next_cell(up: usize, left: usize, corner: usize, equal: bool, swap: Option<usize>) -> (r: usize)
    requires
        corner < usize::MAX,
    ensures
        ({
            let plain = least(
                least(up + 1, left + 1),
                corner + if equal {
                    0int
                } else {
                    1int
                },
            );
            r == match swap {
                Some(s) => least(plain, s + 1),
                None => plain,
            }
        }),
{
    let side: usize = if up <= left {
        up
    } else {
        left
    };
    let mut cell: usize = if side < corner {
        side + 1
    } else if equal {
        corner
    } else {
        corner + 1
    };
    if let Some(s) = swap {
        if s < cell {
            cell = s + 1;
        }
    }
    cell
}

/// The edit distance between two character lists.
pub fn edit_distance(a: &Vec<char>, b: &Vec<char>) -> (r: usize)
    ensures
        r == edits(a@, b@),
{
    if a.len() == 0 {
        return b.len();
    }
    if b.len() == 0 {
        return a.len();
    }
    // Row `i` holds the distances from the first `i` characters of `a`.
    let mut table: Vec<Vec<usize>> = Vec::new();
    let mut first: Vec<usize> = Vec::new();
    first.push(0);
    let mut j: usize = 0;
    assert(a@.take(0) =~= Seq::empty());
    while j < b.len()
        invariant
            j <= b@.len(),
            first@.len() == j + 1,
            forall|k: int| 0 <= k <= j ==> first@[k] == k,
        decreases b@.len() - j,
    {
        j = j + 1;
        first.push(j);
    }
    assert(ints(first@) =~= row(a@.take(0), b@));
    table.push(first);
    let mut i: usize = 0;
    while i < a.len()
        invariant
            i <= a@.len(),
            a@.len() > 0,
            b@.len() > 0,
            table@.len() == i + 1,
            forall|k: int| 0 <= k <= i ==> ints(#[trigger] table@[k]@) == row(a@.take(k), b@),
        decreases a@.len() - i,
    {
        let mut next: Vec<usize> = Vec::new();
        next.push(i + 1);
        let mut j: usize = 0;
        assert(b@.take(0) =~= Seq::empty());
        assert(a@.take(i + 1).len() == i + 1);
        while j < b.len()
            invariant
                i < a@.len(),
                j <= b@.len(),
                table@.len() == i + 1,
                forall|k: int| 0 <= k <= i ==> ints(#[trigger] table@[k]@) == row(a@.take(k), b@),
                next@.len() == j + 1,
                forall|k: int| 0 <= k <= j ==> next@[k] == edits(a@.take(i + 1), #[trigger] b@.take(k)),
            decreases b@.len() - j,
        {
            proof {
                lemma_cell(a@, b@, i as int, j as int);
                assert(ints(table@[i as int]@)[j + 1] == row(a@.take(i as int), b@)[j + 1]);
                assert(ints(table@[i as int]@)[j as int] == row(a@.take(i as int), b@)[j as int]);
                assert(ints(table@[i as int]@).len() == b@.len() + 1);
                assert(next@[j as int] == edits(a@.take(i + 1), b@.take(j as int)));
            }
            let up: usize = table[i][j + 1];
            let left: usize = next[j];
            let corner: usize = table[i][j];
            let swap: Option<usize> = if i > 0 && j > 0 && a[i] == b[j - 1] && a[i - 1] == b[j] {
                proof {
                    assert(ints(table@[i - 1]@)[j - 1] == row(a@.take(i - 1), b@)[j - 1]);
                    assert(ints(table@[i - 1]@).len() == b@.len() + 1);
                }
                Some(table[i - 1][j - 1])
            } else {
                None
            };
            assert(i < a.len() && j < b.len());
            let cell: usize = next_cell(up, left, corner, a[i] == b[j], swap);
            assert(cell == edits(a@.take(i + 1), b@.take(j + 1)));
            next.push(cell);
            j = j + 1;
        }
        assert(ints(next@) =~= row(a@.take(i + 1), b@));
        table.push(next);
        i = i + 1;
    }
    assert(a@.take(a@.len() as int) =~= a@);
    assert(b@.take(b@.len() as int) =~= b@);
    assert(ints(table@[a@.len() as int]@)[b@.len() as int] == row(a@, b@)[b@.len() as int]);
    assert(ints(table@[a@.len() as int]@).len() == b@.len() + 1);
    table[a.len()][b.len()]
}

/// The edit distance between two texts, without regard to case.
pub fn damerau_levenshtein(a: &str, b: &str) -> (r: usize)
    ensures
        r == edits(lowercase(a@), lowercase(b@)),
{
    let x = to_chars(a.to_lowercase().as_str());
    let y = to_chars(b.to_lowercase().as_str());
    edit_distance(&x, &y)
}

/// Law: without regard to case, the distance is the same both ways; texts with the same
/// lowercase form are no edit apart, and equally far from every other text.
pub proof fn law_distance_without_case(a: Seq<char>, recased: Seq<char>, b: Seq<char>)
    requires
        lowercase(recased) == lowercase(a),
    ensures
        edits(lowercase(a), lowercase(b)) == edits(lowercase(b), lowercase(a)),
        edits(lowercase(a), lowercase(recased)) == 0,
        edits(lowercase(recased), lowercase(b)) == edits(lowercase(a), lowercase(b)),
{
    law_edits_symmetric(lowercase(a), lowercase(b));
    law_edits_zero(lowercase(a), lowercase(recased));
}

/// The number of characters that `s` has in lowercase.
pub fn lowercase_char_len(s: &str) -> (r: usize)
    ensures
        r == lowercase(s@).len(),
{
    let low = to_chars(s.to_lowercase().as_str());
    low.len()
}

/// How many edits away a keyword of `len` characters may be.
pub open spec fn threshold(len: int) -> int {
    if len <= 2 {
        0
    } else if len <= 4 {
        1
    } else {
        2
    }
}

/// How many edits away a name may be from `keyword` and still count as meant.
pub fn edit_distance_threshold(keyword: &str) -> (r: usize)
    ensures
        r == threshold(keyword@.len() as int),
{
    let len: usize = to_chars(keyword).len();
    if len <= 2 {
        0
    } else if len <= 4 {
        1
    } else {
        2
    }
}

/// The same text behind two others brings them no further apart.
proof fn lemma_common_end(a: Seq<char>, b: Seq<char>, s: Seq<char>)
    ensures
        edits(a + s, b + s) <= edits(a, b),
    decreases s.len(),
{
    if s.len() == 0 {
        assert(a + s =~= a);
        assert(b + s =~= b);
    } else {
        let front = s.drop_last();
        lemma_common_end(a, b, front);
        assert((a + s).drop_last() =~= a + front);
        assert((b + s).drop_last() =~= b + front);
        assert((a + s).last() == (b + s).last());
    }
}

/// Law: one character more or less, one character for another, and two neighbours that
/// change places are one edit each, wherever in a text they stand; each further one costs
/// at most one more.
pub proof fn law_one_edit(p: Seq<char>, s: Seq<char>, c: char, d: char)
    ensures
        edits(p + seq![c] + s, p + s) <= 1,
        edits(p + s, p + seq![c] + s) <= 1,
        edits(p + seq![c] + s, p + seq![d] + s) <= 1,
        edits(p + seq![c, d] + s, p + seq![d, c] + s) <= 1,
{
    let (pc, pd) = (p + seq![c], p + seq![d]);
    let (pcd, pdc) = (p + seq![c, d], p + seq![d, c]);
    law_edits_zero(p, p);
    assert(pc.drop_last() =~= p);
    assert(pd.drop_last() =~= p);
    assert(edits(pc, p) <= 1) by {
        if p.len() > 0 {
            assert(edits(pc.drop_last(), p) == 0);
        }
    }
    assert(edits(pc, pd) <= 1);
    assert(pcd.take(pcd.len() - 2) =~= p);
    assert(pdc.take(pdc.len() - 2) =~= p);
    assert(swapped_ends(pcd, pdc));
    assert(edits(pcd, pdc) <= 1);
    lemma_common_end(pc, p, s);
    lemma_common_end(pc, pd, s);
    lemma_common_end(pcd, pdc, s);
    law_edits_symmetric(p + s, p + seq![c] + s);
}

/// Law: how far off a word may be grows with its length: up to two characters it must be
/// right, up to four one edit is allowed, and two beyond that.
pub proof fn law_threshold(len: int)
    ensures
        threshold(len) == 0 <==> len < 3,
        threshold(len) == 1 <==> 3 <= len < 5,
        threshold(len) == 2 <==> len >= 5,
{
}

} // verus!
