use ndarray::Array2;
use vstd::prelude::*;
use vstd::string::StrSliceExecFns;

verus! {

/// A table of counts with a fixed number of rows and of columns, held in an
/// `ndarray::Array2<u32>`.
#[verifier::external_body]
pub struct CountTable {
    cells: Array2<u32>,
}

/// The counts that the `Array2` of a table holds, row by row.
pub uninterp spec fn table_cells(table: CountTable) -> Seq<Seq<u32>>;

/// A table of `rows` rows and `cols` columns can be made: the product of
/// those of the two numbers that are not 0 is at most `isize::MAX`.
pub open spec fn table_fits(rows: nat, cols: nat) -> bool {
    (if rows == 0 {
        1
    } else {
        rows as int
    }) * (if cols == 0 {
        1
    } else {
        cols as int
    }) <= isize::MAX
}

/// `Array2::default` with the shape `(rows, cols)`: a table of that many
/// rows and columns in which every count is 0, the default of `u32`. It
/// panics where the product of the lengths that are not 0 is above
/// `isize::MAX`, which the `requires` leaves out.
#[verifier::external_body]
fn table_new(rows: usize, cols: usize) -> (table: CountTable)
    requires
        table_fits(rows as nat, cols as nat),
    ensures
        table_cells(table).len() == rows,
        forall|i: int| 0 <= i < rows ==> (#[trigger] table_cells(table)[i]).len() == cols,
        forall|i: int, j: int| 0 <= i < rows && 0 <= j < cols ==> table_cells(table)[i][j] == 0,
{
    CountTable { cells: Array2::<u32>::default((rows, cols)) }
}

/// Indexing an `Array2` at `[i, j]`: the count in row `i` and column `j`. It
/// panics out of bounds, which the `requires` leaves out.
#[verifier::external_body]
fn table_get(table: &CountTable, i: usize, j: usize) -> (count: u32)
    requires
        i < table_cells(*table).len(),
        j < table_cells(*table)[i as int].len(),
    ensures
        count == table_cells(*table)[i as int][j as int],
{
    table.cells[[i, j]]
}

/// Assigning to an `Array2` at `[i, j]`: the count in row `i` and column `j`
/// becomes `count`, and every other count stays. It panics out of bounds,
/// which the `requires` leaves out.
#[verifier::external_body]
fn table_set(table: &mut CountTable, i: usize, j: usize, count: u32)
    requires
        i < table_cells(*old(table)).len(),
        j < table_cells(*old(table))[i as int].len(),
    ensures
        table_cells(*final(table)) == table_cells(*old(table)).update(
            i as int,
            table_cells(*old(table))[i as int].update(j as int, count),
        ),
{
    table.cells[[i, j]] = count;
}

/// The length of the longest text that ends both `a` at its place `i` and
/// `b` at its place `j`.
spec fn common_suffix_len(a: Seq<char>, b: Seq<char>, i: int, j: int) -> nat
    decreases i + 1,
{
    if i < 0 || j < 0 || i >= a.len() || j >= b.len() || a[i] != b[j] {
        0
    } else {
        1 + common_suffix_len(a, b, i - 1, j - 1)
    }
}

/// `n` characters of `a` from its place `i` on are the `n` characters of
/// `b` from its place `j` on.
pub open spec fn common_at(a: Seq<char>, b: Seq<char>, i: int, j: int, n: int) -> bool {
    &&& 0 <= n
    &&& 0 <= i && i + n <= a.len()
    &&& 0 <= j && j + n <= b.len()
    &&& a.subrange(i, i + n) == b.subrange(j, j + n)
}

/// `n` is the length of the longest text that is a part of both `a` and
/// `b`.
pub open spec fn is_longest_common_len(a: Seq<char>, b: Seq<char>, n: int) -> bool {
    &&& exists|i: int, j: int| common_at(a, b, i, j, n)
    &&& forall|i: int, j: int, m: int| #[trigger] common_at(a, b, i, j, m) ==> m <= n
}

/// The length of the longest text that is a part of both `a` and `b`.
pub open spec fn longest_common_len(a: Seq<char>, b: Seq<char>) -> int {
    choose|n: int| is_longest_common_len(a, b, n)
}

/// A common suffix is a common part, and the common suffix at a place is
/// as long as any common part that ends there.
proof fn lemma_common_suffix(a: Seq<char>, b: Seq<char>, i: int, j: int)
    requires
        0 <= i < a.len(),
        0 <= j < b.len(),
    ensures
        common_suffix_len(a, b, i, j) <= i + 1,
        common_suffix_len(a, b, i, j) <= j + 1,
        common_at(
            a,
            b,
            i + 1 - common_suffix_len(a, b, i, j),
            j + 1 - common_suffix_len(a, b, i, j),
            common_suffix_len(a, b, i, j) as int,
        ),
        forall|m: int|
            0 <= m <= i + 1 && m <= j + 1 && #[trigger] common_at(a, b, i + 1 - m, j + 1 - m, m)
                ==> m <= common_suffix_len(a, b, i, j),
    decreases i,
{
    let n = common_suffix_len(a, b, i, j) as int;
    if a[i] != b[j] {
        assert(a.subrange(i + 1, i + 1) =~= b.subrange(j + 1, j + 1));
        assert forall|m: int|
            0 <= m <= i + 1 && m <= j + 1 && #[trigger] common_at(
                a,
                b,
                i + 1 - m,
                j + 1 - m,
                m,
            ) implies m <= 0 by {
            if m > 0 {
                assert(a.subrange(i + 1 - m, i + 1)[m - 1] == a[i]);
                assert(b.subrange(j + 1 - m, j + 1)[m - 1] == b[j]);
            }
        }
    } else if i == 0 || j == 0 {
        assert(common_suffix_len(a, b, i - 1, j - 1) == 0);
        assert(a.subrange(i, i + 1) =~= b.subrange(j, j + 1));
    } else {
        lemma_common_suffix(a, b, i - 1, j - 1);
        let p = common_suffix_len(a, b, i - 1, j - 1) as int;
        assert(n == p + 1);
        assert(a.subrange(i - p, i) == b.subrange(j - p, j));
        assert(a.subrange(i + 1 - n, i + 1) =~= b.subrange(j + 1 - n, j + 1)) by {
            assert forall|k: int| 0 <= k < n implies #[trigger] a.subrange(i + 1 - n, i + 1)[k]
                == b.subrange(j + 1 - n, j + 1)[k] by {
                if k < p {
                    assert(a.subrange(i - p, i)[k] == a[i - p + k]);
                    assert(b.subrange(j - p, j)[k] == b[j - p + k]);
                }
            }
        }
        assert forall|m: int|
            0 <= m <= i + 1 && m <= j + 1 && #[trigger] common_at(
                a,
                b,
                i + 1 - m,
                j + 1 - m,
                m,
            ) implies m <= n by {
            if m > 1 {
                let x = a.subrange(i + 1 - m, i + 1);
                let y = b.subrange(j + 1 - m, j + 1);
                assert(a.subrange(i + 1 - m, i) =~= x.subrange(0, m - 1));
                assert(b.subrange(j + 1 - m, j) =~= y.subrange(0, m - 1));
                assert(common_at(a, b, i - (m - 1), j - (m - 1), m - 1));
            }
        }
    }
}

/// The largest of the common suffixes at all places is the length of the
/// longest common part.
proof fn lemma_largest_is_longest(a: Seq<char>, b: Seq<char>, largest: int)
    requires
        forall|i: int, j: int|
            0 <= i < a.len() && 0 <= j < b.len() ==> #[trigger] common_suffix_len(a, b, i, j)
                <= largest,
        largest == 0 || exists|i: int, j: int|
            0 <= i < a.len() && 0 <= j < b.len() && #[trigger] common_suffix_len(a, b, i, j)
                == largest,
    ensures
        is_longest_common_len(a, b, largest),
        longest_common_len(a, b) == largest,
{
    if largest == 0 {
        assert(a.subrange(0, 0) =~= b.subrange(0, 0));
        assert(common_at(a, b, 0, 0, 0));
    } else {
        let (i, j) = choose|i: int, j: int|
            0 <= i < a.len() && 0 <= j < b.len() && #[trigger] common_suffix_len(a, b, i, j)
                == largest;
        lemma_common_suffix(a, b, i, j);
        assert(common_at(a, b, i + 1 - largest, j + 1 - largest, largest));
    }
    assert forall|i: int, j: int, m: int| #[trigger] common_at(a, b, i, j, m) implies m
        <= largest by {
        if m > 0 {
            lemma_common_suffix(a, b, i + m - 1, j + m - 1);
            assert(common_at(a, b, (i + m - 1) + 1 - m, (j + m - 1) + 1 - m, m));
            assert(common_suffix_len(a, b, i + m - 1, j + m - 1) <= largest);
        }
    }
    assert(is_longest_common_len(a, b, largest));
    let n = longest_common_len(a, b);
    assert(is_longest_common_len(a, b, n));
    let (i1, j1) = choose|i: int, j: int| common_at(a, b, i, j, n);
    let (i2, j2) = choose|i: int, j: int| common_at(a, b, i, j, largest);
    assert(common_at(a, b, i1, j1, n));
    assert(common_at(a, b, i2, j2, largest));
}

/// The candidates that share the longest part with `source`, in their
/// order. There must be a candidate; of `source` and each candidate the
/// shorter must fit in `u32`, and the table of the two must be one that can
/// be made.
pub fn get_longest_common_substring<'a>(source: &str, candidates: &Vec<&'a str>) -> (best: Vec<
    &'a str,
>)
    requires
        candidates.len() > 0,
        forall|k: int|
            0 <= k < candidates.len() ==> (source@.len() <= u32::MAX
                || (#[trigger] candidates@[k]@).len() <= u32::MAX) && table_fits(
                source@.len(),
                candidates@[k]@.len(),
            ),
    ensures
        best@ == candidates@.filter(
            |c: &'a str|
                forall|k: int|
                    0 <= k < candidates.len() ==> longest_common_len(source@, candidates@[k]@)
                        <= longest_common_len(source@, c@),
        ),
{
    let mut len_list: Vec<u32> = Vec::new();
    let mut k: usize = 0;
    while k < candidates.len()
        invariant
            k <= candidates.len(),
            len_list.len() == k,
            forall|m: int|
                0 <= m < candidates.len() ==> (source@.len() <= u32::MAX
                    || (#[trigger] candidates@[m]@).len() <= u32::MAX) && table_fits(
                    source@.len(),
                    candidates@[m]@.len(),
                ),
            forall|m: int|
                0 <= m < k ==> #[trigger] len_list@[m] == longest_common_len(
                    source@,
                    candidates@[m]@,
                ),
        decreases candidates.len() - k,
    {
        let len = calc_common_substring_len(source, candidates[k]);
        len_list.push(len);
        k += 1;
    }

    let mut max: u32 = len_list[0];
    let mut k: usize = 1;
    while k < len_list.len()
        invariant
            1 <= k <= len_list.len(),
            forall|m: int| 0 <= m < k ==> #[trigger] len_list@[m] <= max,
            exists|m: int| 0 <= m < k && #[trigger] len_list@[m] == max,
        decreases len_list.len() - k,
    {
        if len_list[k] > max {
            max = len_list[k];
        }
        k += 1;
    }

    let ghost wanted = |c: &'a str|
        forall|k: int|
            0 <= k < candidates.len() ==> longest_common_len(source@, candidates@[k]@)
                <= longest_common_len(source@, c@);
    let mut best: Vec<&'a str> = Vec::new();
    let mut k: usize = 0;
    proof {
        reveal(Seq::filter);
        assert(candidates@.subrange(0, 0) =~= Seq::empty());
    }
    while k < candidates.len()
        invariant
            k <= candidates.len(),
            len_list.len() == candidates.len(),
            forall|m: int|
                0 <= m < candidates.len() ==> #[trigger] len_list@[m] == longest_common_len(
                    source@,
                    candidates@[m]@,
                ),
            forall|m: int| 0 <= m < len_list.len() ==> #[trigger] len_list@[m] <= max,
            exists|m: int| 0 <= m < len_list.len() && #[trigger] len_list@[m] == max,
            wanted == (|c: &'a str|
                forall|k: int|
                    0 <= k < candidates.len() ==> longest_common_len(source@, candidates@[k]@)
                        <= longest_common_len(source@, c@)),
            best@ == candidates@.subrange(0, k as int).filter(wanted),
        decreases candidates.len() - k,
    {
        let ghost front = candidates@.subrange(0, k as int);
        proof {
            assert(candidates@.subrange(0, k + 1) =~= front.push(candidates@[k as int]));
            reveal(Seq::filter);
            assert(front.push(candidates@[k as int]).drop_last() =~= front);
            let m = choose|m: int| 0 <= m < len_list.len() && #[trigger] len_list@[m] == max;
            assert(wanted(candidates@[k as int]) <==> len_list@[k as int] == max) by {
                if len_list@[k as int] == max {
                    assert forall|q: int| 0 <= q < candidates.len() implies longest_common_len(
                        source@,
                        candidates@[q]@,
                    ) <= longest_common_len(source@, candidates@[k as int]@) by {
                        assert(len_list@[q] <= max);
                    }
                } else {
                    assert(len_list@[m] == longest_common_len(source@, candidates@[m]@));
                }
            }
        }
        if len_list[k] == max {
            best.push(candidates[k]);
        }
        k += 1;
    }
    proof {
        assert(candidates@.subrange(0, candidates.len() as int) =~= candidates@);
    }
    best
}

/// The length of the longest text that is a part of both `source` and
/// `candidate`, found by counting, for every pair of places, how long the
/// two texts agree up to there.
fn calc_common_substring_len(source: &str, candidate: &str) -> (largest_sublen: u32)
    requires
        source@.len() <= u32::MAX || candidate@.len() <= u32::MAX,
        table_fits(source@.len(), candidate@.len()),
    ensures
        largest_sublen == longest_common_len(source@, candidate@),
{
    let mut largest_sublen: u32 = 0;
    let source_len = source.unicode_len();
    let candidate_len = candidate.unicode_len();
    let mut char_table = table_new(source_len, candidate_len);
    let ghost a = source@;
    let ghost b = candidate@;
    let mut i: usize = 0;
    while i < source_len
        invariant
            i <= source_len,
            source_len == a.len(),
            candidate_len == b.len(),
            a == source@,
            b == candidate@,
            a.len() <= u32::MAX || b.len() <= u32::MAX,
            table_cells(char_table).len() == source_len,
            forall|r: int|
                0 <= r < source_len ==> (#[trigger] table_cells(char_table)[r]).len()
                    == candidate_len,
            forall|r: int, c: int|
                0 <= r < i && 0 <= c < candidate_len ==> table_cells(char_table)[r][c]
                    == #[trigger] common_suffix_len(a, b, r, c),
            forall|r: int, c: int|
                0 <= r < i && 0 <= c < candidate_len ==> #[trigger] common_suffix_len(a, b, r, c)
                    <= largest_sublen,
            largest_sublen == 0 || exists|r: int, c: int|
                0 <= r < a.len() && 0 <= c < b.len() && #[trigger] common_suffix_len(a, b, r, c)
                    == largest_sublen,
        decreases source_len - i,
    {
        let mut j: usize = 0;
        while j < candidate_len
            invariant
                i < source_len,
                j <= candidate_len,
                source_len == a.len(),
                candidate_len == b.len(),
                a == source@,
                b == candidate@,
                a.len() <= u32::MAX || b.len() <= u32::MAX,
                table_cells(char_table).len() == source_len,
                forall|r: int|
                    0 <= r < source_len ==> (#[trigger] table_cells(char_table)[r]).len()
                        == candidate_len,
                forall|r: int, c: int|
                    (0 <= r < i && 0 <= c < candidate_len) || (r == i && 0 <= c < j)
                        ==> table_cells(char_table)[r][c] == #[trigger] common_suffix_len(
                        a,
                        b,
                        r,
                        c,
                    ),
                forall|r: int, c: int|
                    (0 <= r < i && 0 <= c < candidate_len) || (r == i && 0 <= c < j)
                        ==> #[trigger] common_suffix_len(a, b, r, c) <= largest_sublen,
                largest_sublen == 0 || exists|r: int, c: int|
                    0 <= r < a.len() && 0 <= c < b.len() && #[trigger] common_suffix_len(
                        a,
                        b,
                        r,
                        c,
                    ) == largest_sublen,
            decreases candidate_len - j,
        {
            proof {
                lemma_common_suffix(a, b, i as int, j as int);
                if i > 0 && j > 0 {
                    lemma_common_suffix(a, b, i - 1, j - 1);
                }
            }
            let ghost before = table_cells(char_table);
            if source.get_char(i) == candidate.get_char(j) {
                if i == 0 || j == 0 {
                    table_set(&mut char_table, i, j, 1);
                } else {
                    let prev = table_get(&char_table, i - 1, j - 1);
                    table_set(&mut char_table, i, j, prev + 1);
                }
            } else {
                table_set(&mut char_table, i, j, 0);
            }
            let count = table_get(&char_table, i, j);
            proof {
                assert(count == common_suffix_len(a, b, i as int, j as int));
                assert forall|r: int, c: int|
                    (0 <= r < i && 0 <= c < candidate_len) || (r == i && 0 <= c < j + 1) implies table_cells(
                    char_table,
                )[r][c] == #[trigger] common_suffix_len(a, b, r, c) by {
                    if r == i && c == j {
                    } else {
                        assert(table_cells(char_table)[r][c] == before[r][c]);
                    }
                }
            }
            if count > largest_sublen {
                largest_sublen = count;
            }
            j += 1;
        }
        i += 1;
    }
    proof {
        lemma_largest_is_longest(a, b, largest_sublen as int);
    }

    largest_sublen
}

} // verus!
