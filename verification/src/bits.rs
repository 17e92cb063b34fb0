use vstd::prelude::*;
use vstd::set_lib::*;

verus! {

/// A row of `n` cleared flags.
pub fn new_row(n: usize) -> (r: Vec<bool>)
    ensures
        r.len() == n,
        forall|j: int| 0 <= j < n ==> !r[j],
{
    let mut r: Vec<bool> = Vec::new();
    let mut j: usize = 0;
    while j < n
        invariant
            j <= n,
            r.len() == j,
            forall|i: int| 0 <= i < j ==> !r[i],
        decreases n - j,
    {
        r.push(false);
        j += 1;
    }
    r
}

/// A table of `rows` rows of `cols` cleared flags.
pub fn new_table(rows: usize, cols: usize) -> (r: Vec<Vec<bool>>)
    ensures
        r.len() == rows,
        forall|i: int| 0 <= i < rows ==> (#[trigger] r[i]).len() == cols,
        forall|i: int, j: int| 0 <= i < rows && 0 <= j < cols ==> !r[i][j],
{
    let mut r: Vec<Vec<bool>> = Vec::new();
    let mut i: usize = 0;
    while i < rows
        invariant
            i <= rows,
            r.len() == i,
            forall|a: int| 0 <= a < i ==> (#[trigger] r[a]).len() == cols,
            forall|a: int, j: int| 0 <= a < i && 0 <= j < cols ==> !r[a][j],
        decreases rows - i,
    {
        r.push(new_row(cols));
        i += 1;
    }
    r
}

/// A copy of a row.
pub fn copy_row(v: &Vec<bool>) -> (r: Vec<bool>)
    ensures
        r@ == v@,
{
    let mut r: Vec<bool> = Vec::new();
    let mut j: usize = 0;
    while j < v.len()
        invariant
            j <= v.len(),
            r.len() == j,
            forall|i: int| 0 <= i < j ==> r[i] == v[i],
        decreases v.len() - j,
    {
        r.push(v[j]);
        j += 1;
    }
    assert(r@ =~= v@);
    r
}

/// Sets in `acc` every flag that is set in `src`, and tells whether a flag
/// of `acc` changed.
pub fn union_into(acc: &mut Vec<bool>, src: &Vec<bool>) -> (added: bool)
    requires
        old(acc).len() == src.len(),
    ensures
        final(acc).len() == src.len(),
        forall|j: int|
            #![trigger final(acc)@[j]]
            0 <= j < src.len() ==> final(acc)@[j] == (old(acc)@[j] || src@[j]),
        added == exists|j: int| #![trigger src@[j]] 0 <= j < src.len() && src@[j] && !old(acc)@[j],
{
    let mut added = false;
    let mut j: usize = 0;
    while j < src.len()
        invariant
            j <= src.len(),
            acc@.len() == src.len(),
            old(acc)@.len() == src.len(),
            forall|i: int| #![trigger acc@[i]] 0 <= i < j ==> acc@[i] == (old(acc)@[i] || src@[i]),
            forall|i: int| #![trigger acc@[i]] j <= i < src.len() ==> acc@[i] == old(acc)@[i],
            added == exists|i: int| #![trigger src@[i]] 0 <= i < j && src@[i] && !old(acc)@[i],
        decreases src.len() - j,
    {
        let ghost prev = acc@;
        assert(prev[j as int] == old(acc)@[j as int]);
        if src[j] && !acc[j] {
            acc.set(j, true);
            added = true;
        }
        assert forall|i: int| #![trigger acc@[i]] 0 <= i < j + 1 implies acc@[i] == (old(acc)@[i]
            || src@[i]) by {
            if i < j {
                assert(prev[i] == (old(acc)@[i] || src@[i]));
            }
        }
        assert forall|i: int| #![trigger acc@[i]] j + 1 <= i < src.len() implies acc@[i] == old(
            acc,
        )@[i] by {
            assert(prev[i] == old(acc)@[i]);
        }
        j += 1;
    }
    added
}

/// Every flag that is set in `a` is set in `b`, which may be longer.
pub open spec fn row_kept(a: Seq<bool>, b: Seq<bool>) -> bool {
    forall|j: int| #![trigger a[j]] 0 <= j < a.len() && a[j] ==> j < b.len() && b[j]
}

/// Every flag that is set in `a` is set in `b`, which may be larger.
pub open spec fn table_kept(a: Seq<Vec<bool>>, b: Seq<Vec<bool>>) -> bool {
    forall|i: int, j: int|
        #![trigger a[i]@[j]]
        0 <= i < a.len() && 0 <= j < a[i]@.len() && a[i]@[j] ==> i < b.len() && j < b[i]@.len()
            && b[i]@[j]
}

/// A row that keeps the flags of another has no fewer flags set.
pub proof fn lemma_row_kept(a: Seq<bool>, b: Seq<bool>)
    requires
        row_kept(a, b),
    ensures
        raised(a).len() <= raised(b).len(),
{
    lemma_row_finite(a);
    lemma_row_finite(b);
    assert(raised(a).subset_of(raised(b))) by {
        assert forall|j: int| raised(a).contains(j) implies raised(b).contains(j) by {
            assert(a[j]);
        }
    }
    lemma_len_subset(raised(a), raised(b));
}

/// A table that keeps the flags of another has no fewer flags set.
pub proof fn lemma_table_kept(a: Seq<Vec<bool>>, b: Seq<Vec<bool>>)
    requires
        table_kept(a, b),
    ensures
        raised_cells(a).len() <= raised_cells(b).len(),
{
    lemma_table_finite(a);
    lemma_table_finite(b);
    assert(raised_cells(a).subset_of(raised_cells(b))) by {
        assert forall|c: (int, int)| raised_cells(a).contains(c) implies raised_cells(
            b,
        ).contains(c) by {
            assert(a[c.0]@[c.1]);
        }
    }
    lemma_len_subset(raised_cells(a), raised_cells(b));
}

/// The positions of a row whose flag is cleared.
pub open spec fn cleared(row: Seq<bool>) -> Set<int> {
    Set::new(|j: int| 0 <= j < row.len() && !row[j])
}

/// The positions of a row whose flag is set.
pub open spec fn raised(row: Seq<bool>) -> Set<int> {
    Set::new(|j: int| 0 <= j < row.len() && row[j])
}

/// No flag of `a` is lost in `b`.
pub open spec fn row_grows(a: Seq<bool>, b: Seq<bool>) -> bool {
    a.len() == b.len() && forall|j: int| 0 <= j < a.len() && a[j] ==> b[j]
}

pub proof fn lemma_row_finite(row: Seq<bool>)
    ensures
        cleared(row).finite(),
        raised(row).finite(),
{
    lemma_int_range(0, row.len() as int);
    lemma_len_subset(cleared(row), set_int_range(0, row.len() as int));
    lemma_len_subset(raised(row), set_int_range(0, row.len() as int));
}

/// A row that grows has no fewer flags set; one that gains a flag has fewer
/// flags cleared.
pub proof fn lemma_row_grows(a: Seq<bool>, b: Seq<bool>)
    requires
        row_grows(a, b),
    ensures
        raised(a).len() <= raised(b).len(),
        cleared(b).len() <= cleared(a).len(),
        (exists|j: int| 0 <= j < a.len() && b[j] && !a[j]) ==> cleared(b).len() < cleared(a).len(),
{
    lemma_row_finite(a);
    lemma_row_finite(b);
    lemma_len_subset(raised(a), raised(b));
    lemma_len_subset(cleared(b), cleared(a));
    if exists|j: int| 0 <= j < a.len() && b[j] && !a[j] {
        let j = choose|j: int| 0 <= j < a.len() && b[j] && !a[j];
        cleared(b).lemma_subset_not_in_lt(cleared(a), j);
    }
}

/// The flags of a table, row by row.
pub open spec fn grid(t: Seq<Vec<bool>>) -> Seq<Seq<bool>> {
    Seq::new(t.len(), |i: int| t[i]@)
}

/// The cells of a table whose flag is cleared.
pub open spec fn cleared_cells(t: Seq<Vec<bool>>) -> Set<(int, int)> {
    Set::new(|c: (int, int)| 0 <= c.0 < t.len() && 0 <= c.1 < t[c.0].len() && !t[c.0][c.1])
}

/// The cells of a table whose flag is set.
pub open spec fn raised_cells(t: Seq<Vec<bool>>) -> Set<(int, int)> {
    Set::new(|c: (int, int)| 0 <= c.0 < t.len() && 0 <= c.1 < t[c.0].len() && t[c.0][c.1])
}

/// The tables have one shape, and no flag of `a` is lost in `b`.
pub open spec fn table_grows(a: Seq<Vec<bool>>, b: Seq<Vec<bool>>) -> bool {
    &&& a.len() == b.len()
    &&& forall|i: int| 0 <= i < a.len() ==> (#[trigger] a[i]).len() == (#[trigger] b[i]).len()
    &&& forall|i: int, j: int| 0 <= i < a.len() && 0 <= j < a[i].len() && a[i][j] ==> b[i][j]
}

pub proof fn lemma_table_grows_twice(a: Seq<Vec<bool>>, b: Seq<Vec<bool>>, c: Seq<Vec<bool>>)
    requires
        table_grows(a, b),
        table_grows(b, c),
    ensures
        table_grows(a, c),
{
    assert forall|i: int| 0 <= i < a.len() implies (#[trigger] a[i]).len() == (#[trigger] c[i]).len() by {
        assert(a[i].len() == b[i].len());
        assert(b[i].len() == c[i].len());
    }
    assert forall|i: int, j: int| 0 <= i < a.len() && 0 <= j < a[i].len() && a[i][j] implies c[i][j] by {
        assert(a[i].len() == b[i].len());
        assert(b[i][j]);
    }
}

/// All cells of the first `rows` rows of a table.
pub open spec fn cells(t: Seq<Vec<bool>>, rows: int) -> Set<(int, int)> {
    Set::new(|c: (int, int)| 0 <= c.0 < rows && c.0 < t.len() && 0 <= c.1 < t[c.0].len())
}

pub proof fn lemma_cells_finite(t: Seq<Vec<bool>>, rows: int)
    requires
        0 <= rows <= t.len(),
    ensures
        cells(t, rows).finite(),
    decreases rows,
{
    if rows == 0 {
        assert(cells(t, rows) =~= Set::empty());
    } else {
        lemma_cells_finite(t, rows - 1);
        let i = rows - 1;
        let line = set_int_range(0, t[i].len() as int);
        lemma_int_range(0, t[i].len() as int);
        let f = |j: int| (i, j);
        line.lemma_map_finite(f);
        assert(cells(t, rows) =~= cells(t, rows - 1).union(line.map(f))) by {
            assert forall|c: (int, int)| cells(t, rows).contains(c) implies cells(t, rows - 1).union(
                line.map(f),
            ).contains(c) by {
                if c.0 == i {
                    assert(line.contains(c.1));
                    assert(f(c.1) == c);
                }
            }
        }
    }
}

pub proof fn lemma_table_finite(t: Seq<Vec<bool>>)
    ensures
        cleared_cells(t).finite(),
        raised_cells(t).finite(),
{
    lemma_cells_finite(t, t.len() as int);
    lemma_len_subset(cleared_cells(t), cells(t, t.len() as int));
    lemma_len_subset(raised_cells(t), cells(t, t.len() as int));
}

/// A table that grows has no fewer flags set; one that gains a flag has
/// fewer flags cleared.
pub proof fn lemma_table_grows(a: Seq<Vec<bool>>, b: Seq<Vec<bool>>)
    requires
        table_grows(a, b),
    ensures
        raised_cells(a).len() <= raised_cells(b).len(),
        cleared_cells(b).len() <= cleared_cells(a).len(),
        (exists|i: int, j: int| 0 <= i < a.len() && 0 <= j < a[i].len() && b[i][j] && !a[i][j])
            ==> cleared_cells(b).len() < cleared_cells(a).len(),
{
    lemma_table_finite(a);
    lemma_table_finite(b);
    assert(raised_cells(a).subset_of(raised_cells(b)));
    assert(cleared_cells(b).subset_of(cleared_cells(a))) by {
        assert forall|c: (int, int)| cleared_cells(b).contains(c) implies cleared_cells(
            a,
        ).contains(c) by {
            assert(a[c.0].len() == b[c.0].len());
        }
    }
    lemma_len_subset(raised_cells(a), raised_cells(b));
    lemma_len_subset(cleared_cells(b), cleared_cells(a));
    if exists|i: int, j: int| 0 <= i < a.len() && 0 <= j < a[i].len() && b[i][j] && !a[i][j] {
        let (i, j) = choose|i: int, j: int|
            0 <= i < a.len() && 0 <= j < a[i].len() && b[i][j] && !a[i][j];
        assert(a[i].len() == b[i].len());
        cleared_cells(b).lemma_subset_not_in_lt(cleared_cells(a), (i, j));
    }
}

/// The pairs of a member of `a` and a member of `b`.
pub open spec fn pairs(a: Set<int>, b: Set<int>) -> Set<(int, int)> {
    Set::new(|c: (int, int)| a.contains(c.0) && b.contains(c.1))
}

/// There are as many pairs as the product of the sizes says.
pub proof fn lemma_pairs_len(a: Set<int>, b: Set<int>)
    requires
        a.finite(),
        b.finite(),
    ensures
        pairs(a, b).finite(),
        pairs(a, b).len() == a.len() * b.len(),
    decreases a.len(),
{
    if a.is_empty() {
        assert(pairs(a, b) =~= Set::empty());
        assert(a.len() == 0);
        assert(a.len() * b.len() == 0) by (nonlinear_arith)
            requires
                a.len() == 0,
        ;
    } else {
        let x = a.choose();
        let rest = a.remove(x);
        lemma_pairs_len(rest, b);
        let f = |j: int| (x, j);
        let line = b.map(f);
        assert(vstd::relations::injective_on(f, b));
        lemma_map_size(b, line, f);
        assert(pairs(a, b) =~= pairs(rest, b) + line) by {
            assert forall|c: (int, int)| pairs(a, b).contains(c) implies (pairs(rest, b)
                + line).contains(c) by {
                if c.0 == x {
                    assert(f(c.1) == c);
                    assert(line.contains(c));
                }
            }
        }
        assert(pairs(rest, b).disjoint(line));
        lemma_set_disjoint_lens(pairs(rest, b), line);
        assert(a.len() * b.len() == (a.len() - 1) * b.len() + b.len()) by (nonlinear_arith);
    }
}

} // verus!
