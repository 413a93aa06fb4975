//! Line-level history attribution: expanding runs of lines, each attributed
//! to one commit, into a map from line to run.

use vstd::prelude::*;

verus! {

/// The number of lines that the runs cover together.
pub open spec fn total(runs: Seq<usize>) -> int
    decreases runs.len(),
{
    if runs.len() == 0 {
        0
    } else {
        total(runs.drop_last()) + runs.last()
    }
}

/// The run that 0-based line `j` falls in, when runs are laid end to end
/// from the first line; `None` past the last run.
pub open spec fn owner(runs: Seq<usize>, j: int) -> Option<int>
    decreases runs.len(),
{
    if runs.len() == 0 {
        None
    } else if j < total(runs.drop_last()) {
        owner(runs.drop_last(), j)
    } else if j < total(runs) {
        Some(runs.len() - 1)
    } else {
        None
    }
}

/// A prefix of the runs covers no more lines than all of them.
pub proof fn lemma_total_prefix(runs: Seq<usize>, h: int)
    requires
        0 <= h <= runs.len(),
    ensures
        0 <= total(runs.take(h)) <= total(runs),
    decreases runs.len(),
{
    if h == runs.len() {
        assert(runs.take(h) =~= runs);
        if runs.len() > 0 {
            lemma_total_prefix(runs.drop_last(), h - 1);
        }
    } else {
        assert(runs.take(h) =~= runs.drop_last().take(h));
        lemma_total_prefix(runs.drop_last(), h);
    }
}

/// A line falls in a run that exists.
pub proof fn lemma_owner_range(runs: Seq<usize>, j: int)
    ensures
        owner(runs, j) matches Some(h) ==> 0 <= h < runs.len(),
    decreases runs.len(),
{
    if runs.len() > 0 {
        lemma_owner_range(runs.drop_last(), j);
    }
}

/// The smaller of two integers.
pub open spec fn min(a: int, b: int) -> int {
    if a <= b {
        a
    } else {
        b
    }
}

/// For each of the first `cap` lines, counted from 0, that the runs cover,
/// the index of the run it falls in. Runs are laid end to end from the
/// first line.
pub fn build_line_map_capped(runs: &Vec<usize>, cap: usize) -> (r: Vec<usize>)
    ensures
        r@.len() == min(total(runs@), cap as int),
        forall|j: int| 0 <= j < r@.len() ==> owner(runs@, j) == Some(#[trigger] r@[j] as int),
{
    let mut r: Vec<usize> = Vec::new();
    let mut h: usize = 0;
    assert(runs@.take(0) =~= Seq::<usize>::empty());
    while h < runs.len()
        invariant
            h <= runs@.len(),
            r@.len() == min(total(runs@.take(h as int)), cap as int),
            forall|j: int|
                0 <= j < r@.len() ==> owner(runs@.take(h as int), j) == Some(
                    #[trigger] r@[j] as int,
                ),
        decreases runs@.len() - h,
    {
        let ghost base = r@.len();
        proof {
            assert(runs@.take(h + 1).drop_last() =~= runs@.take(h as int));
        }
        let count = runs[h];
        let mut c: usize = 0;
        while c < count && r.len() < cap
            invariant
                h < runs@.len(),
                count == runs@[h as int],
                c <= count,
                base == min(total(runs@.take(h as int)), cap as int),
                total(runs@.take(h + 1)) == total(runs@.take(h as int)) + count,
                c > 0 ==> base == total(runs@.take(h as int)),
                r@.len() == base + c,
                r@.len() <= cap,
                forall|j: int|
                    0 <= j < base ==> owner(runs@.take(h as int), j) == Some(
                        #[trigger] r@[j] as int,
                    ),
                forall|j: int| base <= j < r@.len() ==> #[trigger] r@[j] == h,
            decreases count - c,
        {
            r.push(h);
            c = c + 1;
        }
        assert forall|j: int| 0 <= j < r@.len() implies owner(runs@.take(h + 1), j) == Some(
            #[trigger] r@[j] as int,
        ) by {
            let t = runs@.take(h + 1);
            assert(t.drop_last() =~= runs@.take(h as int));
        }
        h = h + 1;
    }
    assert(runs@.take(h as int) =~= runs@);
    r
}

/// For each line, counted from 0, the index of the run it falls in.
/// Runs are laid end to end from the first line; the map has one entry for
/// each line the runs cover.
pub fn build_line_map(runs: &Vec<usize>) -> (r: Vec<usize>)
    requires
        total(runs@) <= usize::MAX,
    ensures
        r@.len() == total(runs@),
        forall|j: int| 0 <= j < r@.len() ==> owner(runs@, j) == Some(#[trigger] r@[j] as int),
{
    build_line_map_capped(runs, usize::MAX)
}

} // verus!
