//! Batches of queries over weighted genes: the health of each DNA strand,
//! and the least and the greatest health of a batch.

use crate::algorithm::aho_corasick::{build, weighted, DnaError};
use crate::algorithm::decimal::{decimal, to_decimal};
use crate::algorithm::occurrence::{all_nonempty, weighted_occurrences, wrapped, Pattern};
use vstd::prelude::*;
use vstd::string::StringExecFns;

verus! {

/// The sums as mathematical integers.
pub open spec fn as_ints(sums: Seq<i64>) -> Seq<int> {
    Seq::new(sums.len(), |i: int| sums[i] as int)
}

/// The smallest of `sums`, starting from the largest 64-bit value.
pub open spec fn least(sums: Seq<int>) -> int
    decreases sums.len(),
{
    if sums.len() == 0 {
        i64::MAX as int
    } else if sums.last() < least(sums.drop_last()) {
        sums.last()
    } else {
        least(sums.drop_last())
    }
}

/// The largest of `sums`, starting from the smallest 64-bit value.
pub open spec fn greatest(sums: Seq<int>) -> int
    decreases sums.len(),
{
    if sums.len() == 0 {
        i64::MIN as int
    } else if sums.last() > greatest(sums.drop_last()) {
        sums.last()
    } else {
        greatest(sums.drop_last())
    }
}

/// `least` and `greatest` of a non-empty sequence of 64-bit sums are
/// members of it that bound every member, so the order of the sums does not
/// matter.
pub proof fn lemma_extremes(sums: Seq<int>)
    requires
        sums.len() > 0,
        forall|i: int| 0 <= i < sums.len() ==> i64::MIN <= #[trigger] sums[i] <= i64::MAX,
    ensures
        sums.contains(least(sums)),
        sums.contains(greatest(sums)),
        forall|i: int| 0 <= i < sums.len() ==> least(sums) <= #[trigger] sums[i] <= greatest(sums),
    decreases sums.len(),
{
    let rest = sums.drop_last();
    let n = sums.len() - 1;
    assert(sums[n] == sums.last());
    if rest.len() > 0 {
        assert forall|i: int| 0 <= i < rest.len() implies i64::MIN <= #[trigger] rest[i]
            <= i64::MAX by {
            assert(rest[i] == sums[i]);
        }
        lemma_extremes(rest);
        let a = choose|a: int| 0 <= a < rest.len() && rest[a] == least(rest);
        let b = choose|b: int| 0 <= b < rest.len() && rest[b] == greatest(rest);
        assert(sums[a] == rest[a]);
        assert(sums[b] == rest[b]);
        assert(least(sums) == sums[n] || least(sums) == sums[a]);
        assert(greatest(sums) == sums[n] || greatest(sums) == sums[b]);
        assert forall|i: int| 0 <= i < sums.len() implies least(sums) <= #[trigger] sums[i]
            <= greatest(sums) by {
            if i < n {
                assert(rest[i] == sums[i]);
            }
        }
    } else {
        reveal_with_fuel(least, 2);
        reveal_with_fuel(greatest, 2);
        assert(least(sums) == sums[n]);
        assert(greatest(sums) == sums[n]);
    }
}

/// Reduces per-query sums to their minimum and maximum.
pub fn min_max(sums: &Vec<i64>) -> (res: (i64, i64))
    ensures
        res.0 == least(as_ints(sums@)),
        res.1 == greatest(as_ints(sums@)),
{
    let mut min_health: i64 = i64::MAX;
    let mut max_health: i64 = i64::MIN;
    let mut i: usize = 0;
    proof {
        assert(as_ints(sums@).take(0) =~= Seq::<int>::empty());
    }
    while i < sums.len()
        invariant
            i <= sums.len(),
            min_health == least(as_ints(sums@).take(i as int)),
            max_health == greatest(as_ints(sums@).take(i as int)),
        decreases sums.len() - i,
    {
        proof {
            assert(as_ints(sums@).take(i + 1).drop_last() =~= as_ints(sums@).take(i as int));
            assert(as_ints(sums@).take(i + 1).last() == sums@[i as int]);
        }
        let sum = sums[i];
        if sum < min_health {
            min_health = sum;
        }
        if sum > max_health {
            max_health = sum;
        }
        i = i + 1;
    }
    proof {
        assert(as_ints(sums@).take(sums.len() as int) =~= as_ints(sums@));
    }
    (min_health, max_health)
}

/// The patterns of a batch: gene `i` with weight `health[i]` under index `i`.
pub open spec fn catalogue(genes: Seq<String>, health: Seq<i64>) -> Seq<Pattern> {
    Seq::new(
        genes.len(),
        |i: int| Pattern { symbols: genes[i]@, index: i as usize, weight: health[i] },
    )
}

/// A query's window lies within `count` patterns.
pub open spec fn query_ok(q: (i32, i32, String), count: nat) -> bool {
    0 <= q.0 <= q.1 < count
}

/// Why a batch is refused, if it is: mismatched collections first, then an
/// empty pattern, then a bad window.
pub open spec fn rejection(
    genes: Seq<String>,
    health: Seq<i64>,
    queries: Seq<(i32, i32, String)>,
) -> Option<DnaError> {
    if genes.len() != health.len() {
        Some(DnaError::MalformedInput)
    } else if !all_nonempty(catalogue(genes, health)) {
        Some(DnaError::InvalidPattern)
    } else if exists|q: int| 0 <= q < queries.len() && !query_ok(#[trigger] queries[q], genes.len()) {
        Some(DnaError::InvalidRange)
    } else {
        None
    }
}

/// The answer to each query of a batch, as 64 bits hold it.
pub open spec fn query_sums(pats: Seq<Pattern>, queries: Seq<(i32, i32, String)>) -> Seq<int> {
    Seq::new(
        queries.len(),
        |q: int|
            wrapped(
                weighted_occurrences(
                    pats,
                    queries[q].2@,
                    queries[q].0 as usize,
                    queries[q].1 as usize,
                ),
            ),
    )
}

/// Checks a batch before any work is done on it, and says why it is
/// refused if it is.
pub fn validate(genes: &Vec<String>, health: &Vec<i64>, queries: &Vec<(i32, i32, String)>) -> (res:
    Result<(), DnaError>)
    ensures
        match rejection(genes@, health@, queries@) {
            Some(e) => res == Err::<(), DnaError>(e),
            None => res is Ok,
        },
{
    if genes.len() != health.len() {
        return Err(DnaError::MalformedInput);
    }
    let ghost pats = catalogue(genes@, health@);
    let count = genes.len();
    let mut i: usize = 0;
    while i < count
        invariant
            i <= count,
            count == genes.len(),
            genes.len() == health.len(),
            pats == catalogue(genes@, health@),
            forall|a: int| 0 <= a < i ==> (#[trigger] pats[a]).symbols.len() > 0,
        decreases count - i,
    {
        if genes[i].as_str().is_empty() {
            proof {
                assert(pats[i as int].symbols.len() == 0);
            }
            return Err(DnaError::InvalidPattern);
        }
        i = i + 1;
    }
    let mut q: usize = 0;
    while q < queries.len()
        invariant
            q <= queries.len(),
            count == genes.len(),
            genes.len() == health.len(),
            pats == catalogue(genes@, health@),
            all_nonempty(pats),
            forall|a: int| 0 <= a < q ==> query_ok(#[trigger] queries@[a], count as nat),
        decreases queries.len() - q,
    {
        let start = queries[q].0;
        let end = queries[q].1;
        if start < 0 || start > end || end as usize >= count {
            proof {
                assert(!query_ok(queries@[q as int], count as nat));
            }
            return Err(DnaError::InvalidRange);
        }
        q = q + 1;
    }
    Ok(())
}

/// The answer to every query of a batch, in order. The whole batch is
/// checked before any text is matched.
pub fn run_queries(genes: &Vec<String>, health: &Vec<i64>, queries: &Vec<(i32, i32, String)>) -> (res:
    Result<Vec<i64>, DnaError>)
    ensures
        match rejection(genes@, health@, queries@) {
            Some(e) => res is Err && res->Err_0 == e,
            None => res is Ok && as_ints(res->Ok_0@) == query_sums(
                catalogue(genes@, health@),
                queries@,
            ),
        },
{
    match validate(genes, health, queries) {
        Ok(_) => {},
        Err(e) => {
            return Err(e);
        },
    }
    let ghost pats = catalogue(genes@, health@);
    let mut patterns: Vec<(String, i64)> = Vec::new();
    let mut i: usize = 0;
    while i < genes.len()
        invariant
            i <= genes.len(),
            genes.len() == health.len(),
            patterns@.len() == i,
            forall|a: int|
                0 <= a < i ==> (#[trigger] patterns@[a]).0@ == genes@[a]@ && patterns@[a].1
                    == health@[a],
        decreases genes.len() - i,
    {
        patterns.push((genes[i].clone(), health[i]));
        i = i + 1;
    }
    proof {
        assert(weighted(patterns@) =~= pats);
    }
    let ac = match build(&patterns) {
        Ok(ac) => ac,
        Err(e) => {
            return Err(e);
        },
    };
    let mut sums: Vec<i64> = Vec::new();
    let mut q: usize = 0;
    while q < queries.len()
        invariant
            q <= queries.len(),
            ac.wf(),
            ac.linked(),
            ac.patterns() == pats,
            pats.len() == genes.len(),
            forall|a: int| 0 <= a < queries.len() ==> query_ok(#[trigger] queries@[a], pats.len()),
            sums@.len() == q,
            forall|a: int|
                0 <= a < q ==> #[trigger] sums@[a] == wrapped(
                    weighted_occurrences(
                        pats,
                        queries@[a].2@,
                        queries@[a].0 as usize,
                        queries@[a].1 as usize,
                    ),
                ),
        decreases queries.len() - q,
    {
        proof {
            assert(query_ok(queries@[q as int], pats.len()));
        }
        let start = queries[q].0 as usize;
        let end = queries[q].1 as usize;
        let sum = ac.search(queries[q].2.as_str(), start, end);
        sums.push(sum);
        q = q + 1;
    }
    proof {
        assert(as_ints(sums@) =~= query_sums(pats, queries@));
    }
    Ok(sums)
}

/// The minimum and maximum of the answers to a batch of queries. With no
/// query the pair is the largest and the smallest representable value.
pub fn run(genes: &Vec<String>, health: &Vec<i64>, queries: &Vec<(i32, i32, String)>) -> (res:
    Result<(i64, i64), DnaError>)
    ensures
        match rejection(genes@, health@, queries@) {
            Some(e) => res == Err::<(i64, i64), DnaError>(e),
            None => res is Ok && res->Ok_0.0 == least(
                query_sums(catalogue(genes@, health@), queries@),
            ) && res->Ok_0.1 == greatest(query_sums(catalogue(genes@, health@), queries@)),
        },
{
    match run_queries(genes, health, queries) {
        Ok(sums) => Ok(min_max(&sums)),
        Err(e) => Err(e),
    }
}

/// The two bounds as decimal integers separated by one space.
pub open spec fn report(min_health: int, max_health: int) -> Seq<char> {
    decimal(min_health) + seq![' '] + decimal(max_health)
}

/// Renders a pair of bounds as `report` describes.
pub fn format_report(min_health: i64, max_health: i64) -> (s: String)
    ensures
        s@ == report(min_health as int, max_health as int),
{
    let mut s = to_decimal(min_health);
    proof {
        reveal_strlit(" ");
    }
    s.append(" ");
    let high = to_decimal(max_health);
    s.append(high.as_str());
    proof {
        assert(s@ =~= report(min_health as int, max_health as int));
    }
    s
}

/// Runs a batch and renders the minimum and maximum health.
pub fn dna_health(genes: Vec<String>, health: Vec<i64>, strands: Vec<(i32, i32, String)>) -> (res:
    Result<String, DnaError>)
    ensures
        match rejection(genes@, health@, strands@) {
            Some(e) => res is Err && res->Err_0 == e,
            None => res is Ok && res->Ok_0@ == report(
                least(query_sums(catalogue(genes@, health@), strands@)),
                greatest(query_sums(catalogue(genes@, health@), strands@)),
            ),
        },
{
    match run(&genes, &health, &strands) {
        Ok(bounds) => Ok(format_report(bounds.0, bounds.1)),
        Err(e) => Err(e),
    }
}

} // verus!
