//! A brute-force scan that answers the same queries as the automaton, one
//! offset and one pattern at a time. It serves as an independent check.

use crate::algorithm::aho_corasick::DnaError;
use crate::algorithm::dna_health::{
    as_ints, catalogue, format_report, greatest, least, min_max, query_ok, query_sums, rejection,
    report, validate,
};
use crate::algorithm::occurrence::{
    add_wrapping, all_nonempty, lemma_starting_all, lemma_starting_step, lemma_total_push,
    lemma_total_take, lemma_total_zero, lemma_wrapped_add, lemma_wrapped_exact, occurs_at,
    starting_at, starting_before, total, weighted_occurrences, worth, wrapped, Measure, Pattern,
};
use crate::algorithm::text::chars_of;
use vstd::prelude::*;

verus! {

/// Whether `gene` occurs in `text` starting at offset `k`.
pub fn occurs(gene: &Vec<char>, text: &Vec<char>, k: usize) -> (found: bool)
    requires
        k <= text.len(),
    ensures
        found == occurs_at(gene@, text@, k as int),
{
    if gene.len() > text.len() - k {
        return false;
    }
    let mut j: usize = 0;
    while j < gene.len()
        invariant
            j <= gene.len(),
            k + gene.len() <= text.len(),
            forall|a: int| 0 <= a < j ==> text@[k + a] == gene@[a],
        decreases gene.len() - j,
    {
        if text[k + j] != gene[j] {
            proof {
                assert(text@.subrange(k as int, k + gene@.len())[j as int] == text@[k + j]);
            }
            return false;
        }
        j = j + 1;
    }
    proof {
        assert(text@.subrange(k as int, k + gene@.len()) =~= gene@);
    }
    true
}

/// The patterns of a batch whose genes are held symbol by symbol.
pub open spec fn listed(genes: Seq<Vec<char>>, health: Seq<i64>) -> Seq<Pattern> {
    Seq::new(
        genes.len(),
        |i: int| Pattern { symbols: genes[i]@, index: i as usize, weight: health[i] },
    )
}

/// The answer to one query, found by trying every pattern of the window at
/// every offset of the text.
pub fn scan(
    genes: &Vec<Vec<char>>,
    health: &Vec<i64>,
    text: &Vec<char>,
    start: usize,
    end: usize,
) -> (sum: i64)
    requires
        genes.len() == health.len(),
        all_nonempty(listed(genes@, health@)),
        start <= end < genes.len(),
    ensures
        sum == wrapped(weighted_occurrences(listed(genes@, health@), text@, start, end)),
{
    let ghost pats = listed(genes@, health@);
    let ghost m = Measure::Window(start, end);
    let mut sum: i64 = 0;
    let mut k: usize = 0;
    proof {
        assert forall|i: int| 0 <= i < pats.len() implies starting_before(m, text@, 0)(
            #[trigger] pats[i],
        ) == 0 by {
            let w = worth(m, pats[i].index, pats[i].weight);
            assert(w * 0 == 0) by (nonlinear_arith);
        }
        lemma_total_zero(pats, starting_before(m, text@, 0));
        lemma_wrapped_exact(0);
    }
    while k < text.len()
        invariant
            k <= text.len(),
            pats == listed(genes@, health@),
            genes.len() == health.len(),
            all_nonempty(pats),
            start <= end < genes.len(),
            m == Measure::Window(start, end),
            sum == wrapped(total(pats, starting_before(m, text@, k as nat))),
        decreases text.len() - k,
    {
        let ghost base = total(pats, starting_before(m, text@, k as nat));
        let ghost here = starting_at(m, text@, k as int);
        proof {
            assert forall|i: int| 0 <= i < pats.take(start as int).len() implies here(
                #[trigger] pats.take(start as int)[i],
            ) == 0 by {
                assert(pats.take(start as int)[i] == pats[i]);
            }
            lemma_total_zero(pats.take(start as int), here);
        }
        let mut g: usize = start;
        while g <= end
            invariant
                start <= g <= end + 1,
                end < genes.len(),
                k < text.len(),
                pats == listed(genes@, health@),
                genes.len() == health.len(),
                all_nonempty(pats),
                m == Measure::Window(start, end),
                here == starting_at(m, text@, k as int),
                base == total(pats, starting_before(m, text@, k as nat)),
                sum == wrapped(base + total(pats.take(g as int), here)),
            decreases end + 1 - g,
        {
            proof {
                assert(pats.take(g + 1) =~= pats.take(g as int).push(pats[g as int]));
                lemma_total_push(pats.take(g as int), pats[g as int], here);
                lemma_wrapped_add(base + total(pats.take(g as int), here), health@[g as int] as int);
            }
            if occurs(&genes[g], text, k) {
                sum = add_wrapping(sum, health[g]);
            }
            g = g + 1;
        }
        proof {
            lemma_total_take(pats, here, end + 1);
            lemma_starting_step(m, pats, text@, k as nat);
        }
        k = k + 1;
    }
    proof {
        lemma_starting_all(m, pats, text@);
    }
    sum
}

/// Runs a batch as `dna_health` does, by brute force.
pub fn dna_health_naive(
    genes: Vec<String>,
    health: Vec<i64>,
    strands: Vec<(i32, i32, String)>,
) -> (res: Result<String, DnaError>)
    ensures
        match rejection(genes@, health@, strands@) {
            Some(e) => res is Err && res->Err_0 == e,
            None => res is Ok && res->Ok_0@ == report(
                least(query_sums(catalogue(genes@, health@), strands@)),
                greatest(query_sums(catalogue(genes@, health@), strands@)),
            ),
        },
{
    match validate(&genes, &health, &strands) {
        Ok(_) => {},
        Err(e) => {
            return Err(e);
        },
    }
    let ghost pats = catalogue(genes@, health@);
    let mut symbols: Vec<Vec<char>> = Vec::new();
    let mut i: usize = 0;
    while i < genes.len()
        invariant
            i <= genes.len(),
            symbols@.len() == i,
            forall|a: int| 0 <= a < i ==> (#[trigger] symbols@[a])@ == genes@[a]@,
        decreases genes.len() - i,
    {
        symbols.push(chars_of(genes[i].as_str()));
        i = i + 1;
    }
    let mut sums: Vec<i64> = Vec::new();
    let mut q: usize = 0;
    while q < strands.len()
        invariant
            q <= strands.len(),
            pats == catalogue(genes@, health@),
            genes.len() == health.len(),
            symbols@.len() == genes.len(),
            forall|a: int| 0 <= a < symbols@.len() ==> (#[trigger] symbols@[a])@ == genes@[a]@,
            all_nonempty(pats),
            forall|a: int| 0 <= a < strands.len() ==> query_ok(#[trigger] strands@[a], pats.len()),
            sums@.len() == q,
            forall|a: int|
                0 <= a < q ==> #[trigger] sums@[a] == wrapped(
                    weighted_occurrences(
                        pats,
                        strands@[a].2@,
                        strands@[a].0 as usize,
                        strands@[a].1 as usize,
                    ),
                ),
        decreases strands.len() - q,
    {
        proof {
            assert(query_ok(strands@[q as int], pats.len()));
        }
        let start = strands[q].0 as usize;
        let end = strands[q].1 as usize;
        let text = chars_of(strands[q].2.as_str());
        proof {
            assert(listed(symbols@, health@) =~= pats);
        }
        let sum = scan(&symbols, &health, &text, start, end);
        sums.push(sum);
        q = q + 1;
    }
    proof {
        assert(as_ints(sums@) =~= query_sums(pats, strands@));
    }
    let bounds = min_max(&sums);
    Ok(format_report(bounds.0, bounds.1))
}

} // verus!
