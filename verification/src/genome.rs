use vstd::prelude::*;

use crate::error::HmmError;
use crate::frac::{spec_tolerance, Frac, Rat};
use crate::model::Model;
use crate::train::{
    apply_tunings, counts_fit, discrete, emit_counts, normalize_assoc, normalize_fits,
    normalize_table, normalize_table_fits, paths_view, sparse_from_ok, start_counts, trans_counts,
    SparseMap, SparseTable,
};

verus! {

/// The training path of one half-open range of raw DNA: each character in
/// the range is read as both hidden state and observation.
pub open spec fn range_pairs(dna: Seq<char>, range: (usize, usize)) -> Seq<(char, char)> {
    Seq::new((range.1 - range.0) as nat, |i: int| (dna[range.0 + i], dna[range.0 + i]))
}

/// Copy one range of the DNA out as (state, observation) pairs.
pub fn extract_range(dna: &String, range: (usize, usize)) -> (r: Vec<(char, char)>)
    requires
        range.0 <= range.1 <= dna@.len(),
    ensures
        r@ == range_pairs(dna@, range),
{
    let text = dna.as_str();
    let (start, end) = range;
    let mut r: Vec<(char, char)> = Vec::new();
    let mut i: usize = start;
    while i < end
        invariant
            start <= i <= end,
            end <= text@.len(),
            text@ == dna@,
            r@.len() == i - start,
            forall|x: int|
                0 <= x < i - start ==> (#[trigger] r@[x]) == (dna@[start + x], dna@[start + x]),
        decreases end - i,
    {
        let c = text.get_char(i);
        r.push((c, c));
        i = i + 1;
    }
    proof {
        assert(r@ =~= range_pairs(dna@, range));
    }
    r
}

/// The paths that `model` trains on: one per training-set range.
pub open spec fn genome_paths(dna: Seq<char>, tset: Seq<(usize, usize)>) -> Seq<Seq<(char, char)>> {
    Seq::new(tset.len(), |i: int| range_pairs(dna, tset[i]))
}

/// Train a sparse character model on the ranges of raw DNA named by the
/// training set, by supervised counting: each character emits itself.
pub fn model(dna: &String, tset: &Vec<(usize, usize)>) -> (r: Result<
    Model<char, char, SparseMap<char, Frac>, SparseTable<char, char>, SparseTable<char, char>>,
    HmmError,
>)
    requires
        forall|i: int|
            0 <= i < tset@.len() ==> (#[trigger] tset@[i]).0 < tset@[i].1 <= dna@.len(),
    ensures
        ({
            let pv = genome_paths(dna@, tset@);
            let np = pv.len() as int;
            let cs = start_counts(pv, np);
            let ce = emit_counts(pv, np);
            let ct = trans_counts(pv, np);
            let ns = normalize_assoc(cs);
            let ne = normalize_table(ce);
            let nt = normalize_table(ct);
            &&& (r is Ok <==> counts_fit(pv, np) && normalize_fits(cs) && normalize_table_fits(ce)
                && normalize_table_fits(ct) && sparse_from_ok(ns, nt, spec_tolerance()))
            &&& match r {
                Ok(m) => m.start.rats() == ns && m.emitter@ == ne && m.trans@ == nt
                    && crate::model::stochastic_model(m, spec_tolerance()),
                Err(_) => true,
            }
        }),
{
    let ghost pv = genome_paths(dna@, tset@);
    let mut state_paths: Vec<Vec<(char, char)>> = Vec::new();
    let n = tset.len();
    let mut i: usize = 0;
    while i < n
        invariant
            0 <= i <= n,
            n == tset@.len(),
            pv == genome_paths(dna@, tset@),
            forall|x: int|
                0 <= x < tset@.len() ==> (#[trigger] tset@[x]).0 < tset@[x].1 <= dna@.len(),
            state_paths@.len() == i,
            forall|x: int| 0 <= x < i ==> (#[trigger] state_paths@[x])@ == pv[x],
        decreases n - i,
    {
        let range = tset[i];
        let path = extract_range(dna, range);
        state_paths.push(path);
        i = i + 1;
    }
    proof {
        assert(paths_view(state_paths@) =~= pv);
        assert forall|p: int| 0 <= p < state_paths@.len() implies (#[trigger] state_paths@[p])@.len()
            >= 1 by {
            assert(state_paths@[p]@ == pv[p]);
        }
    }
    discrete(&state_paths, None)
}

} // verus!
