use vstd::prelude::*;

verus! {

/// What the driver was asked to do.
#[derive(Clone, Copy, PartialEq, Eq, Structural, Debug)]
pub enum FuzzerCommand {
    MinifyInput,
    Fuzz,
    Read,
    MinifyCorpus,
}

/// The driver's default settings: corpus folders, artifact folder, and the
/// numeric limits used when a flag is absent.
pub struct DefaultArguments<'a> {
    pub in_corpus: &'a str,
    pub out_corpus: &'a str,
    pub artifacts: &'a str,
    pub max_nbr_of_runs: usize,
    pub max_input_cplx: usize,
    pub corpus_size: usize,
}

impl DefaultArguments<'static> {
    /// The standard defaults.
    pub fn standard() -> (r: DefaultArguments<'static>)
        ensures
            r.in_corpus@ == "fuzz-corpus"@,
            r.out_corpus@ == "fuzz-corpus"@,
            r.artifacts@ == "artifacts"@,
            r.max_nbr_of_runs == usize::MAX,
            r.max_input_cplx == 256,
            r.corpus_size == 10,
    {
        DefaultArguments {
            in_corpus: "fuzz-corpus",
            out_corpus: "fuzz-corpus",
            artifacts: "artifacts",
            max_nbr_of_runs: usize::MAX,
            max_input_cplx: 256,
            corpus_size: 10,
        }
    }
}

} // verus!
