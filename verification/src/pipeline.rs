//! Configured chains of preprocessing steps and one KSP algorithm, parsed
//! from compact textual descriptions such as `peek->yen<dijkstra>`.

use vstd::prelude::*;

verus! {

use vstd::string::StrSliceExecFns;
use crate::graph::{Graph, SearchError, node_index, walk_from_to, walk_cost};
use crate::path::Path;
use crate::ksp::{Algorithm, UnknownAlgorithmError, ksp_ok, ksp_first_minimal};
use crate::INFINITY;
use crate::ksp::wikipedia::WikipediaKSP;
use crate::ksp::yen::yen_k_shortest;
use crate::sssp::{Sssp, UnknownSsspError};
use crate::sssp::dijkstra::DijkstraSSSP;
use crate::sssp::profiled::ProfilingSSSP;
use crate::trans::{Step, UnknownStepError};
use crate::trans::peek::PeekPreprocess;
use crate::clock::{instant_now, instant_elapsed, duration_nanos};

/// Failure to parse a pipeline description from a string.
#[derive(Debug)]
pub enum PipelineParseError {
    /// Failed to parse an algorithm.
    IllegalAlgorithm {
        /// The rejected fragment.
        raw: String,
        /// The underlying failure.
        err: UnknownAlgorithmError,
    },
    /// Failed to parse the SSSP algorithm.
    IllegalSssp {
        /// The rejected fragment.
        raw: String,
        /// The underlying failure.
        err: UnknownSsspError,
    },
    /// Failed to parse a preprocessing step.
    IllegalStep {
        /// The rejected fragment.
        raw: String,
        /// The underlying failure.
        err: UnknownStepError,
    },
    /// Missing the closing delimiter wrapping the SSSP name.
    MissingClosingDelim {
        /// The fragment that lacks its closing delimiter.
        raw: String,
    },
    /// An algorithm requiring an SSSP engine was given without one.
    MissingSSSP {
        /// The algorithm that needs an engine.
        alg: Algorithm,
    },
}

impl PipelineParseError {
    /// A rendering of this error.
    pub fn describe(&self) -> String {
        match self {
            PipelineParseError::IllegalAlgorithm { raw, .. } => {
                let mut s = "Failed to parse '".to_owned();
                s.append(raw.as_str());
                s.append("' as an algorithm");
                s
            },
            PipelineParseError::IllegalSssp { raw, .. } => {
                let mut s = "Failed to parse '".to_owned();
                s.append(raw.as_str());
                s.append("' as an SSSP algorithm");
                s
            },
            PipelineParseError::IllegalStep { raw, .. } => {
                let mut s = "Failed to parse '".to_owned();
                s.append(raw.as_str());
                s.append("' as a preprocessing step");
                s
            },
            PipelineParseError::MissingClosingDelim { raw } => {
                let mut s = "Missing closing delimiter '>' in '".to_owned();
                s.append(raw.as_str());
                s.append("'");
                s
            },
            PipelineParseError::MissingSSSP { alg } => {
                let mut s = "Algorithm '".to_owned();
                s.append(
                    match alg {
                        Algorithm::Wikipedia => "Wikipedia",
                        Algorithm::Yen => "Yen",
                    },
                );
                s.append("' requires an SSSP algorithm to be defined");
                s
            },
        }
    }
}

/// Profile timings of a pipeline run, in nanoseconds.
#[derive(Clone, Debug)]
pub struct PipelineProfile {
    /// How long each preprocessing step took.
    pub prep: Vec<u64>,
    /// How long the main algorithm took.
    pub alg: u64,
    /// The timings of the individual SSSP calls, if any were made.
    pub sssp: Vec<u64>,
}

/// The step token, if the fragment is one.
pub open spec fn step_token(t: Seq<char>) -> Option<Step> {
    if t == "peek"@ {
        Some(Step::Peek)
    } else {
        None
    }
}

/// The algorithm token, if the fragment is one.
pub open spec fn alg_token(t: Seq<char>) -> Option<Algorithm> {
    if t == "wikipedia"@ {
        Some(Algorithm::Wikipedia)
    } else if t == "yen"@ {
        Some(Algorithm::Yen)
    } else {
        None
    }
}

/// The SSSP token, if the fragment is one.
pub open spec fn sssp_token(t: Seq<char>) -> Option<Sssp> {
    if t == "dijkstra"@ {
        Some(Sssp::Dijkstra)
    } else {
        None
    }
}

/// The position of the first `->` in the sequence, or `-1`.
pub open spec fn arrow_pos(s: Seq<char>) -> int
    decreases s.len(),
{
    if s.len() < 2 {
        -1
    } else if s[0] == '-' && s[1] == '>' {
        0
    } else {
        let r = arrow_pos(s.drop_first());
        if r < 0 {
            -1
        } else {
            r + 1
        }
    }
}

/// The position of the first occurrence of `c`, or `-1`.
pub open spec fn char_pos(s: Seq<char>, c: char) -> int
    decreases s.len(),
{
    if s.len() == 0 {
        -1
    } else if s[0] == c {
        0
    } else {
        let r = char_pos(s.drop_first(), c);
        if r < 0 {
            -1
        } else {
            r + 1
        }
    }
}

proof fn lemma_arrow_pos(s: Seq<char>)
    ensures
        ({
            let r = arrow_pos(s);
            &&& r == -1 ==> forall|i: int|
                #![trigger s[i]]
                0 <= i < s.len() - 1 ==> !(s[i] == '-' && s[i + 1] == '>')
            &&& r >= 0 ==> 0 <= r <= s.len() - 2 && s[r] == '-' && s[r + 1] == '>' && forall|
                i: int,
            |
                #![trigger s[i]]
                0 <= i < r ==> !(s[i] == '-' && s[i + 1] == '>')
        }),
    decreases s.len(),
{
    if s.len() < 2 {
    } else if s[0] == '-' && s[1] == '>' {
    } else {
        lemma_arrow_pos(s.drop_first());
        let t = s.drop_first();
        assert forall|i: int| #![trigger s[i]] 0 <= i < s.len() - 1 && i >= 1 implies (s[i] == t[i
            - 1] && s[i + 1] == t[i]) by {}
    }
}

proof fn lemma_char_pos(s: Seq<char>, c: char)
    ensures
        ({
            let r = char_pos(s, c);
            &&& r == -1 ==> forall|i: int| 0 <= i < s.len() ==> #[trigger] s[i] != c
            &&& r >= 0 ==> 0 <= r < s.len() && s[r] == c && forall|i: int|
                0 <= i < r ==> #[trigger] s[i] != c
        }),
    decreases s.len(),
{
    if s.len() == 0 {
    } else if s[0] == c {
    } else {
        lemma_char_pos(s.drop_first(), c);
        let t = s.drop_first();
        assert forall|i: int| #![trigger s[i]] 1 <= i < s.len() implies s[i] == t[i - 1] by {}
    }
}

fn find_arrow(s: &str) -> (r: Option<usize>)
    ensures
        match r {
            Some(i) => i as int == arrow_pos(s@),
            None => arrow_pos(s@) == -1,
        },
{
    proof {
        lemma_arrow_pos(s@);
    }
    let n = s.unicode_len();
    if n < 2 {
        return None;
    }
    let mut i: usize = 0;
    while i < n - 1
        invariant
            n == s@.len(),
            n >= 2,
            i <= n - 1,
            forall|j: int| #![trigger s@[j]] 0 <= j < i ==> !(s@[j] == '-' && s@[j + 1] == '>'),
        decreases n - i,
    {
        if s.get_char(i) == '-' && s.get_char(i + 1) == '>' {
            proof {
                lemma_arrow_pos(s@);
                let r = arrow_pos(s@);
                if r < i {
                    assert(!(s@[r] == '-' && s@[r + 1] == '>'));
                }
                if r > i || r == -1 {
                    assert(!(s@[i as int] == '-' && s@[i as int + 1] == '>'));
                }
            }
            return Some(i);
        }
        i = i + 1;
    }
    proof {
        lemma_arrow_pos(s@);
        let r = arrow_pos(s@);
        if r >= 0 {
            assert(!(s@[r] == '-' && s@[r + 1] == '>'));
        }
    }
    None
}

fn find_char(s: &str, c: char) -> (r: Option<usize>)
    ensures
        match r {
            Some(i) => i as int == char_pos(s@, c),
            None => char_pos(s@, c) == -1,
        },
{
    proof {
        lemma_char_pos(s@, c);
    }
    let n = s.unicode_len();
    let mut i: usize = 0;
    while i < n
        invariant
            n == s@.len(),
            i <= n,
            forall|j: int| 0 <= j < i ==> #[trigger] s@[j] != c,
        decreases n - i,
    {
        if s.get_char(i) == c {
            proof {
                lemma_char_pos(s@, c);
                let r = char_pos(s@, c);
                if r < i {
                    assert(s@[r] != c);
                }
                if r > i || r == -1 {
                    assert(s@[i as int] != c);
                }
            }
            return Some(i);
        }
        i = i + 1;
    }
    proof {
        lemma_char_pos(s@, c);
        let r = char_pos(s@, c);
        if r >= 0 {
            assert(s@[r] != c);
        }
    }
    None
}

/// What the tail of a description (after the last `->`) means: an
/// algorithm, optionally followed by `<` an SSSP name `>`. An algorithm
/// that needs an SSSP engine is rejected without one.
pub open spec fn parse_tail(s: Seq<char>) -> Option<(Algorithm, Option<Sssp>)> {
    let l = char_pos(s, '<');
    if l < 0 {
        match alg_token(s) {
            Some(a) => if a is Yen {
                None
            } else {
                Some((a, None))
            },
            None => None,
        }
    } else {
        if s.len() == 0 || s[s.len() - 1] != '>' {
            None
        } else {
            match alg_token(s.subrange(0, l)) {
                Some(a) => match sssp_token(s.subrange(l + 1, s.len() - 1)) {
                    Some(ss) => Some((a, Some(ss))),
                    None => None,
                },
                None => None,
            }
        }
    }
}

/// What a whole description means: `->`-separated preprocessing steps,
/// then the algorithm tail.
pub open spec fn parse_pipeline(s: Seq<char>) -> Option<(Seq<Step>, Algorithm, Option<Sssp>)>
    decreases s.len(),
    via parse_pipeline_decreases
{
    let a = arrow_pos(s);
    if a < 0 {
        match parse_tail(s) {
            Some((alg, ss)) => Some((Seq::empty(), alg, ss)),
            None => None,
        }
    } else {
        match step_token(s.subrange(0, a)) {
            Some(st) => match parse_pipeline(s.subrange(a + 2, s.len() as int)) {
                Some((steps, alg, ss)) => Some((seq![st] + steps, alg, ss)),
                None => None,
            },
            None => None,
        }
    }
}

#[via_fn]
proof fn parse_pipeline_decreases(s: Seq<char>) {
    lemma_arrow_pos(s);
}

fn parse_tail_exec(s: &str) -> (r: Result<(Algorithm, Option<Sssp>), PipelineParseError>)
    ensures
        match r {
            Ok((alg, ss)) => parse_tail(s@) == Some((alg, ss)),
            Err(_) => parse_tail(s@) is None,
        },
{
    proof {
        reveal_strlit("wikipedia");
        reveal_strlit("yen");
        reveal_strlit("dijkstra");
    }
    let n = s.unicode_len();
    match find_char(s, '<') {
        None => {
            match Algorithm::from_str(s) {
                Err(err) => Err(PipelineParseError::IllegalAlgorithm { raw: s.to_owned(), err }),
                Ok(alg) => {
                    proof {
                        assert("wikipedia"@.len() == 9);
                        assert("yen"@.len() == 3);
                        assert(alg_token(s@) == Some(alg));
                    }
                    if alg.needs_sssp() {
                        Err(PipelineParseError::MissingSSSP { alg })
                    } else {
                        Ok((alg, None))
                    }
                },
            }
        },
        Some(l) => {
            proof {
                lemma_char_pos(s@, '<');
            }
            if s.get_char(n - 1) != '>' {
                let rest = s.substring_char(l + 1, n);
                return Err(PipelineParseError::MissingClosingDelim { raw: rest.to_owned() });
            }
            proof {
                assert(s@[l as int] == '<' && s@[n - 1] == '>');
            }
            let algstr = s.substring_char(0, l);
            match Algorithm::from_str(algstr) {
                Err(err) => Err(
                    PipelineParseError::IllegalAlgorithm { raw: algstr.to_owned(), err },
                ),
                Ok(alg) => {
                    let ssspstr = s.substring_char(l + 1, n - 1);
                    proof {
                        // The two algorithm tokens have different lengths,
                        // so the token functions tell them apart.
                        assert("wikipedia"@.len() == 9);
                        assert("yen"@.len() == 3);
                        assert(alg_token(s@.subrange(0, l as int)) == Some(alg));
                    }
                    match Sssp::from_str(ssspstr) {
                        Err(err) => Err(
                            PipelineParseError::IllegalSssp { raw: ssspstr.to_owned(), err },
                        ),
                        Ok(ss) => Ok((alg, Some(ss))),
                    }
                },
            }
        },
    }
}

fn parse_pipeline_exec(s: &str) -> (r: Result<
    (Vec<Step>, Algorithm, Option<Sssp>),
    PipelineParseError,
>)
    ensures
        match r {
            Ok((steps, alg, ss)) => parse_pipeline(s@) == Some((steps@, alg, ss)),
            Err(_) => parse_pipeline(s@) is None,
        },
    decreases s@.len(),
{
    proof {
        lemma_arrow_pos(s@);
        reveal_strlit("peek");
    }
    let n = s.unicode_len();
    match find_arrow(s) {
        None => {
            match parse_tail_exec(s) {
                Ok((alg, ss)) => {
                    let steps: Vec<Step> = Vec::new();
                    proof {
                        assert(steps@ =~= Seq::<Step>::empty());
                    }
                    Ok((steps, alg, ss))
                },
                Err(e) => Err(e),
            }
        },
        Some(pos) => {
            let stepstr = s.substring_char(0, pos);
            match Step::from_str(stepstr) {
                Err(err) => Err(PipelineParseError::IllegalStep { raw: stepstr.to_owned(), err }),
                Ok(st) => {
                    let rest = s.substring_char(pos + 2, n);
                    match parse_pipeline_exec(rest) {
                        Err(e) => Err(e),
                        Ok((tail_steps, alg, ss)) => {
                            let ghost tsv = tail_steps@;
                            let mut steps = tail_steps;
                            steps.insert(0, st);
                            proof {
                                assert(steps@ =~= seq![st] + tsv);
                            }
                            Ok((steps, alg, ss))
                        },
                    }
                },
            }
        },
    }
}

/// A full chain configuring which KSP algorithm is run and how: zero or
/// more preprocessing steps, the algorithm, and the SSSP engine it uses,
/// if it needs one.
#[derive(Debug)]
pub struct Pipeline {
    prep: Vec<Step>,
    alg: Algorithm,
    sssp: Option<Sssp>,
}

impl Pipeline {
    /// The preprocessing steps, in order.
    pub closed spec fn prep_spec(self) -> Seq<Step> {
        self.prep@
    }

    /// The algorithm to execute.
    pub closed spec fn alg_spec(self) -> Algorithm {
        self.alg
    }

    /// The SSSP engine to use, if any.
    pub closed spec fn sssp_spec(self) -> Option<Sssp> {
        self.sssp
    }

    /// A pipeline is configured when an algorithm that needs an SSSP
    /// engine has one.
    pub open spec fn configured(self) -> bool {
        self.alg_spec() is Yen ==> self.sssp_spec() is Some
    }

    /// Parses a pipeline description such as `peek->yen<dijkstra>`.
    pub fn from_str(s: &str) -> (r: Result<Pipeline, PipelineParseError>)
        ensures
            match r {
                Ok(p) => parse_pipeline(s@) == Some((p.prep_spec(), p.alg_spec(), p.sssp_spec()))
                    && p.configured(),
                Err(_) => parse_pipeline(s@) is None,
            },
    {
        match parse_pipeline_exec(s) {
            Ok((prep, alg, sssp)) => {
                proof {
                    lemma_parse_configured(s@);
                }
                Ok(Pipeline { prep, alg, sssp })
            },
            Err(e) => Err(e),
        }
    }

    /// Renders the pipeline as its steps and algorithm, such as
    /// `Peek->Yen<Dijkstra>`.
    pub fn describe(&self) -> (r: String)
        ensures
            r@ == render_pipeline(self.prep_spec(), self.alg_spec(), self.sssp_spec()),
    {
        let mut out = String::new();
        let n = self.prep.len();
        proof {
            assert(self.prep@.skip(0) =~= self.prep@);
            assert(out@ + render_pipeline(self.prep@, self.alg, self.sssp) =~= render_pipeline(
                self.prep@,
                self.alg,
                self.sssp,
            ));
        }
        let mut i: usize = 0;
        while i < n
            invariant
                n == self.prep@.len(),
                i <= n,
                out@ + render_pipeline(self.prep@.skip(i as int), self.alg, self.sssp)
                    == render_pipeline(self.prep@, self.alg, self.sssp),
            decreases n - i,
        {
            let ghost pre = out@;
            let ghost remaining = self.prep@.skip(i as int);
            match self.prep[i] {
                Step::Peek => {
                    out.append("Peek");
                    out.append("->");
                },
            }
            i = i + 1;
            proof {
                assert(remaining.len() > 0);
                assert(remaining.drop_first() =~= self.prep@.skip(i as int));
                assert(render_pipeline(remaining, self.alg, self.sssp) == "Peek"@ + "->"@
                    + render_pipeline(self.prep@.skip(i as int), self.alg, self.sssp));
                assert(out@ + render_pipeline(self.prep@.skip(i as int), self.alg, self.sssp) =~= pre
                    + render_pipeline(remaining, self.alg, self.sssp));
            }
        }
        proof {
            assert(self.prep@.skip(n as int) =~= Seq::<Step>::empty());
        }
        match self.alg {
            Algorithm::Wikipedia => out.append("Wikipedia"),
            Algorithm::Yen => out.append("Yen"),
        }
        match self.sssp {
            Some(Sssp::Dijkstra) => out.append("<Dijkstra>"),
            None => {},
        }
        proof {
            assert(out@ =~= render_pipeline(self.prep@, self.alg, self.sssp));
        }
        out
    }

    /// Runs the configured pipeline: every preprocessing step in order,
    /// then the algorithm, timing each part. Timings are in nanoseconds;
    /// for a Yen run, each SSSP call is timed individually as well.
    ///
    /// The paths come back against the graph as the preprocessing steps
    /// left it: each is a valid path joining the endpoints there, at most
    /// `k` come back, at least one does whenever one is asked for and a
    /// walk joins the endpoints, and the first is a cheapest one. An
    /// unknown-node failure means an endpoint is missing from that graph
    /// (a pruning step may have removed it); a disconnection failure means
    /// no walk below the unreachable sentinel joins the endpoints there.
    pub fn k_shortest_paths_profiled(&self, graph: &mut Graph, src: &str, dst: &str, k: usize) -> (r:
        Result<(Vec<Path>, PipelineProfile), SearchError>)
        requires
            old(graph).wf(),
            self.configured(),
            k < usize::MAX,
        ensures
            final (graph).wf(),
            match r {
                Ok((paths, _)) => ksp_ok(*final (graph), Ok(paths), src@, dst@, k as int)
                    && ksp_first_minimal(*final (graph), paths@, src@, dst@, k as int),
                Err(e) => match e {
                    SearchError::UnknownNode => !final (graph).has_node(src@) || !final (
                    graph).has_node(dst@),
                    SearchError::Disconnected => final (graph).has_node(src@) && final (
                    graph).has_node(dst@) && forall|w: Seq<(int, int)>|
                        #[trigger] walk_from_to(
                            *final (graph),
                            w,
                            node_index(*final (graph), src@),
                            node_index(*final (graph), dst@),
                        ) ==> walk_cost(w) >= INFINITY,
                },
            },
    {
        let mut prep_timings: Vec<u64> = Vec::new();
        let pcount = self.prep.len();
        let mut i: usize = 0;
        while i < pcount
            invariant
                graph.wf(),
                pcount == self.prep@.len(),
                i <= pcount,
            decreases pcount - i,
        {
            match self.prep[i] {
                Step::Peek => {
                    let start = instant_now();
                    match PeekPreprocess::preprocess(graph, src, dst, k) {
                        Ok(()) => {},
                        Err(e) => {
                            return Err(e);
                        },
                    }
                    let spent = instant_elapsed(&start);
                    let nanos = duration_nanos(&spent);
                    #[verifier::truncate]
                    let nanos64 = nanos as u64;
                    prep_timings.push(nanos64);
                },
            }
            i = i + 1;
        }
        match self.alg {
            Algorithm::Wikipedia => {
                let start = instant_now();
                let paths = match (WikipediaKSP).k_shortest_paths(graph, src, dst, k) {
                    Ok(p) => p,
                    Err(e) => {
                        return Err(e);
                    },
                };
                let spent = instant_elapsed(&start);
                let nanos = duration_nanos(&spent);
                #[verifier::truncate]
                let nanos64 = nanos as u64;
                let profile = PipelineProfile {
                    prep: prep_timings,
                    alg: nanos64,
                    sssp: Vec::new(),
                };
                Ok((paths, profile))
            },
            Algorithm::Yen => {
                match self.sssp {
                    Some(Sssp::Dijkstra) => {
                        let mut engine = ProfilingSSSP::new(DijkstraSSSP);
                        let start = instant_now();
                        let paths = match yen_k_shortest(&mut engine, graph, src, dst, k) {
                            Ok(p) => p,
                            Err(e) => {
                                return Err(e);
                            },
                        };
                        let spent = instant_elapsed(&start);
                        let nanos = duration_nanos(&spent);
                        #[verifier::truncate]
                        let nanos64 = nanos as u64;
                        let profile = PipelineProfile {
                            prep: prep_timings,
                            alg: nanos64,
                            sssp: engine.timings,
                        };
                        Ok((paths, profile))
                    },
                    None => {
                        // A configured pipeline always carries the engine
                        // its algorithm needs.
                        proof {
                            assert(false);
                        }
                        Err(SearchError::UnknownNode)
                    },
                }
            },
        }
    }
}

/// The rendered name of an algorithm.
pub open spec fn render_alg(alg: Algorithm) -> Seq<char> {
    match alg {
        Algorithm::Wikipedia => "Wikipedia"@,
        Algorithm::Yen => "Yen"@,
    }
}

/// The rendered engine suffix, empty when no engine is configured.
pub open spec fn render_sssp(sssp: Option<Sssp>) -> Seq<char> {
    match sssp {
        None => Seq::empty(),
        Some(Sssp::Dijkstra) => "<Dijkstra>"@,
    }
}

/// The rendering of a whole pipeline: each step followed by an arrow, then
/// the algorithm with its engine suffix.
pub open spec fn render_pipeline(prep: Seq<Step>, alg: Algorithm, sssp: Option<Sssp>) -> Seq<char>
    decreases prep.len(),
{
    if prep.len() == 0 {
        render_alg(alg) + render_sssp(sssp)
    } else {
        "Peek"@ + "->"@ + render_pipeline(prep.drop_first(), alg, sssp)
    }
}

/// A successfully parsed description yields a configured pipeline: the
/// tail parser rejects an engine-less algorithm that needs one.
proof fn lemma_parse_configured(s: Seq<char>)
    ensures
        match parse_pipeline(s) {
            Some((_, alg, ss)) => alg is Yen ==> ss is Some,
            None => true,
        },
    decreases s.len(),
{
    lemma_arrow_pos(s);
    let a = arrow_pos(s);
    if a >= 0 {
        lemma_parse_configured(s.subrange(a + 2, s.len() as int));
    }
}

} // verus!
