use vstd::prelude::*;
use crate::text::{chars_of, parse_usize, is_usize_literal, usize_literal_value};
use crate::data::DataHolder;
use crate::error::SniprunError;

pub use crate::level::SupportLevel;

verus! {

/// What every interpreter offers: how it is made, what it is called and which
/// languages it runs, the support level it works at, and how it completes the code of
/// a snippet into a program. Reading sources, writing files and running compilers or
/// programs are done around it, by the caller.
pub trait Interpreter: Sized {
    /// An interpreter for `data`, working at its highest support level.
    fn new(data: DataHolder) -> (r: Box<Self>)
        ensures
            r.data_of() == data,
            exists|l: SupportLevel|
                call_ensures(Self::get_max_support_level, (), l) && #[trigger] r.level_of() == l
                    && call_ensures(Self::new_with_level, (data, l), r),
    {
        Self::new_with_level(data, Self::get_max_support_level())
    }

    /// The support level an interpreter works at.
    spec fn level_of(&self) -> SupportLevel;

    /// What the editor told an interpreter.
    spec fn data_of(&self) -> DataHolder;

    /// An interpreter for `data`, working at `level`.
    fn new_with_level(data: DataHolder, level: SupportLevel) -> (r: Box<Self>)
        ensures
            r.data_of() == data,
            r.level_of() == level,
    ;

    /// The (unique) name of the interpreter.
    fn get_name() -> String;

    /// The languages (as editor file types) the interpreter runs.
    fn get_supported_languages() -> Vec<String>;

    /// The support level the interpreter works at.
    fn get_current_level(&self) -> (l: SupportLevel)
        ensures
            l == self.level_of(),
    ;

    /// Makes the interpreter work at `level`.
    fn set_current_level(&mut self, level: SupportLevel)
        ensures
            final(self).level_of() == level,
            final(self).data_of() == old(self).data_of(),
    ;

    /// What the editor told the interpreter.
    fn get_data(&self) -> (d: DataHolder)
        ensures
            d == self.data_of(),
    ;

    /// The highest support level the interpreter offers.
    fn get_max_support_level() -> (l: SupportLevel)
        default_ensures
            l == SupportLevel::Unsupported,
    {
        SupportLevel::Unsupported
    }

    /// Whether the interpreter is the one to use for its languages by default.
    fn default_for_filetype() -> (b: bool)
        default_ensures
            !b,
    {
        false
    }

    /// The result of another interpreter, when this one cannot run the snippet.
    fn fallback(&mut self) -> (r: Option<Result<String, SniprunError>>)
        default_ensures
            r is None,
            *final(self) == *old(self),
    {
        None
    }

    /// Adds to the code what does not come from the project.
    fn add_boilerplate(&mut self) -> Result<(), SniprunError>;
}

/// The steps of a run, in the order they come.
#[derive(Clone, Copy, Debug, PartialEq, Eq, Structural)]
pub enum RunStage {
    /// get the code of the snippet
    Fetch,
    /// add what does not come from the project
    Boilerplate,
    /// build the program
    Build,
    /// run the program
    Execute,
}

/// What a run does next.
#[derive(Debug, PartialEq, Eq)]
pub enum RunNext {
    /// carry out this step
    Step(RunStage),
    /// the run is over, with this result
    Done(Result<String, SniprunError>),
}

/// How a run at a level starts: with the fallback's result when there is one, else
/// with fetching the code.
pub fn first_stage(fallback: Option<Result<String, SniprunError>>) -> (n: RunNext)
    ensures
        n == match fallback {
            Some(res) => RunNext::Done(res),
            None => RunNext::Step(RunStage::Fetch),
        },
{
    match fallback {
        Some(res) => RunNext::Done(res),
        None => RunNext::Step(RunStage::Fetch),
    }
}

/// What follows a step that is not the last: the run stops at the step's error, else
/// goes on with the next step (fetch, boilerplate, build, then execute). What the
/// execution returns is the result of the run.
pub fn next_stage(stage: RunStage, outcome: Result<(), SniprunError>) -> (n: RunNext)
    requires
        stage != RunStage::Execute,
    ensures
        n == match outcome {
            Err(e) => RunNext::Done(Err(e)),
            Ok(()) => RunNext::Step(
                match stage {
                    RunStage::Fetch => RunStage::Boilerplate,
                    RunStage::Boilerplate => RunStage::Build,
                    _ => RunStage::Execute,
                },
            ),
        },
{
    match outcome {
        Err(e) => RunNext::Done(Err(e)),
        Ok(()) => RunNext::Step(
            match stage {
                RunStage::Fetch => RunStage::Boilerplate,
                RunStage::Boilerplate => RunStage::Build,
                _ => RunStage::Execute,
            },
        ),
    }
}

/// A region of a source file: from (`start_row`, `start_col`) to (`end_row`, `end_col`),
/// rows counted from zero.
#[derive(Copy, Clone, Eq, PartialEq, Debug, Structural)]
pub struct Range {
    pub start_row: usize,
    pub start_col: usize,
    pub end_row: usize,
    pub end_col: usize,
}

/// `range` lies within `containing_range`: it starts at or after its start and ends at
/// or before its end, positions being ordered by row, then by column.
pub open spec fn included_in(range: Range, containing_range: Range) -> bool {
    &&& (range.start_row > containing_range.start_row || (range.start_row
        == containing_range.start_row && range.start_col >= containing_range.start_col))
    &&& (range.end_row < containing_range.end_row || (range.end_row == containing_range.end_row
        && range.end_col <= containing_range.end_col))
}

/// `range` lies within some range of `v`.
pub open spec fn covered_by(range: Range, v: Seq<Range>) -> bool {
    exists|i: int| 0 <= i < v.len() && included_in(range, #[trigger] v[i])
}

/// The ranges of `v` that remain once, going through `v` in order, every range that
/// lies within one already kept is left out.
pub open spec fn squashed(v: Seq<Range>) -> Seq<Range>
    decreases v.len(),
{
    if v.len() == 0 {
        Seq::empty()
    } else {
        let kept = squashed(v.drop_last());
        if covered_by(v.last(), kept) {
            kept
        } else {
            kept.push(v.last())
        }
    }
}

/// Whether `range` lies within `containing_range`.
pub fn included(range: &Range, containing_range: &Range) -> (r: bool)
    ensures
        r == included_in(*range, *containing_range),
{
    (range.start_row > containing_range.start_row || (range.start_row
        == containing_range.start_row && range.start_col >= containing_range.start_col)) && (
    range.end_row < containing_range.end_row || (range.end_row == containing_range.end_row
        && range.end_col <= containing_range.end_col))
}

/// Whether `range` lies within some range of `v`.
pub fn in_vec(range: &Range, v: &Vec<Range>) -> (r: bool)
    ensures
        r == covered_by(*range, v@),
{
    let mut i: usize = 0;
    while i < v.len()
        invariant
            i <= v.len(),
            forall|j: int| 0 <= j < i ==> !included_in(*range, #[trigger] v@[j]),
        decreases v.len() - i,
    {
        if included(range, &v[i]) {
            return true;
        }
        i = i + 1;
    }
    false
}

/// Keeps, in order, each range of `v` that does not lie within a range kept before it.
pub fn squash_vec_range(v: Vec<Range>) -> (nv: Vec<Range>)
    ensures
        nv@ == squashed(v@),
{
    let mut nv: Vec<Range> = Vec::new();
    let mut i: usize = 0;
    assert(v@.take(0) =~= Seq::<Range>::empty());
    while i < v.len()
        invariant
            i <= v.len(),
            nv@ == squashed(v@.take(i as int)),
        decreases v.len() - i,
    {
        let range = v[i];
        assert(v@.take(i + 1).drop_last() =~= v@.take(i as int));
        assert(v@.take(i + 1).last() == range);
        if !in_vec(&range, &nv) {
            nv.push(range);
        }
        i = i + 1;
    }
    assert(v@.take(v.len() as int) =~= v@);
    nv
}

/// Four words that read as a range: each of the first four is a `usize` literal
/// (further words are not looked at).
pub open spec fn words_form_range(w: Seq<Seq<char>>) -> bool {
    &&& w.len() >= 4
    &&& is_usize_literal(w[0])
    &&& is_usize_literal(w[1])
    &&& is_usize_literal(w[2])
    &&& is_usize_literal(w[3])
}

/// The range that four words spell: start row, start column, end row, end column.
pub open spec fn words_range(w: Seq<Seq<char>>) -> Range {
    Range {
        start_row: usize_literal_value(w[0]) as usize,
        start_col: usize_literal_value(w[1]) as usize,
        end_row: usize_literal_value(w[2]) as usize,
        end_col: usize_literal_value(w[3]) as usize,
    }
}

/// The character sequences of a list of string slices.
pub open spec fn words_view(v: Seq<&str>) -> Seq<Seq<char>> {
    v.map_values(|w: &str| w@)
}

impl Range {
    /// Reads a range from the words "start_row start_col end_row end_col".
    pub fn from(v: Vec<&str>) -> (r: Range)
        requires
            words_form_range(words_view(v@)),
        ensures
            r == words_range(words_view(v@)),
    {
        let r = Range::from_words(&v);
        match r {
            Some(range) => range,
            None => Range { start_row: 0, start_col: 0, end_row: 0, end_col: 0 },
        }
    }

    /// Reads a range from the words "start_row start_col end_row end_col"; `None` when
    /// there are fewer than four words or one of the first four is not a `usize`.
    pub fn from_words(v: &Vec<&str>) -> (r: Option<Range>)
        ensures
            r is Some <==> words_form_range(words_view(v@)),
            r matches Some(range) ==> range == words_range(words_view(v@)),
    {
        let ghost w = words_view(v@);
        if v.len() < 4 {
            return None;
        }
        assert(w[0] == v@[0]@ && w[1] == v@[1]@ && w[2] == v@[2]@ && w[3] == v@[3]@);
        let start_row = parse_usize(&chars_of(v[0]));
        let start_col = parse_usize(&chars_of(v[1]));
        let end_row = parse_usize(&chars_of(v[2]));
        let end_col = parse_usize(&chars_of(v[3]));
        match (start_row, start_col, end_row, end_col) {
            (Some(a), Some(b), Some(c), Some(d)) => Some(
                Range { start_row: a, start_col: b, end_row: c, end_col: d },
            ),
            _ => None,
        }
    }
}

// ------------------------------------------------------------------ laws

/// Every range lies within itself.
pub proof fn lemma_included_reflexive(r: Range)
    ensures
        included_in(r, r),
{
}

/// Lying within is transitive.
pub proof fn lemma_included_transitive(a: Range, b: Range, c: Range)
    requires
        included_in(a, b),
        included_in(b, c),
    ensures
        included_in(a, c),
{
}

/// Two ranges that lie within each other are the same range.
pub proof fn lemma_included_antisymmetric(a: Range, b: Range)
    requires
        included_in(a, b),
        included_in(b, a),
    ensures
        a == b,
{
}

/// `sub` is `v` with some elements left out: `idx` gives, in increasing order, the
/// position in `v` of each element of `sub`.
pub open spec fn picks(idx: Seq<int>, sub: Seq<Range>, v: Seq<Range>) -> bool {
    &&& idx.len() == sub.len()
    &&& forall|j: int| 0 <= j < idx.len() ==> 0 <= #[trigger] idx[j] < v.len() && sub[j] == v[idx[j]]
    &&& forall|j: int, k: int| 0 <= j < k < idx.len() ==> #[trigger] idx[j] < #[trigger] idx[k]
}

/// Squashing keeps only ranges of its input, in their order: the result is the input
/// with some ranges left out.
pub proof fn lemma_squashed_is_subsequence(v: Seq<Range>)
    ensures
        exists|idx: Seq<int>| #[trigger] picks(idx, squashed(v), v),
    decreases v.len(),
{
    if v.len() == 0 {
        assert(picks(Seq::<int>::empty(), squashed(v), v));
    } else {
        let w = v.drop_last();
        lemma_squashed_is_subsequence(w);
        let idx0 = choose|idx: Seq<int>| #[trigger] picks(idx, squashed(w), w);
        if covered_by(v.last(), squashed(w)) {
            assert forall|j: int| 0 <= j < idx0.len() implies 0 <= #[trigger] idx0[j] < v.len()
                && squashed(v)[j] == v[idx0[j]] by {
                assert(v[idx0[j]] == w[idx0[j]]);
            }
            assert(picks(idx0, squashed(v), v));
        } else {
            let idx = idx0.push(v.len() - 1);
            assert forall|j: int| 0 <= j < idx.len() implies 0 <= #[trigger] idx[j] < v.len()
                && squashed(v)[j] == v[idx[j]] by {
                if j < idx0.len() {
                    assert(idx[j] == idx0[j]);
                    assert(v[idx0[j]] == w[idx0[j]]);
                }
            }
            assert forall|j: int, k: int| 0 <= j < k < idx.len() implies #[trigger] idx[j]
                < #[trigger] idx[k] by {
                if k < idx0.len() {
                    assert(idx[j] == idx0[j] && idx[k] == idx0[k]);
                } else {
                    assert(idx[j] == idx0[j]);
                }
            }
            assert(picks(idx, squashed(v), v));
        }
    }
}

/// Every range of the input lies within some range of the squashed result.
pub proof fn lemma_squashed_covers(v: Seq<Range>)
    ensures
        forall|i: int| 0 <= i < v.len() ==> covered_by(#[trigger] v[i], squashed(v)),
    decreases v.len(),
{
    if v.len() > 0 {
        let w = v.drop_last();
        lemma_squashed_covers(w);
        let kept = squashed(w);
        assert forall|i: int| 0 <= i < v.len() implies covered_by(#[trigger] v[i], squashed(v)) by {
            if i < v.len() - 1 {
                assert(v[i] == w[i]);
                let k = choose|k: int| 0 <= k < kept.len() && included_in(w[i], #[trigger] kept[k]);
                assert(squashed(v)[k] == kept[k]);
            } else if !covered_by(v.last(), kept) {
                assert(squashed(v)[kept.len() as int] == v[i]);
            }
        }
    }
}

/// No range of the squashed result lies within a range that comes before it.
pub proof fn lemma_squashed_no_inner(v: Seq<Range>)
    ensures
        forall|j: int, k: int|
            0 <= j < k < squashed(v).len() ==> !included_in(
                #[trigger] squashed(v)[k],
                #[trigger] squashed(v)[j],
            ),
    decreases v.len(),
{
    if v.len() > 0 {
        lemma_squashed_no_inner(v.drop_last());
        let kept = squashed(v.drop_last());
        assert forall|j: int, k: int| 0 <= j < k < squashed(v).len() implies !included_in(
            #[trigger] squashed(v)[k],
            #[trigger] squashed(v)[j],
        ) by {
            assert(squashed(v)[j] == kept[j]);
            if k < kept.len() {
                assert(squashed(v)[k] == kept[k]);
            }
        }
    }
}

/// A sequence in which no range lies within an earlier one is left as it is.
pub proof fn lemma_squashed_keeps_independent(v: Seq<Range>)
    requires
        forall|j: int, k: int| 0 <= j < k < v.len() ==> !included_in(#[trigger] v[k], #[trigger] v[j]),
    ensures
        squashed(v) == v,
    decreases v.len(),
{
    if v.len() > 0 {
        let w = v.drop_last();
        assert forall|j: int, k: int| 0 <= j < k < w.len() implies !included_in(
            #[trigger] w[k],
            #[trigger] w[j],
        ) by {
            assert(w[k] == v[k] && w[j] == v[j]);
        }
        lemma_squashed_keeps_independent(w);
        if covered_by(v.last(), w) {
            let j = choose|j: int| 0 <= j < w.len() && included_in(v.last(), #[trigger] w[j]);
            assert(w[j] == v[j]);
            assert(!included_in(v[v.len() - 1], v[j]));
        }
        assert(w.push(v.last()) =~= v);
    }
}

/// A range of the list survives squashing when every range of the list that it lies
/// within is itself: the selection stays among the dependencies as long as no listed
/// range strictly encloses it.
pub proof fn lemma_unenclosed_range_survives(v: Seq<Range>, x: Range)
    requires
        v.contains(x),
        forall|i: int| 0 <= i < v.len() && included_in(x, #[trigger] v[i]) ==> v[i] == x,
    ensures
        squashed(v).contains(x),
{
    lemma_squashed_covers(v);
    lemma_squashed_is_subsequence(v);
    let i = choose|i: int| 0 <= i < v.len() && v[i] == x;
    assert(covered_by(v[i], squashed(v)));
    let k = choose|k: int| 0 <= k < squashed(v).len() && included_in(x, #[trigger] squashed(v)[k]);
    let idx = choose|idx: Seq<int>| #[trigger] picks(idx, squashed(v), v);
    assert(squashed(v)[k] == v[idx[k]]);
    assert(squashed(v)[k] == x);
}

/// Squashing twice is squashing once.
pub proof fn lemma_squash_idempotent(v: Seq<Range>)
    ensures
        squashed(squashed(v)) == squashed(v),
{
    lemma_squashed_no_inner(v);
    lemma_squashed_keeps_independent(squashed(v));
}

} // verus!
