use vstd::prelude::*;
use vstd::string::*;
use crate::data::DataHolder;
use crate::interpreter::{squash_vec_range, squashed, words_form_range, words_range};
use crate::text::{chars_of, line_spans, lines_of, slice_chars, split_on, split_spans};

pub use crate::interpreter::Range;

verus! {

broadcast use vstd::string::group_string_axioms;

/// The words of each line of a node listing, as `line.split(" ")` yields them.
pub open spec fn listing_words(s: Seq<char>) -> Seq<Seq<Seq<char>>> {
    lines_of(s).map_values(|line: Seq<char>| split_on(line, ' '))
}

/// A node listing is well formed when every one of its lines reads as a range.
pub open spec fn listing_is_well_formed(s: Seq<char>) -> bool {
    forall|k: int| 0 <= k < listing_words(s).len() ==> words_form_range(#[trigger] listing_words(s)[k])
}

/// The ranges of a node listing, one per line, in order.
pub open spec fn listed_ranges(s: Seq<char>) -> Seq<Range> {
    listing_words(s).map_values(|w: Seq<Seq<char>>| words_range(w))
}

/// Reads the listing of syntax nodes that the editor returns for a region: one range
/// per line, given as "start_row start_col end_row end_col". `None` when a line does
/// not read as a range.
pub fn parse_node_listing(listing: &str) -> (r: Option<Vec<Range>>)
    ensures
        r is Some <==> listing_is_well_formed(listing@),
        r matches Some(v) ==> v@ == listed_ranges(listing@),
{
    let s = chars_of(listing);
    let lines = line_spans(&s);
    let mut out: Vec<Range> = Vec::new();
    let mut k: usize = 0;
    while k < lines.len()
        invariant
            s@ == listing@,
            k <= lines.len() == lines_of(s@).len(),
            forall|j: int|
                0 <= j < lines.len() ==> {
                    &&& (#[trigger] lines@[j]).0 <= lines@[j].1 <= s.len()
                    &&& s@.subrange(lines@[j].0 as int, lines@[j].1 as int) == lines_of(s@)[j]
                },
            out.len() == k,
            forall|j: int| 0 <= j < k ==> words_form_range(#[trigger] listing_words(s@)[j]),
            forall|j: int| 0 <= j < k ==> #[trigger] out@[j] == words_range(listing_words(s@)[j]),
        decreases lines.len() - k,
    {
        let (a, b) = lines[k];
        let line = slice_chars(&s, a, b);
        let ghost words = split_on(line@, ' ');
        assert(words == listing_words(s@)[k as int]);
        let spans = split_spans(&line, ' ');
        if spans.len() < 4 {
            return None;
        }
        let mut fields: Vec<usize> = Vec::new();
        let mut f: usize = 0;
        while f < 4
            invariant
                f <= 4 <= spans.len() == words.len(),
                words == split_on(line@, ' '),
                0 <= k < listing_words(s@).len(),
                s@ == listing@,
                words == listing_words(s@)[k as int],
                forall|j: int|
                    0 <= j < spans.len() ==> {
                        &&& (#[trigger] spans@[j]).0 <= spans@[j].1 <= line.len()
                        &&& line@.subrange(spans@[j].0 as int, spans@[j].1 as int) == words[j]
                    },
                fields.len() == f,
                forall|j: int|
                    0 <= j < f ==> crate::text::is_usize_literal(#[trigger] words[j])
                        && fields@[j] == crate::text::usize_literal_value(words[j]),
            decreases 4 - f,
        {
            let (c, d) = spans[f];
            let word = slice_chars(&line, c, d);
            match crate::text::parse_usize(&word) {
                Some(v) => {
                    fields.push(v);
                },
                None => {
                    assert(!crate::text::is_usize_literal(words[f as int]));
                    assert(!words_form_range(listing_words(s@)[k as int]));
                    return None;
                },
            }
            f = f + 1;
        }
        out.push(Range { start_row: fields[0], start_col: fields[1], end_row: fields[2], end_col: fields[3] });
        k = k + 1;
    }
    assert(listed_ranges(s@) =~= out@);
    Some(out)
}

/// The region the editor selected, as the walk up the syntax tree starts from it: the
/// rows of `data.range`, counted from zero, columns zero.
pub open spec fn initial_range(data_range: [i64; 2]) -> Range {
    Range {
        start_row: ((data_range[0] as usize) - 1) as usize,
        start_col: 0,
        end_row: ((data_range[1] as usize) - 1) as usize,
        end_col: 0,
    }
}

/// The state of the walk up the syntax tree that collects the code a selection
/// depends on: the selection itself and the ranges found so far.
pub struct DependencyWalk {
    pub initial: Range,
    pub ranges: Vec<Range>,
}

/// What a round of the walk leads to.
pub enum WalkStep {
    /// The ranges did not change: the walk is over and these are the dependencies.
    Done(Vec<Range>),
    /// The ranges grew: ask the editor again about the new ones.
    Continue(DependencyWalk),
}

/// Whether two lists of ranges are the same.
pub fn same_ranges(a: &Vec<Range>, b: &Vec<Range>) -> (r: bool)
    ensures
        r == (a@ == b@),
{
    if a.len() != b.len() {
        return false;
    }
    let mut i: usize = 0;
    while i < a.len()
        invariant
            i <= a.len() == b.len(),
            forall|j: int| 0 <= j < i ==> a@[j] == b@[j],
        decreases a.len() - i,
    {
        if a[i] != b[i] {
            return false;
        }
        i = i + 1;
    }
    assert(a@ =~= b@);
    true
}

/// `v` once the first occurrence of `x` is taken out by moving the last range into
/// its place, as `Vec::swap_remove` at the position of `x` does.
pub open spec fn swap_removed(v: Seq<Range>, x: Range) -> Seq<Range> {
    let p = choose|p: int| 0 <= p < v.len() && v[p] == x && forall|j: int| 0 <= j < p ==> v[j] != x;
    if p == v.len() - 1 {
        v.drop_last()
    } else {
        v.drop_last().update(p, v.last())
    }
}

/// A range that occurs in `v` has a first occurrence.
pub proof fn lemma_first_occurrence(v: Seq<Range>, x: Range)
    requires
        v.contains(x),
    ensures
        exists|p: int| 0 <= p < v.len() && #[trigger] v[p] == x && forall|j: int| 0 <= j < p ==> v[j] != x,
    decreases v.len(),
{
    let w = v.drop_last();
    if w.contains(x) {
        lemma_first_occurrence(w, x);
        let p = choose|p: int| 0 <= p < w.len() && #[trigger] w[p] == x && forall|j: int| 0 <= j < p ==> w[j] != x;
        assert(v[p] == x);
        assert forall|j: int| 0 <= j < p implies v[j] != x by {
            assert(v[j] == w[j]);
        }
    } else {
        assert forall|j: int| 0 <= j < v.len() - 1 implies v[j] != x by {
            assert(v[j] == w[j]);
        }
        assert(v[v.len() - 1] == x);
    }
}

/// Taking the selection out of the dependencies removes exactly one copy of it and
/// keeps every other range.
pub proof fn lemma_swap_removed_takes_one(v: Seq<Range>, x: Range)
    requires
        v.contains(x),
    ensures
        swap_removed(v, x).len() == v.len() - 1,
        swap_removed(v, x).to_multiset() == v.to_multiset().remove(x),
{
    broadcast use vstd::seq_lib::group_to_multiset_ensures;

    lemma_first_occurrence(v, x);
    let p = choose|p: int| 0 <= p < v.len() && v[p] == x && forall|j: int| 0 <= j < p ==> v[j] != x;
    let n = v.len();
    if p == n - 1 {
        assert(v.drop_last() =~= v.remove(p));
    } else {
        let a = v.subrange(0, p);
        let b = v.subrange(p + 1, n - 1);
        let l = seq![v[n - 1]];
        assert(v.drop_last().update(p, v.last()) =~= a + l + b);
        assert(v.remove(p) =~= a + b + l);
        vstd::seq_lib::lemma_multiset_commutative(a + l, b);
        vstd::seq_lib::lemma_multiset_commutative(a, l);
        vstd::seq_lib::lemma_multiset_commutative(a + b, l);
        vstd::seq_lib::lemma_multiset_commutative(a, b);
        assert((a + l + b).to_multiset() =~= (a + b + l).to_multiset());
    }
}

impl DependencyWalk {
    /// Starts the walk from the selection of `data`.
    pub fn start(data: &DataHolder) -> (w: DependencyWalk)
        requires
            (data.range[0] as usize) != 0,
            (data.range[1] as usize) != 0,
        ensures
            w.initial == initial_range(data.range),
            w.ranges@ == seq![w.initial],
    {
        let initial = Range {
            start_row: data.range[0] as usize - 1,
            start_col: 0,
            end_row: data.range[1] as usize - 1,
            end_col: 0,
        };
        let mut ranges: Vec<Range> = Vec::new();
        ranges.push(initial);
        DependencyWalk { initial, ranges }
    }

    /// The rows (start, end) of each range, in order, to ask the editor the syntax nodes of.
    pub fn queries(&self) -> (q: Vec<(usize, usize)>)
        ensures
            q.len() == self.ranges.len(),
            forall|k: int|
                0 <= k < q.len() ==> #[trigger] q@[k] == (
                    self.ranges@[k].start_row,
                    self.ranges@[k].end_row,
                ),
    {
        let mut q: Vec<(usize, usize)> = Vec::new();
        let mut k: usize = 0;
        while k < self.ranges.len()
            invariant
                k <= self.ranges.len(),
                q.len() == k,
                forall|j: int|
                    0 <= j < k ==> #[trigger] q@[j] == (
                        self.ranges@[j].start_row,
                        self.ranges@[j].end_row,
                    ),
            decreases self.ranges.len() - k,
        {
            q.push((self.ranges[k].start_row, self.ranges[k].end_row));
            k = k + 1;
        }
        q
    }

    /// One round of the walk, given the node ranges the editor listed for all current
    /// ranges: the found ranges followed by the current ones are squashed; if that
    /// changes nothing the walk is done, else it goes on with the squashed ranges.
    pub fn step(self, found: Vec<Range>) -> (s: WalkStep)
        ensures
            s matches WalkStep::Done(v) ==> v@ == self.ranges@ && squashed(found@ + self.ranges@)
                == self.ranges@,
            s matches WalkStep::Continue(w) ==> w.initial == self.initial && w.ranges@ == squashed(
                found@ + self.ranges@,
            ) && squashed(found@ + self.ranges@) != self.ranges@,
    {
        let mut all = found;
        let mut k: usize = 0;
        let ghost start = all@;
        while k < self.ranges.len()
            invariant
                k <= self.ranges.len(),
                all@ == start + self.ranges@.take(k as int),
            decreases self.ranges.len() - k,
        {
            all.push(self.ranges[k]);
            k = k + 1;
            assert(all@ =~= start + self.ranges@.take(k as int));
        }
        assert(self.ranges@.take(self.ranges.len() as int) =~= self.ranges@);
        let future = squash_vec_range(all);
        if same_ranges(&future, &self.ranges) {
            WalkStep::Done(future)
        } else {
            WalkStep::Continue(DependencyWalk { initial: self.initial, ranges: future })
        }
    }

    /// The dependencies without the selection itself: its first occurrence is swapped
    /// out for the last range.
    pub fn finish(deps: Vec<Range>, initial: Range) -> (r: Vec<Range>)
        requires
            deps@.contains(initial),
        ensures
            r@ == swap_removed(deps@, initial),
    {
        let mut deps = deps;
        let mut p: usize = 0;
        while p < deps.len() && deps[p] != initial
            invariant
                p <= deps.len(),
                deps@.contains(initial),
                forall|j: int| 0 <= j < p ==> deps@[j] != initial,
            decreases deps.len() - p,
        {
            p = p + 1;
        }
        assert(p < deps.len());
        let ghost old_deps = deps@;
        let ghost q = choose|q: int| 0 <= q < old_deps.len() && old_deps[q] == initial && forall|j: int|
            0 <= j < q ==> old_deps[j] != initial;
        assert(q == p) by {
            if q < p {
                assert(old_deps[q] != initial);
            } else if q > p {
                assert(old_deps[p as int] != initial);
            }
        }
        let last = deps.pop().unwrap();
        if p < deps.len() {
            deps.set(p, last);
        }
        assert(deps@ =~= swap_removed(old_deps, initial));
        deps
    }
}

} // verus!
