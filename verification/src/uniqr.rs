//! Collapsing adjacent duplicate lines: each run of lines that say the same
//! becomes its first line and the number of lines in it.

use crate::decimal::{decimal, push_right_aligned, right_aligned};
use crate::text::{line_views, same_text, same_trimmed};
use vstd::prelude::*;

verus! {

/// Where the lines come from, where the result goes, and whether each line
/// of it is preceded by its count.
#[derive(Debug, Clone)]
pub struct Config {
    pub in_file: String,
    pub out_file: Option<String>,
    pub count: bool,
}

/// A run as a mathematical value: the line that stands for it, terminator
/// included, and the number of lines in it.
pub struct RunView {
    pub count: nat,
    pub text: Seq<char>,
}

/// A run of adjacent lines that say the same: the first of them, and how
/// many they are.
#[derive(Debug, Clone)]
pub struct Run {
    pub count: u64,
    pub text: String,
}

impl View for Run {
    type V = RunView;

    open spec fn view(&self) -> RunView {
        RunView { count: self.count as nat, text: self.text@ }
    }
}

/// The run that a line begins.
pub open spec fn first_of_run(line: Seq<char>) -> RunView {
    RunView { count: 1, text: line }
}

/// The run `r` with one more line in it.
pub open spec fn one_more(r: RunView) -> RunView {
    RunView { count: r.count + 1, text: r.text }
}

/// The runs of `lines`, in order. A line that says the same as the run
/// before it joins that run; any other line begins a run of its own.
pub open spec fn runs_of(lines: Seq<Seq<char>>) -> Seq<RunView>
    decreases lines.len(),
{
    if lines.len() == 0 {
        Seq::empty()
    } else {
        let before = runs_of(lines.drop_last());
        if before.len() > 0 && same_text(before.last().text, lines.last()) {
            before.drop_last().push(one_more(before.last()))
        } else {
            before.push(first_of_run(lines.last()))
        }
    }
}

/// The sum of the counts of `runs`.
pub open spec fn total_count(runs: Seq<RunView>) -> nat
    decreases runs.len(),
{
    if runs.len() == 0 {
        0
    } else {
        total_count(runs.drop_last()) + runs.last().count
    }
}

/// The lines that stand for `runs`.
pub open spec fn texts(runs: Seq<RunView>) -> Seq<Seq<char>> {
    Seq::new(runs.len(), |k: int| runs[k].text)
}

/// Whether no two neighbours among `runs` say the same.
pub open spec fn neighbours_differ(runs: Seq<RunView>) -> bool {
    forall|k: int| 0 < k < runs.len() ==> !same_text(#[trigger] runs[k - 1].text, runs[k].text)
}

/// Whether no line of `lines` says the same as the line before it.
pub open spec fn no_adjacent_duplicates(lines: Seq<Seq<char>>) -> bool {
    forall|k: int| 0 < k < lines.len() ==> !same_text(#[trigger] lines[k - 1], lines[k])
}

/// The counts of the runs add up to the number of lines, every run holds at
/// least one line, and no two neighbouring runs say the same.
pub proof fn lemma_runs_cover_lines(lines: Seq<Seq<char>>)
    ensures
        total_count(runs_of(lines)) == lines.len(),
        runs_of(lines).len() <= lines.len(),
        lines.len() > 0 ==> runs_of(lines).len() > 0,
        forall|k: int| 0 <= k < runs_of(lines).len() ==> 1 <= (#[trigger] runs_of(lines)[k]).count
            <= lines.len(),
        neighbours_differ(runs_of(lines)),
    decreases lines.len(),
{
    if lines.len() > 0 {
        let before = runs_of(lines.drop_last());
        let after = runs_of(lines);
        lemma_runs_cover_lines(lines.drop_last());
        if before.len() > 0 && same_text(before.last().text, lines.last()) {
            assert(after.drop_last() =~= before.drop_last());
            assert(after.last() == one_more(before.last()));
            assert forall|k: int| 0 < k < after.len() implies !same_text(
                #[trigger] after[k - 1].text,
                after[k].text,
            ) by {
                assert(after[k - 1].text == before[k - 1].text);
                assert(after[k].text == before[k].text);
            }
            assert forall|k: int| 0 <= k < after.len() implies 1 <= (#[trigger] after[k]).count
                <= lines.len() by {
                if k < after.len() - 1 {
                    assert(after[k] == before[k]);
                }
            }
        } else {
            assert(after.drop_last() =~= before);
            assert forall|k: int| 0 < k < after.len() implies !same_text(
                #[trigger] after[k - 1].text,
                after[k].text,
            ) by {
                if k < after.len() - 1 {
                    assert(after[k - 1].text == before[k - 1].text);
                    assert(after[k].text == before[k].text);
                }
            }
            assert forall|k: int| 0 <= k < after.len() implies 1 <= (#[trigger] after[k]).count
                <= lines.len() by {
                if k < after.len() - 1 {
                    assert(after[k] == before[k]);
                }
            }
        }
    }
}

/// Where no line says the same as the line before it, every line is a run
/// of its own: collapsing gives the lines back, each with the count one.
pub proof fn lemma_collapse_without_duplicates(lines: Seq<Seq<char>>)
    requires
        no_adjacent_duplicates(lines),
    ensures
        texts(runs_of(lines)) == lines,
        forall|k: int| 0 <= k < lines.len() ==> (#[trigger] runs_of(lines)[k]).count == 1,
    decreases lines.len(),
{
    if lines.len() > 0 {
        let head = lines.drop_last();
        let before = runs_of(head);
        assert forall|k: int| 0 < k < head.len() implies !same_text(
            #[trigger] head[k - 1],
            head[k],
        ) by {
            assert(head[k - 1] == lines[k - 1] && head[k] == lines[k]);
        }
        lemma_collapse_without_duplicates(head);
        assert(texts(before).len() == head.len());
        if before.len() > 0 {
            assert(texts(before)[before.len() - 1] == head[before.len() - 1]);
            assert(before.last().text == lines[lines.len() - 2]);
            assert(!same_text(lines[lines.len() - 1 - 1], lines[lines.len() - 1]));
        }
        let after = runs_of(lines);
        assert(after == before.push(first_of_run(lines.last())));
        assert forall|k: int| 0 <= k < lines.len() implies texts(after)[k] == lines[k] by {
            if k < lines.len() - 1 {
                assert(after[k] == before[k]);
                assert(texts(before)[k] == head[k]);
            }
        }
        assert(texts(after) =~= lines);
        assert forall|k: int| 0 <= k < lines.len() implies (#[trigger] after[k]).count == 1 by {
            if k < lines.len() - 1 {
                assert(after[k] == before[k]);
            }
        }
    }
}

/// Collapsing what a first collapse left changes nothing: the lines that
/// come out of one pass come out of a second pass as they went in.
pub proof fn lemma_collapse_idempotent(lines: Seq<Seq<char>>)
    ensures
        no_adjacent_duplicates(texts(runs_of(lines))),
        texts(runs_of(texts(runs_of(lines)))) == texts(runs_of(lines)),
{
    let runs = runs_of(lines);
    let out = texts(runs);
    lemma_runs_cover_lines(lines);
    assert forall|k: int| 0 < k < out.len() implies !same_text(#[trigger] out[k - 1], out[k]) by {
        assert(!same_text(runs[k - 1].text, runs[k].text));
    }
    lemma_collapse_without_duplicates(out);
}

/// The run that is still open after `runs`: the last, if there is one.
pub open spec fn open_run(runs: Seq<RunView>) -> Option<RunView> {
    if runs.len() > 0 {
        Some(runs.last())
    } else {
        None
    }
}

/// The runs before the open one: those that no later line can join.
pub open spec fn closed_runs(runs: Seq<RunView>) -> Seq<RunView> {
    if runs.len() > 0 {
        runs.drop_last()
    } else {
        Seq::empty()
    }
}

/// What one line does to the open run: the run that is open after it, and
/// the run that it closed, if it closed one. The first line opens a run. A
/// line that says the same as the open run joins it. Any other line closes
/// the open run and opens its own.
pub open spec fn step(open: Option<RunView>, line: Seq<char>) -> (RunView, Option<RunView>) {
    match open {
        None => (first_of_run(line), None),
        Some(r) => if same_text(r.text, line) {
            (one_more(r), None)
        } else {
            (first_of_run(line), Some(r))
        },
    }
}

/// The run that was closed, as a sequence of one run or none.
pub open spec fn closed_by(emitted: Option<RunView>) -> Seq<RunView> {
    match emitted {
        Some(r) => seq![r],
        None => Seq::empty(),
    }
}

/// Taking the lines one by one gives the same runs as taking them all at
/// once: after one more line, the open run and the closed runs are what
/// `step` says.
pub proof fn lemma_step_runs(lines: Seq<Seq<char>>, line: Seq<char>)
    ensures
        open_run(runs_of(lines.push(line))) == Some(step(open_run(runs_of(lines)), line).0),
        closed_runs(runs_of(lines.push(line))) == closed_runs(runs_of(lines)) + closed_by(
            step(open_run(runs_of(lines)), line).1,
        ),
{
    let all = lines.push(line);
    assert(all.drop_last() =~= lines);
    let before = runs_of(lines);
    let after = runs_of(all);
    if before.len() > 0 && same_text(before.last().text, line) {
        assert(after.drop_last() =~= before.drop_last());
        assert(closed_runs(after) =~= closed_runs(before) + Seq::<RunView>::empty());
    } else if before.len() > 0 {
        assert(after.drop_last() =~= before);
        assert(before =~= before.drop_last() + seq![before.last()]);
    } else {
        assert(after.drop_last() =~= before);
        assert(closed_runs(after) =~= closed_runs(before) + Seq::<RunView>::empty());
    }
}

/// The runs of a list of runs, as mathematical values.
pub open spec fn run_views(runs: Seq<Run>) -> Seq<RunView> {
    Seq::new(runs.len(), |k: int| runs[k]@)
}

/// The run, if any, as a mathematical value.
pub open spec fn run_view(run: Option<Run>) -> Option<RunView> {
    match run {
        Some(r) => Some(r@),
        None => None,
    }
}

/// The collapser between two lines: it holds the run that is still open,
/// and nothing before the first line.
pub struct Collapser {
    pub pending: Option<Run>,
}

impl View for Collapser {
    type V = Option<RunView>;

    open spec fn view(&self) -> Option<RunView> {
        run_view(self.pending)
    }
}

impl Collapser {
    /// The collapser before the first line.
    pub fn new() -> (c: Collapser)
        ensures
            c@ is None,
    {
        Collapser { pending: None }
    }

    /// Takes the next line, and hands out the run that it closed, if it
    /// closed one.
    pub fn push(&mut self, line: &str) -> (emitted: Option<Run>)
        requires
            old(self)@ matches Some(r) ==> r.count < u64::MAX,
        ensures
            final(self)@ == Some(step(old(self)@, line@).0),
            run_view(emitted) == step(old(self)@, line@).1,
    {
        match self.pending.take() {
            None => {
                self.pending = Some(Run { count: 1, text: line.to_owned() });
                None
            },
            Some(run) => {
                if same_trimmed(run.text.as_str(), line) {
                    self.pending = Some(Run { count: run.count + 1, text: run.text });
                    None
                } else {
                    self.pending = Some(Run { count: 1, text: line.to_owned() });
                    Some(run)
                }
            },
        }
    }

    /// Ends the input, and hands out the run that was still open, if there
    /// was one.
    pub fn finish(self) -> (emitted: Option<Run>)
        ensures
            run_view(emitted) == self@,
    {
        self.pending
    }
}

/// Collapses `lines` into their runs.
pub fn collapse(lines: &Vec<String>) -> (runs: Vec<Run>)
    ensures
        run_views(runs@) == runs_of(line_views(lines@)),
        total_count(run_views(runs@)) == lines.len(),
        neighbours_differ(run_views(runs@)),
{
    let ghost all = line_views(lines@);
    let mut state = Collapser::new();
    let mut runs: Vec<Run> = Vec::new();
    let mut i: usize = 0;
    proof {
        assert(all.take(0) =~= Seq::<Seq<char>>::empty());
        assert(run_views(runs@) =~= Seq::<RunView>::empty());
    }
    while i < lines.len()
        invariant
            i <= lines.len(),
            all == line_views(lines@),
            state@ == open_run(runs_of(all.take(i as int))),
            run_views(runs@) == closed_runs(runs_of(all.take(i as int))),
        decreases lines.len() - i,
    {
        proof {
            lemma_runs_cover_lines(all.take(i as int));
            assert(all.take(i + 1) =~= all.take(i as int).push(lines@[i as int]@));
            lemma_step_runs(all.take(i as int), lines@[i as int]@);
        }
        let ghost before = runs@;
        match state.push(lines[i].as_str()) {
            Some(run) => {
                runs.push(run);
                assert(run_views(runs@) =~= run_views(before) + seq![run@]);
            },
            None => {
                assert(run_views(runs@) =~= run_views(before) + Seq::<RunView>::empty());
            },
        }
        i = i + 1;
    }
    proof {
        assert(all.take(lines.len() as int) =~= all);
        lemma_runs_cover_lines(all);
    }
    let ghost before = runs@;
    match state.finish() {
        Some(run) => {
            runs.push(run);
            assert(run_views(runs@) =~= run_views(before).push(run@));
            assert(runs_of(all) =~= runs_of(all).drop_last().push(runs_of(all).last()));
        },
        None => {
            assert(run_views(runs@) =~= runs_of(all));
        },
    }
    runs
}

/// The width of the field in which a run's count is shown.
pub const COUNT_WIDTH: usize = 4;

/// What is written for a run: its line as it came, preceded, where counts
/// are shown, by the count in its field and a space.
pub open spec fn run_line(r: RunView, show_count: bool) -> Seq<char> {
    if show_count {
        right_aligned(decimal(r.count), COUNT_WIDTH as nat) + seq![' '] + r.text
    } else {
        r.text
    }
}

/// What is written for `lines`: one line for each of their runs.
pub open spec fn output_of(lines: Seq<Seq<char>>, show_count: bool) -> Seq<Seq<char>> {
    Seq::new(runs_of(lines).len(), |k: int| run_line(runs_of(lines)[k], show_count))
}

/// Writes the line for `run`.
pub fn format_run(run: &Run, show_count: bool) -> (out: String)
    ensures
        out@ == run_line(run@, show_count),
{
    let mut out = String::new();
    if show_count {
        push_right_aligned(&mut out, run.count, COUNT_WIDTH);
        proof {
            reveal_strlit(" ");
        }
        out.append(" ");
    }
    out.append(run.text.as_str());
    assert(out@ =~= run_line(run@, show_count));
    out
}

/// Collapses `lines` and writes the line for each run.
pub fn uniq(lines: &Vec<String>, show_count: bool) -> (out: Vec<String>)
    ensures
        line_views(out@) == output_of(line_views(lines@), show_count),
{
    let runs = collapse(lines);
    let mut out: Vec<String> = Vec::new();
    let mut i: usize = 0;
    while i < runs.len()
        invariant
            i <= runs.len(),
            out@.len() == i,
            forall|k: int| 0 <= k < i ==> (#[trigger] out@[k])@ == run_line(runs@[k]@, show_count),
        decreases runs.len() - i,
    {
        out.push(format_run(&runs[i], show_count));
        i = i + 1;
    }
    assert(line_views(out@) =~= output_of(line_views(lines@), show_count)) by {
        assert forall|k: int| 0 <= k < runs.len() implies run_views(runs@)[k] == runs@[k]@ by {}
    }
    out
}

/// Without counts, what is written is the lines that stand for the runs. So
/// a second pass over it writes it again unchanged, and a first pass over
/// lines of which none says the same as the line before writes those lines.
pub proof fn lemma_output_without_counts(lines: Seq<Seq<char>>)
    ensures
        output_of(lines, false) == texts(runs_of(lines)),
        output_of(output_of(lines, false), false) == output_of(lines, false),
        no_adjacent_duplicates(lines) ==> output_of(lines, false) == lines,
{
    assert(output_of(lines, false) =~= texts(runs_of(lines)));
    let out = output_of(lines, false);
    assert(output_of(out, false) =~= texts(runs_of(out)));
    lemma_collapse_idempotent(lines);
    if no_adjacent_duplicates(lines) {
        lemma_collapse_without_duplicates(lines);
    }
}

} // verus!
