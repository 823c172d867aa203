//! How the commands compare with each other.

use crate::benchmark::result::BenchmarkResult;
use crate::benchmark::scheduler::Scheduler;
use crate::options::{OutputStyleOption, SortOrder};
use vstd::prelude::*;

verus! {

/// How the mean time of a command compares with that of the reference.
#[derive(Debug, Clone, Copy, PartialEq, Eq, Structural)]
pub enum RelativeOrdering {
    /// The mean time of the command is the shorter one.
    Less,
    Equal,
    /// The mean time of the command is the longer one.
    Greater,
}

/// What is known of a result in comparison with the reference.
#[derive(Debug, Clone, Copy, PartialEq, Eq, Structural)]
pub struct Annotation {
    /// The number of the result, starting at zero
    pub result: usize,
    /// Whether the result is the reference itself
    pub is_reference: bool,
    /// How the result compares with the reference
    pub relative_ordering: RelativeOrdering,
    /// Whether the relative speed has a standard deviation
    pub has_stddev: bool,
}

/// What is said of the reference in comparison with another command.
#[derive(Debug, Clone, Copy, PartialEq, Eq, Structural)]
pub enum Comparator {
    TimesSlowerThan,
    TimesFasterThan,
    AsFastAs,
}

/// A line of the summary.
#[derive(Debug, Clone, Copy, PartialEq, Eq, Structural)]
pub struct SummaryLine {
    /// The number of the annotation
    pub annotation: usize,
    pub comparator: Comparator,
}

/// A row of the table.
#[derive(Debug, Clone, Copy, PartialEq, Eq, Structural)]
pub struct TableRow {
    /// The number of the annotation
    pub annotation: usize,
    /// Whether the standard deviation is shown
    pub shows_stddev: bool,
}

/// What is printed about the relative speeds.
pub enum ComparisonReport {
    /// The reference ran so many times faster than the others.
    Summary { reference: usize, lines: Vec<SummaryLine> },
    /// The relative speed of each command.
    Table { rows: Vec<TableRow> },
    /// Some benchmark times are zero, so that there are no relative speeds.
    Unavailable,
}

/// The number of the result with the shortest mean time, the first one among equals. A mean time
/// that is a NaN is shorter than no other.
pub open spec fn fastest(results: Seq<BenchmarkResult>) -> int
    decreases results.len(),
{
    if results.len() <= 1 {
        0
    } else {
        let best = fastest(results.drop_last());
        if results.last().mean.lt(results[best].mean) {
            results.len() - 1
        } else {
            best
        }
    }
}

/// Where all mean times are numbers, none is shorter than that of the fastest command, and those of
/// the commands before it are longer.
pub proof fn fastest_is_first_shortest(results: Seq<BenchmarkResult>, i: int)
    requires
        0 <= i < results.len(),
        forall|k: int| 0 <= k < results.len() ==> !(#[trigger] results[k]).mean.nan(),
    ensures
        0 <= fastest(results) < results.len(),
        !results[i].mean.lt(results[fastest(results)].mean),
        i < fastest(results) ==> results[fastest(results)].mean.lt(results[i].mean),
    decreases results.len(),
{
    if results.len() > 1 {
        let shorter = results.drop_last();
        let best = fastest(shorter);
        assert forall|k: int| 0 <= k < shorter.len() implies !(
        #[trigger] shorter[k]).mean.nan() by {
            assert(shorter[k] == results[k]);
        }
        if i < shorter.len() {
            fastest_is_first_shortest(shorter, i);
        } else {
            fastest_is_first_shortest(shorter, 0);
        }
        assert(shorter[best] == results[best]);
    }
}

/// The number of the result with the shortest mean time
pub fn fastest_of(results: &Vec<BenchmarkResult>) -> (number: usize)
    requires
        results@.len() > 0,
    ensures
        number == fastest(results@),
        number < results@.len(),
{
    let mut best: usize = 0;
    let mut i: usize = 1;
    while i < results.len()
        invariant
            1 <= i <= results@.len(),
            best < i,
            best == fastest(results@.take(i as int)),
        decreases results@.len() - i,
    {
        assert(results@.take(i + 1).drop_last() =~= results@.take(i as int));
        if results[i].mean.less_than(&results[best].mean) {
            best = i;
        }
        i = i + 1;
    }
    assert(results@.take(i as int) =~= results@);
    best
}

/// What is said of the reference where a command compares with it in the given way.
pub open spec fn comparator_for(ordering: RelativeOrdering) -> Comparator {
    match ordering {
        RelativeOrdering::Less => Comparator::TimesSlowerThan,
        RelativeOrdering::Greater => Comparator::TimesFasterThan,
        RelativeOrdering::Equal => Comparator::AsFastAs,
    }
}

/// The lines about the first `n` results that are not the reference.
pub open spec fn summary_lines(annotations: Seq<Annotation>, n: nat) -> Seq<SummaryLine>
    decreases n,
{
    if n == 0 {
        seq![]
    } else {
        let before = summary_lines(annotations, (n - 1) as nat);
        let last = annotations[n - 1];
        if last.is_reference {
            before
        } else {
            before.push(
                SummaryLine {
                    annotation: (n - 1) as usize,
                    comparator: comparator_for(last.relative_ordering),
                },
            )
        }
    }
}

/// The rows about all results. The reference has no standard deviation.
pub open spec fn table_rows(annotations: Seq<Annotation>) -> Seq<TableRow> {
    Seq::new(
        annotations.len(),
        |i: int|
            TableRow {
                annotation: i as usize,
                shows_stddev: !annotations[i].is_reference && annotations[i].has_stddev,
            },
    )
}

/// Whether the first annotation of the reference is the given one.
pub open spec fn is_first_reference(annotations: Seq<Annotation>, number: int) -> bool {
    &&& 0 <= number < annotations.len()
    &&& annotations[number].is_reference
    &&& forall|k: int| 0 <= k < number ==> !(#[trigger] annotations[k]).is_reference
}

/// Whether some annotation is that of the reference.
pub open spec fn has_reference(annotations: Seq<Annotation>) -> bool {
    exists|k: int| 0 <= k < annotations.len() && (#[trigger] annotations[k]).is_reference
}

fn comparator_of(ordering: RelativeOrdering) -> (comparator: Comparator)
    ensures
        comparator == comparator_for(ordering),
{
    match ordering {
        RelativeOrdering::Less => Comparator::TimesSlowerThan,
        RelativeOrdering::Greater => Comparator::TimesFasterThan,
        RelativeOrdering::Equal => Comparator::AsFastAs,
    }
}

fn first_reference(annotations: &Vec<Annotation>) -> (number: usize)
    requires
        has_reference(annotations@),
    ensures
        is_first_reference(annotations@, number as int),
{
    let n: usize = annotations.len();
    let mut i: usize = 0;
    while !annotations[i].is_reference
        invariant
            has_reference(annotations@),
            i < n,
            n == annotations@.len(),
            forall|k: int| 0 <= k < i ==> !(#[trigger] annotations@[k]).is_reference,
        decreases n - i,
    {
        proof {
            let k = choose|k: int|
                0 <= k < annotations@.len() && (#[trigger] annotations@[k]).is_reference;
            assert(i < k);
        }
        i = i + 1;
    }
    i
}

fn build_summary_lines(annotations: &Vec<Annotation>) -> (lines: Vec<SummaryLine>)
    ensures
        lines@ == summary_lines(annotations@, annotations@.len()),
{
    let mut lines: Vec<SummaryLine> = Vec::new();
    let mut i: usize = 0;
    while i < annotations.len()
        invariant
            i <= annotations@.len(),
            lines@ == summary_lines(annotations@, i as nat),
        decreases annotations@.len() - i,
    {
        if !annotations[i].is_reference {
            let comparator = comparator_of(annotations[i].relative_ordering);
            lines.push(SummaryLine { annotation: i, comparator });
        }
        i = i + 1;
    }
    lines
}

fn build_table_rows(annotations: &Vec<Annotation>) -> (rows: Vec<TableRow>)
    ensures
        rows@ == table_rows(annotations@),
{
    let mut rows: Vec<TableRow> = Vec::with_capacity(annotations.len());
    let mut i: usize = 0;
    while i < annotations.len()
        invariant
            i <= annotations@.len(),
            rows@ == table_rows(annotations@).take(i as int),
        decreases annotations@.len() - i,
    {
        let shows_stddev = !annotations[i].is_reference && annotations[i].has_stddev;
        rows.push(TableRow { annotation: i, shows_stddev });
        i = i + 1;
        assert(rows@ =~= table_rows(annotations@).take(i as int));
    }
    assert(rows@ =~= table_rows(annotations@));
    rows
}

impl Scheduler {
    /// The number of the result that the others are compared with, if there is any.
    pub open spec fn reference_number(self) -> Option<usize> {
        if !self.options.output_style.shows_output() || self.results@.len() < 2 {
            None
        } else if self.options.reference_command is Some {
            Some(0usize)
        } else {
            Some(fastest(self.results@) as usize)
        }
    }

    /// The number of the result that the others are compared with, where there is anything to
    /// compare and to print: that of the reference command, or else the fastest one.
    pub fn comparison_reference(&self) -> (reference: Option<usize>)
        ensures
            reference == self.reference_number(),
            reference == if !self.options.output_style.shows_output() || self.results@.len() < 2 {
                None
            } else if self.options.reference_command is Some {
                Some(0usize)
            } else {
                Some(fastest(self.results@) as usize)
            },
            reference matches Some(number) ==> number < self.results@.len(),
    {
        match self.options.output_style {
            OutputStyleOption::Disabled => {
                return None;
            },
            _ => {},
        }
        if self.results.len() < 2 {
            return None;
        }
        if self.options.reference_command.is_some() {
            Some(0)
        } else {
            Some(fastest_of(&self.results))
        }
    }

    /// What is printed about the relative speeds, given how the results compare with the reference,
    /// if that could be computed.
    pub fn relative_speed_comparison(&self, annotated: &Option<Vec<Annotation>>) -> (report:
        ComparisonReport)
        requires
            self.options.sort_order_speed_comparison is MeanTime ==> (annotated matches Some(
                annotations,
            ) ==> has_reference(annotations@)),
        ensures
            match *annotated {
                None => report is Unavailable,
                Some(annotations) => match self.options.sort_order_speed_comparison {
                    SortOrder::MeanTime => report matches ComparisonReport::Summary {
                        reference,
                        lines,
                    } && is_first_reference(annotations@, reference as int) && lines@
                        == summary_lines(annotations@, annotations@.len()),
                    SortOrder::Command => report matches ComparisonReport::Table { rows } && rows@
                        == table_rows(annotations@),
                },
            },
    {
        match annotated {
            None => ComparisonReport::Unavailable,
            Some(annotations) => match self.options.sort_order_speed_comparison {
                SortOrder::MeanTime => ComparisonReport::Summary {
                    reference: first_reference(annotations),
                    lines: build_summary_lines(annotations),
                },
                SortOrder::Command => ComparisonReport::Table {
                    rows: build_table_rows(annotations),
                },
            },
        }
    }
}

/// Where the first mean time is a number, so is that of the fastest command, no mean time is shorter,
/// and those of the commands before it are longer, but for mean times that are NaNs. A first mean
/// time that is a NaN stays, since nothing is shorter.
pub proof fn fastest_passes_over_missing_means(results: Seq<BenchmarkResult>, i: int)
    requires
        0 <= i < results.len(),
    ensures
        0 <= fastest(results) < results.len(),
        results[0].mean.nan() ==> fastest(results) == 0,
        !results[0].mean.nan() ==> {
            &&& !results[fastest(results)].mean.nan()
            &&& !results[i].mean.lt(results[fastest(results)].mean)
            &&& i < fastest(results) && !results[i].mean.nan() ==> results[fastest(
                results,
            )].mean.lt(results[i].mean)
        },
    decreases results.len(),
{
    if results.len() > 1 {
        let shorter = results.drop_last();
        let best = fastest(shorter);
        assert(shorter[0] == results[0]);
        if i < shorter.len() {
            fastest_passes_over_missing_means(shorter, i);
            assert(shorter[i] == results[i]);
        } else {
            fastest_passes_over_missing_means(shorter, 0);
        }
        assert(shorter[best] == results[best]);
    }
}

/// The reference is as many times slower than a command as that command is faster, the other way
/// round for a slower command, and as fast as one that takes the same time.
pub proof fn comparators_mirror_the_ordering(ordering: RelativeOrdering)
    ensures
        comparator_for(ordering) == Comparator::TimesSlowerThan <==> ordering
            == RelativeOrdering::Less,
        comparator_for(ordering) == Comparator::TimesFasterThan <==> ordering
            == RelativeOrdering::Greater,
        comparator_for(ordering) == Comparator::AsFastAs <==> ordering == RelativeOrdering::Equal,
{
}

/// A line of the summary is about a result that is not the reference, and tells how it compares. The
/// lines are in the order of the results.
pub proof fn lines_tell_how_others_compare(annotations: Seq<Annotation>, n: nat, j: int, next: int)
    requires
        n <= annotations.len() <= usize::MAX,
        0 <= j <= next < summary_lines(annotations, n).len(),
    ensures
        ({
            let line = summary_lines(annotations, n)[j];
            let about = annotations[line.annotation as int];
            &&& line.annotation < n
            &&& !about.is_reference
            &&& line.comparator == Comparator::TimesSlowerThan <==> about.relative_ordering
                == RelativeOrdering::Less
            &&& line.comparator == Comparator::TimesFasterThan <==> about.relative_ordering
                == RelativeOrdering::Greater
            &&& line.comparator == Comparator::AsFastAs <==> about.relative_ordering
                == RelativeOrdering::Equal
            &&& j < next ==> line.annotation < summary_lines(annotations, n)[next].annotation
        }),
    decreases n,
{
    let before = summary_lines(annotations, (n - 1) as nat);
    if next < before.len() {
        lines_tell_how_others_compare(annotations, (n - 1) as nat, j, next);
    } else if j < before.len() {
        lines_tell_how_others_compare(annotations, (n - 1) as nat, j, j);
    }
}

/// Every result but the reference has a line in the summary.
pub proof fn each_other_result_has_a_line(annotations: Seq<Annotation>, n: nat, i: int) -> (j: int)
    requires
        0 <= i < n <= annotations.len() <= usize::MAX,
        !annotations[i].is_reference,
    ensures
        0 <= j < summary_lines(annotations, n).len(),
        summary_lines(annotations, n)[j].annotation == i,
    decreases n,
{
    let before = summary_lines(annotations, (n - 1) as nat);
    if i < n - 1 {
        each_other_result_has_a_line(annotations, (n - 1) as nat, i)
    } else {
        before.len() as int
    }
}

/// The table has a row for each result, in order. It shows a standard deviation where there is one,
/// but never for the reference.
pub proof fn each_result_has_a_row(annotations: Seq<Annotation>, i: int)
    requires
        0 <= i < annotations.len() <= usize::MAX,
    ensures
        table_rows(annotations).len() == annotations.len(),
        table_rows(annotations)[i].annotation == i,
        table_rows(annotations)[i].shows_stddev <==> annotations[i].has_stddev
            && !annotations[i].is_reference,
{
}

/// There is something to compare just where output is shown and there are two or more results. A
/// reference command is the one to compare with, and it is the first. Without one it is the command
/// with the shortest mean time.
pub proof fn the_reference_is_given_or_fastest(scheduler: Scheduler, i: int)
    requires
        0 <= i < scheduler.results@.len(),
        scheduler.results@.len() <= usize::MAX,
    ensures
        scheduler.reference_number() is Some <==> scheduler.results@.len() >= 2
            && !(scheduler.options.output_style is Disabled),
        scheduler.reference_number() matches Some(number) ==> {
            &&& number < scheduler.results@.len()
            &&& scheduler.options.reference_command is Some ==> number == 0
            &&& scheduler.options.reference_command is None && !scheduler.results@[0].mean.nan()
                ==> {
                &&& !scheduler.results@[i].mean.lt(scheduler.results@[number as int].mean)
                &&& i < number && !scheduler.results@[i].mean.nan() ==> scheduler.results@[
                    number as int
                ].mean.lt(scheduler.results@[i].mean)
            }
        },
{
    fastest_passes_over_missing_means(scheduler.results@, i);
}

} // verus!
