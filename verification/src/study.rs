//! A study: many simulations without a window, and what they come to.
//!
//! Times are in units of seconds, percentages in units of one percent.
use crate::geometry::UNIT;
use crate::sorting::lemma_sort_push;
use vstd::arithmetic::div_mod::{lemma_fundamental_div_mod, lemma_fundamental_div_mod_converse};
use vstd::prelude::*;
use vstd::relations::{sorted_by, total_ordering};

verus! {

pub const DEFAULT_RUN_COUNT: u32 = 1000;

/// Conservative default for safety.
pub const DEFAULT_CONCURRENCY: usize = 8;

/// Throttle if the CPU load reaches this, 60 percent.
pub const DEFAULT_CPU_LIMIT: i64 = 0x3c_0000_0000;

/// Throttle if the memory load reaches this, 60 percent.
pub const DEFAULT_RAM_LIMIT: i64 = 0x3c_0000_0000;

pub const PORTS_PER_INSTANCE: u32 = 20;

pub const PORT_BASE: u32 = 10000;

/// The seeds of a study follow this one.
pub const SEED_BASE: u32 = 100_000;

/// How long to wait before retrying when overloaded, in milliseconds.
pub const THROTTLE_SLEEP_MS: u64 = 500;

/// The last run that still has ports.
pub const LAST_RUN: u32 = 214_747_864;

/// The seed and the lowest port of a run.
#[derive(Clone, Copy, Debug, PartialEq, Eq, Structural)]
pub struct RunPlan {
    pub seed: u32,
    pub base_port: u32,
}

/// What becomes of run `i`.
pub open spec fn plan_of(i: int) -> (int, int) {
    (SEED_BASE + i, PORT_BASE + i * PORTS_PER_INSTANCE)
}

/// Plans a run.
pub fn plan_run(i: u32) -> (plan: RunPlan)
    requires
        i <= LAST_RUN,
    ensures
        plan.seed == plan_of(i as int).0,
        plan.base_port == plan_of(i as int).1,
{
    RunPlan { seed: SEED_BASE + i, base_port: PORT_BASE + i * PORTS_PER_INSTANCE }
}

/// No two runs have the same seed, and no two use the same port as long as none
/// uses more ports than it has.
pub proof fn law_runs_are_apart(i: int, j: int, a: int, b: int)
    requires
        i != j,
        0 <= a < PORTS_PER_INSTANCE,
        0 <= b < PORTS_PER_INSTANCE,
    ensures
        plan_of(i).0 != plan_of(j).0,
        plan_of(i).1 + a != plan_of(j).1 + b,
{
}

/// Checks whether the machine has room for another run.
pub fn has_headroom(cpu: i64, ram: i64, cpu_limit: i64, ram_limit: i64) -> (res: bool)
    ensures
        res == (cpu < cpu_limit && ram < ram_limit),
{
    cpu < cpu_limit && ram < ram_limit
}

/// Checks whether the progress is to be shown: after every fiftieth run and after
/// the last.
pub fn shows_progress(count: usize, run_count: usize) -> (res: bool)
    ensures
        res == (count % 50 == 0 || count == run_count),
{
    count % 50 == 0 || count == run_count
}

/// What a line of a simulation's output reports.
#[derive(Clone, Copy, Debug, PartialEq, Eq, Structural)]
pub enum ReportKind {
    Time,
    Coverage,
    Progress,
}

impl ReportKind {
    /// How such a line starts.
    pub open spec fn prefix(self) -> Seq<char> {
        match self {
            ReportKind::Time => seq!['T', 'I', 'M', 'E', ':', ' '],
            ReportKind::Coverage => seq!['C', 'O', 'V', 'E', 'R', 'A', 'G', 'E', ':', ' '],
            ReportKind::Progress => seq!['P', 'R', 'O', 'G', 'R', 'E', 'S', 'S', ':', ' '],
        }
    }

    /// The sign behind the number.
    pub open spec fn unit_sign(self) -> char {
        match self {
            ReportKind::Time => 's',
            _ => '%',
        }
    }
}

/// White space by the Unicode property of that name.
pub open spec fn is_blank(c: char) -> bool {
    let v = c as int;
    ||| 0x9 <= v <= 0xd
    ||| v == 0x20
    ||| v == 0x85
    ||| v == 0xa0
    ||| v == 0x1680
    ||| 0x2000 <= v <= 0x200a
    ||| v == 0x2028
    ||| v == 0x2029
    ||| v == 0x202f
    ||| v == 0x205f
    ||| v == 0x3000
}

/// Checks for white space.
fn blank(c: char) -> (res: bool)
    ensures
        res == is_blank(c),
{
    let v: u32 = c as u32;
    (v >= 0x9 && v <= 0xd) || v == 0x20 || v == 0x85 || v == 0xa0 || v == 0x1680 || (v >= 0x2000
        && v <= 0x200a) || v == 0x2028 || v == 0x2029 || v == 0x202f || v == 0x205f || v == 0x3000
}

/// The text without any of the given signs at its end.
pub open spec fn without_tail(s: Seq<char>, c: char) -> Seq<char>
    decreases s.len(),
{
    if s.len() > 0 && s.last() == c {
        without_tail(s.drop_last(), c)
    } else {
        s
    }
}

/// The text without white space at its end.
pub open spec fn trimmed_end(s: Seq<char>) -> Seq<char>
    decreases s.len(),
{
    if s.len() > 0 && is_blank(s.last()) {
        trimmed_end(s.drop_last())
    } else {
        s
    }
}

/// The text without white space at its front.
pub open spec fn trimmed_start(s: Seq<char>) -> Seq<char>
    decreases s.len(),
{
    if s.len() > 0 && is_blank(s[0]) {
        trimmed_start(s.drop_first())
    } else {
        s
    }
}

/// The number that a line of the given kind reports, as text.
pub open spec fn number_text(line: Seq<char>, kind: ReportKind) -> Seq<char> {
    trimmed_start(
        trimmed_end(without_tail(line.skip(kind.prefix().len() as int), kind.unit_sign())),
    )
}

/// Checks how a line starts.
fn starts_with(line: &[char], prefix: &Vec<char>) -> (res: bool)
    ensures
        res == prefix@.is_prefix_of(line@),
{
    if line.len() < prefix.len() {
        return false;
    }
    let mut i: usize = 0;
    while i < prefix.len()
        invariant
            0 <= i <= prefix@.len() <= line@.len(),
            forall|k: int| 0 <= k < i ==> #[trigger] line@[k] == prefix@[k],
        decreases prefix@.len() - i,
    {
        if line[i] != prefix[i] {
            assert(line@.subrange(0, prefix@.len() as int)[i as int] != prefix@[i as int]);
            return false;
        }
        i = i + 1;
    }
    assert(line@.subrange(0, prefix@.len() as int) =~= prefix@);
    true
}

/// Cuts the number out of a line.
fn cut_number(line: &[char], from: usize, sign: char) -> (text: Vec<char>)
    requires
        from <= line@.len(),
    ensures
        text@ == trimmed_start(trimmed_end(without_tail(line@.skip(from as int), sign))),
{
    let ghost rest = line@.skip(from as int);
    let ghost bare = without_tail(rest, sign);
    let mut end: usize = line.len();
    assert(line@.subrange(from as int, end as int) =~= rest);
    while end > from && line[end - 1] == sign
        invariant
            from <= end <= line@.len(),
            bare == without_tail(line@.subrange(from as int, end as int), sign),
        decreases end,
    {
        let ghost s = line@.subrange(from as int, end as int);
        assert(s.drop_last() =~= line@.subrange(from as int, end - 1));
        end = end - 1;
    }
    assert(bare == line@.subrange(from as int, end as int));
    let ghost ended = trimmed_end(bare);
    while end > from && blank(line[end - 1])
        invariant
            from <= end <= line@.len(),
            ended == trimmed_end(line@.subrange(from as int, end as int)),
        decreases end,
    {
        let ghost s = line@.subrange(from as int, end as int);
        assert(s.drop_last() =~= line@.subrange(from as int, end - 1));
        end = end - 1;
    }
    assert(ended == line@.subrange(from as int, end as int));
    let ghost number = trimmed_start(ended);
    let mut start: usize = from;
    while start < end && blank(line[start])
        invariant
            from <= start <= end <= line@.len(),
            number == trimmed_start(line@.subrange(start as int, end as int)),
        decreases end - start,
    {
        let ghost s = line@.subrange(start as int, end as int);
        assert(s.drop_first() =~= line@.subrange(start + 1, end as int));
        start = start + 1;
    }
    assert(number == line@.subrange(start as int, end as int));
    let mut text: Vec<char> = Vec::new();
    let mut i: usize = start;
    while i < end
        invariant
            start <= i <= end <= line@.len(),
            text@ == line@.subrange(start as int, i as int),
        decreases end - i,
    {
        text.push(line[i]);
        i = i + 1;
        assert(line@.subrange(start as int, i as int) =~= line@.subrange(
            start as int,
            i - 1,
        ).push(line@[i - 1]));
    }
    text
}

/// Tells what a line of a simulation's output reports, with the number as text.
pub fn report_field(line: &[char]) -> (res: Option<(ReportKind, Vec<char>)>)
    ensures
        match res {
            Some((kind, text)) => kind.prefix().is_prefix_of(line@) && text@ == number_text(
                line@,
                kind,
            ),
            None => forall|kind: ReportKind| !(#[trigger] kind.prefix()).is_prefix_of(line@),
        },
{
    let time: Vec<char> = vec!['T', 'I', 'M', 'E', ':', ' '];
    let coverage: Vec<char> = vec!['C', 'O', 'V', 'E', 'R', 'A', 'G', 'E', ':', ' '];
    let progress: Vec<char> = vec!['P', 'R', 'O', 'G', 'R', 'E', 'S', 'S', ':', ' '];
    assert(time@ =~= ReportKind::Time.prefix());
    assert(coverage@ =~= ReportKind::Coverage.prefix());
    assert(progress@ =~= ReportKind::Progress.prefix());
    if starts_with(line, &time) {
        return Some((ReportKind::Time, cut_number(line, 6, 's')));
    }
    if starts_with(line, &coverage) {
        return Some((ReportKind::Coverage, cut_number(line, 10, '%')));
    }
    if starts_with(line, &progress) {
        return Some((ReportKind::Progress, cut_number(line, 10, '%')));
    }
    None
}

/// What a simulation came to by its own account: the time that it took, negative
/// where it failed, and the part of the map that it explored.
#[derive(Clone, Copy, Debug, PartialEq, Eq, Structural)]
pub struct RunReport {
    pub internal_time: i64,
    pub coverage: i64,
}

/// What the lines of an output come to: the last time and the last coverage, but no
/// less than the progress since then.
pub open spec fn report_of(fields: Seq<(ReportKind, i64)>) -> RunReport
    decreases fields.len(),
{
    if fields.len() == 0 {
        RunReport { internal_time: (-UNIT) as i64, coverage: 0 }
    } else {
        let before = report_of(fields.drop_last());
        let (kind, v) = fields.last();
        match kind {
            ReportKind::Time => RunReport { internal_time: v, ..before },
            ReportKind::Coverage => RunReport { coverage: v, ..before },
            ReportKind::Progress => if v > before.coverage {
                RunReport { coverage: v, ..before }
            } else {
                before
            },
        }
    }
}

/// Sums the lines of an output up.
pub fn read_report(fields: &Vec<(ReportKind, i64)>) -> (report: RunReport)
    ensures
        report == report_of(fields@),
{
    let mut report = RunReport { internal_time: -UNIT, coverage: 0 };
    let mut i: usize = 0;
    assert(fields@.take(0) =~= Seq::empty());
    while i < fields.len()
        invariant
            0 <= i <= fields@.len(),
            report == report_of(fields@.take(i as int)),
        decreases fields@.len() - i,
    {
        assert(fields@.take(i + 1).drop_last() =~= fields@.take(i as int));
        let (kind, v): (ReportKind, i64) = fields[i];
        match kind {
            ReportKind::Time => {
                report.internal_time = v;
            },
            ReportKind::Coverage => {
                report.coverage = v;
            },
            ReportKind::Progress => {
                if v > report.coverage {
                    report.coverage = v;
                }
            },
        }
        i = i + 1;
    }
    assert(fields@.take(fields@.len() as int) =~= fields@);
    report
}

/// What became of a run.
#[derive(Clone, Copy, Debug, PartialEq, Eq, Structural)]
pub struct RunResult {
    pub seed: u32,
    /// Negative where the run failed.
    pub internal_time: i64,
    pub wall_time: i64,
    pub coverage: i64,
    pub cpu_at_end: i64,
    pub ram_at_end: i64,
}

impl RunResult {
    /// The run reached its goal.
    pub open spec fn succeeded(self) -> bool {
        self.internal_time >= 0
    }

    /// Checks whether the run reached its goal.
    pub fn is_success(&self) -> (res: bool)
        ensures
            res == self.succeeded(),
    {
        self.internal_time >= 0
    }
}

/// Where a result belongs among results in the order of their seeds: behind those
/// with the same seed.
pub open spec fn seed_place(s: Seq<RunResult>, seed: u32) -> int
    decreases s.len(),
{
    if s.len() == 0 || s.last().seed <= seed {
        s.len() as int
    } else {
        seed_place(s.drop_last(), seed)
    }
}

/// The results in the order of their seeds; those with the same seed in the order
/// in which they came.
pub open spec fn by_seed(s: Seq<RunResult>) -> Seq<RunResult>
    decreases s.len(),
{
    if s.len() == 0 {
        s
    } else {
        let before = by_seed(s.drop_last());
        before.insert(seed_place(before, s.last().seed), s.last())
    }
}

/// No result has a lower seed than one before it.
pub open spec fn seeds_ascend(s: Seq<RunResult>) -> bool {
    forall|i: int, j: int|
        0 <= i < j < s.len() ==> (#[trigger] s[i]).seed <= (#[trigger] s[j]).seed
}

proof fn lemma_seed_place(s: Seq<RunResult>, seed: u32)
    requires
        seeds_ascend(s),
    ensures
        0 <= seed_place(s, seed) <= s.len(),
        forall|k: int| 0 <= k < seed_place(s, seed) ==> (#[trigger] s[k]).seed <= seed,
        forall|k: int| seed_place(s, seed) <= k < s.len() ==> seed < (#[trigger] s[k]).seed,
    decreases s.len(),
{
    if s.len() > 0 && s.last().seed > seed {
        let rest = s.drop_last();
        lemma_seed_place(rest, seed);
        assert forall|k: int| 0 <= k < seed_place(s, seed) implies (#[trigger] s[k]).seed
            <= seed by {
            assert(rest[k] == s[k]);
        }
        assert forall|k: int| seed_place(s, seed) <= k < s.len() implies seed < (
        #[trigger] s[k]).seed by {
            if k < rest.len() {
                assert(rest[k] == s[k]);
            }
        }
    } else if s.len() > 0 {
        assert forall|k: int| 0 <= k < s.len() implies (#[trigger] s[k]).seed <= seed by {
            assert(s[s.len() - 1] == s.last());
        }
    }
}

/// Ordering by seed loses nothing, adds nothing, and puts the seeds in order.
pub proof fn law_by_seed_sorts(s: Seq<RunResult>)
    ensures
        seeds_ascend(by_seed(s)),
        by_seed(s).to_multiset() == s.to_multiset(),
        by_seed(s).len() == s.len(),
    decreases s.len(),
{
    if s.len() > 0 {
        let rest = s.drop_last();
        let before = by_seed(rest);
        law_by_seed_sorts(rest);
        let pos = seed_place(before, s.last().seed);
        lemma_seed_place(before, s.last().seed);
        let after = before.insert(pos, s.last());
        assert forall|i: int, j: int| 0 <= i < j < after.len() implies (#[trigger] after[i]).seed
            <= (#[trigger] after[j]).seed by {
            if i < pos {
                assert(after[i] == before[i]);
            } else if i > pos {
                assert(after[i] == before[i - 1]);
            }
            if j < pos {
                assert(after[j] == before[j]);
            } else if j > pos {
                assert(after[j] == before[j - 1]);
            }
        }
        broadcast use vstd::seq_lib::group_to_multiset_ensures;

        assert(s =~= rest.push(s.last()));
        let front = before.take(pos);
        let back = before.skip(pos);
        assert(before =~= front + back);
        assert(after =~= front.push(s.last()) + back);
        vstd::seq_lib::lemma_multiset_commutative(front, back);
        vstd::seq_lib::lemma_multiset_commutative(front.push(s.last()), back);
        assert(after.to_multiset() =~= s.to_multiset());
    }
}

/// Puts results in the order of their seeds.
pub fn sort_results(results: &Vec<RunResult>) -> (sorted: Vec<RunResult>)
    ensures
        sorted@ == by_seed(results@),
{
    let mut sorted: Vec<RunResult> = Vec::new();
    let mut i: usize = 0;
    assert(results@.take(0) =~= Seq::empty());
    while i < results.len()
        invariant
            0 <= i <= results@.len(),
            sorted@ == by_seed(results@.take(i as int)),
        decreases results@.len() - i,
    {
        let r: RunResult = results[i];
        assert(results@.take(i + 1).drop_last() =~= results@.take(i as int));
        let mut pos: usize = sorted.len();
        assert(sorted@.take(pos as int) =~= sorted@);
        while pos > 0 && sorted[pos - 1].seed > r.seed
            invariant
                0 <= pos <= sorted@.len(),
                seed_place(sorted@, r.seed) == seed_place(sorted@.take(pos as int), r.seed),
            decreases pos,
        {
            assert(sorted@.take(pos as int).drop_last() =~= sorted@.take(pos - 1));
            pos = pos - 1;
        }
        assert(sorted@.take(pos as int).len() == pos);
        sorted.insert(pos, r);
        i = i + 1;
    }
    assert(results@.take(results@.len() as int) =~= results@);
    sorted
}

/// The order of times.
pub open spec fn not_later() -> spec_fn(i64, i64) -> bool {
    |a: i64, b: i64| a <= b
}

/// The times of the successful runs, in the order of the results.
pub open spec fn success_times(s: Seq<RunResult>) -> Seq<i64>
    decreases s.len(),
{
    if s.len() == 0 {
        Seq::empty()
    } else {
        let before = success_times(s.drop_last());
        if s.last().succeeded() {
            before.push(s.last().internal_time)
        } else {
            before
        }
    }
}

/// The sum of numbers.
pub open spec fn sum_of(s: Seq<i64>) -> int
    decreases s.len(),
{
    if s.len() == 0 {
        0
    } else {
        sum_of(s.drop_last()) + s.last()
    }
}

/// The largest number, but no less than zero.
pub open spec fn peak_of(s: Seq<i64>) -> int
    decreases s.len(),
{
    if s.len() == 0 {
        0
    } else {
        let before = peak_of(s.drop_last());
        if s.last() > before {
            s.last() as int
        } else {
            before
        }
    }
}

/// The mean of numbers, rounded down; 0 of none.
pub open spec fn mean_of(s: Seq<i64>) -> int {
    if s.len() == 0 {
        0
    } else {
        sum_of(s) / (s.len() as int)
    }
}

/// What the successful runs come to.
#[derive(Clone, Copy, Debug, PartialEq, Eq, Structural)]
pub struct TimeSummary {
    pub success_count: usize,
    pub mean: i64,
    pub median: i64,
    pub min: i64,
    pub max: i64,
}

/// The times of the successful runs from the shortest to the longest.
pub open spec fn ranked_times(s: Seq<RunResult>) -> Seq<i64> {
    success_times(s).sort_by(not_later())
}

/// What the successful runs come to: all zero where there are none.
pub open spec fn is_summary(t: TimeSummary, s: Seq<RunResult>) -> bool {
    let ranked = ranked_times(s);
    let n = success_times(s).len();
    &&& t.success_count == n
    &&& t.mean == mean_of(success_times(s))
    &&& t.median == if n == 0 {
        0
    } else {
        ranked[n as int / 2]
    }
    &&& t.min == if n == 0 {
        0
    } else {
        ranked[0]
    }
    &&& t.max == if n == 0 {
        0
    } else {
        ranked[n - 1]
    }
}

/// Collects the times of the successful runs.
fn collect_times(results: &Vec<RunResult>) -> (times: Vec<i64>)
    ensures
        times@ == success_times(results@),
{
    let mut times: Vec<i64> = Vec::new();
    let mut i: usize = 0;
    assert(results@.take(0) =~= Seq::empty());
    while i < results.len()
        invariant
            0 <= i <= results@.len(),
            times@ == success_times(results@.take(i as int)),
        decreases results@.len() - i,
    {
        assert(results@.take(i + 1).drop_last() =~= results@.take(i as int));
        if results[i].is_success() {
            times.push(results[i].internal_time);
        }
        i = i + 1;
    }
    assert(results@.take(results@.len() as int) =~= results@);
    times
}

/// Sorts times from the shortest to the longest.
fn rank(times: &Vec<i64>) -> (ranked: Vec<i64>)
    ensures
        ranked@ == times@.sort_by(not_later()),
        ranked@.len() == times@.len(),
{
    let ghost leq = not_later();
    let mut ranked: Vec<i64> = Vec::new();
    let mut i: usize = 0;
    proof {
        assert(total_ordering(leq));
        let none = Seq::<i64>::empty();
        none.lemma_sort_by_ensures(leq);
        lemma_sort_len(none, leq);
        assert(times@.take(0) =~= none);
        assert(none.sort_by(leq) =~= none);
    }
    while i < times.len()
        invariant
            leq == not_later(),
            total_ordering(leq),
            0 <= i <= times@.len(),
            ranked@ == times@.take(i as int).sort_by(leq),
        decreases times@.len() - i,
    {
        let t: i64 = times[i];
        let ghost before = times@.take(i as int);
        proof {
            before.lemma_sort_by_ensures(leq);
            assert(times@.take(i + 1) =~= before.push(t));
        }
        let mut pos: usize = ranked.len();
        while pos > 0 && ranked[pos - 1] > t
            invariant
                0 <= pos <= ranked@.len(),
                forall|k: int| pos <= k < ranked@.len() ==> #[trigger] ranked@[k] > t,
            decreases pos,
        {
            pos = pos - 1;
        }
        proof {
            assert forall|k: int| 0 <= k < pos implies leq(#[trigger] ranked@[k], t) by {
                if k < pos - 1 {
                    assert(leq(ranked@[k], ranked@[pos - 1]));
                }
            }
            lemma_sort_push(before, t, pos as int, leq);
        }
        ranked.insert(pos, t);
        i = i + 1;
    }
    proof {
        assert(times@.take(times@.len() as int) =~= times@);
        lemma_sort_len(times@, leq);
    }
    ranked
}

proof fn lemma_sort_len(s: Seq<i64>, leq: spec_fn(i64, i64) -> bool)
    requires
        total_ordering(leq),
    ensures
        s.sort_by(leq).len() == s.len(),
{
    broadcast use vstd::seq_lib::group_to_multiset_ensures;

    s.lemma_sort_by_ensures(leq);
    assert(s.to_multiset().len() == s.sort_by(leq).to_multiset().len());
}

/// The mean of numbers, rounded down; 0 of none.
pub fn mean(s: &Vec<i64>) -> (m: i64)
    ensures
        m == mean_of(s@),
{
    let mut sum: i128 = 0;
    let mut i: usize = 0;
    assert(s@.take(0) =~= Seq::empty());
    assert(s.len() == s@.len());
    while i < s.len()
        invariant
            0 <= i <= s@.len() <= u64::MAX,
            sum == sum_of(s@.take(i as int)),
            -0x8000_0000_0000_0000 * i <= sum <= 0x7fff_ffff_ffff_ffff * i,
        decreases s@.len() - i,
    {
        assert(s@.take(i + 1).drop_last() =~= s@.take(i as int));
        sum = sum + s[i] as i128;
        i = i + 1;
    }
    assert(s@.take(s@.len() as int) =~= s@);
    if s.len() == 0 {
        return 0;
    }
    let n: i128 = s.len() as i128;
    assert(-0x8000_0000_0000_0000 <= sum as int / n as int <= 0x7fff_ffff_ffff_ffff)
        by (nonlinear_arith)
        requires
            n > 0,
            -0x8000_0000_0000_0000 * n <= sum <= 0x7fff_ffff_ffff_ffff * n,
    ;
    if sum >= 0 {
        (sum / n) as i64
    } else {
        let q: i128 = (-sum) / n;
        let r: i128 = (-sum) % n;
        proof {
            let down = if r == 0 {
                -q
            } else {
                -q - 1
            };
            let rest = if r == 0 {
                0
            } else {
                n - r
            };
            lemma_fundamental_div_mod(-sum, n as int);
            assert(sum == n * down + rest) by (nonlinear_arith)
                requires
                    -sum == n * q + r,
                    down == if r == 0 {
                        -q
                    } else {
                        -q - 1
                    },
                    rest == if r == 0 {
                        0
                    } else {
                        n - r
                    },
            ;
            lemma_fundamental_div_mod_converse(
                sum as int,
                n as int,
                down,
                rest,
            );
        }
        if r == 0 {
            (-q) as i64
        } else {
            (-q - 1) as i64
        }
    }
}

/// The largest number, but no less than zero.
pub fn peak(s: &Vec<i64>) -> (p: i64)
    ensures
        p == peak_of(s@),
{
    let mut p: i64 = 0;
    let mut i: usize = 0;
    assert(s@.take(0) =~= Seq::empty());
    while i < s.len()
        invariant
            0 <= i <= s@.len(),
            p == peak_of(s@.take(i as int)),
        decreases s@.len() - i,
    {
        assert(s@.take(i + 1).drop_last() =~= s@.take(i as int));
        if s[i] > p {
            p = s[i];
        }
        i = i + 1;
    }
    assert(s@.take(s@.len() as int) =~= s@);
    p
}

/// Sums the successful runs up.
pub fn summarize(results: &Vec<RunResult>) -> (t: TimeSummary)
    ensures
        is_summary(t, results@),
{
    let times: Vec<i64> = collect_times(results);
    let ranked: Vec<i64> = rank(&times);
    let n: usize = ranked.len();
    if n == 0 {
        TimeSummary { success_count: 0, mean: mean(&times), median: 0, min: 0, max: 0 }
    } else {
        TimeSummary {
            success_count: n,
            mean: mean(&times),
            median: ranked[n / 2],
            min: ranked[0],
            max: ranked[n - 1],
        }
    }
}

/// The shortest time, the median and the longest time are in this order.
pub proof fn law_summary_is_ordered(t: TimeSummary, s: Seq<RunResult>)
    requires
        is_summary(t, s),
    ensures
        t.min <= t.median <= t.max,
        t.success_count <= s.len(),
{
    let times = success_times(s);
    let leq = not_later();
    assert(total_ordering(leq));
    times.lemma_sort_by_ensures(leq);
    lemma_sort_len(times, leq);
    lemma_fewer_times(s);
    let ranked = ranked_times(s);
    let n = times.len() as int;
    if n > 0 {
        assert(sorted_by(ranked, leq));
        if n / 2 > 0 {
            assert(leq(ranked[0], ranked[n / 2]));
        }
        if n / 2 < n - 1 {
            assert(leq(ranked[n / 2], ranked[n - 1]));
        }
    }
}

proof fn lemma_fewer_times(s: Seq<RunResult>)
    ensures
        success_times(s).len() <= s.len(),
    decreases s.len(),
{
    if s.len() > 0 {
        lemma_fewer_times(s.drop_last());
    }
}

/// The first run has the seed after 100000 and the port 10020; each further run has the next
/// seed, and its ports start twenty higher.
pub proof fn law_runs_follow_each_other(i: int)
    ensures
        plan_of(1) == (100_001int, 10_020int),
        plan_of(i + 1).0 == plan_of(i).0 + 1,
        plan_of(i + 1).1 == plan_of(i).1 + 20,
{
}

/// Lines report a time behind `TIME: `, and a percentage behind `COVERAGE: ` and
/// `PROGRESS: `.
pub proof fn law_reports_start_with_their_names()
    ensures
        ReportKind::Time.prefix() == "TIME: "@,
        ReportKind::Coverage.prefix() == "COVERAGE: "@,
        ReportKind::Progress.prefix() == "PROGRESS: "@,
        ReportKind::Time.unit_sign() == 's',
        ReportKind::Coverage.unit_sign() == '%',
        ReportKind::Progress.unit_sign() == '%',
{
    reveal_strlit("TIME: ");
    reveal_strlit("COVERAGE: ");
    reveal_strlit("PROGRESS: ");
    assert(ReportKind::Time.prefix() =~= "TIME: "@);
    assert(ReportKind::Coverage.prefix() =~= "COVERAGE: "@);
    assert(ReportKind::Progress.prefix() =~= "PROGRESS: "@);
}

proof fn lemma_without_tail(s: Seq<char>, c: char) -> (n: int)
    ensures
        0 <= n <= s.len(),
        without_tail(s, c) == s.take(n),
        forall|k: int| n <= k < s.len() ==> #[trigger] s[k] == c,
        n > 0 ==> s[n - 1] != c,
    decreases s.len(),
{
    if s.len() > 0 && s.last() == c {
        let rest = s.drop_last();
        let n = lemma_without_tail(rest, c);
        assert(rest.take(n) =~= s.take(n));
        assert forall|k: int| n <= k < s.len() implies #[trigger] s[k] == c by {
            if k < rest.len() {
                assert(rest[k] == s[k]);
            }
        }
        n
    } else {
        assert(s.take(s.len() as int) =~= s);
        s.len() as int
    }
}

proof fn lemma_trimmed_end(s: Seq<char>) -> (n: int)
    ensures
        0 <= n <= s.len(),
        trimmed_end(s) == s.take(n),
        forall|k: int| n <= k < s.len() ==> is_blank(#[trigger] s[k]),
        n > 0 ==> !is_blank(s[n - 1]),
    decreases s.len(),
{
    if s.len() > 0 && is_blank(s.last()) {
        let rest = s.drop_last();
        let n = lemma_trimmed_end(rest);
        assert(rest.take(n) =~= s.take(n));
        assert forall|k: int| n <= k < s.len() implies is_blank(#[trigger] s[k]) by {
            if k < rest.len() {
                assert(rest[k] == s[k]);
            }
        }
        n
    } else {
        assert(s.take(s.len() as int) =~= s);
        s.len() as int
    }
}

proof fn lemma_trimmed_start(s: Seq<char>) -> (n: int)
    ensures
        0 <= n <= s.len(),
        trimmed_start(s) == s.skip(n),
        forall|k: int| 0 <= k < n ==> is_blank(#[trigger] s[k]),
        n < s.len() ==> !is_blank(s[n]),
    decreases s.len(),
{
    if s.len() > 0 && is_blank(s[0]) {
        let rest = s.drop_first();
        let n = lemma_trimmed_start(rest);
        assert(rest.skip(n) =~= s.skip(n + 1));
        assert forall|k: int| 0 <= k < n + 1 implies is_blank(#[trigger] s[k]) by {
            if k > 0 {
                assert(rest[k - 1] == s[k]);
            }
        }
        n + 1
    } else {
        assert(s.skip(0) =~= s);
        0
    }
}

/// The number of a line is what stands between `start` and `end`: behind the name only white
/// space is left out in front of it, and behind it white space and then signs of the unit.
/// It neither starts nor ends with white space.
pub proof fn law_number_is_cut_out_whole(line: Seq<char>, kind: ReportKind) -> (cut: (
    int,
    int,
    int,
))
    requires
        kind.prefix().is_prefix_of(line),
    ensures
        ({
            let (start, end, signs) = cut;
            let from = kind.prefix().len() as int;
            &&& from <= start <= end <= signs <= line.len()
            &&& number_text(line, kind) == line.subrange(start, end)
            &&& forall|k: int| from <= k < start ==> is_blank(#[trigger] line[k])
            &&& forall|k: int| end <= k < signs ==> is_blank(#[trigger] line[k])
            &&& forall|k: int| signs <= k < line.len() ==> #[trigger] line[k] == kind.unit_sign()
            &&& start < end ==> !is_blank(line[start]) && !is_blank(line[end - 1])
            &&& from < signs ==> line[signs - 1] != kind.unit_sign()
        }),
{
    let from = kind.prefix().len() as int;
    let rest = line.skip(from);
    let a = lemma_without_tail(rest, kind.unit_sign());
    let bare = rest.take(a);
    let b = lemma_trimmed_end(bare);
    let ended = bare.take(b);
    let c = lemma_trimmed_start(ended);
    let (start, end, signs) = (from + c, from + b, from + a);
    assert(number_text(line, kind) =~= line.subrange(start, end));
    assert forall|k: int| from <= k < start implies is_blank(#[trigger] line[k]) by {
        assert(ended[k - from] == line[k]);
    }
    assert forall|k: int| end <= k < signs implies is_blank(#[trigger] line[k]) by {
        assert(bare[k - from] == line[k]);
    }
    assert forall|k: int| signs <= k < line.len() implies #[trigger] line[k]
        == kind.unit_sign() by {
        assert(rest[k - from] == line[k]);
    }
    if start < end {
        assert(ended[c] == line[start]);
        assert(bare[b - 1] == line[end - 1]);
    }
    if from < signs {
        assert(rest[a - 1] == line[signs - 1]);
    }
    (start, end, signs)
}

/// A further line changes what it reports: a time replaces the time, a coverage the coverage,
/// and a progress raises the coverage, if it is higher. Without any line a run has failed.
pub proof fn law_lines_add_up(fields: Seq<(ReportKind, i64)>, v: i64)
    ensures
        ({
            let none = report_of(Seq::empty());
            let before = report_of(fields);
            let time = report_of(fields.push((ReportKind::Time, v)));
            let coverage = report_of(fields.push((ReportKind::Coverage, v)));
            let progress = report_of(fields.push((ReportKind::Progress, v)));
            &&& none.internal_time == -0x1_0000_0000 && none.coverage == 0
            &&& time.internal_time == v && time.coverage == before.coverage
            &&& coverage.internal_time == before.internal_time && coverage.coverage == v
            &&& progress.internal_time == before.internal_time
            &&& progress.coverage >= v && progress.coverage >= before.coverage
            &&& progress.coverage == v || progress.coverage == before.coverage
        }),
{
    assert(fields.push((ReportKind::Time, v)).drop_last() =~= fields);
    assert(fields.push((ReportKind::Coverage, v)).drop_last() =~= fields);
    assert(fields.push((ReportKind::Progress, v)).drop_last() =~= fields);
}

/// Results are put in the order of their seeds, and none is lost or added. Those with the
/// same seed stay in the order in which they came.
pub proof fn law_by_seed_keeps_order(s: Seq<RunResult>, seed: u32)
    ensures
        by_seed(s).filter(|r: RunResult| r.seed == seed) == s.filter(
            |r: RunResult| r.seed == seed,
        ),
        by_seed(s).to_multiset() == s.to_multiset(),
        forall|i: int, j: int|
            0 <= i < j < by_seed(s).len() ==> (#[trigger] by_seed(s)[i]).seed <= (
            #[trigger] by_seed(s)[j]).seed,
    decreases s.len(),
{
    let f = |r: RunResult| r.seed == seed;
    law_by_seed_sorts(s);
    if s.len() > 0 {
        let rest = s.drop_last();
        let last = s.last();
        let before = by_seed(rest);
        law_by_seed_keeps_order(rest, seed);
        law_by_seed_sorts(rest);
        let pos = seed_place(before, last.seed);
        lemma_seed_place(before, last.seed);
        let front = before.take(pos);
        let back = before.skip(pos);
        let one = seq![last];
        assert(before =~= front + back);
        assert(by_seed(s) =~= front + one + back);
        assert(s =~= rest + one);
        Seq::filter_distributes_over_add(front, back, f);
        Seq::filter_distributes_over_add(front, one, f);
        Seq::filter_distributes_over_add(front + one, back, f);
        Seq::filter_distributes_over_add(rest, one, f);
        if last.seed == seed {
            assert forall|k: int| 0 <= k < back.len() implies !f(#[trigger] back[k]) by {
                assert(back[k] == before[pos + k]);
            }
            back.lemma_all_neg_filter_empty(f);
            assert(by_seed(s).filter(f) =~= s.filter(f));
        } else {
            assert forall|k: int| 0 <= k < one.len() implies !f(#[trigger] one[k]) by {}
            one.lemma_all_neg_filter_empty(f);
            assert(by_seed(s).filter(f) =~= s.filter(f));
        }
    }
}

/// A further run counts among the successful ones exactly where its time is not negative.
pub proof fn law_successes_have_a_time(s: Seq<RunResult>, r: RunResult)
    ensures
        success_times(Seq::empty()).len() == 0,
        r.internal_time >= 0 ==> success_times(s.push(r)) == success_times(s).push(
            r.internal_time,
        ),
        r.internal_time < 0 ==> success_times(s.push(r)) == success_times(s),
{
    assert(s.push(r).drop_last() =~= s);
}

/// A further number raises the sum by itself; the mean, times how many there are, falls
/// short of the sum by less than that many.
pub proof fn law_mean_is_of_the_sum(s: Seq<i64>, v: i64)
    ensures
        sum_of(Seq::empty()) == 0,
        sum_of(s.push(v)) == sum_of(s) + v,
        mean_of(Seq::empty()) == 0,
        s.len() > 0 ==> 0 <= sum_of(s) - mean_of(s) * s.len() < s.len(),
{
    assert(s.push(v).drop_last() =~= s);
    if s.len() > 0 {
        lemma_fundamental_div_mod(sum_of(s), s.len() as int);
        let n = s.len() as int;
        let m = mean_of(s);
        assert(n * m == m * n) by (nonlinear_arith);
    }
}

/// The peak is the largest of the numbers, or zero where none is positive.
pub proof fn law_peak_is_the_largest(s: Seq<i64>)
    ensures
        forall|k: int| 0 <= k < s.len() ==> #[trigger] s[k] <= peak_of(s),
        peak_of(s) == 0 || exists|k: int| 0 <= k < s.len() && #[trigger] s[k] == peak_of(s),
        peak_of(s) >= 0,
    decreases s.len(),
{
    if s.len() > 0 {
        let rest = s.drop_last();
        law_peak_is_the_largest(rest);
        assert forall|k: int| 0 <= k < s.len() implies #[trigger] s[k] <= peak_of(s) by {
            if k < rest.len() {
                assert(rest[k] == s[k]);
            }
        }
        if peak_of(s) != 0 {
            if s.last() > peak_of(rest) {
                assert(s[s.len() - 1] == peak_of(s));
            } else {
                let k = choose|k: int| 0 <= k < rest.len() && #[trigger] rest[k] == peak_of(rest);
                assert(s[k] == peak_of(s));
            }
        }
    }
}

/// A summary is of the times of the successful runs, put in order: the first is the
/// shortest, the last the longest, and the one in the middle, the later of two, the median.
pub proof fn law_summary_is_of_ordered_times(t: TimeSummary, s: Seq<RunResult>) -> (ranked: Seq<
    i64,
>)
    requires
        is_summary(t, s),
    ensures
        ranked.to_multiset() == success_times(s).to_multiset(),
        ranked.len() == success_times(s).len(),
        t.success_count == ranked.len(),
        forall|i: int, j: int|
            0 <= i < j < ranked.len() ==> #[trigger] ranked[i] <= #[trigger] ranked[j],
        ranked.len() == 0 ==> t.mean == 0 && t.median == 0 && t.min == 0 && t.max == 0,
        ranked.len() > 0 ==> {
            &&& t.min == ranked[0] && t.max == ranked[ranked.len() - 1]
            &&& t.median == ranked[ranked.len() as int / 2]
            &&& 0 <= sum_of(success_times(s)) - t.mean * ranked.len() < ranked.len()
        },
{
    let times = success_times(s);
    let leq = not_later();
    assert(total_ordering(leq));
    times.lemma_sort_by_ensures(leq);
    lemma_sort_len(times, leq);
    law_mean_is_of_the_sum(times, 0);
    let ranked = ranked_times(s);
    assert forall|i: int, j: int| 0 <= i < j < ranked.len() implies #[trigger] ranked[i]
        <= #[trigger] ranked[j] by {
        assert(leq(ranked[i], ranked[j]));
    }
    ranked
}

/// White space is the space, the no-break space, the ends of lines and the tabulators, and
/// the spaces of other widths.
pub proof fn law_white_space_is_known(c: char)
    ensures
        is_blank(c) <==> seq![
            '\t', '\n', '\u{b}', '\u{c}', '\r', ' ', '\u{85}', '\u{a0}', '\u{1680}', '\u{2000}',
            '\u{2001}', '\u{2002}', '\u{2003}', '\u{2004}', '\u{2005}', '\u{2006}', '\u{2007}',
            '\u{2008}', '\u{2009}', '\u{200a}', '\u{2028}', '\u{2029}', '\u{202f}', '\u{205f}',
            '\u{3000}',
        ].contains(c),
{
    let all = seq![
        '\t', '\n', '\u{b}', '\u{c}', '\r', ' ', '\u{85}', '\u{a0}', '\u{1680}', '\u{2000}',
        '\u{2001}', '\u{2002}', '\u{2003}', '\u{2004}', '\u{2005}', '\u{2006}', '\u{2007}',
        '\u{2008}', '\u{2009}', '\u{200a}', '\u{2028}', '\u{2029}', '\u{202f}', '\u{205f}',
        '\u{3000}',
    ];
    let v = c as int;
    if 0x9 <= v <= 0xd {
        assert(all[v - 9] == c);
    } else if v == 0x20 {
        assert(all[5] == c);
    } else if v == 0x85 {
        assert(all[6] == c);
    } else if v == 0xa0 {
        assert(all[7] == c);
    } else if v == 0x1680 {
        assert(all[8] == c);
    } else if 0x2000 <= v <= 0x200a {
        assert(all[v - 0x2000 + 9] == c);
    } else if v == 0x2028 {
        assert(all[20] == c);
    } else if v == 0x2029 {
        assert(all[21] == c);
    } else if v == 0x202f {
        assert(all[22] == c);
    } else if v == 0x205f {
        assert(all[23] == c);
    } else if v == 0x3000 {
        assert(all[24] == c);
    }
}

/// Without other wishes a study has a thousand runs, eight at a time, and waits half a second
/// when 60 percent of the processor or of the memory are in use.
pub proof fn law_studies_have_their_defaults()
    ensures
        DEFAULT_RUN_COUNT == 1000 && DEFAULT_CONCURRENCY == 8 && THROTTLE_SLEEP_MS == 500,
        DEFAULT_CPU_LIMIT == 60 * 0x1_0000_0000int,
        DEFAULT_RAM_LIMIT == 60 * 0x1_0000_0000int,
{
}

} // verus!
