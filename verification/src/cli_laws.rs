//! What the words of the command line mean, and what the shown texts tell.

use vstd::prelude::*;

use crate::cli;
use crate::cli::{Command, OptionsView};
use crate::dag;
use crate::machine;
use crate::pipeline::JobView;
use crate::report;
use crate::report::{RecordView, Status};
use crate::text;
use crate::text_laws;

verus! {

/// The word sets the number of jobs at once to the one behind it.
pub open spec fn is_jobs_flag(word: Seq<char>) -> bool {
    word == "--jobs"@ || word == "-j"@
}

/// Argument `i` is the number that belongs to the flag before it.
pub open spec fn is_value(args: Seq<Seq<char>>, i: int) -> bool
    decreases i,
{
    i > 0 && is_jobs_flag(args[i - 1]) && !is_value(args, i - 1)
}

/// Argument `i` sets the number of jobs at once.
pub open spec fn sets_jobs(args: Seq<Seq<char>>, i: int) -> bool {
    0 <= i < args.len() && !is_value(args, i) && is_jobs_flag(args[i])
}

/// Argument `i` looks like a flag.
pub open spec fn is_dashed(args: Seq<Seq<char>>, i: int) -> bool {
    0 <= i < args.len() && !is_value(args, i) && args[i].len() > 0 && args[i][0] == '-'
}

/// Argument `i` is a file.
pub open spec fn is_file(args: Seq<Seq<char>>, i: int) -> bool {
    0 <= i < args.len() && !is_value(args, i) && (args[i].len() == 0 || args[i][0] != '-')
}

/// Argument `i` asks to stop at the first failure.
pub open spec fn stops_early(args: Seq<Seq<char>>, i: int) -> bool {
    0 <= i < args.len() && !is_value(args, i) && args[i] == "--fail-fast"@
}

/// What is wrong with argument `i`, if anything is.
pub open spec fn fault_at(args: Seq<Seq<char>>, i: int) -> Option<Seq<char>> {
    if sets_jobs(args, i) {
        if i + 1 >= args.len() {
            Some("--jobs needs a number"@)
        } else {
            match text::parse_number(args[i + 1], usize::MAX as nat) {
                None => Some("invalid --jobs value: "@ + args[i + 1]),
                Some(n) => if n < 1 {
                    Some("--jobs must be at least 1"@)
                } else {
                    None
                },
            }
        }
    } else if is_dashed(args, i) && !stops_early(args, i) {
        Some("unknown flag: "@ + args[i])
    } else {
        None
    }
}

proof fn lemma_words()
    ensures
        !is_jobs_flag("--fail-fast"@),
        "--fail-fast"@.len() > 0,
        "--fail-fast"@[0] == '-',
        "--jobs"@[0] == '-',
        "--jobs"@.len() > 0,
        "-j"@[0] == '-',
        "-j"@.len() > 0,
{
    reveal_strlit("--fail-fast");
    reveal_strlit("--jobs");
    reveal_strlit("-j");
    assert("--fail-fast"@.len() == 11);
    assert("--jobs"@.len() == 6);
    assert("-j"@.len() == 2);
}

/// Argument `k`, from `i` on, is the last one that sets the number of jobs.
spec fn last_jobs(args: Seq<Seq<char>>, i: int, k: int) -> bool {
    i <= k && sets_jobs(args, k) && forall|m: int| m > k ==> !#[trigger] sets_jobs(args, m)
}

/// Argument `k`, from `i` on, is the last file.
spec fn last_file(args: Seq<Seq<char>>, i: int, k: int) -> bool {
    i <= k && is_file(args, k) && forall|m: int| m > k ==> !#[trigger] is_file(args, m)
}

/// What the arguments from `i` on make of `o`.
spec fn reads_as(args: Seq<Seq<char>>, i: int, o: OptionsView, r: OptionsView) -> bool {
    &&& r.fail_fast <==> o.fail_fast || exists|k: int| i <= k && #[trigger] stops_early(args, k)
    &&& (exists|k: int| #[trigger]
        last_jobs(args, i, k) && k + 1 < args.len() && text::parse_number(
            args[k + 1],
            usize::MAX as nat,
        ) == Some(r.jobs)) || (r.jobs == o.jobs && forall|m: int|
        m >= i ==> !#[trigger] sets_jobs(args, m))
    &&& (exists|k: int| #[trigger] last_file(args, i, k) && r.path == Some(args[k])) || (r.path
        == o.path && forall|m: int| m >= i ==> !#[trigger] is_file(args, m))
    &&& forall|m: int| m >= i ==> (#[trigger] fault_at(args, m)) is None
}

proof fn lemma_scan(args: Seq<Seq<char>>, i: int, o: OptionsView, r: OptionsView)
    requires
        0 <= i <= args.len(),
        !is_value(args, i),
        cli::scan(args, i, o) == Ok::<OptionsView, Seq<char>>(r),
    ensures
        reads_as(args, i, o, r),
    decreases args.len() - i,
{
    lemma_words();
    if i < args.len() {
        if is_jobs_flag(args[i]) {
            let n = text::parse_number(args[i + 1], usize::MAX as nat)->0;
            let next = OptionsView { jobs: n, ..o };
            assert(is_value(args, i + 1));
            assert(!is_value(args, i + 2));
            lemma_scan(args, i + 2, next, r);
            lemma_scan_jobs(args, i, o, next, r);
        } else {
            let next = if args[i] == "--fail-fast"@ {
                OptionsView { fail_fast: true, ..o }
            } else {
                OptionsView { path: Some(args[i]), ..o }
            };
            assert(!is_value(args, i + 1));
            lemma_scan(args, i + 1, next, r);
            lemma_scan_word(args, i, o, next, r);
        }
    }
}

proof fn lemma_scan_jobs(
    args: Seq<Seq<char>>,
    i: int,
    o: OptionsView,
    next: OptionsView,
    r: OptionsView,
)
    requires
        0 <= i,
        i + 1 < args.len(),
        sets_jobs(args, i),
        is_value(args, i + 1),
        text::parse_number(args[i + 1], usize::MAX as nat) == Some(next.jobs),
        next.jobs >= 1,
        next == (OptionsView { jobs: next.jobs, ..o }),
        reads_as(args, i + 2, next, r),
    ensures
        reads_as(args, i, o, r),
{
    lemma_words();
    assert(!sets_jobs(args, i + 1) && !is_file(args, i + 1) && !stops_early(args, i + 1));
    assert(!is_file(args, i) && !stops_early(args, i));
    assert(fault_at(args, i) is None);
    assert(fault_at(args, i + 1) is None);
    assert forall|m: int| m >= i implies (#[trigger] fault_at(args, m)) is None by {
        if m >= i + 2 {
            assert(fault_at(args, m) is None);
        }
    }
    if exists|k: int| #[trigger] last_jobs(args, i + 2, k) {
        let k = choose|k: int| #[trigger]
            last_jobs(args, i + 2, k) && k + 1 < args.len() && text::parse_number(
                args[k + 1],
                usize::MAX as nat,
            ) == Some(r.jobs);
        if last_jobs(args, i + 2, k) {
            assert(last_jobs(args, i, k));
        }
    }
    if forall|m: int| m >= i + 2 ==> !#[trigger] sets_jobs(args, m) {
        assert forall|m: int| m > i implies !#[trigger] sets_jobs(args, m) by {
            if m >= i + 2 {
                assert(!sets_jobs(args, m));
            }
        }
        assert(last_jobs(args, i, i));
    }
    if exists|k: int| #[trigger] last_file(args, i + 2, k) && r.path == Some(args[k]) {
        let k = choose|k: int| #[trigger] last_file(args, i + 2, k) && r.path == Some(args[k]);
        assert(last_file(args, i, k));
    } else {
        assert forall|m: int| m >= i implies !#[trigger] is_file(args, m) by {
            if m >= i + 2 {
                assert(!is_file(args, m));
            }
        }
    }
    if exists|k: int| i <= k && #[trigger] stops_early(args, k) {
        let k = choose|k: int| i <= k && #[trigger] stops_early(args, k);
        assert(i + 2 <= k);
    }
}

proof fn lemma_scan_word(
    args: Seq<Seq<char>>,
    i: int,
    o: OptionsView,
    next: OptionsView,
    r: OptionsView,
)
    requires
        0 <= i < args.len(),
        !is_value(args, i),
        !sets_jobs(args, i),
        stops_early(args, i) || is_file(args, i),
        next == (if stops_early(args, i) {
            OptionsView { fail_fast: true, ..o }
        } else {
            OptionsView { path: Some(args[i]), ..o }
        }),
        reads_as(args, i + 1, next, r),
    ensures
        reads_as(args, i, o, r),
{
    lemma_words();
    assert(fault_at(args, i) is None);
    assert forall|m: int| m >= i implies (#[trigger] fault_at(args, m)) is None by {
        if m >= i + 1 {
            assert(fault_at(args, m) is None);
        }
    }
    if exists|k: int| #[trigger]
        last_jobs(args, i + 1, k) && k + 1 < args.len() && text::parse_number(
            args[k + 1],
            usize::MAX as nat,
        ) == Some(r.jobs) {
        let k = choose|k: int| #[trigger]
            last_jobs(args, i + 1, k) && k + 1 < args.len() && text::parse_number(
                args[k + 1],
                usize::MAX as nat,
            ) == Some(r.jobs);
        assert(last_jobs(args, i, k));
    } else {
        assert forall|m: int| m >= i implies !#[trigger] sets_jobs(args, m) by {
            if m >= i + 1 {
                assert(!sets_jobs(args, m));
            }
        }
    }
    if exists|k: int| #[trigger] last_file(args, i + 1, k) && r.path == Some(args[k]) {
        let k = choose|k: int| #[trigger] last_file(args, i + 1, k) && r.path == Some(args[k]);
        assert(last_file(args, i, k));
    } else {
        assert(forall|m: int| m >= i + 1 ==> !#[trigger] is_file(args, m));
        if is_file(args, i) {
            assert(last_file(args, i, i));
        } else {
            assert forall|m: int| m >= i implies !#[trigger] is_file(args, m) by {
                if m >= i + 1 {
                    assert(!is_file(args, m));
                }
            }
        }
    }
    if stops_early(args, i) {
        assert(i <= i && stops_early(args, i));
    }
    if exists|k: int| i + 1 <= k && #[trigger] stops_early(args, k) {
        let k = choose|k: int| i + 1 <= k && #[trigger] stops_early(args, k);
        assert(i <= k);
    }
    if exists|k: int| i <= k && #[trigger] stops_early(args, k) {
        let k = choose|k: int| i <= k && #[trigger] stops_early(args, k);
        assert(k == i || i + 1 <= k);
    }
}

/// What accepted arguments say. The number of jobs at once is the one behind the last
/// `--jobs` or `-j`, and four only where there is none. The run stops at the first
/// failure exactly where `--fail-fast` is among the arguments. The pipeline is the last
/// argument that is neither a flag nor the number of one. No other word begins with a
/// dash, and no number is below one.
pub proof fn law_options_accepted(args: Seq<Seq<char>>, o: OptionsView)
    requires
        cli::options_of(args) == Ok::<OptionsView, Seq<char>>(o),
    ensures
        (exists|k: int| #[trigger]
            sets_jobs(args, k) && (forall|m: int| m > k ==> !#[trigger] sets_jobs(args, m)) && k
                + 1 < args.len() && text::parse_number(args[k + 1], usize::MAX as nat) == Some(
                o.jobs,
            )) || (o.jobs == 4 && forall|m: int| !#[trigger] sets_jobs(args, m)),
        o.jobs >= 1,
        o.fail_fast <==> args.contains("--fail-fast"@),
        exists|k: int| #[trigger]
            is_file(args, k) && (forall|m: int| m > k ==> !#[trigger] is_file(args, m)) && o.path
                == Some(args[k]),
        forall|m: int| (#[trigger] fault_at(args, m)) is None,
{
    lemma_words();
    let start = OptionsView { path: None, jobs: 4, fail_fast: false };
    lemma_scan(args, 0, start, o);
    assert forall|m: int| (#[trigger] fault_at(args, m)) is None by {
        if m >= 0 {
            assert(fault_at(args, m) is None);
        }
    }
    if exists|k: int| #[trigger]
        last_jobs(args, 0, k) && k + 1 < args.len() && text::parse_number(
            args[k + 1],
            usize::MAX as nat,
        ) == Some(o.jobs) {
        let k = choose|k: int| #[trigger]
            last_jobs(args, 0, k) && k + 1 < args.len() && text::parse_number(
                args[k + 1],
                usize::MAX as nat,
            ) == Some(o.jobs);
        assert(sets_jobs(args, k));
        assert(fault_at(args, k) is None);
    } else {
        assert forall|m: int| !#[trigger] sets_jobs(args, m) by {
            if m >= 0 {
                assert(!sets_jobs(args, m));
            }
        }
    }
    let f = choose|k: int| #[trigger] last_file(args, 0, k) && o.path == Some(args[k]);
    assert(is_file(args, f));
    if args.contains("--fail-fast"@) {
        let k = choose|k: int| 0 <= k < args.len() && args[k] == "--fail-fast"@;
        if is_value(args, k) {
            assert(sets_jobs(args, k - 1));
            assert(fault_at(args, k - 1) is None);
            reveal_strlit("--fail-fast");
            assert(!text::is_digit(args[k][0]));
            assert(!text::all_digits(args[k]));
        }
        assert(stops_early(args, k));
    }
}

proof fn lemma_scan_fault(args: Seq<Seq<char>>, j: int, i: int, o: OptionsView)
    requires
        0 <= j <= i < args.len(),
        !is_value(args, j),
        fault_at(args, i) is Some,
        forall|m: int| 0 <= m < i ==> (#[trigger] fault_at(args, m)) is None,
    ensures
        cli::scan(args, j, o) == Err::<OptionsView, Seq<char>>(fault_at(args, i)->0),
    decreases i - j,
{
    lemma_words();
    if j < i {
        assert(fault_at(args, j) is None);
        if is_jobs_flag(args[j]) {
            assert(is_value(args, j + 1));
            assert(fault_at(args, j + 1) is None);
            assert(!is_value(args, j + 2));
            let n = text::parse_number(args[j + 1], usize::MAX as nat)->0;
            lemma_scan_fault(args, j + 2, i, OptionsView { jobs: n, ..o });
        } else if args[j] == "--fail-fast"@ {
            lemma_scan_fault(args, j + 1, i, OptionsView { fail_fast: true, ..o });
        } else {
            lemma_scan_fault(args, j + 1, i, OptionsView { path: Some(args[j]), ..o });
        }
    }
}

proof fn lemma_scan_fine(args: Seq<Seq<char>>, j: int, o: OptionsView)
    requires
        0 <= j <= args.len(),
        !is_value(args, j),
        forall|m: int| (#[trigger] fault_at(args, m)) is None,
    ensures
        cli::scan(args, j, o) is Ok,
    decreases args.len() - j,
{
    lemma_words();
    if j < args.len() {
        assert(fault_at(args, j) is None);
        if is_jobs_flag(args[j]) {
            assert(is_value(args, j + 1));
            assert(!is_value(args, j + 2));
            let n = text::parse_number(args[j + 1], usize::MAX as nat)->0;
            lemma_scan_fine(args, j + 2, OptionsView { jobs: n, ..o });
        } else if args[j] == "--fail-fast"@ {
            lemma_scan_fine(args, j + 1, OptionsView { fail_fast: true, ..o });
        } else {
            lemma_scan_fine(args, j + 1, OptionsView { path: Some(args[j]), ..o });
        }
    }
}

/// The first argument that something is wrong with has the arguments refused.
pub proof fn law_options_refused(args: Seq<Seq<char>>, i: int)
    requires
        0 <= i < args.len(),
        fault_at(args, i) is Some,
        forall|m: int| 0 <= m < i ==> (#[trigger] fault_at(args, m)) is None,
    ensures
        cli::options_of(args) == Err::<OptionsView, Seq<char>>(fault_at(args, i)->0),
{
    lemma_scan_fault(args, 0, i, OptionsView { path: None, jobs: 4, fail_fast: false });
}

/// Arguments that nothing is wrong with are accepted where a file is among them, and
/// refused for want of one otherwise.
pub proof fn law_options_complete(args: Seq<Seq<char>>)
    requires
        forall|m: int| (#[trigger] fault_at(args, m)) is None,
    ensures
        cli::options_of(args) is Ok <==> exists|k: int| #[trigger] is_file(args, k),
        cli::options_of(args) matches Err(e) ==> e == "missing pipeline file"@,
{
    let start = OptionsView { path: None, jobs: 4, fail_fast: false };
    lemma_scan_fine(args, 0, start);
    let r = cli::scan(args, 0, start)->Ok_0;
    lemma_scan(args, 0, start, r);
    if exists|k: int| #[trigger] is_file(args, k) {
        let k = choose|k: int| #[trigger] is_file(args, k);
        assert(k >= 0);
        assert(is_file(args, k));
    }
}

/// Each command has its word, and no other word is one. Without a word the usage is
/// shown; an unknown one is named before it.
pub proof fn law_commands(args: Seq<Seq<char>>)
    ensures
        args.len() == 0 ==> cli::command_of(args) == Err::<Command, Seq<char>>(cli::usage_text()),
        args.len() > 0 ==> {
            let word = args[0];
            let command = cli::command_of(args);
            &&& command == Ok::<Command, Seq<char>>(Command::Run) <==> word == "run"@
            &&& command == Ok::<Command, Seq<char>>(Command::Plan) <==> word == "plan"@
            &&& command == Ok::<Command, Seq<char>>(Command::Graph) <==> word == "graph"@
            &&& command == Ok::<Command, Seq<char>>(Command::Help) <==> word == "-h"@ || word
                == "--help"@ || word == "help"@
            &&& command matches Err(e) ==> e == "unknown command '"@ + word + "'\n\n"@
                + cli::usage_text()
        },
{
    reveal_strlit("run");
    reveal_strlit("plan");
    reveal_strlit("graph");
    reveal_strlit("-h");
    reveal_strlit("--help");
    reveal_strlit("help");
    assert("run"@.len() == 3);
    assert("plan"@.len() == 4);
    assert("graph"@.len() == 5);
    assert("-h"@.len() == 2);
    assert("--help"@.len() == 6);
    assert("help"@.len() == 4);
    assert("plan"@[0] == 'p');
    assert("help"@[0] == 'h');
}

/// `n` blanks, or none.
pub open spec fn spaces(n: int) -> Seq<char> {
    Seq::new(
        if n > 0 {
            n as nat
        } else {
            0
        },
        |k: int| ' ',
    )
}

proof fn lemma_blanks(n: int)
    ensures
        cli::blanks(n) == spaces(n),
    decreases n,
{
    if n > 0 {
        lemma_blanks(n - 1);
        assert(cli::blanks(n) =~= spaces(n));
    } else {
        assert(cli::blanks(n) =~= spaces(n));
    }
}

/// The text ends with the words.
pub open spec fn ends_with(s: Seq<char>, words: Seq<char>) -> bool {
    s.len() >= words.len() && s.skip(s.len() - words.len()) == words
}

/// Where the name of a job stands in its line.
pub open spec fn name_column(r: RecordView) -> int {
    let digits = text::decimal(r.start_order as nat).len() as int;
    if r.start_order == usize::MAX || digits <= 2 {
        7
    } else {
        5 + digits
    }
}

proof fn lemma_ends(a: Seq<char>, b: Seq<char>)
    ensures
        ends_with(a + b, b),
{
    assert((a + b).skip((a + b).len() - b.len()) =~= b);
}

/// The line of a job ends with the mark and the word of its status, so lines of
/// different status differ. The name stands in its column, with blanks behind it up to
/// its width and one more. Before it stands the place in the start order, in brackets,
/// or nothing where the job was not started.
pub proof fn law_record_line(r: RecordView)
    ensures
        ({
            let line = cli::record_line(r);
            let at = name_column(r);
            let gap = spaces(20 - r.name.len()).len() + 1;
            &&& r.status == Status::Success ==> ends_with(line, "ok       success"@) && line.len()
                == at + r.name.len() + gap + 16
            &&& r.status == Status::Cached ==> ends_with(line, "==       cached"@) && line.len()
                == at + r.name.len() + gap + 15
            &&& r.status == Status::Failed ==> ends_with(line, "xx       failed"@) && line.len()
                == at + r.name.len() + gap + 15
            &&& r.status == Status::Skipped ==> ends_with(line, "--       skipped"@) && line.len()
                == at + r.name.len() + gap + 16
            &&& line.subrange(at, at + r.name.len()) == r.name
            &&& line.subrange(at + r.name.len(), at + r.name.len() + gap) == spaces(gap as int)
            &&& r.start_order == usize::MAX ==> line.take(at) == spaces(at)
            &&& r.start_order != usize::MAX ==> line.take(at) == "  ["@ + spaces(
                at - 5 - text::decimal(r.start_order as nat).len(),
            ) + text::decimal(r.start_order as nat) + "] "@
        }),
{
    let line = cli::record_line(r);
    let at = name_column(r);
    let when = "  "@ + cli::when_text(r.start_order);
    let pad = spaces(20 - r.name.len());
    let gap = pad.len() + 1;
    let mark = cli::mark_text(r.status);
    reveal_strlit("  ");
    reveal_strlit("     ");
    reveal_strlit(" ");
    reveal_strlit("[");
    reveal_strlit("] ");
    reveal_strlit("  [");
    reveal_strlit("ok       success");
    reveal_strlit("==       cached");
    reveal_strlit("xx       failed");
    reveal_strlit("--       skipped");
    lemma_blanks(20 - r.name.len());
    let digits = text::decimal(r.start_order as nat);
    lemma_blanks(2 - digits.len());
    text_laws::law_decimal(r.start_order as nat);
    assert(line == when + (r.name + pad) + " "@ + mark);
    lemma_ends(when + (r.name + pad) + " "@, mark);
    if r.start_order == usize::MAX {
        assert(when =~= spaces(7));
    } else {
        assert(spaces(2 - digits.len()) =~= spaces(at - 5 - digits.len()));
        assert(when =~= "  ["@ + spaces(at - 5 - digits.len()) + digits + "] "@);
    }
    assert(when.len() == at);
    assert(line.take(at) =~= when);
    assert(line.subrange(at, at + r.name.len()) =~= r.name);
    assert(line.subrange(at + r.name.len(), at + r.name.len() + gap) =~= spaces(gap as int));
}

/// The account of a run: a line that tells the file and the limit, the line of every
/// job in the given order, and the summary.
pub proof fn law_run_lines(
    path: Seq<char>,
    jobs: nat,
    records: Seq<RecordView>,
    order: Seq<int>,
)
    ensures
        ({
            let lines = cli::run_lines(path, jobs, records, order);
            &&& lines.len() == order.len() + 2
            &&& lines[0] == "relay run: "@ + path + " (--jobs "@ + text::decimal(jobs) + ")"@
            &&& forall|k: int|
                0 <= k < order.len() ==> #[trigger] lines[k + 1] == cli::record_line(
                    records[order[k]],
                )
            &&& lines.last() == "summary: "@ + report::summary_of(records)
        }),
{
}

/// How many records have that status.
pub open spec fn number_of(records: Seq<RecordView>, status: Status) -> nat {
    records.filter(|r: RecordView| r.status == status).len()
}

proof fn lemma_tally(records: Seq<RecordView>, status: Status)
    ensures
        report::tally(records, status) == number_of(records, status),
    decreases records.len(),
{
    reveal(Seq::filter);
    if records.len() > 0 {
        lemma_tally(records.drop_last(), status);
    }
}

/// The summary tells how many jobs have each status.
pub proof fn law_summary(records: Seq<RecordView>)
    ensures
        forall|s: Status| #[trigger] report::tally(records, s) == number_of(records, s),
        report::summary_of(records) == text::decimal(number_of(records, Status::Success))
            + " success, "@ + text::decimal(number_of(records, Status::Cached)) + " cached, "@
            + text::decimal(number_of(records, Status::Failed)) + " failed, "@ + text::decimal(
            number_of(records, Status::Skipped),
        ) + " skipped"@,
{
    assert forall|s: Status| #[trigger] report::tally(records, s) == number_of(records, s) by {
        lemma_tally(records, s);
    }
}

/// The line of a job in the dependency graph: a job without needs is a root, and any
/// other shows the names of the jobs it depends on.
pub proof fn law_graph_line(jobs: Seq<JobView>, i: int)
    ensures
        jobs[i].needs.len() == 0 ==> cli::graph_line(jobs, i) == "  "@ + jobs[i].name
            + " (root)"@,
        jobs[i].needs.len() > 0 ==> cli::graph_line(jobs, i) == "  "@ + jobs[i].name + " <- "@
            + text::join(
            Seq::new(
                dag::edges(jobs)[i].len(),
                |k: int| jobs[dag::edges(jobs)[i][k] as int].name,
            ),
            ", "@,
        ),
{
    assert(cli::names_at(jobs, dag::edges(jobs)[i]) =~= Seq::new(
        dag::edges(jobs)[i].len(),
        |k: int| jobs[dag::edges(jobs)[i][k] as int].name,
    ));
}

/// The shown graph: a line that tells the file, and the line of every job in config
/// order.
pub proof fn law_graph_lines(path: Seq<char>, jobs: Seq<JobView>)
    ensures
        cli::show_lines(path, jobs).len() == jobs.len() + 1,
        cli::show_lines(path, jobs)[0] == "graph: "@ + path,
        forall|i: int|
            0 <= i < jobs.len() ==> #[trigger] cli::show_lines(path, jobs)[i + 1]
                == cli::graph_line(jobs, i),
{
}

/// The shown plan: how many jobs there are and how many run at once, the line of every
/// job in config order, and for every wave a line with the names of its jobs.
pub proof fn law_plan_lines(path: Seq<char>, limit: nat, jobs: Seq<JobView>)
    ensures
        ({
            let lines = cli::plan_lines(path, limit, jobs);
            let levels = machine::levels_of(dag::edges(jobs));
            let waves = dag::height(levels, levels.len() as int);
            let n = jobs.len() as int;
            &&& lines.len() == n + 5 + (if waves > 0 {
                waves
            } else {
                0
            })
            &&& lines[0] == "plan: "@ + path + " ("@ + text::decimal(jobs.len())
                + " jobs, --jobs "@ + text::decimal(limit) + ")"@
            &&& lines[1] == ""@
            &&& lines[2] == "dependency graph:"@
            &&& forall|i: int|
                0 <= i < n ==> #[trigger] lines[i + 3] == cli::graph_line(jobs, i)
            &&& lines[n + 3] == ""@
            &&& lines[n + 4] == "execution waves (dependency order, up to "@ + text::decimal(limit)
                + " at once):"@
            &&& forall|w: int|
                0 <= w < waves ==> #[trigger] lines[n + 5 + w] == "  wave "@ + text::decimal(
                    w as nat,
                ) + ": "@ + text::join(
                    dag::members(levels, w, levels.len() as int).map_values(
                        |d: usize| jobs[d as int].name,
                    ),
                    ", "@,
                )
        }),
{
    let levels = machine::levels_of(dag::edges(jobs));
    lemma_height(levels, levels.len() as int);
    let lines = cli::plan_lines(path, limit, jobs);
    let waves = dag::height(levels, levels.len() as int);
    let n = jobs.len() as int;
    assert forall|w: int| 0 <= w < waves implies #[trigger] lines[n + 5 + w] == "  wave "@
        + text::decimal(w as nat) + ": "@ + text::join(
        dag::members(levels, w, levels.len() as int).map_values(|d: usize| jobs[d as int].name),
        ", "@,
    ) by {
        assert(lines[n + 5 + w] == cli::wave_line(jobs, levels, w));
        assert(cli::names_at(jobs, dag::members(levels, w, levels.len() as int))
            =~= dag::members(levels, w, levels.len() as int).map_values(
            |d: usize| jobs[d as int].name,
        ));
    }
}

proof fn lemma_height(levels: Seq<usize>, n: int)
    ensures
        dag::height(levels, n) >= 0,
    decreases n,
{
    if n > 0 {
        lemma_height(levels, n - 1);
    }
}

/// Where the last component of a path begins.
proof fn lemma_last_start(p: Seq<char>, floor: int)
    requires
        0 <= floor <= p.len(),
    ensures
        ({
            let k = cli::last_start(p, floor);
            &&& floor <= k <= p.len()
            &&& k == floor || p[k - 1] == '/'
            &&& text_laws::lacks(p.skip(k), '/')
        }),
    decreases p.len(),
{
    let k = cli::last_start(p, floor);
    if p.len() <= floor || p.last() == '/' {
    } else {
        lemma_last_start(p.drop_last(), floor);
        assert forall|m: int| 0 <= m < p.skip(k).len() implies p.skip(k)[m] != '/' by {
            if m < p.skip(k).len() - 1 {
                assert(p.drop_last().skip(k)[m] == p.skip(k)[m]);
            }
        }
    }
}

/// The last component begins behind the last slash.
proof fn lemma_last_component(head: Seq<char>, last: Seq<char>, floor: int)
    requires
        0 <= floor <= head.len(),
        head.len() == floor || head.last() == '/',
        text_laws::lacks(last, '/'),
    ensures
        cli::last_start(head + last, floor) == head.len(),
    decreases last.len(),
{
    let p = head + last;
    if last.len() == 0 {
        assert(p =~= head);
    } else {
        assert(last[last.len() - 1] != '/');
        assert(p.drop_last() =~= head + last.drop_last());
        assert forall|m: int| 0 <= m < last.drop_last().len() implies last.drop_last()[m]
            != '/' by {
            assert(last[m] != '/');
        }
        lemma_last_component(head, last.drop_last(), floor);
    }
}

/// The text names something in a directory.
pub open spec fn is_component(file: Seq<char>) -> bool {
    file.len() > 0 && text_laws::lacks(file, '/') && file != "."@
}

/// The path of a directory is written without a slash or a dot at its end.
pub open spec fn ends_plainly(dir: Seq<char>) -> bool {
    &&& dir.len() > 0 && dir.last() != '/'
    &&& dir.len() > 1 ==> !(dir[dir.len() - 2] == '/' && dir[dir.len() - 1] == '.')
}

proof fn lemma_plain(dir: Seq<char>, floor: int)
    requires
        ends_plainly(dir),
        0 <= floor <= dir.len(),
        floor == 0 ==> dir != "."@,
        floor == 1 ==> dir[0] == '/' || dir == "."@ || (dir.len() > 1 && dir[1] == '/'),
        floor <= 1,
    ensures
        cli::trim_tail(dir, floor) == dir,
{
    reveal_strlit(".");
    if dir.len() > floor {
        lemma_last_start(dir, floor);
        let k = cli::last_start(dir, floor);
        let last = dir.skip(k);
        if last.len() == 0 {
            assert(k == dir.len());
            assert(dir[k - 1] == '/');
            assert(false);
        }
        if last == "."@ {
            assert(k == dir.len() - 1);
            assert(last[0] == dir[k]);
            if k == 0 {
                assert(dir =~= "."@);
            }
            assert(false);
        }
    }
}

/// The directory of a file is what stands before its last slash: of `dir/file` it is
/// `dir`, of a file at the root the root, and of a bare name the current directory.
pub proof fn law_directory_of_file(dir: Seq<char>, file: Seq<char>)
    requires
        is_component(file),
    ensures
        ends_plainly(dir) ==> cli::parent_of(dir + seq!['/'] + file) == dir,
        cli::parent_of(seq!['/'] + file) == "/"@,
        cli::parent_of(file) == "."@,
{
    reveal_strlit(".");
    reveal_strlit("/");
    let slash = seq!['/'];
    assert(file[0] != '/');
    if file.len() > 1 {
        assert(file[1] != '/');
    } else if file[0] == '.' {
        assert(file =~= "."@);
    }
    // A bare name.
    let none = Seq::<char>::empty();
    assert(none + file =~= file);
    lemma_last_component(none, file, 0);
    assert(cli::head_len(file) == 0);
    assert(file.skip(0) =~= file);
    assert(file.take(0) =~= none);
    // A file at the root.
    let rooted = slash + file;
    assert(cli::head_len(rooted) == 1);
    lemma_last_component(slash, file, 1);
    assert(rooted.skip(1) =~= file);
    assert(rooted.take(1) =~= "/"@);
    if ends_plainly(dir) {
        let p = dir + slash + file;
        let floor = cli::head_len(p);
        assert((dir + slash).last() == '/');
        lemma_last_component(dir + slash, file, floor);
        assert(p.skip((dir.len() + 1) as int) =~= file);
        assert(p.take(dir.len() as int) =~= dir);
        assert(p[0] == dir[0]);
        if dir.len() == 1 {
            assert(p[1] == '/');
            if dir[0] == '.' {
                assert(dir =~= "."@);
            }
        } else {
            assert(p[1] == dir[1]);
        }
        lemma_plain(dir, floor);
    }
}

/// A slash, or a slash and a dot, at the end of a path change nothing.
pub proof fn law_directory_of_padded(p: Seq<char>)
    requires
        p.len() > 0,
    ensures
        cli::parent_of(p + seq!['/']) == cli::parent_of(p),
        cli::parent_of(p + seq!['/', '.']) == cli::parent_of(p),
{
    reveal_strlit(".");
    let floor = cli::head_len(p);
    let a = p + seq!['/'];
    let b = p + seq!['/', '.'];
    assert(cli::head_len(a) == floor);
    assert(cli::head_len(b) == floor);
    assert(a.last() == '/');
    assert(a.skip(a.len() as int).len() == 0);
    assert(a.take(a.len() - 1) =~= p);
    assert(b =~= a + seq!['.']);
    lemma_last_component(a, seq!['.'], floor);
    assert(b.skip(a.len() as int) =~= "."@);
    assert(b.take(a.len() - 1) =~= p);
}

} // verus!
