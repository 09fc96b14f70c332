//! The command line: its words, and the texts that are shown.

use vstd::prelude::*;
use vstd::string::*;

use crate::dag;
use crate::dag::Dag;
use crate::error::Error;
use crate::machine;
use crate::pipeline::{JobView, Pipeline};
use crate::printer;
use crate::report;
use crate::report::{JobRecord, RecordView, Report, Status};
use crate::text;

verus! {

/// What a command is run on, and how.
#[derive(Debug, Clone, PartialEq, Eq)]
pub struct Options {
    pub path: String,
    pub jobs: usize,
    pub fail_fast: bool,
}

/// What the arguments say so far.
#[verifier::ext_equal]
pub struct OptionsView {
    pub path: Option<Seq<char>>,
    pub jobs: nat,
    pub fail_fast: bool,
}

impl View for Options {
    type V = OptionsView;

    open spec fn view(&self) -> OptionsView {
        OptionsView {
            path: Some(self.path@),
            jobs: self.jobs as nat,
            fail_fast: self.fail_fast,
        }
    }
}

/// What the arguments from `i` on say, when those before say `o`.
pub open spec fn scan(args: Seq<Seq<char>>, i: int, o: OptionsView) -> Result<
    OptionsView,
    Seq<char>,
>
    decreases args.len() - i,
{
    if i >= args.len() {
        Ok(o)
    } else if args[i] == "--jobs"@ || args[i] == "-j"@ {
        if i + 1 >= args.len() {
            Err("--jobs needs a number"@)
        } else {
            match text::parse_number(args[i + 1], usize::MAX as nat) {
                None => Err("invalid --jobs value: "@ + args[i + 1]),
                Some(n) => if n == 0 {
                    Err("--jobs must be at least 1"@)
                } else {
                    scan(args, i + 2, OptionsView { jobs: n, ..o })
                },
            }
        }
    } else if args[i] == "--fail-fast"@ {
        scan(args, i + 1, OptionsView { fail_fast: true, ..o })
    } else if args[i].len() > 0 && args[i][0] == '-' {
        Err("unknown flag: "@ + args[i])
    } else {
        scan(args, i + 1, OptionsView { path: Some(args[i]), ..o })
    }
}

/// What the arguments of a command say, or what is wrong with them.
pub open spec fn options_of(args: Seq<Seq<char>>) -> Result<OptionsView, Seq<char>> {
    match scan(args, 0, OptionsView { path: None, jobs: 4, fail_fast: false }) {
        Ok(o) => match o.path {
            Some(_) => Ok(o),
            None => Err("missing pipeline file"@),
        },
        Err(e) => Err(e),
    }
}

/// Reads the arguments of a command.
pub fn parse_options(args: &[String]) -> (r: Result<Options, String>)
    ensures
        match r {
            Ok(o) => options_of(text::views(args@)) == Ok::<OptionsView, Seq<char>>(o@),
            Err(e) => options_of(text::views(args@)) == Err::<OptionsView, Seq<char>>(e@),
        },
{
    let ghost all = text::views(args@);
    let ghost start = OptionsView { path: None, jobs: 4, fail_fast: false };
    let mut path: Option<String> = None;
    let mut jobs: usize = 4;
    let mut fail_fast = false;
    let ghost mut o = start;
    let mut i: usize = 0;
    while i < args.len()
        invariant
            i <= args.len(),
            all == text::views(args@),
            start == (OptionsView { path: None, jobs: 4, fail_fast: false }),
            scan(all, 0, start) == scan(all, i as int, o),
            o.jobs == jobs,
            o.fail_fast == fail_fast,
            match path {
                Some(p) => o.path == Some(p@),
                None => o.path is None,
            },
        decreases args.len() - i,
    {
        let arg = text::chars_of(args[i].as_str());
        assert(all[i as int] == arg@);
        if text::same(&arg, "--jobs") || text::same(&arg, "-j") {
            if i + 1 >= args.len() {
                return Err("--jobs needs a number".to_owned());
            }
            let raw = text::chars_of(args[i + 1].as_str());
            assert(all[i + 1] == raw@);
            match text::parse_u64(&raw, usize::MAX as u64) {
                Some(n) => {
                    if n == 0 {
                        return Err("--jobs must be at least 1".to_owned());
                    }
                    jobs = n as usize;
                    proof {
                        o = OptionsView { jobs: n as nat, ..o };
                    }
                },
                None => {
                    let mut e = "invalid --jobs value: ".to_owned();
                    e.append(args[i + 1].as_str());
                    return Err(e);
                },
            }
            i += 2;
        } else if text::same(&arg, "--fail-fast") {
            fail_fast = true;
            proof {
                o = OptionsView { fail_fast: true, ..o };
            }
            i += 1;
        } else if arg.len() > 0 && arg[0] == '-' {
            let mut e = "unknown flag: ".to_owned();
            e.append(args[i].as_str());
            return Err(e);
        } else {
            path = Some(args[i].clone());
            proof {
                o = OptionsView { path: Some(all[i as int]), ..o };
            }
            i += 1;
        }
    }
    match path {
        Some(path) => Ok(Options { path, jobs, fail_fast }),
        None => Err("missing pipeline file".to_owned()),
    }
}

/// The command that is asked for.
#[derive(Debug, Clone, Copy, PartialEq, Eq, Structural)]
pub enum Command {
    Run,
    Plan,
    Graph,
    Help,
}

/// The text that tells how to use the program.
pub open spec fn usage_text() -> Seq<char> {
    text::unlines(
        seq![
            "relay - a readable CI/CD engine"@,
            ""@,
            "usage:"@,
            "  relay run   <pipeline> [--jobs N] [--fail-fast]   run the pipeline"@,
            "  relay plan  <pipeline> [--jobs N]                 show the DAG and wave order, run nothing"@,
        ],
    ) + "  relay graph <pipeline>                            show the dependency graph"@
}

/// The text that tells how to use the program.
pub fn usage() -> (s: String)
    ensures
        s@ == usage_text(),
{
    let mut s = String::new();
    let ghost mut lines: Seq<Seq<char>> = Seq::empty();
    proof {
        reveal_strlit("");
        assert(s@ =~= text::unlines(lines));
    }
    printer::write_line(&mut s, "relay - a readable CI/CD engine", "", "", "", Ghost(lines));
    proof {
        let a = "relay - a readable CI/CD engine"@;
        assert(a + ""@ + ""@ + ""@ =~= a);
        lines = lines.push(a);
    }
    printer::write_line(&mut s, "", "", "", "", Ghost(lines));
    proof {
        assert(""@ + ""@ + ""@ + ""@ =~= ""@);
        lines = lines.push(""@);
    }
    printer::write_line(&mut s, "usage:", "", "", "", Ghost(lines));
    proof {
        let a = "usage:"@;
        assert(a + ""@ + ""@ + ""@ =~= a);
        lines = lines.push(a);
    }
    printer::write_line(
        &mut s,
        "  relay run   <pipeline> [--jobs N] [--fail-fast]   run the pipeline",
        "",
        "",
        "",
        Ghost(lines),
    );
    proof {
        let a = "  relay run   <pipeline> [--jobs N] [--fail-fast]   run the pipeline"@;
        assert(a + ""@ + ""@ + ""@ =~= a);
        lines = lines.push(a);
    }
    printer::write_line(
        &mut s,
        "  relay plan  <pipeline> [--jobs N]                 show the DAG and wave order, run nothing",
        "",
        "",
        "",
        Ghost(lines),
    );
    proof {
        let a =
            "  relay plan  <pipeline> [--jobs N]                 show the DAG and wave order, run nothing"@;
        assert(a + ""@ + ""@ + ""@ =~= a);
        lines = lines.push(a);
        assert(lines =~= seq![
            "relay - a readable CI/CD engine"@,
            ""@,
            "usage:"@,
            "  relay run   <pipeline> [--jobs N] [--fail-fast]   run the pipeline"@,
            "  relay plan  <pipeline> [--jobs N]                 show the DAG and wave order, run nothing"@,
        ]);
    }
    s.append("  relay graph <pipeline>                            show the dependency graph");
    s
}

/// The command that the first argument names, or the message for one that is not
/// known or missing.
pub open spec fn command_of(args: Seq<Seq<char>>) -> Result<Command, Seq<char>> {
    if args.len() == 0 {
        Err(usage_text())
    } else if args[0] == "run"@ {
        Ok(Command::Run)
    } else if args[0] == "plan"@ {
        Ok(Command::Plan)
    } else if args[0] == "graph"@ {
        Ok(Command::Graph)
    } else if args[0] == "-h"@ || args[0] == "--help"@ || args[0] == "help"@ {
        Ok(Command::Help)
    } else {
        Err("unknown command '"@ + args[0] + "'\n\n"@ + usage_text())
    }
}

/// Reads the command.
pub fn parse_command(args: &[String]) -> (r: Result<Command, String>)
    ensures
        match r {
            Ok(c) => command_of(text::views(args@)) == Ok::<Command, Seq<char>>(c),
            Err(e) => command_of(text::views(args@)) == Err::<Command, Seq<char>>(e@),
        },
{
    if args.len() == 0 {
        return Err(usage());
    }
    let word = text::chars_of(args[0].as_str());
    assert(text::views(args@)[0] == word@);
    if text::same(&word, "run") {
        Ok(Command::Run)
    } else if text::same(&word, "plan") {
        Ok(Command::Plan)
    } else if text::same(&word, "graph") {
        Ok(Command::Graph)
    } else if text::same(&word, "-h") || text::same(&word, "--help") || text::same(&word, "help") {
        Ok(Command::Help)
    } else {
        let mut e = "unknown command '".to_owned();
        e.append(args[0].as_str());
        e.append("'\n\n");
        e.append(usage().as_str());
        Err(e)
    }
}

/// How a status is shown.
pub open spec fn mark_text(status: Status) -> Seq<char> {
    match status {
        Status::Success => "ok       success"@,
        Status::Cached => "==       cached"@,
        Status::Failed => "xx       failed"@,
        Status::Skipped => "--       skipped"@,
    }
}

/// How a status is shown.
pub fn mark(status: Status) -> (s: &'static str)
    ensures
        s@ == mark_text(status),
{
    match status {
        Status::Success => "ok       success",
        Status::Cached => "==       cached",
        Status::Failed => "xx       failed",
        Status::Skipped => "--       skipped",
    }
}

/// How much of a path stands before its components: the root, or a leading dot
/// that is a component of its own.
pub open spec fn head_len(p: Seq<char>) -> int {
    if p.len() > 0 && p[0] == '/' {
        1
    } else if p.len() > 0 && p[0] == '.' && (p.len() == 1 || p[1] == '/') {
        1
    } else {
        0
    }
}

/// Where the last component of a path begins, behind its first `floor` characters.
pub open spec fn last_start(p: Seq<char>, floor: int) -> int
    decreases p.len(),
{
    if p.len() == 0 || p.len() <= floor || p.last() == '/' {
        p.len() as int
    } else {
        last_start(p.drop_last(), floor)
    }
}

/// The path without its last component and the slash before it.
pub open spec fn without_last(p: Seq<char>, floor: int) -> Seq<char> {
    let k = last_start(p, floor);
    p.take(
        if k > floor {
            k - 1
        } else {
            k
        },
    )
}

/// The path without the empty components and the dots at its end.
pub open spec fn trim_tail(p: Seq<char>, floor: int) -> Seq<char>
    decreases p.len(),
{
    if p.len() <= floor {
        p
    } else {
        let last = p.skip(last_start(p, floor));
        let rest = without_last(p, floor);
        if (last.len() == 0 || last == "."@) && rest.len() < p.len() {
            trim_tail(rest, floor)
        } else {
            p
        }
    }
}

/// The directory that a file stands in: its path without the last component, or
/// the current directory where nothing is left.
pub open spec fn parent_of(p: Seq<char>) -> Seq<char> {
    let floor = head_len(p);
    let full = trim_tail(p, floor);
    if full.len() <= floor {
        "."@
    } else {
        let parent = trim_tail(without_last(full, floor), floor);
        if parent.len() == 0 {
            "."@
        } else {
            parent
        }
    }
}

/// Where the last component begins.
fn find_last(p: &Vec<char>, floor: usize) -> (k: usize)
    requires
        floor <= p.len(),
    ensures
        k == last_start(p@, floor as int),
        floor <= k <= p.len(),
{
    let mut k: usize = p.len();
    assert(p@.take(k as int) =~= p@);
    while k > floor && p[k - 1] != '/'
        invariant
            floor <= k <= p.len(),
            last_start(p@, floor as int) == last_start(p@.take(k as int), floor as int),
        decreases k,
    {
        assert(p@.take(k as int).drop_last() =~= p@.take(k - 1));
        k -= 1;
    }
    k
}

/// The path without its last component.
fn cut_last(p: &Vec<char>, floor: usize) -> (r: Vec<char>)
    requires
        floor <= p.len(),
    ensures
        r@ == without_last(p@, floor as int),
        floor <= r@.len() <= p@.len(),
{
    let k = find_last(p, floor);
    let end = if k > floor {
        k - 1
    } else {
        k
    };
    let r = text::slice(p, 0, end);
    assert(r@ =~= p@.take(end as int));
    r
}

/// The path without the empty components and the dots at its end.
fn cut_tail(p: Vec<char>, floor: usize) -> (r: Vec<char>)
    requires
        floor <= p.len(),
    ensures
        r@ == trim_tail(p@, floor as int),
        floor <= r@.len() <= p@.len(),
{
    let mut r = p;
    while r.len() > floor
        invariant
            floor <= r@.len() <= p@.len(),
            trim_tail(p@, floor as int) == trim_tail(r@, floor as int),
        ensures
            floor <= r@.len() <= p@.len(),
            r@ == trim_tail(p@, floor as int),
        decreases r.len(),
    {
        let k = find_last(&r, floor);
        let last = text::slice(&r, k, r.len());
        assert(last@ =~= r@.skip(k as int));
        let rest = cut_last(&r, floor);
        if (last.len() == 0 || text::same(&last, ".")) && rest.len() < r.len() {
            r = rest;
        } else {
            break ;
        }
    }
    r
}

/// The directory that a file stands in.
pub fn base_dir(path: &str) -> (r: String)
    ensures
        r@ == parent_of(path@),
{
    let p = text::chars_of(path);
    let floor: usize = if p.len() > 0 && (p[0] == '/' || (p[0] == '.' && (p.len() == 1 || p[1]
        == '/'))) {
        1
    } else {
        0
    };
    let full = cut_tail(p, floor);
    if full.len() <= floor {
        return ".".to_owned();
    }
    let parent = cut_tail(cut_last(&full, floor), floor);
    if parent.len() == 0 {
        ".".to_owned()
    } else {
        text::string_of(&parent)
    }
}

/// `n` blanks.
pub open spec fn blanks(n: int) -> Seq<char>
    decreases n,
{
    if n <= 0 {
        Seq::empty()
    } else {
        blanks(n - 1).push(' ')
    }
}

/// The text with blanks behind it, up to a width.
pub open spec fn pad_right(s: Seq<char>, width: int) -> Seq<char> {
    s + blanks(width - s.len())
}

/// The text with blanks before it, up to a width.
pub open spec fn pad_left(s: Seq<char>, width: int) -> Seq<char> {
    blanks(width - s.len()) + s
}

/// Adds blanks.
fn add_blanks(s: &mut String, n: usize)
    ensures
        final(s)@ == old(s)@ + blanks(n as int),
{
    let ghost before = s@;
    let mut i: usize = 0;
    assert(before + blanks(0) =~= before);
    while i < n
        invariant
            i <= n,
            s@ == before + blanks(i as int),
        decreases n - i,
    {
        s.push(' ');
        assert(s@ =~= before + blanks(i + 1));
        i += 1;
    }
}

/// How many blanks a text lacks to a width.
fn room_left(s: &str, width: usize) -> (n: usize)
    ensures
        blanks(n as int) == blanks(width - s@.len()),
{
    let len = s.unicode_len();
    if len < width {
        width - len
    } else {
        0
    }
}

/// How the place of a job in the start order is shown.
pub open spec fn when_text(start_order: usize) -> Seq<char> {
    if start_order == usize::MAX {
        "     "@
    } else {
        "["@ + pad_left(text::decimal(start_order as nat), 2) + "] "@
    }
}

/// The line of a job in the account of a run.
pub open spec fn record_line(r: RecordView) -> Seq<char> {
    "  "@ + when_text(r.start_order) + pad_right(r.name, 20) + " "@ + mark_text(r.status)
}

/// The line of a job in the account of a run.
fn record_text(r: &JobRecord) -> (s: String)
    ensures
        s@ == record_line(r@),
{
    let mut s = "  ".to_owned();
    if r.start_order == usize::MAX {
        s.append("     ");
    } else {
        let number = text::decimal_of(r.start_order as u64);
        let ghost before = s@;
        s.append("[");
        add_blanks(&mut s, room_left(number.as_str(), 2));
        s.append(number.as_str());
        s.append("] ");
        assert(s@ =~= before + when_text(r.start_order));
    }
    let ghost before = s@;
    s.append(r.name.as_str());
    add_blanks(&mut s, room_left(r.name.as_str(), 20));
    assert(s@ =~= before + pad_right(r.name@, 20));
    s.append(" ");
    s.append(mark(r.status));
    s
}

/// The lines of the account of a run, the jobs in the given order.
pub open spec fn run_lines(
    path: Seq<char>,
    jobs: nat,
    records: Seq<RecordView>,
    order: Seq<int>,
) -> Seq<Seq<char>> {
    seq!["relay run: "@ + path + " (--jobs "@ + text::decimal(jobs) + ")"@]
        + order.map_values(|i: int| record_line(records[i])) + seq![
        "summary: "@ + report::summary_of(records),
    ]
}

/// The account of a run.
pub fn run_text(options: &Options, outcome: &Report) -> (s: String)
    ensures
        exists|order: Seq<int>| #[trigger]
            report::is_start_order(outcome@, order) && s@ == text::unlines(
                run_lines(options.path@, options.jobs as nat, outcome@, order),
            ),
{
    let ghost records = outcome@;
    let sorted = outcome.by_start();
    let ghost order = choose|order: Seq<int>| #[trigger]
        report::is_start_order(records, order) && sorted@.len() == order.len() && forall|k: int|
            0 <= k < sorted@.len() ==> *(#[trigger] sorted@[k]) == outcome.jobs@[order[k]];
    let ghost body = order.map_values(|i: int| record_line(records[i]));
    let mut head = "relay run: ".to_owned();
    head.append(options.path.as_str());
    head.append(" (--jobs ");
    head.append(text::decimal_of(options.jobs as u64).as_str());
    head.append(")");
    let mut s = String::new();
    proof {
        reveal_strlit("");
        assert(s@ =~= text::unlines(Seq::empty()));
    }
    printer::write_line(&mut s, head.as_str(), "", "", "", Ghost(Seq::empty()));
    assert(head@ + ""@ + ""@ + ""@ =~= head@);
    let ghost first = Seq::empty().push(head@);
    let mut i: usize = 0;
    assert(first + body.take(0) =~= first);
    while i < sorted.len()
        invariant
            i <= sorted.len(),
            sorted@.len() == order.len(),
            records == outcome@,
            report::is_start_order(records, order),
            forall|k: int|
                0 <= k < sorted@.len() ==> *(#[trigger] sorted@[k]) == outcome.jobs@[order[k]],
            body == order.map_values(|i: int| record_line(records[i])),
            ""@.len() == 0,
            s@ == text::unlines(first + body.take(i as int)),
        decreases sorted.len() - i,
    {
        let line = record_text(sorted[i]);
        printer::write_line(
            &mut s,
            line.as_str(),
            "",
            "",
            "",
            Ghost(first + body.take(i as int)),
        );
        proof {
            assert(line@ + ""@ + ""@ + ""@ =~= line@);
            assert(*sorted@[i as int] == outcome.jobs@[order[i as int]]);
            assert(body[i as int] == line@);
            assert((first + body.take(i as int)).push(line@) =~= first + body.take(i + 1));
        }
        i += 1;
    }
    assert(body.take(i as int) =~= body);
    let summary = outcome.summary();
    printer::write_line(&mut s, "summary: ", summary.as_str(), "", "", Ghost(first + body));
    proof {
        assert("summary: "@ + summary@ + ""@ + ""@ =~= "summary: "@ + summary@);
        assert((first + body).push("summary: "@ + summary@) =~= run_lines(
            options.path@,
            options.jobs as nat,
            records,
            order,
        ));
    }
    s
}

/// The names of the given jobs.
pub open spec fn names_at(jobs: Seq<JobView>, which: Seq<usize>) -> Seq<Seq<char>> {
    which.map_values(|d: usize| jobs[d as int].name)
}

/// The line of a job in the dependency graph.
pub open spec fn graph_line(jobs: Seq<JobView>, i: int) -> Seq<char> {
    if jobs[i].needs.len() == 0 {
        "  "@ + jobs[i].name + " (root)"@
    } else {
        "  "@ + jobs[i].name + " <- "@ + text::join(names_at(jobs, dag::edges(jobs)[i]), ", "@)
    }
}

/// The lines of the dependency graph.
pub open spec fn graph_lines(jobs: Seq<JobView>) -> Seq<Seq<char>> {
    Seq::new(jobs.len(), |i: int| graph_line(jobs, i))
}

/// The line of a wave.
pub open spec fn wave_line(jobs: Seq<JobView>, levels: Seq<usize>, w: int) -> Seq<char> {
    "  wave "@ + text::decimal(w as nat) + ": "@ + text::join(
        names_at(jobs, dag::members(levels, w, levels.len() as int)),
        ", "@,
    )
}

/// The lines of the waves.
pub open spec fn wave_lines(jobs: Seq<JobView>, levels: Seq<usize>) -> Seq<Seq<char>> {
    Seq::new(
        dag::height(levels, levels.len() as int) as nat,
        |w: int| wave_line(jobs, levels, w),
    )
}

/// The lines that show a plan.
pub open spec fn plan_lines(path: Seq<char>, limit: nat, jobs: Seq<JobView>) -> Seq<Seq<char>> {
    seq![
        "plan: "@ + path + " ("@ + text::decimal(jobs.len()) + " jobs, --jobs "@ + text::decimal(
            limit,
        ) + ")"@,
        ""@,
        "dependency graph:"@,
    ] + graph_lines(jobs) + seq![
        ""@,
        "execution waves (dependency order, up to "@ + text::decimal(limit) + " at once):"@,
    ] + wave_lines(jobs, machine::levels_of(dag::edges(jobs)))
}

/// The names of the given jobs, joined.
fn join_names(order: &Vec<String>, which: &Vec<usize>, Ghost(jobs): Ghost<Seq<JobView>>) -> (s:
    String)
    requires
        text::views(order@) == dag::names(jobs),
        forall|k: int| 0 <= k < which@.len() ==> (#[trigger] which@[k]) < jobs.len(),
    ensures
        s@ == text::join(names_at(jobs, which@), ", "@),
{
    let mut names: Vec<String> = Vec::new();
    let mut i: usize = 0;
    assert(dag::names(jobs).len() == order@.len());
    while i < which.len()
        invariant
            i <= which.len(),
            names.len() == i,
            text::views(order@) == dag::names(jobs),
            order@.len() == jobs.len(),
            forall|k: int| 0 <= k < which@.len() ==> (#[trigger] which@[k]) < jobs.len(),
            forall|k: int| 0 <= k < i ==> (#[trigger] names@[k])@ == jobs[which@[k] as int].name,
        decreases which.len() - i,
    {
        let d = which[i];
        assert(text::views(order@)[d as int] == jobs[d as int].name);
        names.push(order[d].clone());
        i += 1;
    }
    assert(text::views(names@) =~= names_at(jobs, which@));
    text::join_strings(&names, ", ")
}

/// Adds the lines of the dependency graph.
fn write_graph(out: &mut String, pipeline: &Pipeline, graph: &Dag, Ghost(lines): Ghost<
    Seq<Seq<char>>,
>)
    requires
        graph.graphs(pipeline@),
        old(out)@ == text::unlines(lines),
    ensures
        final(out)@ == text::unlines(lines + graph_lines(pipeline@)),
{
    let ghost jobs = pipeline@;
    let ghost all = graph_lines(jobs);
    let mut i: usize = 0;
    proof {
        reveal_strlit("");
        assert(lines + all.take(0) =~= lines);
    }
    assert(dag::index_views(graph.deps@).len() == jobs.len());
    while i < pipeline.jobs.len()
        invariant
            i <= pipeline.jobs.len(),
            jobs == pipeline@,
            all == graph_lines(jobs),
            graph.graphs(jobs),
            dag::index_views(graph.deps@).len() == jobs.len(),
            ""@.len() == 0,
            out@ == text::unlines(lines + all.take(i as int)),
        decreases pipeline.jobs.len() - i,
    {
        let job = &pipeline.jobs[i];
        assert(jobs[i as int] == job@);
        let ghost line = graph_line(jobs, i as int);
        if job.needs.len() == 0 {
            printer::write_line(
                out,
                "  ",
                job.name.as_str(),
                " (root)",
                "",
                Ghost(lines + all.take(i as int)),
            );
            assert("  "@ + job.name@ + " (root)"@ + ""@ =~= line);
        } else {
            assert(dag::index_views(graph.deps@)[i as int] == graph.deps@[i as int]@);
            assert forall|k: int| 0 <= k < graph.deps@[i as int]@.len() implies (
            #[trigger] graph.deps@[i as int]@[k]) < jobs.len() by {
                assert(dag::edges(jobs)[i as int].contains(graph.deps@[i as int]@[k]));
            }
            let needs = join_names(&graph.order, &graph.deps[i], Ghost(jobs));
            printer::write_line(
                out,
                "  ",
                job.name.as_str(),
                " <- ",
                needs.as_str(),
                Ghost(lines + all.take(i as int)),
            );
        }
        proof {
            assert(all[i as int] == line);
            assert((lines + all.take(i as int)).push(line) =~= lines + all.take(i + 1));
        }
        i += 1;
    }
    assert(all.take(i as int) =~= all);
}

/// Adds the lines of the waves.
fn write_waves(out: &mut String, graph: &Dag, Ghost(jobs): Ghost<Seq<JobView>>, Ghost(lines): Ghost<
    Seq<Seq<char>>,
>)
    requires
        graph.graphs(jobs),
        graph.layered(),
        old(out)@ == text::unlines(lines),
    ensures
        final(out)@ == text::unlines(lines + wave_lines(jobs, graph.levels@)),
{
    let ghost levels = graph.levels@;
    let ghost all = wave_lines(jobs, levels);
    let waves = graph.waves();
    let total: usize = graph.levels.len();
    let mut w: usize = 0;
    assert(lines + all.take(0) =~= lines);
    while w < waves.len()
        invariant
            w <= waves.len(),
            graph.graphs(jobs),
            levels == graph.levels@,
            levels.len() == jobs.len() == total,
            all == wave_lines(jobs, levels),
            waves@.len() == all.len(),
            forall|k: int|
                0 <= k < waves@.len() ==> (#[trigger] waves@[k])@ == dag::members(
                    levels,
                    k,
                    levels.len() as int,
                ),
            out@ == text::unlines(lines + all.take(w as int)),
        decreases waves.len() - w,
    {
        proof {
            dag::lemma_members(levels, w as int, levels.len() as int);
            assert(waves@[w as int]@ == dag::members(levels, w as int, levels.len() as int));
        }
        let names = join_names(&graph.order, &waves[w], Ghost(jobs));
        printer::write_line(
            out,
            "  wave ",
            text::decimal_of(w as u64).as_str(),
            ": ",
            names.as_str(),
            Ghost(lines + all.take(w as int)),
        );
        proof {
            let line = wave_line(jobs, levels, w as int);
            assert(all[w as int] == line);
            assert((lines + all.take(w as int)).push(line) =~= lines + all.take(w + 1));
        }
        w += 1;
    }
    assert(all.take(w as int) =~= all);
}

/// The text that shows a plan: the graph and the waves.
pub fn plan_text(options: &Options, pipeline: &Pipeline) -> (r: Result<String, Error>)
    ensures
        match r {
            Ok(s) => dag::defect(pipeline@) is None && s@ == text::unlines(
                plan_lines(options.path@, options.jobs as nat, pipeline@),
            ),
            Err(e) => dag::defect(pipeline@) == Some(e@),
        },
{
    let graph = match Dag::build(pipeline) {
        Ok(graph) => graph,
        Err(e) => {
            return Err(e);
        },
    };
    let ghost jobs = pipeline@;
    proof {
        reveal_strlit("");
        machine::lemma_levels_unique(
            dag::edges(jobs),
            graph.levels@,
            machine::levels_of(dag::edges(jobs)),
        );
    }
    let limit = text::decimal_of(options.jobs as u64);
    let mut head = "plan: ".to_owned();
    head.append(options.path.as_str());
    head.append(" (");
    head.append(text::decimal_of(pipeline.jobs.len() as u64).as_str());
    head.append(" jobs, --jobs ");
    head.append(limit.as_str());
    head.append(")");
    let mut s = String::new();
    let ghost mut lines: Seq<Seq<char>> = Seq::empty();
    assert(s@ =~= text::unlines(lines));
    printer::write_line(&mut s, head.as_str(), "", "", "", Ghost(lines));
    proof {
        assert(head@ + ""@ + ""@ + ""@ =~= head@);
        lines = lines.push(head@);
    }
    printer::write_line(&mut s, "", "", "", "", Ghost(lines));
    proof {
        assert(""@ + ""@ + ""@ + ""@ =~= ""@);
        lines = lines.push(""@);
    }
    printer::write_line(&mut s, "dependency graph:", "", "", "", Ghost(lines));
    proof {
        assert("dependency graph:"@ + ""@ + ""@ + ""@ =~= "dependency graph:"@);
        lines = lines.push("dependency graph:"@);
    }
    let ghost top = lines;
    write_graph(&mut s, pipeline, &graph, Ghost(lines));
    proof {
        lines = lines + graph_lines(jobs);
    }
    let ghost middle = lines;
    printer::write_line(&mut s, "", "", "", "", Ghost(lines));
    proof {
        lines = lines.push(""@);
    }
    printer::write_line(
        &mut s,
        "execution waves (dependency order, up to ",
        limit.as_str(),
        " at once):",
        "",
        Ghost(lines),
    );
    let ghost waves_head = "execution waves (dependency order, up to "@ + limit@ + " at once):"@;
    proof {
        assert(waves_head + ""@ =~= waves_head);
        lines = lines.push(waves_head);
    }
    write_waves(&mut s, &graph, Ghost(jobs), Ghost(lines));
    proof {
        assert(top =~= seq![head@, ""@, "dependency graph:"@]);
        assert(lines =~= middle + seq![""@, waves_head]);
    }
    Ok(s)
}

/// The lines that show a dependency graph.
pub open spec fn show_lines(path: Seq<char>, jobs: Seq<JobView>) -> Seq<Seq<char>> {
    seq!["graph: "@ + path] + graph_lines(jobs)
}

/// The text that shows the dependency graph.
pub fn graph_text(options: &Options, pipeline: &Pipeline) -> (r: Result<String, Error>)
    ensures
        match r {
            Ok(s) => dag::defect(pipeline@) is None && s@ == text::unlines(
                show_lines(options.path@, pipeline@),
            ),
            Err(e) => dag::defect(pipeline@) == Some(e@),
        },
{
    let graph = match Dag::build(pipeline) {
        Ok(graph) => graph,
        Err(e) => {
            return Err(e);
        },
    };
    let mut s = String::new();
    proof {
        reveal_strlit("");
        assert(s@ =~= text::unlines(Seq::empty()));
    }
    printer::write_line(&mut s, "graph: ", options.path.as_str(), "", "", Ghost(Seq::empty()));
    let ghost head = "graph: "@ + options.path@;
    assert(head + ""@ + ""@ =~= head);
    write_graph(&mut s, pipeline, &graph, Ghost(Seq::empty().push(head)));
    assert(Seq::empty().push(head) =~= seq![head]);
    Ok(s)
}

} // verus!
