//! Every way a pipeline can be rejected before or during a run.

use vstd::prelude::*;
use vstd::string::*;

use crate::text;

verus! {

/// Every way a pipeline can be rejected before or during a run.
#[derive(Debug)]
pub enum Error {
    Parse { line: usize, msg: String },
    DuplicateJob(String),
    MissingDependency { job: String, needs: String },
    Cycle(Vec<String>),
    /// A failed read or write, with the text that describes it.
    Io(String),
}

/// What an [`Error`] says.
pub enum ErrorView {
    Parse { line: nat, msg: Seq<char> },
    DuplicateJob(Seq<char>),
    MissingDependency { job: Seq<char>, needs: Seq<char> },
    Cycle(Seq<Seq<char>>),
    Io(Seq<char>),
}

impl View for Error {
    type V = ErrorView;

    open spec fn view(&self) -> ErrorView {
        match *self {
            Error::Parse { line, msg } => ErrorView::Parse { line: line as nat, msg: msg@ },
            Error::DuplicateJob(name) => ErrorView::DuplicateJob(name@),
            Error::MissingDependency { job, needs } => ErrorView::MissingDependency {
                job: job@,
                needs: needs@,
            },
            Error::Cycle(nodes) => ErrorView::Cycle(text::views(nodes@)),
            Error::Io(msg) => ErrorView::Io(msg@),
        }
    }
}

impl ErrorView {
    /// The message shown to a user.
    pub open spec fn message(self) -> Seq<char> {
        match self {
            ErrorView::Parse { line, msg } => "parse error on line "@ + text::decimal(line)
                + ": "@ + msg,
            ErrorView::DuplicateJob(name) => "duplicate job name: "@ + name,
            ErrorView::MissingDependency { job, needs } => "job '"@ + job + "' needs '"@ + needs
                + "', which is not defined"@,
            ErrorView::Cycle(nodes) => "dependency cycle among jobs: "@ + text::join(nodes, ", "@),
            ErrorView::Io(msg) => "io error: "@ + msg,
        }
    }
}

impl Error {
    pub(crate) fn parse(line: usize, msg: String) -> (e: Self)
        ensures
            e@ == (ErrorView::Parse { line: line as nat, msg: msg@ }),
    {
        Error::Parse { line, msg }
    }

    /// The message shown to a user.
    pub fn to_string(&self) -> (s: String)
        ensures
            s@ == self@.message(),
    {
        match self {
            Error::Parse { line, msg } => {
                let mut s = "parse error on line ".to_owned();
                s.append(text::decimal_of(*line as u64).as_str());
                s.append(": ");
                s.append(msg.as_str());
                s
            },
            Error::DuplicateJob(name) => {
                let mut s = "duplicate job name: ".to_owned();
                s.append(name.as_str());
                s
            },
            Error::MissingDependency { job, needs } => {
                let mut s = "job '".to_owned();
                s.append(job.as_str());
                s.append("' needs '");
                s.append(needs.as_str());
                s.append("', which is not defined");
                s
            },
            Error::Cycle(nodes) => {
                let mut s = "dependency cycle among jobs: ".to_owned();
                s.append(text::join_strings(nodes, ", ").as_str());
                s
            },
            Error::Io(msg) => {
                let mut s = "io error: ".to_owned();
                s.append(msg.as_str());
                s
            },
        }
    }
}

/// What a message says: where a parse error is and what it is about, the name that is
/// taken, both jobs of a need that is not met in that order, every job on a cycle in
/// order, and the text of a failed read or write as it is.
pub proof fn law_messages(
    line: nat,
    msg: Seq<char>,
    job: Seq<char>,
    needs: Seq<char>,
    nodes: Seq<Seq<char>>,
)
    ensures
        (ErrorView::Parse { line, msg }).message() == "parse error on line "@ + text::decimal(line)
            + ": "@ + msg,
        ErrorView::DuplicateJob(job).message() == "duplicate job name: "@ + job,
        (ErrorView::MissingDependency { job, needs }).message() == "job '"@ + job + "' needs '"@
            + needs + "', which is not defined"@,
        ErrorView::Cycle(seq![job]).message() == "dependency cycle among jobs: "@ + job,
        nodes.len() > 0 ==> ErrorView::Cycle(nodes.push(job)).message() == ErrorView::Cycle(
            nodes,
        ).message() + ", "@ + job,
        ErrorView::Io(msg).message() == "io error: "@ + msg,
{
    let comma = ", "@;
    assert(text::join(seq![job], comma) =~= job);
    if nodes.len() > 0 {
        assert(nodes.push(job).drop_last() =~= nodes);
        assert(text::join(nodes.push(job), comma) =~= text::join(nodes, comma) + comma + job);
        assert(ErrorView::Cycle(nodes.push(job)).message() =~= ErrorView::Cycle(nodes).message()
            + comma + job);
    }
}

} // verus!
