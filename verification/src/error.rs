//! What can go wrong, and how it is told.

use crate::paths::path_bytes;
use crate::paths::readable;
use crate::paths::AbsPath;
use crate::text::debug_list;
use crate::text::debug_text;
use crate::text::quoted;
use crate::text::quoted_list;
use crate::text::texts;
use vstd::prelude::*;

verus! {

#[derive(Debug)]
pub enum Error {
    /// Something outside could not be read or run; the text says what.
    Outside(String),
    /// Neither the directory nor any above it declares a workspace.
    NoWorkspace(AbsPath),
    /// Members that depend on each other in a circle, and those that depend on them, by id.
    Cycle(Vec<String>),
    /// The directory lies outside the workspace with this root.
    NotInWorkspace(AbsPath),
    /// A package, described by a label, has no task of that name.
    NoTask { label: String, task: String },
    /// Arguments were given for a task that is a sequence.
    ArgsForSequence(String),
    /// A filter names no member.
    UnknownFilter(String),
    /// No selected member defines the task.
    NobodyDefines(String),
    /// Invocations, by id, that wait for something that will never happen.
    Unrunnable(Vec<String>),
}

impl Error {
    /// What is told of the error.
    pub open spec fn text(&self) -> Seq<char> {
        match self {
            Error::Outside(text) => text@,
            Error::NoWorkspace(start) =>
                "no uv workspace found: no pyproject.toml with [tool.uv.workspace] in "@
                + readable(path_bytes(start@)) + " or any parent"@,
            Error::Cycle(names) => "dependency cycle among workspace members: "@ + debug_list(
                texts(names@),
            ),
            Error::NotInWorkspace(root) => "current directory is not inside workspace "@
                + readable(path_bytes(root@)),
            Error::NoTask { label, task } => label@ + " has no task "@ + debug_text(task@)
                + " in [tool.ut.tasks]"@,
            Error::ArgsForSequence(task) => "task "@ + debug_text(task@)
                + " is a sequence; passthrough arguments are not supported"@,
            Error::UnknownFilter(filter) => "--filter "@ + debug_text(filter@)
                + " does not match any workspace member"@,
            Error::NobodyDefines(task) => "no workspace member defines task "@ + debug_text(task@),
            Error::Unrunnable(ids) => "internal error: unrunnable invocations: "@ + debug_list(
                texts(ids@),
            ),
        }
    }

    /// What is told of the error.
    pub fn message(&self) -> (text: String)
        ensures
            text@ == self.text(),
    {
        match self {
            Error::Outside(text) => text.clone(),
            Error::NoWorkspace(start) => around(
                "no uv workspace found: no pyproject.toml with [tool.uv.workspace] in ",
                &start.display(),
                " or any parent",
            ),
            Error::Cycle(names) => behind(
                "dependency cycle among workspace members: ",
                &quoted_list(names),
            ),
            Error::NotInWorkspace(root) => behind(
                "current directory is not inside workspace ",
                &root.display(),
            ),
            Error::NoTask { label, task } => {
                let mut text = label.clone();
                text.append(
                    around(" has no task ", &quoted(task.as_str()), " in [tool.ut.tasks]").as_str(),
                );
                proof {
                    assert(text@ =~= self.text());
                }
                text
            },
            Error::ArgsForSequence(task) => around(
                "task ",
                &quoted(task.as_str()),
                " is a sequence; passthrough arguments are not supported",
            ),
            Error::UnknownFilter(filter) => around(
                "--filter ",
                &quoted(filter.as_str()),
                " does not match any workspace member",
            ),
            Error::NobodyDefines(task) => behind(
                "no workspace member defines task ",
                &quoted(task.as_str()),
            ),
            Error::Unrunnable(ids) => behind(
                "internal error: unrunnable invocations: ",
                &quoted_list(ids),
            ),
        }
    }
}

fn behind(head: &str, text: &String) -> (out: String)
    ensures
        out@ == head@ + text@,
{
    let mut out = head.to_owned();
    out.append(text.as_str());
    out
}

fn around(head: &str, text: &String, tail: &str) -> (out: String)
    ensures
        out@ == head@ + text@ + tail@,
{
    let mut out = behind(head, text);
    out.append(tail);
    out
}

/// Exit code of a run that could not be carried out.
pub const FAILURE: i32 = 2;

/// What `report` gives.
pub open spec fn reported(result: Result<i32, Error>, outcome: (i32, Option<String>)) -> bool {
    match result {
        Ok(code) => outcome == (code, None::<String>),
        Err(error) => {
            &&& outcome.0 == FAILURE
            &&& outcome.1 matches Some(line) && line@ == "ut: error: "@ + error.text()
        },
    }
}

/// Turns the result of a command into an exit code and, for an error, the line to tell.
pub fn report(result: Result<i32, Error>) -> (outcome: (i32, Option<String>))
    ensures
        reported(result, outcome),
{
    match result {
        Ok(code) => (code, None),
        Err(error) => (FAILURE, Some(behind("ut: error: ", &error.message()))),
    }
}

/// The part stands somewhere in the text.
pub open spec fn mentions(text: Seq<char>, part: Seq<char>) -> bool {
    exists|i: int|
        0 <= i <= text.len() - part.len() && #[trigger] text.subrange(i, i + part.len()) == part
}

proof fn lemma_mentions(head: Seq<char>, part: Seq<char>, tail: Seq<char>)
    ensures
        mentions(head + part + tail, part),
{
    let text = head + part + tail;
    let i = head.len() as int;
    assert(text.subrange(i, i + part.len()) =~= part);
}

/// What is told of an error names what it is about.
pub proof fn law_errors_name_their_subject(error: Error)
    ensures
        match error {
            Error::Outside(text) => mentions(error.text(), text@),
            Error::NoWorkspace(start) => mentions(error.text(), readable(path_bytes(start@))),
            Error::Cycle(names) => mentions(error.text(), debug_list(texts(names@))),
            Error::NotInWorkspace(root) => mentions(error.text(), readable(path_bytes(root@))),
            Error::NoTask { label, task } => mentions(error.text(), label@) && mentions(
                error.text(),
                debug_text(task@),
            ),
            Error::ArgsForSequence(task) => mentions(error.text(), debug_text(task@)),
            Error::UnknownFilter(filter) => mentions(error.text(), debug_text(filter@)),
            Error::NobodyDefines(task) => mentions(error.text(), debug_text(task@)),
            Error::Unrunnable(ids) => mentions(error.text(), debug_list(texts(ids@))),
        },
{
    let none = Seq::<char>::empty();
    match error {
        Error::Outside(text) => {
            lemma_mentions(none, text@, none);
            assert(none + text@ + none =~= text@);
        },
        Error::NoWorkspace(start) => {
            lemma_mentions(
                "no uv workspace found: no pyproject.toml with [tool.uv.workspace] in "@,
                readable(path_bytes(start@)),
                " or any parent"@,
            );
        },
        Error::Cycle(names) => {
            let head = "dependency cycle among workspace members: "@;
            lemma_mentions(head, debug_list(texts(names@)), none);
            assert(head + debug_list(texts(names@)) + none =~= error.text());
        },
        Error::NotInWorkspace(root) => {
            let head = "current directory is not inside workspace "@;
            lemma_mentions(head, readable(path_bytes(root@)), none);
            assert(head + readable(path_bytes(root@)) + none =~= error.text());
        },
        Error::NoTask { label, task } => {
            let tail = " has no task "@ + debug_text(task@) + " in [tool.ut.tasks]"@;
            lemma_mentions(none, label@, tail);
            assert(none + label@ + tail =~= error.text());
            lemma_mentions(
                label@ + " has no task "@,
                debug_text(task@),
                " in [tool.ut.tasks]"@,
            );
        },
        Error::ArgsForSequence(task) => {
            lemma_mentions(
                "task "@,
                debug_text(task@),
                " is a sequence; passthrough arguments are not supported"@,
            );
        },
        Error::UnknownFilter(filter) => {
            lemma_mentions(
                "--filter "@,
                debug_text(filter@),
                " does not match any workspace member"@,
            );
        },
        Error::NobodyDefines(task) => {
            let head = "no workspace member defines task "@;
            lemma_mentions(head, debug_text(task@), none);
            assert(head + debug_text(task@) + none =~= error.text());
        },
        Error::Unrunnable(ids) => {
            let head = "internal error: unrunnable invocations: "@;
            lemma_mentions(head, debug_list(texts(ids@)), none);
            assert(head + debug_list(texts(ids@)) + none =~= error.text());
        },
    }
}

/// A result is passed on as the exit code, without a word. An error gives exit code 2 and a line
/// that begins with the name of the program and ends with what is told of the error.
pub proof fn law_errors_exit_with_two(result: Result<i32, Error>, outcome: (i32, Option<String>))
    requires
        reported(result, outcome),
    ensures
        result matches Ok(code) ==> outcome.0 == code && outcome.1 is None,
        result matches Err(error) ==> {
            &&& outcome.0 == 2
            &&& outcome.1 matches Some(line)
            &&& line@.take(4) == seq!['u', 't', ':', ' ']
            &&& line@.skip(line@.len() - error.text().len()) == error.text()
        },
{
    if let Err(error) = result {
        let head = "ut: error: "@;
        reveal_strlit("ut: error: ");
        let line = outcome.1->Some_0@;
        assert(line.take(4) =~= seq!['u', 't', ':', ' ']);
        assert(line.skip(line.len() - error.text().len()) =~= error.text());
    }
}

/// What is told of an error begins with what is wrong.
pub proof fn law_errors_say_what_is_wrong(error: Error)
    ensures
        error is NoWorkspace ==> "no uv workspace found"@.is_prefix_of(error.text()),
        error is Cycle ==> "dependency cycle"@.is_prefix_of(error.text()),
        error is NotInWorkspace ==> "current directory is not inside"@.is_prefix_of(error.text()),
        error is NoTask ==> mentions(error.text(), " has no task "@),
        error is ArgsForSequence ==> mentions(error.text(), " is a sequence"@),
        error is UnknownFilter ==> "--filter "@.is_prefix_of(error.text()) && mentions(
            error.text(),
            " does not match"@,
        ),
        error is NobodyDefines ==> "no workspace member defines"@.is_prefix_of(error.text()),
        error is Unrunnable ==> "internal error: unrunnable"@.is_prefix_of(error.text()),
{
    let text = error.text();
    reveal_strlit("no uv workspace found");
    reveal_strlit("no uv workspace found: no pyproject.toml with [tool.uv.workspace] in ");
    reveal_strlit("dependency cycle");
    reveal_strlit("dependency cycle among workspace members: ");
    reveal_strlit("current directory is not inside");
    reveal_strlit("current directory is not inside workspace ");
    reveal_strlit("no workspace member defines");
    reveal_strlit("no workspace member defines task ");
    reveal_strlit("internal error: unrunnable");
    reveal_strlit("internal error: unrunnable invocations: ");
    reveal_strlit(" is a sequence");
    reveal_strlit(" is a sequence; passthrough arguments are not supported");
    reveal_strlit(" does not match");
    reveal_strlit(" does not match any workspace member");
    match error {
        Error::NoWorkspace(_) => {
            let head = "no uv workspace found"@;
            assert(head =~= text.subrange(0, head.len() as int));
        },
        Error::Cycle(_) => {
            let head = "dependency cycle"@;
            assert(head =~= text.subrange(0, head.len() as int));
        },
        Error::NotInWorkspace(_) => {
            let head = "current directory is not inside"@;
            assert(head =~= text.subrange(0, head.len() as int));
        },
        Error::NobodyDefines(_) => {
            let head = "no workspace member defines"@;
            assert(head =~= text.subrange(0, head.len() as int));
        },
        Error::Unrunnable(_) => {
            let head = "internal error: unrunnable"@;
            assert(head =~= text.subrange(0, head.len() as int));
        },
        Error::NoTask { label, task } => {
            let tail = debug_text(task@) + " in [tool.ut.tasks]"@;
            lemma_mentions(label@, " has no task "@, tail);
            assert(label@ + " has no task "@ + tail =~= text);
        },
        Error::ArgsForSequence(task) => {
            lemma_words_inside(
                "task "@ + debug_text(task@),
                " is a sequence; passthrough arguments are not supported"@,
                " is a sequence"@,
            );
        },
        Error::UnknownFilter(filter) => {
            let head = "--filter "@;
            lemma_words_inside(
                head + debug_text(filter@),
                " does not match any workspace member"@,
                " does not match"@,
            );
            assert(head =~= text.subrange(0, head.len() as int));
        },
        Error::Outside(_) => {},
    }
}

proof fn lemma_words_inside(head: Seq<char>, tail: Seq<char>, words: Seq<char>)
    requires
        words.is_prefix_of(tail),
    ensures
        mentions(head + tail, words),
{
    let i = head.len() as int;
    assert((head + tail).subrange(i, i + words.len()) =~= words);
}

} // verus!
