//! Running the steps of a task, one after another.

use crate::error::Error;
use crate::names::NameSet;
use crate::paths::law_path_round_trip;
use crate::paths::path_bytes;
use crate::paths::rows;
use crate::paths::split_path;
use crate::paths::valid_parts;
use crate::paths::AbsPath;
use crate::style::paint;
use crate::style::painted;
use crate::style::Color;
use crate::text::decimal;
use crate::text::decimal_of;
use vstd::prelude::*;
use vstd::utf8::decode_utf8;
use vstd::utf8::encode_utf8;
use vstd::utf8::encode_utf8_decode_utf8;

verus! {

/// One member's task run within a `-w` invocation.
#[derive(Debug)]
pub struct Invocation {
    pub id: String,
    pub dir: AbsPath,
    pub steps: Vec<String>,
    /// Ids of other invocations that must succeed before this one starts.
    pub deps: NameSet,
}

/// How a step ended.
#[derive(Debug)]
pub enum StepEnd {
    /// It could not be started.
    NotSpawned(String),
    /// It ended with an exit code, or by a signal.
    Exited(Option<i32>),
    /// It was started, but waiting for its end failed.
    WaitFailed(String),
}

impl StepEnd {
    pub open spec fn success(&self) -> bool {
        *self == StepEnd::Exited(Some(0))
    }

    pub fn is_success(&self) -> (yes: bool)
        ensures
            yes == self.success(),
    {
        matches!(self, StepEnd::Exited(Some(0)))
    }
}

/// What comes next in a sequence of steps.
#[derive(Clone, Copy, PartialEq, Eq, Structural, Debug)]
pub enum Next {
    /// The step at this place.
    Run(usize),
    /// Nothing: the step at this place did not succeed.
    Stopped(usize),
    /// Nothing: all steps succeeded.
    Done,
}

/// The first of the ends that is no success.
pub open spec fn first_failure(ends: Seq<StepEnd>, i: int) -> bool {
    &&& 0 <= i < ends.len()
    &&& !ends[i].success()
    &&& forall|k: int| 0 <= k < i ==> (#[trigger] ends[k]).success()
}

pub open spec fn some_failure(ends: Seq<StepEnd>) -> bool {
    exists|i: int| #[trigger] first_failure(ends, i)
}

/// Given how the steps so far ended: the next of `count` steps, unless one did not succeed.
pub open spec fn next_of(count: nat, ends: Seq<StepEnd>) -> Next {
    if some_failure(ends) {
        Next::Stopped((choose|i: int| #[trigger] first_failure(ends, i)) as usize)
    } else if ends.len() < count {
        Next::Run(ends.len() as usize)
    } else {
        Next::Done
    }
}

proof fn lemma_first_failure_unique(ends: Seq<StepEnd>, i: int, j: int)
    requires
        first_failure(ends, i),
        first_failure(ends, j),
    ensures
        i == j,
{
    if j < i {
        assert(ends[j].success());
    }
    if i < j {
        assert(ends[i].success());
    }
}

/// Given how the steps so far ended: the next of `count` steps, unless one did not succeed.
pub fn next_step(count: usize, ends: &Vec<StepEnd>) -> (next: Next)
    ensures
        next == next_of(count as nat, ends@),
        next matches Next::Stopped(i) ==> first_failure(ends@, i as int),
        next matches Next::Run(i) ==> i == ends@.len() && i < count,
{
    let mut i: usize = 0;
    while i < ends.len()
        invariant
            i <= ends@.len(),
            forall|k: int| 0 <= k < i ==> (#[trigger] ends@[k]).success(),
        decreases ends.len() - i,
    {
        if !ends[i].is_success() {
            proof {
                assert(first_failure(ends@, i as int));
                let j = choose|j: int| #[trigger] first_failure(ends@, j);
                lemma_first_failure_unique(ends@, i as int, j);
            }
            return Next::Stopped(i);
        }
        i += 1;
    }
    proof {
        if some_failure(ends@) {
            let j = choose|j: int| #[trigger] first_failure(ends@, j);
            assert(ends@[j].success());
        }
    }
    if i < count {
        Next::Run(i)
    } else {
        Next::Done
    }
}

/// A sequence stops at the first failure: once a step did not succeed, no step runs any more.
pub proof fn law_stops_at_first_failure(count: nat, ends: Seq<StepEnd>, more: Seq<StepEnd>, i: int)
    requires
        0 <= i < ends.len() <= usize::MAX,
        !ends[i].success(),
    ensures
        next_of(count, ends) is Stopped,
        next_of(count, ends + more) == next_of(count, ends),
    decreases i,
{
    if forall|k: int| 0 <= k < i ==> (#[trigger] ends[k]).success() {
        let all = ends + more;
        assert(first_failure(ends, i));
        assert(all[i] == ends[i]);
        assert forall|k: int| 0 <= k < i implies (#[trigger] all[k]).success() by {
            assert(all[k] == ends[k]);
        }
        assert(first_failure(all, i));
        lemma_first_failure_unique(ends, i, choose|j: int| #[trigger] first_failure(ends, j));
        lemma_first_failure_unique(all, i, choose|j: int| #[trigger] first_failure(all, j));
    } else {
        let k = choose|k: int| 0 <= k < i && !(#[trigger] ends[k]).success();
        law_stops_at_first_failure(count, ends, more, k);
    }
}

/// The exit code for a step that did not succeed.
pub open spec fn exit_code(code: Option<i32>) -> i32 {
    match code {
        Some(code) => code,
        None => 1,
    }
}

pub open spec fn spawn_failure(cause: Seq<char>) -> Seq<char> {
    "failed to spawn uv; is it on PATH?: "@ + cause
}

/// How far a run in a single package has come.
#[derive(Debug)]
pub enum LocalProgress {
    Run(usize),
    Finished(Result<i32, Error>),
}

/// What a run in a single package comes to after steps that ended like this.
pub open spec fn local_follows(count: nat, ends: Seq<StepEnd>, progress: LocalProgress) -> bool {
    match next_of(count, ends) {
        Next::Run(i) => progress == LocalProgress::Run(i),
        Next::Done => progress == LocalProgress::Finished(Ok::<i32, Error>(0)),
        Next::Stopped(i) => match ends[i as int] {
            StepEnd::Exited(code) => progress == LocalProgress::Finished(
                Ok::<i32, Error>(exit_code(code)),
            ),
            StepEnd::NotSpawned(cause) | StepEnd::WaitFailed(cause) => progress matches
                LocalProgress::Finished(Err(Error::Outside(text))) && text@ == spawn_failure(
                cause@,
            ),
        },
    }
}

/// What to do next in a run in a single package: the exit code is that of the step that did not
/// succeed, 1 for one that was ended by a signal, and 0 if all steps succeeded.
pub fn local_progress(count: usize, ends: &Vec<StepEnd>) -> (progress: LocalProgress)
    ensures
        local_follows(count as nat, ends@, progress),
{
    match next_step(count, ends) {
        Next::Run(i) => LocalProgress::Run(i),
        Next::Done => LocalProgress::Finished(Ok(0)),
        Next::Stopped(i) => match &ends[i] {
            StepEnd::Exited(Some(code)) => LocalProgress::Finished(Ok(*code)),
            StepEnd::Exited(None) => LocalProgress::Finished(Ok(1)),
            StepEnd::NotSpawned(cause) | StepEnd::WaitFailed(cause) => {
                let mut text = "failed to spawn uv; is it on PATH?: ".to_owned();
                text.append(cause.as_str());
                LocalProgress::Finished(Err(Error::Outside(text)))
            },
        },
    }
}

/// The line that tells, behind the prefix of a member, why its step did not succeed.
pub open spec fn failure_text(prefix: Seq<char>, end: StepEnd, color: bool) -> Seq<char> {
    match end {
        StepEnd::NotSpawned(cause) => prefix + "failed to spawn uv: "@ + cause@,
        StepEnd::Exited(code) => prefix + painted("✗"@, Color::Red, color) + " exited with "@
            + match code {
            Some(code) => decimal(code as int),
            None => "signal"@,
        },
        StepEnd::WaitFailed(cause) => prefix + "wait failed: "@ + cause@,
    }
}

/// Tells why a step did not succeed.
fn failure_line(prefix: &str, end: &StepEnd, color: bool) -> (line: String)
    ensures
        line@ == failure_text(prefix@, *end, color),
{
    let mut line = prefix.to_owned();
    match end {
        StepEnd::NotSpawned(cause) => {
            line.append("failed to spawn uv: ");
            line.append(cause.as_str());
        },
        StepEnd::Exited(code) => {
            line.append(paint("✗", Color::Red, color).as_str());
            line.append(" exited with ");
            match code {
                Some(code) => line.append(decimal_of(*code).as_str()),
                None => line.append("signal"),
            }
        },
        StepEnd::WaitFailed(cause) => {
            line.append("wait failed: ");
            line.append(cause.as_str());
        },
    }
    line
}

/// How far one invocation of a workspace run has come.
#[derive(Debug)]
pub enum StreamedProgress {
    Run(usize),
    Succeeded,
    /// A step did not succeed; the line says why.
    Failed(String),
}

/// What an invocation of a workspace run comes to after steps that ended like this.
pub open spec fn streamed_follows(
    prefix: Seq<char>,
    count: nat,
    ends: Seq<StepEnd>,
    color: bool,
    progress: StreamedProgress,
) -> bool {
    match next_of(count, ends) {
        Next::Run(i) => progress == StreamedProgress::Run(i),
        Next::Done => progress == StreamedProgress::Succeeded,
        Next::Stopped(i) => progress matches StreamedProgress::Failed(line) && line@
            == failure_text(prefix, ends[i as int], color),
    }
}

/// What to do next in one invocation of a workspace run.
pub fn streamed_progress(
    prefix: &str,
    count: usize,
    ends: &Vec<StepEnd>,
    color: bool,
) -> (progress: StreamedProgress)
    ensures
        streamed_follows(prefix@, count as nat, ends@, color, progress),
{
    match next_step(count, ends) {
        Next::Run(i) => StreamedProgress::Run(i),
        Next::Done => StreamedProgress::Succeeded,
        Next::Stopped(i) => StreamedProgress::Failed(failure_line(prefix, &ends[i], color)),
    }
}

/// A line of output behind a prefix.
pub open spec fn prefixed_line(prefix: Seq<char>, line: Seq<char>) -> Seq<char> {
    prefix + line
}

/// A line of output behind the prefix of a member.
pub fn prefixed(prefix: &str, line: &str) -> (out: String)
    ensures
        out@ == prefixed_line(prefix@, line@),
{
    let mut out = prefix.to_owned();
    out.append(line);
    out
}

/// The arguments for `uv` to run a step in a directory.
pub open spec fn uv_arguments(dir: Seq<Seq<u8>>, step: Seq<char>) -> Seq<Seq<u8>> {
    seq![
        encode_utf8("run"@),
        encode_utf8("--directory"@),
        path_bytes(dir),
        encode_utf8("--"@),
        encode_utf8("sh"@),
        encode_utf8("-c"@),
        encode_utf8(step),
    ]
}

fn bytes_of(text: &str) -> (bytes: Vec<u8>)
    ensures
        bytes@ == encode_utf8(text@),
{
    vstd::slice::slice_to_vec(text.as_bytes())
}

/// The arguments for `uv` to run a step through `sh -c` in a directory.
pub fn uv_args(dir: &AbsPath, step: &str) -> (args: Vec<Vec<u8>>)
    ensures
        rows(args@) == uv_arguments(dir@, step@),
{
    let mut args: Vec<Vec<u8>> = Vec::new();
    args.push(bytes_of("run"));
    args.push(bytes_of("--directory"));
    args.push(dir.to_bytes());
    args.push(bytes_of("--"));
    args.push(bytes_of("sh"));
    args.push(bytes_of("-c"));
    args.push(bytes_of(step));
    proof {
        assert(rows(args@) =~= uv_arguments(dir@, step@));
    }
    args
}

/// Only exit code 0 is a success: not another code, not the end by a signal, and not a step that
/// could not be started or waited for.
pub proof fn law_only_zero_is_success(code: i32, cause: String)
    ensures
        StepEnd::Exited(Some(code)).success() <==> code == 0,
        !StepEnd::Exited(None).success(),
        !StepEnd::NotSpawned(cause).success(),
        !StepEnd::WaitFailed(cause).success(),
{
}

/// Steps run one after another, from the first to the last, as long as each exits with 0.
pub proof fn law_steps_run_in_order(count: nat, ends: Seq<StepEnd>)
    requires
        count <= usize::MAX,
        ends.len() <= count,
        forall|i: int| 0 <= i < ends.len() ==> #[trigger] ends[i] == StepEnd::Exited(Some(0)),
    ensures
        ends.len() < count ==> next_of(count, ends) == Next::Run(ends.len() as usize),
        ends.len() == count ==> next_of(count, ends) == Next::Done,
{
    if some_failure(ends) {
        let i = choose|i: int| #[trigger] first_failure(ends, i);
        assert(ends[i] == StepEnd::Exited(Some(0)));
    }
}

/// A run in a package ends with the code of the first step that did not exit with 0, whatever
/// steps were still to come and whatever is said of later ones: with that code, with 1 where a
/// signal ended the step, and with an error that tells the cause where the step did not run.
pub proof fn law_local_run_ends_with_first_failure(
    count: nat,
    ends: Seq<StepEnd>,
    i: int,
    progress: LocalProgress,
)
    requires
        0 <= i < ends.len() <= usize::MAX,
        forall|k: int| 0 <= k < i ==> #[trigger] ends[k] == StepEnd::Exited(Some(0)),
        ends[i] != StepEnd::Exited(Some(0)),
        local_follows(count, ends, progress),
    ensures
        ends[i] matches StepEnd::Exited(Some(code)) ==> progress matches LocalProgress::Finished(
            Ok(told),
        ) && told == code && told != 0,
        ends[i] matches StepEnd::Exited(None) ==> progress matches LocalProgress::Finished(Ok(told))
            && told == 1,
        ends[i] matches StepEnd::NotSpawned(cause) ==> progress matches LocalProgress::Finished(
            Err(Error::Outside(text)),
        ) && ends_with(text@, cause@),
        ends[i] matches StepEnd::WaitFailed(cause) ==> progress matches LocalProgress::Finished(
            Err(Error::Outside(text)),
        ) && ends_with(text@, cause@),
{
    lemma_stopped_at(count, ends, i);
    if let StepEnd::NotSpawned(cause) = ends[i] {
        lemma_ends_with("failed to spawn uv; is it on PATH?: "@, cause@);
    }
    if let StepEnd::WaitFailed(cause) = ends[i] {
        lemma_ends_with("failed to spawn uv; is it on PATH?: "@, cause@);
    }
}

proof fn lemma_stopped_at(count: nat, ends: Seq<StepEnd>, i: int)
    requires
        0 <= i < ends.len() <= usize::MAX,
        forall|k: int| 0 <= k < i ==> #[trigger] ends[k] == StepEnd::Exited(Some(0)),
        ends[i] != StepEnd::Exited(Some(0)),
    ensures
        next_of(count, ends) == Next::Stopped(i as usize),
{
    assert(first_failure(ends, i));
    lemma_first_failure_unique(ends, i, choose|j: int| #[trigger] first_failure(ends, j));
}

/// A run in a package ends well only if every step exited with 0, and runs on only after such
/// steps.
pub proof fn law_local_run_succeeds_only_after_all(
    count: nat,
    ends: Seq<StepEnd>,
    progress: LocalProgress,
    i: int,
)
    requires
        ends.len() <= usize::MAX,
        count <= usize::MAX,
        local_follows(count, ends, progress),
        progress == LocalProgress::Finished(Ok::<i32, Error>(0)) || progress is Run,
        0 <= i < ends.len(),
    ensures
        ends[i] == StepEnd::Exited(Some(0)),
        progress is Run ==> progress->Run_0 == ends.len() && ends.len() < count,
        progress is Finished ==> ends.len() >= count,
    decreases i,
{
    if ends[i] != StepEnd::Exited(Some(0)) {
        if forall|k: int| 0 <= k < i ==> #[trigger] ends[k] == StepEnd::Exited(Some(0)) {
            law_local_run_ends_with_first_failure(count, ends, i, progress);
        } else {
            let k = choose|k: int| 0 <= k < i && #[trigger] ends[k] != StepEnd::Exited(Some(0));
            law_local_run_succeeds_only_after_all(count, ends, progress, k);
        }
    }
    if some_failure(ends) {
        let j = choose|j: int| #[trigger] first_failure(ends, j);
        assert forall|k: int| 0 <= k < j implies #[trigger] ends[k] == StepEnd::Exited(
            Some(0),
        ) by {
            assert(ends[k].success());
        }
        law_local_run_ends_with_first_failure(count, ends, j, progress);
    }
}

/// An invocation of a workspace run succeeds exactly when a run in the package would end with 0,
/// fails when that would end otherwise, and runs the same steps.
pub proof fn law_streamed_run_agrees_with_local(
    prefix: Seq<char>,
    count: nat,
    ends: Seq<StepEnd>,
    color: bool,
    streamed: StreamedProgress,
    local: LocalProgress,
)
    requires
        ends.len() <= usize::MAX,
        streamed_follows(prefix, count, ends, color, streamed),
        local_follows(count, ends, local),
    ensures
        streamed is Succeeded <==> local == LocalProgress::Finished(Ok::<i32, Error>(0)),
        streamed is Run <==> local is Run,
        streamed is Run ==> streamed->Run_0 == local->Run_0,
{
    if some_failure(ends) {
        let j = choose|j: int| #[trigger] first_failure(ends, j);
        assert forall|k: int| 0 <= k < j implies #[trigger] ends[k] == StepEnd::Exited(
            Some(0),
        ) by {
            assert(ends[k].success());
        }
        lemma_stopped_at(count, ends, j);
        law_local_run_ends_with_first_failure(count, ends, j, local);
    }
}

/// The text ends with `tail`.
pub open spec fn ends_with(text: Seq<char>, tail: Seq<char>) -> bool {
    tail.len() <= text.len() && text.skip(text.len() - tail.len()) == tail
}

proof fn lemma_ends_with(head: Seq<char>, tail: Seq<char>)
    ensures
        ends_with(head + tail, tail),
{
    assert((head + tail).skip(head.len() as int) =~= tail);
}

/// The line about a step that did not succeed stands behind the prefix of its member and ends with
/// what happened: the exit code, behind a red cross, or the cause.
pub proof fn law_failure_line_tells_what_happened(
    prefix: Seq<char>,
    code: i32,
    cause: String,
    color: bool,
)
    ensures
        (prefix + painted("✗"@, Color::Red, color)).is_prefix_of(
            failure_text(prefix, StepEnd::Exited(Some(code)), color),
        ),
        ends_with(
            failure_text(prefix, StepEnd::Exited(Some(code)), color),
            " exited with "@ + decimal(code as int),
        ),
        ends_with(
            failure_text(prefix, StepEnd::Exited(None), color),
            " exited with "@ + "signal"@,
        ),
        prefix.is_prefix_of(failure_text(prefix, StepEnd::NotSpawned(cause), color)),
        ends_with(failure_text(prefix, StepEnd::NotSpawned(cause), color), cause@),
        prefix.is_prefix_of(failure_text(prefix, StepEnd::WaitFailed(cause), color)),
        ends_with(failure_text(prefix, StepEnd::WaitFailed(cause), color), cause@),
{
    let mark = painted("✗"@, Color::Red, color);
    let exited = " exited with "@;
    let one = failure_text(prefix, StepEnd::Exited(Some(code)), color);
    let two = failure_text(prefix, StepEnd::Exited(None), color);
    assert(one =~= prefix + mark + (exited + decimal(code as int)));
    assert(two =~= prefix + mark + (exited + "signal"@));
    lemma_ends_with(prefix + mark, exited + decimal(code as int));
    lemma_ends_with(prefix + mark, exited + "signal"@);
    lemma_ends_with(prefix + "failed to spawn uv: "@, cause@);
    lemma_ends_with(prefix + "wait failed: "@, cause@);
    assert(prefix + mark =~= one.subrange(0, (prefix + mark).len() as int));
    assert(prefix =~= failure_text(prefix, StepEnd::NotSpawned(cause), color).subrange(
        0,
        prefix.len() as int,
    ));
    assert(prefix =~= failure_text(prefix, StepEnd::WaitFailed(cause), color).subrange(
        0,
        prefix.len() as int,
    ));
}

/// Of the arguments for `uv`, the third leads back to the directory, the last is the step as it
/// stands, and the others do not depend on either.
pub proof fn law_uv_gets_directory_and_step(
    dir: Seq<Seq<u8>>,
    step: Seq<char>,
    other_dir: Seq<Seq<u8>>,
    other_step: Seq<char>,
)
    requires
        valid_parts(dir),
    ensures
        uv_arguments(dir, step).len() == 7,
        split_path(uv_arguments(dir, step)[2]) == dir,
        decode_utf8(uv_arguments(dir, step)[6]) == step,
        decode_utf8(uv_arguments(dir, step)[0]) == "run"@,
        decode_utf8(uv_arguments(dir, step)[1]) == "--directory"@,
        decode_utf8(uv_arguments(dir, step)[3]) == "--"@,
        decode_utf8(uv_arguments(dir, step)[4]) == "sh"@,
        decode_utf8(uv_arguments(dir, step)[5]) == "-c"@,
        forall|i: int|
            0 <= i < 7 && i != 2 && i != 6 ==> #[trigger] uv_arguments(dir, step)[i]
                == uv_arguments(other_dir, other_step)[i],
{
    law_path_round_trip(dir);
    encode_utf8_decode_utf8(step);
    encode_utf8_decode_utf8("run"@);
    encode_utf8_decode_utf8("--directory"@);
    encode_utf8_decode_utf8("--"@);
    encode_utf8_decode_utf8("sh"@);
    encode_utf8_decode_utf8("-c"@);
}

/// Whatever came before it, a step that exited with another code than 0 stops the run: at that step
/// or at an earlier one.
pub proof fn law_any_failure_stops(count: nat, ends: Seq<StepEnd>, i: int, code: i32)
    requires
        0 <= i < ends.len() <= usize::MAX,
        ends[i] == StepEnd::Exited(Some(code)),
        code != 0,
    ensures
        next_of(count, ends) matches Next::Stopped(at) && at <= i,
{
    lemma_first_failure_below(count, ends, i);
}

proof fn lemma_first_failure_below(count: nat, ends: Seq<StepEnd>, i: int)
    requires
        0 <= i < ends.len() <= usize::MAX,
        ends[i] != StepEnd::Exited(Some(0)),
    ensures
        next_of(count, ends) matches Next::Stopped(at) && at <= i,
    decreases i,
{
    if forall|k: int| 0 <= k < i ==> #[trigger] ends[k] == StepEnd::Exited(Some(0)) {
        lemma_stopped_at(count, ends, i);
    } else {
        let k = choose|k: int| 0 <= k < i && #[trigger] ends[k] != StepEnd::Exited(Some(0));
        lemma_first_failure_below(count, ends, k);
    }
}

/// A line of output stays whole behind the prefix, which stays whole too, with nothing between.
pub proof fn law_output_stays_whole(prefix: Seq<char>, line: Seq<char>)
    ensures
        prefixed_line(prefix, line).len() == prefix.len() + line.len(),
        prefix.is_prefix_of(prefixed_line(prefix, line)),
        ends_with(prefixed_line(prefix, line), line),
{
    lemma_ends_with(prefix, line);
    assert(prefix =~= prefixed_line(prefix, line).subrange(0, prefix.len() as int));
}

} // verus!
