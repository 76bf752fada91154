//! Running a command inside a root: what is handed to the helper process, what its output comes
//! to, and what is said of how it ended.
//!
//! A command never runs in this process. A helper is started with [`HELPER_ARG`], the root, the
//! program and its arguments; it enters the root and becomes the program.

use vstd::prelude::*;
use vstd::slice::slice_subrange;
use vstd::utf8::{
    decode_utf8, decode_utf8_encode_utf8, encode_utf8, encode_utf8_decode_utf8,
    encode_utf8_valid_utf8, valid_utf8,
};

use crate::bytes::{
    bare, bare_lines, byte_lines, complete, lemma_bare_push, lines_can_be_cut_before_decoding,
    partial, text_in, without_return,
};
use crate::text;

verus! {

broadcast use crate::text::group_lists;

/// The first argument that makes the program act as the helper.
pub const HELPER_ARG: &'static str = "__exec-in-root";

/// The umask a command runs with.
pub const CHILD_UMASK: u32 = 0o022;

/// How much of a command's output is kept.
pub const MAX_OUTPUT_BYTES: usize = 1_048_576;

/// How a command ended.
#[derive(Clone, Debug, Eq, PartialEq)]
pub enum Status {
    /// It exited with a status.
    Exited(i32),
    /// A signal killed it.
    Signalled(i32),
    /// It never ran, and why.
    NotStarted(String),
}

/// What a [`Status`] holds.
pub enum StatusView {
    /// [`Status::Exited`].
    Exited(i32),
    /// [`Status::Signalled`].
    Signalled(i32),
    /// [`Status::NotStarted`].
    NotStarted(Seq<char>),
}

impl View for Status {
    type V = StatusView;

    open spec fn view(&self) -> StatusView {
        match self {
            Status::Exited(code) => StatusView::Exited(*code),
            Status::Signalled(signal) => StatusView::Signalled(*signal),
            Status::NotStarted(reason) => StatusView::NotStarted(reason@),
        }
    }
}

/// What running a command produced.
#[derive(Clone, Debug)]
pub struct Outcome {
    /// How it ended.
    pub status: Status,
    /// Its merged stdout and stderr, split into lines.
    pub output: Vec<String>,
    /// Whether output was dropped for exceeding [`MAX_OUTPUT_BYTES`].
    pub truncated: bool,
}

impl StatusView {
    /// The words for how a command ended.
    pub open spec fn words(self) -> Seq<char> {
        match self {
            StatusView::Exited(code) => if code == 0 {
                "succeeded"@
            } else {
                "exited with status "@ + text::dec_int(code as int)
            },
            StatusView::Signalled(signal) => "was killed by signal "@ + text::dec_int(
                signal as int,
            ),
            StatusView::NotStarted(reason) => "could not be started: "@ + reason,
        }
    }
}

impl Outcome {
    /// Whether the command succeeded: it ran, and exited with 0.
    pub fn succeeded(&self) -> (r: bool)
        ensures
            r == (self.status@ == StatusView::Exited(0)),
    {
        match self.status {
            Status::Exited(code) => code == 0,
            _ => false,
        }
    }

    /// How the command ended, in words.
    pub fn describe(&self) -> (r: String)
        ensures
            r@ == self.status@.words(),
    {
        match &self.status {
            Status::Exited(code) => {
                if *code == 0 {
                    "succeeded".to_owned()
                } else {
                    let mut out = "exited with status ".to_owned();
                    out.push_str(text::decimal_signed(*code as i64).as_str());
                    out
                }
            },
            Status::Signalled(signal) => {
                let mut out = "was killed by signal ".to_owned();
                out.push_str(text::decimal_signed(*signal as i64).as_str());
                out
            },
            Status::NotStarted(reason) => {
                let mut out = "could not be started: ".to_owned();
                out.push_str(reason.as_str());
                out
            },
        }
    }

    /// The outcome of a command that could not be started.
    pub fn not_started(reason: String) -> (r: Self)
        ensures
            r.status@ == StatusView::NotStarted(reason@),
            r.output@.len() == 0,
            !r.truncated,
    {
        Outcome { status: Status::NotStarted(reason), output: Vec::new(), truncated: false }
    }
}

/// How a command ended, from its exit code and the signal that killed it.
///
/// Neither cannot happen. It is still no success.
pub fn classify(code: Option<i32>, signal: Option<i32>) -> (r: Status)
    ensures
        r@ == match (code, signal) {
            (Some(code), _) => StatusView::Exited(code),
            (None, Some(signal)) => StatusView::Signalled(signal),
            (None, None) => StatusView::NotStarted("it ended in an unrecognised way"@),
        },
{
    match (code, signal) {
        (Some(code), _) => Status::Exited(code),
        (None, Some(signal)) => Status::Signalled(signal),
        (None, None) => Status::NotStarted("it ended in an unrecognised way".to_owned()),
    }
}

/// A command to run inside the root.
#[derive(Clone, Debug)]
pub struct Command {
    /// The program, as a path inside the root.
    pub program: String,
    /// Its arguments, without the program itself.
    pub args: Vec<String>,
    /// What it reads. `None` is an empty input.
    pub stdin: Option<Vec<u8>>,
}

/// What a [`Command`] holds.
pub struct CommandView {
    /// The program.
    pub program: Seq<char>,
    /// Its arguments.
    pub args: Seq<Seq<char>>,
    /// What it reads.
    pub stdin: Option<Seq<u8>>,
}

impl View for Command {
    type V = CommandView;

    open spec fn view(&self) -> CommandView {
        CommandView {
            program: self.program@,
            args: text::texts(self.args@),
            stdin: match self.stdin {
                Some(bytes) => Some(bytes@),
                None => None,
            },
        }
    }
}

impl Command {
    /// A command without arguments or input.
    pub fn new(program: String) -> (r: Self)
        ensures
            r@ == (CommandView { program: program@, args: Seq::empty(), stdin: None }),
    {
        let r = Command { program, args: Vec::new(), stdin: None };
        assert(r@.args =~= Seq::<Seq<char>>::empty());
        r
    }

    /// The command with one more argument.
    pub fn arg(self, arg: String) -> (r: Self)
        ensures
            r@ == (CommandView { args: self@.args.push(arg@), ..self@ }),
    {
        let mut command = self;
        command.args.push(arg);
        command
    }

    /// The command with an input.
    pub fn stdin(self, bytes: Vec<u8>) -> (r: Self)
        ensures
            r@ == (CommandView { stdin: Some(bytes@), ..self@ }),
    {
        Command { program: self.program, args: self.args, stdin: Some(bytes) }
    }
}

/// Starts commands inside a root.
#[derive(Debug)]
pub struct Runner {
    root: String,
    helper: String,
}

impl Runner {
    /// The root that commands run in.
    pub closed spec fn spec_root(self) -> Seq<char> {
        self.root@
    }

    /// The program that is started as the helper.
    pub closed spec fn spec_helper(self) -> Seq<char> {
        self.helper@
    }

    /// A runner for `root`, which starts `helper`: this program itself.
    pub fn new(root: String, helper: String) -> (r: Self)
        ensures
            r.spec_root() == root@,
            r.spec_helper() == helper@,
    {
        Runner { root, helper }
    }

    /// The root that commands run in.
    pub fn root(&self) -> (r: &str)
        ensures
            r@ == self.spec_root(),
    {
        self.root.as_str()
    }

    /// The program that is started as the helper.
    pub fn helper(&self) -> (r: &str)
        ensures
            r@ == self.spec_helper(),
    {
        self.helper.as_str()
    }

    /// The arguments the helper is started with.
    pub fn arguments(&self, command: &Command) -> (r: Vec<String>)
        ensures
            text::texts(r@) == seq![HELPER_ARG@, self.spec_root(), command@.program]
                + command@.args,
    {
        let mut out: Vec<String> = Vec::new();
        out.push(HELPER_ARG.to_owned());
        out.push(self.root.clone());
        out.push(command.program.clone());
        let ghost head = seq![HELPER_ARG@, self.spec_root(), command@.program];
        assert(text::texts(out@) =~= head);
        let mut i: usize = 0;
        while i < command.args.len()
            invariant
                i <= command.args.len(),
                text::texts(out@) == head + text::texts(command.args@).take(i as int),
            decreases command.args.len() - i,
        {
            out.push(command.args[i].clone());
            proof {
                let args = text::texts(command.args@);
                assert(args.take(i + 1) =~= args.take(i as int).push(args[i as int]));
            }
            i += 1;
        }
        assert(text::texts(command.args@).take(i as int) =~= text::texts(command.args@));
        out
    }
}

/// The `SHLVL` a command is given: `1`, unless one is inherited.
///
/// bash takes itself for a login shell when its input is a socket. A `SHLVL` tells it otherwise.
pub fn shell_level(inherited: bool) -> (r: Option<u32>)
    ensures
        r == if inherited {
            None::<u32>
        } else {
            Some(1u32)
        },
{
    if inherited {
        None
    } else {
        Some(1)
    }
}

// ---------------------------------------------------------------------------------------------
// Output

/// The bytes that are kept of all that a command wrote.
pub open spec fn capped(bytes: Seq<u8>) -> Seq<u8> {
    if bytes.len() > MAX_OUTPUT_BYTES {
        bytes.take(MAX_OUTPUT_BYTES as int)
    } else {
        bytes
    }
}

/// The texts of a list of byte lines.
pub open spec fn lossy_lines(lines: Seq<Seq<u8>>) -> Seq<Seq<char>> {
    Seq::new(lines.len(), |i: int| text::lossy_text(lines[i]))
}

/// Whether each of `lines` that is UTF-8 is shown as the text it encodes.
pub open spec fn faithful(lines: Seq<Seq<u8>>) -> bool {
    forall|i: int|
        0 <= i < lines.len() && valid_utf8(#[trigger] lines[i]) ==> text::lossy_text(lines[i])
            == decode_utf8(lines[i])
}

/// The output of a command while it is being read.
///
/// Reading goes on past the limit: a command that keeps printing would otherwise block on a full
/// pipe and never exit. The lines that are reported and the final output are cut from the same
/// bytes.
#[derive(Debug)]
pub struct Drain {
    kept: Vec<u8>,
    truncated: bool,
    reported: usize,
    lines: Vec<String>,
}

impl Drain {
    /// The bytes that were kept.
    pub closed spec fn kept(self) -> Seq<u8> {
        self.kept@
    }

    /// Whether any were dropped.
    pub closed spec fn spec_truncated(self) -> bool {
        self.truncated
    }

    #[verifier::type_invariant]
    spec fn inv(self) -> bool {
        &&& self.kept@.len() <= MAX_OUTPUT_BYTES
        &&& self.reported <= self.kept@.len()
        &&& partial(self.kept@) == self.kept@.skip(self.reported as int)
        &&& text::texts(self.lines@) == lossy_lines(ended_in(self.kept@))
        &&& faithful(ended_in(self.kept@))
    }

    /// Nothing read yet.
    pub fn new() -> (r: Self)
        ensures
            r.kept() == Seq::<u8>::empty(),
            !r.spec_truncated(),
    {
        let kept: Vec<u8> = Vec::new();
        let lines: Vec<String> = Vec::new();
        assert(kept@.skip(0) =~= Seq::<u8>::empty());
        assert(kept@ =~= Seq::<u8>::empty());
        assert(text::texts(lines@) =~= lossy_lines(ended_in(kept@)));
        Drain { kept, truncated: false, reported: 0, lines }
    }

    /// Takes what was read, and returns the lines it completes.
    pub fn push(&mut self, chunk: &[u8]) -> (r: Vec<String>)
        ensures
            final(self).kept() == capped(old(self).kept() + chunk@),
            final(self).spec_truncated() == (old(self).spec_truncated() || old(self).kept().len()
                + chunk@.len() > MAX_OUTPUT_BYTES),
            lossy_lines(ended_in(final(self).kept())) == lossy_lines(ended_in(old(self).kept()))
                + text::texts(r@),
    {
        proof {
            use_type_invariant(&*self);
        }
        let ghost start = self.kept@;
        let mut taken = Drain::new();
        std::mem::swap(self, &mut taken);
        let mut kept: Vec<u8> = taken.kept;
        let mut reported: usize = taken.reported;
        let mut truncated: bool = taken.truncated;
        let mut lines: Vec<String> = taken.lines;
        let mut out: Vec<String> = Vec::new();
        let mut i: usize = 0;
        assert(start + chunk@.take(0) =~= start);
        assert(lossy_lines(ended_in(start)) + text::texts(out@) =~= lossy_lines(ended_in(start)));
        while i < chunk.len() && kept.len() < MAX_OUTPUT_BYTES
            invariant
                i <= chunk.len(),
                kept@.len() <= MAX_OUTPUT_BYTES,
                kept@ == start + chunk@.take(i as int),
                reported <= kept@.len(),
                partial(kept@) == kept@.skip(reported as int),
                text::texts(lines@) == lossy_lines(ended_in(kept@)),
                faithful(ended_in(kept@)),
                lossy_lines(ended_in(kept@)) == lossy_lines(ended_in(start)) + text::texts(out@),
            decreases chunk.len() - i,
        {
            let byte = chunk[i];
            let ghost was = kept@;
            let ghost said = text::texts(out@);
            if byte == 10 {
                let line = slice_subrange(kept.as_slice(), reported, kept.len());
                assert(line@ =~= partial(was));
                let shown = text::lossy(without_return(line));
                lines.push(shown.clone());
                kept.push(byte);
                reported = kept.len();
                proof {
                    assert(kept@.drop_last() =~= was);
                    lemma_bare_push(complete(was), partial(was));
                    let ended = ended_in(kept@);
                    assert(ended == ended_in(was).push(bare(partial(was))));
                    assert(lossy_lines(ended) =~= lossy_lines(ended_in(was)).push(shown@));
                    assert(lossy_lines(ended_in(start)) + said.push(shown@) =~= (lossy_lines(
                        ended_in(start),
                    ) + said).push(shown@));
                    assert(kept@.skip(reported as int) =~= Seq::<u8>::empty());
                    assert forall|k: int|
                        0 <= k < ended.len() && valid_utf8(#[trigger] ended[k]) implies
                        text::lossy_text(ended[k]) == decode_utf8(ended[k]) by {
                        if k < ended_in(was).len() {
                            assert(ended[k] == ended_in(was)[k]);
                        }
                    }
                }
                out.push(shown);
            } else {
                kept.push(byte);
                proof {
                    assert(kept@.drop_last() =~= was);
                    assert(was.skip(reported as int).push(byte) =~= kept@.skip(reported as int));
                }
            }
            proof {
                assert(chunk@.take(i + 1) =~= chunk@.take(i as int).push(byte));
                assert(kept@ =~= start + chunk@.take(i + 1));
            }
            i += 1;
        }
        if i < chunk.len() {
            truncated = true;
        }
        proof {
            assert(chunk@.take(chunk@.len() as int) =~= chunk@);
            assert(kept@ =~= capped(start + chunk@));
        }
        *self = Drain { kept, truncated, reported, lines };
        out
    }

    /// The line that the output ended in without a newline, which is still to be reported.
    pub fn rest(&self) -> (r: Option<String>)
        ensures
            text::maybe(r) == if partial(self.kept()).len() == 0 {
                None::<Seq<char>>
            } else {
                Some(text::lossy_text(partial(self.kept())))
            },
            partial(self.kept()).len() > 0 ==> faithful(seq![partial(self.kept())]),
    {
        proof {
            use_type_invariant(self);
        }
        if self.reported < self.kept.len() {
            let line = slice_subrange(self.kept.as_slice(), self.reported, self.kept.len());
            assert(line@ =~= partial(self.kept@));
            Some(text::lossy(line))
        } else {
            None
        }
    }

    /// The outcome, once the command has ended. Its lines are those that were reported.
    pub fn finish(self, status: Status) -> (r: Outcome)
        ensures
            r.status == status,
            text::texts(r.output@) == lossy_lines(byte_lines(self.kept())),
            // Where the output is text, they are the lines of that text.
            text_in(self.kept()) matches Some(whole) ==> text::texts(r.output@) == text::lines(
                whole,
            ),
            r.truncated == self.spec_truncated(),
    {
        proof {
            use_type_invariant(&self);
        }
        let ghost kept = self.kept@;
        let rest = self.rest();
        let mut output: Vec<String> = self.lines;
        if let Some(line) = rest {
            let ghost before = text::texts(output@);
            output.push(line);
            assert(lossy_lines(byte_lines(kept)) =~= before.push(text::lossy_text(partial(kept))));
        }
        proof {
            let all = byte_lines(kept);
            assert forall|i: int| 0 <= i < all.len() && valid_utf8(#[trigger] all[i]) implies
                text::lossy_text(all[i]) == decode_utf8(all[i]) by {
                if i < ended_in(kept).len() {
                    assert(all[i] == ended_in(kept)[i]);
                } else {
                    assert(seq![partial(kept)][0] == all[i]);
                }
            }
            if valid_utf8(kept) {
                lemma_streamed(kept);
            }
        }
        Outcome { status, output, truncated: self.truncated }
    }
}

/// The lines that end in `bytes`, without what ends each.
pub open spec fn ended_in(bytes: Seq<u8>) -> Seq<Seq<u8>> {
    bare_lines(complete(bytes))
}

/// Everything that was read of a command's output.
pub open spec fn joined(chunks: Seq<Vec<u8>>) -> Seq<u8>
    decreases chunks.len(),
{
    if chunks.len() == 0 {
        Seq::empty()
    } else {
        joined(chunks.drop_last()) + chunks.last()@
    }
}

/// Drains a command's output, which arrived in chunks: the lines as they were completed, and the
/// outcome once the command has ended. The two never disagree. What is kept and how it is cut does
/// not depend on the chunks.
pub fn drain(chunks: &Vec<Vec<u8>>, status: Status) -> (r: (Vec<String>, Outcome))
    ensures
        text::texts(r.0@) == text::texts(r.1.output@),
        text::texts(r.1.output@) == lossy_lines(byte_lines(capped(joined(chunks@)))),
        // Where the output is text, they are the lines of that text.
        text_in(capped(joined(chunks@))) matches Some(whole) ==> text::texts(r.1.output@)
            == text::lines(whole),
        r.1.status == status,
        r.1.truncated == (joined(chunks@).len() > MAX_OUTPUT_BYTES),
{
    let mut drain = Drain::new();
    let mut streamed: Vec<String> = Vec::new();
    let mut i: usize = 0;
    proof {
        assert(chunks@.take(0) =~= Seq::<Vec<u8>>::empty());
        assert(lossy_lines(ended_in(Seq::empty())) =~= text::texts(streamed@));
    }
    while i < chunks.len()
        invariant
            i <= chunks.len(),
            drain.kept() == capped(joined(chunks@.take(i as int))),
            drain.spec_truncated() == (joined(chunks@.take(i as int)).len() > MAX_OUTPUT_BYTES),
            text::texts(streamed@) == lossy_lines(ended_in(drain.kept())),
        decreases chunks.len() - i,
    {
        let ghost so_far = joined(chunks@.take(i as int));
        proof {
            let more = chunks@.take(i + 1);
            assert(more.drop_last() =~= chunks@.take(i as int));
            assert(more.last() == chunks@[i as int]);
            chunks_do_not_matter(so_far, chunks@[i as int]@);
        }
        let lines = drain.push(chunks[i].as_slice());
        append(&mut streamed, lines);
        i += 1;
    }
    assert(chunks@.take(i as int) =~= chunks@);
    let ghost kept = drain.kept();
    if let Some(line) = drain.rest() {
        let ghost before = text::texts(streamed@);
        streamed.push(line);
        assert(lossy_lines(byte_lines(kept)) =~= before.push(text::lossy_text(partial(kept))));
    }
    (streamed, drain.finish(status))
}

/// Lines cut from bytes that encode a text are the lines of that text.
proof fn lemma_streamed(kept: Seq<u8>)
    requires
        valid_utf8(kept),
        faithful(byte_lines(kept)),
    ensures
        lossy_lines(byte_lines(kept)) == text::lines(decode_utf8(kept)),
{
    let whole = decode_utf8(kept);
    decode_utf8_encode_utf8(kept);
    lines_can_be_cut_before_decoding(whole);
    let lines = text::lines(whole);
    assert forall|i: int| 0 <= i < lines.len() implies lossy_lines(byte_lines(kept))[i]
        == lines[i] by {
        assert(byte_lines(kept)[i] == encode_utf8(lines[i]));
        encode_utf8_valid_utf8(lines[i]);
        encode_utf8_decode_utf8(lines[i]);
    }
    assert(lossy_lines(byte_lines(kept)) =~= lines);
}

/// Appends one list of texts to another.
fn append(into: &mut Vec<String>, more: Vec<String>)
    ensures
        text::texts(final(into)@) == text::texts(old(into)@) + text::texts(more@),
{
    let ghost start = text::texts(into@);
    let ghost all = text::texts(more@);
    let mut i: usize = 0;
    assert(start + all.take(0) =~= start);
    while i < more.len()
        invariant
            i <= more.len(),
            all == text::texts(more@),
            text::texts(into@) == start + all.take(i as int),
        decreases more.len() - i,
    {
        into.push(more[i].clone());
        assert(start + all.take(i + 1) =~= (start + all.take(i as int)).push(all[i as int]));
        i += 1;
    }
    assert(all.take(i as int) =~= all);
}

// ---------------------------------------------------------------------------------------------
// The helper

/// What the helper was asked to do.
#[derive(Clone, Debug)]
pub struct HelperCall {
    /// The root to enter.
    pub root: String,
    /// The program to become.
    pub program: String,
    /// The program's arguments.
    pub args: Vec<String>,
}

/// Reads the helper's arguments, without [`HELPER_ARG`] itself.
pub fn helper_call(arguments: &Vec<String>) -> (r: Result<HelperCall, String>)
    ensures
        match r {
            Ok(call) => arguments@.len() >= 2 && seq![call.root@, call.program@] + text::texts(
                call.args@,
            ) == text::texts(arguments@),
            Err(reason) => arguments@.len() < 2 && reason@ == if arguments@.len() == 0 {
                "no root was given to the exec helper"@
            } else {
                "no program was given to the exec helper"@
            },
        },
{
    if arguments.len() == 0 {
        return Err("no root was given to the exec helper".to_owned());
    }
    if arguments.len() == 1 {
        return Err("no program was given to the exec helper".to_owned());
    }
    let mut args: Vec<String> = Vec::new();
    let mut i: usize = 2;
    let ghost all = text::texts(arguments@);
    assert(text::texts(args@) =~= all.subrange(2, 2));
    while i < arguments.len()
        invariant
            2 <= i <= arguments.len(),
            all == text::texts(arguments@),
            text::texts(args@) == all.subrange(2, i as int),
        decreases arguments.len() - i,
    {
        args.push(arguments[i].clone());
        assert(all.subrange(2, i + 1) =~= all.subrange(2, i as int).push(all[i as int]));
        i += 1;
    }
    let call = HelperCall { root: arguments[0].clone(), program: arguments[1].clone(), args };
    assert(seq![call.root@, call.program@] + text::texts(call.args@) =~= all);
    Ok(call)
}

/// Whether the helper has to enter the root, given what its path resolves to. The directory is
/// changed to `/` either way.
pub fn enters_root(resolved: &str) -> (r: bool)
    ensures
        r == (resolved@ != "/"@),
{
    !text::same(resolved, "/")
}

/// What the helper could not do.
#[derive(Clone, Debug)]
pub enum HelperFailure {
    /// The root's path does not resolve.
    Unresolved {
        /// The root.
        root: String,
    },
    /// The root could not be entered.
    NotEntered {
        /// What the root resolves to.
        root: String,
    },
    /// The directory could not be changed.
    NoDirectory,
    /// The program could not be run.
    NotRun {
        /// The program.
        program: String,
    },
}

impl HelperFailure {
    /// The words for the failure, with the system's reason.
    pub open spec fn words(self, reason: Seq<char>) -> Seq<char> {
        match self {
            HelperFailure::Unresolved { root } => "could not resolve the root "@ + root@ + ": "@
                + reason,
            HelperFailure::NotEntered { root } => "could not enter the root "@ + root@ + ": "@
                + reason,
            HelperFailure::NoDirectory => "could not change directory inside the root: "@ + reason,
            HelperFailure::NotRun { program } => "could not run "@ + program@ + ": "@ + reason,
        }
    }

    /// The words for the failure, with the system's reason.
    pub fn message(&self, reason: &str) -> (r: String)
        ensures
            r@ == self.words(reason@),
    {
        let mut out = String::new();
        match self {
            HelperFailure::Unresolved { root } => {
                out = "could not resolve the root ".to_owned();
                out.push_str(root.as_str());
                out.push_str(": ");
            },
            HelperFailure::NotEntered { root } => {
                out = "could not enter the root ".to_owned();
                out.push_str(root.as_str());
                out.push_str(": ");
            },
            HelperFailure::NoDirectory => {
                out = "could not change directory inside the root: ".to_owned();
            },
            HelperFailure::NotRun { program } => {
                out = "could not run ".to_owned();
                out.push_str(program.as_str());
                out.push_str(": ");
            },
        }
        out.push_str(reason);
        out
    }
}

/// Whether an argument makes the program act as the helper.
pub fn is_helper_argument(argument: &str) -> (r: bool)
    ensures
        r == (argument@ == HELPER_ARG@),
{
    text::same(argument, HELPER_ARG)
}

// ---------------------------------------------------------------------------------------------
// Laws

/// The bytes that are kept do not depend on how the output was cut into chunks.
pub proof fn chunks_do_not_matter(a: Seq<u8>, b: Seq<u8>)
    ensures
        capped(capped(a) + b) == capped(a + b),
{
    assert(capped(capped(a) + b) =~= capped(a + b));
}

} // verus!
