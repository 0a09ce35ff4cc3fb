//! Running recipes: what is handed to the system, and what its answers mean.

use vstd::prelude::*;
use vstd::string::*;

use crate::recipe::{Recipe, RecipeView};
use crate::text::{join, joined_by, names, show_signed, signed_decimal, starts_with, string_views};

verus! {

/// The errors of the system that messages tell apart.
#[derive(Debug, PartialEq, Eq, Clone, Copy, Structural)]
pub enum IoErrorKind {
    NotFound,
    PermissionDenied,
    Other,
}

/// An error of the system.
#[derive(Debug, PartialEq)]
pub struct IoError {
    pub kind: IoErrorKind,
    /// What the system calls the error.
    pub message: String,
}

/// The view of an [`IoError`].
#[verifier::ext_equal]
pub struct IoErrorView {
    pub kind: IoErrorKind,
    pub message: Seq<char>,
}

impl View for IoError {
    type V = IoErrorView;

    open spec fn view(&self) -> IoErrorView {
        IoErrorView { kind: self.kind, message: self.message@ }
    }
}

/// Why recipes were not run.
#[derive(Debug, PartialEq)]
#[allow(inconsistent_fields)]
pub enum RunError<'a> {
    UnknownRecipes { recipes: Vec<&'a str> },
    MissingArguments,
    Signal { recipe: &'a str, signal: i32 },
    Code { recipe: &'a str, code: i32 },
    UnknownFailure { recipe: &'a str },
    IoError { recipe: &'a str, io_error: IoError },
    TmpdirIoError { recipe: &'a str, io_error: IoError },
}

/// The view of a [`RunError`].
#[verifier::ext_equal]
#[allow(inconsistent_fields)]
pub enum RunErrorView {
    UnknownRecipes { recipes: Seq<Seq<char>> },
    MissingArguments,
    Signal { recipe: Seq<char>, signal: int },
    Code { recipe: Seq<char>, code: int },
    UnknownFailure { recipe: Seq<char> },
    IoError { recipe: Seq<char>, io_error: IoErrorView },
    TmpdirIoError { recipe: Seq<char>, io_error: IoErrorView },
}

impl<'a> View for RunError<'a> {
    type V = RunErrorView;

    open spec fn view(&self) -> RunErrorView {
        match *self {
            RunError::UnknownRecipes { recipes } => RunErrorView::UnknownRecipes {
                recipes: names(recipes@),
            },
            RunError::MissingArguments => RunErrorView::MissingArguments,
            RunError::Signal { recipe, signal } => RunErrorView::Signal {
                recipe: recipe@,
                signal: signal as int,
            },
            RunError::Code { recipe, code } => RunErrorView::Code {
                recipe: recipe@,
                code: code as int,
            },
            RunError::UnknownFailure { recipe } => RunErrorView::UnknownFailure {
                recipe: recipe@,
            },
            RunError::IoError { recipe, io_error } => RunErrorView::IoError {
                recipe: recipe@,
                io_error: io_error@,
            },
            RunError::TmpdirIoError { recipe, io_error } => RunErrorView::TmpdirIoError {
                recipe: recipe@,
                io_error: io_error@,
            },
        }
    }
}

impl RunErrorView {
    /// The error in words.
    pub open spec fn shown(self) -> Seq<char> {
        match self {
            RunErrorView::UnknownRecipes { recipes } => if recipes.len() == 1 {
                "Justfile does not contain recipe: "@ + recipes[0]
            } else {
                "Justfile does not contain recipes: "@ + joined_by(recipes, " "@)
            },
            RunErrorView::MissingArguments =>
                "Running recipes with arguments is not yet supported"@,
            RunErrorView::Signal { recipe, signal } => "Recipe \""@ + recipe
                + "\" wast terminated by signal "@ + signed_decimal(signal),
            RunErrorView::Code { recipe, code } => "Recipe \""@ + recipe + "\" failed with code "@
                + signed_decimal(code),
            RunErrorView::UnknownFailure { recipe } => "Recipe \""@ + recipe
                + "\" failed for an unknown reason"@,
            RunErrorView::IoError { recipe, io_error } => "Recipe \""@ + recipe + launch_failure(
                io_error.kind,
            ) + io_error.message,
            RunErrorView::TmpdirIoError { recipe, io_error } => "Recipe \""@ + recipe
                + "\" could not be run because of an IO error while trying to create a temporary directory or write a file to that directory`:\n"@
                + io_error.message,
        }
    }
}

/// Why the shell was not started, in words.
pub open spec fn launch_failure(kind: IoErrorKind) -> Seq<char> {
    match kind {
        IoErrorKind::NotFound =>
            "\" could not be run because j could not find `sh` the command:\n"@,
        IoErrorKind::PermissionDenied => "\" could not be run because j could not run `sh`:\n"@,
        IoErrorKind::Other =>
            "\" could not be run because of an IO error while launching the `sh`:\n"@,
    }
}

impl<'a> RunError<'a> {
    /// The error in words.
    pub fn to_string(&self) -> (r: String)
        ensures
            r@ == self@.shown(),
    {
        match self {
            RunError::UnknownRecipes { recipes } => {
                if recipes.len() == 1 {
                    let mut message: String = String::from_str(
                        "Justfile does not contain recipe: ",
                    );
                    message.append(recipes[0]);
                    message
                } else {
                    let mut message: String = String::from_str(
                        "Justfile does not contain recipes: ",
                    );
                    let list: String = join(recipes, " ");
                    message.append(list.as_str());
                    message
                }
            },
            RunError::MissingArguments => {
                String::from_str("Running recipes with arguments is not yet supported")
            },
            RunError::Signal { recipe, signal } => {
                let mut message: String = String::from_str("Recipe \"");
                let number: String = show_signed(*signal);
                message.append(recipe);
                message.append("\" wast terminated by signal ");
                message.append(number.as_str());
                message
            },
            RunError::Code { recipe, code } => {
                let mut message: String = String::from_str("Recipe \"");
                let number: String = show_signed(*code);
                message.append(recipe);
                message.append("\" failed with code ");
                message.append(number.as_str());
                message
            },
            RunError::UnknownFailure { recipe } => {
                let mut message: String = String::from_str("Recipe \"");
                message.append(recipe);
                message.append("\" failed for an unknown reason");
                message
            },
            RunError::IoError { recipe, io_error } => {
                let mut message: String = String::from_str("Recipe \"");
                message.append(recipe);
                message.append(
                    match io_error.kind {
                        IoErrorKind::NotFound => {
                            "\" could not be run because j could not find `sh` the command:\n"
                        },
                        IoErrorKind::PermissionDenied => {
                            "\" could not be run because j could not run `sh`:\n"
                        },
                        IoErrorKind::Other => {
                            "\" could not be run because of an IO error while launching the `sh`:\n"
                        },
                    },
                );
                message.append(io_error.message.as_str());
                message
            },
            RunError::TmpdirIoError { recipe, io_error } => {
                let mut message: String = String::from_str("Recipe \"");
                message.append(recipe);
                message.append(
                    "\" could not be run because of an IO error while trying to create a temporary directory or write a file to that directory`:\n",
                );
                message.append(io_error.message.as_str());
                message
            },
        }
    }
}

/// A line that the shell is to run.
#[derive(Debug, PartialEq)]
pub struct Command<'s> {
    /// Whether the line is printed first.
    pub echoed: bool,
    pub line: &'s str,
}

/// The view of a [`Command`].
#[verifier::ext_equal]
pub struct CommandView {
    pub echoed: bool,
    pub line: Seq<char>,
}

impl<'s> View for Command<'s> {
    type V = CommandView;

    open spec fn view(&self) -> CommandView {
        CommandView { echoed: self.echoed, line: self.line@ }
    }
}

/// What a recipe has the system do.
#[derive(Debug, PartialEq)]
pub enum Job<'s> {
    /// A script, which is written to a file. The file is then run.
    Script { text: String },
    /// Lines, which the shell runs one after the other, as long as none fails.
    Commands { commands: Vec<Command<'s>> },
}

/// The view of a [`Job`].
#[verifier::ext_equal]
pub enum JobView {
    Script { text: Seq<char> },
    Commands { commands: Seq<CommandView> },
}

/// The views of a sequence of commands.
pub open spec fn command_views(commands: Seq<Command<'_>>) -> Seq<CommandView> {
    commands.map_values(|c: Command| c@)
}

impl<'s> View for Job<'s> {
    type V = JobView;

    open spec fn view(&self) -> JobView {
        match *self {
            Job::Script { text } => JobView::Script { text: text@ },
            Job::Commands { commands } => JobView::Commands { commands: command_views(commands@) },
        }
    }
}

/// What came of having a file or the shell run.
#[derive(Debug, PartialEq)]
pub enum Outcome {
    /// It ended with a code, or by a signal.
    Exited { code: Option<i32>, signal: Option<i32> },
    /// It could not be started.
    Failed { io_error: IoError },
}

/// The view of an [`Outcome`].
#[verifier::ext_equal]
pub enum OutcomeView {
    Exited { code: Option<i32>, signal: Option<i32> },
    Failed { io_error: IoErrorView },
}

impl View for Outcome {
    type V = OutcomeView;

    open spec fn view(&self) -> OutcomeView {
        match *self {
            Outcome::Exited { code, signal } => OutcomeView::Exited { code, signal },
            Outcome::Failed { io_error } => OutcomeView::Failed { io_error: io_error@ },
        }
    }
}

/// The command of a line: after an at sign, which is left out, it is not printed.
pub open spec fn command_of(line: Seq<char>) -> CommandView {
    if "@"@.is_prefix_of(line) {
        CommandView { echoed: false, line: line.skip(1) }
    } else {
        CommandView { echoed: true, line }
    }
}

/// `n` line feeds.
pub open spec fn line_feeds(n: nat) -> Seq<char> {
    Seq::new(n, |i: int| '\n')
}

/// Each of `lines` with a line feed after it.
pub open spec fn terminated(lines: Seq<Seq<char>>) -> Seq<char>
    decreases lines.len(),
{
    if lines.len() == 0 {
        Seq::empty()
    } else {
        terminated(lines.drop_last()) + lines.last() + "\n"@
    }
}

impl RecipeView {
    /// The script that a recipe is: its first line, blank lines in the place of the lines of the
    /// justfile up to there, and its other lines.
    pub open spec fn script(self) -> Seq<char> {
        self.evaluated_lines[0] + "\n"@ + line_feeds(self.line_number + 1) + terminated(
            self.evaluated_lines.skip(1),
        )
    }

    /// How often the recipe's job has something run: a script once, and each command.
    pub open spec fn launches(self) -> nat {
        if self.shebang {
            1
        } else {
            self.evaluated_lines.len()
        }
    }

    /// What an outcome means for the recipe: its job goes on, or it has failed.
    pub open spec fn conclusion(self, outcome: OutcomeView) -> Result<(), RunErrorView> {
        match outcome {
            OutcomeView::Exited { code: Some(code), signal } => if code == 0 {
                Ok(())
            } else {
                Err(RunErrorView::Code { recipe: self.name, code: code as int })
            },
            OutcomeView::Exited { code: None, signal } => Err(signal_error(self.name, signal)),
            OutcomeView::Failed { io_error } => if self.shebang {
                Err(RunErrorView::TmpdirIoError { recipe: self.name, io_error })
            } else {
                Err(RunErrorView::IoError { recipe: self.name, io_error })
            },
        }
    }

    /// Which launch comes after the one at `at`, if it has that outcome.
    pub open spec fn after(self, at: nat, outcome: OutcomeView) -> Result<
        Option<nat>,
        RunErrorView,
    > {
        match self.conclusion(outcome) {
            Err(error) => Err(error),
            Ok(()) => if at + 1 < self.launches() {
                Ok(Some(at + 1))
            } else {
                Ok(None)
            },
        }
    }

    /// What the recipe has the system do.
    pub open spec fn job(self) -> JobView {
        if self.shebang {
            JobView::Script { text: self.script() }
        } else {
            JobView::Commands {
                commands: self.evaluated_lines.map_values(|line: Seq<char>| command_of(line)),
            }
        }
    }
}

/// The command of a line.
fn command<'s>(line: &'s str) -> (r: Command<'s>)
    ensures
        r@ == command_of(line@),
{
    // the bytes of a line can be counted
    let _size: usize = crate::text::len(line);
    proof {
        crate::text::lemma_chars_in_bytes(line@);
        reveal_strlit("@");
    }
    if starts_with(line, "@") {
        let rest: &'s str = line.substring_char(1, line.unicode_len());
        proof {
            assert(rest@ =~= line@.skip(1));
        }
        Command { echoed: false, line: rest }
    } else {
        Command { echoed: true, line }
    }
}

impl<'a> Recipe<'a> {
    /// The script that the recipe is.
    fn script(&self) -> (r: String)
        requires
            self.evaluated_lines@.len() > 0,
            self.line_number < usize::MAX,
        ensures
            r@ == self@.script(),
    {
        let ghost lines = string_views(self.evaluated_lines@);
        let mut text: String = String::from_str(self.evaluated_lines[0].as_str());
        text.append("\n");
        let ghost head = text@;
        let mut i: usize = 0;
        proof {
            assert(head + line_feeds(0) =~= head);
        }
        while i < self.line_number + 1
            invariant
                i <= self.line_number + 1,
                self.line_number < usize::MAX,
                text@ == head + line_feeds(i as nat),
            decreases self.line_number + 1 - i,
        {
            text.append("\n");
            i += 1;
            proof {
                reveal_strlit("\n");
                assert(text@ =~= head + line_feeds(i as nat));
            }
        }
        let ghost blank = text@;
        let ghost rest = lines.skip(1);
        let mut k: usize = 1;
        proof {
            assert(blank + terminated(rest.take(0)) =~= blank);
        }
        while k < self.evaluated_lines.len()
            invariant
                1 <= k <= self.evaluated_lines@.len(),
                lines == string_views(self.evaluated_lines@),
                rest == lines.skip(1),
                text@ == blank + terminated(rest.take(k - 1)),
            decreases self.evaluated_lines@.len() - k,
        {
            text.append(self.evaluated_lines[k].as_str());
            text.append("\n");
            proof {
                assert(rest.take(k as int).drop_last() =~= rest.take(k - 1));
                assert(rest.take(k as int).last() == lines[k as int]);
                assert(text@ =~= blank + terminated(rest.take(k as int)));
            }
            k += 1;
        }
        proof {
            assert(rest.take(k - 1) =~= rest);
        }
        text
    }

    /// What the recipe has the system do.
    pub fn job<'s>(&'s self) -> (r: Job<'s>)
        requires
            self.shebang ==> self.evaluated_lines@.len() > 0 && self.line_number < usize::MAX,
        ensures
            r@ == self@.job(),
    {
        if self.shebang {
            return Job::Script { text: self.script() };
        }
        let ghost all = self@.evaluated_lines.map_values(|line: Seq<char>| command_of(line));
        let mut commands: Vec<Command<'s>> = Vec::new();
        let mut i: usize = 0;
        while i < self.evaluated_lines.len()
            invariant
                i <= self.evaluated_lines@.len(),
                all == self@.evaluated_lines.map_values(|line: Seq<char>| command_of(line)),
                command_views(commands@) == all.take(i as int),
            decreases self.evaluated_lines@.len() - i,
        {
            let ghost had = command_views(commands@);
            let next: Command<'s> = command(self.evaluated_lines[i].as_str());
            let ghost view = next@;
            commands.push(next);
            i += 1;
            proof {
                assert(command_views(commands@) =~= had.push(view));
                assert(command_views(commands@) =~= all.take(i as int));
            }
        }
        proof {
            assert(all.take(i as int) =~= all);
        }
        Job::Commands { commands }
    }

    /// What an outcome means for the recipe: its job goes on, or it has failed.
    pub fn conclude(&self, outcome: Outcome) -> (r: Result<(), RunError<'a>>)
        ensures
            match self@.conclusion(outcome@) {
                Ok(()) => r is Ok,
                Err(error) => r matches Err(e) && e@ == error,
            },
    {
        match outcome {
            Outcome::Exited { code: Some(code), signal: _ } => {
                if code == 0 {
                    Ok(())
                } else {
                    Err(RunError::Code { recipe: self.name, code })
                }
            },
            Outcome::Exited { code: None, signal } => Err(error_from_signal(self.name, signal)),
            Outcome::Failed { io_error } => {
                if self.shebang {
                    Err(RunError::TmpdirIoError { recipe: self.name, io_error })
                } else {
                    Err(RunError::IoError { recipe: self.name, io_error })
                }
            },
        }
    }

    /// Which launch of the recipe's job is the first.
    pub fn begin(&self) -> (r: Option<usize>)
        ensures
            r == (if self@.launches() == 0 {
                None
            } else {
                Some(0usize)
            }),
    {
        if self.shebang || self.evaluated_lines.len() > 0 {
            Some(0)
        } else {
            None
        }
    }

    /// Which launch of the recipe's job comes after the one at `at`, of which this is the outcome.
    /// After one that failed comes none.
    pub fn next(&self, at: usize, outcome: Outcome) -> (r: Result<Option<usize>, RunError<'a>>)
        requires
            at < self@.launches(),
        ensures
            match self@.after(at as nat, outcome@) {
                Ok(None) => r matches Ok(None),
                Ok(Some(next)) => r matches Ok(Some(n)) && n == next,
                Err(error) => r matches Err(e) && e@ == error,
            },
    {
        match self.conclude(outcome) {
            Err(error) => Err(error),
            Ok(()) => {
                if !self.shebang && self.evaluated_lines.len() - at > 1 {
                    Ok(Some(at + 1))
                } else {
                    Ok(None)
                }
            },
        }
    }
}

/// The error that a recipe ended without a code: by a signal, if one is known.
pub open spec fn signal_error(recipe: Seq<char>, signal: Option<i32>) -> RunErrorView {
    match signal {
        Some(signal) => RunErrorView::Signal { recipe, signal: signal as int },
        None => RunErrorView::UnknownFailure { recipe },
    }
}

/// The error that a recipe ended without a code.
pub fn error_from_signal<'a>(recipe: &'a str, signal: Option<i32>) -> (r: RunError<'a>)
    ensures
        r@ == signal_error(recipe@, signal),
{
    match signal {
        Some(signal) => RunError::Signal { recipe, signal },
        None => RunError::UnknownFailure { recipe },
    }
}

/// The mode of a file that its owner may run, and that is otherwise as it was.
pub fn executable(mode: u32) -> (r: u32)
    ensures
        r == mode | 0o100,
        r & 0o100 == 0o100,
        r & 0xffff_ffbf == mode & 0xffff_ffbf,
{
    assert((mode | 0o100) & 0o100 == 0o100) by (bit_vector);
    assert((mode | 0o100) & 0xffff_ffbf == mode & 0xffff_ffbf) by (bit_vector);
    mode | 0o100
}

} // verus!
