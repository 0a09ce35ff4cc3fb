//! What holds of running recipes, and of the scripts that some of them are.

use vstd::prelude::*;
use vstd::string::*;

use crate::evaluator_laws::{line_value, lines_hold, piece_value};
use crate::expression::ExpressionView;
use crate::file::ParsedFile;
use crate::justfile::{JustfileView, PlanView};
use crate::parse::parse_text;
use crate::parse_laws::law_parsed_values_hold;
use crate::place_laws::{lemma_line_feeds_concat, line_feeds_in};
use crate::recipe::{FragmentView, RecipeView};
use crate::run::{line_feeds, terminated, IoErrorView, JobView, OutcomeView, RunErrorView};
use crate::table::{is_key, lemma_found, lookup};
use crate::written::{plain_expression, plain_line, plain_piece, plain_recipe, plain_value};
use crate::written_shape::lemma_parsed_plain;

verus! {

/// Whether there is no line feed in `line`.
pub open spec fn is_single(line: Seq<char>) -> bool {
    line_feeds_in(line) == 0
}

/// Lines with a line feed after each begin with the first of them.
proof fn lemma_terminated_prefix(lines: Seq<Seq<char>>, i: int)
    requires
        0 <= i < lines.len(),
    ensures
        (terminated(lines.take(i)) + lines[i] + "\n"@).is_prefix_of(terminated(lines)),
    decreases lines.len(),
{
    let fewer = lines.drop_last();
    let head = terminated(lines.take(i)) + lines[i] + "\n"@;
    if i == lines.len() - 1 {
        assert(lines.take(i) =~= fewer);
    } else {
        lemma_terminated_prefix(fewer, i);
        assert(fewer.take(i) =~= lines.take(i));
        assert(head.is_prefix_of(terminated(fewer)));
    }
}

/// There are as many line feeds as there are lines.
proof fn lemma_terminated_feeds(lines: Seq<Seq<char>>)
    requires
        forall|i: int| 0 <= i < lines.len() ==> is_single(#[trigger] lines[i]),
    ensures
        line_feeds_in(terminated(lines)) == lines.len(),
    decreases lines.len(),
{
    reveal_strlit("\n");
    reveal_with_fuel(line_feeds_in, 2);
    if lines.len() > 0 {
        let fewer = lines.drop_last();
        assert forall|i: int| 0 <= i < fewer.len() implies is_single(#[trigger] fewer[i]) by {
            assert(fewer[i] == lines[i]);
        }
        lemma_terminated_feeds(fewer);
        lemma_line_feeds_concat(terminated(fewer), lines.last());
        lemma_line_feeds_concat(terminated(fewer) + lines.last(), "\n"@);
        assert(is_single(lines[lines.len() - 1]));
    }
}

/// There are as many line feeds as were asked for.
proof fn lemma_feeds(n: nat)
    ensures
        line_feeds_in(line_feeds(n)) == n,
    decreases n,
{
    if n > 0 {
        lemma_feeds((n - 1) as nat);
        assert(line_feeds(n).skip(1) =~= line_feeds((n - 1) as nat));
    }
}

impl RecipeView {
    /// What stands in the script before the line at `k`.
    pub open spec fn script_before(self, k: int) -> Seq<char> {
        self.evaluated_lines[0] + "\n"@ + line_feeds(self.line_number + 1) + terminated(
            self.evaluated_lines.subrange(1, k),
        )
    }
}

/// After the first, the lines of a script stand on lines with the same numbers as in the justfile,
/// where they follow the recipe's name.
pub proof fn law_scripts_keep_line_numbers(recipe: RecipeView, k: int)
    requires
        0 < k < recipe.evaluated_lines.len(),
        forall|i: int| 0 <= i < k ==> is_single(#[trigger] recipe.evaluated_lines[i]),
    ensures
        (recipe.script_before(k) + recipe.evaluated_lines[k] + "\n"@).is_prefix_of(recipe.script()),
        recipe.script_before(k).last() == '\n',
        line_feeds_in(recipe.script_before(k)) == recipe.line_number + 1 + k,
{
    let lines = recipe.evaluated_lines;
    let rest = lines.skip(1);
    let head = lines[0] + "\n"@ + line_feeds(recipe.line_number + 1);
    let between = lines.subrange(1, k);
    reveal_strlit("\n");
    reveal_with_fuel(line_feeds_in, 2);
    lemma_terminated_prefix(rest, k - 1);
    assert(rest.take(k - 1) =~= between);
    assert forall|i: int| 0 <= i < between.len() implies is_single(#[trigger] between[i]) by {
        assert(between[i] == lines[i + 1]);
    }
    lemma_terminated_feeds(between);
    lemma_feeds(recipe.line_number + 1);
    lemma_line_feeds_concat(lines[0], "\n"@);
    lemma_line_feeds_concat(lines[0] + "\n"@, line_feeds(recipe.line_number + 1));
    lemma_line_feeds_concat(head, terminated(between));
    assert(is_single(lines[0]));
    if between.len() > 0 {
        assert(terminated(between).last() == '\n');
    } else {
        assert(terminated(between).len() == 0);
        assert(head + terminated(between) =~= head);
    }
    let piece = terminated(between) + lines[k] + "\n"@;
    assert(piece.is_prefix_of(terminated(rest)));
    assert(recipe.script_before(k) + lines[k] + "\n"@ =~= head + piece);
}

/// A string without line feeds holds none.
proof fn lemma_single(s: Seq<char>)
    requires
        forall|i: int| 0 <= i < s.len() ==> #[trigger] s[i] != '\n',
    ensures
        is_single(s),
    decreases s.len(),
{
    if s.len() > 0 {
        assert forall|i: int| 0 <= i < s.skip(1).len() implies #[trigger] s.skip(1)[i] != '\n' by {
            assert(s.skip(1)[i] == s[i + 1]);
        }
        lemma_single(s.skip(1));
    }
}

/// The value of an expression of a justfile that is parsed is on one line.
proof fn lemma_value_single(justfile: JustfileView, e: ExpressionView)
    requires
        justfile.is_plain(),
        forall|name: Seq<char>| #[trigger]
            is_key(justfile.values, name) == is_key(justfile.assignments, name),
        plain_expression(e),
    ensures
        e.value(justfile.values) matches Some(value) ==> is_single(value),
    decreases e,
{
    match e {
        ExpressionView::Variable { name, token } => {
            if is_key(justfile.values, name) {
                assert(is_key(justfile.assignments, name));
                let i = lemma_found(justfile.assignments, name);
                let value = lookup(justfile.values, justfile.assignments[i].0)->0;
                assert(plain_value(value));
                lemma_single(value);
            }
        },
        ExpressionView::String { contents } => {
            lemma_single(contents);
        },
        ExpressionView::Concatination { lhs, rhs } => {
            lemma_value_single(justfile, *lhs);
            lemma_value_single(justfile, *rhs);
            if let (Some(left), Some(right)) = (
                lhs.value(justfile.values),
                rhs.value(justfile.values),
            ) {
                lemma_line_feeds_concat(left, right);
            }
        },
    }
}

/// The value of a line of a justfile that is parsed is on one line.
proof fn lemma_line_single(justfile: JustfileView, line: Seq<FragmentView>, i: nat)
    requires
        justfile.is_plain(),
        forall|name: Seq<char>| #[trigger]
            is_key(justfile.values, name) == is_key(justfile.assignments, name),
        forall|k: int| 0 <= k < line.len() ==> #[trigger] plain_piece(line, k),
    ensures
        line_value(line, justfile.values, i) matches Some(value) ==> is_single(value),
    decreases line.len() - i,
{
    if i < line.len() {
        assert(plain_piece(line, i as int));
        lemma_line_single(justfile, line, i + 1);
        match line[i as int] {
            FragmentView::Text { text } => {
                lemma_single(text.lexeme);
            },
            FragmentView::Expression { expression } => {
                lemma_value_single(justfile, expression);
            },
        }
        if let (Some(first), Some(rest)) = (
            piece_value(line[i as int], justfile.values),
            line_value(line, justfile.values, i + 1),
        ) {
            lemma_line_feeds_concat(first, rest);
        }
    }
}

/// In a justfile that is parsed, each evaluated line is one line: there is no line feed in it.
pub proof fn law_parsed_lines_are_single(
    text: Seq<char>,
    justfile: JustfileView,
    k: int,
    i: int,
)
    requires
        parse_text(text) == (ParsedFile::Done { justfile }),
        0 <= k < justfile.recipes.len(),
        0 <= i < justfile.recipes[k].1.evaluated_lines.len(),
    ensures
        is_single(justfile.recipes[k].1.evaluated_lines[i]),
{
    let recipe = justfile.recipes[k].1;
    lemma_parsed_plain(text, justfile);
    law_parsed_values_hold(text, justfile);
    assert(plain_recipe(recipe));
    assert(lines_hold(recipe, justfile.values));
    assert(plain_line(recipe.lines[i]));
    assert(line_value(recipe.lines[i], justfile.values, 0) == Some(recipe.evaluated_lines[i]));
    lemma_line_single(justfile, recipe.lines[i], 0);
}

/// How many launches or recipes there were, and what came of them.
pub struct Trace {
    pub launched: nat,
    pub result: Result<(), RunErrorView>,
}

/// What is launched for `recipe` from the launch at `at` on, where `outcomes` are the outcomes.
pub open spec fn recipe_trace(
    recipe: RecipeView,
    outcomes: Seq<OutcomeView>,
    at: nat,
) -> Trace
    decreases recipe.launches() - at,
{
    if at >= recipe.launches() {
        Trace { launched: at, result: Ok(()) }
    } else {
        match recipe.after(at, outcomes[at as int]) {
            Err(error) => Trace { launched: at + 1, result: Err(error) },
            Ok(None) => Trace { launched: at + 1, result: Ok(()) },
            Ok(Some(next)) => recipe_trace(recipe, outcomes, next),
        }
    }
}

/// What is run of `plan` from the recipe at `at` on, where `results` are what comes of each.
pub open spec fn plan_trace(
    plan: PlanView,
    results: Seq<Result<(), RunErrorView>>,
    at: nat,
) -> Trace
    decreases plan.order.len() - at,
{
    if at >= plan.order.len() {
        Trace { launched: at, result: Ok(()) }
    } else {
        match plan.after(at, results[at as int]) {
            Err(error) => Trace { launched: at + 1, result: Err(error) },
            Ok(None) => Trace { launched: at + 1, result: Ok(()) },
            Ok(Some(next)) => plan_trace(plan, results, next),
        }
    }
}

/// What is launched is launched one after the other, up to the first that fails.
proof fn lemma_recipe_trace(recipe: RecipeView, outcomes: Seq<OutcomeView>, at: nat, k: nat)
    requires
        at <= k <= recipe.launches(),
        forall|i: int| at <= i < k ==> recipe.conclusion(#[trigger] outcomes[i]) is Ok,
    ensures
        k == recipe.launches() ==> recipe_trace(recipe, outcomes, at) == (Trace {
            launched: k,
            result: Ok(()),
        }),
        k < recipe.launches() ==> (recipe.conclusion(outcomes[k as int]) matches Err(error)
            ==> recipe_trace(recipe, outcomes, at) == (Trace {
            launched: k + 1,
            result: Err(error),
        })),
    decreases k - at,
{
    if at < k {
        assert(recipe.conclusion(outcomes[at as int]) is Ok);
        lemma_recipe_trace(recipe, outcomes, at + 1, k);
    }
}

/// The job of a recipe launches everything if nothing fails, and otherwise nothing after the first
/// launch that fails, of which it gives the error.
pub proof fn law_nothing_is_launched_after_a_failure(
    recipe: RecipeView,
    outcomes: Seq<OutcomeView>,
    k: nat,
)
    requires
        k <= recipe.launches(),
        forall|i: int| 0 <= i < k ==> recipe.conclusion(#[trigger] outcomes[i]) is Ok,
    ensures
        k == recipe.launches() ==> recipe_trace(recipe, outcomes, 0) == (Trace {
            launched: k,
            result: Ok(()),
        }),
        k < recipe.launches() ==> (recipe.conclusion(outcomes[k as int]) matches Err(error)
            ==> recipe_trace(recipe, outcomes, 0) == (Trace {
            launched: k + 1,
            result: Err(error),
        })),
{
    lemma_recipe_trace(recipe, outcomes, 0, k);
}

/// What is run of a plan is run one after the other, up to the first that fails.
proof fn lemma_plan_trace(
    plan: PlanView,
    results: Seq<Result<(), RunErrorView>>,
    at: nat,
    k: nat,
)
    requires
        at <= k <= plan.order.len(),
        forall|i: int| at <= i < k ==> (#[trigger] results[i]) is Ok,
    ensures
        k == plan.order.len() ==> plan_trace(plan, results, at) == (Trace {
            launched: k,
            result: Ok(()),
        }),
        k < plan.order.len() ==> (results[k as int] matches Err(error) ==> plan_trace(
            plan,
            results,
            at,
        ) == (Trace { launched: k + 1, result: Err(error) })),
    decreases k - at,
{
    if at < k {
        assert(results[at as int] is Ok);
        lemma_plan_trace(plan, results, at + 1, k);
    }
}

/// All recipes of a plan are run if none fails, and otherwise none after the first that fails, of
/// which the error is given.
pub proof fn law_nothing_is_run_after_a_failure(
    plan: PlanView,
    results: Seq<Result<(), RunErrorView>>,
    k: nat,
)
    requires
        k <= plan.order.len(),
        forall|i: int| 0 <= i < k ==> (#[trigger] results[i]) is Ok,
    ensures
        k == plan.order.len() ==> plan_trace(plan, results, 0) == (Trace {
            launched: k,
            result: Ok(()),
        }),
        k < plan.order.len() ==> (results[k as int] matches Err(error) ==> plan_trace(
            plan,
            results,
            0,
        ) == (Trace { launched: k + 1, result: Err(error) })),
{
    lemma_plan_trace(plan, results, 0, k);
}

/// The commands of a recipe are launched one by one, and a script is launched once.
pub proof fn law_launches_are_the_job(recipe: RecipeView)
    ensures
        match recipe.job() {
            JobView::Script { text } => recipe.launches() == 1,
            JobView::Commands { commands } => recipe.launches() == commands.len(),
        },
{
}

/// Whether something ended with the code zero.
pub open spec fn is_zero_exit(outcome: OutcomeView) -> bool {
    outcome matches OutcomeView::Exited { code: Some(code), signal } && code == 0
}

/// A recipe goes on after something that ended with the code zero, and after nothing else, whatever
/// code or signal it ended with.
pub proof fn law_only_zero_exits_succeed(recipe: RecipeView, outcome: OutcomeView)
    ensures
        recipe.conclusion(outcome) is Ok <==> is_zero_exit(outcome),
{
}

/// What failed is reported with the recipe's name: any code but zero with that code, whether a
/// signal is known or not; without a code, the signal, or that nothing is known; and what could not
/// be started with the system's error, as one of the shell or of the script's file.
pub proof fn law_failures_are_reported(
    recipe: RecipeView,
    code: i32,
    signal: Option<i32>,
    number: i32,
    io_error: IoErrorView,
)
    ensures
        code != 0 ==> recipe.conclusion(OutcomeView::Exited { code: Some(code), signal }) == Err::<
            (),
            RunErrorView,
        >(RunErrorView::Code { recipe: recipe.name, code: code as int }),
        recipe.conclusion(OutcomeView::Exited { code: None, signal: Some(number) }) == Err::<
            (),
            RunErrorView,
        >(RunErrorView::Signal { recipe: recipe.name, signal: number as int }),
        recipe.conclusion(OutcomeView::Exited { code: None, signal: None }) == Err::<
            (),
            RunErrorView,
        >(RunErrorView::UnknownFailure { recipe: recipe.name }),
        recipe.shebang ==> recipe.conclusion(OutcomeView::Failed { io_error }) == Err::<
            (),
            RunErrorView,
        >(RunErrorView::TmpdirIoError { recipe: recipe.name, io_error }),
        !recipe.shebang ==> recipe.conclusion(OutcomeView::Failed { io_error }) == Err::<
            (),
            RunErrorView,
        >(RunErrorView::IoError { recipe: recipe.name, io_error }),
{
}

/// After a launch comes the next line of the recipe, if what was launched ended with the code zero,
/// the recipe is not a script, and there is a next line. After any other outcome comes nothing.
pub proof fn law_next_launch(recipe: RecipeView, at: nat, outcome: OutcomeView)
    requires
        recipe.shebang ==> at == 0,
        !recipe.shebang ==> at < recipe.evaluated_lines.len(),
    ensures
        match recipe.after(at, outcome) {
            Ok(Some(next)) => is_zero_exit(outcome) && !recipe.shebang && next == at + 1 && next
                < recipe.evaluated_lines.len(),
            Ok(None) => is_zero_exit(outcome) && (recipe.shebang || at + 1
                == recipe.evaluated_lines.len()),
            Err(error) => !is_zero_exit(outcome) && recipe.conclusion(outcome) == Err::<
                (),
                RunErrorView,
            >(error),
        },
        at < recipe.launches(),
        recipe.launches() == 0 <==> !recipe.shebang && recipe.evaluated_lines.len() == 0,
{
}

/// A recipe that is not a script has the shell run its lines, all of them and in their order. A line
/// that begins with an at sign is run without it, and not printed; any other is printed and run as
/// it is.
pub proof fn law_lines_are_commands(recipe: RecipeView, i: int)
    requires
        !recipe.shebang,
        0 <= i < recipe.evaluated_lines.len(),
    ensures
        recipe.job() matches JobView::Commands { commands } && {
            let line = recipe.evaluated_lines[i];
            &&& commands.len() == recipe.evaluated_lines.len()
            &&& line.len() > 0 && line[0] == '@' ==> !commands[i].echoed && line == seq!['@']
                + commands[i].line
            &&& !(line.len() > 0 && line[0] == '@') ==> commands[i].echoed && commands[i].line
                == line
        },
{
    reveal_strlit("@");
    let line = recipe.evaluated_lines[i];
    if line.len() > 0 && line[0] == '@' {
        assert("@"@ =~= line.take(1));
        assert(line =~= seq!['@'] + line.skip(1));
    } else if "@"@.is_prefix_of(line) {
        assert(line[0] == "@"@[0]);
    }
}

/// A recipe is a script if and only if its first line says so. The script of one line is that line,
/// and as many line feeds as there are lines up to it in the justfile, and one. Each further line
/// adds itself and a line feed to the script.
pub proof fn law_scripts_are_lines(recipe: RecipeView, more: RecipeView, line: Seq<char>)
    requires
        recipe.evaluated_lines.len() > 0,
        more == (RecipeView { evaluated_lines: recipe.evaluated_lines.push(line), ..recipe }),
    ensures
        recipe.job() is Script <==> recipe.shebang,
        recipe.shebang ==> {
            &&& recipe.evaluated_lines.len() == 1 ==> recipe.job() == (JobView::Script {
                text: recipe.evaluated_lines[0] + Seq::new(
                    recipe.line_number + 2,
                    |i: int| '\n',
                ),
            })
            &&& more.job() == (JobView::Script {
                text: recipe.job()->text + line + seq!['\n'],
            })
        },
{
    reveal_strlit("\n");
    let lines = recipe.evaluated_lines;
    let feed = seq!['\n'];
    assert("\n"@ =~= feed);
    let rest = lines.skip(1);
    assert(more.evaluated_lines.skip(1) =~= rest.push(line));
    assert(rest.push(line).drop_last() =~= rest);
    assert(more.evaluated_lines[0] == lines[0]);
    assert(terminated(rest.push(line)) =~= terminated(rest) + line + feed);
    assert(more.script() =~= recipe.script() + line + feed);
    if lines.len() == 1 {
        assert(rest =~= Seq::empty());
        assert(terminated(rest) =~= Seq::empty());
        assert(recipe.script() =~= lines[0] + Seq::new(recipe.line_number + 2, |i: int| '\n'));
    }
}

} // verus!
