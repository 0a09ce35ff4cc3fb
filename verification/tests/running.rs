use just::justfile::{Justfile, Plan};
use just::parse::parse;
use just::run::{error_from_signal, executable, Command, IoError, IoErrorKind, Job, Outcome, RunError};

fn order<'a>(plan: &Plan<'a, '_>) -> Vec<&'a str> {
    plan.order.iter().map(|recipe| recipe.name).collect()
}

fn planned<'a>(justfile: &Justfile<'a>, names: &[&'a str]) -> (Vec<&'a str>, bool) {
    match justfile.run(names) {
        Ok(plan) => (order(&plan), plan.complete),
        Err(error) => panic!("{}", error.to_string()),
    }
}

#[test]
fn first_recipe() {
    assert_eq!(parse("").unwrap().first(), None);
    assert_eq!(parse("b:\na:\n").unwrap().first(), Some("b"));
    assert_eq!(parse("x = \"y\"\n\nz:\nc:\n").unwrap().first(), Some("z"));
}

#[test]
fn recipes_of_a_justfile() {
    let justfile = parse("b:\nc: a\na:\n").unwrap();
    assert_eq!(justfile.count(), 3);
    assert_eq!(justfile.recipes(), vec!["a", "b", "c"]);
    assert_eq!(justfile.get("c").unwrap().dependencies, vec!["a"]);
    assert!(justfile.get("d").is_none());
}

#[test]
fn dependencies_run_first() {
    let justfile = parse("d: c b\nc: a\nb: a\na:\n").unwrap();
    assert_eq!(planned(&justfile, &["d"]), (vec!["a", "c", "b", "d"], true));
    assert_eq!(planned(&justfile, &["b"]), (vec!["a", "b"], true));
    assert_eq!(planned(&justfile, &["b", "c"]), (vec!["a", "b", "c"], true));
    assert_eq!(planned(&justfile, &[]), (vec![], true));
}

#[test]
fn what_is_asked_for_runs_again() {
    let justfile = parse("b: a\na:\n").unwrap();
    assert_eq!(planned(&justfile, &["b", "a"]), (vec!["a", "b", "a"], true));
    assert_eq!(planned(&justfile, &["a", "a"]), (vec!["a", "a"], true));
    assert_eq!(planned(&justfile, &["a", "b"]), (vec!["a", "b"], true));
}

#[test]
fn incomplete_plans() {
    let justfile = parse("a: b nope\nb:\n").unwrap();
    assert_eq!(planned(&justfile, &["a", "b"]), (vec!["b"], false));
    let justfile = parse("x: zw y\ny: zz x\nzw:\nzz:\n").unwrap();
    assert_eq!(planned(&justfile, &["x"]), (vec!["zw", "zz"], false));
}

#[test]
fn run_one_recipe() {
    let justfile = parse("c: a b\nb: a\na:\n").unwrap();
    let mut ran = vec![];
    assert!(justfile.run_recipe(justfile.get("b").unwrap(), &mut ran));
    assert!(justfile.run_recipe(justfile.get("c").unwrap(), &mut ran));
    assert_eq!(ran.iter().map(|r| r.name).collect::<Vec<_>>(), vec!["a", "b", "c"]);
}

#[test]
fn run_one_recipe_after_others() {
    let justfile = parse("d: c b\nc: b a\nb: a\na:\n").unwrap();
    let get = |name| justfile.get(name).unwrap();
    let names = |ran: &Vec<&just::recipe::Recipe<'_>>| -> Vec<String> {
        ran.iter().map(|r| r.name.to_string()).collect()
    };
    // what was run is not run again, and what is added is added once
    let mut ran = vec![get("a")];
    assert!(justfile.run_recipe(get("d"), &mut ran));
    assert_eq!(names(&ran), vec!["a", "b", "c", "d"]);
    // but for what is asked for, however often it was run
    let mut ran = vec![get("b"), get("b"), get("c")];
    assert!(justfile.run_recipe(get("c"), &mut ran));
    assert_eq!(names(&ran), vec!["b", "b", "c", "a", "c"]);
}

#[test]
fn unknown_recipes() {
    let justfile = parse("a:\nb c:\n").unwrap();
    match justfile.run(&["x", "a", "y", "b", "x"]) {
        Err(error) => {
            assert_eq!(error, RunError::UnknownRecipes { recipes: vec!["x", "y", "x"] })
        }
        Ok(_) => panic!("unknown recipes were run"),
    }
}

#[test]
fn missing_arguments() {
    let justfile = parse("a:\nb c:\nd: b\n").unwrap();
    match justfile.run(&["a", "b"]) {
        Err(error) => assert_eq!(error, RunError::MissingArguments),
        Ok(_) => panic!("a recipe was run without its arguments"),
    }
    assert_eq!(planned(&justfile, &["d"]), (vec!["b", "d"], true));
}

#[test]
fn job_of_commands() {
    let justfile = parse("x = \"y\"\na:\n echo {{x}}\n @echo z\n @\n").unwrap();
    assert_eq!(
        justfile.get("a").unwrap().job(),
        Job::Commands {
            commands: vec![
                Command { echoed: true, line: "echo y" },
                Command { echoed: false, line: "echo z" },
                Command { echoed: false, line: "" },
            ]
        }
    );
    assert_eq!(parse("a:\n").unwrap().get("a").unwrap().job(), Job::Commands { commands: vec![] });
}

#[test]
fn job_of_a_script() {
    let text = "\n\na:\n #!sh\n one\n  two\n";
    let justfile = parse(text).unwrap();
    let script = match justfile.get("a").unwrap().job() {
        Job::Script { text } => text,
        Job::Commands { .. } => panic!("not a script"),
    };
    assert_eq!(script, "#!sh\n\n\n\none\n two\n");
    // the lines of the script stand where they stand in the justfile
    assert_eq!(script.lines().nth(4), Some("one"));
    assert_eq!(text.lines().nth(4), Some(" one"));
    assert_eq!(script.lines().nth(5), Some(" two"));
}

#[test]
fn outcomes() {
    let justfile = parse("a:\n x\nb:\n #!sh\n").unwrap();
    let a = justfile.get("a").unwrap();
    let b = justfile.get("b").unwrap();
    let io = || IoError { kind: IoErrorKind::NotFound, message: "gone".to_string() };
    assert_eq!(a.conclude(Outcome::Exited { code: Some(0), signal: None }), Ok(()));
    assert_eq!(
        a.conclude(Outcome::Exited { code: Some(3), signal: None }),
        Err(RunError::Code { recipe: "a", code: 3 })
    );
    assert_eq!(
        b.conclude(Outcome::Exited { code: None, signal: Some(15) }),
        Err(RunError::Signal { recipe: "b", signal: 15 })
    );
    assert_eq!(
        b.conclude(Outcome::Exited { code: None, signal: None }),
        Err(RunError::UnknownFailure { recipe: "b" })
    );
    assert_eq!(
        a.conclude(Outcome::Failed { io_error: io() }),
        Err(RunError::IoError { recipe: "a", io_error: io() })
    );
    assert_eq!(
        b.conclude(Outcome::Failed { io_error: io() }),
        Err(RunError::TmpdirIoError { recipe: "b", io_error: io() })
    );
}

/// How many launches there are of the recipe `name` with those exit codes, and what comes of it.
fn launched<'a>(
    justfile: &Justfile<'a>,
    name: &'a str,
    codes: &[i32],
) -> (usize, Result<(), RunError<'a>>) {
    let recipe = justfile.get(name).unwrap();
    let mut count = 0;
    let mut at = recipe.begin();
    while let Some(i) = at {
        assert_eq!(i, count);
        count += 1;
        match recipe.next(i, Outcome::Exited { code: Some(codes[i]), signal: None }) {
            Ok(next) => at = next,
            Err(error) => return (count, Err(error)),
        }
    }
    (count, Ok(()))
}

#[test]
fn nothing_is_launched_after_a_failure() {
    let justfile = parse("a:\n x\n y\n z\nb:\n #!sh\n x\n y\nc:\n").unwrap();
    let failed = |recipe, code| Err(RunError::Code { recipe, code });
    assert_eq!(launched(&justfile, "a", &[0, 0, 0]), (3, Ok(())));
    assert_eq!(launched(&justfile, "a", &[5, 0, 0]), (1, failed("a", 5)));
    assert_eq!(launched(&justfile, "a", &[0, 6, 7]), (2, failed("a", 6)));
    assert_eq!(launched(&justfile, "a", &[0, 0, 8]), (3, failed("a", 8)));
    assert_eq!(launched(&justfile, "b", &[0]), (1, Ok(())));
    assert_eq!(launched(&justfile, "b", &[9]), (1, failed("b", 9)));
    assert_eq!(launched(&justfile, "c", &[]), (0, Ok(())));
}

#[test]
fn next_launch() {
    let justfile = parse("a:\n x\n y\n").unwrap();
    let a = justfile.get("a").unwrap();
    let fine = || Outcome::Exited { code: Some(0), signal: None };
    let io = || IoError { kind: IoErrorKind::NotFound, message: "gone".to_string() };
    assert_eq!(a.begin(), Some(0));
    assert_eq!(a.next(0, fine()), Ok(Some(1)));
    assert_eq!(a.next(1, fine()), Ok(None));
    assert_eq!(
        a.next(0, Outcome::Failed { io_error: io() }),
        Err(RunError::IoError { recipe: "a", io_error: io() })
    );
    assert_eq!(
        a.next(1, Outcome::Exited { code: None, signal: Some(9) }),
        Err(RunError::Signal { recipe: "a", signal: 9 })
    );
}

#[test]
fn nothing_is_run_after_a_failure() {
    let justfile = parse("c: b\nb: a\na:\n").unwrap();
    let plan = match justfile.run(&["c"]) {
        Ok(plan) => plan,
        Err(error) => panic!("{}", error.to_string()),
    };
    assert_eq!(order(&plan), vec!["a", "b", "c"]);
    assert_eq!(plan.begin(), Some(0));
    assert_eq!(plan.next(0, Ok(())), Ok(Some(1)));
    assert_eq!(plan.next(1, Ok(())), Ok(Some(2)));
    assert_eq!(plan.next(2, Ok(())), Ok(None));
    for i in 0..3 {
        let failed = || RunError::Code { recipe: "a", code: 4 };
        assert_eq!(plan.next(i, Err(failed())), Err(failed()));
    }
    match justfile.run(&[]) {
        Ok(plan) => assert_eq!(plan.begin(), None),
        Err(error) => panic!("{}", error.to_string()),
    }
}

#[test]
fn signals() {
    assert_eq!(error_from_signal("a", Some(2)), RunError::Signal { recipe: "a", signal: 2 });
    assert_eq!(error_from_signal("a", None), RunError::UnknownFailure { recipe: "a" });
}

#[test]
fn executable_modes() {
    assert_eq!(executable(0o644), 0o744);
    assert_eq!(executable(0o755), 0o755);
    assert_eq!(executable(0), 0o100);
}
