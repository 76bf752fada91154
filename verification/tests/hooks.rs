//! Hooks of several directories, and running one.

use piko_txn::exec::{Command, Outcome, Status};
use piko_txn::hook::parse::parse;
use piko_txn::hook::trigger::Added;
use piko_txn::hook::{
    finish, prepare, sorted_files, stem, unsatisfied_dependency, Contents, Directory, Found, Hook,
    Hooks, Listing, Prepared, Problem, Summary, When,
};
use piko_txn::pattern::{Answer, Answers};
use piko_txn::table::TextSet;

/// Whether `*` and `?` make a pattern fit a text.
fn fits(pattern: &[u8], text: &[u8]) -> bool {
    match (pattern.first(), text.first()) {
        (None, None) => true,
        (Some(b'*'), _) => {
            fits(&pattern[1..], text) || (!text.is_empty() && fits(pattern, &text[1..]))
        },
        (Some(b'?'), Some(_)) => fits(&pattern[1..], &text[1..]),
        (Some(a), Some(b)) => a == b && fits(&pattern[1..], &text[1..]),
        _ => false,
    }
}

/// Whether the last pattern of a list that fits a text is not inverted.
fn matched(patterns: &[String], text: &str) -> bool {
    let mut found = false;
    for pattern in patterns {
        let (bare, wanted) = match pattern.strip_prefix('!') {
            Some(bare) => (bare, false),
            None => (pattern.as_str(), true),
        };
        if fits(bare.as_bytes(), text.as_bytes()) {
            found = wanted;
        }
    }
    found
}

fn answers(hooks: &[&Hook], summary: &Summary) -> Answers {
    let mut texts: Vec<&String> = Vec::new();
    for added in &summary.added {
        texts.push(&added.name);
        texts.extend(added.files.iter().chain(&added.old_files));
    }
    for removed in &summary.removed {
        texts.push(&removed.name);
        texts.extend(&removed.files);
    }
    let mut lists = vec![summary.no_extract.clone()];
    for hook in hooks {
        lists.extend(hook.triggers.iter().map(|trigger| trigger.targets.clone()));
    }
    let lists = lists
        .into_iter()
        .map(|patterns| {
            let mut set = TextSet::new();
            for text in texts.iter().filter(|text| matched(&patterns, text)) {
                set.insert((*text).clone());
            }
            Answer { patterns, matched: set }
        })
        .collect();
    Answers { lists }
}

fn triggered<'a>(hooks: &'a Hooks, when: When, summary: &Summary) -> Vec<(&'a Hook, Vec<String>)> {
    let all: Vec<&Hook> = hooks.all().iter().collect();
    hooks.triggered(when, &answers(&all, summary), summary)
}

const BODY: &str = "\
[Trigger]
Operation = Install
Type = Package
Target = *

[Action]
When = PostTransaction
Exec = /bin/true
";

fn text(name: &str, contents: &str) -> Found {
    Found { name: name.to_owned(), contents: Contents::Text(contents.to_owned()) }
}

fn directory(path: &str, files: Vec<Found>) -> Directory {
    Directory { path: path.to_owned(), listing: Listing::Files(sorted_files(files)) }
}

fn adding(name: &str) -> Summary {
    Summary {
        added: vec![Added { name: name.to_owned(), ..Added::default() }],
        ..Summary::default()
    }
}

#[test]
fn only_dot_hook_files_are_read() {
    let files = vec![text("a.hook", BODY), text("notes.txt", "nonsense"), text("hook", BODY)];
    let (hooks, problems) = Hooks::collect(&vec![directory("/hooks", files)]);
    assert!(problems.is_empty(), "{problems:?}");
    assert_eq!(hooks.all().len(), 1);
    assert_eq!(hooks.all().first().unwrap().name, "a.hook");
}

#[test]
fn hooks_are_ordered_by_name_without_the_suffix() {
    let files = ["20-z.hook", "10-a-b.hook", "10-a.hook", "05-first.hook"]
        .into_iter()
        .map(|name| text(name, BODY))
        .collect();
    let (hooks, _) = Hooks::collect(&vec![directory("/hooks", files)]);
    let names: Vec<&str> = hooks.all().iter().map(|hook| hook.name.as_str()).collect();
    assert_eq!(names, ["05-first.hook", "10-a.hook", "10-a-b.hook", "20-z.hook"]);
}

#[test]
fn a_later_directory_overrides_an_earlier_one() {
    let system = vec![text("same.hook", &BODY.replace("/bin/true", "/bin/system"))];
    let custom = vec![text("same.hook", &BODY.replace("/bin/true", "/bin/custom"))];
    let (hooks, _) =
        Hooks::collect(&vec![directory("/system", system), directory("/custom", custom)]);
    assert_eq!(hooks.all().len(), 1, "both copies were loaded");
    assert_eq!(hooks.all().first().unwrap().command.first().unwrap(), "/bin/custom");
}

#[test]
fn an_empty_override_masks_a_lower_priority_hook() {
    let system = vec![text("noisy.hook", BODY)];
    let custom = vec![text("noisy.hook", "")];
    let (hooks, problems) =
        Hooks::collect(&vec![directory("/system", system), directory("/custom", custom)]);
    assert!(problems.is_empty(), "{problems:?}");
    assert_eq!(hooks.all().len(), 1);
    assert!(
        triggered(&hooks, When::PostTransaction, &adding("anything")).is_empty(),
        "the masked hook still fired"
    );
}

#[test]
fn a_symlink_to_dev_null_masks_a_hook() {
    let system = vec![text("noisy.hook", BODY)];
    let custom = vec![Found { name: "noisy.hook".to_owned(), contents: Contents::Special }];
    let (hooks, problems) =
        Hooks::collect(&vec![directory("/system", system), directory("/custom", custom)]);
    assert!(problems.is_empty(), "{problems:?}");
    assert_eq!(hooks.all().len(), 1);
    assert!(!hooks.all().first().unwrap().is_active());
}

#[test]
fn a_missing_directory_is_not_a_problem() {
    let missing =
        Directory { path: "/nonexistent/hooks".to_owned(), listing: Listing::Missing };
    let (hooks, problems) = Hooks::collect(&vec![missing]);
    assert!(problems.is_empty(), "{problems:?}");
    assert!(hooks.all().is_empty());
}

#[test]
fn a_broken_hook_is_reported_and_the_rest_still_load() {
    let files = vec![text("good.hook", BODY), text("bad.hook", "[Nonsense]\n")];
    let (hooks, problems) = Hooks::collect(&vec![directory("/hooks", files)]);
    assert_eq!(hooks.all().len(), 1);
    assert_eq!(problems.len(), 1);
    assert!(problems.first().unwrap().message().contains("bad.hook"), "{problems:?}");
}

#[test]
fn a_directory_named_like_a_hook_is_skipped() {
    let files = vec![
        Found { name: "subdir.hook".to_owned(), contents: Contents::Directory },
        text("real.hook", BODY),
    ];
    let (hooks, problems) = Hooks::collect(&vec![directory("/hooks", files)]);
    assert!(problems.is_empty(), "{problems:?}");
    assert_eq!(hooks.all().len(), 1);
}

#[test]
fn only_hooks_for_the_requested_phase_are_selected() {
    let files = vec![
        text("post.hook", BODY),
        text("pre.hook", &BODY.replace("PostTransaction", "PreTransaction")),
    ];
    let (hooks, _) = Hooks::collect(&vec![directory("/hooks", files)]);
    let summary = adding("x");

    let pre = triggered(&hooks, When::PreTransaction, &summary);
    assert_eq!(pre.len(), 1);
    assert_eq!(pre.first().unwrap().0.name, "pre.hook");

    let post = triggered(&hooks, When::PostTransaction, &summary);
    assert_eq!(post.len(), 1);
    assert_eq!(post.first().unwrap().0.name, "post.hook");
}

#[test]
fn a_broken_override_hides_the_lower_priority_hook() {
    let system = vec![text("same.hook", BODY), text("other.hook", BODY)];
    let custom = vec![text("same.hook", "[Trigger]\n")];
    let (hooks, problems) =
        Hooks::collect(&vec![directory("/system", system), directory("/custom", custom)]);
    assert_eq!(problems.len(), 1, "{problems:?}");
    let names: Vec<&str> = hooks.all().iter().map(|hook| hook.name.as_str()).collect();
    assert_eq!(names, ["other.hook"]);
}

#[test]
fn what_cannot_be_read_is_named() {
    let unreadable = vec![Found {
        name: "a.hook".to_owned(),
        contents: Contents::Unreadable("permission denied".to_owned()),
    }];
    let broken = Directory {
        path: "/broken".to_owned(),
        listing: Listing::Unreadable("input/output error".to_owned()),
    };
    let (hooks, problems) = Hooks::collect(&vec![directory("/hooks", unreadable), broken]);
    assert!(hooks.all().is_empty());
    let messages: Vec<String> = problems.iter().map(Problem::message).collect();
    assert_eq!(
        messages,
        [
            "could not read the hook directory /broken: input/output error",
            "could not read the hook /hooks/a.hook: permission denied",
        ]
    );
}

fn hook(extra: &str) -> Hook {
    parse("x.hook", &BODY.replace("Exec = /bin/true\n", &format!("Exec = /bin/echo a b\n{extra}")))
        .unwrap()
}

fn start(prepared: Prepared) -> Command {
    match prepared {
        Prepared::Start(command) => command,
        Prepared::Done(run) => panic!("nothing was started: {run:?}"),
    }
}

#[test]
fn a_hooks_targets_are_fed_to_it_one_per_line() {
    let targets = vec!["one".to_owned(), "two".to_owned()];
    let command = start(prepare(&hook("NeedsTargets\n"), &targets, None));
    assert_eq!(command.program, "/bin/echo");
    assert_eq!(command.args, ["a", "b"]);
    assert_eq!(command.stdin.as_deref(), Some(b"one\ntwo\n".as_slice()));

    let command = start(prepare(&hook(""), &targets, None));
    assert_eq!(command.stdin, None);
}

#[test]
fn an_unsatisfied_dependency_keeps_a_hook_from_running() {
    let wanting = hook("Depends = bash\nDepends = not a relation at all\nAbortOnFail\n");
    let mut satisfied = TextSet::new();
    assert_eq!(unsatisfied_dependency(&wanting, &satisfied).as_deref(), Some("bash"));
    satisfied.insert("bash".to_owned());
    satisfied.insert("not a relation at all".to_owned());
    let missing = unsatisfied_dependency(&wanting, &satisfied);
    assert_eq!(missing.as_deref(), Some("not a relation at all"));
    match prepare(&wanting, &Vec::new(), missing) {
        Prepared::Done(run) => {
            assert_eq!(run.unsatisfied.as_deref(), Some("not a relation at all"));
            assert!(!run.succeeded());
            assert!(!run.fatal, "nothing is left to abort after the transaction");
        }
        Prepared::Start(command) => panic!("{command:?} was started"),
    }
}

#[test]
fn only_a_failure_before_the_transaction_is_fatal() {
    let exited = |code: i32| Outcome {
        status: Status::Exited(code),
        output: Vec::new(),
        truncated: false,
    };
    let mut aborting = hook("AbortOnFail\n");
    assert!(!finish(&aborting, exited(1)).fatal);
    aborting.when = Some(When::PreTransaction);
    assert!(finish(&aborting, exited(1)).fatal);
    assert!(!finish(&aborting, exited(0)).fatal);
    assert!(finish(&aborting, exited(0)).succeeded());
    aborting.abort_on_fail = false;
    assert!(!finish(&aborting, exited(1)).fatal);
}

#[test]
fn a_stem_is_a_name_without_its_suffix() {
    assert_eq!(stem("10-a.hook"), "10-a");
    assert_eq!(stem("10-a"), "10-a");
}
