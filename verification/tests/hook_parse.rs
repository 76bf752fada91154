//! Hook files.

use piko_txn::hook::parse::{parse, Operations, TriggerKind, When};

const REAL: &str = "\
[Trigger]
Operation = Install
Operation = Upgrade
Target = glibc
Type = Package

[Action]
Depends = bash
Depends = glibc
Description = Generating the configured locale...
Exec = /usr/bin/locale-gen
When = PostTransaction
";

#[test]
fn parses_a_real_hook() {
    let hook = parse("10-glibc-locale-gen.hook", REAL).unwrap();

    assert_eq!(hook.name, "10-glibc-locale-gen.hook");
    assert_eq!(hook.description.as_deref(), Some("Generating the configured locale..."));
    assert_eq!(hook.depends, ["bash", "glibc"]);
    assert_eq!(hook.command, ["/usr/bin/locale-gen"]);
    assert_eq!(hook.when, Some(When::PostTransaction));
    assert!(!hook.abort_on_fail);
    assert!(!hook.needs_targets);

    assert_eq!(hook.triggers.len(), 1);
    let trigger = hook.triggers.first().unwrap();
    assert_eq!(trigger.kind, Some(TriggerKind::Package));
    assert_eq!(trigger.targets, ["glibc"]);
    assert!(trigger.operations.contains(Operations::install()));
    assert!(trigger.operations.contains(Operations::upgrade()));
    assert!(!trigger.operations.contains(Operations::remove()));
    assert!(hook.is_active());
}

#[test]
fn multiple_triggers_are_kept_in_file_order() {
    let text = "\
[Trigger]
Operation = Install
Type = Package
Target = a

[Trigger]
Operation = Remove
Type = Path
Target = usr/lib/*

[Action]
When = PreTransaction
Exec = /bin/true
";
    let hook = parse("x.hook", text).unwrap();
    assert_eq!(hook.triggers.len(), 2);
    assert_eq!(hook.triggers.first().unwrap().kind, Some(TriggerKind::Package));
    assert_eq!(hook.triggers.get(1).unwrap().kind, Some(TriggerKind::Path));
}

#[test]
fn the_bare_flags_are_recognised() {
    let text = "\
[Trigger]
Operation = Upgrade
Type = Package
Target = *

[Action]
When = PreTransaction
Exec = /bin/true
AbortOnFail
NeedsTargets
";
    let hook = parse("x.hook", text).unwrap();
    assert!(hook.abort_on_fail);
    assert!(hook.needs_targets);
}

#[test]
fn an_empty_file_is_a_valid_masking_hook() {
    let hook = parse("disabled.hook", "").unwrap();
    assert!(hook.triggers.is_empty());
    assert_eq!(hook.when, None);
    assert!(!hook.is_active(), "a masking hook must never run");
}

#[test]
fn file_is_accepted_as_a_deprecated_alias_for_path() {
    let text = "\
[Trigger]
Operation = Install
Type = File
Target = usr/lib/*

[Action]
When = PostTransaction
Exec = /bin/true
";
    let hook = parse("x.hook", text).unwrap();
    assert_eq!(hook.triggers.first().unwrap().kind, Some(TriggerKind::Path));
}

#[test]
fn a_trigger_missing_any_required_part_is_refused() {
    let missing_target = "\
[Trigger]
Operation = Install
Type = Package

[Action]
When = PostTransaction
Exec = /bin/true
";
    let missing_type = "\
[Trigger]
Operation = Install
Target = a

[Action]
When = PostTransaction
Exec = /bin/true
";
    let missing_operation = "\
[Trigger]
Type = Package
Target = a

[Action]
When = PostTransaction
Exec = /bin/true
";
    for (text, wanted) in [
        (missing_target, "no Target"),
        (missing_type, "no Type"),
        (missing_operation, "no Operation"),
    ] {
        let error = parse("x.hook", text).unwrap_err().message();
        assert!(error.contains(wanted), "{error}");
    }
}

#[test]
fn a_hook_with_triggers_needs_exec_and_when() {
    let no_exec = "\
[Trigger]
Operation = Install
Type = Package
Target = a

[Action]
When = PostTransaction
";
    let no_when = "\
[Trigger]
Operation = Install
Type = Package
Target = a

[Action]
Exec = /bin/true
";
    assert!(parse("x.hook", no_exec).unwrap_err().message().contains("no Exec"));
    assert!(parse("x.hook", no_when).unwrap_err().message().contains("no When"));
}

#[test]
fn unknown_sections_options_and_values_are_refused() {
    let cases = [
        ("[Nonsense]\n", "invalid section"),
        ("[Action]\nWhatever = 1\n", "invalid option"),
        ("[Action]\nWhen = Sometimes\n", "invalid value"),
        ("[Trigger]\nOperation = Fiddle\n", "invalid value"),
        ("[Trigger]\nType = Elephant\n", "invalid value"),
        ("[Trigger]\nWhatever = 1\n", "invalid option"),
        ("Exec = /bin/true\n", "invalid option"),
    ];
    for (text, wanted) in cases {
        let error = parse("x.hook", text).unwrap_err().message();
        assert!(error.contains(wanted), "{text:?} gave {error}");
    }
}

#[test]
fn an_exec_value_may_contain_equals_signs() {
    let text = "\
[Trigger]
Operation = Upgrade
Type = Package
Target = openssh

[Action]
When = PreTransaction
Exec = /usr/bin/systemctl --runtime set-property sshd.service Markers=needs-restart
";
    let hook = parse("x.hook", text).unwrap();
    assert_eq!(hook.command.last().unwrap(), "Markers=needs-restart");
}

#[test]
fn an_unbalanced_quote_in_exec_refuses_the_hook() {
    let text = "\
[Trigger]
Operation = Install
Type = Package
Target = a

[Action]
When = PostTransaction
Exec = /bin/sh -c 'oops
";
    let error = parse("x.hook", text).unwrap_err().message();
    assert!(error.contains("invalid value"), "{error}");
}

#[test]
fn inverted_targets_are_preserved_in_order() {
    let text = "\
[Trigger]
Operation = Install
Type = Path
Target = usr/share/icons/*
Target = !usr/share/icons/*/?*

[Action]
When = PostTransaction
Exec = /bin/true
";
    let hook = parse("x.hook", text).unwrap();
    assert_eq!(
        hook.triggers.first().unwrap().targets,
        ["usr/share/icons/*", "!usr/share/icons/*/?*"]
    );
}

#[test]
fn a_refusal_names_the_file_and_the_line() {
    assert_eq!(
        parse("x.hook", "# a comment\n\n[Action]\nWhen = Sometimes\n").unwrap_err().message(),
        "x.hook: line 4: invalid value Sometimes"
    );
    assert_eq!(
        parse("x.hook", "[Action]\nExec = 'a\n").unwrap_err().message(),
        "x.hook: line 2: invalid value: the quote opened at character 0 is never closed"
    );
    assert_eq!(
        parse("x.hook", "[Trigger]\n").unwrap_err().message(),
        "x.hook: trigger 1 has no Target"
    );
}

#[test]
fn operations_form_a_set() {
    let none = Operations::default();
    assert!(none.is_empty());
    let both = none.union(Operations::install()).union(Operations::remove());
    assert!(!both.is_empty());
    assert!(both.contains(Operations::install()));
    assert!(both.contains(Operations::remove()));
    assert!(!both.contains(Operations::upgrade()));
    assert!(both.contains(none));
}
