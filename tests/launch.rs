use yeet::entry::App;
use yeet::launch::{
    build_launch_command, clean_desktop_exec_arg, command_from_words, exec_from_words,
    parse_command, parse_desktop_exec, wrap_in_terminal, LaunchCommandError,
};

fn strings(v: &[&str]) -> Vec<String> {
    v.iter().map(|s| s.to_string()).collect()
}

fn app(name: &str, command: &str, terminal: bool) -> App {
    App {
        name: name.to_string(),
        command: command.to_string(),
        icon: None,
        description: None,
        keywords: vec![],
        terminal,
    }
}

#[test]
fn clean_desktop_exec_arg_removes_field_codes() {
    assert_eq!(clean_desktop_exec_arg("%u"), "");
    assert_eq!(clean_desktop_exec_arg("%F"), "");
    assert_eq!(clean_desktop_exec_arg("--opt=%k"), "--opt=");
}

#[test]
fn clean_desktop_exec_arg_preserves_escaped_percent() {
    assert_eq!(clean_desktop_exec_arg("100%%"), "100%");
    assert_eq!(clean_desktop_exec_arg("--format=%%d"), "--format=%d");
}

#[test]
fn clean_desktop_exec_arg_preserves_unknown_percent_codes() {
    assert_eq!(clean_desktop_exec_arg("--ratio=50%x"), "--ratio=50%x");
    assert_eq!(clean_desktop_exec_arg("%z"), "%z");
}

#[test]
fn parse_desktop_exec_simple_command() {
    let result = parse_desktop_exec("firefox").ok();
    assert_eq!(result, Some(("firefox".to_string(), vec![])));
}

#[test]
fn parse_desktop_exec_with_arguments() {
    let result = parse_desktop_exec("firefox --private-window").ok();
    assert_eq!(
        result,
        Some(("firefox".to_string(), vec!["--private-window".to_string()]))
    );
}

#[test]
fn parse_desktop_exec_with_quoted_args() {
    let result = parse_desktop_exec(r#"app "arg with spaces" --flag"#).ok();
    assert_eq!(
        result,
        Some((
            "app".to_string(),
            vec!["arg with spaces".to_string(), "--flag".to_string()]
        ))
    );
}

#[test]
fn parse_desktop_exec_removes_field_code_arguments() {
    let result = parse_desktop_exec("firefox %u").ok();
    assert_eq!(result, Some(("firefox".to_string(), vec![])));

    let result = parse_desktop_exec(r#"firefox "%u""#).ok();
    assert_eq!(result, Some(("firefox".to_string(), vec![])));

    let result = parse_desktop_exec("code %F --new-window").ok();
    assert_eq!(
        result,
        Some(("code".to_string(), vec!["--new-window".to_string()]))
    );
}

#[test]
fn parse_desktop_exec_shell_metacharacters_not_interpreted() {
    let result = parse_desktop_exec("firefox; rm -rf ~").ok();
    assert_eq!(
        result,
        Some((
            "firefox;".to_string(),
            vec!["rm".to_string(), "-rf".to_string(), "~".to_string()]
        ))
    );

    let result = parse_desktop_exec("app | cat").ok();
    assert_eq!(
        result,
        Some(("app".to_string(), vec!["|".to_string(), "cat".to_string()]))
    );

    let result = parse_desktop_exec("app && malicious").ok();
    assert_eq!(
        result,
        Some((
            "app".to_string(),
            vec!["&&".to_string(), "malicious".to_string()]
        ))
    );
}

#[test]
fn parse_desktop_exec_empty_returns_error() {
    assert_eq!(parse_desktop_exec(""), Err(LaunchCommandError::EmptyExec));
    assert_eq!(
        parse_desktop_exec("   "),
        Err(LaunchCommandError::EmptyExec)
    );
}

#[test]
fn parse_desktop_exec_absolute_path() {
    let result = parse_desktop_exec("/usr/bin/app --config /etc/app.conf").ok();
    assert_eq!(
        result,
        Some((
            "/usr/bin/app".to_string(),
            vec!["--config".to_string(), "/etc/app.conf".to_string()]
        ))
    );
}

#[test]
fn build_launch_command_wraps_terminal_with_args() {
    let app = App {
        name: "Htop".to_string(),
        command: "htop".to_string(),
        icon: None,
        description: None,
        keywords: vec![],
        terminal: true,
    };

    let (program, args) = build_launch_command(&app, "kitty --single-instance").unwrap();
    assert_eq!(program, "kitty");
    assert_eq!(
        args,
        vec![
            "--single-instance".to_string(),
            "-e".to_string(),
            "htop".to_string()
        ]
    );
}

#[test]
fn clean_arg_leaves_plain_tokens_alone() {
    for t in ["firefox", "--flag=value", ";", "|", "&&", "`id`", ""] {
        assert_eq!(clean_desktop_exec_arg(t), t);
        let once = clean_desktop_exec_arg(t);
        assert_eq!(clean_desktop_exec_arg(&once), once);
    }
}

#[test]
fn clean_arg_drops_trailing_percent_and_every_code() {
    assert_eq!(clean_desktop_exec_arg("abc%"), "abc");
    for code in ["f", "F", "u", "U", "d", "D", "n", "N", "i", "c", "k", "v", "m"] {
        assert_eq!(clean_desktop_exec_arg(&format!("a%{}b", code)), "ab");
    }
    assert_eq!(clean_desktop_exec_arg("%%u"), "%u");
    assert_eq!(clean_desktop_exec_arg("%%%u"), "%");
}

#[test]
fn backquotes_stay_literal() {
    let result = parse_desktop_exec("app `id` $(whoami)").unwrap();
    assert_eq!(result.0, "app");
    assert_eq!(result.1, strings(&["`id`", "$(whoami)"]));
}

#[test]
fn whitespace_only_exec_is_empty_command() {
    assert_eq!(parse_desktop_exec(" \t\n "), Err(LaunchCommandError::EmptyExec));
    assert_eq!(parse_desktop_exec("%u %F"), Err(LaunchCommandError::EmptyExec));
}

#[test]
fn unbalanced_quote_fails_to_parse() {
    assert_eq!(
        parse_desktop_exec("app \"unterminated"),
        Err(LaunchCommandError::ExecParseFailed)
    );
    assert_eq!(
        parse_command("kitty 'oops"),
        Err(LaunchCommandError::TerminalParseFailed)
    );
}

#[test]
fn empty_terminal_command_is_reported() {
    assert_eq!(parse_command("  "), Err(LaunchCommandError::EmptyTerminal));
    let a = app("Htop", "htop", true);
    assert_eq!(build_launch_command(&a, ""), Err(LaunchCommandError::EmptyTerminal));
    assert_eq!(
        build_launch_command(&a, "\"kitty"),
        Err(LaunchCommandError::TerminalParseFailed)
    );
}

#[test]
fn app_errors_come_before_terminal_errors() {
    let a = app("Broken", "'", true);
    assert_eq!(build_launch_command(&a, ""), Err(LaunchCommandError::ExecParseFailed));
    let b = app("Blank", "%f", true);
    assert_eq!(build_launch_command(&b, "kitty"), Err(LaunchCommandError::EmptyExec));
}

#[test]
fn non_terminal_app_ignores_terminal_command() {
    let a = app("Editor", "gedit %U --new", false);
    let (program, args) = build_launch_command(&a, "\"broken").unwrap();
    assert_eq!(program, "gedit");
    assert_eq!(args, strings(&["--new"]));
}

#[test]
fn terminal_wrapping_keeps_all_arguments_in_order() {
    let a = app("Top", "top -d 1 %f", true);
    let (program, args) = build_launch_command(&a, "alacritty --class float").unwrap();
    assert_eq!(program, "alacritty");
    assert_eq!(args, strings(&["--class", "float", "-e", "top", "-d", "1"]));
}

#[test]
fn wrap_in_terminal_orders_arguments() {
    let (p, a) = wrap_in_terminal(
        "vim".to_string(),
        strings(&["a.txt"]),
        "foot".to_string(),
        strings(&["--title", "x"]),
    );
    assert_eq!(p, "foot");
    assert_eq!(a, strings(&["--title", "x", "-e", "vim", "a.txt"]));
}

#[test]
fn words_to_commands() {
    assert_eq!(
        exec_from_words(strings(&["%u", "prog", "", "x%k", "%%"])),
        Ok(("prog".to_string(), strings(&["x", "%"])))
    );
    assert_eq!(exec_from_words(vec![]), Err(LaunchCommandError::EmptyExec));
    assert_eq!(
        command_from_words(strings(&["term", "%u", "-x%%"])),
        Ok(("term".to_string(), strings(&["-x%"])))
    );
    assert_eq!(
        command_from_words(strings(&["%u", "", "%F"])),
        Err(LaunchCommandError::EmptyTerminal)
    );
    assert_eq!(command_from_words(vec![]), Err(LaunchCommandError::EmptyTerminal));
}

#[test]
fn error_messages() {
    assert_eq!(LaunchCommandError::ExecParseFailed.message(), "failed to parse desktop Exec");
    assert_eq!(LaunchCommandError::EmptyExec.message(), "desktop Exec is empty after cleaning");
    assert_eq!(LaunchCommandError::TerminalParseFailed.message(), "failed to parse terminal command");
    assert_eq!(LaunchCommandError::EmptyTerminal.message(), "terminal command is empty");
}

#[test]
fn terminal_command_is_sanitized() {
    let a = app("Htop", "htop", true);
    let (program, args) = build_launch_command(&a, "kitty %u --single-instance").unwrap();
    assert_eq!(program, "kitty");
    assert_eq!(args, strings(&["--single-instance", "-e", "htop"]));
    assert_eq!(build_launch_command(&a, "%u"), Err(LaunchCommandError::EmptyTerminal));
    assert_eq!(build_launch_command(&a, "   "), Err(LaunchCommandError::EmptyTerminal));
    assert_eq!(
        build_launch_command(&a, r#"kitty "x"#),
        Err(LaunchCommandError::TerminalParseFailed)
    );
    assert_eq!(
        parse_command("%f term --flag=%k"),
        Ok(("term".to_string(), strings(&["--flag="])))
    );
}

#[test]
fn clean_arg_unchanged_exactly_when_clean() {
    for t in ["50%x", "%z%y", "a%b", "plain"] {
        assert_eq!(clean_desktop_exec_arg(t), t);
    }
    for t in ["%%", "a%", "%u", "x%%y", "%z%k"] {
        assert_ne!(clean_desktop_exec_arg(t), t);
    }
}
