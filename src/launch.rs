//! Turning a desktop entry's `Exec` template into an argument vector,
//! without ever handing it to a shell.
use vstd::prelude::*;
use crate::entry::App;
use crate::text::str_views;

verus! {

/// The single-letter field codes of a desktop entry's `Exec` key.
pub open spec fn is_field_code(c: char) -> bool {
    c == 'f' || c == 'F' || c == 'u' || c == 'U' || c == 'd' || c == 'D' || c == 'n' || c == 'N'
        || c == 'i' || c == 'c' || c == 'k' || c == 'v' || c == 'm'
}

/// One token with its field codes stripped, scanning left to right:
/// `%` plus a field code disappears, `%%` becomes `%`, any other `%x`
/// stays as it is, and a `%` that ends the token is dropped.
pub open spec fn clean_arg(s: Seq<char>) -> Seq<char>
    decreases s.len(),
{
    if s.len() == 0 {
        Seq::empty()
    } else if s[0] == '%' {
        if s.len() == 1 {
            Seq::empty()
        } else if s[1] == '%' {
            seq!['%'] + clean_arg(s.subrange(2, s.len() as int))
        } else if is_field_code(s[1]) {
            clean_arg(s.subrange(2, s.len() as int))
        } else {
            seq!['%', s[1]] + clean_arg(s.subrange(2, s.len() as int))
        }
    } else {
        seq![s[0]] + clean_arg(s.subrange(1, s.len() as int))
    }
}

/// Stripping leaves a token without any `%` as it is, so stripping an
/// already clean token again changes nothing.
pub proof fn lemma_clean_arg_plain(s: Seq<char>)
    requires
        !s.contains('%'),
    ensures
        clean_arg(s) == s,
        clean_arg(clean_arg(s)) == clean_arg(s),
    decreases s.len(),
{
    if s.len() > 0 {
        let t = s.subrange(1, s.len() as int);
        assert(s[0] != '%');
        assert(!t.contains('%')) by {
            if t.contains('%') {
                let j = choose|j: int| 0 <= j < t.len() && t[j] == '%';
                assert(s[j + 1] == '%');
            }
        }
        lemma_clean_arg_plain(t);
        assert(seq![s[0]] + t =~= s);
    }
}

/// Every `%` of `s` is followed by a character that is neither `%` nor a
/// field code.
pub open spec fn is_clean(s: Seq<char>) -> bool {
    forall|i: int|
        0 <= i < s.len() && #[trigger] s[i] == '%' ==> i + 1 < s.len() && s[i + 1] != '%'
            && !is_field_code(s[i + 1])
}

/// Stripping never lengthens a token.
pub proof fn lemma_clean_arg_len(s: Seq<char>)
    ensures
        clean_arg(s).len() <= s.len(),
    decreases s.len(),
{
    if s.len() >= 2 && s[0] == '%' {
        lemma_clean_arg_len(s.subrange(2, s.len() as int));
    } else if s.len() > 0 && s[0] != '%' {
        lemma_clean_arg_len(s.subrange(1, s.len() as int));
    }
}

/// Stripping leaves a token unchanged exactly when every `%` in it is
/// followed by a character that is neither `%` nor a field code.
pub proof fn lemma_clean_arg_unchanged_iff(s: Seq<char>)
    ensures
        clean_arg(s) == s <==> is_clean(s),
    decreases s.len(),
{
    if s.len() == 0 {
        assert(clean_arg(s) =~= s);
    } else if s[0] != '%' {
        let t = s.subrange(1, s.len() as int);
        lemma_clean_arg_unchanged_iff(t);
        assert(is_clean(s) <==> is_clean(t)) by {
            if is_clean(s) {
                assert forall|i: int| 0 <= i < t.len() && #[trigger] t[i] == '%' implies i + 1
                    < t.len() && t[i + 1] != '%' && !is_field_code(t[i + 1]) by {
                    assert(s[i + 1] == '%');
                }
            }
            if is_clean(t) {
                assert forall|i: int| 0 <= i < s.len() && #[trigger] s[i] == '%' implies i + 1
                    < s.len() && s[i + 1] != '%' && !is_field_code(s[i + 1]) by {
                    assert(t[i - 1] == '%');
                }
            }
        }
        if clean_arg(s) == s {
            assert(clean_arg(t) =~= s.subrange(1, s.len() as int));
        }
        if clean_arg(t) == t {
            assert(seq![s[0]] + t =~= s);
        }
        assert(clean_arg(s) == s <==> is_clean(s));
    } else if s.len() == 1 {
        assert(!is_clean(s)) by {
            assert(s[0] == '%');
        }
    } else if s[1] == '%' || is_field_code(s[1]) {
        let u = s.subrange(2, s.len() as int);
        lemma_clean_arg_len(u);
        assert(!is_clean(s)) by {
            assert(s[0] == '%');
        }
        assert(clean_arg(s).len() < s.len());
        assert(clean_arg(s) == s <==> is_clean(s));
    } else {
        let u = s.subrange(2, s.len() as int);
        lemma_clean_arg_unchanged_iff(u);
        assert(is_clean(s) <==> is_clean(u)) by {
            if is_clean(s) {
                assert forall|i: int| 0 <= i < u.len() && #[trigger] u[i] == '%' implies i + 1
                    < u.len() && u[i + 1] != '%' && !is_field_code(u[i + 1]) by {
                    assert(s[i + 2] == '%');
                }
            }
            if is_clean(u) {
                assert forall|i: int| 0 <= i < s.len() && #[trigger] s[i] == '%' implies i + 1
                    < s.len() && s[i + 1] != '%' && !is_field_code(s[i + 1]) by {
                    if i >= 2 {
                        assert(u[i - 2] == '%');
                    }
                }
            }
        }
        if clean_arg(s) == s {
            assert(clean_arg(u) =~= s.subrange(2, s.len() as int));
        }
        if clean_arg(u) == u {
            assert(seq!['%', s[1]] + u =~= s);
        }
        assert(clean_arg(s) == s <==> is_clean(s));
    }
}

fn is_field_code_char(c: char) -> (r: bool)
    ensures
        r == is_field_code(c),
{
    c == 'f' || c == 'F' || c == 'u' || c == 'U' || c == 'd' || c == 'D' || c == 'n' || c == 'N'
        || c == 'i' || c == 'c' || c == 'k' || c == 'v' || c == 'm'
}

/// Strips the field codes from one token of an `Exec` value.
pub fn clean_desktop_exec_arg(arg: &str) -> (r: String)
    ensures
        r@ == clean_arg(arg@),
{
    let n = arg.unicode_len();
    let mut result = String::new();
    let mut i: usize = 0;
    assert(arg@.subrange(0, n as int) == arg@);
    assert(result@ + clean_arg(arg@) =~= clean_arg(arg@));
    while i < n
        invariant
            n == arg@.len(),
            i <= n,
            clean_arg(arg@) == result@ + clean_arg(arg@.subrange(i as int, n as int)),
        decreases n - i,
    {
        let ghost rest = arg@.subrange(i as int, n as int);
        let c = arg.get_char(i);
        if c == '%' {
            if i + 1 < n {
                let next = arg.get_char(i + 1);
                assert(rest.subrange(2, rest.len() as int) == arg@.subrange(i + 2, n as int));
                if next == '%' {
                    result.append(arg.substring_char(i, i + 1));
                } else if !is_field_code_char(next) {
                    result.append(arg.substring_char(i, i + 2));
                    assert(arg@.subrange(i as int, i + 2) == seq!['%', next]);
                }
                i = i + 2;
            } else {
                i = i + 1;
            }
        } else {
            result.append(arg.substring_char(i, i + 1));
            assert(rest.subrange(1, rest.len() as int) == arg@.subrange(i + 1, n as int));
            assert(arg@.subrange(i as int, i + 1) == seq![c]);
            i = i + 1;
        }
    }
    assert(arg@.subrange(n as int, n as int) == Seq::<char>::empty());
    assert(result@ + Seq::<char>::empty() == result@);
    result
}


/// Why a launch command could not be built.
#[derive(Debug, Clone, Copy, PartialEq, Eq, Structural)]
pub enum LaunchCommandError {
    ExecParseFailed,
    EmptyExec,
    TerminalParseFailed,
    EmptyTerminal,
}

impl LaunchCommandError {
    /// A short description of the failure.
    pub fn message(&self) -> (r: &'static str)
        ensures
            r@ == match *self {
                LaunchCommandError::ExecParseFailed => "failed to parse desktop Exec"@,
                LaunchCommandError::EmptyExec => "desktop Exec is empty after cleaning"@,
                LaunchCommandError::TerminalParseFailed => "failed to parse terminal command"@,
                LaunchCommandError::EmptyTerminal => "terminal command is empty"@,
            },
    {
        match self {
            LaunchCommandError::ExecParseFailed => "failed to parse desktop Exec",
            LaunchCommandError::EmptyExec => "desktop Exec is empty after cleaning",
            LaunchCommandError::TerminalParseFailed => "failed to parse terminal command",
            LaunchCommandError::EmptyTerminal => "terminal command is empty",
        }
    }
}

/// A program and its arguments, as character sequences.
pub type CommandModel = (Seq<char>, Seq<Seq<char>>);

/// The model of a built command, or the error.
pub open spec fn command_view(r: Result<(String, Vec<String>), LaunchCommandError>) -> Result<
    CommandModel,
    LaunchCommandError,
> {
    match r {
        Ok((p, a)) => Ok((p@, str_views(a@))),
        Err(e) => Err(e),
    }
}

/// The model of the words that a split produced, if it succeeded.
pub open spec fn words_view(r: Option<Vec<String>>) -> Option<Seq<Seq<char>>> {
    match r {
        Some(v) => Some(str_views(v@)),
        None => None,
    }
}

/// The characters that separate shell words.
pub open spec fn is_blank(c: char) -> bool {
    c == ' ' || c == '\t' || c == '\n'
}

/// Whether `s` holds blanks only (the empty string included).
pub open spec fn all_blank(s: Seq<char>) -> bool {
    forall|i: int| 0 <= i < s.len() ==> is_blank(#[trigger] s[i])
}

/// The words of `s` under POSIX shell quoting rules, or `None` where a
/// quotation or an escape is left unterminated.
pub uninterp spec fn shlex_words(s: Seq<char>) -> Option<Seq<Seq<char>>>;

/// Relies on `shlex::split`: splits into words by POSIX shell rules with no
/// shell involved, and yields no words for input made only of blanks.
#[verifier::external_body]
fn split_words(s: &str) -> (r: Option<Vec<String>>)
    ensures
        words_view(r) == shlex_words(s@),
        all_blank(s@) ==> words_view(r) == Some(Seq::<Seq<char>>::empty()),
{
    shlex::split(s)
}

/// The tokens left once field codes are stripped, empty ones dropped.
pub open spec fn kept_args(words: Seq<Seq<char>>) -> Seq<Seq<char>>
    decreases words.len(),
{
    if words.len() == 0 {
        Seq::empty()
    } else {
        let c = clean_arg(words[0]);
        let rest = kept_args(words.subrange(1, words.len() as int));
        if c.len() == 0 {
            rest
        } else {
            seq![c] + rest
        }
    }
}

/// Non-empty words without `%` pass through stripping whole and in order,
/// whatever other characters (`;`, `|`, `&`, backquotes) they hold.
pub proof fn lemma_plain_words_kept(words: Seq<Seq<char>>)
    requires
        forall|i: int| 0 <= i < words.len() ==> !(#[trigger] words[i]).contains('%') && words[i].len() > 0,
    ensures
        kept_args(words) == words,
    decreases words.len(),
{
    if words.len() > 0 {
        let rest = words.subrange(1, words.len() as int);
        assert forall|i: int| 0 <= i < rest.len() implies !(#[trigger] rest[i]).contains('%') && rest[i].len() > 0 by {
            assert(rest[i] == words[i + 1]);
        }
        lemma_plain_words_kept(rest);
        lemma_clean_arg_plain(words[0]);
        assert(seq![words[0]] + rest =~= words);
    }
}

/// The command an `Exec` value's words stand for.
pub open spec fn exec_command(words: Seq<Seq<char>>) -> Result<CommandModel, LaunchCommandError> {
    let k = kept_args(words);
    if k.len() == 0 {
        Err(LaunchCommandError::EmptyExec)
    } else {
        Ok((k[0], k.subrange(1, k.len() as int)))
    }
}

/// The command an `Exec` value stands for, given how it split.
pub open spec fn parsed_exec(split: Option<Seq<Seq<char>>>) -> Result<
    CommandModel,
    LaunchCommandError,
> {
    match split {
        None => Err(LaunchCommandError::ExecParseFailed),
        Some(w) => exec_command(w),
    }
}

/// The command a terminal invocation's words stand for, sanitised the
/// same way as an `Exec` value.
pub open spec fn terminal_command(words: Seq<Seq<char>>) -> Result<
    CommandModel,
    LaunchCommandError,
> {
    let k = kept_args(words);
    if k.len() == 0 {
        Err(LaunchCommandError::EmptyTerminal)
    } else {
        Ok((k[0], k.subrange(1, k.len() as int)))
    }
}

/// The command a terminal invocation stands for, given how it split.
pub open spec fn parsed_terminal(split: Option<Seq<Seq<char>>>) -> Result<
    CommandModel,
    LaunchCommandError,
> {
    match split {
        None => Err(LaunchCommandError::TerminalParseFailed),
        Some(w) => terminal_command(w),
    }
}

/// `app` run inside `term`: the terminal's program, its arguments, `-e`,
/// then the application's program and arguments.
pub open spec fn terminal_wrapped(app: CommandModel, term: CommandModel) -> CommandModel {
    (term.0, term.1 + seq![seq!['-', 'e'], app.0] + app.1)
}

/// The final invocation for an application, given how its `Exec` value and
/// the terminal invocation split.
pub open spec fn launch_outcome(
    exec_split: Option<Seq<Seq<char>>>,
    in_terminal: bool,
    terminal_split: Option<Seq<Seq<char>>>,
) -> Result<CommandModel, LaunchCommandError> {
    match parsed_exec(exec_split) {
        Err(e) => Err(e),
        Ok(c) => if !in_terminal {
            Ok(c)
        } else {
            match parsed_terminal(terminal_split) {
                Err(e) => Err(e),
                Ok(t) => Ok(terminal_wrapped(c, t)),
            }
        },
    }
}

/// Splits a non-empty list of strings into its head and the rest.
fn split_first(v: Vec<String>) -> (r: (String, Vec<String>))
    requires
        v@.len() > 0,
    ensures
        r.0@ == str_views(v@)[0],
        str_views(r.1@) == str_views(v@).subrange(1, v@.len() as int),
{
    let ghost start = v@;
    let mut rest = v;
    let first = rest.remove(0);
    assert(str_views(rest@) =~= str_views(start).subrange(1, start.len() as int));
    (first, rest)
}

/// Strips the field codes from each word and drops the words left empty.
pub fn sanitize_words(words: &Vec<String>) -> (r: Vec<String>)
    ensures
        str_views(r@) == kept_args(str_views(words@)),
{
    let ghost ws = str_views(words@);
    let n = words.len();
    let mut cleaned: Vec<String> = Vec::new();
    let mut i: usize = 0;
    assert(ws.subrange(0, n as int) =~= ws);
    assert(str_views(cleaned@) + kept_args(ws) =~= kept_args(ws));
    while i < n
        invariant
            n == words@.len(),
            ws == str_views(words@),
            i <= n,
            kept_args(ws) == str_views(cleaned@) + kept_args(ws.subrange(i as int, n as int)),
        decreases n - i,
    {
        let c = clean_desktop_exec_arg(words[i].as_str());
        let ghost rest = ws.subrange(i as int, n as int);
        assert(rest[0] == words@[i as int]@);
        assert(rest.subrange(1, rest.len() as int) =~= ws.subrange(i + 1, n as int));
        let ghost before = str_views(cleaned@);
        if c.unicode_len() > 0 {
            cleaned.push(c);
            assert(str_views(cleaned@) =~= before + seq![clean_arg(words@[i as int]@)]);
            assert(kept_args(ws) =~= str_views(cleaned@) + kept_args(
                ws.subrange(i + 1, n as int),
            ));
        }
        i = i + 1;
    }
    assert(ws.subrange(n as int, n as int) =~= Seq::<Seq<char>>::empty());
    assert(kept_args(ws) =~= str_views(cleaned@));
    cleaned
}

/// Builds the command from the words of an `Exec` value: strips field
/// codes from each word, drops the words left empty, and takes the first
/// remaining word as the program.
pub fn exec_from_words(words: Vec<String>) -> (r: Result<(String, Vec<String>), LaunchCommandError>)
    ensures
        command_view(r) == exec_command(str_views(words@)),
{
    let cleaned = sanitize_words(&words);
    if cleaned.len() == 0 {
        Err(LaunchCommandError::EmptyExec)
    } else {
        Ok(split_first(cleaned))
    }
}

/// Parses a desktop entry's `Exec` value into a program and its arguments.
/// Shell metacharacters stay literal text inside the words.
pub fn parse_desktop_exec(exec_line: &str) -> (r: Result<(String, Vec<String>), LaunchCommandError>)
    ensures
        command_view(r) == parsed_exec(shlex_words(exec_line@)),
        all_blank(exec_line@) ==> r == Err::<(String, Vec<String>), LaunchCommandError>(
            LaunchCommandError::EmptyExec,
        ),
{
    match split_words(exec_line) {
        None => Err(LaunchCommandError::ExecParseFailed),
        Some(words) => {
            let r = exec_from_words(words);
            proof {
                if all_blank(exec_line@) {
                    assert(kept_args(str_views(words@)) =~= Seq::<Seq<char>>::empty());
                }
            }
            r
        },
    }
}

/// Builds the command from the words of a terminal invocation, sanitised
/// like an `Exec` value: the first remaining word is the program, the rest
/// its arguments.
pub fn command_from_words(words: Vec<String>) -> (r: Result<(String, Vec<String>), LaunchCommandError>)
    ensures
        command_view(r) == terminal_command(str_views(words@)),
{
    let cleaned = sanitize_words(&words);
    if cleaned.len() == 0 {
        Err(LaunchCommandError::EmptyTerminal)
    } else {
        Ok(split_first(cleaned))
    }
}

/// Parses a terminal invocation into a program and its arguments.
pub fn parse_command(command: &str) -> (r: Result<(String, Vec<String>), LaunchCommandError>)
    ensures
        command_view(r) == parsed_terminal(shlex_words(command@)),
        all_blank(command@) ==> r == Err::<(String, Vec<String>), LaunchCommandError>(
            LaunchCommandError::EmptyTerminal,
        ),
{
    match split_words(command) {
        None => Err(LaunchCommandError::TerminalParseFailed),
        Some(words) => {
            let r = command_from_words(words);
            proof {
                if all_blank(command@) {
                    assert(kept_args(str_views(words@)) =~= Seq::<Seq<char>>::empty());
                }
            }
            r
        },
    }
}

/// Wraps a command in a terminal invocation: the terminal's program, then
/// its arguments, `-e`, the program and its arguments, in that order.
pub fn wrap_in_terminal(
    program: String,
    args: Vec<String>,
    terminal_program: String,
    terminal_args: Vec<String>,
) -> (r: (String, Vec<String>))
    ensures
        (r.0@, str_views(r.1@)) == terminal_wrapped(
            (program@, str_views(args@)),
            (terminal_program@, str_views(terminal_args@)),
        ),
{
    let ghost ta = terminal_args@;
    let ghost a = args@;
    let ghost p = program@;
    let mut out = terminal_args;
    let mut rest = args;
    proof {
        reveal_strlit("-e");
    }
    let dash = String::from_str("-e");
    assert(dash@ =~= seq!['-', 'e']);
    out.push(dash);
    out.push(program);
    out.append(&mut rest);
    assert(str_views(out@) =~= str_views(ta) + seq![seq!['-', 'e'], p] + str_views(a));
    (terminal_program, out)
}

/// The program and arguments that launch `app`, run inside the terminal
/// invocation `terminal` when the application asks for a terminal.
pub fn build_launch_command(app: &App, terminal: &str) -> (r: Result<
    (String, Vec<String>),
    LaunchCommandError,
>)
    ensures
        command_view(r) == launch_outcome(
            shlex_words(app.command@),
            app.terminal,
            shlex_words(terminal@),
        ),
        app.terminal && parsed_exec(shlex_words(app.command@)) is Ok && all_blank(terminal@) ==> r
            == Err::<(String, Vec<String>), LaunchCommandError>(LaunchCommandError::EmptyTerminal),
{
    let (program, args) = match parse_desktop_exec(app.command.as_str()) {
        Ok(c) => c,
        Err(e) => {
            return Err(e);
        },
    };
    if !app.terminal {
        return Ok((program, args));
    }
    let (terminal_program, terminal_args) = match parse_command(terminal) {
        Ok(c) => c,
        Err(e) => {
            return Err(e);
        },
    };
    Ok(wrap_in_terminal(program, args, terminal_program, terminal_args))
}

} // verus!
