//! The command that makes a report of a crash, and what comes of running it.
use crate::text;
use vstd::prelude::*;

verus! {

broadcast use vstd::string::group_string_axioms;

/// The name of the report of a crash.
pub open spec fn report_name(crash: Seq<char>) -> Seq<char> {
    crash + ".casrep"@
}

/// The name of the log of a crash.
pub open spec fn log_name(crash: Seq<char>) -> Seq<char> {
    crash + ".log"@
}

/// The name of the report of a crash.
pub fn report_file_name(crash: &str) -> (r: String)
    ensures
        r@ == report_name(crash@),
{
    let mut r = crash.to_owned();
    r.append(".casrep");
    r
}

/// The name of the log of a crash.
pub fn log_file_name(crash: &str) -> (r: String)
    ensures
        r@ == log_name(crash@),
{
    let mut r = crash.to_owned();
    r.append(".log");
    r
}

/// Reports of different crashes have different names, and so have logs.
pub proof fn law_file_names_are_injective(a: Seq<char>, b: Seq<char>)
    ensures
        report_name(a) == report_name(b) ==> a == b,
        log_name(a) == log_name(b) ==> a == b,
{
    if report_name(a) == report_name(b) {
        assert(report_name(a).len() == report_name(b).len());
        assert(a =~= report_name(a).take(a.len() as int));
        assert(b =~= report_name(b).take(a.len() as int));
    }
    if log_name(a) == log_name(b) {
        assert(log_name(a).len() == log_name(b).len());
        assert(a =~= log_name(a).take(a.len() as int));
        assert(b =~= log_name(b).take(a.len() as int));
    }
}

/// An argument of the command that makes a report.
#[derive(Debug)]
pub enum CommandArg {
    /// The path of the report to write.
    ReportPath,
    Text(String),
}

/// The model of an argument.
pub enum ArgView {
    ReportPath,
    Text(Seq<char>),
}

impl View for CommandArg {
    type V = ArgView;

    open spec fn view(&self) -> ArgView {
        match self {
            CommandArg::ReportPath => ArgView::ReportPath,
            CommandArg::Text(text) => ArgView::Text(text@),
        }
    }
}

/// The models of arguments.
pub open spec fn args_view(args: Seq<CommandArg>) -> Seq<ArgView> {
    args.map_values(|arg: CommandArg| arg@)
}

/// Arguments that are texts.
pub open spec fn text_args(args: Seq<Seq<char>>) -> Seq<ArgView> {
    args.map_values(|arg: Seq<char>| ArgView::Text(arg))
}

/// The place of the crash in an argument of the target.
pub open spec fn placeholder() -> Seq<char> {
    "@@"@
}

/// Some argument has a place for the crash.
pub open spec fn has_placeholder(args: Seq<Seq<char>>) -> bool {
    exists|i: int| 0 <= i < args.len() && text::occurs_in(#[trigger] args[i], placeholder())
}

/// The arguments with the crash in its places.
pub open spec fn filled(args: Seq<Seq<char>>, crash_path: Seq<char>) -> Seq<Seq<char>> {
    args.map_values(|arg: Seq<char>| text::replaced(arg, placeholder(), crash_path))
}

/// The command line of the target on a crash: the crash stands in each place for it, or at the end
/// where there is none.
pub open spec fn target_command(args: Seq<Seq<char>>, crash_path: Seq<char>) -> Seq<Seq<char>> {
    if has_placeholder(args) {
        filled(args, crash_path)
    } else {
        args.push(crash_path)
    }
}

/// The arguments by which a tool is told the time limit: none for a limit of zero.
pub open spec fn timeout_args(timeout: u64) -> Seq<ArgView> {
    if timeout > 0 {
        seq![ArgView::Text("-t"@), ArgView::Text(text::decimal(timeout as nat))]
    } else {
        Seq::empty()
    }
}

/// The arguments of the tool that makes a report of a crash.
pub open spec fn tool_command(
    args: Seq<Seq<char>>,
    crash_path: Seq<char>,
    timeout: u64,
) -> Seq<ArgView> {
    seq![ArgView::Text("-o"@), ArgView::ReportPath] + timeout_args(timeout) + seq![
        ArgView::Text("--"@),
    ] + text_args(target_command(args, crash_path))
}

fn push_arg(args: &mut Vec<CommandArg>, arg: CommandArg)
    ensures
        args_view(final(args)@) == args_view(old(args)@).push(arg@),
{
    args.push(arg);
    assert(args_view(args@) =~= args_view(old(args)@).push(arg@));
}

fn push_text(args: &mut Vec<CommandArg>, text: String)
    ensures
        args_view(final(args)@) == args_view(old(args)@).push(ArgView::Text(text@)),
{
    push_arg(args, CommandArg::Text(text));
}

/// The arguments of the tool that makes a report of the crash at `crash_path`. `binary_args` is the
/// command line of the target, `timeout` the time limit in seconds or zero for none.
pub fn report_command(crash_path: &str, binary_args: &Vec<String>, timeout: u64) -> (r: Vec<
    CommandArg,
>)
    ensures
        args_view(r@) == tool_command(text::texts(binary_args@), crash_path@, timeout),
{
    let mut args: Vec<CommandArg> = Vec::new();
    push_text(&mut args, "-o".to_owned());
    push_arg(&mut args, CommandArg::ReportPath);
    if timeout > 0 {
        push_text(&mut args, "-t".to_owned());
        push_text(&mut args, text::to_decimal(timeout));
    }
    push_text(&mut args, "--".to_owned());
    let ghost head = args_view(args@);
    assert(head =~= seq![ArgView::Text("-o"@), ArgView::ReportPath] + timeout_args(timeout) + seq![
        ArgView::Text("--"@),
    ]);
    let ghost given = text::texts(binary_args@);
    let mut found: bool = false;
    let mut i: usize = 0;
    assert(head + text_args(filled(given.take(0), crash_path@)) =~= head);
    while i < binary_args.len()
        invariant
            i <= binary_args.len(),
            given == text::texts(binary_args@),
            found == has_placeholder(given.take(i as int)),
            !found ==> filled(given.take(i as int), crash_path@) == given.take(i as int),
            args_view(args@) == head + text_args(filled(given.take(i as int), crash_path@)),
        decreases binary_args.len() - i,
    {
        let arg = &binary_args[i];
        let ghost done = given.take(i as int);
        let ghost next = given.take(i + 1);
        proof {
            assert(next =~= done.push(arg@));
            assert(filled(next, crash_path@) =~= filled(done, crash_path@).push(
                text::replaced(arg@, placeholder(), crash_path@),
            ));
            assert(text_args(filled(next, crash_path@)) =~= text_args(
                filled(done, crash_path@),
            ).push(ArgView::Text(text::replaced(arg@, placeholder(), crash_path@))));
            reveal_strlit("@@");
        }
        if text::has_infix(arg.as_str(), "@@") {
            push_text(&mut args, text::replace(arg.as_str(), "@@", crash_path));
            found = true;
            assert(text::occurs_in(next[i as int], placeholder()));
        } else {
            proof {
                text::law_nothing_to_replace(arg@, placeholder(), crash_path@);
                if has_placeholder(next) {
                    let k = choose|k: int|
                        0 <= k < next.len() && text::occurs_in(#[trigger] next[k], placeholder());
                    assert(done[k] == next[k]);
                }
                if has_placeholder(done) {
                    let k = choose|k: int|
                        0 <= k < done.len() && text::occurs_in(#[trigger] done[k], placeholder());
                    assert(next[k] == done[k]);
                }
            }
            push_text(&mut args, arg.clone());
        }
        i += 1;
    }
    assert(given.take(binary_args.len() as int) =~= given);
    if !found {
        push_text(&mut args, crash_path.to_owned());
        assert(text_args(given.push(crash_path@)) =~= text_args(given).push(
            ArgView::Text(crash_path@),
        ));
    }
    args
}

/// Whatever the command line of the target, the path of the crash stands in one of its arguments.
pub proof fn law_the_target_is_given_the_crash(args: Seq<Seq<char>>, crash_path: Seq<char>)
    ensures
        exists|i: int|
            0 <= i < target_command(args, crash_path).len() && text::occurs_in(
                #[trigger] target_command(args, crash_path)[i],
                crash_path,
            ),
{
    let command = target_command(args, crash_path);
    if has_placeholder(args) {
        let i = choose|i: int|
            0 <= i < args.len() && text::occurs_in(#[trigger] args[i], placeholder());
        reveal_strlit("@@");
        text::law_a_replacement_occurs(args[i], placeholder(), crash_path);
        assert(text::occurs_in(command[i], crash_path));
    } else {
        let last = command[args.len() as int];
        assert(last.subrange(0, crash_path.len() as int) =~= crash_path);
        assert(text::occurs_at(last, crash_path, 0));
    }
}

/// The arguments without a place for the crash reach the target as they are, in their positions.
pub proof fn law_other_arguments_are_kept(args: Seq<Seq<char>>, crash_path: Seq<char>, i: int)
    requires
        0 <= i < args.len(),
        !text::occurs_in(args[i], placeholder()),
    ensures
        target_command(args, crash_path).len() >= args.len(),
        target_command(args, crash_path)[i] == args[i],
{
    text::law_nothing_to_replace(args[i], placeholder(), crash_path);
}

/// What is said of a crash of which no report came.
pub open spec fn failure_text(crash: Seq<char>, stderr: Seq<char>) -> Seq<char> {
    "Failed to generate report for "@ + crash + ": "@ + text::trimmed(stderr)
}

/// What comes of running the tool on a crash: a report where the tool succeeded and wrote it, else a
/// message with what the tool said.
pub fn report_outcome(
    succeeded: bool,
    report_exists: bool,
    crash: &str,
    stderr: &str,
) -> (r: Result<(), String>)
    ensures
        r is Ok <==> succeeded && report_exists,
        r matches Err(message) ==> message@ == failure_text(crash@, stderr@),
{
    if succeeded && report_exists {
        return Ok(());
    }
    let mut message = "Failed to generate report for ".to_owned();
    message.append(crash);
    message.append(": ");
    message.append(text::trim(stderr));
    Err(message)
}

/// The report of a crash has the name of the crash and seven more characters, the log of a crash
/// four.
pub proof fn law_file_names_start_with_the_crash(crash: Seq<char>)
    ensures
        report_name(crash).len() == crash.len() + 7,
        report_name(crash).take(crash.len() as int) == crash,
        report_name(crash).skip(crash.len() as int) == seq!['.', 'c', 'a', 's', 'r', 'e', 'p'],
        log_name(crash).len() == crash.len() + 4,
        log_name(crash).take(crash.len() as int) == crash,
        log_name(crash).skip(crash.len() as int) == seq!['.', 'l', 'o', 'g'],
{
    reveal_strlit(".casrep");
    reveal_strlit(".log");
    assert(report_name(crash).take(crash.len() as int) =~= crash);
    assert(log_name(crash).take(crash.len() as int) =~= crash);
    assert(report_name(crash).skip(crash.len() as int) =~= seq![
        '.',
        'c',
        'a',
        's',
        'r',
        'e',
        'p',
    ]);
    assert(log_name(crash).skip(crash.len() as int) =~= seq!['.', 'l', 'o', 'g']);
}

/// The models of arguments stand for them one by one.
pub proof fn law_the_models_of_arguments_are_complete(args: Seq<CommandArg>)
    ensures
        args_view(args).len() == args.len(),
        forall|i: int|
            0 <= i < args.len() ==> match args[i] {
                CommandArg::ReportPath => #[trigger] args_view(args)[i] == ArgView::ReportPath,
                CommandArg::Text(text) => args_view(args)[i] == ArgView::Text(text@),
            },
{
}

/// The tool is told the path of the report first, then the time limit if there is one, and behind
/// two dashes the command line of the target, argument by argument.
pub proof fn law_the_tool_is_told_report_limit_and_target(
    args: Seq<Seq<char>>,
    crash_path: Seq<char>,
    timeout: u64,
)
    ensures
        ({
            let command = tool_command(args, crash_path, timeout);
            let target = target_command(args, crash_path);
            let n: int = if timeout == 0 {
                2
            } else {
                4
            };
            &&& command.len() == n + 1 + target.len()
            &&& command[0] == ArgView::Text(seq!['-', 'o'])
            &&& command[1] == ArgView::ReportPath
            &&& timeout > 0 ==> command[2] == ArgView::Text(seq!['-', 't'])
            &&& timeout > 0 ==> (command[3] matches ArgView::Text(limit) && text::digits_value(
                limit,
            ) == Some(timeout as nat) && limit.len() > 0 && limit[0] != '0')
            &&& command[n] == ArgView::Text(seq!['-', '-'])
            &&& forall|i: int|
                0 <= i < target.len() ==> command[n + 1 + i] == ArgView::Text(#[trigger] target[i])
        }),
{
    reveal_strlit("-o");
    reveal_strlit("-t");
    reveal_strlit("--");
    assert("-o"@ =~= seq!['-', 'o']);
    assert("-t"@ =~= seq!['-', 't']);
    assert("--"@ =~= seq!['-', '-']);
    text::law_decimal_notation_has_the_value(timeout as nat);
}

/// Without two at signs in a row in any argument the path of the crash is the last argument of the
/// target.
pub proof fn law_the_crash_comes_last_where_it_has_no_place(
    args: Seq<Seq<char>>,
    crash_path: Seq<char>,
)
    requires
        forall|i: int| 0 <= i < args.len() ==> !text::occurs_in(#[trigger] args[i], seq!['@', '@']),
    ensures
        target_command(args, crash_path).len() == args.len() + 1,
        target_command(args, crash_path).last() == crash_path,
        forall|i: int|
            0 <= i < args.len() ==> #[trigger] target_command(args, crash_path)[i] == args[i],
{
    reveal_strlit("@@");
    assert("@@"@ =~= seq!['@', '@']);
}

/// With two at signs in a row in some argument the target has as many arguments as before, and in
/// each the path of the crash stands in place of each two at signs.
pub proof fn law_the_crash_stands_in_each_place(
    args: Seq<Seq<char>>,
    crash_path: Seq<char>,
    place: int,
)
    requires
        0 <= place < args.len(),
        text::occurs_in(args[place], seq!['@', '@']),
    ensures
        target_command(args, crash_path).len() == args.len(),
        forall|i: int|
            0 <= i < args.len() ==> #[trigger] target_command(args, crash_path)[i]
                == text::replaced(args[i], seq!['@', '@'], crash_path),
{
    reveal_strlit("@@");
    assert("@@"@ =~= seq!['@', '@']);
    assert(text::occurs_in(args[place], placeholder()));
}

/// What is said of a failure names the crash and ends in what the tool said, all of it but the white
/// space at its ends.
pub proof fn law_a_failure_tells_the_crash_and_what_the_tool_said(
    crash: Seq<char>,
    stderr: Seq<char>,
)
    ensures
        ({
            let said = failure_text(crash, stderr);
            let head = "Failed to generate report for "@ + crash + ": "@;
            &&& said.len() == head.len() + text::trimmed(stderr).len()
            &&& said.take(head.len() as int) == head
            &&& said.skip(head.len() as int) == text::trimmed(stderr)
        }),
{
    let said = failure_text(crash, stderr);
    let head = "Failed to generate report for "@ + crash + ": "@;
    assert(said.take(head.len() as int) =~= head);
    assert(said.skip(head.len() as int) =~= text::trimmed(stderr));
}

} // verus!
