//! What a run is set up with, and what it says where it cannot go on.
use crate::fuzzer::FuzzerType;
use crate::text;
use vstd::prelude::*;

verus! {

broadcast use vstd::string::group_string_axioms;

/// The number of CPUs that are available to the process, from `num_cpus::get`: at least one.
#[verifier::external_body]
fn cpu_count() -> (cpus: usize)
    ensures
        cpus >= 1,
{
    num_cpus::get()
}

/// Half of a number of CPUs, and at least one.
pub open spec fn half_of(cpus: int) -> int {
    if cpus / 2 > 1 {
        cpus / 2
    } else {
        1
    }
}

/// The number of jobs for a number of CPUs where none is asked for: half of it, and at least one.
pub fn default_jobs(cpus: usize) -> (jobs: usize)
    ensures
        jobs == half_of(cpus as int),
{
    if cpus / 2 > 1 {
        cpus / 2
    } else {
        1
    }
}

/// The number of jobs that run in parallel: the one asked for, else half of the CPUs.
pub fn job_count(requested: Option<u32>) -> (jobs: usize)
    ensures
        match requested {
            Some(n) => jobs == n,
            None => jobs >= 1,
        },
{
    match requested {
        Some(n) => n as usize,
        None => default_jobs(cpu_count()),
    }
}

/// Why there is no command line of a target.
#[derive(Debug, Clone, Copy, PartialEq, Eq, Structural)]
pub enum ArgsError {
    /// None is given, and AFL++ left none.
    NoCmdline,
    /// None is given.
    NoArgs,
    /// It has no words.
    Empty,
}

impl ArgsError {
    /// What is said of it.
    pub open spec fn complaint(self) -> Seq<char> {
        match self {
            ArgsError::NoCmdline =>
                "No ARGS provided and couldn't read cmdline file from AFL directory"@,
            ArgsError::NoArgs => "No target binary specified (use -- ./binary @@)"@,
            ArgsError::Empty => "No target binary specified"@,
        }
    }

    /// What is said of it.
    pub fn message(self) -> (r: &'static str)
        ensures
            r@ == self.complaint(),
    {
        match self {
            ArgsError::NoCmdline =>
                "No ARGS provided and couldn't read cmdline file from AFL directory",
            ArgsError::NoArgs => "No target binary specified (use -- ./binary @@)",
            ArgsError::Empty => "No target binary specified",
        }
    }
}

/// A command line, which has at least the target.
pub open spec fn nonempty_args(args: Vec<String>) -> Result<Vec<String>, ArgsError> {
    if args@.len() == 0 {
        Err(ArgsError::Empty)
    } else {
        Ok(args)
    }
}

/// The command line of the target: the one given, else for AFL++ the one that it left.
pub open spec fn target_args(
    given: Option<Vec<String>>,
    fuzzer: FuzzerType,
    cmdline: Option<Vec<String>>,
) -> Result<Vec<String>, ArgsError> {
    match given {
        Some(args) => nonempty_args(args),
        None => match fuzzer {
            FuzzerType::Afl => match cmdline {
                Some(args) => nonempty_args(args),
                None => Err(ArgsError::NoCmdline),
            },
            FuzzerType::LibFuzzer => Err(ArgsError::NoArgs),
        },
    }
}

/// The command line of the target. `given` is the one of the user, `cmdline` the one that AFL++
/// left.
pub fn binary_args(
    given: Option<Vec<String>>,
    fuzzer: FuzzerType,
    cmdline: Option<Vec<String>>,
) -> (r: Result<Vec<String>, ArgsError>)
    ensures
        r == target_args(given, fuzzer, cmdline),
        r matches Ok(args) ==> args@.len() > 0,
{
    let args = match given {
        Some(args) => args,
        None => match fuzzer {
            FuzzerType::Afl => match cmdline {
                Some(args) => args,
                None => {
                    return Err(ArgsError::NoCmdline);
                },
            },
            FuzzerType::LibFuzzer => {
                return Err(ArgsError::NoArgs);
            },
        },
    };
    if args.len() == 0 {
        return Err(ArgsError::Empty);
    }
    Ok(args)
}

/// What crashes of a fuzzer look like.
pub open spec fn expectation(fuzzer: FuzzerType) -> Seq<char> {
    match fuzzer {
        FuzzerType::LibFuzzer => "Expected crash-* or leak-* files in the input directory"@,
        FuzzerType::Afl => "Expected AFL++ directory structure with crashes/id* files"@,
    }
}

/// What is said of an input directory without crashes.
pub fn no_crashes_message(input_dir: &str, fuzzer: FuzzerType) -> (r: String)
    ensures
        r@ == "No crash files found in "@ + input_dir@ + ". "@ + expectation(fuzzer),
{
    let hint = match fuzzer {
        FuzzerType::LibFuzzer => "Expected crash-* or leak-* files in the input directory",
        FuzzerType::Afl => "Expected AFL++ directory structure with crashes/id* files",
    };
    let mut r = "No crash files found in ".to_owned();
    r.append(input_dir);
    r.append(". ");
    r.append(hint);
    r
}

/// A crash of which no report could be made.
#[derive(Debug)]
pub struct Failure {
    pub crash_path: String,
    pub error: String,
}

/// How many failures are told one by one.
pub const SHOWN_FAILURES: usize = 5;

/// The line for a failure.
pub open spec fn failure_line(failure: Failure) -> Seq<char> {
    "  "@ + failure.crash_path@ + ": "@ + failure.error@
}

/// The lines for failures: one for each of the first few, and one for the number of the others.
pub open spec fn failure_texts(failures: Seq<Failure>) -> Seq<Seq<char>> {
    if failures.len() > SHOWN_FAILURES {
        failures.take(SHOWN_FAILURES as int).map_values(|f: Failure| failure_line(f)).push(
            "  ... and "@ + text::decimal((failures.len() - SHOWN_FAILURES) as nat) + " more"@,
        )
    } else {
        failures.map_values(|f: Failure| failure_line(f))
    }
}

/// The lines for failures: one for each of the first few, and one for the number of the others.
pub fn failure_lines(failures: &Vec<Failure>) -> (r: Vec<String>)
    ensures
        text::texts(r@) == failure_texts(failures@),
{
    let mut lines: Vec<String> = Vec::new();
    let ghost line = |f: Failure| failure_line(f);
    let mut i: usize = 0;
    assert(text::texts(lines@) =~= failures@.take(0).map_values(line));
    while i < failures.len() && i < SHOWN_FAILURES
        invariant
            i <= failures.len(),
            i <= SHOWN_FAILURES,
            line == (|f: Failure| failure_line(f)),
            text::texts(lines@) == failures@.take(i as int).map_values(line),
        decreases failures.len() - i,
    {
        let mut text = "  ".to_owned();
        text.append(failures[i].crash_path.as_str());
        text.append(": ");
        text.append(failures[i].error.as_str());
        let ghost before = lines@;
        lines.push(text);
        proof {
            assert(text::texts(lines@) =~= text::texts(before).push(text@));
            assert(failures@.take(i + 1).map_values(line) =~= failures@.take(i as int).map_values(
                line,
            ).push(failure_line(failures@[i as int])));
        }
        i += 1;
    }
    if failures.len() > SHOWN_FAILURES {
        let mut text = "  ... and ".to_owned();
        text.append(text::to_decimal((failures.len() - SHOWN_FAILURES) as u64).as_str());
        text.append(" more");
        let ghost before = lines@;
        lines.push(text);
        assert(text::texts(lines@) =~= text::texts(before).push(text@));
    } else {
        assert(failures@.take(i as int) =~= failures@);
    }
    lines
}

/// The command line of the target is the one given, whatever the fuzzer left, and only where none is
/// given that which AFL++ left. Whichever it is, it is taken unchanged, and it is not empty.
pub proof fn law_the_given_command_line_goes_before_that_of_the_fuzzer(
    given: Option<Vec<String>>,
    fuzzer: FuzzerType,
    cmdline: Option<Vec<String>>,
    args: Vec<String>,
)
    ensures
        target_args(given, fuzzer, cmdline) == Ok::<Vec<String>, ArgsError>(args) <==> args@.len()
            > 0 && (given == Some(args) || given is None && fuzzer is Afl && cmdline == Some(args)),
        target_args(given, fuzzer, cmdline) == Err::<Vec<String>, ArgsError>(ArgsError::NoArgs)
            <==> given is None && fuzzer is LibFuzzer,
        target_args(given, fuzzer, cmdline) == Err::<Vec<String>, ArgsError>(ArgsError::NoCmdline)
            <==> given is None && fuzzer is Afl && cmdline is None,
{
}

/// Up to five failures are told one by one, in order, with path and error. Of more than five, the
/// first five are, and one more line has the number of the others.
pub proof fn law_failures_are_told_one_by_one_up_to_five(failures: Seq<Failure>, i: int)
    ensures
        failures.len() <= 5 ==> failure_texts(failures).len() == failures.len(),
        failures.len() > 5 ==> failure_texts(failures).len() == 6,
        0 <= i < failures.len() && i < 5 ==> failure_texts(failures)[i] == seq![' ', ' ']
            + failures[i].crash_path@ + seq![':', ' '] + failures[i].error@,
        failures.len() > 5 ==> exists|count: Seq<char>|
            text::digits_value(count) == Some((failures.len() - 5) as nat) && failure_texts(
                failures,
            )[5] == #[trigger] ("  ... and "@ + count + " more"@),
{
    reveal_strlit("  ");
    reveal_strlit(": ");
    assert("  "@ =~= seq![' ', ' ']);
    assert(": "@ =~= seq![':', ' ']);
    if failures.len() > 5 {
        let others = (failures.len() - 5) as nat;
        text::law_decimal_notation_has_the_value(others);
        assert(failure_texts(failures)[5] == "  ... and "@ + text::decimal(others) + " more"@);
    }
}

/// Without a request two CPUs and no more are left to each job, but for one that an odd number leaves
/// over, and there is a job on a machine with a single CPU too.
pub proof fn law_each_job_has_two_cpus(cpus: int)
    requires
        cpus >= 0,
    ensures
        half_of(cpus) >= 1,
        cpus >= 2 ==> 2 * half_of(cpus) <= cpus <= 2 * half_of(cpus) + 1,
        cpus < 2 ==> half_of(cpus) == 1,
{
}

} // verus!
