//! The decisions of the `protowire` command line: reading the flags,
//! checking what a command needs, and the answers for the cases that end
//! before any file is read. Reading files and running a command are the
//! caller's part.
use vstd::prelude::*;

use crate::pxf::format::{quote_string, quote_text};
use crate::text::{owned, push_str, str_is};

verus! {

/// The usage text.
pub const USAGE: &'static str = "usage: protowire <command> -d <descriptor.binpb> -m <message-name> [args...]

commands:
  encode <file.pxf>     PXF text  -> protobuf binary (stdout)
  decode <file.pb>      protobuf binary -> PXF text (stdout)
  validate <file.pxf>   parse PXF and report success / error
  fmt <file.pxf>        round-trip PXF (decode + encode) and write to stdout

flags:
  -d, --descriptor-set <file>  binary FileDescriptorSet (FDSet) produced by
                                protoc --descriptor_set_out
  -m, --message <name>         fully-qualified message name (e.g. test.v1.AllTypes)
";

/// What a run of the command line answers: the bytes for stdout, the text
/// for stderr and the exit code.
#[derive(Debug, Clone)]
pub struct CliResult {
    pub stdout: Vec<u8>,
    pub stderr: String,
    pub exit: i32,
}

/// A failure: nothing on stdout, `stderr` as given, exit code 1.
pub fn fail(stderr: String) -> (r: CliResult)
    ensures
        r.stdout@.len() == 0,
        r.stderr == stderr,
        r.exit == 1,
{
    CliResult { stdout: Vec::new(), stderr, exit: 1 }
}

fn usage_result(exit: i32) -> (r: CliResult)
    ensures
        r.stdout@.len() == 0,
        r.stderr@ == USAGE@,
        r.exit == exit,
{
    CliResult { stdout: Vec::new(), stderr: owned(USAGE), exit }
}

/// The flags of one command line.
#[derive(Debug, Default)]
pub struct ParsedFlags {
    pub descriptor_set: Option<String>,
    pub message: Option<String>,
    pub help: bool,
    pub positionals: Vec<String>,
}

/// The flags as values.
pub struct FlagsView {
    pub descriptor_set: Option<Seq<char>>,
    pub message: Option<Seq<char>>,
    pub help: bool,
    pub positionals: Seq<Seq<char>>,
}

pub open spec fn opt_view(o: Option<String>) -> Option<Seq<char>> {
    match o {
        Some(s) => Some(s@),
        None => None,
    }
}

pub open spec fn flags_view(f: ParsedFlags) -> FlagsView {
    FlagsView {
        descriptor_set: opt_view(f.descriptor_set),
        message: opt_view(f.message),
        help: f.help,
        positionals: f.positionals@.map_values(|s: String| s@),
    }
}

pub open spec fn starts_with(a: Seq<char>, p: Seq<char>) -> bool {
    a.len() >= p.len() && a.subrange(0, p.len() as int) == p
}

/// The flags `args[i..]` add to `acc`, or the error they are refused with:
/// `-h` / `--help`; `-d` / `--descriptor-set` and `-m` / `--message` with
/// their value after a space or an `=`; any other argument starting with
/// `-` (and longer than that) is an unknown flag; the rest are positional.
pub open spec fn flags_from(args: Seq<Seq<char>>, i: int, acc: FlagsView) -> Result<
    FlagsView,
    Seq<char>,
>
    decreases args.len() - i,
{
    if i < 0 || i >= args.len() {
        Ok(acc)
    } else {
        let a = args[i];
        if a == "-h"@ || a == "--help"@ {
            flags_from(args, i + 1, FlagsView { help: true, ..acc })
        } else if a == "-d"@ || a == "--descriptor-set"@ {
            if i + 1 >= args.len() {
                Err("missing value for "@ + a)
            } else {
                flags_from(args, i + 2, FlagsView { descriptor_set: Some(args[i + 1]), ..acc })
            }
        } else if starts_with(a, "--descriptor-set="@) {
            flags_from(
                args,
                i + 1,
                FlagsView { descriptor_set: Some(a.subrange(17, a.len() as int)), ..acc },
            )
        } else if a == "-m"@ || a == "--message"@ {
            if i + 1 >= args.len() {
                Err("missing value for "@ + a)
            } else {
                flags_from(args, i + 2, FlagsView { message: Some(args[i + 1]), ..acc })
            }
        } else if starts_with(a, "--message="@) {
            flags_from(
                args,
                i + 1,
                FlagsView { message: Some(a.subrange(10, a.len() as int)), ..acc },
            )
        } else if a.len() > 1 && a[0] == '-' {
            Err("unknown flag "@ + quote_text(a))
        } else {
            flags_from(args, i + 1, FlagsView { positionals: acc.positionals.push(a), ..acc })
        }
    }
}

pub open spec fn no_flags() -> FlagsView {
    FlagsView { descriptor_set: None, message: None, help: false, positionals: seq![] }
}

pub open spec fn args_view(args: Seq<&str>) -> Seq<Seq<char>> {
    args.map_values(|a: &str| a@)
}

/// The rest of `a` after its first `n` characters.
fn tail_after(a: &str, n: usize) -> (r: String)
    requires
        n <= a@.len(),
    ensures
        r@ == a@.subrange(n as int, a@.len() as int),
{
    let t = crate::text::chars_of(a);
    let mut r = String::new();
    let mut k = n;
    while k < t.len()
        invariant
            n <= k <= t@.len(),
            t@ == a@,
            r@ == a@.subrange(n as int, k as int),
        decreases t@.len() - k,
    {
        crate::text::push_char(&mut r, t[k]);
        k = k + 1;
        assert(r@ =~= a@.subrange(n as int, k as int));
    }
    r
}

/// Whether `a` starts with `p`.
fn has_prefix(a: &str, p: &str) -> (r: bool)
    ensures
        r == starts_with(a@, p@),
{
    let t = crate::text::chars_of(a);
    let q = crate::text::chars_of(p);
    if t.len() < q.len() {
        return false;
    }
    let mut k: usize = 0;
    while k < q.len()
        invariant
            k <= q@.len() <= t@.len(),
            t@ == a@,
            q@ == p@,
            forall|j: int| 0 <= j < k ==> t@[j] == q@[j],
        decreases q@.len() - k,
    {
        if t[k] != q[k] {
            assert(a@.subrange(0, p@.len() as int)[k as int] != p@[k as int]);
            return false;
        }
        k = k + 1;
    }
    assert(a@.subrange(0, p@.len() as int) =~= p@);
    true
}

/// Reads the flags `-d` / `--descriptor-set`, `-m` / `--message` (each
/// with its value after a space or an `=`) and `-h` / `--help`; anything
/// else is a positional argument, except an unknown flag.
pub fn parse_flags(args: &[&str]) -> (r: Result<ParsedFlags, String>)
    ensures
        match flags_from(args_view(args@), 0, no_flags()) {
            Ok(v) => r matches Ok(f) && flags_view(f) == v,
            Err(m) => r matches Err(e) && e@ == m,
        },
{
    let ghost av = args_view(args@);
    let mut out = ParsedFlags {
        descriptor_set: None,
        message: None,
        help: false,
        positionals: Vec::new(),
    };
    let mut i: usize = 0;
    proof {
        assert(flags_view(out).positionals =~= seq![]);
    }
    while i < args.len()
        invariant
            i <= args@.len(),
            av == args_view(args@),
            flags_from(av, 0, no_flags()) == flags_from(av, i as int, flags_view(out)),
        decreases args@.len() - i,
    {
        let a = args[i];
        assert(av[i as int] == a@);
        let o = owned(a);
        if str_is(&o, "-h") || str_is(&o, "--help") {
            out.help = true;
            i = i + 1;
            continue;
        }
        if str_is(&o, "-d") || str_is(&o, "--descriptor-set") {
            if i + 1 >= args.len() {
                let mut m = owned("missing value for ");
                push_str(&mut m, a);
                return Err(m);
            }
            assert(av[i + 1] == args@[i + 1]@);
            out.descriptor_set = Some(owned(args[i + 1]));
            i = i + 2;
            continue;
        }
        if has_prefix(a, "--descriptor-set=") {
            proof {
                reveal_strlit("--descriptor-set=");
            }
            out.descriptor_set = Some(tail_after(a, 17));
            i = i + 1;
            continue;
        }
        if str_is(&o, "-m") || str_is(&o, "--message") {
            if i + 1 >= args.len() {
                let mut m = owned("missing value for ");
                push_str(&mut m, a);
                return Err(m);
            }
            assert(av[i + 1] == args@[i + 1]@);
            out.message = Some(owned(args[i + 1]));
            i = i + 2;
            continue;
        }
        if has_prefix(a, "--message=") {
            proof {
                reveal_strlit("--message=");
            }
            out.message = Some(tail_after(a, 10));
            i = i + 1;
            continue;
        }
        let t = crate::text::chars_of(a);
        if t.len() > 1 && t[0] == '-' {
            let mut m = owned("unknown flag ");
            push_str(&mut m, quote_string(a).as_str());
            return Err(m);
        }
        let ghost before = flags_view(out).positionals;
        out.positionals.push(owned(a));
        proof {
            assert(flags_view(out).positionals =~= before.push(a@));
        }
        i = i + 1;
    }
    Ok(out)
}

/// Where a run goes after its arguments are read.
pub enum CliStep {
    /// The run ends with this answer.
    Done(CliResult),
    /// Load the descriptor set at `descriptor_set`, find `message` in it,
    /// read the file `input`, then run `command` on it.
    Load { command: String, descriptor_set: String, message: String, input: String },
}

/// How a run that ends before any file is read answers, if it does: the
/// usage on no arguments (exit 1) or on help (exit 0), a flag error, or a
/// missing flag or input file argument.
pub open spec fn early_answer(argv: Seq<Seq<char>>) -> Option<(Seq<char>, int)> {
    if argv.len() == 0 {
        Some((USAGE@, 1))
    } else if argv[0] == "-h"@ || argv[0] == "--help"@ {
        Some((USAGE@, 0))
    } else {
        match flags_from(argv, 1, no_flags()) {
            Err(e) => Some(("error: "@ + e + "\n\n"@ + USAGE@, 1)),
            Ok(f) => if f.help {
                Some((USAGE@, 0))
            } else if f.descriptor_set is None {
                Some(("error: -d/--descriptor-set is required\n"@, 1))
            } else if f.message is None {
                Some(("error: -m/--message is required\n"@, 1))
            } else if f.positionals.len() != 1 {
                Some(("error: "@ + argv[0] + " expects exactly one input file argument\n"@, 1))
            } else {
                None
            },
        }
    }
}

proof fn lemma_flags_shift(args: Seq<Seq<char>>, rest: Seq<Seq<char>>, i: int, acc: FlagsView)
    requires
        args.len() >= 1,
        rest == args.subrange(1, args.len() as int),
        0 <= i <= rest.len(),
    ensures
        flags_from(rest, i, acc) == flags_from(args, i + 1, acc),
    decreases rest.len() - i,
{
    if i < rest.len() {
        let a = rest[i];
        assert(a == args[i + 1]);
        if i + 1 < rest.len() {
            assert(rest[i + 1] == args[i + 2]);
        }
        if a == "-h"@ || a == "--help"@ {
            lemma_flags_shift(args, rest, i + 1, FlagsView { help: true, ..acc });
        } else if a == "-d"@ || a == "--descriptor-set"@ {
            if i + 1 < rest.len() {
                lemma_flags_shift(
                    args,
                    rest,
                    i + 2,
                    FlagsView { descriptor_set: Some(rest[i + 1]), ..acc },
                );
            }
        } else if starts_with(a, "--descriptor-set="@) {
            lemma_flags_shift(
                args,
                rest,
                i + 1,
                FlagsView { descriptor_set: Some(a.subrange(17, a.len() as int)), ..acc },
            );
        } else if a == "-m"@ || a == "--message"@ {
            if i + 1 < rest.len() {
                lemma_flags_shift(args, rest, i + 2, FlagsView { message: Some(rest[i + 1]), ..acc });
            }
        } else if starts_with(a, "--message="@) {
            lemma_flags_shift(
                args,
                rest,
                i + 1,
                FlagsView { message: Some(a.subrange(10, a.len() as int)), ..acc },
            );
        } else if a.len() > 1 && a[0] == '-' {
        } else {
            lemma_flags_shift(
                args,
                rest,
                i + 1,
                FlagsView { positionals: acc.positionals.push(a), ..acc },
            );
        }
    }
}

/// Reads the arguments of a run: ends it with the usage, a flag error or a
/// missing argument, or names the files to load and the command to run.
pub fn start(argv: &[&str]) -> (r: CliStep)
    ensures
        match early_answer(args_view(argv@)) {
            Some((text, code)) => r matches CliStep::Done(res) && res.stdout@.len() == 0
                && res.stderr@ == text && res.exit == code,
            None => r matches CliStep::Load { command, descriptor_set, message, input } && ({
                let f = flags_from(args_view(argv@), 1, no_flags())->Ok_0;
                &&& command@ == argv@[0]@
                &&& Some(descriptor_set@) == f.descriptor_set
                &&& Some(message@) == f.message
                &&& input@ == f.positionals[0]
            }),
        },
{
    let ghost av = args_view(argv@);
    if argv.len() == 0 {
        return CliStep::Done(usage_result(1));
    }
    assert(av[0] == argv@[0]@);
    let cmd = argv[0];
    let c = owned(cmd);
    if str_is(&c, "-h") || str_is(&c, "--help") {
        return CliStep::Done(usage_result(0));
    }
    let mut rest: Vec<&str> = Vec::new();
    let mut k: usize = 1;
    while k < argv.len()
        invariant
            1 <= k <= argv@.len(),
            av == args_view(argv@),
            args_view(rest@) =~= av.subrange(1, k as int),
        decreases argv@.len() - k,
    {
        let ghost before = rest@;
        rest.push(argv[k]);
        proof {
            assert(av[k as int] == argv@[k as int]@);
            assert(args_view(rest@) =~= args_view(before).push(argv@[k as int]@));
        }
        k = k + 1;
    }
    proof {
        lemma_flags_shift(av, args_view(rest@), 0, no_flags());
    }
    let parsed = match parse_flags(rest.as_slice()) {
        Ok(p) => p,
        Err(e) => {
            let mut m = owned("error: ");
            push_str(&mut m, e.as_str());
            push_str(&mut m, "\n\n");
            push_str(&mut m, USAGE);
            return CliStep::Done(fail(m));
        },
    };
    if parsed.help {
        return CliStep::Done(usage_result(0));
    }
    let descriptor_set = match parsed.descriptor_set {
        Some(d) => d,
        None => {
            return CliStep::Done(fail(owned("error: -d/--descriptor-set is required\n")));
        },
    };
    let message = match parsed.message {
        Some(m) => m,
        None => {
            return CliStep::Done(fail(owned("error: -m/--message is required\n")));
        },
    };
    if parsed.positionals.len() != 1 {
        let mut m = owned("error: ");
        push_str(&mut m, cmd);
        push_str(&mut m, " expects exactly one input file argument\n");
        return CliStep::Done(fail(m));
    }
    let input = owned(parsed.positionals[0].as_str());
    CliStep::Load { command: c, descriptor_set, message, input }
}

/// The commands the command line runs.
#[derive(Debug, Clone, Copy, PartialEq, Eq)]
pub enum Command {
    Encode,
    Decode,
    Validate,
    Fmt,
}

/// The command named `name`, or the answer for an unknown one.
pub fn command_of(name: &str) -> (r: Result<Command, CliResult>)
    ensures
        name@ == "encode"@ ==> r == Ok::<Command, CliResult>(Command::Encode),
        name@ == "decode"@ ==> r == Ok::<Command, CliResult>(Command::Decode),
        name@ == "validate"@ ==> r == Ok::<Command, CliResult>(Command::Validate),
        name@ == "fmt"@ ==> r == Ok::<Command, CliResult>(Command::Fmt),
        !(name@ == "encode"@ || name@ == "decode"@ || name@ == "validate"@ || name@ == "fmt"@)
            ==> (r matches Err(res) && res.exit == 1 && res.stdout@.len() == 0 && res.stderr@
            == "error: unknown command "@ + quote_text(name@) + "\n\n"@ + USAGE@),
{
    let n = owned(name);
    proof {
        reveal_strlit("encode");
        reveal_strlit("decode");
        reveal_strlit("validate");
        reveal_strlit("fmt");
        assert("encode"@[0] == 'e' && "decode"@[0] == 'd' && "validate"@[0] == 'v'
            && "fmt"@[0] == 'f');
    }
    if str_is(&n, "encode") {
        Ok(Command::Encode)
    } else if str_is(&n, "decode") {
        Ok(Command::Decode)
    } else if str_is(&n, "validate") {
        Ok(Command::Validate)
    } else if str_is(&n, "fmt") {
        Ok(Command::Fmt)
    } else {
        let mut m = owned("error: unknown command ");
        push_str(&mut m, quote_string(name).as_str());
        push_str(&mut m, "\n\n");
        push_str(&mut m, USAGE);
        Err(fail(m))
    }
}

/// The answer when the descriptor set cannot be loaded, `reason` saying why.
pub fn load_failed(reason: &str) -> (r: CliResult)
    ensures
        r.exit == 1,
        r.stdout@.len() == 0,
        r.stderr@ == "error: load descriptor: "@ + reason@ + "\n"@,
{
    let mut m = owned("error: load descriptor: ");
    push_str(&mut m, reason);
    push_str(&mut m, "\n");
    fail(m)
}

/// The answer when the descriptor set has no message `name`.
pub fn message_not_found(name: &str) -> (r: CliResult)
    ensures
        r.exit == 1,
        r.stdout@.len() == 0,
        r.stderr@ == "error: message "@ + name@ + " not found in descriptor set\n"@,
{
    let mut m = owned("error: message ");
    push_str(&mut m, name);
    push_str(&mut m, " not found in descriptor set\n");
    fail(m)
}

/// The answer when the input file cannot be read, `reason` saying why.
pub fn read_failed(path: &str, reason: &str) -> (r: CliResult)
    ensures
        r.exit == 1,
        r.stdout@.len() == 0,
        r.stderr@ == "error: read "@ + path@ + ": "@ + reason@ + "\n"@,
{
    let mut m = owned("error: read ");
    push_str(&mut m, path);
    push_str(&mut m, ": ");
    push_str(&mut m, reason);
    push_str(&mut m, "\n");
    fail(m)
}

} // verus!
