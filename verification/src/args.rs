//! Command-line arguments.
use vstd::prelude::*;
use vstd::string::*;

verus! {

/// What the command line asks for.
#[derive(Clone, Copy, Debug, PartialEq, Eq, Structural)]
pub enum Launch {
    /// Show the overlay, with or without its border.
    Overlay { border: bool },
    /// Show the usage and leave.
    Help,
    /// Report the argument at a position, which is not known, and leave.
    Unknown(usize),
}

/// The exit status after the usage was shown.
pub const HELP_STATUS: i32 = 0;

/// The exit status after an unknown argument.
pub const UNKNOWN_STATUS: i32 = 2;

/// The argument that turns the border off.
pub open spec fn turns_border_off(arg: Seq<char>) -> bool {
    arg == "--no-border"@
}

/// The arguments that ask for the usage.
pub open spec fn asks_for_help(arg: Seq<char>) -> bool {
    arg == "-h"@ || arg == "--help"@
}

/// What a command line asks for: its arguments count up to the first one that is not
/// the border switch.
pub open spec fn launch(args: Seq<String>) -> Launch
    decreases args.len(),
{
    if args.len() == 0 {
        Launch::Overlay { border: true }
    } else {
        let last = args.last()@;
        match launch(args.drop_last()) {
            Launch::Overlay { border } => if turns_border_off(last) {
                Launch::Overlay { border: false }
            } else if asks_for_help(last) {
                Launch::Help
            } else {
                Launch::Unknown((args.len() - 1) as usize)
            },
            stopped => stopped,
        }
    }
}

/// What follows an argument that ends the reading makes no difference.
proof fn lemma_stopped(args: Seq<String>, n: nat)
    requires
        n <= args.len(),
        !(launch(args.take(n as int)) is Overlay),
    ensures
        launch(args) == launch(args.take(n as int)),
    decreases args.len() - n,
{
    if n == args.len() {
        assert(args.take(n as int) =~= args);
    } else {
        let next = args.take(n as int + 1);
        assert(next.drop_last() =~= args.take(n as int));
        lemma_stopped(args, n + 1);
    }
}

/// Reads the command line, without the name of the program.
pub fn parse_args(args: &Vec<String>) -> (r: Launch)
    ensures
        r == launch(args@),
{
    let no_border: String = "--no-border".to_owned();
    let short_help: String = "-h".to_owned();
    let long_help: String = "--help".to_owned();
    let mut border: bool = true;
    let n: usize = args.len();
    let mut i: usize = 0;
    proof {
        assert(args@.take(0) =~= Seq::<String>::empty());
    }
    while i < n
        invariant
            i <= n,
            n == args@.len(),
            no_border@ == "--no-border"@,
            short_help@ == "-h"@,
            long_help@ == "--help"@,
            launch(args@.take(i as int)) == (Launch::Overlay { border }),
        decreases n - i,
    {
        let arg: &String = &args[i];
        proof {
            let next = args@.take(i as int + 1);
            assert(next.drop_last() =~= args@.take(i as int));
            assert(next.last() == arg);
        }
        if *arg == no_border {
            border = false;
        } else {
            let stop: Launch = if *arg == short_help || *arg == long_help {
                Launch::Help
            } else {
                Launch::Unknown(i)
            };
            proof {
                lemma_stopped(args@, i as nat + 1);
            }
            return stop;
        }
        i = i + 1;
    }
    proof {
        assert(args@.take(n as int) =~= args@);
    }
    Launch::Overlay { border }
}

/// The usage of the program called `name`.
pub fn usage(name: &str) -> (r: String)
    ensures
        r@ == "Usage: "@ + name@
            + " [--no-border]\n\nA view-only screen magnifier.\n\nOptions:\n  --no-border   Don't draw the reminder border around the overlay.\n  -h, --help    Show this help."@,
{
    "Usage: ".to_owned().concat(name).concat(
        " [--no-border]\n\nA view-only screen magnifier.\n\nOptions:\n  --no-border   Don't draw the reminder border around the overlay.\n  -h, --help    Show this help.",
    )
}

/// How the program called `name` reports an unknown argument.
pub fn unknown_argument(name: &str, arg: &str) -> (r: String)
    ensures
        r@ == name@ + ": unknown argument '"@ + arg@ + "' (try --help)"@,
{
    name.to_owned().concat(": unknown argument '").concat(arg).concat("' (try --help)")
}

/// The overlay is shown exactly if every argument is the border switch, and with a
/// border exactly if there is none.
pub proof fn overlay_needs_known_arguments(args: Seq<String>)
    ensures
        launch(args) is Overlay <==> forall|i: int|
            0 <= i < args.len() ==> turns_border_off(#[trigger] args[i]@),
        launch(args) matches Launch::Overlay { border } ==> border == (args.len() == 0),
    decreases args.len(),
{
    if args.len() > 0 {
        let before = args.drop_last();
        overlay_needs_known_arguments(before);
        assert(forall|i: int| 0 <= i < before.len() ==> before[i] == args[i]);
        if launch(args) is Overlay {
            assert forall|i: int| 0 <= i < args.len() implies turns_border_off(
                #[trigger] args[i]@,
            ) by {
                if i < before.len() {
                    assert(turns_border_off(before[i]@));
                }
            }
        } else if forall|i: int| 0 <= i < args.len() ==> turns_border_off(#[trigger] args[i]@) {
            assert forall|i: int| 0 <= i < before.len() implies turns_border_off(
                #[trigger] before[i]@,
            ) by {
                assert(turns_border_off(args[i]@));
            }
            assert(turns_border_off(args[args.len() - 1]@));
        }
    }
}

/// The first argument that is not the border switch decides: it asks for help, or it is
/// unknown and its position is reported.
pub proof fn first_other_argument_decides(args: Seq<String>, k: int)
    requires
        0 <= k < args.len() <= usize::MAX,
        forall|i: int| 0 <= i < k ==> (#[trigger] args[i])@ == "--no-border"@,
        args[k]@ != "--no-border"@,
    ensures
        args[k]@ == "-h"@ || args[k]@ == "--help"@ ==> launch(args) == Launch::Help,
        args[k]@ != "-h"@ && args[k]@ != "--help"@ ==> launch(args) == Launch::Unknown(k as usize),
{
    let (before, first) = (args.take(k), args.take(k + 1));
    overlay_needs_known_arguments(before);
    assert forall|i: int| 0 <= i < before.len() implies turns_border_off(
        #[trigger] before[i]@,
    ) by {
        assert(before[i] == args[i]);
    }
    assert(first.drop_last() =~= before);
    assert(first.last() == args[k]);
    lemma_stopped(args, (k + 1) as nat);
}

/// With nothing but the border switch among the arguments the overlay is shown: with its
/// border if there are none at all, without it if there are any.
pub proof fn switches_alone_show_the_overlay(args: Seq<String>)
    requires
        forall|i: int| 0 <= i < args.len() ==> (#[trigger] args[i])@ == "--no-border"@,
    ensures
        args.len() == 0 ==> launch(args) == (Launch::Overlay { border: true }),
        args.len() > 0 ==> launch(args) == (Launch::Overlay { border: false }),
{
    overlay_needs_known_arguments(args);
}

} // verus!
