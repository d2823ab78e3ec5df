//! What the command-line arguments ask the program to do.
use vstd::prelude::*;
use crate::engine::components::chars::str_equal;

verus! {

/// One thing the program does for its command line.
#[derive(Clone, Copy, Debug, PartialEq, Eq, Structural)]
pub enum CliAction {
    /// Open the interactive viewer (no arguments were given).
    RunViewer,
    /// Print the usage text (`--help`).
    Help,
    /// Run the engine self-test (`-t` or `--test`).
    Test,
    /// Complain about a flag that is not known.
    Unknown,
}

/// The action that one argument asks for.
pub open spec fn classify_spec(arg: Seq<char>) -> CliAction {
    if arg == seq!['-', '-', 'h', 'e', 'l', 'p'] {
        CliAction::Help
    } else if arg == seq!['-', 't'] || arg == seq!['-', '-', 't', 'e', 's', 't'] {
        CliAction::Test
    } else {
        CliAction::Unknown
    }
}

/// The actions for a whole argument list: the viewer when it is empty,
/// otherwise one action per argument, in order.
pub open spec fn actions_spec(args: Seq<Seq<char>>) -> Seq<CliAction> {
    if args.len() == 0 {
        seq![CliAction::RunViewer]
    } else {
        args.map_values(|a: Seq<char>| classify_spec(a))
    }
}

pub open spec fn args_view(args: Seq<String>) -> Seq<Seq<char>> {
    args.map_values(|a: String| a@)
}

/// The action that one argument asks for.
pub fn classify_arg(arg: &str) -> (r: CliAction)
    ensures
        r == classify_spec(arg@),
{
    proof {
        reveal_strlit("--help");
        reveal_strlit("-t");
        reveal_strlit("--test");
        assert("--help"@ =~= seq!['-', '-', 'h', 'e', 'l', 'p']);
        assert("-t"@ =~= seq!['-', 't']);
        assert("--test"@ =~= seq!['-', '-', 't', 'e', 's', 't']);
    }
    if str_equal(arg, "--help") {
        CliAction::Help
    } else if str_equal(arg, "-t") || str_equal(arg, "--test") {
        CliAction::Test
    } else {
        CliAction::Unknown
    }
}

/// The actions that an argument list (without the program name) asks for,
/// in the order the program carries them out.
pub fn arg_actions(args: &Vec<String>) -> (r: Vec<CliAction>)
    ensures
        r@ == actions_spec(args_view(args@)),
{
    let mut actions: Vec<CliAction> = Vec::new();
    if args.len() == 0 {
        actions.push(CliAction::RunViewer);
        assert(actions@ =~= seq![CliAction::RunViewer]);
        return actions;
    }
    let mut i: usize = 0;
    while i < args.len()
        invariant
            i <= args.len(),
            actions@ =~= args_view(args@).take(i as int).map_values(|a: Seq<char>| classify_spec(a)),
        decreases args.len() - i,
    {
        actions.push(classify_arg(args[i].as_str()));
        i = i + 1;
    }
    assert(args_view(args@).take(args.len() as int) =~= args_view(args@));
    actions
}

/// Only `--help` asks for help, only `-t` and `--test` ask for the test, no
/// single argument opens the viewer, and every other argument is unknown.
pub proof fn lemma_classify_flags(arg: Seq<char>)
    ensures
        (classify_spec(arg) == CliAction::Help) == (arg == seq!['-', '-', 'h', 'e', 'l', 'p']),
        (classify_spec(arg) == CliAction::Test) == (arg == seq!['-', 't'] || arg == seq![
            '-',
            '-',
            't',
            'e',
            's',
            't',
        ]),
        classify_spec(arg) != CliAction::RunViewer,
{
}

/// The viewer opens exactly when no argument is given; otherwise there is
/// one action per argument, in the order of the arguments, each the action
/// that the argument asks for alone.
pub proof fn lemma_actions_per_argument(args: Seq<Seq<char>>)
    ensures
        args.len() == 0 ==> actions_spec(args) == seq![CliAction::RunViewer],
        args.len() > 0 ==> actions_spec(args).len() == args.len() && forall|i: int|
            0 <= i < args.len() ==> #[trigger] actions_spec(args)[i] == classify_spec(args[i]),
        (exists|i: int| 0 <= i < actions_spec(args).len() && #[trigger] actions_spec(args)[i]
            == CliAction::RunViewer) <==> args.len() == 0,
{
    if args.len() > 0 {
        assert forall|i: int| 0 <= i < actions_spec(args).len() implies #[trigger] actions_spec(args)[i]
            != CliAction::RunViewer by {
            lemma_classify_flags(args[i]);
        }
    } else {
        assert(actions_spec(args)[0] == CliAction::RunViewer);
    }
}

} // verus!
