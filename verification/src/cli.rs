use vstd::prelude::*;

use crate::text::str_is;

verus! {

/// What the command line asks the surface to do.
#[derive(Clone, Copy, Debug, PartialEq, Eq)]
pub enum CliMode {
    Repl,
    Help,
}

/// How command results are printed.
#[derive(Clone, Copy, Debug, PartialEq, Eq)]
pub enum OutputMode {
    Human,
    Jsonl,
}

impl OutputMode {
    /// The mode selected by the value of the `YUUKEI_CLI_OUTPUT` setting:
    /// `jsonl` exactly, and nothing else, selects JSON lines.
    pub fn from_env_value(value: Option<&str>) -> (mode: OutputMode)
        ensures
            mode == (match value {
                Some(v) => if v@ == "jsonl"@ {
                    OutputMode::Jsonl
                } else {
                    OutputMode::Human
                },
                None => OutputMode::Human,
            }),
    {
        match value {
            Some(v) => if str_is(v, "jsonl") {
                OutputMode::Jsonl
            } else {
                OutputMode::Human
            },
            None => OutputMode::Human,
        }
    }

    /// The other output mode.
    pub open spec fn spec_toggled(self) -> OutputMode {
        match self {
            OutputMode::Human => OutputMode::Jsonl,
            OutputMode::Jsonl => OutputMode::Human,
        }
    }

    /// The other output mode.
    pub fn toggled(self) -> (mode: OutputMode)
        ensures
            mode == self.spec_toggled(),
    {
        match self {
            OutputMode::Human => OutputMode::Jsonl,
            OutputMode::Jsonl => OutputMode::Human,
        }
    }

    /// The mode's name as shown to the user.
    pub fn name(self) -> (name: &'static str)
        ensures
            name@ == (match self {
                OutputMode::Human => "human"@,
                OutputMode::Jsonl => "jsonl"@,
            }),
    {
        match self {
            OutputMode::Human => "human",
            OutputMode::Jsonl => "jsonl",
        }
    }
}

/// Toggling changes the output mode, and toggling twice gives it back.
pub proof fn lemma_toggle_involutive(mode: OutputMode)
    ensures
        mode.spec_toggled() != mode,
        mode.spec_toggled().spec_toggled() == mode,
{
}

/// The message of the error for an argument that is not accepted.
pub open spec fn unknown_argument_message(flag: Seq<char>) -> Seq<char> {
    "unknown argument: "@ + flag
}

/// Reads the command line (without the program name): no argument starts
/// the REPL, a single `-h` or `--help` asks for usage, and anything else is
/// refused, naming its first argument.
pub fn parse_args(args: Vec<String>) -> (r: Result<CliMode, String>)
    ensures
        args@.len() == 0 ==> r == Ok::<CliMode, String>(CliMode::Repl),
        args@.len() == 1 && (args@[0]@ == "-h"@ || args@[0]@ == "--help"@) ==> r
            == Ok::<CliMode, String>(CliMode::Help),
        args@.len() > 0 && !(args@.len() == 1 && (args@[0]@ == "-h"@ || args@[0]@ == "--help"@))
            ==> (r matches Err(e) && e@ == unknown_argument_message(args@[0]@)),
{
    if args.len() == 0 {
        return Ok(CliMode::Repl);
    }
    let flag = args[0].as_str();
    if args.len() == 1 && (str_is(flag, "-h") || str_is(flag, "--help")) {
        return Ok(CliMode::Help);
    }
    let mut message = "unknown argument: ".to_owned();
    message.append(flag);
    Err(message)
}

/// The usage text printed for `--help` and after an unknown argument.
pub fn usage_text() -> (text: &'static str)
    ensures
        text@ == "Usage:\n  yuukei-cli-surface\n  yuukei-cli-surface --help"@,
{
    "Usage:\n  yuukei-cli-surface\n  yuukei-cli-surface --help"
}


/// The one-line label of a runtime command: its kind, then its target actor (`target`
/// without one), then its text; a command without text shows its id in place of the text,
/// right after the kind.
pub open spec fn spec_command_label(
    kind: Seq<char>,
    id: Seq<char>,
    actor_id: Option<Seq<char>>,
    text: Option<Seq<char>>,
) -> Seq<char> {
    let actor = match actor_id {
        Some(a) => a,
        None => "target"@,
    };
    let text = match text {
        Some(t) => t,
        None => Seq::empty(),
    };
    if text.len() == 0 {
        kind + " / "@ + id + " / "@ + actor
    } else {
        kind + " / "@ + actor + " / "@ + text
    }
}

/// The one-line label of a runtime command, as `spec_command_label` describes, from the
/// command's kind, id, target actor and text.
pub fn command_label(kind: &str, id: &str, actor_id: Option<&str>, text: Option<&str>) -> (s: String)
    ensures
        s@ == spec_command_label(kind@, id@, match actor_id {
            Some(a) => Some(a@),
            None => None,
        }, match text {
            Some(t) => Some(t@),
            None => None,
        }),
{
    let actor = match actor_id {
        Some(a) => a,
        None => "target",
    };
    let text = match text {
        Some(t) => t,
        None => "",
    };
    proof {
        reveal_strlit("");
    }
    let mut label = kind.to_owned();
    if text.unicode_len() == 0 {
        label.append(" / ");
        label.append(id);
        label.append(" / ");
        label.append(actor);
    } else {
        label.append(" / ");
        label.append(actor);
        label.append(" / ");
        label.append(text);
    }
    label
}

} // verus!
