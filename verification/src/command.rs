//! The commands of the tool, as decisions: what to do is computed here, the
//! doing is left to the caller.

use vstd::prelude::*;
use vstd::string::StringExecFns;
use crate::ids::CommitHash;
use crate::plan::EvolvePlan;

verus! {

/// What a command reports when it has run.
#[derive(Debug, PartialEq, Eq)]
pub struct CommandExecutionResult {
    output: String,
}

impl View for CommandExecutionResult {
    type V = Seq<char>;

    closed spec fn view(&self) -> Seq<char> {
        self.output@
    }
}

impl CommandExecutionResult {
    /// A result with nothing to report.
    pub fn empty() -> (result: CommandExecutionResult)
        ensures
            result@ == Seq::<char>::empty(),
    {
        CommandExecutionResult { output: String::new() }
    }

    /// A result that reports `message`.
    pub fn message(message: &str) -> (result: CommandExecutionResult)
        ensures
            result@ == message@,
    {
        CommandExecutionResult { output: String::from_str(message) }
    }

    /// The text that is reported.
    pub fn output(&self) -> (text: &String)
        ensures
            text@ == self@,
    {
        &self.output
    }
}

/// A rewrite of the stack on `base` onto `onto`, in one of two forms.
#[derive(Debug, PartialEq, Eq)]
pub enum EvolveCommand {
    /// Write the script to the file at `output`.
    Plan { onto: CommitHash, base: CommitHash, output: String },
    /// Run the rewrite, or show what it would do.
    Execute { onto: CommitHash, base: CommitHash },
}

/// What the caller is to do for a command.
#[derive(Debug, PartialEq, Eq)]
pub enum EvolveAction {
    /// Build the script and write it to the file at `output`.
    WriteScript { output: String },
    /// Build the script and print it; the rewrite engine is not started.
    PrintScript,
    /// Start the interactive rewrite with `arguments`; it asks for its
    /// script through the editor command of
    /// [`EvolveCommand::sequence_editor`].
    Rewrite { arguments: Vec<String> },
}

/// The mathematical content of an [`EvolveAction`].
pub enum EvolveActionView {
    WriteScript { output: Seq<char> },
    PrintScript,
    Rewrite { arguments: Seq<Seq<char>> },
}

impl View for EvolveAction {
    type V = EvolveActionView;

    open spec fn view(&self) -> EvolveActionView {
        match self {
            EvolveAction::WriteScript { output } => EvolveActionView::WriteScript { output: output@ },
            EvolveAction::PrintScript => EvolveActionView::PrintScript,
            EvolveAction::Rewrite { arguments } => EvolveActionView::Rewrite {
                arguments: arguments@.map_values(|a: String| a@),
            },
        }
    }
}

impl EvolveCommand {
    /// The commit that the stack is moved onto.
    pub open spec fn onto_view(&self) -> Seq<char> {
        match self {
            EvolveCommand::Plan { onto, .. } => onto@,
            EvolveCommand::Execute { onto, .. } => onto@,
        }
    }

    /// The commit that the stack rests on.
    pub open spec fn base_view(&self) -> Seq<char> {
        match self {
            EvolveCommand::Plan { base, .. } => base@,
            EvolveCommand::Execute { base, .. } => base@,
        }
    }

    /// What the command asks for: `Plan` writes the script to its file;
    /// `Execute` prints the script on a dry run, and otherwise starts the
    /// interactive rewrite onto `onto`.
    pub fn run(&self, dry_run: bool) -> (action: EvolveAction)
        ensures
            action@ == (match self {
                EvolveCommand::Plan { output, .. } => EvolveActionView::WriteScript {
                    output: output@,
                },
                EvolveCommand::Execute { onto, .. } => if dry_run {
                    EvolveActionView::PrintScript
                } else {
                    EvolveActionView::Rewrite { arguments: seq!["rebase"@, "-i"@, onto@] }
                },
            }),
    {
        match self {
            EvolveCommand::Plan { output, .. } => EvolveAction::WriteScript { output: output.clone() },
            EvolveCommand::Execute { onto, .. } => {
                if dry_run {
                    EvolveAction::PrintScript
                } else {
                    let mut arguments: Vec<String> = Vec::new();
                    arguments.push(String::from_str("rebase"));
                    arguments.push(String::from_str("-i"));
                    arguments.push(onto.to_string());
                    assert(arguments@.map_values(|a: String| a@) =~= seq!["rebase"@, "-i"@, onto@]);
                    EvolveAction::Rewrite { arguments }
                }
            },
        }
    }

    /// The plan that the command is about.
    pub fn plan(&self) -> (plan: EvolvePlan<'_>)
        ensures
            plan.onto@ == self.onto_view(),
            plan.base@ == self.base_view(),
    {
        match self {
            EvolveCommand::Plan { onto, base, .. } => EvolvePlan { onto, base },
            EvolveCommand::Execute { onto, base } => EvolvePlan { onto, base },
        }
    }

    /// The editor command through which the rewrite engine asks this
    /// program, found at `program`, for the script: the program, the words
    /// `evolve plan`, then `onto` and `base`; the engine adds the file.
    pub fn sequence_editor(&self, program: &str) -> (command: String)
        ensures
            command@ == program@ + " evolve plan "@ + self.onto_view() + " "@ + self.base_view(),
    {
        let plan = self.plan();
        String::from_str(program).concat(" evolve plan ").concat(plan.onto.as_ref().as_str()).concat(
            " ",
        ).concat(plan.base.as_ref().as_str())
    }
}

} // verus!
