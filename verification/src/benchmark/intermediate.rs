//! The commands that are run around the benchmarked ones.

use crate::benchmark::run::RunError;
use crate::command::{parameters_view, same_parameters_pair_up, Command};
use crate::options::Options;
use vstd::prelude::*;

verus! {

/// The command line for benchmark `number`: the only one there is, or that benchmark's own.
pub open spec fn template_for(values: Seq<String>, number: usize) -> String {
    if values.len() == 1 {
        values[0]
    } else {
        values[number as int]
    }
}

/// Whether there is a command line for benchmark `number`.
pub open spec fn has_template_for(values: Seq<String>, number: usize) -> bool {
    values.len() == 1 || number < values.len()
}

/// Whether `command` is the nameless command with the given command line and parameters.
pub open spec fn is_command_from(
    command: Command,
    template: String,
    parameters: Seq<(String, String)>,
) -> bool {
    &&& command.name is None
    &&& command.expression@ == template@
    &&& parameters_view(command.parameters@) == parameters_view(parameters)
}

fn build_from_list(
    values: &Option<Vec<String>>,
    number: usize,
    parameters: &Vec<(String, String)>,
) -> (command: Option<Command>)
    requires
        values matches Some(list) ==> has_template_for(list@, number),
    ensures
        command is Some <==> values is Some,
        command matches Some(built) ==> is_command_from(
            built,
            template_for(values->0@, number),
            parameters@,
        ),
{
    match values {
        Some(list) => {
            let template = if list.len() == 1 { &list[0] } else { &list[number] };
            Some(Command::new_parametrized(None, template, parameters))
        },
        None => None,
    }
}

fn build_from_one(value: &Option<String>, parameters: &Vec<(String, String)>) -> (command: Option<
    Command,
>)
    ensures
        command is Some <==> value is Some,
        command matches Some(built) ==> is_command_from(built, value->0, parameters@),
{
    match value {
        Some(template) => Some(Command::new_parametrized(None, template, parameters)),
        None => None,
    }
}

/// Build a preparation command for a benchmark
pub fn build_preparation_command(
    options: &Options,
    number: usize,
    parameters: &Vec<(String, String)>,
) -> (command: Option<Command>)
    requires
        options.preparation_command matches Some(list) ==> has_template_for(list@, number),
    ensures
        command is Some <==> options.preparation_command is Some,
        command matches Some(built) ==> is_command_from(
            built,
            template_for(options.preparation_command->0@, number),
            parameters@,
        ),
{
    build_from_list(&options.preparation_command, number, parameters)
}

/// Build a conclusion command for a benchmark
pub fn build_conclusion_command(
    options: &Options,
    number: usize,
    parameters: &Vec<(String, String)>,
) -> (command: Option<Command>)
    requires
        options.conclusion_command matches Some(list) ==> has_template_for(list@, number),
    ensures
        command is Some <==> options.conclusion_command is Some,
        command matches Some(built) ==> is_command_from(
            built,
            template_for(options.conclusion_command->0@, number),
            parameters@,
        ),
{
    build_from_list(&options.conclusion_command, number, parameters)
}

/// Build the setup command for a benchmark
pub fn build_setup_command(options: &Options, parameters: &Vec<(String, String)>) -> (command:
    Option<Command>)
    ensures
        command is Some <==> options.setup_command is Some,
        command matches Some(built) ==> is_command_from(
            built,
            options.setup_command->0,
            parameters@,
        ),
{
    build_from_one(&options.setup_command, parameters)
}

/// Build the cleanup command for a benchmark
pub fn build_cleanup_command(options: &Options, parameters: &Vec<(String, String)>) -> (command:
    Option<Command>)
    ensures
        command is Some <==> options.cleanup_command is Some,
        command matches Some(built) ==> is_command_from(
            built,
            options.cleanup_command->0,
            parameters@,
        ),
{
    build_from_one(&options.cleanup_command, parameters)
}

/// Whether a preparation command is in use: there is one, and the list is not empty.
pub fn has_prepare_command(options: &Options) -> (in_use: bool)
    ensures
        in_use == (options.preparation_command matches Some(list) && list@.len() > 0),
{
    match &options.preparation_command {
        Some(list) => list.len() > 0,
        None => false,
    }
}

impl RunError {
    /// The words for the failure of a command that is run around the benchmarked one.
    pub open spec fn words(self) -> Option<Seq<char>> {
        match self {
            RunError::Setup => Some(
                "The setup command terminated with a non-zero exit code. Append ' || true' to the command if you are sure that this can be ignored."@,
            ),
            RunError::Preparation => Some(
                "The preparation command terminated with a non-zero exit code. Append ' || true' to the command if you are sure that this can be ignored."@,
            ),
            RunError::Conclusion => Some(
                "The conclusion command terminated with a non-zero exit code. Append ' || true' to the command if you are sure that this can be ignored."@,
            ),
            RunError::Cleanup => Some(
                "The cleanup command terminated with a non-zero exit code. Append ' || true' to the command if you are sure that this can be ignored."@,
            ),
            _ => None,
        }
    }

    /// The message for the failure of a command that is run around the benchmarked one. Other
    /// failures bring a message of their own.
    pub fn error_output(&self) -> (text: Option<&'static str>)
        ensures
            text is Some <==> self.words() is Some,
            text matches Some(message) ==> message@ == self.words()->0,
    {
        match self {
            RunError::Setup => Some(
                "The setup command terminated with a non-zero exit code. Append ' || true' to the command if you are sure that this can be ignored.",
            ),
            RunError::Preparation => Some(
                "The preparation command terminated with a non-zero exit code. Append ' || true' to the command if you are sure that this can be ignored.",
            ),
            RunError::Conclusion => Some(
                "The conclusion command terminated with a non-zero exit code. Append ' || true' to the command if you are sure that this can be ignored.",
            ),
            RunError::Cleanup => Some(
                "The cleanup command terminated with a non-zero exit code. Append ' || true' to the command if you are sure that this can be ignored.",
            ),
            _ => None,
        }
    }
}

/// A single command line serves every benchmark. Where there are others, each benchmark has the one
/// with its own number, and there is none for a benchmark beyond the last.
pub proof fn command_lines_go_by_number(values: Seq<String>, number: usize)
    ensures
        values.len() == 1 ==> has_template_for(values, number) && template_for(values, number)
            == values[0],
        values.len() != 1 ==> (has_template_for(values, number) <==> number < values.len()),
        values.len() != 1 && number < values.len() ==> template_for(values, number)
            == values[number as int],
{
}

/// A command around the benchmarked one has no name, keeps its command line as it is, and has the
/// parameters of the benchmark.
pub proof fn commands_keep_their_parameters(
    command: Command,
    template: String,
    parameters: Seq<(String, String)>,
    k: int,
)
    requires
        is_command_from(command, template, parameters),
        0 <= k < parameters.len(),
    ensures
        command.name is None,
        command.expression@ == template@,
        command.parameters@.len() == parameters.len(),
        command.parameters@[k].0@ == parameters[k].0@,
        command.parameters@[k].1@ == parameters[k].1@,
{
    same_parameters_pair_up(command.parameters@, parameters);
}

} // verus!
