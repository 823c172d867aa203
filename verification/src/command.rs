//! Commands and the names they go by in results.

use vstd::prelude::*;

verus! {

/// A command line, whose parameters are yet to be replaced by their values.
pub struct Command {
    /// The name given by the user, if any
    pub name: Option<String>,
    /// The command line
    pub expression: String,
    /// The names and the values of the parameters
    pub parameters: Vec<(String, String)>,
}

/// What results call a command.
pub struct CommandLabel {
    /// The name of the command
    pub name: String,
    /// The name, followed by the parameters that the command line does not use
    pub name_with_unused_parameters: String,
    /// The names and the values of the parameters
    pub parameters: Vec<(String, String)>,
}

/// The names and values of parameters as sequences of characters.
pub open spec fn parameters_view(parameters: Seq<(String, String)>) -> Seq<(Seq<char>, Seq<char>)> {
    parameters.map_values(|p: (String, String)| (p.0@, p.1@))
}

/// A copy of the parameters.
pub fn copy_parameters(parameters: &Vec<(String, String)>) -> (copy: Vec<(String, String)>)
    ensures
        parameters_view(copy@) == parameters_view(parameters@),
{
    let mut copy: Vec<(String, String)> = Vec::with_capacity(parameters.len());
    let mut i: usize = 0;
    while i < parameters.len()
        invariant
            i <= parameters@.len(),
            copy@.len() == i,
            forall|k: int|
                0 <= k < i ==> (#[trigger] copy@[k]).0@ == parameters@[k].0@ && copy@[k].1@
                    == parameters@[k].1@,
        decreases parameters@.len() - i,
    {
        copy.push((parameters[i].0.clone(), parameters[i].1.clone()));
        i = i + 1;
    }
    assert(parameters_view(copy@) =~= parameters_view(parameters@));
    copy
}

impl Command {
    /// A command line with the given parameters.
    pub fn new_parametrized(
        name: Option<String>,
        expression: &String,
        parameters: &Vec<(String, String)>,
    ) -> (command: Command)
        ensures
            command.name == name,
            command.expression@ == expression@,
            parameters_view(command.parameters@) == parameters_view(parameters@),
    {
        Command {
            name,
            expression: expression.clone(),
            parameters: copy_parameters(parameters),
        }
    }
}

/// Parameters that look the same have the same names and values, in the same order.
pub proof fn same_parameters_pair_up(a: Seq<(String, String)>, b: Seq<(String, String)>)
    ensures
        parameters_view(a) == parameters_view(b) <==> (a.len() == b.len() && forall|k: int|
            0 <= k < b.len() ==> (#[trigger] a[k]).0@ == b[k].0@ && a[k].1@ == b[k].1@),
{
    if parameters_view(a) == parameters_view(b) {
        assert(parameters_view(a).len() == a.len() && parameters_view(b).len() == b.len());
        assert forall|k: int| 0 <= k < b.len() implies (#[trigger] a[k]).0@ == b[k].0@ && a[k].1@
            == b[k].1@ by {
            assert(parameters_view(a)[k] == parameters_view(b)[k]);
        }
    }
    if a.len() == b.len() && (forall|k: int|
        0 <= k < b.len() ==> (#[trigger] a[k]).0@ == b[k].0@ && a[k].1@ == b[k].1@) {
        assert forall|k: int| 0 <= k < a.len() implies #[trigger] parameters_view(a)[k]
            == parameters_view(b)[k] by {
            assert(a[k].0@ == b[k].0@ && a[k].1@ == b[k].1@);
        }
        assert(parameters_view(a) =~= parameters_view(b));
    }
}

} // verus!
