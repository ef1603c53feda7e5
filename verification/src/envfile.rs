//! Export of stored parameters as shell environment assignments.
use vstd::prelude::*;
use vstd::string::*;
use crate::models::{lemma_views_push, views};
use crate::text::{after_last, ascii_uppercase, ascii_uppercased, push_char, text_after_last};

verus! {

/// The full name of the parameter that holds the variable `variable` below `base`.
pub open spec fn env_parameter_name(base: Seq<char>, variable: Seq<char>) -> Seq<char> {
    base.push('/') + variable
}

/// The environment key of a parameter: the last component of its name, with
/// ASCII letters in upper case.
pub open spec fn env_key(name: Seq<char>) -> Seq<char> {
    ascii_uppercase(after_last(name, '/'))
}

/// The assignment that exports one parameter: its environment key, an equals
/// sign, and its value between double quotes, as it is.
pub open spec fn env_line(parameter: (Seq<char>, Seq<char>)) -> Seq<char> {
    env_key(parameter.0) + seq!['=', '"'] + parameter.1 + seq!['"']
}

/// `lines` with a line feed between each two; no line feed at the end.
pub open spec fn joined_lines(lines: Seq<Seq<char>>) -> Seq<char>
    decreases lines.len(),
{
    if lines.len() == 0 {
        Seq::empty()
    } else if lines.len() == 1 {
        lines[0]
    } else {
        joined_lines(lines.drop_last()).push('\n') + lines.last()
    }
}

/// The text of the environment file that exports `parameters`: one assignment
/// for each, in order.
pub open spec fn env_text(parameters: Seq<(Seq<char>, Seq<char>)>) -> Seq<char> {
    joined_lines(parameters.map_values(|parameter: (Seq<char>, Seq<char>)| env_line(parameter)))
}

/// The full names of the parameters that hold the variables `vars` below `base`,
/// in order.
pub fn env_names(base: &str, vars: &Vec<String>) -> (names: Vec<String>)
    ensures
        views(names@) == views(vars@).map_values(
            |variable: Seq<char>| env_parameter_name(base@, variable),
        ),
{
    let ghost wanted = views(vars@).map_values(
        |variable: Seq<char>| env_parameter_name(base@, variable),
    );
    let mut names: Vec<String> = Vec::new();
    let mut i: usize = 0;
    while i < vars.len()
        invariant
            i <= vars.len(),
            wanted == views(vars@).map_values(
                |variable: Seq<char>| env_parameter_name(base@, variable),
            ),
            views(names@) == wanted.take(i as int),
        decreases vars.len() - i,
    {
        let mut name = String::from_str(base);
        push_char(&mut name, '/');
        name.append(vars[i].as_str());
        proof {
            lemma_views_push(names@, name);
        }
        names.push(name);
        i = i + 1;
    }
    names
}

/// The assignment that exports the parameter `name` with `value`.
pub fn env_assignment(name: &str, value: &str) -> (line: String)
    ensures
        line@ == env_line((name@, value@)),
{
    let last = text_after_last(name, '/');
    let mut line = ascii_uppercased(last.as_str());
    push_char(&mut line, '=');
    push_char(&mut line, '"');
    line.append(value);
    push_char(&mut line, '"');
    line
}

/// The text of the environment file that exports `parameters`, each a name and a
/// value: one assignment per line, in order, without a line feed at the end.
pub fn env_file(parameters: &Vec<(String, String)>) -> (text: String)
    ensures
        text@ == env_text(views(parameters@)),
{
    let ghost lines = views(parameters@).map_values(
        |parameter: (Seq<char>, Seq<char>)| env_line(parameter),
    );
    let mut text = String::new();
    let mut i: usize = 0;
    while i < parameters.len()
        invariant
            i <= parameters.len(),
            lines == views(parameters@).map_values(
                |parameter: (Seq<char>, Seq<char>)| env_line(parameter),
            ),
            text@ == joined_lines(lines.take(i as int)),
        decreases parameters.len() - i,
    {
        let line = env_assignment(parameters[i].0.as_str(), parameters[i].1.as_str());
        proof {
            let upto = lines.take(i + 1);
            assert(upto.drop_last() =~= lines.take(i as int));
        }
        if i > 0 {
            push_char(&mut text, '\n');
        }
        text.append(line.as_str());
        i = i + 1;
    }
    assert(lines.take(parameters.len() as int) =~= lines);
    text
}

} // verus!
