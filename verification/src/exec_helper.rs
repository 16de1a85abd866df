//! The exec helper: a small program that receives what to run, sets the environment up
//! and replaces itself with the service's program.
use vstd::prelude::*;

use crate::units::path_file_name;

verus! {

/// What the exec helper runs: the program, its arguments and extra environment variables.
pub struct ExecHelperConfig {
    pub cmd: String,
    pub args: Vec<String>,
    pub env: Vec<(String, String)>,
}

/// The path of the program and its argument vector: the program's file name first,
/// then the arguments.
pub fn prepare_exec_args(cmd_str: &String, args_str: &Vec<String>) -> (res: (String, Vec<String>))
    requires
        path_file_name(cmd_str@) is Some,
    ensures
        res.0@ == cmd_str@,
        res.1@.len() == args_str@.len() + 1,
        res.1@[0]@ == path_file_name(cmd_str@)->0,
        forall|i: int| 0 <= i < args_str@.len() ==> #[trigger] res.1@[i + 1]@ == args_str@[i]@,
{
    let chars = crate::text::to_chars(cmd_str.as_str());
    let exec_name = crate::units::file_name_of(&chars);
    let mut args: Vec<String> = Vec::new();
    args.push(crate::text::string_of(&exec_name));
    let mut i: usize = 0;
    while i < args_str.len()
        invariant
            i <= args_str@.len(),
            args@.len() == i + 1,
            args@[0]@ == path_file_name(cmd_str@)->0,
            forall|j: int| 0 <= j < i ==> #[trigger] args@[j + 1]@ == args_str@[j]@,
        decreases args_str.len() - i,
    {
        args.push(args_str[i].clone());
        i = i + 1;
    }
    (cmd_str.clone(), args)
}

} // verus!
