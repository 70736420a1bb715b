//! What the tools share: the reading of their arguments.

use vstd::prelude::*;

verus! {

/// The line that tells how a tool is called.
pub open spec fn usage() -> Seq<char> {
    "Usage: <input file path> <output file path>"@
}

/// What a tool is asked to do: the path of the file to read and the path of
/// the file to write, or nothing where the arguments are not the name of the
/// tool and two paths.
pub fn launch(args: &Vec<String>) -> (paths: Option<(String, String)>)
    ensures
        paths.is_some() <==> args@.len() == 3,
        paths.is_some() ==> paths.unwrap().0@ == args@[1]@ && paths.unwrap().1@ == args@[2]@,
{
    if args.len() != 3 {
        return None;
    }
    let input_file_path = args[1].clone();
    let output_file_path = args[2].clone();
    Some((input_file_path, output_file_path))
}

/// The line that tells how a tool is called.
pub fn usage_line() -> (line: String)
    ensures
        line@ == usage(),
{
    "Usage: <input file path> <output file path>".to_owned()
}

} // verus!
