//! The command line: the program's name, an input path and an output path.

use vstd::prelude::*;
use vstd::string::*;

verus! {

/// The two paths that a run is given.
pub struct Cli {
    /// The file to compress.
    pub input_file_path: String,
    /// The file that takes the compressed blocks.
    pub output_file_path: String,
}

impl Cli {
    /// The command line with these two paths.
    pub fn new(input_file_path: String, output_file_path: String) -> (cli: Self)
        ensures
            cli.input_file_path == input_file_path,
            cli.output_file_path == output_file_path,
    {
        Cli { input_file_path, output_file_path }
    }
}

/// The usage line for a program called `program`.
pub open spec fn usage_line(program: Seq<char>) -> Seq<char> {
    "Usage: "@ + program + " <input_file> <output_file>"@
}

/// The name that the program was started under: the first argument, or nothing where
/// there is none.
pub open spec fn program_name(args: Seq<String>) -> Seq<char> {
    if args.len() > 0 {
        args[0]@
    } else {
        Seq::empty()
    }
}

/// Reads the paths out of `args`, the arguments of the process with the program's name
/// first. With any other number of arguments than three, none at all included, it
/// returns the usage line.
pub fn get_args(args: &Vec<String>) -> (parsed: Result<Cli, String>)
    ensures
        args@.len() == 3 ==> (parsed matches Ok(cli) && cli.input_file_path@ == args@[1]@
            && cli.output_file_path@ == args@[2]@),
        args@.len() != 3 ==> (parsed matches Err(line) && line@ == usage_line(
            program_name(args@),
        )),
{
    if args.len() != 3 {
        let program = if args.len() > 0 {
            args[0].as_str()
        } else {
            proof {
                reveal_strlit("");
            }
            ""
        };
        let line = String::from_str("Usage: ").concat(program).concat(
            " <input_file> <output_file>",
        );
        return Err(line);
    }
    Ok(Cli::new(args[1].clone(), args[2].clone()))
}

} // verus!
