//! Command-line configuration: the input save path and the output path.

use vstd::prelude::*;

verus! {

/// Paths for one run: the save file to read and the file to write.
pub struct Config {
    pub filename: String,
    pub output_file: String,
}

impl Config {
    /// Reads the configuration from the argument list: the program name, the
    /// required input path, and an optional output path defaulting to
    /// `output.json`.
    pub fn new(args: &[String]) -> (r: Result<Config, &'static str>)
        ensures
            args@.len() < 2 ==> (r matches Err(m) && m@
                == "Not enough arguments: no filename specified"@),
            args@.len() >= 2 ==> (r matches Ok(c) && c.filename@ == args@[1]@ && (if args@.len()
                == 3 {
                c.output_file@ == args@[2]@
            } else {
                c.output_file@ == "output.json"@
            })),
    {
        if args.len() < 2 {
            return Err("Not enough arguments: no filename specified");
        }
        let filename = args[1].clone();
        let output_file = if args.len() == 3 {
            args[2].clone()
        } else {
            "output.json".to_owned()
        };
        Ok(Config { filename, output_file })
    }
}

} // verus!
