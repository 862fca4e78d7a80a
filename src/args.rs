use vstd::prelude::*;

verus! {

/// The three paths that the image tool is run with: two inputs and an output.
#[derive(Debug)]
pub struct Args {
    pub image_1: String,
    pub image_2: String,
    pub output: String,
}

impl Args {
    /// Takes the paths from the command line `argv`, whose first entry is
    /// the program's name.
    pub fn new(argv: &Vec<String>) -> (r: Self)
        requires
            argv@.len() >= 4,
        ensures
            r.image_1@ == argv@[1]@,
            r.image_2@ == argv@[2]@,
            r.output@ == argv@[3]@,
    {
        Args { image_1: argv[1].clone(), image_2: argv[2].clone(), output: argv[3].clone() }
    }
}

} // verus!
