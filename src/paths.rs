//! Where an extracted file is written.
use vstd::prelude::*;
use vstd::string::StringExecFns;

verus! {

/// The path of `filename` inside `output_dir`, joined with `/`, or the file
/// name alone where no directory is given.
pub fn get_path(filename: &str, output_dir: &Option<String>) -> (r: String)
    ensures
        match output_dir {
            Some(dir) => r@ == dir@ + seq!['/'] + filename@,
            None => r@ == filename@,
        },
{
    match output_dir {
        Some(dir) => {
            let mut path = dir.clone();
            path.append("/");
            path.append(filename);
            proof {
                reveal_strlit("/");
            }
            path
        },
        None => String::from_str(filename),
    }
}

} // verus!
