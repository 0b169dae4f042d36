//! The command surface as plain data: what each subcommand needs, free
//! of any argument-parsing machinery.  A front end fills these in from
//! the command line and hands them over together with the loaded
//! documents.

use vstd::prelude::*;

verus! {

/// Arguments of the stats subcommand.
pub struct StatsArgs {
    pub file: String,
    pub per_page: bool,
}

/// Arguments of the merge subcommand: the first file is the primary
/// document, the rest are secondary ones.
pub struct MergeArgs {
    pub files: Vec<String>,
    pub dest: String,
    pub exclude: Vec<String>,
    pub overwrite: bool,
}

/// Arguments of the strip subcommand.
pub struct StripArgs {
    pub file: String,
    pub dest: String,
    pub exclude: Vec<String>,
}

/// The annotation subcommands.
pub enum AnnotationsSubcommand {
    Stats(StatsArgs),
    Merge(MergeArgs),
    Strip(StripArgs),
}

/// The annotations command: one of its subcommands.
pub struct AnnotationsCommand {
    pub subcommand: AnnotationsSubcommand,
}

/// The completion-script command: the shell it generates for.
pub struct CompleteCommand {
    pub shell: String,
}

/// Every command the tool offers.
pub enum Command {
    Annotations(AnnotationsCommand),
    Completions(CompleteCommand),
}

impl MergeArgs {
    /// A merge needs a primary document and at least one secondary one.
    pub fn valid(&self) -> (r: bool)
        ensures
            r == (self.files@.len() >= 2),
    {
        self.files.len() >= 2
    }
}

/// Whether a result may be written to the destination: always where
/// nothing is there yet, and otherwise only forced or confirmed.
pub fn should_write(dest_exists: bool, force: bool, confirmed: bool) -> (r: bool)
    ensures
        r == (!dest_exists || force || confirmed),
{
    !dest_exists || force || confirmed
}

} // verus!
