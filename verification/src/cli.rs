//! The command-line argument shapes. Parsing happens outside the
//! library; these are the plain values the handlers receive.

use vstd::prelude::*;

verus! {

/// Arguments of the list command.
#[derive(Debug)]
pub struct ListArgs {
    pub n: u64,
    pub isext: Option<String>,
    pub input_files: Option<String>,
}

/// Arguments of the put command.
#[derive(Debug)]
pub struct PutArgs {
    pub list: bool,
    pub compressed: bool,
    pub cover: bool,
    pub input_files: Vec<String>,
}

/// Arguments of the get command.
#[derive(Debug)]
pub struct GetArgs {
    pub dest: String,
    pub input_files: Vec<String>,
}

/// Arguments of the delete command.
#[derive(Debug)]
pub struct DeleteArgs {
    pub input_files: Option<String>,
}

/// The storage subcommands.
#[derive(Debug)]
pub enum StoreArgs {
    List(ListArgs),
    Put(PutArgs),
    Get(GetArgs),
    Delete(DeleteArgs),
}

/// Arguments of the tidy command.
#[derive(Debug)]
pub struct TidyArgs {
    pub keep_new: bool,
    pub target_dir: String,
}

/// The filesystem subcommands.
#[derive(Debug)]
pub enum FileArgs {
    Tidy(TidyArgs),
}

/// All subcommands.
#[derive(Debug)]
pub enum Commands {
    Storage(StoreArgs),
    File(FileArgs),
}

/// The parsed command line.
#[derive(Debug)]
pub struct Cli {
    pub commands: Option<Commands>,
}

} // verus!
