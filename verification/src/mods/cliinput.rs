use vstd::prelude::*;

verus! {

/// How the renamed files are packed at the end of a rename.
#[derive(Debug, Clone, Copy, PartialEq, Eq, Structural)]
pub enum CompressType {
    Zip,
    _7Zip,
    NoCompress,
}

/// The compression that the command line word `s` selects: `zip` and `7zip`
/// name their methods, every other word means no compression.
pub open spec fn compress_type_of(s: Seq<char>) -> CompressType {
    if s == "zip"@ {
        CompressType::Zip
    } else if s == "7zip"@ {
        CompressType::_7Zip
    } else {
        CompressType::NoCompress
    }
}

impl CompressType {
    /// Parses the command line word for a compression method; this never fails.
    pub fn from_str(s: &str) -> (r: Result<CompressType, String>)
        ensures
            r == Ok::<CompressType, String>(compress_type_of(s@)),
    {
        let word = s.to_owned();
        if word == "zip".to_owned() {
            Ok(CompressType::Zip)
        } else if word == "7zip".to_owned() {
            Ok(CompressType::_7Zip)
        } else {
            Ok(CompressType::NoCompress)
        }
    }
}

/// The command line word for a compression method, parsed as
/// `CompressType::from_str` does; this never fails.
impl std::str::FromStr for CompressType {
    type Err = String;

    fn from_str(s: &str) -> Result<CompressType, String> {
        CompressType::from_str(s)
    }
}

/// A command of the tool, with the values given on its command line.
#[derive(Debug)]
pub enum Command {
    /// Adds names to the configuration.
    Add { debug: bool, config: String, data: Option<Vec<String>> },
    /// Removes names from the configuration.
    Remove { debug: bool, config: String, data: Option<Vec<String>> },
    /// Renames the files of `input` into `output`.
    Rename {
        debug: bool,
        input: String,
        output: String,
        config: String,
        compress_type: Option<CompressType>,
    },
}

impl Command {
    /// The path of the configuration file that the command names.
    pub open spec fn spec_config_path(&self) -> Seq<char> {
        match self {
            Command::Add { config, .. } => config@,
            Command::Remove { config, .. } => config@,
            Command::Rename { config, .. } => config@,
        }
    }

    /// Whether the command asks for debug output.
    pub open spec fn spec_debug(&self) -> bool {
        match self {
            Command::Add { debug, .. } => *debug,
            Command::Remove { debug, .. } => *debug,
            Command::Rename { debug, .. } => *debug,
        }
    }

    /// The path of the configuration file that the command names.
    pub fn config_path(&self) -> (p: &String)
        ensures
            p@ == self.spec_config_path(),
    {
        match self {
            Command::Add { config, .. } => config,
            Command::Remove { config, .. } => config,
            Command::Rename { config, .. } => config,
        }
    }

    /// Whether the command asks for debug output.
    pub fn debug(&self) -> (d: bool)
        ensures
            d == self.spec_debug(),
    {
        match self {
            Command::Add { debug, .. } => *debug,
            Command::Remove { debug, .. } => *debug,
            Command::Rename { debug, .. } => *debug,
        }
    }
}

} // verus!
