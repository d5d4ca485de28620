//! What the command-line program is asked to do, and what it does first.

use vstd::prelude::*;
use vstd::string::StringExecFns;

verus! {

/// What the command line asks for.
pub struct AppConfig {
    file_name: Option<String>,
    print_version: bool,
}

/// The program with its configuration.
pub struct App {
    config: AppConfig,
}

/// What the program does first.
pub enum AppStep {
    /// Print the name and the version of the program, and stop.
    PrintVersion,
    /// Fail: no input file was named.
    MissingFileName,
    /// Read the puzzle from the file of this name and solve it.
    SolveFile(String),
}

/// The text of an optional string.
pub open spec fn text_of_name(name: Option<String>) -> Option<Seq<char>> {
    match name {
        Some(text) => Some(text@),
        None => None,
    }
}

/// The argument that asks for the version.
pub open spec fn version_flag() -> Seq<char> {
    "--version"@
}

/// One of the arguments asks for the version.
pub open spec fn asks_version(args: Seq<String>) -> bool {
    exists|i: int| 0 <= i < args.len() && (#[trigger] args[i])@ == version_flag()
}

impl AppConfig {
    /// The name of the input file, if one was given.
    pub closed spec fn file_name(&self) -> Option<Seq<char>> {
        text_of_name(self.file_name)
    }

    /// Whether the version is asked for.
    pub closed spec fn print_version(&self) -> bool {
        self.print_version
    }

    /// A configuration with these two settings.
    pub fn new(file_name: Option<String>, print_version: bool) -> (config: AppConfig)
        ensures
            config.file_name() == text_of_name(file_name),
            config.print_version() == print_version,
    {
        AppConfig { file_name, print_version }
    }

    /// Reads the arguments that follow the program's name. The version is
    /// asked for when one of them is `--version`; the input file is the
    /// first argument, unless that asks for the version.
    pub fn from_args(args: &Vec<String>) -> (config: AppConfig)
        ensures
            config.print_version() == asks_version(args@),
            config.file_name() == if args@.len() > 0 && args@[0]@ != version_flag() {
                Some(args@[0]@)
            } else {
                None
            },
    {
        let flag = String::from_str("--version");
        let mut file_name: Option<String> = None;
        let mut print_version = false;

        let mut i: usize = 0;
        while i < args.len()
            invariant_except_break
                !print_version,
                forall|k: int| 0 <= k < i ==> (#[trigger] args@[k])@ != version_flag(),
                text_of_name(file_name) == if i > 0 {
                    Some(args@[0]@)
                } else {
                    None
                },
            invariant
                i <= args.len(),
                flag@ == version_flag(),
            ensures
                print_version == asks_version(args@),
                text_of_name(file_name) == if args@.len() > 0 && args@[0]@ != version_flag() {
                    Some(args@[0]@)
                } else {
                    None
                },
            decreases args.len() - i,
        {
            if args[i] == flag {
                print_version = true;
                assert(args@[i as int]@ == version_flag());
                break ;
            } else if file_name.is_none() {
                file_name = Some(args[i].clone());
            }
            i += 1;
        }

        AppConfig::new(file_name, print_version)
    }
}

impl App {
    /// The configuration of this program.
    pub closed spec fn config(&self) -> AppConfig {
        self.config
    }

    /// The program with this configuration.
    pub fn new(config: AppConfig) -> (app: App)
        ensures
            app.config() == config,
    {
        App { config }
    }

    /// What the program does first: it prints its version when that is
    /// asked for, whatever else is; else it fails when no file is named;
    /// else it solves the puzzle in the file.
    pub fn first_step(&self) -> (step: AppStep)
        ensures
            self.config().print_version() ==> step is PrintVersion,
            !self.config().print_version() ==> match self.config().file_name() {
                None => step is MissingFileName,
                Some(name) => step matches AppStep::SolveFile(file) && file@ == name,
            },
    {
        if self.config.print_version {
            AppStep::PrintVersion
        } else {
            match &self.config.file_name {
                None => AppStep::MissingFileName,
                Some(name) => AppStep::SolveFile(name.clone()),
            }
        }
    }
}

} // verus!
