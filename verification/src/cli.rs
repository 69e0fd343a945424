//! Command-line configuration: the settings of a run, the persisted
//! configuration file's values, and the parsing of the argument list.

use vstd::prelude::*;

use crate::installer::{dll_suffix, dll_suffix_chars};
use crate::text::{
    chars_of, ends_with, equals_str, is_suffix, lowercase, parse_usize, parse_usize_exec, string_of,
    to_lowercase, trim, trim_ws,
};

verus! {

/// Default system directory for 32-bit (x86) DLLs.
pub const X32_SYSTEM_PATH: &'static str = "C:\\Windows\\SysWOW64\\";

/// Default system directory for 64-bit (x64) DLLs.
pub const X64_SYSTEM_PATH: &'static str = "C:\\Windows\\System32\\";

/// The settings of one run, filled from the command line and the
/// configuration file.
#[derive(Clone, Debug)]
pub struct Config {
    pub force: bool,
    pub system32_path: String,
    pub syswow64_path: String,
    pub dll_names: Vec<String>,
    pub restore_name: Option<String>,
    pub search_term: Option<String>,
    pub proxy: Option<String>,
    pub output_dir: Option<String>,
    pub verbose: bool,
    /// A text file that lists more DLL names, one per line.
    pub list_file: Option<String>,
}

/// The abstract value of a `Config`: every string as its characters.
pub struct ConfigView {
    pub force: bool,
    pub system32_path: Seq<char>,
    pub syswow64_path: Seq<char>,
    pub dll_names: Seq<Seq<char>>,
    pub restore_name: Option<Seq<char>>,
    pub search_term: Option<Seq<char>>,
    pub proxy: Option<Seq<char>>,
    pub output_dir: Option<Seq<char>>,
    pub verbose: bool,
    pub list_file: Option<Seq<char>>,
}

/// The abstract value of an optional string.
pub open spec fn opt_view(o: Option<String>) -> Option<Seq<char>> {
    match o {
        Some(s) => Some(s@),
        None => None,
    }
}

impl View for Config {
    type V = ConfigView;

    open spec fn view(&self) -> ConfigView {
        ConfigView {
            force: self.force,
            system32_path: self.system32_path@,
            syswow64_path: self.syswow64_path@,
            dll_names: self.dll_names.deep_view(),
            restore_name: opt_view(self.restore_name),
            search_term: opt_view(self.search_term),
            proxy: opt_view(self.proxy),
            output_dir: opt_view(self.output_dir),
            verbose: self.verbose,
            list_file: opt_view(self.list_file),
        }
    }
}

/// Target architecture: x86 DLLs go to SysWOW64, x64 DLLs to System32.
#[derive(Clone, Copy, Debug, PartialEq, Eq, Structural)]
pub enum Architecture {
    X32,
    X64,
}

impl Architecture {
    /// The short name of the architecture: `"x86"` or `"x64"`.
    pub fn name(self) -> (res: &'static str)
        ensures
            res@ == (match self {
                Architecture::X32 => "x86"@,
                Architecture::X64 => "x64"@,
            }),
    {
        match self {
            Architecture::X32 => "x86",
            Architecture::X64 => "x64",
        }
    }

    /// The system directory that `config` names for this architecture.
    pub fn path(self, config: &Config) -> (res: &str)
        ensures
            res@ == (match self {
                Architecture::X32 => config.syswow64_path@,
                Architecture::X64 => config.system32_path@,
            }),
    {
        match self {
            Architecture::X32 => config.syswow64_path.as_str(),
            Architecture::X64 => config.system32_path.as_str(),
        }
    }
}

/// The values kept in the configuration file. An empty string stands for a
/// value that is not set.
#[derive(Clone, Debug)]
pub struct ConfigFile {
    pub system32_path: String,
    pub syswow64_path: String,
    pub proxy: String,
}

/// The abstract value of a `ConfigFile`.
pub struct ConfigFileView {
    pub system32_path: Seq<char>,
    pub syswow64_path: Seq<char>,
    pub proxy: Seq<char>,
}

impl View for ConfigFile {
    type V = ConfigFileView;

    open spec fn view(&self) -> ConfigFileView {
        ConfigFileView {
            system32_path: self.system32_path@,
            syswow64_path: self.syswow64_path@,
            proxy: self.proxy@,
        }
    }
}

impl Default for ConfigFile {
    /// The values used when no configuration file can be read: the default
    /// system directories and no proxy.
    fn default() -> (res: Self)
        ensures
            res.system32_path@ == X64_SYSTEM_PATH@,
            res.syswow64_path@ == X32_SYSTEM_PATH@,
            res.proxy@ == Seq::<char>::empty(),
    {
        ConfigFile {
            system32_path: X64_SYSTEM_PATH.to_owned(),
            syswow64_path: X32_SYSTEM_PATH.to_owned(),
            proxy: String::new(),
        }
    }
}

/// The values of the settings `c` that the configuration file keeps: both
/// system directories, and the proxy (empty where none is set).
pub open spec fn saved_file(c: ConfigView) -> ConfigFileView {
    ConfigFileView {
        system32_path: c.system32_path,
        syswow64_path: c.syswow64_path,
        proxy: match c.proxy {
            Some(p) => p,
            None => Seq::<char>::empty(),
        },
    }
}

impl ConfigFile {
    /// The values of `config` that the configuration file keeps (see
    /// `saved_file`).
    pub fn from_config(config: &Config) -> (res: ConfigFile)
        ensures
            res@ == saved_file(config@),
    {
        ConfigFile {
            system32_path: config.system32_path.clone(),
            syswow64_path: config.syswow64_path.clone(),
            proxy: match &config.proxy {
                Some(p) => p.clone(),
                None => String::new(),
            },
        }
    }
}

// ---------------------------------------------------------------------------
// Proxy from the environment
// ---------------------------------------------------------------------------

/// The first set, non-empty value among `values`.
pub open spec fn first_non_empty(values: Seq<Option<Seq<char>>>) -> Option<Seq<char>>
    decreases values.len(),
{
    if values.len() == 0 {
        None
    } else {
        match values[0] {
            Some(v) => if v.len() > 0 {
                Some(v)
            } else {
                first_non_empty(values.drop_first())
            },
            None => first_non_empty(values.drop_first()),
        }
    }
}

/// The proxy that the environment names: given the values of
/// `HTTPS_PROXY`, `https_proxy`, `HTTP_PROXY`, `http_proxy`, `ALL_PROXY` and
/// `all_proxy` in that order (`None` where a variable is unset), the first
/// one that is set and not empty.
pub fn proxy_from_env(values: &Vec<Option<String>>) -> (res: Option<String>)
    ensures
        opt_view(res) == first_non_empty(values.deep_view()),
{
    let ghost all = values.deep_view();
    let mut i: usize = 0;
    assert(all.skip(0) == all);
    while i < values.len()
        invariant
            i <= values.len(),
            all == values.deep_view(),
            first_non_empty(all) == first_non_empty(all.skip(i as int)),
        decreases values.len() - i,
    {
        assert(all.skip(i as int)[0] == all[i as int]);
        assert(all.skip(i as int).drop_first() == all.skip(i + 1));
        match &values[i] {
            Some(v) => {
                if !v.as_str().is_empty() {
                    return Some(v.clone());
                }
            },
            None => {},
        }
        i = i + 1;
    }
    None
}

// ---------------------------------------------------------------------------
// Parsing the command line
// ---------------------------------------------------------------------------

/// An option that must be followed by a value.
#[derive(Clone, Copy, Debug, PartialEq, Eq, Structural)]
pub enum ValueOption {
    /// `--system32 <path>`
    System32,
    /// `--syswow64 <path>`
    Syswow64,
    /// `--proxy <address>`
    Proxy,
    /// `--output <directory>`
    Output,
    /// `--search <term>`
    Search,
    /// `--file <path>`
    File,
}

/// Why a command line was refused.
#[derive(Clone, Debug)]
pub enum CliError {
    /// Nothing follows the program name; the usage text is owed.
    Usage,
    /// The option is the last argument, with no value after it.
    MissingValue(ValueOption),
    /// An argument that starts with `-` and is no known option.
    UnknownOption(String),
    /// A name argument that, lowercased, does not end in `.dll`.
    NotDll(String),
    /// Nothing to do: no DLL name, no `--restore`, no `--search` and no
    /// `--save-config`; the usage text is owed.
    NoTarget,
}

/// The abstract value of a `CliError`.
pub enum CliErrorView {
    Usage,
    MissingValue(ValueOption),
    UnknownOption(Seq<char>),
    NotDll(Seq<char>),
    NoTarget,
}

impl View for CliError {
    type V = CliErrorView;

    open spec fn view(&self) -> CliErrorView {
        match self {
            CliError::Usage => CliErrorView::Usage,
            CliError::MissingValue(o) => CliErrorView::MissingValue(*o),
            CliError::UnknownOption(s) => CliErrorView::UnknownOption(s@),
            CliError::NotDll(s) => CliErrorView::NotDll(s@),
            CliError::NoTarget => CliErrorView::NoTarget,
        }
    }
}

/// What the command line asks for.
#[derive(Clone, Debug)]
pub enum Command {
    /// Install, search or restore with these settings.
    Run(Config),
    /// Save these settings to the configuration file and stop.
    SaveConfig(Config),
    /// Print the usage text and stop.
    Help,
    /// Print the version and stop.
    Version,
}

/// The abstract value of a `Command`.
pub enum CommandView {
    Run(ConfigView),
    SaveConfig(ConfigView),
    Help,
    Version,
}

impl View for Command {
    type V = CommandView;

    open spec fn view(&self) -> CommandView {
        match self {
            Command::Run(c) => CommandView::Run(c@),
            Command::SaveConfig(c) => CommandView::SaveConfig(c@),
            Command::Help => CommandView::Help,
            Command::Version => CommandView::Version,
        }
    }
}

/// The abstract value of a parse result.
pub open spec fn outcome_view(r: Result<Command, CliError>) -> Result<CommandView, CliErrorView> {
    match r {
        Ok(c) => Ok(c@),
        Err(e) => Err(e@),
    }
}

/// The settings gathered so far while reading the arguments.
pub struct ParseState {
    pub config: ConfigView,
    pub save_config: bool,
}

/// How reading the arguments ended, short of an error.
pub enum ScanEnd {
    /// All arguments were read.
    Done(ParseState),
    /// `-h` or `--help` was met.
    Help,
    /// `-V` or `--version` was met.
    Version,
}

/// A directory path as the settings keep it: with a `\` appended unless it
/// already ends in `\` or `/`.
pub open spec fn with_separator(p: Seq<char>) -> Seq<char> {
    if p.len() > 0 && (p.last() == '\\' || p.last() == '/') {
        p
    } else {
        p.push('\\')
    }
}

/// The argument starts with `-`.
pub open spec fn starts_with_dash(a: Seq<char>) -> bool {
    a.len() > 0 && a[0] == '-'
}

/// The settings before any argument is read: the system directories of the
/// configuration file (the defaults where it leaves them empty), its proxy
/// or else the proxy of the environment, and everything else off or unset.
pub open spec fn initial_state(file: ConfigFileView, env_proxy: Option<Seq<char>>) -> ParseState {
    ParseState {
        config: ConfigView {
            force: false,
            system32_path: if file.system32_path.len() == 0 {
                X64_SYSTEM_PATH@
            } else {
                file.system32_path
            },
            syswow64_path: if file.syswow64_path.len() == 0 {
                X32_SYSTEM_PATH@
            } else {
                file.syswow64_path
            },
            dll_names: seq![],
            restore_name: None,
            search_term: None,
            proxy: if file.proxy.len() > 0 {
                Some(file.proxy)
            } else {
                env_proxy
            },
            output_dir: None,
            verbose: false,
            list_file: None,
        },
        save_config: false,
    }
}

/// Saved settings come back: a run that starts from the configuration file
/// saved from the settings `c` (with non-empty system directories) begins
/// with `c`'s system directories, and with `c`'s proxy where that is set and
/// not empty.
pub proof fn lemma_saved_settings_restored(c: ConfigView, env_proxy: Option<Seq<char>>)
    requires
        c.system32_path.len() > 0,
        c.syswow64_path.len() > 0,
    ensures
        initial_state(saved_file(c), env_proxy).config.system32_path == c.system32_path,
        initial_state(saved_file(c), env_proxy).config.syswow64_path == c.syswow64_path,
        c.proxy matches Some(p) && p.len() > 0 ==> initial_state(saved_file(c), env_proxy).config.proxy == c.proxy,
{
}

/// Reading the arguments from index `i` on, one option (with its value) at a
/// time, starting from the settings `st`.
pub open spec fn scan_args(args: Seq<Seq<char>>, i: nat, st: ParseState) -> Result<ScanEnd, CliErrorView>
    decreases args.len() - i,
{
    if i >= args.len() {
        Ok(ScanEnd::Done(st))
    } else {
        let a = args[i as int];
        let c = st.config;
        let has_value = i + 1 < args.len();
        let v = args[i + 1 as int];
        if a == "-f"@ || a == "--force"@ {
            scan_args(args, i + 1, ParseState { config: ConfigView { force: true, ..c }, ..st })
        } else if a == "-h"@ || a == "--help"@ {
            Ok(ScanEnd::Help)
        } else if a == "-V"@ || a == "--version"@ {
            Ok(ScanEnd::Version)
        } else if a == "-v"@ || a == "--verbose"@ {
            scan_args(args, i + 1, ParseState { config: ConfigView { verbose: true, ..c }, ..st })
        } else if a == "--save-config"@ {
            scan_args(args, i + 1, ParseState { save_config: true, ..st })
        } else if a == "--system32"@ {
            if has_value {
                scan_args(
                    args,
                    i + 2,
                    ParseState { config: ConfigView { system32_path: with_separator(v), ..c }, ..st },
                )
            } else {
                Err(CliErrorView::MissingValue(ValueOption::System32))
            }
        } else if a == "--syswow64"@ {
            if has_value {
                scan_args(
                    args,
                    i + 2,
                    ParseState { config: ConfigView { syswow64_path: with_separator(v), ..c }, ..st },
                )
            } else {
                Err(CliErrorView::MissingValue(ValueOption::Syswow64))
            }
        } else if a == "--proxy"@ {
            if has_value {
                scan_args(args, i + 2, ParseState { config: ConfigView { proxy: Some(v), ..c }, ..st })
            } else {
                Err(CliErrorView::MissingValue(ValueOption::Proxy))
            }
        } else if a == "--output"@ {
            if has_value {
                scan_args(
                    args,
                    i + 2,
                    ParseState { config: ConfigView { output_dir: Some(with_separator(v)), ..c }, ..st },
                )
            } else {
                Err(CliErrorView::MissingValue(ValueOption::Output))
            }
        } else if a == "--search"@ {
            if has_value {
                scan_args(
                    args,
                    i + 2,
                    ParseState { config: ConfigView { search_term: Some(v), ..c }, ..st },
                )
            } else {
                Err(CliErrorView::MissingValue(ValueOption::Search))
            }
        } else if a == "--file"@ {
            if has_value {
                scan_args(args, i + 2, ParseState { config: ConfigView { list_file: Some(v), ..c }, ..st })
            } else {
                Err(CliErrorView::MissingValue(ValueOption::File))
            }
        } else if a == "--restore"@ {
            if has_value && !starts_with_dash(v) {
                scan_args(
                    args,
                    i + 2,
                    ParseState { config: ConfigView { restore_name: Some(lowercase(v)), ..c }, ..st },
                )
            } else {
                scan_args(
                    args,
                    i + 1,
                    ParseState { config: ConfigView { restore_name: Some(seq![]), ..c }, ..st },
                )
            }
        } else if starts_with_dash(a) {
            Err(CliErrorView::UnknownOption(a))
        } else if is_suffix(dll_suffix(), lowercase(a)) {
            scan_args(
                args,
                i + 1,
                ParseState { config: ConfigView { dll_names: c.dll_names.push(lowercase(a)), ..c }, ..st },
            )
        } else {
            Err(CliErrorView::NotDll(a))
        }
    }
}

/// The command that a completed reading of the arguments asks for.
pub open spec fn finish_scan(r: Result<ScanEnd, CliErrorView>) -> Result<CommandView, CliErrorView> {
    match r {
        Err(e) => Err(e),
        Ok(ScanEnd::Help) => Ok(CommandView::Help),
        Ok(ScanEnd::Version) => Ok(CommandView::Version),
        Ok(ScanEnd::Done(st)) => {
            let c = st.config;
            if c.dll_names.len() == 0 && c.restore_name is None && c.search_term is None
                && c.list_file is None && !st.save_config {
                Err(CliErrorView::NoTarget)
            } else if st.save_config {
                Ok(CommandView::SaveConfig(c))
            } else {
                Ok(CommandView::Run(c))
            }
        },
    }
}

/// What the command line `args` (program name first) asks for, given the
/// configuration file's values and the proxy of the environment.
pub open spec fn spec_parse_args(
    args: Seq<Seq<char>>,
    file: ConfigFileView,
    env_proxy: Option<Seq<char>>,
) -> Result<CommandView, CliErrorView> {
    if args.len() < 2 {
        Err(CliErrorView::Usage)
    } else {
        finish_scan(scan_args(args, 1, initial_state(file, env_proxy)))
    }
}

fn with_separator_exec(p: &String) -> (res: String)
    ensures
        res@ == with_separator(p@),
{
    let mut cs = chars_of(p.as_str());
    let n = cs.len();
    if n > 0 && (cs[n - 1] == '\\' || cs[n - 1] == '/') {
        p.clone()
    } else {
        cs.push('\\');
        string_of(&cs)
    }
}

/// Reads the command line `args` (program name first), starting from the
/// configuration file's values `file` and the proxy `env_proxy` that the
/// environment names.
///
/// Options: `-f`/`--force`, `-v`/`--verbose`, `--save-config`,
/// `--system32 <path>`, `--syswow64 <path>`, `--output <dir>` (each path
/// kept with a trailing `\` unless it ends in `\` or `/`), `--proxy <addr>`,
/// `--search <term>`, `--file <path>` (a list of more DLL names, read by
/// `parse_dll_list`), `--restore [name]` (the name lowercased; an empty name
/// where none follows or the next argument starts with `-`), and
/// `-h`/`--help` and `-V`/`--version`, which end the reading at once. Every
/// other argument is a DLL name, kept lowercased, which must end in `.dll`.
pub fn parse_args_from(args: &Vec<String>, file: &ConfigFile, env_proxy: Option<String>) -> (res: Result<
    Command,
    CliError,
>)
    ensures
        outcome_view(res) == spec_parse_args(args.deep_view(), file@, opt_view(env_proxy)),
{
    let ghost all = args.deep_view();
    let ghost envv = opt_view(env_proxy);
    if args.len() < 2 {
        return Err(CliError::Usage);
    }
    let system32_path = if file.system32_path.as_str().is_empty() {
        X64_SYSTEM_PATH.to_owned()
    } else {
        file.system32_path.clone()
    };
    let syswow64_path = if file.syswow64_path.as_str().is_empty() {
        X32_SYSTEM_PATH.to_owned()
    } else {
        file.syswow64_path.clone()
    };
    let proxy = if !file.proxy.as_str().is_empty() {
        Some(file.proxy.clone())
    } else {
        env_proxy
    };
    let mut config = Config {
        force: false,
        system32_path,
        syswow64_path,
        dll_names: Vec::new(),
        restore_name: None,
        search_term: None,
        proxy,
        output_dir: None,
        verbose: false,
        list_file: None,
    };
    let mut save_config = false;
    assert(config.dll_names.deep_view() =~= Seq::<Seq<char>>::empty());
    assert(ParseState { config: config@, save_config } == initial_state(file@, envv));
    let suffix = dll_suffix_chars();
    let mut i: usize = 1;
    while i < args.len()
        invariant
            1 <= i <= args.len(),
            all == args.deep_view(),
            envv == opt_view(env_proxy),
            suffix@ == dll_suffix(),
            spec_parse_args(all, file@, envv) == finish_scan(
                scan_args(all, i as nat, ParseState { config: config@, save_config }),
            ),
        decreases args.len() - i,
    {
        let ghost st = ParseState { config: config@, save_config };
        let ghost c = config@;
        let a = chars_of(args[i].as_str());
        assert(a@ == all[i as int]);
        let has_value = i + 1 < args.len();
        proof {
            if has_value {
                assert(all[i + 1] == args[i + 1]@);
            }
        }
        if equals_str(&a, "-f") || equals_str(&a, "--force") {
            config.force = true;
            i = i + 1;
        } else if equals_str(&a, "-h") || equals_str(&a, "--help") {
            return Ok(Command::Help);
        } else if equals_str(&a, "-V") || equals_str(&a, "--version") {
            return Ok(Command::Version);
        } else if equals_str(&a, "-v") || equals_str(&a, "--verbose") {
            config.verbose = true;
            i = i + 1;
        } else if equals_str(&a, "--save-config") {
            save_config = true;
            i = i + 1;
        } else if equals_str(&a, "--system32") {
            if !has_value {
                return Err(CliError::MissingValue(ValueOption::System32));
            }
            config.system32_path = with_separator_exec(&args[i + 1]);
            i = i + 2;
        } else if equals_str(&a, "--syswow64") {
            if !has_value {
                return Err(CliError::MissingValue(ValueOption::Syswow64));
            }
            config.syswow64_path = with_separator_exec(&args[i + 1]);
            i = i + 2;
        } else if equals_str(&a, "--proxy") {
            if !has_value {
                return Err(CliError::MissingValue(ValueOption::Proxy));
            }
            config.proxy = Some(args[i + 1].clone());
            i = i + 2;
        } else if equals_str(&a, "--output") {
            if !has_value {
                return Err(CliError::MissingValue(ValueOption::Output));
            }
            config.output_dir = Some(with_separator_exec(&args[i + 1]));
            i = i + 2;
        } else if equals_str(&a, "--search") {
            if !has_value {
                return Err(CliError::MissingValue(ValueOption::Search));
            }
            config.search_term = Some(args[i + 1].clone());
            i = i + 2;
        } else if equals_str(&a, "--file") {
            if !has_value {
                return Err(CliError::MissingValue(ValueOption::File));
            }
            config.list_file = Some(args[i + 1].clone());
            i = i + 2;
        } else if equals_str(&a, "--restore") {
            let takes_name = has_value && {
                let next = chars_of(args[i + 1].as_str());
                !(next.len() > 0 && next[0] == '-')
            };
            if takes_name {
                config.restore_name = Some(to_lowercase(args[i + 1].as_str()));
                i = i + 2;
            } else {
                config.restore_name = Some(String::new());
                i = i + 1;
            }
        } else if a.len() > 0 && a[0] == '-' {
            return Err(CliError::UnknownOption(args[i].clone()));
        } else {
            let lower = to_lowercase(args[i].as_str());
            let lower_chars = chars_of(lower.as_str());
            if !ends_with(&lower_chars, &suffix) {
                return Err(CliError::NotDll(args[i].clone()));
            }
            let ghost names_before = config.dll_names.deep_view();
            config.dll_names.push(lower);
            assert(config.dll_names.deep_view() =~= names_before.push(lowercase(all[i as int])));
            i = i + 1;
        }
    }
    if config.dll_names.len() == 0 && config.restore_name.is_none() && config.search_term.is_none()
        && config.list_file.is_none() && !save_config {
        return Err(CliError::NoTarget);
    }
    if save_config {
        Ok(Command::SaveConfig(config))
    } else {
        Ok(Command::Run(config))
    }
}

/// The settings read so far keep only DLL names that end in `.dll`, and an
/// output directory, if any, that ends in a separator.
pub open spec fn well_formed_state(st: ParseState) -> bool {
    &&& forall|k: int| 0 <= k < st.config.dll_names.len() ==> is_suffix(dll_suffix(), #[trigger] st.config.dll_names[k])
    &&& st.config.output_dir matches Some(d) ==> d.len() > 0 && (d.last() == '\\' || d.last() == '/')
}

proof fn lemma_with_separator(p: Seq<char>)
    ensures
        with_separator(p).len() > 0,
        with_separator(p).last() == '\\' || with_separator(p).last() == '/',
{
}

proof fn lemma_scan_well_formed(args: Seq<Seq<char>>, i: nat, st: ParseState)
    requires
        well_formed_state(st),
    ensures
        scan_args(args, i, st) matches Ok(ScanEnd::Done(end)) ==> well_formed_state(end),
    decreases args.len() - i,
{
    if i < args.len() {
        let a = args[i as int];
        let c = st.config;
        let v = args[i + 1 as int];
        if i + 1 < args.len() {
            lemma_with_separator(v);
            lemma_scan_well_formed(
                args,
                i + 2,
                ParseState { config: ConfigView { system32_path: with_separator(v), ..c }, ..st },
            );
            lemma_scan_well_formed(
                args,
                i + 2,
                ParseState { config: ConfigView { syswow64_path: with_separator(v), ..c }, ..st },
            );
            lemma_scan_well_formed(args, i + 2, ParseState { config: ConfigView { proxy: Some(v), ..c }, ..st });
            lemma_scan_well_formed(
                args,
                i + 2,
                ParseState { config: ConfigView { output_dir: Some(with_separator(v)), ..c }, ..st },
            );
            lemma_scan_well_formed(
                args,
                i + 2,
                ParseState { config: ConfigView { search_term: Some(v), ..c }, ..st },
            );
            lemma_scan_well_formed(
                args,
                i + 2,
                ParseState { config: ConfigView { restore_name: Some(lowercase(v)), ..c }, ..st },
            );
            lemma_scan_well_formed(args, i + 2, ParseState { config: ConfigView { list_file: Some(v), ..c }, ..st });
        }
        lemma_scan_well_formed(args, i + 1, ParseState { config: ConfigView { force: true, ..c }, ..st });
        lemma_scan_well_formed(args, i + 1, ParseState { config: ConfigView { verbose: true, ..c }, ..st });
        lemma_scan_well_formed(args, i + 1, ParseState { save_config: true, ..st });
        lemma_scan_well_formed(
            args,
            i + 1,
            ParseState { config: ConfigView { restore_name: Some(seq![]), ..c }, ..st },
        );
        let pushed = ParseState { config: ConfigView { dll_names: c.dll_names.push(lowercase(a)), ..c }, ..st };
        if is_suffix(dll_suffix(), lowercase(a)) {
            assert forall|k: int| 0 <= k < pushed.config.dll_names.len() implies is_suffix(
                dll_suffix(),
                #[trigger] pushed.config.dll_names[k],
            ) by {
                if k < c.dll_names.len() {
                    assert(pushed.config.dll_names[k] == c.dll_names[k]);
                }
            }
            lemma_scan_well_formed(args, i + 1, pushed);
        }
    }
}

/// Every settings value that a command line yields keeps only DLL names that
/// end in `.dll`, and an output directory, if any, that ends in `\` or `/`;
/// and a run always has something to do: a DLL name, a restore request, a
/// search term or a list of DLL names.
pub proof fn lemma_parsed_config_well_formed(args: Seq<Seq<char>>, file: ConfigFileView, env_proxy: Option<Seq<char>>)
    ensures
        spec_parse_args(args, file, env_proxy) matches Ok(CommandView::Run(c)) ==> {
            &&& forall|k: int| 0 <= k < c.dll_names.len() ==> is_suffix(dll_suffix(), #[trigger] c.dll_names[k])
            &&& c.output_dir matches Some(d) ==> d.len() > 0 && (d.last() == '\\' || d.last() == '/')
            &&& c.dll_names.len() > 0 || c.restore_name is Some || c.search_term is Some || c.list_file is Some
        },
        spec_parse_args(args, file, env_proxy) matches Ok(CommandView::SaveConfig(c)) ==> {
            &&& forall|k: int| 0 <= k < c.dll_names.len() ==> is_suffix(dll_suffix(), #[trigger] c.dll_names[k])
            &&& c.output_dir matches Some(d) ==> d.len() > 0 && (d.last() == '\\' || d.last() == '/')
        },
{
    if args.len() >= 2 {
        let init = initial_state(file, env_proxy);
        assert(well_formed_state(init));
        lemma_scan_well_formed(args, 1, init);
    }
}

// ---------------------------------------------------------------------------
// Choosing from a numbered list
// ---------------------------------------------------------------------------

/// Why an answer to a numbered list was refused.
#[derive(Clone, Copy, Debug, PartialEq, Eq, Structural)]
pub enum SelectError {
    /// The answer is no number.
    NotANumber,
    /// The number is not one of the list's numbers `1..=len`.
    OutOfRange,
}

/// The item that the answer `input` picks from the list `items`, numbered
/// from 1: the answer, without surrounding white space, must be a number
/// from 1 to the length of the list.
pub open spec fn spec_select_item(items: Seq<Seq<char>>, input: Seq<char>) -> Result<Seq<char>, SelectError> {
    match parse_usize(trim_ws(input)) {
        None => Err(SelectError::NotANumber),
        Some(n) => if n < 1 || n > items.len() {
            Err(SelectError::OutOfRange)
        } else {
            Ok(items[n - 1])
        },
    }
}

/// An answer always picks one of the listed items.
pub proof fn lemma_selected_item_listed(items: Seq<Seq<char>>, input: Seq<char>)
    ensures
        spec_select_item(items, input) matches Ok(s) ==> items.contains(s),
{
    if let Some(n) = parse_usize(trim_ws(input)) {
        if 1 <= n <= items.len() {
            assert(items.contains(items[n - 1]));
        }
    }
}

/// The item of `items` that the typed answer `input` picks (see
/// `spec_select_item`).
pub fn select_item(items: &Vec<String>, input: &str) -> (res: Result<String, SelectError>)
    ensures
        match res {
            Ok(s) => spec_select_item(items.deep_view(), input@) == Ok::<Seq<char>, SelectError>(s@),
            Err(e) => spec_select_item(items.deep_view(), input@) == Err::<Seq<char>, SelectError>(e),
        },
{
    let cs = chars_of(input);
    let trimmed = trim(&cs);
    let idx = match parse_usize_exec(&trimmed) {
        Some(n) => n,
        None => return Err(SelectError::NotANumber),
    };
    if idx < 1 || idx > items.len() {
        return Err(SelectError::OutOfRange);
    }
    assert(items.deep_view()[idx - 1] == items@[idx - 1]@);
    Ok(items[idx - 1].clone())
}

// ---------------------------------------------------------------------------
// Lists of DLL names
// ---------------------------------------------------------------------------

/// The lines of a text: the pieces between its `\n` characters.
pub open spec fn split_lines(t: Seq<char>) -> Seq<Seq<char>>
    decreases t.len(),
{
    if t.len() == 0 {
        seq![seq![]]
    } else {
        let prev = split_lines(t.drop_last());
        if t.last() == '\n' {
            prev.push(seq![])
        } else {
            prev.update(prev.len() - 1, prev.last().push(t.last()))
        }
    }
}

proof fn lemma_split_lines_nonempty(t: Seq<char>)
    ensures
        split_lines(t).len() >= 1,
    decreases t.len(),
{
    if t.len() > 0 {
        lemma_split_lines_nonempty(t.drop_last());
    }
}

/// Reading the lines `i..` of a DLL list, after the names `acc`: each line
/// without surrounding white space is skipped where it is empty or starts
/// with `#`, and otherwise names a DLL, kept lowercased, which must end in
/// `.dll`; the first line that does not is the error.
pub open spec fn scan_list(lines: Seq<Seq<char>>, i: nat, acc: Seq<Seq<char>>) -> Result<Seq<Seq<char>>, Seq<char>>
    decreases lines.len() - i,
{
    if i >= lines.len() {
        Ok(acc)
    } else {
        let t = trim_ws(lines[i as int]);
        if t.len() == 0 || t[0] == '#' {
            scan_list(lines, i + 1, acc)
        } else if is_suffix(dll_suffix(), lowercase(t)) {
            scan_list(lines, i + 1, acc.push(lowercase(t)))
        } else {
            Err(t)
        }
    }
}

/// The DLL names that a list file's text holds (see `scan_list`).
pub open spec fn spec_dll_list(text: Seq<char>) -> Result<Seq<Seq<char>>, Seq<char>> {
    scan_list(split_lines(text), 0, seq![])
}

spec fn lines_view(v: Seq<Vec<char>>) -> Seq<Seq<char>> {
    v.map_values(|x: Vec<char>| x@)
}

/// The DLL names that the text of a list file holds, one per line: blank
/// lines and lines that start with `#` are skipped, surrounding white space
/// is ignored, and each name is kept lowercased. A line that names no
/// `.dll` file is refused with `CliError::NotDll`.
pub fn parse_dll_list(text: &str) -> (res: Result<Vec<String>, CliError>)
    ensures
        match res {
            Ok(v) => spec_dll_list(text@) == Ok::<Seq<Seq<char>>, Seq<char>>(v.deep_view()),
            Err(e) => e is NotDll && spec_dll_list(text@) == Err::<Seq<Seq<char>>, Seq<char>>(e->NotDll_0@),
        },
{
    let cs = chars_of(text);
    let mut lines: Vec<Vec<char>> = Vec::new();
    lines.push(Vec::new());
    assert(lines_view(lines@) =~= split_lines(cs@.take(0)));
    for k in 0..cs.len()
        invariant
            lines_view(lines@) == split_lines(cs@.take(k as int)),
            lines@.len() >= 1,
    {
        let c = cs[k];
        let ghost before = lines_view(lines@);
        assert(cs@.take(k + 1).drop_last() == cs@.take(k as int));
        if c == '\n' {
            lines.push(Vec::new());
            assert(lines_view(lines@) =~= before.push(seq![]));
        } else {
            let last = lines.len() - 1;
            let mut line = lines.pop().unwrap();
            line.push(c);
            lines.push(line);
            assert(lines_view(lines@) =~= before.update(last as int, before.last().push(c)));
        }
    }
    assert(cs@.take(cs.len() as int) == cs@);
    let ghost all = lines_view(lines@);
    let suffix = dll_suffix_chars();
    let mut names: Vec<String> = Vec::new();
    assert(names.deep_view() =~= Seq::<Seq<char>>::empty());
    for i in 0..lines.len()
        invariant
            all == lines_view(lines@),
            all == split_lines(text@),
            suffix@ == dll_suffix(),
            spec_dll_list(text@) == scan_list(all, i as nat, names.deep_view()),
    {
        assert(all[i as int] == lines@[i as int]@);
        let t = trim(&lines[i]);
        if t.len() == 0 || t[0] == '#' {
        } else {
            let s = string_of(&t);
            let lower = to_lowercase(s.as_str());
            let lc = chars_of(lower.as_str());
            if !ends_with(&lc, &suffix) {
                return Err(CliError::NotDll(s));
            }
            let ghost before = names.deep_view();
            names.push(lower);
            assert(names.deep_view() =~= before.push(lc@));
        }
    }
    Ok(names)
}

proof fn lemma_scan_list_names(lines: Seq<Seq<char>>, i: nat, acc: Seq<Seq<char>>)
    requires
        forall|k: int| 0 <= k < acc.len() ==> is_suffix(dll_suffix(), #[trigger] acc[k]),
    ensures
        scan_list(lines, i, acc) matches Ok(names) ==> forall|k: int|
            0 <= k < names.len() ==> is_suffix(dll_suffix(), #[trigger] names[k]),
    decreases lines.len() - i,
{
    if i < lines.len() {
        let t = trim_ws(lines[i as int]);
        lemma_scan_list_names(lines, i + 1, acc);
        if is_suffix(dll_suffix(), lowercase(t)) {
            let next = acc.push(lowercase(t));
            assert forall|k: int| 0 <= k < next.len() implies is_suffix(dll_suffix(), #[trigger] next[k]) by {
                if k < acc.len() {
                    assert(next[k] == acc[k]);
                }
            }
            lemma_scan_list_names(lines, i + 1, next);
        }
    }
}

/// Every name that a DLL list yields ends in `.dll`.
pub proof fn lemma_dll_list_names(text: Seq<char>)
    ensures
        spec_dll_list(text) matches Ok(names) ==> forall|k: int|
            0 <= k < names.len() ==> is_suffix(dll_suffix(), #[trigger] names[k]),
{
    lemma_scan_list_names(split_lines(text), 0, seq![]);
}

// ---------------------------------------------------------------------------
// What forces an installation
// ---------------------------------------------------------------------------

/// An option that takes the next argument as its value, whatever it is.
pub open spec fn is_value_option(a: Seq<char>) -> bool {
    a == "--system32"@ || a == "--syswow64"@ || a == "--proxy"@ || a == "--output"@ || a == "--search"@
        || a == "--file"@
}

/// The argument asks to force installation.
pub open spec fn is_force_flag(a: Seq<char>) -> bool {
    a == "-f"@ || a == "--force"@
}

proof fn lemma_scan_keeps_force(args: Seq<Seq<char>>, i: nat, st: ParseState)
    requires
        st.config.force,
    ensures
        scan_args(args, i, st) matches Ok(ScanEnd::Done(end)) ==> end.config.force,
    decreases args.len() - i,
{
    if i < args.len() {
        let a = args[i as int];
        let c = st.config;
        let v = args[i + 1 as int];
        lemma_scan_keeps_force(args, i + 1, ParseState { config: ConfigView { force: true, ..c }, ..st });
        lemma_scan_keeps_force(args, i + 1, ParseState { config: ConfigView { verbose: true, ..c }, ..st });
        lemma_scan_keeps_force(args, i + 1, ParseState { save_config: true, ..st });
        lemma_scan_keeps_force(args, i + 1, ParseState { config: ConfigView { restore_name: Some(seq![]), ..c }, ..st });
        lemma_scan_keeps_force(
            args,
            i + 1,
            ParseState { config: ConfigView { dll_names: c.dll_names.push(lowercase(a)), ..c }, ..st },
        );
        if i + 1 < args.len() {
            lemma_scan_keeps_force(args, i + 2, ParseState { config: ConfigView { system32_path: with_separator(v), ..c }, ..st });
            lemma_scan_keeps_force(args, i + 2, ParseState { config: ConfigView { syswow64_path: with_separator(v), ..c }, ..st });
            lemma_scan_keeps_force(args, i + 2, ParseState { config: ConfigView { proxy: Some(v), ..c }, ..st });
            lemma_scan_keeps_force(args, i + 2, ParseState { config: ConfigView { output_dir: Some(with_separator(v)), ..c }, ..st });
            lemma_scan_keeps_force(args, i + 2, ParseState { config: ConfigView { search_term: Some(v), ..c }, ..st });
            lemma_scan_keeps_force(args, i + 2, ParseState { config: ConfigView { list_file: Some(v), ..c }, ..st });
            lemma_scan_keeps_force(args, i + 2, ParseState { config: ConfigView { restore_name: Some(lowercase(v)), ..c }, ..st });
        }
    }
}

proof fn lemma_scan_no_force(args: Seq<Seq<char>>, i: nat, st: ParseState)
    requires
        !st.config.force,
        forall|k: int| i <= k < args.len() ==> !is_force_flag(#[trigger] args[k]),
    ensures
        scan_args(args, i, st) matches Ok(ScanEnd::Done(end)) ==> !end.config.force,
    decreases args.len() - i,
{
    if i < args.len() {
        let a = args[i as int];
        let c = st.config;
        let v = args[i + 1 as int];
        assert(!is_force_flag(a));
        lemma_scan_no_force(args, i + 1, ParseState { config: ConfigView { verbose: true, ..c }, ..st });
        lemma_scan_no_force(args, i + 1, ParseState { save_config: true, ..st });
        lemma_scan_no_force(args, i + 1, ParseState { config: ConfigView { restore_name: Some(seq![]), ..c }, ..st });
        lemma_scan_no_force(
            args,
            i + 1,
            ParseState { config: ConfigView { dll_names: c.dll_names.push(lowercase(a)), ..c }, ..st },
        );
        if i + 1 < args.len() {
            lemma_scan_no_force(args, i + 2, ParseState { config: ConfigView { system32_path: with_separator(v), ..c }, ..st });
            lemma_scan_no_force(args, i + 2, ParseState { config: ConfigView { syswow64_path: with_separator(v), ..c }, ..st });
            lemma_scan_no_force(args, i + 2, ParseState { config: ConfigView { proxy: Some(v), ..c }, ..st });
            lemma_scan_no_force(args, i + 2, ParseState { config: ConfigView { output_dir: Some(with_separator(v)), ..c }, ..st });
            lemma_scan_no_force(args, i + 2, ParseState { config: ConfigView { search_term: Some(v), ..c }, ..st });
            lemma_scan_no_force(args, i + 2, ParseState { config: ConfigView { list_file: Some(v), ..c }, ..st });
            lemma_scan_no_force(args, i + 2, ParseState { config: ConfigView { restore_name: Some(lowercase(v)), ..c }, ..st });
        }
    }
}

/// Only `-f` or `--force` forces installation: where no argument is one of
/// them, the settings that a command line yields do not force it (so an
/// existing system DLL is kept).
pub proof fn lemma_force_needs_flag(args: Seq<Seq<char>>, file: ConfigFileView, env_proxy: Option<Seq<char>>)
    requires
        forall|k: int| 1 <= k < args.len() ==> !is_force_flag(#[trigger] args[k]),
    ensures
        spec_parse_args(args, file, env_proxy) matches Ok(CommandView::Run(c)) ==> !c.force,
        spec_parse_args(args, file, env_proxy) matches Ok(CommandView::SaveConfig(c)) ==> !c.force,
{
    if args.len() >= 2 {
        lemma_scan_no_force(args, 1, initial_state(file, env_proxy));
    }
}

proof fn lemma_scan_reaches_force(args: Seq<Seq<char>>, i: nat, j: nat, st: ParseState)
    requires
        i <= j < args.len(),
        is_force_flag(args[j as int]),
        forall|k: int| i <= k < j ==> !is_value_option(#[trigger] args[k]),
    ensures
        scan_args(args, i, st) matches Ok(ScanEnd::Done(end)) ==> end.config.force,
    decreases j - i,
{
    reveal_strlit("-f");
    reveal_strlit("--force");
    let a = args[i as int];
    let c = st.config;
    let v = args[i + 1 as int];
    if i == j {
        lemma_scan_keeps_force(args, i + 1, ParseState { config: ConfigView { force: true, ..c }, ..st });
    } else {
        assert(!is_value_option(a));
        assert(starts_with_dash(args[j as int]));
        lemma_scan_keeps_force(args, i + 1, ParseState { config: ConfigView { force: true, ..c }, ..st });
        lemma_scan_reaches_force(args, i + 1, j, ParseState { config: ConfigView { verbose: true, ..c }, ..st });
        lemma_scan_reaches_force(args, i + 1, j, ParseState { save_config: true, ..st });
        lemma_scan_reaches_force(args, i + 1, j, ParseState { config: ConfigView { restore_name: Some(seq![]), ..c }, ..st });
        lemma_scan_reaches_force(
            args,
            i + 1,
            j,
            ParseState { config: ConfigView { dll_names: c.dll_names.push(lowercase(a)), ..c }, ..st },
        );
        if i + 1 < j {
            lemma_scan_reaches_force(args, i + 2, j, ParseState { config: ConfigView { restore_name: Some(lowercase(v)), ..c }, ..st });
        }
    }
}

/// `-f` or `--force`, read as an option, forces installation: where an
/// argument is one of them and no option before it takes a value (so that
/// it is not itself read as a value), the settings that the command line
/// yields force installation.
pub proof fn lemma_force_flag_forces(
    args: Seq<Seq<char>>,
    file: ConfigFileView,
    env_proxy: Option<Seq<char>>,
    j: nat,
)
    requires
        1 <= j < args.len(),
        is_force_flag(args[j as int]),
        forall|k: int| 1 <= k < j ==> !is_value_option(#[trigger] args[k]),
    ensures
        spec_parse_args(args, file, env_proxy) matches Ok(CommandView::Run(c)) ==> c.force,
        spec_parse_args(args, file, env_proxy) matches Ok(CommandView::SaveConfig(c)) ==> c.force,
{
    lemma_scan_reaches_force(args, 1, j, initial_state(file, env_proxy));
}

// ---------------------------------------------------------------------------
// Picking by number
// ---------------------------------------------------------------------------

/// The decimal digit for `d` (below 10).
pub open spec fn digit_char(d: nat) -> char {
    seq!['0', '1', '2', '3', '4', '5', '6', '7', '8', '9'][d as int]
}

/// `n` written in decimal, without leading zeros.
pub open spec fn decimal(n: nat) -> Seq<char>
    decreases n,
{
    if n < 10 {
        seq![digit_char(n)]
    } else {
        decimal(n / 10).push(digit_char(n % 10))
    }
}

proof fn lemma_digit_char(d: nat)
    requires
        d < 10,
    ensures
        crate::text::is_digit(digit_char(d)),
        (digit_char(d) as u32) - 48 == d,
        !crate::text::white_space(digit_char(d)),
        digit_char(d) != '+',
{
    assert(seq!['0', '1', '2', '3', '4', '5', '6', '7', '8', '9'][d as int] == digit_char(d));
    if d == 0 {} else if d == 1 {} else if d == 2 {} else if d == 3 {} else if d == 4 {}
    else if d == 5 {} else if d == 6 {} else if d == 7 {} else if d == 8 {} else {}
}

proof fn lemma_decimal(n: nat)
    ensures
        decimal(n).len() > 0,
        crate::text::all_digits(decimal(n)),
        crate::text::digits_value(decimal(n)) == n,
    decreases n,
{
    if n < 10 {
        lemma_digit_char(n);
        let s = decimal(n);
        assert(s.drop_last() =~= Seq::<char>::empty());
        assert(crate::text::digits_value(s.drop_last()) == 0);
        assert(s.last() == digit_char(n));
    } else {
        lemma_decimal(n / 10);
        lemma_digit_char(n % 10);
        let s = decimal(n);
        assert(s.drop_last() == decimal(n / 10));
        assert forall|i: int| 0 <= i < s.len() implies crate::text::is_digit(#[trigger] s[i]) by {
            if i < s.len() - 1 {
                assert(s[i] == decimal(n / 10)[i]);
            }
        }
        assert(s.last() == digit_char(n % 10));
        assert(crate::text::digits_value(s) == crate::text::digits_value(decimal(n / 10)) * 10 + ((
        digit_char(n % 10) as u32) - 48) as nat);
        assert((n / 10) * 10 + n % 10 == n) by (nonlinear_arith);
    }
}

/// Answering with a number of the list picks that item: for every list and
/// every `n` from 1 to its length, the answer `n` written in decimal picks
/// the `n`-th item.
pub proof fn lemma_select_by_number(items: Seq<Seq<char>>, n: nat)
    requires
        1 <= n <= items.len(),
        n <= usize::MAX,
    ensures
        spec_select_item(items, decimal(n)) == Ok::<Seq<char>, SelectError>(items[n - 1]),
{
    lemma_decimal(n);
    let s = decimal(n);
    assert(crate::text::is_digit(s[0]));
    assert(crate::text::is_digit(s.last()));
    assert(!crate::text::white_space(s[0]));
    assert(!crate::text::white_space(s.last()));
    assert(crate::text::trim_start_ws(s) == s);
    assert(trim_ws(s) == s);
    assert(s[0] != '+');
    assert(crate::text::unsigned_digits(s) == s);
}

// ---------------------------------------------------------------------------
// What a DLL list yields
// ---------------------------------------------------------------------------

/// A trimmed line of a DLL list names an entry: it is not empty and does not
/// start with `#`.
pub open spec fn is_list_entry(t: Seq<char>) -> bool {
    t.len() > 0 && t[0] != '#'
}

/// The test `is_list_entry`, as a predicate on sequences.
pub open spec fn entry_pred() -> spec_fn(Seq<char>) -> bool {
    |t: Seq<char>| is_list_entry(t)
}

/// The entries of a list of lines: each line without surrounding white
/// space, keeping those that are neither empty nor comments, in order.
pub open spec fn entries_of(lines: Seq<Seq<char>>) -> Seq<Seq<char>> {
    lines.map_values(|l: Seq<char>| trim_ws(l)).filter(entry_pred())
}

/// An entry names a DLL: lowercased, it ends in `.dll`.
pub open spec fn names_dll(t: Seq<char>) -> bool {
    is_suffix(dll_suffix(), lowercase(t))
}

proof fn lemma_entries_step(lines: Seq<Seq<char>>, i: int)
    requires
        0 <= i < lines.len(),
    ensures
        entries_of(lines.skip(i)) == (if is_list_entry(trim_ws(lines[i])) {
            seq![trim_ws(lines[i])]
        } else {
            Seq::<Seq<char>>::empty()
        }) + entries_of(lines.skip(i + 1)),
{
    let t = trim_ws(lines[i]);
    let f = |l: Seq<char>| trim_ws(l);
    assert(lines.skip(i).map_values(f) =~= seq![t] + lines.skip(i + 1).map_values(f));
    Seq::filter_distributes_over_add(seq![t], lines.skip(i + 1).map_values(f), entry_pred());
    reveal(Seq::filter);
    assert(seq![t].drop_last() =~= Seq::<Seq<char>>::empty());
    assert(Seq::<Seq<char>>::empty().filter(entry_pred()) =~= Seq::<Seq<char>>::empty());
    assert(seq![t].drop_last().filter(entry_pred()) =~= Seq::<Seq<char>>::empty());
    if is_list_entry(t) {
        assert(seq![t].filter(entry_pred()) =~= seq![t]);
    } else {
        assert(seq![t].filter(entry_pred()) =~= Seq::<Seq<char>>::empty());
    }
}

proof fn lemma_scan_list_entries(lines: Seq<Seq<char>>, i: nat, acc: Seq<Seq<char>>)
    requires
        i <= lines.len(),
    ensures
        ({
            let e = entries_of(lines.skip(i as int));
            &&& (forall|k: int| 0 <= k < e.len() ==> names_dll(#[trigger] e[k])) ==> scan_list(lines, i, acc) == Ok::<
                Seq<Seq<char>>,
                Seq<char>,
            >(acc + e.map_values(|t: Seq<char>| lowercase(t)))
            &&& scan_list(lines, i, acc) matches Err(bad) ==> exists|k: int|
                0 <= k < e.len() && e[k] == bad && !names_dll(bad) && forall|j: int|
                    0 <= j < k ==> names_dll(#[trigger] e[j])
            &&& (exists|k: int| 0 <= k < e.len() && !names_dll(#[trigger] e[k])) ==> scan_list(lines, i, acc) is Err
        }),
    decreases lines.len() - i,
{
    let e = entries_of(lines.skip(i as int));
    let low = |t: Seq<char>| lowercase(t);
    if i == lines.len() {
        assert(lines.skip(i as int) =~= Seq::<Seq<char>>::empty());
        reveal(Seq::filter);
        assert(e =~= Seq::<Seq<char>>::empty());
        assert(acc + e.map_values(low) =~= acc);
    } else {
        let t = trim_ws(lines[i as int]);
        lemma_entries_step(lines, i as int);
        let rest = entries_of(lines.skip(i + 1 as int));
        if !is_list_entry(t) {
            lemma_scan_list_entries(lines, i + 1, acc);
            assert(e =~= rest);
        } else {
            assert(e =~= seq![t] + rest);
            assert(e[0] == t);
            assert forall|k: int| 0 <= k < rest.len() implies e[k + 1] == rest[k] by {}
            if names_dll(t) {
                let acc2 = acc.push(lowercase(t));
                lemma_scan_list_entries(lines, i + 1, acc2);
                if forall|k: int| 0 <= k < e.len() ==> names_dll(#[trigger] e[k]) {
                    assert forall|k: int| 0 <= k < rest.len() implies names_dll(#[trigger] rest[k]) by {
                        assert(names_dll(e[k + 1]));
                    }
                    assert(acc2 + rest.map_values(low) =~= acc + e.map_values(low));
                }
                if let Err(bad) = scan_list(lines, i, acc) {
                    let k = choose|k: int|
                        0 <= k < rest.len() && rest[k] == bad && !names_dll(bad) && forall|j: int|
                            0 <= j < k ==> names_dll(#[trigger] rest[j]);
                    assert(e[k + 1] == bad);
                    assert forall|j: int| 0 <= j < k + 1 implies names_dll(#[trigger] e[j]) by {
                        if j > 0 {
                            assert(e[j] == rest[j - 1]);
                        }
                    }
                }
                if exists|k: int| 0 <= k < e.len() && !names_dll(#[trigger] e[k]) {
                    let k = choose|k: int| 0 <= k < e.len() && !names_dll(#[trigger] e[k]);
                    assert(k != 0);
                    assert(!names_dll(rest[k - 1]));
                }
            } else {
                assert(scan_list(lines, i, acc) == Err::<Seq<Seq<char>>, Seq<char>>(t));
                assert(e[0] == t);
            }
        }
    }
}

/// A DLL list yields every entry line: where every line that is neither
/// blank nor a comment names a DLL, the list yields exactly those lines,
/// without surrounding white space, lowercased and in order; otherwise it is
/// refused with the first entry that names no DLL.
pub proof fn lemma_dll_list_yields_entries(text: Seq<char>)
    ensures
        ({
            let e = entries_of(split_lines(text));
            &&& (forall|k: int| 0 <= k < e.len() ==> names_dll(#[trigger] e[k])) ==> spec_dll_list(text) == Ok::<
                Seq<Seq<char>>,
                Seq<char>,
            >(e.map_values(|t: Seq<char>| lowercase(t)))
            &&& spec_dll_list(text) matches Err(bad) ==> exists|k: int|
                0 <= k < e.len() && e[k] == bad && !names_dll(bad) && forall|j: int|
                    0 <= j < k ==> names_dll(#[trigger] e[j])
            &&& (exists|k: int| 0 <= k < e.len() && !names_dll(#[trigger] e[k])) ==> spec_dll_list(text) is Err
        }),
{
    let lines = split_lines(text);
    lemma_scan_list_entries(lines, 0, seq![]);
    assert(lines.skip(0) =~= lines);
    let e = entries_of(lines);
    assert(Seq::<Seq<char>>::empty() + e.map_values(|t: Seq<char>| lowercase(t)) =~= e.map_values(
        |t: Seq<char>| lowercase(t),
    ));
}

} // verus!
