//! The command line: which command to run, and the options of the build command.
use vstd::prelude::*;
use vstd::string::StringExecFns;
use crate::manifest::{apply_key, chars_of, spec_parse, strings_view, Key, Manifest, ManifestModel};

verus! {

/// Whether two strings hold the same characters.
pub fn str_eq(a: &str, b: &str) -> (r: bool)
    ensures
        r == (a@ == b@),
{
    let ca = chars_of(a);
    let cb = chars_of(b);
    if ca.len() != cb.len() {
        assert(a@.len() != b@.len());
        return false;
    }
    let n = ca.len();
    for i in 0..n
        invariant
            ca@ == a@,
            cb@ == b@,
            n == ca@.len(),
            n == cb@.len(),
            forall|j: int| 0 <= j < i ==> ca@[j] == cb@[j],
    {
        if ca[i] != cb[i] {
            assert(a@[i as int] != b@[i as int]);
            return false;
        }
    }
    assert(ca@ =~= cb@);
    true
}

/// An option of the build command; each takes a value.
#[derive(Clone, Copy, Debug, PartialEq, Eq)]
pub enum BuildOption {
    /// `--manifest <file>`: a manifest file, which replaces every manifest field.
    ManifestFile,
    /// `--name`, `--version`, `--cap-req`, `--cap-exp`, `--sandbox`: a manifest directive.
    Field(Key),
}

pub open spec fn option_text(o: BuildOption) -> Seq<char> {
    match o {
        BuildOption::ManifestFile => seq!['-', '-', 'm', 'a', 'n', 'i', 'f', 'e', 's', 't'],
        BuildOption::Field(Key::Name) => seq!['-', '-', 'n', 'a', 'm', 'e'],
        BuildOption::Field(Key::Version) => seq!['-', '-', 'v', 'e', 'r', 's', 'i', 'o', 'n'],
        BuildOption::Field(Key::CapReq) => seq!['-', '-', 'c', 'a', 'p', '-', 'r', 'e', 'q'],
        BuildOption::Field(Key::CapExp) => seq!['-', '-', 'c', 'a', 'p', '-', 'e', 'x', 'p'],
        BuildOption::Field(Key::Sandbox) => seq!['-', '-', 's', 'a', 'n', 'd', 'b', 'o', 'x'],
    }
}

/// The option that `a` names, if any.
pub open spec fn option_of(a: Seq<char>) -> Option<BuildOption> {
    if a == option_text(BuildOption::ManifestFile) {
        Some(BuildOption::ManifestFile)
    } else if a == option_text(BuildOption::Field(Key::Name)) {
        Some(BuildOption::Field(Key::Name))
    } else if a == option_text(BuildOption::Field(Key::Version)) {
        Some(BuildOption::Field(Key::Version))
    } else if a == option_text(BuildOption::Field(Key::CapReq)) {
        Some(BuildOption::Field(Key::CapReq))
    } else if a == option_text(BuildOption::Field(Key::CapExp)) {
        Some(BuildOption::Field(Key::CapExp))
    } else if a == option_text(BuildOption::Field(Key::Sandbox)) {
        Some(BuildOption::Field(Key::Sandbox))
    } else {
        None
    }
}

/// The text of an option.
pub fn option_str(o: BuildOption) -> (s: &'static str)
    ensures
        s@ == option_text(o),
{
    match o {
        BuildOption::ManifestFile => {
            proof {
                reveal_strlit("--manifest");
            }
            "--manifest"
        },
        BuildOption::Field(Key::Name) => {
            proof {
                reveal_strlit("--name");
            }
            "--name"
        },
        BuildOption::Field(Key::Version) => {
            proof {
                reveal_strlit("--version");
            }
            "--version"
        },
        BuildOption::Field(Key::CapReq) => {
            proof {
                reveal_strlit("--cap-req");
            }
            "--cap-req"
        },
        BuildOption::Field(Key::CapExp) => {
            proof {
                reveal_strlit("--cap-exp");
            }
            "--cap-exp"
        },
        BuildOption::Field(Key::Sandbox) => {
            proof {
                reveal_strlit("--sandbox");
            }
            "--sandbox"
        },
    }
}

/// The option that `a` names, if any.
pub fn parse_option(a: &str) -> (r: Option<BuildOption>)
    ensures
        r == option_of(a@),
{
    if str_eq(a, option_str(BuildOption::ManifestFile)) {
        Some(BuildOption::ManifestFile)
    } else if str_eq(a, option_str(BuildOption::Field(Key::Name))) {
        Some(BuildOption::Field(Key::Name))
    } else if str_eq(a, option_str(BuildOption::Field(Key::Version))) {
        Some(BuildOption::Field(Key::Version))
    } else if str_eq(a, option_str(BuildOption::Field(Key::CapReq))) {
        Some(BuildOption::Field(Key::CapReq))
    } else if str_eq(a, option_str(BuildOption::Field(Key::CapExp))) {
        Some(BuildOption::Field(Key::CapExp))
    } else if str_eq(a, option_str(BuildOption::Field(Key::Sandbox))) {
        Some(BuildOption::Field(Key::Sandbox))
    } else {
        None
    }
}

/// What the build command was asked to do.
#[derive(Debug)]
pub struct BuildArgs {
    pub input: String,
    pub output: String,
    pub manifest_file: Option<String>,
    pub manifest: Manifest,
}

/// The mathematical value of [`BuildArgs`].
pub ghost struct BuildArgsModel {
    pub input: Seq<char>,
    pub output: Seq<char>,
    pub manifest_file: Option<Seq<char>>,
    pub manifest: ManifestModel,
}

pub open spec fn option_string_view(o: Option<String>) -> Option<Seq<char>> {
    match o {
        Some(s) => Some(s@),
        None => None,
    }
}

impl View for BuildArgs {
    type V = BuildArgsModel;

    open spec fn view(&self) -> BuildArgsModel {
        BuildArgsModel {
            input: self.input@,
            output: self.output@,
            manifest_file: option_string_view(self.manifest_file),
            manifest: self.manifest@,
        }
    }
}

/// Why the build command's arguments are refused.
#[derive(Debug, PartialEq, Eq)]
pub enum ArgError {
    /// Fewer than an input and an output file.
    Usage,
    /// An option given as the last argument, without its value.
    MissingValue(BuildOption),
    /// An argument that names no option.
    UnknownOption(String),
}

/// The mathematical value of an [`ArgError`].
pub ghost enum ArgErrorModel {
    Usage,
    MissingValue(BuildOption),
    UnknownOption(Seq<char>),
}

impl View for ArgError {
    type V = ArgErrorModel;

    open spec fn view(&self) -> ArgErrorModel {
        match self {
            ArgError::Usage => ArgErrorModel::Usage,
            ArgError::MissingValue(o) => ArgErrorModel::MissingValue(*o),
            ArgError::UnknownOption(s) => ArgErrorModel::UnknownOption(s@),
        }
    }
}

/// The effect of the option `o` with the value `v`.
pub open spec fn apply_option(acc: BuildArgsModel, o: BuildOption, v: Seq<char>) -> BuildArgsModel {
    match o {
        BuildOption::ManifestFile => BuildArgsModel { manifest_file: Some(v), ..acc },
        BuildOption::Field(k) => BuildArgsModel { manifest: apply_key(acc.manifest, k, v), ..acc },
    }
}

/// Reads the options `args[i..]`, each followed by its value.
pub open spec fn scan_options(args: Seq<Seq<char>>, i: nat, acc: BuildArgsModel) -> Result<
    BuildArgsModel,
    ArgErrorModel,
>
    decreases args.len() - i,
{
    if i >= args.len() {
        Ok(acc)
    } else {
        match option_of(args[i as int]) {
            None => Err(ArgErrorModel::UnknownOption(args[i as int])),
            Some(o) => if i + 1 >= args.len() {
                Err(ArgErrorModel::MissingValue(o))
            } else {
                scan_options(args, i + 2, apply_option(acc, o, args[i + 1 as int]))
            },
        }
    }
}

/// The version a component has unless told otherwise: `0.1.0`.
pub open spec fn default_version() -> Seq<char> {
    seq!['0', '.', '1', '.', '0']
}

/// What the build command's arguments ask for: the input, the output, then options. The
/// manifest starts with the name `default_name` and the version `0.1.0`.
pub open spec fn spec_parse_build_args(args: Seq<Seq<char>>, default_name: Seq<char>) -> Result<
    BuildArgsModel,
    ArgErrorModel,
> {
    if args.len() < 2 {
        Err(ArgErrorModel::Usage)
    } else {
        scan_options(
            args,
            2,
            BuildArgsModel {
                input: args[0],
                output: args[1],
                manifest_file: None,
                manifest: ManifestModel {
                    name: default_name,
                    version: default_version(),
                    ..crate::manifest::empty_model()
                },
            },
        )
    }
}

/// Applies the option `o` with the value `v`.
fn apply_build_option(acc: &mut BuildArgs, o: BuildOption, v: String)
    ensures
        final(acc)@ == apply_option(old(acc)@, o, v@),
{
    let ghost before = acc@;
    match o {
        BuildOption::ManifestFile => {
            acc.manifest_file = Some(v);
        },
        BuildOption::Field(Key::Name) => {
            acc.manifest.name = v;
        },
        BuildOption::Field(Key::Version) => {
            acc.manifest.version = v;
        },
        BuildOption::Field(Key::CapReq) => {
            acc.manifest.caps_req.push(v);
            assert(acc@.manifest.caps_req =~= before.manifest.caps_req.push(v@));
        },
        BuildOption::Field(Key::CapExp) => {
            acc.manifest.caps_exp.push(v);
            assert(acc@.manifest.caps_exp =~= before.manifest.caps_exp.push(v@));
        },
        BuildOption::Field(Key::Sandbox) => {
            acc.manifest.sandbox.push(v);
            assert(acc@.manifest.sandbox =~= before.manifest.sandbox.push(v@));
        },
    }
}

/// Reads the arguments of the build command: the input file, the output file, then options,
/// each followed by its value. `default_name` is the component's name unless an option sets
/// another.
pub fn parse_build_args(args: &Vec<String>, default_name: String) -> (res: Result<
    BuildArgs,
    ArgError,
>)
    ensures
        match res {
            Ok(b) => spec_parse_build_args(strings_view(args@), default_name@) == Ok::<
                BuildArgsModel,
                ArgErrorModel,
            >(b@),
            Err(e) => spec_parse_build_args(strings_view(args@), default_name@) == Err::<
                BuildArgsModel,
                ArgErrorModel,
            >(e@),
        },
{
    let ghost sa = strings_view(args@);
    let n = args.len();
    if n < 2 {
        return Err(ArgError::Usage);
    }
    let mut manifest = Manifest::default();
    manifest.name = default_name;
    manifest.version = String::from_str("0.1.0");
    proof {
        reveal_strlit("0.1.0");
    }
    let mut acc = BuildArgs {
        input: args[0].clone(),
        output: args[1].clone(),
        manifest_file: None,
        manifest,
    };
    assert(acc@.manifest.name == default_name@);
    assert(acc@.manifest.version == default_version());
    assert(acc@.manifest.caps_req == Seq::<Seq<char>>::empty());
    assert(acc@.manifest.caps_exp == Seq::<Seq<char>>::empty());
    assert(acc@.manifest.sandbox == Seq::<Seq<char>>::empty());
    assert(acc@.manifest == (ManifestModel {
        name: default_name@,
        version: default_version(),
        ..crate::manifest::empty_model()
    }));
    let mut i: usize = 2;
    while i < n
        invariant
            n == args@.len(),
            sa == strings_view(args@),
            2 <= i,
            spec_parse_build_args(sa, default_name@) == scan_options(sa, i as nat, acc@),
        decreases n - i,
    {
        match parse_option(args[i].as_str()) {
            None => {
                return Err(ArgError::UnknownOption(args[i].clone()));
            },
            Some(o) => {
                if i + 1 >= n {
                    return Err(ArgError::MissingValue(o));
                }
                apply_build_option(&mut acc, o, args[i + 1].clone());
                i = i + 2;
            },
        }
    }
    Ok(acc)
}

/// What the program was asked to do.
#[derive(Debug, PartialEq, Eq)]
pub enum Command {
    /// Too few arguments: show how to use the program.
    Usage,
    /// Validate the bundle in the file given.
    Check(String),
    /// Show the structure of the bundle in the file given.
    Dump(String),
    /// `--check` or `--dump` without a file.
    MissingFile,
    /// Build a bundle; the arguments from the second on are the build command's.
    Build,
}

pub open spec fn check_text() -> Seq<char> {
    seq!['-', '-', 'c', 'h', 'e', 'c', 'k']
}

pub open spec fn dump_text() -> Seq<char> {
    seq!['-', '-', 'd', 'u', 'm', 'p']
}

/// The mathematical value of a [`Command`]: the file is given by its characters.
pub ghost enum CommandModel {
    Usage,
    Check(Seq<char>),
    Dump(Seq<char>),
    MissingFile,
    Build,
}

impl View for Command {
    type V = CommandModel;

    open spec fn view(&self) -> CommandModel {
        match self {
            Command::Usage => CommandModel::Usage,
            Command::Check(s) => CommandModel::Check(s@),
            Command::Dump(s) => CommandModel::Dump(s@),
            Command::MissingFile => CommandModel::MissingFile,
            Command::Build => CommandModel::Build,
        }
    }
}

/// The command that the program's arguments (the program's own name first) ask for.
pub open spec fn spec_select_command(args: Seq<Seq<char>>) -> CommandModel {
    if args.len() < 2 {
        CommandModel::Usage
    } else if args[1] == check_text() && args.len() >= 3 {
        CommandModel::Check(args[2])
    } else if args[1] == dump_text() && args.len() >= 3 {
        CommandModel::Dump(args[2])
    } else if args[1] == check_text() || args[1] == dump_text() {
        CommandModel::MissingFile
    } else {
        CommandModel::Build
    }
}

/// Selects the command from the program's arguments, its own name first.
pub fn select_command(args: &Vec<String>) -> (c: Command)
    ensures
        c@ == spec_select_command(strings_view(args@)),
{
    if args.len() < 2 {
        return Command::Usage;
    }
    let check = "--check";
    let dump = "--dump";
    proof {
        reveal_strlit("--check");
        reveal_strlit("--dump");
        assert(check@ =~= check_text());
        assert(dump@ =~= dump_text());
        assert(strings_view(args@)[1] == args@[1]@);
        if args@.len() >= 3 {
            assert(strings_view(args@)[2] == args@[2]@);
        }
    }
    let is_check = str_eq(args[1].as_str(), check);
    let is_dump = str_eq(args[1].as_str(), dump);
    if is_check && args.len() >= 3 {
        Command::Check(args[2].clone())
    } else if is_dump && args.len() >= 3 {
        Command::Dump(args[2].clone())
    } else if is_check || is_dump {
        Command::MissingFile
    } else {
        Command::Build
    }
}

/// The manifest that goes into the bundle: the text of a `--manifest` file, where one was
/// given, replaces every field that the options set; otherwise the options' manifest stands.
pub fn resolve_manifest(options: Manifest, manifest_text: Option<&str>) -> (m: Manifest)
    ensures
        m@ == match manifest_text {
            Some(t) => spec_parse(t@),
            None => options@,
        },
{
    match manifest_text {
        Some(t) => Manifest::parse(t),
        None => options,
    }
}

/// The values that follow the option `o` in the option pairs of `args` from position `i` on,
/// in argument order.
pub open spec fn opt_values(args: Seq<Seq<char>>, i: nat, o: BuildOption) -> Seq<Seq<char>>
    decreases args.len() - i,
{
    if i + 1 >= args.len() {
        Seq::empty()
    } else if args[i as int] == option_text(o) {
        seq![args[i + 1 as int]] + opt_values(args, i + 2, o)
    } else {
        opt_values(args, i + 2, o)
    }
}

/// The value that follows the last `o` in the option pairs of `args` from position `i` on, or
/// `dflt` where there is none.
pub open spec fn last_value(args: Seq<Seq<char>>, i: nat, o: BuildOption, dflt: Seq<char>) -> Seq<
    char,
>
    decreases args.len() - i,
{
    if i + 1 >= args.len() {
        dflt
    } else if args[i as int] == option_text(o) {
        last_value(args, i + 2, o, args[i + 1 as int])
    } else {
        last_value(args, i + 2, o, dflt)
    }
}

/// Each argument names at most one option.
proof fn lemma_option_of_text(a: Seq<char>, o: BuildOption)
    ensures
        option_of(a) == Some(o) <==> a == option_text(o),
{
    let t = option_text(o);
    if a == t {
        assert forall|o2: BuildOption| o2 != o implies option_text(o2) != t by {
            let t2 = option_text(o2);
            if t2.len() == t.len() {
                assert(t2[2] != t[2] || t2[6] != t[6]);
            }
        }
    }
}

proof fn lemma_scan_values(args: Seq<Seq<char>>, i: nat, acc: BuildArgsModel)
    ensures
        scan_options(args, i, acc) matches Ok(b) ==> {
            &&& b.input == acc.input
            &&& b.output == acc.output
            &&& b.manifest.caps_req == acc.manifest.caps_req + opt_values(
                args,
                i,
                BuildOption::Field(Key::CapReq),
            )
            &&& b.manifest.caps_exp == acc.manifest.caps_exp + opt_values(
                args,
                i,
                BuildOption::Field(Key::CapExp),
            )
            &&& b.manifest.sandbox == acc.manifest.sandbox + opt_values(
                args,
                i,
                BuildOption::Field(Key::Sandbox),
            )
            &&& b.manifest.name == last_value(args, i, BuildOption::Field(Key::Name), acc.manifest.name)
            &&& b.manifest.version == last_value(
                args,
                i,
                BuildOption::Field(Key::Version),
                acc.manifest.version,
            )
        },
    decreases args.len() - i,
{
    if i >= args.len() {
        assert(acc.manifest.caps_req + Seq::<Seq<char>>::empty() =~= acc.manifest.caps_req);
        assert(acc.manifest.caps_exp + Seq::<Seq<char>>::empty() =~= acc.manifest.caps_exp);
        assert(acc.manifest.sandbox + Seq::<Seq<char>>::empty() =~= acc.manifest.sandbox);
    } else if let Some(o) = option_of(args[i as int]) {
        if i + 1 < args.len() {
            let v = args[i + 1 as int];
            let acc2 = apply_option(acc, o, v);
            lemma_scan_values(args, i + 2, acc2);
            lemma_option_of_text(args[i as int], o);
            lemma_option_of_text(args[i as int], BuildOption::Field(Key::CapReq));
            lemma_option_of_text(args[i as int], BuildOption::Field(Key::CapExp));
            lemma_option_of_text(args[i as int], BuildOption::Field(Key::Sandbox));
            lemma_option_of_text(args[i as int], BuildOption::Field(Key::Name));
            lemma_option_of_text(args[i as int], BuildOption::Field(Key::Version));
            let r = opt_values(args, i + 2, BuildOption::Field(Key::CapReq));
            let x = opt_values(args, i + 2, BuildOption::Field(Key::CapExp));
            let sb = opt_values(args, i + 2, BuildOption::Field(Key::Sandbox));
            assert(acc.manifest.caps_req.push(v) + r =~= acc.manifest.caps_req + (seq![v] + r));
            assert(acc.manifest.caps_exp.push(v) + x =~= acc.manifest.caps_exp + (seq![v] + x));
            assert(acc.manifest.sandbox.push(v) + sb =~= acc.manifest.sandbox + (seq![v] + sb));
        }
    }
}

/// What a successful reading of the build arguments holds, stated on the arguments alone:
/// the input and output files; every `--cap-req`, `--cap-exp` and `--sandbox` value, in
/// argument order; and the value of the last `--name` and `--version` (the default name and
/// `0.1.0` where there is none).
pub proof fn lemma_build_args_values(args: Seq<Seq<char>>, default_name: Seq<char>)
    ensures
        spec_parse_build_args(args, default_name) matches Ok(b) ==> {
            &&& b.input == args[0]
            &&& b.output == args[1]
            &&& b.manifest.caps_req == opt_values(args, 2, BuildOption::Field(Key::CapReq))
            &&& b.manifest.caps_exp == opt_values(args, 2, BuildOption::Field(Key::CapExp))
            &&& b.manifest.sandbox == opt_values(args, 2, BuildOption::Field(Key::Sandbox))
            &&& b.manifest.name == last_value(args, 2, BuildOption::Field(Key::Name), default_name)
            &&& b.manifest.version == last_value(
                args,
                2,
                BuildOption::Field(Key::Version),
                default_version(),
            )
        },
{
    if args.len() >= 2 {
        let acc = BuildArgsModel {
            input: args[0],
            output: args[1],
            manifest_file: None,
            manifest: ManifestModel {
                name: default_name,
                version: default_version(),
                ..crate::manifest::empty_model()
            },
        };
        lemma_scan_values(args, 2, acc);
        assert(Seq::<Seq<char>>::empty() + opt_values(args, 2, BuildOption::Field(Key::CapReq))
            =~= opt_values(args, 2, BuildOption::Field(Key::CapReq)));
        assert(Seq::<Seq<char>>::empty() + opt_values(args, 2, BuildOption::Field(Key::CapExp))
            =~= opt_values(args, 2, BuildOption::Field(Key::CapExp)));
        assert(Seq::<Seq<char>>::empty() + opt_values(args, 2, BuildOption::Field(Key::Sandbox))
            =~= opt_values(args, 2, BuildOption::Field(Key::Sandbox)));
    }
}

} // verus!
