//! The command line: what the arguments ask for.

use crate::text::{chars_of, parse_number, same_text, string_of, views, written_number};
use crate::walk::{parse_filesize, size_of_text};
use vstd::prelude::*;

verus! {

/// When to highlight matches.
#[derive(Clone, Copy, Debug, PartialEq, Eq, Structural)]
pub enum ColorWhen {
    Auto,
    Always,
    Never,
}

/// An option with a value.
#[derive(Clone, Copy, Debug, PartialEq, Eq, Structural)]
pub enum Valued {
    Top,
    UseIndex,
    Format,
    Port,
    MaxCount,
    Regexp,
    File,
    Glob,
    MaxDepth,
    MaxFilesize,
    After,
    Before,
    Around,
    GroupSeparator,
}

/// An option without a value.
#[derive(Clone, Copy, Debug, PartialEq, Eq, Structural)]
pub enum Switch {
    FixedStrings,
    InvertMatch,
    WordRegexp,
    IgnoreCase,
    Quiet,
    Count,
    FilesOnly,
    Hidden,
    NoHidden,
    NoIgnore,
    Follow,
    NoFollow,
    Nothing,
}

/// How the value of an option was given.
#[derive(Clone, Copy, Debug, PartialEq, Eq, Structural)]
pub enum Given {
    /// As the next argument.
    Separate,
    /// Behind `=`.
    Equals,
    /// Right behind the letter.
    Attached,
}

/// What a value should have been.
#[derive(Clone, Copy, Debug, PartialEq, Eq, Structural)]
pub enum Want {
    Number,
    PortNumber,
    Format,
    Color,
    Size,
}

/// Why a command line is refused.
pub enum CliFault {
    /// It does not fit the usage.
    Usage,
    /// The argument `arg` gives `flag` a value that is not wanted.
    BadValue { flag: String, arg: String, want: Want },
    /// The option is known, but not supported.
    Unsupported(String),
    /// Standard input cannot be searched over a port.
    StdinOverPort,
}

/// Why a command line is refused.
pub enum CliFaultView {
    Usage,
    BadValue { flag: Seq<char>, arg: Seq<char>, want: Want },
    Unsupported(Seq<char>),
    StdinOverPort,
}

impl View for CliFault {
    type V = CliFaultView;

    open spec fn view(&self) -> CliFaultView {
        match self {
            CliFault::Usage => CliFaultView::Usage,
            CliFault::BadValue { flag, arg, want } => CliFaultView::BadValue { flag: flag@, arg: arg@, want: *want },
            CliFault::Unsupported(a) => CliFaultView::Unsupported(a@),
            CliFault::StdinOverPort => CliFaultView::StdinOverPort,
        }
    }
}

/// What the switches of a search ask for.
#[derive(Clone, Copy, Debug, PartialEq, Eq, Structural)]
pub struct Flags {
    pub ignore_case: bool,
    pub quiet: bool,
    pub count: bool,
    pub files_only: bool,
    pub text_format: bool,
    pub color: ColorWhen,
    pub hidden: bool,
    pub no_ignore: bool,
    pub follow: bool,
    /// Whether patterns were given by option, so that no operand is one.
    pub explicit_patterns: bool,
    pub fixed: bool,
    pub invert: bool,
    pub word: bool,
}

/// The numbers that a search was given.
#[derive(Clone, Copy, Debug, PartialEq, Eq, Structural)]
pub struct Limits {
    pub top: Option<usize>,
    pub port: Option<u16>,
    pub max_depth: Option<usize>,
    pub max_filesize: Option<u64>,
    pub after: Option<usize>,
    pub before: Option<usize>,
    pub around: Option<usize>,
    pub max_count: Option<usize>,
}

/// What the arguments of a search ask for.
pub struct Options {
    pub flags: Flags,
    pub limits: Limits,
    pub use_index: Option<String>,
    pub globs: Vec<String>,
    pub patterns: Vec<String>,
    pub pattern_files: Vec<String>,
    pub group_separator: String,
    pub operands: Vec<String>,
}

/// What the arguments of a search ask for.
pub struct OptionsView {
    pub flags: Flags,
    pub limits: Limits,
    pub use_index: Option<Seq<char>>,
    pub globs: Seq<Seq<char>>,
    pub patterns: Seq<Seq<char>>,
    pub pattern_files: Seq<Seq<char>>,
    pub group_separator: Seq<char>,
    pub operands: Seq<Seq<char>>,
}

impl View for Options {
    type V = OptionsView;

    open spec fn view(&self) -> OptionsView {
        OptionsView {
            flags: self.flags,
            limits: self.limits,
            use_index: match self.use_index {
                Some(s) => Some(s@),
                None => None,
            },
            globs: views(self.globs@),
            patterns: views(self.patterns@),
            pattern_files: views(self.pattern_files@),
            group_separator: self.group_separator@,
            operands: views(self.operands@),
        }
    }
}

/// No switch set.
pub open spec fn no_flags() -> Flags {
    Flags {
        ignore_case: false,
        quiet: false,
        count: false,
        files_only: false,
        text_format: false,
        color: ColorWhen::Auto,
        hidden: false,
        no_ignore: false,
        follow: false,
        explicit_patterns: false,
        fixed: false,
        invert: false,
        word: false,
    }
}

/// No number given.
pub open spec fn no_limits() -> Limits {
    Limits {
        top: None,
        port: None,
        max_depth: None,
        max_filesize: None,
        after: None,
        before: None,
        around: None,
        max_count: None,
    }
}

/// What no argument asks for.
pub open spec fn no_options() -> OptionsView {
    OptionsView {
        flags: no_flags(),
        limits: no_limits(),
        use_index: None,
        globs: Seq::empty(),
        patterns: Seq::empty(),
        pattern_files: Seq::empty(),
        group_separator: "--"@,
        operands: Seq::empty(),
    }
}

// ---- single values ----

/// When to highlight, as a text names it.
pub open spec fn color_named(s: Seq<char>) -> Option<ColorWhen> {
    if s == "auto"@ {
        Some(ColorWhen::Auto)
    } else if s == "always"@ || s == "ansi"@ {
        Some(ColorWhen::Always)
    } else if s == "never"@ {
        Some(ColorWhen::Never)
    } else {
        None
    }
}

/// Read when to highlight.
pub fn parse_color_when(s: &str) -> (res: Option<ColorWhen>)
    ensures
        res == color_named(s@),
{
    if same_text(s, "auto") {
        Some(ColorWhen::Auto)
    } else if same_text(s, "always") || same_text(s, "ansi") {
        Some(ColorWhen::Always)
    } else if same_text(s, "never") {
        Some(ColorWhen::Never)
    } else {
        None
    }
}

/// Whether to highlight: an explicit choice wins, else only on a terminal.
pub fn color_enabled(when: ColorWhen, is_terminal: bool) -> (on: bool)
    ensures
        on == match when {
            ColorWhen::Always => true,
            ColorWhen::Never => false,
            ColorWhen::Auto => is_terminal,
        },
{
    match when {
        ColorWhen::Always => true,
        ColorWhen::Never => false,
        ColorWhen::Auto => is_terminal,
    }
}

// ---- forms of arguments ----

/// The option that takes its value from the next argument.
pub open spec fn valued_option(a: Seq<char>) -> Option<Valued> {
    if a == "--top"@ {
        Some(Valued::Top)
    } else if a == "--use-index"@ {
        Some(Valued::UseIndex)
    } else if a == "--format"@ {
        Some(Valued::Format)
    } else if a == "--port"@ {
        Some(Valued::Port)
    } else if a == "-m"@ || a == "--max-count"@ {
        Some(Valued::MaxCount)
    } else if a == "-e"@ || a == "--regexp"@ {
        Some(Valued::Regexp)
    } else if a == "-f"@ || a == "--file"@ {
        Some(Valued::File)
    } else if a == "-g"@ || a == "--glob"@ {
        Some(Valued::Glob)
    } else if a == "-d"@ || a == "--max-depth"@ {
        Some(Valued::MaxDepth)
    } else if a == "--max-filesize"@ {
        Some(Valued::MaxFilesize)
    } else if a == "-A"@ || a == "--after-context"@ {
        Some(Valued::After)
    } else if a == "-B"@ || a == "--before-context"@ {
        Some(Valued::Before)
    } else if a == "-C"@ || a == "--context"@ {
        Some(Valued::Around)
    } else if a == "--group-separator"@ {
        Some(Valued::GroupSeparator)
    } else {
        None
    }
}

/// The option that takes no value.
pub open spec fn switch_option(a: Seq<char>) -> Option<Switch> {
    if a == "-F"@ || a == "--fixed-strings"@ {
        Some(Switch::FixedStrings)
    } else if a == "-v"@ || a == "--invert-match"@ {
        Some(Switch::InvertMatch)
    } else if a == "-w"@ || a == "--word-regexp"@ {
        Some(Switch::WordRegexp)
    } else if a == "-i"@ || a == "--ignore-case"@ {
        Some(Switch::IgnoreCase)
    } else if a == "-q"@ || a == "--quiet"@ || a == "--silent"@ {
        Some(Switch::Quiet)
    } else if a == "-c"@ || a == "--count"@ {
        Some(Switch::Count)
    } else if a == "-l"@ || a == "--files-with-matches"@ {
        Some(Switch::FilesOnly)
    } else if a == "--hidden"@ || a == "-."@ {
        Some(Switch::Hidden)
    } else if a == "--no-hidden"@ {
        Some(Switch::NoHidden)
    } else if a == "--no-ignore"@ {
        Some(Switch::NoIgnore)
    } else if a == "-L"@ || a == "--follow"@ {
        Some(Switch::Follow)
    } else if a == "--no-follow"@ {
        Some(Switch::NoFollow)
    } else if a == "--no-pcre2"@ || a == "--no-encoding"@ {
        Some(Switch::Nothing)
    } else {
        None
    }
}

/// An option that is known and refused.
pub open spec fn is_unsupported(a: Seq<char>) -> bool {
    a == "-x"@ || a == "--line-regexp"@ || a == "-P"@ || a == "--pcre2"@ || a == "-E"@ || a == "--encoding"@ || a == "-G"@
}

/// The option that carries its value behind `=`, and where the value starts.
pub open spec fn joined_option(a: Seq<char>) -> Option<(Valued, int)> {
    if "--top="@.is_prefix_of(a) {
        Some((Valued::Top, "--top="@.len() as int))
    } else if "--format="@.is_prefix_of(a) {
        Some((Valued::Format, "--format="@.len() as int))
    } else if "--port="@.is_prefix_of(a) {
        Some((Valued::Port, "--port="@.len() as int))
    } else if "--max-count="@.is_prefix_of(a) {
        Some((Valued::MaxCount, "--max-count="@.len() as int))
    } else if "--regexp="@.is_prefix_of(a) {
        Some((Valued::Regexp, "--regexp="@.len() as int))
    } else if "--file="@.is_prefix_of(a) {
        Some((Valued::File, "--file="@.len() as int))
    } else if "--glob="@.is_prefix_of(a) {
        Some((Valued::Glob, "--glob="@.len() as int))
    } else if "--max-depth="@.is_prefix_of(a) {
        Some((Valued::MaxDepth, "--max-depth="@.len() as int))
    } else if "--max-filesize="@.is_prefix_of(a) {
        Some((Valued::MaxFilesize, "--max-filesize="@.len() as int))
    } else if "--after-context="@.is_prefix_of(a) {
        Some((Valued::After, "--after-context="@.len() as int))
    } else if "--before-context="@.is_prefix_of(a) {
        Some((Valued::Before, "--before-context="@.len() as int))
    } else if "--context="@.is_prefix_of(a) {
        Some((Valued::Around, "--context="@.len() as int))
    } else if "--group-separator="@.is_prefix_of(a) {
        Some((Valued::GroupSeparator, "--group-separator="@.len() as int))
    } else {
        None
    }
}

/// The short option that carries its value right behind its letter.
pub open spec fn attached_option(a: Seq<char>) -> Option<Valued> {
    if a.len() > 2 && a[0] == '-' && a[1] != '-' {
        if a[1] == 'm' {
            Some(Valued::MaxCount)
        } else if a[1] == 'g' {
            Some(Valued::Glob)
        } else if a[1] == 'd' {
            Some(Valued::MaxDepth)
        } else if a[1] == 'A' {
            Some(Valued::After)
        } else if a[1] == 'B' {
            Some(Valued::Before)
        } else if a[1] == 'C' {
            Some(Valued::Around)
        } else {
            None
        }
    } else {
        None
    }
}

/// A cluster of switches by letter.
pub open spec fn is_cluster(a: Seq<char>) -> bool {
    a.len() > 1 && a[0] == '-' && a[1] != '-' && forall|k: int| 1 <= k < a.len() ==> cluster_switch(#[trigger] a[k]) is Some
}

/// The switch that a letter of a cluster stands for.
pub open spec fn cluster_switch(c: char) -> Option<Switch> {
    if c == 'i' {
        Some(Switch::IgnoreCase)
    } else if c == 'q' {
        Some(Switch::Quiet)
    } else if c == 'c' {
        Some(Switch::Count)
    } else if c == 'l' {
        Some(Switch::FilesOnly)
    } else if c == 'F' {
        Some(Switch::FixedStrings)
    } else if c == 'v' {
        Some(Switch::InvertMatch)
    } else if c == 'w' {
        Some(Switch::WordRegexp)
    } else {
        None
    }
}

/// What an argument is.
#[derive(Clone, Copy, Debug, PartialEq, Eq, Structural)]
pub enum ArgForm {
    /// An option whose value is the next argument.
    Valued(Valued),
    /// A switch.
    Switch(Switch),
    /// `--color`, with the next argument as its value where that names one.
    Color,
    /// `--color=`, with its value from this position on.
    ColorJoined(usize),
    /// An option that is known and refused.
    Unsupported,
    /// An option with its value from this position on.
    Joined(Valued, Given, usize),
    /// Several switches by letter.
    Cluster,
    /// An operand.
    Operand,
}

/// What an argument is.
#[verifier::opaque]
pub open spec fn arg_form(a: Seq<char>) -> ArgForm {
    if valued_option(a) is Some {
        ArgForm::Valued(valued_option(a)->Some_0)
    } else if switch_option(a) is Some {
        ArgForm::Switch(switch_option(a)->Some_0)
    } else if a == "--color"@ {
        ArgForm::Color
    } else if "--color="@.is_prefix_of(a) {
        ArgForm::ColorJoined("--color="@.len() as usize)
    } else if is_unsupported(a) {
        ArgForm::Unsupported
    } else if joined_option(a) is Some {
        ArgForm::Joined(joined_option(a)->Some_0.0, Given::Equals, joined_option(a)->Some_0.1 as usize)
    } else if attached_option(a) is Some {
        ArgForm::Joined(attached_option(a)->Some_0, Given::Attached, 2)
    } else if is_cluster(a) {
        ArgForm::Cluster
    } else {
        ArgForm::Operand
    }
}

// ---- meaning ----

/// The flags with a switch set.
pub open spec fn switched(f: Flags, s: Switch) -> Flags {
    match s {
        Switch::FixedStrings => Flags { fixed: true, ..f },
        Switch::InvertMatch => Flags { invert: true, ..f },
        Switch::WordRegexp => Flags { word: true, ..f },
        Switch::IgnoreCase => Flags { ignore_case: true, ..f },
        Switch::Quiet => Flags { quiet: true, ..f },
        Switch::Count => Flags { count: true, ..f },
        Switch::FilesOnly => Flags { files_only: true, ..f },
        Switch::Hidden => Flags { hidden: true, ..f },
        Switch::NoHidden => Flags { hidden: false, ..f },
        Switch::NoIgnore => Flags { no_ignore: true, ..f },
        Switch::Follow => Flags { follow: true, ..f },
        Switch::NoFollow => Flags { follow: false, ..f },
        Switch::Nothing => f,
    }
}

/// The flags with the switches of a cluster set, up to position `n`.
pub open spec fn clustered(f: Flags, a: Seq<char>, n: int) -> Flags
    decreases n,
{
    if n <= 1 {
        f
    } else {
        match cluster_switch(a[n - 1]) {
            Some(s) => switched(clustered(f, a, n - 1), s),
            None => clustered(f, a, n - 1),
        }
    }
}

/// How a fault names an option.
#[verifier::opaque]
pub open spec fn shown_flag(f: Valued, given: Given) -> Seq<char> {
    match f {
        Valued::Top => "--top"@,
        Valued::Port => "--port"@,
        Valued::Format => "--format"@,
        Valued::MaxFilesize => "--max-filesize"@,
        Valued::MaxCount => if given == Given::Attached {
            "-m"@
        } else {
            "--max-count"@
        },
        Valued::MaxDepth => if given == Given::Attached {
            "-d"@
        } else {
            "--max-depth"@
        },
        Valued::After => if given == Given::Equals {
            "--after-context"@
        } else {
            "-A"@
        },
        Valued::Before => if given == Given::Equals {
            "--before-context"@
        } else {
            "-B"@
        },
        Valued::Around => if given == Given::Equals {
            "--context"@
        } else {
            "-C"@
        },
        _ => Seq::empty(),
    }
}

/// A value that is not wanted.
pub open spec fn bad_value(f: Valued, given: Given, arg: Seq<char>, want: Want) -> CliFaultView {
    CliFaultView::BadValue { flag: shown_flag(f, given), arg, want }
}

/// The number that a value writes.
#[verifier::opaque]
pub open spec fn number_in(value: Seq<char>) -> Option<nat> {
    written_number(value, usize::MAX as nat)
}

/// The port number that a value writes.
#[verifier::opaque]
pub open spec fn port_in(value: Seq<char>) -> Option<nat> {
    written_number(value, 65535)
}

/// The size that a value writes.
#[verifier::opaque]
pub open spec fn size_in(value: Seq<char>) -> Option<nat> {
    size_of_text(value)
}

/// The limits with a number taken in.
pub open spec fn with_number(l: Limits, f: Valued, n: usize) -> Limits {
    match f {
        Valued::Top => Limits { top: Some(n), ..l },
        Valued::MaxCount => Limits { max_count: Some(n), ..l },
        Valued::MaxDepth => Limits { max_depth: Some(n), ..l },
        Valued::After => Limits { after: Some(n), ..l },
        Valued::Before => Limits { before: Some(n), ..l },
        Valued::Around => Limits { around: Some(n), ..l },
        _ => l,
    }
}

/// The options with one more pattern.
#[verifier::opaque]
pub open spec fn with_pattern(o: OptionsView, value: Seq<char>) -> OptionsView {
    OptionsView { patterns: o.patterns.push(value), flags: Flags { explicit_patterns: true, ..o.flags }, ..o }
}

/// The options with one more pattern file.
#[verifier::opaque]
pub open spec fn with_pattern_file(o: OptionsView, value: Seq<char>) -> OptionsView {
    OptionsView { pattern_files: o.pattern_files.push(value), flags: Flags { explicit_patterns: true, ..o.flags }, ..o }
}

/// The options with one more glob.
#[verifier::opaque]
pub open spec fn with_glob(o: OptionsView, value: Seq<char>) -> OptionsView {
    OptionsView { globs: o.globs.push(value), ..o }
}

/// The limits with a value taken in. `arg` is the argument that holds it.
#[verifier::opaque]
pub open spec fn with_limit(l: Limits, f: Valued, given: Given, value: Seq<char>, arg: Seq<char>) -> Result<
    Limits,
    CliFaultView,
> {
    match f {
        Valued::Port => match port_in(value) {
            Some(n) => Ok(Limits { port: Some(n as u16), ..l }),
            None => Err(bad_value(f, given, arg, Want::PortNumber)),
        },
        Valued::MaxFilesize => match size_in(value) {
            Some(n) => Ok(Limits { max_filesize: Some(n as u64), ..l }),
            None => Err(bad_value(f, given, arg, Want::Size)),
        },
        _ => match number_in(value) {
            Some(n) => Ok(with_number(l, f, n as usize)),
            None => Err(bad_value(f, given, arg, Want::Number)),
        },
    }
}

/// The options with a value taken in. `arg` is the argument that holds it.
#[verifier::opaque]
pub open spec fn with_value(o: OptionsView, f: Valued, given: Given, value: Seq<char>, arg: Seq<char>) -> Result<
    OptionsView,
    CliFaultView,
> {
    match f {
        Valued::Format => if value == "text"@ {
            Ok(OptionsView { flags: Flags { text_format: true, ..o.flags }, ..o })
        } else if value == "json"@ {
            Ok(OptionsView { flags: Flags { text_format: false, ..o.flags }, ..o })
        } else {
            Err(bad_value(f, given, arg, Want::Format))
        },
        Valued::UseIndex => Ok(OptionsView { use_index: Some(value), ..o }),
        Valued::Regexp => Ok(with_pattern(o, value)),
        Valued::File => Ok(with_pattern_file(o, value)),
        Valued::Glob => Ok(with_glob(o, value)),
        Valued::GroupSeparator => Ok(OptionsView { group_separator: value, ..o }),
        _ => match with_limit(o.limits, f, given, value, arg) {
            Ok(limits) => Ok(OptionsView { limits, ..o }),
            Err(e) => Err(e),
        },
    }
}

/// The options with the time to highlight set.
pub open spec fn colored(o: OptionsView, w: ColorWhen) -> OptionsView {
    OptionsView { flags: Flags { color: w, ..o.flags }, ..o }
}

/// The options with an operand added.
pub open spec fn with_operand(o: OptionsView, a: Seq<char>) -> OptionsView {
    OptionsView { operands: o.operands.push(a), ..o }
}

/// What an option argument adds to the options, and how many arguments it takes.
/// `next` is the argument behind it, where there is one.
#[verifier::opaque]
pub open spec fn option_step(o: OptionsView, a: Seq<char>, next: Option<Seq<char>>) -> Result<
    (OptionsView, int),
    CliFaultView,
> {
    match arg_form(a) {
        ArgForm::Valued(f) => match next {
            None => Err(CliFaultView::Usage),
            Some(v) => match with_value(o, f, Given::Separate, v, v) {
                Ok(n) => Ok((n, 2)),
                Err(e) => Err(e),
            },
        },
        ArgForm::Switch(s) => Ok((OptionsView { flags: switched(o.flags, s), ..o }, 1)),
        ArgForm::Color => match color_after(next) {
            Some(w) => Ok((colored(o, w), 2)),
            None => Ok((colored(o, ColorWhen::Always), 1)),
        },
        ArgForm::ColorJoined(n) => match color_named(a.skip(n as int)) {
            Some(w) => Ok((colored(o, w), 1)),
            None => Err(CliFaultView::BadValue { flag: "--color"@, arg: a, want: Want::Color }),
        },
        ArgForm::Unsupported => Err(CliFaultView::Unsupported(a)),
        ArgForm::Joined(f, given, n) => match with_value(o, f, given, a.skip(n as int), a) {
            Ok(n) => Ok((n, 1)),
            Err(e) => Err(e),
        },
        ArgForm::Cluster => Ok((OptionsView { flags: clustered(o.flags, a, a.len() as int), ..o }, 1)),
        ArgForm::Operand => Ok((with_operand(o, a), 1)),
    }
}

/// The time to highlight that the next argument names, if it names one.
pub open spec fn color_after(next: Option<Seq<char>>) -> Option<ColorWhen> {
    match next {
        Some(v) => color_named(v),
        None => None,
    }
}

/// The argument behind position `i`.
pub open spec fn next_arg(args: Seq<Seq<char>>, i: int) -> Option<Seq<char>> {
    if i + 1 < args.len() {
        Some(args[i + 1])
    } else {
        None
    }
}

/// What the arguments from position `i` on add to the options; behind `--` every
/// argument is an operand.
pub open spec fn parsed_from(args: Seq<Seq<char>>, i: int, o: OptionsView, ended: bool) -> Result<
    OptionsView,
    CliFaultView,
>
    decreases args.len() - i,
{
    if i < 0 || i >= args.len() {
        Ok(o)
    } else if ended {
        parsed_from(args, i + 1, with_operand(o, args[i]), true)
    } else if args[i] == "--"@ {
        parsed_from(args, i + 1, o, true)
    } else {
        match option_step(o, args[i], next_arg(args, i)) {
            Err(e) => Err(e),
            Ok((n, k)) => if 1 <= k <= args.len() - i {
                parsed_from(args, i + k, n, false)
            } else {
                Ok(n)
            },
        }
    }
}

/// What the arguments of a search ask for.
pub open spec fn parsed(args: Seq<Seq<char>>) -> Result<OptionsView, CliFaultView> {
    parsed_from(args, 0, no_options(), false)
}

// ---- reading ----

/// The length of `prefix` when `a` begins with it.
fn prefix_len(a: &str, prefix: &str) -> (n: Option<usize>)
    ensures
        match n {
            Some(k) => prefix@.is_prefix_of(a@) && k == prefix@.len() && k <= a@.len(),
            None => !prefix@.is_prefix_of(a@),
        },
{
    let x: Vec<char> = chars_of(a);
    let p: Vec<char> = chars_of(prefix);
    if p.len() > x.len() {
        return None;
    }
    let mut k: usize = 0;
    while k < p.len()
        invariant
            k <= p@.len() <= x@.len(),
            x@ == a@,
            p@ == prefix@,
            forall|j: int| 0 <= j < k ==> p@[j] == x@[j],
        decreases p@.len() - k,
    {
        if p[k] != x[k] {
            assert(a@.subrange(0, prefix@.len() as int)[k as int] != prefix@[k as int]);
            return None;
        }
        k = k + 1;
    }
    assert(prefix@ =~= a@.subrange(0, prefix@.len() as int));
    Some(k)
}

fn find_valued(a: &str) -> (v: Option<Valued>)
    ensures
        v == valued_option(a@),
{
    if same_text(a, "--top") {
        return Some(Valued::Top);
    }
    if same_text(a, "--use-index") {
        return Some(Valued::UseIndex);
    }
    if same_text(a, "--format") {
        return Some(Valued::Format);
    }
    if same_text(a, "--port") {
        return Some(Valued::Port);
    }
    if same_text(a, "-m") || same_text(a, "--max-count") {
        return Some(Valued::MaxCount);
    }
    if same_text(a, "-e") || same_text(a, "--regexp") {
        return Some(Valued::Regexp);
    }
    if same_text(a, "-f") || same_text(a, "--file") {
        return Some(Valued::File);
    }
    if same_text(a, "-g") || same_text(a, "--glob") {
        return Some(Valued::Glob);
    }
    if same_text(a, "-d") || same_text(a, "--max-depth") {
        return Some(Valued::MaxDepth);
    }
    if same_text(a, "--max-filesize") {
        return Some(Valued::MaxFilesize);
    }
    if same_text(a, "-A") || same_text(a, "--after-context") {
        return Some(Valued::After);
    }
    if same_text(a, "-B") || same_text(a, "--before-context") {
        return Some(Valued::Before);
    }
    if same_text(a, "-C") || same_text(a, "--context") {
        return Some(Valued::Around);
    }
    if same_text(a, "--group-separator") {
        return Some(Valued::GroupSeparator);
    }
    None
}

fn find_switch(a: &str) -> (v: Option<Switch>)
    ensures
        v == switch_option(a@),
{
    if same_text(a, "-F") || same_text(a, "--fixed-strings") {
        return Some(Switch::FixedStrings);
    }
    if same_text(a, "-v") || same_text(a, "--invert-match") {
        return Some(Switch::InvertMatch);
    }
    if same_text(a, "-w") || same_text(a, "--word-regexp") {
        return Some(Switch::WordRegexp);
    }
    if same_text(a, "-i") || same_text(a, "--ignore-case") {
        return Some(Switch::IgnoreCase);
    }
    if same_text(a, "-q") || same_text(a, "--quiet") || same_text(a, "--silent") {
        return Some(Switch::Quiet);
    }
    if same_text(a, "-c") || same_text(a, "--count") {
        return Some(Switch::Count);
    }
    if same_text(a, "-l") || same_text(a, "--files-with-matches") {
        return Some(Switch::FilesOnly);
    }
    if same_text(a, "--hidden") || same_text(a, "-.") {
        return Some(Switch::Hidden);
    }
    if same_text(a, "--no-hidden") {
        return Some(Switch::NoHidden);
    }
    if same_text(a, "--no-ignore") {
        return Some(Switch::NoIgnore);
    }
    if same_text(a, "-L") || same_text(a, "--follow") {
        return Some(Switch::Follow);
    }
    if same_text(a, "--no-follow") {
        return Some(Switch::NoFollow);
    }
    if same_text(a, "--no-pcre2") || same_text(a, "--no-encoding") {
        return Some(Switch::Nothing);
    }
    None
}

fn find_unsupported(a: &str) -> (b: bool)
    ensures
        b == is_unsupported(a@),
{
    same_text(a, "-x") || same_text(a, "--line-regexp") || same_text(a, "-P") || same_text(a, "--pcre2") || same_text(a, "-E") || same_text(a, "--encoding") || same_text(a, "-G")
}

fn find_joined(a: &str) -> (v: Option<(Valued, usize)>)
    ensures
        match v {
            Some((f, n)) => joined_option(a@) == Some((f, n as int)) && n <= a@.len(),
            None => joined_option(a@) is None,
        },
{
    if let Some(n) = prefix_len(a, "--top=") {
        return Some((Valued::Top, n));
    }
    if let Some(n) = prefix_len(a, "--format=") {
        return Some((Valued::Format, n));
    }
    if let Some(n) = prefix_len(a, "--port=") {
        return Some((Valued::Port, n));
    }
    if let Some(n) = prefix_len(a, "--max-count=") {
        return Some((Valued::MaxCount, n));
    }
    if let Some(n) = prefix_len(a, "--regexp=") {
        return Some((Valued::Regexp, n));
    }
    if let Some(n) = prefix_len(a, "--file=") {
        return Some((Valued::File, n));
    }
    if let Some(n) = prefix_len(a, "--glob=") {
        return Some((Valued::Glob, n));
    }
    if let Some(n) = prefix_len(a, "--max-depth=") {
        return Some((Valued::MaxDepth, n));
    }
    if let Some(n) = prefix_len(a, "--max-filesize=") {
        return Some((Valued::MaxFilesize, n));
    }
    if let Some(n) = prefix_len(a, "--after-context=") {
        return Some((Valued::After, n));
    }
    if let Some(n) = prefix_len(a, "--before-context=") {
        return Some((Valued::Before, n));
    }
    if let Some(n) = prefix_len(a, "--context=") {
        return Some((Valued::Around, n));
    }
    if let Some(n) = prefix_len(a, "--group-separator=") {
        return Some((Valued::GroupSeparator, n));
    }
    None
}

fn find_attached(a: &[char]) -> (v: Option<Valued>)
    ensures
        v == attached_option(a@),
{
    if a.len() <= 2 || a[0] != '-' || a[1] == '-' {
        return None;
    }
    match a[1] {
        'm' => Some(Valued::MaxCount),
        'g' => Some(Valued::Glob),
        'd' => Some(Valued::MaxDepth),
        'A' => Some(Valued::After),
        'B' => Some(Valued::Before),
        'C' => Some(Valued::Around),
        _ => None,
    }
}

fn find_cluster_switch(c: char) -> (s: Option<Switch>)
    ensures
        s == cluster_switch(c),
{
    match c {
        'i' => Some(Switch::IgnoreCase),
        'q' => Some(Switch::Quiet),
        'c' => Some(Switch::Count),
        'l' => Some(Switch::FilesOnly),
        'F' => Some(Switch::FixedStrings),
        'v' => Some(Switch::InvertMatch),
        'w' => Some(Switch::WordRegexp),
        _ => None,
    }
}

fn find_cluster(a: &[char]) -> (b: bool)
    ensures
        b == is_cluster(a@),
{
    if a.len() <= 1 || a[0] != '-' || a[1] == '-' {
        return false;
    }
    let mut k: usize = 1;
    while k < a.len()
        invariant
            1 <= k <= a@.len(),
            forall|j: int| 1 <= j < k ==> cluster_switch(#[trigger] a@[j]) is Some,
        decreases a@.len() - k,
    {
        if find_cluster_switch(a[k]).is_none() {
            assert(cluster_switch(a@[k as int]) is None);
            return false;
        }
        k = k + 1;
    }
    true
}

/// Tell what an argument is.
fn form_of(a: &str) -> (f: ArgForm)
    ensures
        f == arg_form(a@),
        f matches ArgForm::Joined(_, _, n) ==> n <= a@.len(),
        f matches ArgForm::ColorJoined(n) ==> n <= a@.len(),
        f is Cluster ==> a@.len() > 1,
{
    reveal(arg_form);
    if let Some(v) = find_valued(a) {
        return ArgForm::Valued(v);
    }
    if let Some(s) = find_switch(a) {
        return ArgForm::Switch(s);
    }
    if same_text(a, "--color") {
        return ArgForm::Color;
    }
    if let Some(n) = prefix_len(a, "--color=") {
        return ArgForm::ColorJoined(n);
    }
    if find_unsupported(a) {
        return ArgForm::Unsupported;
    }
    if let Some((v, n)) = find_joined(a) {
        return ArgForm::Joined(v, Given::Equals, n);
    }
    let chars: Vec<char> = chars_of(a);
    if let Some(v) = find_attached(&chars) {
        return ArgForm::Joined(v, Given::Attached, 2);
    }
    if find_cluster(&chars) {
        return ArgForm::Cluster;
    }
    ArgForm::Operand
}

/// The text from position `n` on.
fn text_from(a: &str, n: usize) -> (s: String)
    requires
        n <= a@.len(),
    ensures
        s@ == a@.skip(n as int),
{
    let chars: Vec<char> = chars_of(a);
    let size: usize = chars.len();
    let s: String = string_of(&chars[n..size]);
    assert(s@ =~= a@.skip(n as int));
    s
}

fn read_number(value: &str) -> (n: Option<usize>)
    ensures
        match n {
            Some(k) => number_in(value@) == Some(k as nat),
            None => number_in(value@) is None,
        },
{
    reveal(number_in);
    let chars: Vec<char> = chars_of(value);
    match parse_number(&chars, usize::MAX as u64) {
        Some(n) => Some(n as usize),
        None => None,
    }
}

/// Read a port number.
pub fn read_port(value: &str) -> (n: Option<u16>)
    ensures
        match n {
            Some(k) => port_in(value@) == Some(k as nat),
            None => port_in(value@) is None,
        },
{
    reveal(port_in);
    let chars: Vec<char> = chars_of(value);
    match parse_number(&chars, 65535) {
        Some(n) => Some(n as u16),
        None => None,
    }
}

fn read_size(value: &str) -> (n: Option<u64>)
    ensures
        match n {
            Some(k) => size_in(value@) == Some(k as nat),
            None => size_in(value@) is None,
        },
{
    reveal(size_in);
    parse_filesize(value)
}

fn flag_text(f: Valued, given: Given) -> (s: String)
    ensures
        s@ == shown_flag(f, given),
{
    reveal(shown_flag);
    let attached: bool = given == Given::Attached;
    let equals: bool = given == Given::Equals;
    let name: &str = match f {
        Valued::Top => "--top",
        Valued::Port => "--port",
        Valued::Format => "--format",
        Valued::MaxFilesize => "--max-filesize",
        Valued::MaxCount => if attached { "-m" } else { "--max-count" },
        Valued::MaxDepth => if attached { "-d" } else { "--max-depth" },
        Valued::After => if equals { "--after-context" } else { "-A" },
        Valued::Before => if equals { "--before-context" } else { "-B" },
        Valued::Around => if equals { "--context" } else { "-C" },
        _ => {
            let none: String = String::new();
            assert(none@ =~= Seq::empty());
            return none;
        },
    };
    name.to_owned()
}

fn refuse_value(f: Valued, given: Given, arg: &str, want: Want) -> (e: CliFault)
    ensures
        e@ == bad_value(f, given, arg@, want),
{
    CliFault::BadValue { flag: flag_text(f, given), arg: arg.to_owned(), want }
}

/// Set a switch.
fn set_switch(f: Flags, s: Switch) -> (out: Flags)
    ensures
        out == switched(f, s),
{
    let mut out: Flags = f;
    match s {
        Switch::FixedStrings => out.fixed = true,
        Switch::InvertMatch => out.invert = true,
        Switch::WordRegexp => out.word = true,
        Switch::IgnoreCase => out.ignore_case = true,
        Switch::Quiet => out.quiet = true,
        Switch::Count => out.count = true,
        Switch::FilesOnly => out.files_only = true,
        Switch::Hidden => out.hidden = true,
        Switch::NoHidden => out.hidden = false,
        Switch::NoIgnore => out.no_ignore = true,
        Switch::Follow => out.follow = true,
        Switch::NoFollow => out.follow = false,
        Switch::Nothing => {},
    }
    out
}

/// Set the switches of a cluster.
fn set_cluster(f: Flags, a: &[char]) -> (out: Flags)
    requires
        a@.len() >= 1,
    ensures
        out == clustered(f, a@, a@.len() as int),
{
    let mut out: Flags = f;
    let mut k: usize = 1;
    while k < a.len()
        invariant
            1 <= k <= a@.len(),
            out == clustered(f, a@, k as int),
        decreases a@.len() - k,
    {
        if let Some(s) = find_cluster_switch(a[k]) {
            out = set_switch(out, s);
        }
        k = k + 1;
    }
    out
}

/// Take in a number.
fn set_number(l: Limits, f: Valued, n: usize) -> (out: Limits)
    ensures
        out == with_number(l, f, n),
{
    let mut out: Limits = l;
    match f {
        Valued::Top => out.top = Some(n),
        Valued::MaxCount => out.max_count = Some(n),
        Valued::MaxDepth => out.max_depth = Some(n),
        Valued::After => out.after = Some(n),
        Valued::Before => out.before = Some(n),
        Valued::Around => out.around = Some(n),
        _ => {},
    }
    out
}

impl Options {
    /// What no argument asks for.
    pub fn new() -> (o: Self)
        ensures
            o@ == no_options(),
    {
        let flags: Flags = Flags {
            ignore_case: false,
            quiet: false,
            count: false,
            files_only: false,
            text_format: false,
            color: ColorWhen::Auto,
            hidden: false,
            no_ignore: false,
            follow: false,
            explicit_patterns: false,
            fixed: false,
            invert: false,
            word: false,
        };
        let limits: Limits = Limits {
            top: None,
            port: None,
            max_depth: None,
            max_filesize: None,
            after: None,
            before: None,
            around: None,
            max_count: None,
        };
        let o: Options = Options {
            flags,
            limits,
            use_index: None,
            globs: Vec::new(),
            patterns: Vec::new(),
            pattern_files: Vec::new(),
            group_separator: "--".to_owned(),
            operands: Vec::new(),
        };
        assert(views(o.globs@) =~= Seq::empty());
        assert(views(o.patterns@) =~= Seq::empty());
        assert(views(o.pattern_files@) =~= Seq::empty());
        assert(views(o.operands@) =~= Seq::empty());
        o
    }
}

/// Add a text to a list.
fn push_owned(list: Vec<String>, s: &str) -> (out: Vec<String>)
    ensures
        views(out@) == views(list@).push(s@),
{
    let mut out: Vec<String> = list;
    let ghost had = views(out@);
    out.push(s.to_owned());
    assert(views(out@) =~= had.push(s@));
    out
}

/// Add a pattern.
fn add_pattern(o: Options, value: &str) -> (p: Options)
    ensures
        p@ == with_pattern(o@, value@),
{
    reveal(with_pattern);
    let flags: Flags = Flags { explicit_patterns: true, ..o.flags };
    let patterns: Vec<String> = push_owned(o.patterns, value);
    Options { flags, patterns, ..o }
}

/// Add a pattern file.
fn add_pattern_file(o: Options, value: &str) -> (p: Options)
    ensures
        p@ == with_pattern_file(o@, value@),
{
    reveal(with_pattern_file);
    let flags: Flags = Flags { explicit_patterns: true, ..o.flags };
    let pattern_files: Vec<String> = push_owned(o.pattern_files, value);
    Options { flags, pattern_files, ..o }
}

/// Add a glob.
fn add_glob(o: Options, value: &str) -> (p: Options)
    ensures
        p@ == with_glob(o@, value@),
{
    reveal(with_glob);
    let globs: Vec<String> = push_owned(o.globs, value);
    Options { globs, ..o }
}

/// Take in a limit.
fn set_limit(l: Limits, f: Valued, given: Given, value: &str, arg: &str) -> (res: Result<Limits, CliFault>)
    ensures
        match with_limit(l, f, given, value@, arg@) {
            Ok(n) => res matches Ok(p) && p == n,
            Err(e) => res matches Err(g) && g@ == e,
        },
{
    reveal(with_limit);
    match f {
        Valued::Port => match read_port(value) {
            Some(n) => Ok(Limits { port: Some(n), ..l }),
            None => Err(refuse_value(f, given, arg, Want::PortNumber)),
        },
        Valued::MaxFilesize => match read_size(value) {
            Some(n) => Ok(Limits { max_filesize: Some(n), ..l }),
            None => Err(refuse_value(f, given, arg, Want::Size)),
        },
        _ => match read_number(value) {
            Some(n) => Ok(set_number(l, f, n)),
            None => Err(refuse_value(f, given, arg, Want::Number)),
        },
    }
}

/// Take in a value.
fn set_value(o: Options, f: Valued, given: Given, value: &str, arg: &str) -> (res: Result<Options, CliFault>)
    ensures
        match with_value(o@, f, given, value@, arg@) {
            Ok(n) => res matches Ok(p) && p@ == n,
            Err(e) => res matches Err(g) && g@ == e,
        },
{
    reveal(with_value);
    match f {
        Valued::Format => {
            let text: bool = same_text(value, "text");
            if text || same_text(value, "json") {
                let flags: Flags = Flags { text_format: text, ..o.flags };
                Ok(Options { flags, ..o })
            } else {
                Err(refuse_value(f, given, arg, Want::Format))
            }
        },
        Valued::UseIndex => Ok(Options { use_index: Some(value.to_owned()), ..o }),
        Valued::Regexp => Ok(add_pattern(o, value)),
        Valued::File => Ok(add_pattern_file(o, value)),
        Valued::Glob => Ok(add_glob(o, value)),
        Valued::GroupSeparator => Ok(Options { group_separator: value.to_owned(), ..o }),
        _ => match set_limit(o.limits, f, given, value, arg) {
            Ok(limits) => Ok(Options { limits, ..o }),
            Err(e) => Err(e),
        },
    }
}

/// Take in an option argument; how many arguments it takes.
fn take_option(o: Options, a: &str, next: Option<&str>) -> (res: Result<(Options, usize), CliFault>)
    ensures
        match option_step(o@, a@, text_view(next)) {
            Ok((n, k)) => res matches Ok((p, j)) && p@ == n && j == k && 1 <= k <= 2 && (k == 2 ==> next is Some),
            Err(e) => res matches Err(f) && f@ == e,
        },
{
    reveal(option_step);
    match form_of(a) {
        ArgForm::Valued(f) => match next {
            None => Err(CliFault::Usage),
            Some(v) => match set_value(o, f, Given::Separate, v, v) {
                Err(e) => Err(e),
                Ok(p) => Ok((p, 2)),
            },
        },
        ArgForm::Switch(s) => {
            let flags: Flags = set_switch(o.flags, s);
            Ok((Options { flags, ..o }, 1))
        },
        ArgForm::Color => {
            let named: Option<ColorWhen> = match next {
                Some(v) => parse_color_when(v),
                None => None,
            };
            match named {
                Some(color) => {
                    let flags: Flags = Flags { color, ..o.flags };
                    Ok((Options { flags, ..o }, 2))
                },
                None => {
                    let flags: Flags = Flags { color: ColorWhen::Always, ..o.flags };
                    Ok((Options { flags, ..o }, 1))
                },
            }
        },
        ArgForm::ColorJoined(n) => {
            let v: String = text_from(a, n);
            match parse_color_when(v.as_str()) {
                Some(color) => {
                    let flags: Flags = Flags { color, ..o.flags };
                    Ok((Options { flags, ..o }, 1))
                },
                None => Err(CliFault::BadValue { flag: "--color".to_owned(), arg: a.to_owned(), want: Want::Color }),
            }
        },
        ArgForm::Unsupported => Err(CliFault::Unsupported(a.to_owned())),
        ArgForm::Joined(f, given, n) => {
            let v: String = text_from(a, n);
            match set_value(o, f, given, v.as_str(), a) {
                Err(e) => Err(e),
                Ok(p) => Ok((p, 1)),
            }
        },
        ArgForm::Cluster => {
            let chars: Vec<char> = chars_of(a);
            let flags: Flags = set_cluster(o.flags, &chars);
            Ok((Options { flags, ..o }, 1))
        },
        ArgForm::Operand => Ok((Options { operands: push_owned(o.operands, a), ..o }, 1)),
    }
}

/// A text that may be missing.
pub open spec fn text_view(s: Option<&str>) -> Option<Seq<char>> {
    match s {
        Some(t) => Some(t@),
        None => None,
    }
}

/// Read the arguments of a search.
pub fn parse_args(args: &[String]) -> (res: Result<Options, CliFault>)
    ensures
        match res {
            Ok(o) => parsed(views(args@)) == Ok::<OptionsView, CliFaultView>(o@),
            Err(e) => parsed(views(args@)) == Err::<OptionsView, CliFaultView>(e@),
        },
{
    let mut o: Options = Options::new();
    let ghost all = views(args@);
    let size: usize = args.len();
    let mut ended: bool = false;
    let mut i: usize = 0;
    while i < args.len()
        invariant
            i <= args@.len(),
            size == args@.len(),
            all == views(args@),
            parsed_from(all, i as int, o@, ended) == parsed(all),
        decreases args@.len() - i,
    {
        let a: &str = args[i].as_str();
        assert(all[i as int] == a@);
        if ended {
            o = Options { operands: push_owned(o.operands, a), ..o };
            i = i + 1;
        } else if same_text(a, "--") {
            ended = true;
            i = i + 1;
        } else {
            let next: Option<&str> = if size - i >= 2 {
                Some(args[i + 1].as_str())
            } else {
                None
            };
            assert(text_view(next) == next_arg(all, i as int)) by {
                if i + 1 < size {
                    assert(all[i + 1] == args@[i + 1]@);
                }
            }
            match take_option(o, a, next) {
                Err(e) => return Err(e),
                Ok((p, k)) => {
                    o = p;
                    i = i + k;
                },
            }
        }
    }
    Ok(o)
}

// ---- what the arguments mean ----

/// What tells the names of options apart: their length and their first, second, third and
/// seventh letters.
proof fn lemma_letters_of_options()
    ensures
        "-F"@.len() == 2 && "-F"@[0] == '-' && "-F"@[1] == 'F',
        "--fixed-strings"@.len() == 15 && "--fixed-strings"@[0] == '-' && "--fixed-strings"@[1] == '-' && "--fixed-strings"@[2] == 'f' && "--fixed-strings"@[6] == 'd',
        "-v"@.len() == 2 && "-v"@[0] == '-' && "-v"@[1] == 'v',
        "--invert-match"@.len() == 14 && "--invert-match"@[0] == '-' && "--invert-match"@[1] == '-' && "--invert-match"@[2] == 'i' && "--invert-match"@[6] == 'r',
        "-w"@.len() == 2 && "-w"@[0] == '-' && "-w"@[1] == 'w',
        "--word-regexp"@.len() == 13 && "--word-regexp"@[0] == '-' && "--word-regexp"@[1] == '-' && "--word-regexp"@[2] == 'w' && "--word-regexp"@[6] == '-',
        "-i"@.len() == 2 && "-i"@[0] == '-' && "-i"@[1] == 'i',
        "--ignore-case"@.len() == 13 && "--ignore-case"@[0] == '-' && "--ignore-case"@[1] == '-' && "--ignore-case"@[2] == 'i' && "--ignore-case"@[6] == 'r',
        "-q"@.len() == 2 && "-q"@[0] == '-' && "-q"@[1] == 'q',
        "--quiet"@.len() == 7 && "--quiet"@[0] == '-' && "--quiet"@[1] == '-' && "--quiet"@[2] == 'q' && "--quiet"@[6] == 't',
        "--silent"@.len() == 8 && "--silent"@[0] == '-' && "--silent"@[1] == '-' && "--silent"@[2] == 's' && "--silent"@[6] == 'n',
        "-c"@.len() == 2 && "-c"@[0] == '-' && "-c"@[1] == 'c',
        "--count"@.len() == 7 && "--count"@[0] == '-' && "--count"@[1] == '-' && "--count"@[2] == 'c' && "--count"@[6] == 't',
        "-l"@.len() == 2 && "-l"@[0] == '-' && "-l"@[1] == 'l',
        "--files-with-matches"@.len() == 20 && "--files-with-matches"@[0] == '-' && "--files-with-matches"@[1] == '-' && "--files-with-matches"@[2] == 'f' && "--files-with-matches"@[6] == 's',
        "--hidden"@.len() == 8 && "--hidden"@[0] == '-' && "--hidden"@[1] == '-' && "--hidden"@[2] == 'h' && "--hidden"@[6] == 'e',
        "-."@.len() == 2 && "-."@[0] == '-' && "-."@[1] == '.',
        "--no-hidden"@.len() == 11 && "--no-hidden"@[0] == '-' && "--no-hidden"@[1] == '-' && "--no-hidden"@[2] == 'n' && "--no-hidden"@[6] == 'i',
        "--no-ignore"@.len() == 11 && "--no-ignore"@[0] == '-' && "--no-ignore"@[1] == '-' && "--no-ignore"@[2] == 'n' && "--no-ignore"@[6] == 'g',
        "-L"@.len() == 2 && "-L"@[0] == '-' && "-L"@[1] == 'L',
        "--follow"@.len() == 8 && "--follow"@[0] == '-' && "--follow"@[1] == '-' && "--follow"@[2] == 'f' && "--follow"@[6] == 'o',
        "--no-follow"@.len() == 11 && "--no-follow"@[0] == '-' && "--no-follow"@[1] == '-' && "--no-follow"@[2] == 'n' && "--no-follow"@[6] == 'o',
        "--no-pcre2"@.len() == 10 && "--no-pcre2"@[0] == '-' && "--no-pcre2"@[1] == '-' && "--no-pcre2"@[2] == 'n' && "--no-pcre2"@[6] == 'c',
        "--no-encoding"@.len() == 13 && "--no-encoding"@[0] == '-' && "--no-encoding"@[1] == '-' && "--no-encoding"@[2] == 'n' && "--no-encoding"@[6] == 'n',
        "--top"@.len() == 5 && "--top"@[0] == '-' && "--top"@[1] == '-' && "--top"@[2] == 't',
        "--use-index"@.len() == 11 && "--use-index"@[0] == '-' && "--use-index"@[1] == '-' && "--use-index"@[2] == 'u' && "--use-index"@[6] == 'i',
        "--format"@.len() == 8 && "--format"@[0] == '-' && "--format"@[1] == '-' && "--format"@[2] == 'f' && "--format"@[6] == 'a',
        "--port"@.len() == 6 && "--port"@[0] == '-' && "--port"@[1] == '-' && "--port"@[2] == 'p',
        "-m"@.len() == 2 && "-m"@[0] == '-' && "-m"@[1] == 'm',
        "--max-count"@.len() == 11 && "--max-count"@[0] == '-' && "--max-count"@[1] == '-' && "--max-count"@[2] == 'm' && "--max-count"@[6] == 'c',
        "-e"@.len() == 2 && "-e"@[0] == '-' && "-e"@[1] == 'e',
        "--regexp"@.len() == 8 && "--regexp"@[0] == '-' && "--regexp"@[1] == '-' && "--regexp"@[2] == 'r' && "--regexp"@[6] == 'x',
        "-f"@.len() == 2 && "-f"@[0] == '-' && "-f"@[1] == 'f',
        "--file"@.len() == 6 && "--file"@[0] == '-' && "--file"@[1] == '-' && "--file"@[2] == 'f',
        "-g"@.len() == 2 && "-g"@[0] == '-' && "-g"@[1] == 'g',
        "--glob"@.len() == 6 && "--glob"@[0] == '-' && "--glob"@[1] == '-' && "--glob"@[2] == 'g',
        "-d"@.len() == 2 && "-d"@[0] == '-' && "-d"@[1] == 'd',
        "--max-depth"@.len() == 11 && "--max-depth"@[0] == '-' && "--max-depth"@[1] == '-' && "--max-depth"@[2] == 'm' && "--max-depth"@[6] == 'd',
        "--max-filesize"@.len() == 14 && "--max-filesize"@[0] == '-' && "--max-filesize"@[1] == '-' && "--max-filesize"@[2] == 'm' && "--max-filesize"@[6] == 'f',
        "-A"@.len() == 2 && "-A"@[0] == '-' && "-A"@[1] == 'A',
        "--after-context"@.len() == 15 && "--after-context"@[0] == '-' && "--after-context"@[1] == '-' && "--after-context"@[2] == 'a' && "--after-context"@[6] == 'r',
        "-B"@.len() == 2 && "-B"@[0] == '-' && "-B"@[1] == 'B',
        "--before-context"@.len() == 16 && "--before-context"@[0] == '-' && "--before-context"@[1] == '-' && "--before-context"@[2] == 'b' && "--before-context"@[6] == 'r',
        "-C"@.len() == 2 && "-C"@[0] == '-' && "-C"@[1] == 'C',
        "--context"@.len() == 9 && "--context"@[0] == '-' && "--context"@[1] == '-' && "--context"@[2] == 'c' && "--context"@[6] == 'e',
        "--group-separator"@.len() == 17 && "--group-separator"@[0] == '-' && "--group-separator"@[1] == '-' && "--group-separator"@[2] == 'g' && "--group-separator"@[6] == 'p',
        "-x"@.len() == 2 && "-x"@[0] == '-' && "-x"@[1] == 'x',
        "--line-regexp"@.len() == 13 && "--line-regexp"@[0] == '-' && "--line-regexp"@[1] == '-' && "--line-regexp"@[2] == 'l' && "--line-regexp"@[6] == '-',
        "-P"@.len() == 2 && "-P"@[0] == '-' && "-P"@[1] == 'P',
        "--pcre2"@.len() == 7 && "--pcre2"@[0] == '-' && "--pcre2"@[1] == '-' && "--pcre2"@[2] == 'p' && "--pcre2"@[6] == '2',
        "-E"@.len() == 2 && "-E"@[0] == '-' && "-E"@[1] == 'E',
        "--encoding"@.len() == 10 && "--encoding"@[0] == '-' && "--encoding"@[1] == '-' && "--encoding"@[2] == 'e' && "--encoding"@[6] == 'd',
        "-G"@.len() == 2 && "-G"@[0] == '-' && "-G"@[1] == 'G',
        "--color"@.len() == 7 && "--color"@[0] == '-' && "--color"@[1] == '-' && "--color"@[2] == 'c' && "--color"@[6] == 'r',
        "--top="@.len() == 6 && "--top="@[0] == '-' && "--top="@[1] == '-' && "--top="@[2] == 't',
        "--format="@.len() == 9 && "--format="@[0] == '-' && "--format="@[1] == '-' && "--format="@[2] == 'f' && "--format="@[6] == 'a',
        "--port="@.len() == 7 && "--port="@[0] == '-' && "--port="@[1] == '-' && "--port="@[2] == 'p' && "--port="@[6] == '=',
        "--max-count="@.len() == 12 && "--max-count="@[0] == '-' && "--max-count="@[1] == '-' && "--max-count="@[2] == 'm' && "--max-count="@[6] == 'c',
        "--regexp="@.len() == 9 && "--regexp="@[0] == '-' && "--regexp="@[1] == '-' && "--regexp="@[2] == 'r' && "--regexp="@[6] == 'x',
        "--file="@.len() == 7 && "--file="@[0] == '-' && "--file="@[1] == '-' && "--file="@[2] == 'f' && "--file="@[6] == '=',
        "--glob="@.len() == 7 && "--glob="@[0] == '-' && "--glob="@[1] == '-' && "--glob="@[2] == 'g' && "--glob="@[6] == '=',
        "--max-depth="@.len() == 12 && "--max-depth="@[0] == '-' && "--max-depth="@[1] == '-' && "--max-depth="@[2] == 'm' && "--max-depth="@[6] == 'd',
        "--max-filesize="@.len() == 15 && "--max-filesize="@[0] == '-' && "--max-filesize="@[1] == '-' && "--max-filesize="@[2] == 'm' && "--max-filesize="@[6] == 'f',
        "--after-context="@.len() == 16 && "--after-context="@[0] == '-' && "--after-context="@[1] == '-' && "--after-context="@[2] == 'a' && "--after-context="@[6] == 'r',
        "--before-context="@.len() == 17 && "--before-context="@[0] == '-' && "--before-context="@[1] == '-' && "--before-context="@[2] == 'b' && "--before-context="@[6] == 'r',
        "--context="@.len() == 10 && "--context="@[0] == '-' && "--context="@[1] == '-' && "--context="@[2] == 'c' && "--context="@[6] == 'e',
        "--group-separator="@.len() == 18 && "--group-separator="@[0] == '-' && "--group-separator="@[1] == '-' && "--group-separator="@[2] == 'g' && "--group-separator="@[6] == 'p',
        "--color="@.len() == 8 && "--color="@[0] == '-' && "--color="@[1] == '-' && "--color="@[2] == 'c' && "--color="@[6] == 'r',
        "--"@.len() == 2 && "--"@[0] == '-' && "--"@[1] == '-',
{
    reveal_strlit("-F");
    reveal_strlit("--fixed-strings");
    reveal_strlit("-v");
    reveal_strlit("--invert-match");
    reveal_strlit("-w");
    reveal_strlit("--word-regexp");
    reveal_strlit("-i");
    reveal_strlit("--ignore-case");
    reveal_strlit("-q");
    reveal_strlit("--quiet");
    reveal_strlit("--silent");
    reveal_strlit("-c");
    reveal_strlit("--count");
    reveal_strlit("-l");
    reveal_strlit("--files-with-matches");
    reveal_strlit("--hidden");
    reveal_strlit("-.");
    reveal_strlit("--no-hidden");
    reveal_strlit("--no-ignore");
    reveal_strlit("-L");
    reveal_strlit("--follow");
    reveal_strlit("--no-follow");
    reveal_strlit("--no-pcre2");
    reveal_strlit("--no-encoding");
    reveal_strlit("--top");
    reveal_strlit("--use-index");
    reveal_strlit("--format");
    reveal_strlit("--port");
    reveal_strlit("-m");
    reveal_strlit("--max-count");
    reveal_strlit("-e");
    reveal_strlit("--regexp");
    reveal_strlit("-f");
    reveal_strlit("--file");
    reveal_strlit("-g");
    reveal_strlit("--glob");
    reveal_strlit("-d");
    reveal_strlit("--max-depth");
    reveal_strlit("--max-filesize");
    reveal_strlit("-A");
    reveal_strlit("--after-context");
    reveal_strlit("-B");
    reveal_strlit("--before-context");
    reveal_strlit("-C");
    reveal_strlit("--context");
    reveal_strlit("--group-separator");
    reveal_strlit("-x");
    reveal_strlit("--line-regexp");
    reveal_strlit("-P");
    reveal_strlit("--pcre2");
    reveal_strlit("-E");
    reveal_strlit("--encoding");
    reveal_strlit("-G");
    reveal_strlit("--color");
    reveal_strlit("--top=");
    reveal_strlit("--format=");
    reveal_strlit("--port=");
    reveal_strlit("--max-count=");
    reveal_strlit("--regexp=");
    reveal_strlit("--file=");
    reveal_strlit("--glob=");
    reveal_strlit("--max-depth=");
    reveal_strlit("--max-filesize=");
    reveal_strlit("--after-context=");
    reveal_strlit("--before-context=");
    reveal_strlit("--context=");
    reveal_strlit("--group-separator=");
    reveal_strlit("--color=");
    reveal_strlit("--");
}

/// Every name is read as its own option.
proof fn lemma_names_of_switches()
    ensures
        arg_form("-F"@) == ArgForm::Switch(Switch::FixedStrings),
        arg_form("--fixed-strings"@) == ArgForm::Switch(Switch::FixedStrings),
        arg_form("-v"@) == ArgForm::Switch(Switch::InvertMatch),
        arg_form("--invert-match"@) == ArgForm::Switch(Switch::InvertMatch),
        arg_form("-w"@) == ArgForm::Switch(Switch::WordRegexp),
        arg_form("--word-regexp"@) == ArgForm::Switch(Switch::WordRegexp),
        arg_form("-i"@) == ArgForm::Switch(Switch::IgnoreCase),
        arg_form("--ignore-case"@) == ArgForm::Switch(Switch::IgnoreCase),
        arg_form("-q"@) == ArgForm::Switch(Switch::Quiet),
        arg_form("--quiet"@) == ArgForm::Switch(Switch::Quiet),
        arg_form("--silent"@) == ArgForm::Switch(Switch::Quiet),
        arg_form("-c"@) == ArgForm::Switch(Switch::Count),
        arg_form("--count"@) == ArgForm::Switch(Switch::Count),
        arg_form("-l"@) == ArgForm::Switch(Switch::FilesOnly),
        arg_form("--files-with-matches"@) == ArgForm::Switch(Switch::FilesOnly),
        arg_form("--hidden"@) == ArgForm::Switch(Switch::Hidden),
        arg_form("-."@) == ArgForm::Switch(Switch::Hidden),
        arg_form("--no-hidden"@) == ArgForm::Switch(Switch::NoHidden),
        arg_form("--no-ignore"@) == ArgForm::Switch(Switch::NoIgnore),
        arg_form("-L"@) == ArgForm::Switch(Switch::Follow),
        arg_form("--follow"@) == ArgForm::Switch(Switch::Follow),
        arg_form("--no-follow"@) == ArgForm::Switch(Switch::NoFollow),
        arg_form("--no-pcre2"@) == ArgForm::Switch(Switch::Nothing),
        arg_form("--no-encoding"@) == ArgForm::Switch(Switch::Nothing),
{
    reveal(arg_form);
    lemma_letters_of_options();
}

/// Every name is read as its own option.
proof fn lemma_names_of_valued_options()
    ensures
        arg_form("--top"@) == ArgForm::Valued(Valued::Top),
        arg_form("--use-index"@) == ArgForm::Valued(Valued::UseIndex),
        arg_form("--format"@) == ArgForm::Valued(Valued::Format),
        arg_form("--port"@) == ArgForm::Valued(Valued::Port),
        arg_form("-m"@) == ArgForm::Valued(Valued::MaxCount),
        arg_form("--max-count"@) == ArgForm::Valued(Valued::MaxCount),
        arg_form("-e"@) == ArgForm::Valued(Valued::Regexp),
        arg_form("--regexp"@) == ArgForm::Valued(Valued::Regexp),
        arg_form("-f"@) == ArgForm::Valued(Valued::File),
        arg_form("--file"@) == ArgForm::Valued(Valued::File),
        arg_form("-g"@) == ArgForm::Valued(Valued::Glob),
        arg_form("--glob"@) == ArgForm::Valued(Valued::Glob),
        arg_form("-d"@) == ArgForm::Valued(Valued::MaxDepth),
        arg_form("--max-depth"@) == ArgForm::Valued(Valued::MaxDepth),
        arg_form("--max-filesize"@) == ArgForm::Valued(Valued::MaxFilesize),
        arg_form("-A"@) == ArgForm::Valued(Valued::After),
        arg_form("--after-context"@) == ArgForm::Valued(Valued::After),
        arg_form("-B"@) == ArgForm::Valued(Valued::Before),
        arg_form("--before-context"@) == ArgForm::Valued(Valued::Before),
        arg_form("-C"@) == ArgForm::Valued(Valued::Around),
        arg_form("--context"@) == ArgForm::Valued(Valued::Around),
        arg_form("--group-separator"@) == ArgForm::Valued(Valued::GroupSeparator),
        arg_form("-x"@) == ArgForm::Unsupported,
        arg_form("--line-regexp"@) == ArgForm::Unsupported,
        arg_form("-P"@) == ArgForm::Unsupported,
        arg_form("--pcre2"@) == ArgForm::Unsupported,
        arg_form("-E"@) == ArgForm::Unsupported,
        arg_form("--encoding"@) == ArgForm::Unsupported,
        arg_form("-G"@) == ArgForm::Unsupported,
        arg_form("--color"@) == ArgForm::Color,
{
    reveal(arg_form);
    lemma_letters_of_options();
}

proof fn lemma_joined_top(v: Seq<char>)
    ensures
        arg_form("--top="@ + v) == ArgForm::Joined(Valued::Top, Given::Equals, 6),
        ("--top="@ + v).skip(6) == v,
{
    reveal(arg_form);
    lemma_letters_of_options();
    lemma_joined_form("--top="@, v);
}

proof fn lemma_joined_format(v: Seq<char>)
    ensures
        arg_form("--format="@ + v) == ArgForm::Joined(Valued::Format, Given::Equals, 9),
        ("--format="@ + v).skip(9) == v,
{
    reveal(arg_form);
    lemma_letters_of_options();
    lemma_joined_form("--format="@, v);
}

proof fn lemma_joined_port(v: Seq<char>)
    ensures
        arg_form("--port="@ + v) == ArgForm::Joined(Valued::Port, Given::Equals, 7),
        ("--port="@ + v).skip(7) == v,
{
    reveal(arg_form);
    lemma_letters_of_options();
    lemma_joined_form("--port="@, v);
}

proof fn lemma_joined_max_count(v: Seq<char>)
    ensures
        arg_form("--max-count="@ + v) == ArgForm::Joined(Valued::MaxCount, Given::Equals, 12),
        ("--max-count="@ + v).skip(12) == v,
{
    reveal(arg_form);
    lemma_letters_of_options();
    lemma_joined_form("--max-count="@, v);
}

proof fn lemma_joined_regexp(v: Seq<char>)
    ensures
        arg_form("--regexp="@ + v) == ArgForm::Joined(Valued::Regexp, Given::Equals, 9),
        ("--regexp="@ + v).skip(9) == v,
{
    reveal(arg_form);
    lemma_letters_of_options();
    lemma_joined_form("--regexp="@, v);
}

proof fn lemma_joined_file(v: Seq<char>)
    ensures
        arg_form("--file="@ + v) == ArgForm::Joined(Valued::File, Given::Equals, 7),
        ("--file="@ + v).skip(7) == v,
{
    reveal(arg_form);
    lemma_letters_of_options();
    lemma_joined_form("--file="@, v);
}

proof fn lemma_joined_glob(v: Seq<char>)
    ensures
        arg_form("--glob="@ + v) == ArgForm::Joined(Valued::Glob, Given::Equals, 7),
        ("--glob="@ + v).skip(7) == v,
{
    reveal(arg_form);
    lemma_letters_of_options();
    lemma_joined_form("--glob="@, v);
}

proof fn lemma_joined_max_depth(v: Seq<char>)
    ensures
        arg_form("--max-depth="@ + v) == ArgForm::Joined(Valued::MaxDepth, Given::Equals, 12),
        ("--max-depth="@ + v).skip(12) == v,
{
    reveal(arg_form);
    lemma_letters_of_options();
    lemma_joined_form("--max-depth="@, v);
}

proof fn lemma_joined_max_filesize(v: Seq<char>)
    ensures
        arg_form("--max-filesize="@ + v) == ArgForm::Joined(Valued::MaxFilesize, Given::Equals, 15),
        ("--max-filesize="@ + v).skip(15) == v,
{
    reveal(arg_form);
    lemma_letters_of_options();
    lemma_joined_form("--max-filesize="@, v);
}

proof fn lemma_joined_after_context(v: Seq<char>)
    ensures
        arg_form("--after-context="@ + v) == ArgForm::Joined(Valued::After, Given::Equals, 16),
        ("--after-context="@ + v).skip(16) == v,
{
    reveal(arg_form);
    lemma_letters_of_options();
    lemma_joined_form("--after-context="@, v);
}

proof fn lemma_joined_before_context(v: Seq<char>)
    ensures
        arg_form("--before-context="@ + v) == ArgForm::Joined(Valued::Before, Given::Equals, 17),
        ("--before-context="@ + v).skip(17) == v,
{
    reveal(arg_form);
    lemma_letters_of_options();
    lemma_joined_form("--before-context="@, v);
}

proof fn lemma_joined_context(v: Seq<char>)
    ensures
        arg_form("--context="@ + v) == ArgForm::Joined(Valued::Around, Given::Equals, 10),
        ("--context="@ + v).skip(10) == v,
{
    reveal(arg_form);
    lemma_letters_of_options();
    lemma_joined_form("--context="@, v);
}

proof fn lemma_joined_group_separator(v: Seq<char>)
    ensures
        arg_form("--group-separator="@ + v) == ArgForm::Joined(Valued::GroupSeparator, Given::Equals, 18),
        ("--group-separator="@ + v).skip(18) == v,
{
    reveal(arg_form);
    lemma_letters_of_options();
    lemma_joined_form("--group-separator="@, v);
}

proof fn lemma_joined_color(v: Seq<char>)
    ensures
        arg_form("--color="@ + v) == ArgForm::ColorJoined(8),
        ("--color="@ + v).skip(8) == v,
{
    reveal(arg_form);
    lemma_letters_of_options();
    lemma_joined_form("--color="@, v);
}

/// A value behind `=` is told from its option.
proof fn lemma_joined_forms(v: Seq<char>)
    ensures
        arg_form("--top="@ + v) == ArgForm::Joined(Valued::Top, Given::Equals, 6),
        ("--top="@ + v).skip(6) == v,
        arg_form("--format="@ + v) == ArgForm::Joined(Valued::Format, Given::Equals, 9),
        ("--format="@ + v).skip(9) == v,
        arg_form("--port="@ + v) == ArgForm::Joined(Valued::Port, Given::Equals, 7),
        ("--port="@ + v).skip(7) == v,
        arg_form("--max-count="@ + v) == ArgForm::Joined(Valued::MaxCount, Given::Equals, 12),
        ("--max-count="@ + v).skip(12) == v,
        arg_form("--regexp="@ + v) == ArgForm::Joined(Valued::Regexp, Given::Equals, 9),
        ("--regexp="@ + v).skip(9) == v,
        arg_form("--file="@ + v) == ArgForm::Joined(Valued::File, Given::Equals, 7),
        ("--file="@ + v).skip(7) == v,
        arg_form("--glob="@ + v) == ArgForm::Joined(Valued::Glob, Given::Equals, 7),
        ("--glob="@ + v).skip(7) == v,
        arg_form("--max-depth="@ + v) == ArgForm::Joined(Valued::MaxDepth, Given::Equals, 12),
        ("--max-depth="@ + v).skip(12) == v,
        arg_form("--max-filesize="@ + v) == ArgForm::Joined(Valued::MaxFilesize, Given::Equals, 15),
        ("--max-filesize="@ + v).skip(15) == v,
        arg_form("--after-context="@ + v) == ArgForm::Joined(Valued::After, Given::Equals, 16),
        ("--after-context="@ + v).skip(16) == v,
        arg_form("--before-context="@ + v) == ArgForm::Joined(Valued::Before, Given::Equals, 17),
        ("--before-context="@ + v).skip(17) == v,
        arg_form("--context="@ + v) == ArgForm::Joined(Valued::Around, Given::Equals, 10),
        ("--context="@ + v).skip(10) == v,
        arg_form("--group-separator="@ + v) == ArgForm::Joined(Valued::GroupSeparator, Given::Equals, 18),
        ("--group-separator="@ + v).skip(18) == v,
        arg_form("--color="@ + v) == ArgForm::ColorJoined(8),
        ("--color="@ + v).skip(8) == v,
{
    lemma_joined_top(v);
    lemma_joined_format(v);
    lemma_joined_port(v);
    lemma_joined_max_count(v);
    lemma_joined_regexp(v);
    lemma_joined_file(v);
    lemma_joined_glob(v);
    lemma_joined_max_depth(v);
    lemma_joined_max_filesize(v);
    lemma_joined_after_context(v);
    lemma_joined_before_context(v);
    lemma_joined_context(v);
    lemma_joined_group_separator(v);
    lemma_joined_color(v);
}

proof fn lemma_switch_step(o: OptionsView, a: Seq<char>, next: Option<Seq<char>>)
    requires
        arg_form(a) is Switch,
    ensures
        option_step(o, a, next) == Ok::<(OptionsView, int), CliFaultView>(
            (OptionsView { flags: switched(o.flags, arg_form(a)->Switch_0), ..o }, 1),
        ),
{
    reveal(option_step);
}

proof fn lemma_value_step(o: OptionsView, a: Seq<char>, v: Seq<char>)
    requires
        arg_form(a) is Valued,
    ensures
        option_step(o, a, Some(v)) == (match with_value(o, arg_form(a)->Valued_0, Given::Separate, v, v) {
            Ok(n) => Ok::<(OptionsView, int), CliFaultView>((n, 2)),
            Err(e) => Err(e),
        }),
        option_step(o, a, None) == Err::<(OptionsView, int), CliFaultView>(CliFaultView::Usage),
{
    reveal(option_step);
}

proof fn lemma_joined_step(o: OptionsView, a: Seq<char>, v: Seq<char>, next: Option<Seq<char>>)
    requires
        arg_form(a) matches ArgForm::Joined(_, _, n) && a.skip(n as int) == v,
    ensures
        option_step(o, a, next) == (match with_value(o, arg_form(a)->Joined_0, arg_form(a)->Joined_1, v, a) {
            Ok(n) => Ok::<(OptionsView, int), CliFaultView>((n, 1)),
            Err(e) => Err(e),
        }),
{
    reveal(option_step);
}

proof fn lemma_number_value(o: OptionsView, f: Valued, given: Given, v: Seq<char>, arg: Seq<char>)
    requires
        f == Valued::Top || f == Valued::MaxCount || f == Valued::MaxDepth || f == Valued::After || f == Valued::Before || f
            == Valued::Around,
    ensures
        written_number(v, usize::MAX as nat) is None ==> with_value(o, f, given, v, arg) == Err::<
            OptionsView,
            CliFaultView,
        >(CliFaultView::BadValue { flag: shown_flag(f, given), arg, want: Want::Number }),
        written_number(v, usize::MAX as nat) matches Some(n) ==> with_value(o, f, given, v, arg) == Ok::<
            OptionsView,
            CliFaultView,
        >(OptionsView { limits: with_number(o.limits, f, n as usize), ..o }),
{
    reveal(with_value);
    reveal(with_limit);
    reveal(number_in);
}

/// The switches that say what matches set each their own flag, under either name, and leave
/// everything else as it was.
pub proof fn law_matching_switches_set_their_flag(o: OptionsView, next: Option<Seq<char>>)
    ensures
        option_step(o, "-F"@, next) == Ok::<(OptionsView, int), CliFaultView>(
            (OptionsView { flags: Flags { fixed: true, ..o.flags }, ..o }, 1),
        ),
        option_step(o, "--fixed-strings"@, next) == Ok::<(OptionsView, int), CliFaultView>(
            (OptionsView { flags: Flags { fixed: true, ..o.flags }, ..o }, 1),
        ),
        option_step(o, "-v"@, next) == Ok::<(OptionsView, int), CliFaultView>(
            (OptionsView { flags: Flags { invert: true, ..o.flags }, ..o }, 1),
        ),
        option_step(o, "--invert-match"@, next) == Ok::<(OptionsView, int), CliFaultView>(
            (OptionsView { flags: Flags { invert: true, ..o.flags }, ..o }, 1),
        ),
        option_step(o, "-w"@, next) == Ok::<(OptionsView, int), CliFaultView>(
            (OptionsView { flags: Flags { word: true, ..o.flags }, ..o }, 1),
        ),
        option_step(o, "--word-regexp"@, next) == Ok::<(OptionsView, int), CliFaultView>(
            (OptionsView { flags: Flags { word: true, ..o.flags }, ..o }, 1),
        ),
        option_step(o, "-i"@, next) == Ok::<(OptionsView, int), CliFaultView>(
            (OptionsView { flags: Flags { ignore_case: true, ..o.flags }, ..o }, 1),
        ),
        option_step(o, "--ignore-case"@, next) == Ok::<(OptionsView, int), CliFaultView>(
            (OptionsView { flags: Flags { ignore_case: true, ..o.flags }, ..o }, 1),
        ),
{
    lemma_names_of_switches();
    lemma_switch_step(o, "-F"@, next);
    lemma_switch_step(o, "--fixed-strings"@, next);
    lemma_switch_step(o, "-v"@, next);
    lemma_switch_step(o, "--invert-match"@, next);
    lemma_switch_step(o, "-w"@, next);
    lemma_switch_step(o, "--word-regexp"@, next);
    lemma_switch_step(o, "-i"@, next);
    lemma_switch_step(o, "--ignore-case"@, next);
}

/// The switches that say what is shown set each their own flag, under every name, and leave
/// everything else as it was.
pub proof fn law_output_switches_set_their_flag(o: OptionsView, next: Option<Seq<char>>)
    ensures
        option_step(o, "-q"@, next) == Ok::<(OptionsView, int), CliFaultView>(
            (OptionsView { flags: Flags { quiet: true, ..o.flags }, ..o }, 1),
        ),
        option_step(o, "--quiet"@, next) == Ok::<(OptionsView, int), CliFaultView>(
            (OptionsView { flags: Flags { quiet: true, ..o.flags }, ..o }, 1),
        ),
        option_step(o, "--silent"@, next) == Ok::<(OptionsView, int), CliFaultView>(
            (OptionsView { flags: Flags { quiet: true, ..o.flags }, ..o }, 1),
        ),
        option_step(o, "-c"@, next) == Ok::<(OptionsView, int), CliFaultView>(
            (OptionsView { flags: Flags { count: true, ..o.flags }, ..o }, 1),
        ),
        option_step(o, "--count"@, next) == Ok::<(OptionsView, int), CliFaultView>(
            (OptionsView { flags: Flags { count: true, ..o.flags }, ..o }, 1),
        ),
        option_step(o, "-l"@, next) == Ok::<(OptionsView, int), CliFaultView>(
            (OptionsView { flags: Flags { files_only: true, ..o.flags }, ..o }, 1),
        ),
        option_step(o, "--files-with-matches"@, next) == Ok::<(OptionsView, int), CliFaultView>(
            (OptionsView { flags: Flags { files_only: true, ..o.flags }, ..o }, 1),
        ),
{
    lemma_names_of_switches();
    lemma_switch_step(o, "-q"@, next);
    lemma_switch_step(o, "--quiet"@, next);
    lemma_switch_step(o, "--silent"@, next);
    lemma_switch_step(o, "-c"@, next);
    lemma_switch_step(o, "--count"@, next);
    lemma_switch_step(o, "-l"@, next);
    lemma_switch_step(o, "--files-with-matches"@, next);
}

/// The switches that say which files are visited set or clear each their own flag, and leave
/// everything else as it was; those that ask for what holds anyway change nothing.
pub proof fn law_walk_switches_set_their_flag(o: OptionsView, next: Option<Seq<char>>)
    ensures
        option_step(o, "--hidden"@, next) == Ok::<(OptionsView, int), CliFaultView>(
            (OptionsView { flags: Flags { hidden: true, ..o.flags }, ..o }, 1),
        ),
        option_step(o, "-."@, next) == Ok::<(OptionsView, int), CliFaultView>(
            (OptionsView { flags: Flags { hidden: true, ..o.flags }, ..o }, 1),
        ),
        option_step(o, "--no-hidden"@, next) == Ok::<(OptionsView, int), CliFaultView>(
            (OptionsView { flags: Flags { hidden: false, ..o.flags }, ..o }, 1),
        ),
        option_step(o, "--no-ignore"@, next) == Ok::<(OptionsView, int), CliFaultView>(
            (OptionsView { flags: Flags { no_ignore: true, ..o.flags }, ..o }, 1),
        ),
        option_step(o, "-L"@, next) == Ok::<(OptionsView, int), CliFaultView>(
            (OptionsView { flags: Flags { follow: true, ..o.flags }, ..o }, 1),
        ),
        option_step(o, "--follow"@, next) == Ok::<(OptionsView, int), CliFaultView>(
            (OptionsView { flags: Flags { follow: true, ..o.flags }, ..o }, 1),
        ),
        option_step(o, "--no-follow"@, next) == Ok::<(OptionsView, int), CliFaultView>(
            (OptionsView { flags: Flags { follow: false, ..o.flags }, ..o }, 1),
        ),
        option_step(o, "--no-pcre2"@, next) == Ok::<(OptionsView, int), CliFaultView>((o, 1)),
        option_step(o, "--no-encoding"@, next) == Ok::<(OptionsView, int), CliFaultView>((o, 1)),
{
    lemma_names_of_switches();
    lemma_switch_step(o, "--hidden"@, next);
    lemma_switch_step(o, "-."@, next);
    lemma_switch_step(o, "--no-hidden"@, next);
    lemma_switch_step(o, "--no-ignore"@, next);
    lemma_switch_step(o, "-L"@, next);
    lemma_switch_step(o, "--follow"@, next);
    lemma_switch_step(o, "--no-follow"@, next);
    lemma_switch_step(o, "--no-pcre2"@, next);
    lemma_switch_step(o, "--no-encoding"@, next);
}

/// The option for the number of hits that are shown takes a number, as the next argument,
/// behind `=`, and changes nothing else. What is no number is refused.
pub proof fn law_top_takes_a_number(o: OptionsView, v: Seq<char>, next: Option<Seq<char>>, n: usize)
    ensures
        written_number(v, usize::MAX as nat) == Some(n as nat) ==> {
            &&& option_step(o, "--top"@, Some(v)) == Ok::<(OptionsView, int), CliFaultView>(
                (OptionsView { limits: Limits { top: Some(n), ..o.limits }, ..o }, 2),
            )
            &&& option_step(o, "--top="@ + v, next) == Ok::<(OptionsView, int), CliFaultView>(
                (OptionsView { limits: Limits { top: Some(n), ..o.limits }, ..o }, 1),
            )
        },
        written_number(v, usize::MAX as nat) is None ==> {
            &&& option_step(o, "--top"@, Some(v)) == Err::<(OptionsView, int), CliFaultView>(
                CliFaultView::BadValue { flag: "--top"@, arg: v, want: Want::Number },
            )
            &&& option_step(o, "--top="@ + v, next) == Err::<(OptionsView, int), CliFaultView>(
                CliFaultView::BadValue { flag: "--top"@, arg: "--top="@ + v, want: Want::Number },
            )
        },
{
    reveal(shown_flag);
    lemma_names_of_valued_options();
    lemma_value_step(o, "--top"@, v);
    lemma_number_value(o, Valued::Top, Given::Separate, v, v);
    lemma_joined_top(v);
    lemma_joined_step(o, "--top="@ + v, v, next);
    lemma_number_value(o, Valued::Top, Given::Equals, v, "--top="@ + v);
}

/// The option for the number of hits of a file takes a number, as the next argument,
/// behind `=` or right behind the letter, and changes nothing else. What is no number is refused.
pub proof fn law_max_count_takes_a_number(o: OptionsView, v: Seq<char>, next: Option<Seq<char>>, n: usize)
    ensures
        written_number(v, usize::MAX as nat) == Some(n as nat) ==> {
            &&& option_step(o, "-m"@, Some(v)) == Ok::<(OptionsView, int), CliFaultView>(
                (OptionsView { limits: Limits { max_count: Some(n), ..o.limits }, ..o }, 2),
            )
            &&& option_step(o, "--max-count"@, Some(v)) == Ok::<(OptionsView, int), CliFaultView>(
                (OptionsView { limits: Limits { max_count: Some(n), ..o.limits }, ..o }, 2),
            )
            &&& option_step(o, "--max-count="@ + v, next) == Ok::<(OptionsView, int), CliFaultView>(
                (OptionsView { limits: Limits { max_count: Some(n), ..o.limits }, ..o }, 1),
            )
            &&& v.len() > 0 ==> option_step(o, seq!['-', 'm'] + v, next) == Ok::<(OptionsView, int), CliFaultView>(
                (OptionsView { limits: Limits { max_count: Some(n), ..o.limits }, ..o }, 1),
            )
        },
        written_number(v, usize::MAX as nat) is None ==> {
            &&& option_step(o, "-m"@, Some(v)) == Err::<(OptionsView, int), CliFaultView>(
                CliFaultView::BadValue { flag: "--max-count"@, arg: v, want: Want::Number },
            )
            &&& option_step(o, "--max-count"@, Some(v)) == Err::<(OptionsView, int), CliFaultView>(
                CliFaultView::BadValue { flag: "--max-count"@, arg: v, want: Want::Number },
            )
            &&& option_step(o, "--max-count="@ + v, next) == Err::<(OptionsView, int), CliFaultView>(
                CliFaultView::BadValue { flag: "--max-count"@, arg: "--max-count="@ + v, want: Want::Number },
            )
            &&& v.len() > 0 ==> option_step(o, seq!['-', 'm'] + v, next) == Err::<(OptionsView, int), CliFaultView>(
                CliFaultView::BadValue { flag: "-m"@, arg: seq!['-', 'm'] + v, want: Want::Number },
            )
        },
{
    reveal(shown_flag);
    lemma_names_of_valued_options();
    lemma_value_step(o, "-m"@, v);
    lemma_value_step(o, "--max-count"@, v);
    lemma_number_value(o, Valued::MaxCount, Given::Separate, v, v);
    lemma_joined_max_count(v);
    lemma_joined_step(o, "--max-count="@ + v, v, next);
    lemma_number_value(o, Valued::MaxCount, Given::Equals, v, "--max-count="@ + v);
    if v.len() > 0 {
        let a = seq!['-', 'm'] + v;
        lemma_attached_form('m', v);
        lemma_joined_step(o, a, v, next);
        lemma_number_value(o, Valued::MaxCount, Given::Attached, v, a);
    }
}

/// The option for how deep a traversal goes takes a number, as the next argument,
/// behind `=` or right behind the letter, and changes nothing else. What is no number is refused.
pub proof fn law_max_depth_takes_a_number(o: OptionsView, v: Seq<char>, next: Option<Seq<char>>, n: usize)
    ensures
        written_number(v, usize::MAX as nat) == Some(n as nat) ==> {
            &&& option_step(o, "-d"@, Some(v)) == Ok::<(OptionsView, int), CliFaultView>(
                (OptionsView { limits: Limits { max_depth: Some(n), ..o.limits }, ..o }, 2),
            )
            &&& option_step(o, "--max-depth"@, Some(v)) == Ok::<(OptionsView, int), CliFaultView>(
                (OptionsView { limits: Limits { max_depth: Some(n), ..o.limits }, ..o }, 2),
            )
            &&& option_step(o, "--max-depth="@ + v, next) == Ok::<(OptionsView, int), CliFaultView>(
                (OptionsView { limits: Limits { max_depth: Some(n), ..o.limits }, ..o }, 1),
            )
            &&& v.len() > 0 ==> option_step(o, seq!['-', 'd'] + v, next) == Ok::<(OptionsView, int), CliFaultView>(
                (OptionsView { limits: Limits { max_depth: Some(n), ..o.limits }, ..o }, 1),
            )
        },
        written_number(v, usize::MAX as nat) is None ==> {
            &&& option_step(o, "-d"@, Some(v)) == Err::<(OptionsView, int), CliFaultView>(
                CliFaultView::BadValue { flag: "--max-depth"@, arg: v, want: Want::Number },
            )
            &&& option_step(o, "--max-depth"@, Some(v)) == Err::<(OptionsView, int), CliFaultView>(
                CliFaultView::BadValue { flag: "--max-depth"@, arg: v, want: Want::Number },
            )
            &&& option_step(o, "--max-depth="@ + v, next) == Err::<(OptionsView, int), CliFaultView>(
                CliFaultView::BadValue { flag: "--max-depth"@, arg: "--max-depth="@ + v, want: Want::Number },
            )
            &&& v.len() > 0 ==> option_step(o, seq!['-', 'd'] + v, next) == Err::<(OptionsView, int), CliFaultView>(
                CliFaultView::BadValue { flag: "-d"@, arg: seq!['-', 'd'] + v, want: Want::Number },
            )
        },
{
    reveal(shown_flag);
    lemma_names_of_valued_options();
    lemma_value_step(o, "-d"@, v);
    lemma_value_step(o, "--max-depth"@, v);
    lemma_number_value(o, Valued::MaxDepth, Given::Separate, v, v);
    lemma_joined_max_depth(v);
    lemma_joined_step(o, "--max-depth="@ + v, v, next);
    lemma_number_value(o, Valued::MaxDepth, Given::Equals, v, "--max-depth="@ + v);
    if v.len() > 0 {
        let a = seq!['-', 'd'] + v;
        lemma_attached_form('d', v);
        lemma_joined_step(o, a, v, next);
        lemma_number_value(o, Valued::MaxDepth, Given::Attached, v, a);
    }
}

/// The option for the number of lines after a hit takes a number, as the next argument,
/// behind `=` or right behind the letter, and changes nothing else. What is no number is refused.
pub proof fn law_after_context_takes_a_number(o: OptionsView, v: Seq<char>, next: Option<Seq<char>>, n: usize)
    ensures
        written_number(v, usize::MAX as nat) == Some(n as nat) ==> {
            &&& option_step(o, "-A"@, Some(v)) == Ok::<(OptionsView, int), CliFaultView>(
                (OptionsView { limits: Limits { after: Some(n), ..o.limits }, ..o }, 2),
            )
            &&& option_step(o, "--after-context"@, Some(v)) == Ok::<(OptionsView, int), CliFaultView>(
                (OptionsView { limits: Limits { after: Some(n), ..o.limits }, ..o }, 2),
            )
            &&& option_step(o, "--after-context="@ + v, next) == Ok::<(OptionsView, int), CliFaultView>(
                (OptionsView { limits: Limits { after: Some(n), ..o.limits }, ..o }, 1),
            )
            &&& v.len() > 0 ==> option_step(o, seq!['-', 'A'] + v, next) == Ok::<(OptionsView, int), CliFaultView>(
                (OptionsView { limits: Limits { after: Some(n), ..o.limits }, ..o }, 1),
            )
        },
        written_number(v, usize::MAX as nat) is None ==> {
            &&& option_step(o, "-A"@, Some(v)) == Err::<(OptionsView, int), CliFaultView>(
                CliFaultView::BadValue { flag: "-A"@, arg: v, want: Want::Number },
            )
            &&& option_step(o, "--after-context"@, Some(v)) == Err::<(OptionsView, int), CliFaultView>(
                CliFaultView::BadValue { flag: "-A"@, arg: v, want: Want::Number },
            )
            &&& option_step(o, "--after-context="@ + v, next) == Err::<(OptionsView, int), CliFaultView>(
                CliFaultView::BadValue { flag: "--after-context"@, arg: "--after-context="@ + v, want: Want::Number },
            )
            &&& v.len() > 0 ==> option_step(o, seq!['-', 'A'] + v, next) == Err::<(OptionsView, int), CliFaultView>(
                CliFaultView::BadValue { flag: "-A"@, arg: seq!['-', 'A'] + v, want: Want::Number },
            )
        },
{
    reveal(shown_flag);
    lemma_names_of_valued_options();
    lemma_value_step(o, "-A"@, v);
    lemma_value_step(o, "--after-context"@, v);
    lemma_number_value(o, Valued::After, Given::Separate, v, v);
    lemma_joined_after_context(v);
    lemma_joined_step(o, "--after-context="@ + v, v, next);
    lemma_number_value(o, Valued::After, Given::Equals, v, "--after-context="@ + v);
    if v.len() > 0 {
        let a = seq!['-', 'A'] + v;
        lemma_attached_form('A', v);
        lemma_joined_step(o, a, v, next);
        lemma_number_value(o, Valued::After, Given::Attached, v, a);
    }
}

/// The option for the number of lines before a hit takes a number, as the next argument,
/// behind `=` or right behind the letter, and changes nothing else. What is no number is refused.
pub proof fn law_before_context_takes_a_number(o: OptionsView, v: Seq<char>, next: Option<Seq<char>>, n: usize)
    ensures
        written_number(v, usize::MAX as nat) == Some(n as nat) ==> {
            &&& option_step(o, "-B"@, Some(v)) == Ok::<(OptionsView, int), CliFaultView>(
                (OptionsView { limits: Limits { before: Some(n), ..o.limits }, ..o }, 2),
            )
            &&& option_step(o, "--before-context"@, Some(v)) == Ok::<(OptionsView, int), CliFaultView>(
                (OptionsView { limits: Limits { before: Some(n), ..o.limits }, ..o }, 2),
            )
            &&& option_step(o, "--before-context="@ + v, next) == Ok::<(OptionsView, int), CliFaultView>(
                (OptionsView { limits: Limits { before: Some(n), ..o.limits }, ..o }, 1),
            )
            &&& v.len() > 0 ==> option_step(o, seq!['-', 'B'] + v, next) == Ok::<(OptionsView, int), CliFaultView>(
                (OptionsView { limits: Limits { before: Some(n), ..o.limits }, ..o }, 1),
            )
        },
        written_number(v, usize::MAX as nat) is None ==> {
            &&& option_step(o, "-B"@, Some(v)) == Err::<(OptionsView, int), CliFaultView>(
                CliFaultView::BadValue { flag: "-B"@, arg: v, want: Want::Number },
            )
            &&& option_step(o, "--before-context"@, Some(v)) == Err::<(OptionsView, int), CliFaultView>(
                CliFaultView::BadValue { flag: "-B"@, arg: v, want: Want::Number },
            )
            &&& option_step(o, "--before-context="@ + v, next) == Err::<(OptionsView, int), CliFaultView>(
                CliFaultView::BadValue { flag: "--before-context"@, arg: "--before-context="@ + v, want: Want::Number },
            )
            &&& v.len() > 0 ==> option_step(o, seq!['-', 'B'] + v, next) == Err::<(OptionsView, int), CliFaultView>(
                CliFaultView::BadValue { flag: "-B"@, arg: seq!['-', 'B'] + v, want: Want::Number },
            )
        },
{
    reveal(shown_flag);
    lemma_names_of_valued_options();
    lemma_value_step(o, "-B"@, v);
    lemma_value_step(o, "--before-context"@, v);
    lemma_number_value(o, Valued::Before, Given::Separate, v, v);
    lemma_joined_before_context(v);
    lemma_joined_step(o, "--before-context="@ + v, v, next);
    lemma_number_value(o, Valued::Before, Given::Equals, v, "--before-context="@ + v);
    if v.len() > 0 {
        let a = seq!['-', 'B'] + v;
        lemma_attached_form('B', v);
        lemma_joined_step(o, a, v, next);
        lemma_number_value(o, Valued::Before, Given::Attached, v, a);
    }
}

/// The option for the number of lines on both sides of a hit takes a number, as the next argument,
/// behind `=` or right behind the letter, and changes nothing else. What is no number is refused.
pub proof fn law_context_takes_a_number(o: OptionsView, v: Seq<char>, next: Option<Seq<char>>, n: usize)
    ensures
        written_number(v, usize::MAX as nat) == Some(n as nat) ==> {
            &&& option_step(o, "-C"@, Some(v)) == Ok::<(OptionsView, int), CliFaultView>(
                (OptionsView { limits: Limits { around: Some(n), ..o.limits }, ..o }, 2),
            )
            &&& option_step(o, "--context"@, Some(v)) == Ok::<(OptionsView, int), CliFaultView>(
                (OptionsView { limits: Limits { around: Some(n), ..o.limits }, ..o }, 2),
            )
            &&& option_step(o, "--context="@ + v, next) == Ok::<(OptionsView, int), CliFaultView>(
                (OptionsView { limits: Limits { around: Some(n), ..o.limits }, ..o }, 1),
            )
            &&& v.len() > 0 ==> option_step(o, seq!['-', 'C'] + v, next) == Ok::<(OptionsView, int), CliFaultView>(
                (OptionsView { limits: Limits { around: Some(n), ..o.limits }, ..o }, 1),
            )
        },
        written_number(v, usize::MAX as nat) is None ==> {
            &&& option_step(o, "-C"@, Some(v)) == Err::<(OptionsView, int), CliFaultView>(
                CliFaultView::BadValue { flag: "-C"@, arg: v, want: Want::Number },
            )
            &&& option_step(o, "--context"@, Some(v)) == Err::<(OptionsView, int), CliFaultView>(
                CliFaultView::BadValue { flag: "-C"@, arg: v, want: Want::Number },
            )
            &&& option_step(o, "--context="@ + v, next) == Err::<(OptionsView, int), CliFaultView>(
                CliFaultView::BadValue { flag: "--context"@, arg: "--context="@ + v, want: Want::Number },
            )
            &&& v.len() > 0 ==> option_step(o, seq!['-', 'C'] + v, next) == Err::<(OptionsView, int), CliFaultView>(
                CliFaultView::BadValue { flag: "-C"@, arg: seq!['-', 'C'] + v, want: Want::Number },
            )
        },
{
    reveal(shown_flag);
    lemma_names_of_valued_options();
    lemma_value_step(o, "-C"@, v);
    lemma_value_step(o, "--context"@, v);
    lemma_number_value(o, Valued::Around, Given::Separate, v, v);
    lemma_joined_context(v);
    lemma_joined_step(o, "--context="@ + v, v, next);
    lemma_number_value(o, Valued::Around, Given::Equals, v, "--context="@ + v);
    if v.len() > 0 {
        let a = seq!['-', 'C'] + v;
        lemma_attached_form('C', v);
        lemma_joined_step(o, a, v, next);
        lemma_number_value(o, Valued::Around, Given::Attached, v, a);
    }
}

/// A port is a number up to 65535, and a file size a number with or without its unit.
pub proof fn law_port_and_size_set_their_limit(o: OptionsView, v: Seq<char>, next: Option<Seq<char>>)
    ensures
        written_number(v, 65535) matches Some(n) ==> {
            &&& option_step(o, "--port"@, Some(v)) == Ok::<(OptionsView, int), CliFaultView>(
                (OptionsView { limits: Limits { port: Some(n as u16), ..o.limits }, ..o }, 2),
            )
            &&& option_step(o, "--port="@ + v, next) == Ok::<(OptionsView, int), CliFaultView>(
                (OptionsView { limits: Limits { port: Some(n as u16), ..o.limits }, ..o }, 1),
            )
        },
        written_number(v, 65535) is None ==> option_step(o, "--port"@, Some(v)) is Err && option_step(
            o,
            "--port="@ + v,
            next,
        ) is Err,
        size_of_text(v) matches Some(n) ==> {
            &&& option_step(o, "--max-filesize"@, Some(v)) == Ok::<(OptionsView, int), CliFaultView>(
                (OptionsView { limits: Limits { max_filesize: Some(n as u64), ..o.limits }, ..o }, 2),
            )
            &&& option_step(o, "--max-filesize="@ + v, next) == Ok::<(OptionsView, int), CliFaultView>(
                (OptionsView { limits: Limits { max_filesize: Some(n as u64), ..o.limits }, ..o }, 1),
            )
        },
        size_of_text(v) is None ==> option_step(o, "--max-filesize"@, Some(v)) is Err && option_step(
            o,
            "--max-filesize="@ + v,
            next,
        ) is Err,
{
    reveal(option_step);
    reveal(with_value);
    reveal(with_limit);
    reveal(with_pattern);
    reveal(with_pattern_file);
    reveal(with_glob);
    reveal(number_in);
    reveal(port_in);
    reveal(size_in);
    lemma_names_of_valued_options();
    lemma_joined_forms(v);
}

/// An option that takes a text keeps it: patterns, pattern files and globs add up in the
/// order in which they were given, and of an index or a separator the last one counts. Where
/// patterns were given by option, no operand is one.
pub proof fn law_texts_are_kept(o: OptionsView, v: Seq<char>, next: Option<Seq<char>>)
    ensures
        option_step(o, "-e"@, Some(v)) == Ok::<(OptionsView, int), CliFaultView>((OptionsView { patterns: o.patterns.push(v), flags: Flags { explicit_patterns: true, ..o.flags }, ..o }, 2)),
        option_step(o, "--regexp"@, Some(v)) == Ok::<(OptionsView, int), CliFaultView>((OptionsView { patterns: o.patterns.push(v), flags: Flags { explicit_patterns: true, ..o.flags }, ..o }, 2)),
        option_step(o, "--regexp="@ + v, next) == Ok::<(OptionsView, int), CliFaultView>((OptionsView { patterns: o.patterns.push(v), flags: Flags { explicit_patterns: true, ..o.flags }, ..o }, 1)),
        option_step(o, "-f"@, Some(v)) == Ok::<(OptionsView, int), CliFaultView>((OptionsView { pattern_files: o.pattern_files.push(v), flags: Flags { explicit_patterns: true, ..o.flags }, ..o }, 2)),
        option_step(o, "--file"@, Some(v)) == Ok::<(OptionsView, int), CliFaultView>((OptionsView { pattern_files: o.pattern_files.push(v), flags: Flags { explicit_patterns: true, ..o.flags }, ..o }, 2)),
        option_step(o, "--file="@ + v, next) == Ok::<(OptionsView, int), CliFaultView>((OptionsView { pattern_files: o.pattern_files.push(v), flags: Flags { explicit_patterns: true, ..o.flags }, ..o }, 1)),
        option_step(o, "-g"@, Some(v)) == Ok::<(OptionsView, int), CliFaultView>((OptionsView { globs: o.globs.push(v), ..o }, 2)),
        option_step(o, "--glob"@, Some(v)) == Ok::<(OptionsView, int), CliFaultView>((OptionsView { globs: o.globs.push(v), ..o }, 2)),
        option_step(o, "--glob="@ + v, next) == Ok::<(OptionsView, int), CliFaultView>((OptionsView { globs: o.globs.push(v), ..o }, 1)),
        v.len() > 0 ==> option_step(o, seq!['-', 'g'] + v, next) == Ok::<(OptionsView, int), CliFaultView>((OptionsView { globs: o.globs.push(v), ..o }, 1)),
        option_step(o, "--use-index"@, Some(v)) == Ok::<(OptionsView, int), CliFaultView>((OptionsView { use_index: Some(v), ..o }, 2)),
        option_step(o, "--group-separator"@, Some(v)) == Ok::<(OptionsView, int), CliFaultView>((OptionsView { group_separator: v, ..o }, 2)),
        option_step(o, "--group-separator="@ + v, next) == Ok::<(OptionsView, int), CliFaultView>((OptionsView { group_separator: v, ..o }, 1)),
{
    reveal(option_step);
    reveal(with_value);
    reveal(with_limit);
    reveal(with_pattern);
    reveal(with_pattern_file);
    reveal(with_glob);
    reveal(number_in);
    reveal(port_in);
    reveal(size_in);
    lemma_names_of_valued_options();
    lemma_joined_forms(v);
    if v.len() > 0 {
        lemma_attached_form('g', v);
    }
}

/// The format is text or JSON, and nothing else.
pub proof fn law_format_is_text_or_json(o: OptionsView, v: Seq<char>, next: Option<Seq<char>>)
    ensures
        v == "text"@ || v == "json"@ ==> {
            &&& option_step(o, "--format"@, Some(v)) == Ok::<(OptionsView, int), CliFaultView>(
                (OptionsView { flags: Flags { text_format: v == "text"@, ..o.flags }, ..o }, 2),
            )
            &&& option_step(o, "--format="@ + v, next) == Ok::<(OptionsView, int), CliFaultView>(
                (OptionsView { flags: Flags { text_format: v == "text"@, ..o.flags }, ..o }, 1),
            )
        },
        v != "text"@ && v != "json"@ ==> option_step(o, "--format"@, Some(v)) is Err && option_step(
            o,
            "--format="@ + v,
            next,
        ) is Err,
        "text"@ != "json"@,
{
    reveal_strlit("text");
    reveal_strlit("json");
    assert("text"@[0] != "json"@[0]);
    reveal(with_value);
    lemma_names_of_valued_options();
    lemma_value_step(o, "--format"@, v);
    lemma_joined_format(v);
    lemma_joined_step(o, "--format="@ + v, v, next);
}

/// Highlighting is automatic, always on or never; `ansi` and no word at all turn it on. A
/// word behind `=` that is none of these is refused, and as the next argument it is left.
pub proof fn law_color_goes_by_its_word(o: OptionsView, v: Seq<char>, next: Option<Seq<char>>, w: ColorWhen)
    requires
        v == "auto"@ && w == ColorWhen::Auto || v == "always"@ && w == ColorWhen::Always || v == "ansi"@ && w
            == ColorWhen::Always || v == "never"@ && w == ColorWhen::Never,
    ensures
        option_step(o, "--color"@, Some(v)) == Ok::<(OptionsView, int), CliFaultView>(
            (OptionsView { flags: Flags { color: w, ..o.flags }, ..o }, 2),
        ),
        option_step(o, "--color="@ + v, next) == Ok::<(OptionsView, int), CliFaultView>(
            (OptionsView { flags: Flags { color: w, ..o.flags }, ..o }, 1),
        ),
{
    reveal_strlit("auto");
    reveal_strlit("always");
    reveal_strlit("ansi");
    reveal_strlit("never");
    assert("auto"@.len() == 4 && "always"@.len() == 6 && "ansi"@.len() == 4 && "never"@.len() == 5);
    assert("auto"@[1] != "ansi"@[1]);
    lemma_names_of_valued_options();
    lemma_color_step(o, v, next);
}

/// A word that names no way of highlighting is refused behind `=`, and as the next argument
/// it is left for what it is.
pub proof fn law_other_words_name_no_color(o: OptionsView, v: Seq<char>, next: Option<Seq<char>>)
    requires
        v != "auto"@ && v != "always"@ && v != "ansi"@ && v != "never"@,
    ensures
        option_step(o, "--color"@, Some(v)) == Ok::<(OptionsView, int), CliFaultView>(
            (OptionsView { flags: Flags { color: ColorWhen::Always, ..o.flags }, ..o }, 1),
        ),
        option_step(o, "--color"@, None) == Ok::<(OptionsView, int), CliFaultView>(
            (OptionsView { flags: Flags { color: ColorWhen::Always, ..o.flags }, ..o }, 1),
        ),
        option_step(o, "--color="@ + v, next) is Err,
{
    lemma_color_step(o, v, next);
}

proof fn lemma_color_step(o: OptionsView, v: Seq<char>, next: Option<Seq<char>>)
    ensures
        option_step(o, "--color"@, Some(v)) == (match color_named(v) {
            Some(w) => Ok::<(OptionsView, int), CliFaultView>((colored(o, w), 2)),
            None => Ok((colored(o, ColorWhen::Always), 1)),
        }),
        option_step(o, "--color"@, None) == Ok::<(OptionsView, int), CliFaultView>((colored(o, ColorWhen::Always), 1)),
        match color_named(v) {
            Some(w) => option_step(o, "--color="@ + v, next) == Ok::<(OptionsView, int), CliFaultView>(
                (colored(o, w), 1),
            ),
            None => option_step(o, "--color="@ + v, next) is Err,
        },
{
    lemma_names_of_valued_options();
    lemma_joined_color(v);
    reveal(option_step);
}

/// An option that needs a value and has none does not fit the usage, and the options that
/// are known but not supported are refused as such.
pub proof fn law_missing_values_and_unsupported_options_are_refused(o: OptionsView, next: Option<Seq<char>>)
    ensures
        option_step(o, "--top"@, None) == Err::<(OptionsView, int), CliFaultView>(CliFaultView::Usage),
        option_step(o, "--use-index"@, None) == Err::<(OptionsView, int), CliFaultView>(CliFaultView::Usage),
        option_step(o, "--format"@, None) == Err::<(OptionsView, int), CliFaultView>(CliFaultView::Usage),
        option_step(o, "--port"@, None) == Err::<(OptionsView, int), CliFaultView>(CliFaultView::Usage),
        option_step(o, "-m"@, None) == Err::<(OptionsView, int), CliFaultView>(CliFaultView::Usage),
        option_step(o, "--max-count"@, None) == Err::<(OptionsView, int), CliFaultView>(CliFaultView::Usage),
        option_step(o, "-e"@, None) == Err::<(OptionsView, int), CliFaultView>(CliFaultView::Usage),
        option_step(o, "--regexp"@, None) == Err::<(OptionsView, int), CliFaultView>(CliFaultView::Usage),
        option_step(o, "-f"@, None) == Err::<(OptionsView, int), CliFaultView>(CliFaultView::Usage),
        option_step(o, "--file"@, None) == Err::<(OptionsView, int), CliFaultView>(CliFaultView::Usage),
        option_step(o, "-g"@, None) == Err::<(OptionsView, int), CliFaultView>(CliFaultView::Usage),
        option_step(o, "--glob"@, None) == Err::<(OptionsView, int), CliFaultView>(CliFaultView::Usage),
        option_step(o, "-d"@, None) == Err::<(OptionsView, int), CliFaultView>(CliFaultView::Usage),
        option_step(o, "--max-depth"@, None) == Err::<(OptionsView, int), CliFaultView>(CliFaultView::Usage),
        option_step(o, "--max-filesize"@, None) == Err::<(OptionsView, int), CliFaultView>(CliFaultView::Usage),
        option_step(o, "-A"@, None) == Err::<(OptionsView, int), CliFaultView>(CliFaultView::Usage),
        option_step(o, "--after-context"@, None) == Err::<(OptionsView, int), CliFaultView>(CliFaultView::Usage),
        option_step(o, "-B"@, None) == Err::<(OptionsView, int), CliFaultView>(CliFaultView::Usage),
        option_step(o, "--before-context"@, None) == Err::<(OptionsView, int), CliFaultView>(CliFaultView::Usage),
        option_step(o, "-C"@, None) == Err::<(OptionsView, int), CliFaultView>(CliFaultView::Usage),
        option_step(o, "--context"@, None) == Err::<(OptionsView, int), CliFaultView>(CliFaultView::Usage),
        option_step(o, "--group-separator"@, None) == Err::<(OptionsView, int), CliFaultView>(CliFaultView::Usage),
        option_step(o, "-x"@, next) == Err::<(OptionsView, int), CliFaultView>(
            CliFaultView::Unsupported("-x"@),
        ),
        option_step(o, "--line-regexp"@, next) == Err::<(OptionsView, int), CliFaultView>(
            CliFaultView::Unsupported("--line-regexp"@),
        ),
        option_step(o, "-P"@, next) == Err::<(OptionsView, int), CliFaultView>(
            CliFaultView::Unsupported("-P"@),
        ),
        option_step(o, "--pcre2"@, next) == Err::<(OptionsView, int), CliFaultView>(
            CliFaultView::Unsupported("--pcre2"@),
        ),
        option_step(o, "-E"@, next) == Err::<(OptionsView, int), CliFaultView>(
            CliFaultView::Unsupported("-E"@),
        ),
        option_step(o, "--encoding"@, next) == Err::<(OptionsView, int), CliFaultView>(
            CliFaultView::Unsupported("--encoding"@),
        ),
        option_step(o, "-G"@, next) == Err::<(OptionsView, int), CliFaultView>(
            CliFaultView::Unsupported("-G"@),
        ),
{
    reveal(option_step);
    reveal(with_value);
    reveal(with_limit);
    reveal(with_pattern);
    reveal(with_pattern_file);
    reveal(with_glob);
    reveal(number_in);
    reveal(port_in);
    reveal(size_in);
    lemma_names_of_valued_options();
}

/// What does not start with a dash is an operand, and nothing else changes.
pub proof fn law_operands_add_up(o: OptionsView, a: Seq<char>, next: Option<Seq<char>>)
    requires
        a.len() == 0 || a[0] != '-',
    ensures
        option_step(o, a, next) == Ok::<(OptionsView, int), CliFaultView>(
            (OptionsView { operands: o.operands.push(a), ..o }, 1),
        ),
{
    reveal(option_step);
    reveal(arg_form);
    lemma_letters_of_options();
    lemma_other_head("--top="@, a);
    lemma_other_head("--format="@, a);
    lemma_other_head("--port="@, a);
    lemma_other_head("--max-count="@, a);
    lemma_other_head("--regexp="@, a);
    lemma_other_head("--file="@, a);
    lemma_other_head("--glob="@, a);
    lemma_other_head("--max-depth="@, a);
    lemma_other_head("--max-filesize="@, a);
    lemma_other_head("--after-context="@, a);
    lemma_other_head("--before-context="@, a);
    lemma_other_head("--context="@, a);
    lemma_other_head("--group-separator="@, a);
    lemma_other_head("--color="@, a);
}

/// Switches written together, as in `-ivw`, set each its own flag and no other.
pub proof fn law_clusters_set_each_flag(o: OptionsView, a: Seq<char>, next: Option<Seq<char>>)
    requires
        a.len() > 2,
        a[0] == '-',
        forall|k: int|
            1 <= k < a.len() ==> #[trigger] a[k] == 'i' || a[k] == 'q' || a[k] == 'c' || a[k] == 'l' || a[k] == 'F' || a[k]
                == 'v' || a[k] == 'w',
    ensures
        option_step(o, a, next) matches Ok(r) && r.1 == 1 && r.0 == (OptionsView {
            flags: Flags {
                ignore_case: o.flags.ignore_case || a.skip(1).contains('i'),
                quiet: o.flags.quiet || a.skip(1).contains('q'),
                count: o.flags.count || a.skip(1).contains('c'),
                files_only: o.flags.files_only || a.skip(1).contains('l'),
                fixed: o.flags.fixed || a.skip(1).contains('F'),
                invert: o.flags.invert || a.skip(1).contains('v'),
                word: o.flags.word || a.skip(1).contains('w'),
                ..o.flags
            },
            ..o
        }),
{
    reveal(option_step);
    assert(a[1] != '-');
    reveal(arg_form);
    lemma_letters_of_options();
    lemma_other_second("--top="@, a);
    lemma_other_second("--format="@, a);
    lemma_other_second("--port="@, a);
    lemma_other_second("--max-count="@, a);
    lemma_other_second("--regexp="@, a);
    lemma_other_second("--file="@, a);
    lemma_other_second("--glob="@, a);
    lemma_other_second("--max-depth="@, a);
    lemma_other_second("--max-filesize="@, a);
    lemma_other_second("--after-context="@, a);
    lemma_other_second("--before-context="@, a);
    lemma_other_second("--context="@, a);
    lemma_other_second("--group-separator="@, a);
    lemma_other_second("--color="@, a);
    assert forall|k: int| 1 <= k < a.len() implies cluster_switch(#[trigger] a[k]) is Some by {}
    lemma_clustered(o.flags, a, a.len() as int);
    assert(a.subrange(1, a.len() as int) =~= a.skip(1));
}

proof fn lemma_clustered(f: Flags, a: Seq<char>, n: int)
    requires
        1 <= n <= a.len(),
        forall|k: int|
            1 <= k < a.len() ==> #[trigger] a[k] == 'i' || a[k] == 'q' || a[k] == 'c' || a[k] == 'l' || a[k] == 'F' || a[k]
                == 'v' || a[k] == 'w',
    ensures
        clustered(f, a, n) == (Flags {
            ignore_case: f.ignore_case || a.subrange(1, n).contains('i'),
            quiet: f.quiet || a.subrange(1, n).contains('q'),
            count: f.count || a.subrange(1, n).contains('c'),
            files_only: f.files_only || a.subrange(1, n).contains('l'),
            fixed: f.fixed || a.subrange(1, n).contains('F'),
            invert: f.invert || a.subrange(1, n).contains('v'),
            word: f.word || a.subrange(1, n).contains('w'),
            ..f
        }),
    decreases n,
{
    if n > 1 {
        lemma_clustered(f, a, n - 1);
        let c = a[n - 1];
        assert(a.subrange(1, n) =~= a.subrange(1, n - 1).push(c));
        lemma_pushed(a.subrange(1, n - 1), c, 'i');
        lemma_pushed(a.subrange(1, n - 1), c, 'q');
        lemma_pushed(a.subrange(1, n - 1), c, 'c');
        lemma_pushed(a.subrange(1, n - 1), c, 'l');
        lemma_pushed(a.subrange(1, n - 1), c, 'F');
        lemma_pushed(a.subrange(1, n - 1), c, 'v');
        lemma_pushed(a.subrange(1, n - 1), c, 'w');
    }
}

proof fn lemma_pushed(s: Seq<char>, c: char, x: char)
    ensures
        s.push(c).contains(x) <==> s.contains(x) || c == x,
{
    if s.contains(x) {
        let k = choose|k: int| 0 <= k < s.len() && s[k] == x;
        assert(s.push(c)[k] == x);
    }
    assert(s.push(c)[s.len() as int] == c);
}

proof fn lemma_other_head(p: Seq<char>, a: Seq<char>)
    requires
        p.len() > 0,
        a.len() == 0 || a[0] != p[0],
    ensures
        !p.is_prefix_of(a),
{
    if p.is_prefix_of(a) {
        assert(a.subrange(0, p.len() as int)[0] == a[0]);
    }
}

proof fn lemma_other_second(p: Seq<char>, a: Seq<char>)
    requires
        p.len() > 1,
        a.len() < 2 || a[1] != p[1],
    ensures
        !p.is_prefix_of(a),
{
    if p.is_prefix_of(a) {
        assert(a.subrange(0, p.len() as int)[1] == a[1]);
    }
}

proof fn lemma_joined_form(p: Seq<char>, v: Seq<char>)
    ensures
        p.is_prefix_of(p + v),
        (p + v).skip(p.len() as int) == v,
        (p + v).len() == p.len() + v.len(),
        forall|k: int| 0 <= k < p.len() ==> #[trigger] (p + v)[k] == p[k],
        forall|q: Seq<char>| #[trigger] q.is_prefix_of(p + v) ==> forall|k: int|
            0 <= k < q.len() && k < p.len() ==> #[trigger] q[k] == p[k],
{
    assert((p + v).skip(p.len() as int) =~= v);
    assert((p + v).subrange(0, p.len() as int) =~= p);
    assert forall|q: Seq<char>| #[trigger] q.is_prefix_of(p + v) implies forall|k: int|
        0 <= k < q.len() && k < p.len() ==> #[trigger] q[k] == p[k] by {
        assert forall|k: int| 0 <= k < q.len() && k < p.len() implies #[trigger] q[k] == p[k] by {
            assert((p + v).subrange(0, q.len() as int)[k] == (p + v)[k]);
        }
    }
}

proof fn lemma_attached_form(c: char, v: Seq<char>)
    requires
        v.len() > 0,
        c == 'm' || c == 'g' || c == 'd' || c == 'A' || c == 'B' || c == 'C',
    ensures
        arg_form(seq!['-', c] + v) == ArgForm::Joined(
            if c == 'm' {
                Valued::MaxCount
            } else if c == 'g' {
                Valued::Glob
            } else if c == 'd' {
                Valued::MaxDepth
            } else if c == 'A' {
                Valued::After
            } else if c == 'B' {
                Valued::Before
            } else {
                Valued::Around
            },
            Given::Attached,
            2,
        ),
        (seq!['-', c] + v).skip(2) == v,
{
    let a = seq!['-', c] + v;
    assert(a.skip(2) =~= v);
    assert(a[0] == '-' && a[1] == c);
    reveal(arg_form);
    lemma_letters_of_options();
    lemma_other_second("--top="@, a);
    lemma_other_second("--format="@, a);
    lemma_other_second("--port="@, a);
    lemma_other_second("--max-count="@, a);
    lemma_other_second("--regexp="@, a);
    lemma_other_second("--file="@, a);
    lemma_other_second("--glob="@, a);
    lemma_other_second("--max-depth="@, a);
    lemma_other_second("--max-filesize="@, a);
    lemma_other_second("--after-context="@, a);
    lemma_other_second("--before-context="@, a);
    lemma_other_second("--context="@, a);
    lemma_other_second("--group-separator="@, a);
    lemma_other_second("--color="@, a);
}

/// Arguments are read one after the other, until `--`: all that follows it are operands.
pub proof fn law_arguments_are_read_in_order(args: Seq<Seq<char>>, i: int, o: OptionsView)
    requires
        0 <= i < args.len(),
    ensures
        args[i] == "--"@ ==> parsed_from(args, i, o, false) == Ok::<OptionsView, CliFaultView>(
            OptionsView { operands: o.operands + args.skip(i + 1), ..o },
        ),
        args[i] != "--"@ ==> match option_step(
            o,
            args[i],
            if i + 1 < args.len() {
                Some(args[i + 1])
            } else {
                None
            },
        ) {
            Ok((n, k)) => 1 <= k <= args.len() - i ==> parsed_from(args, i, o, false) == parsed_from(args, i + k, n, false),
            Err(e) => parsed_from(args, i, o, false) == Err::<OptionsView, CliFaultView>(e),
        },
        parsed_from(args, args.len() as int, o, false) == Ok::<OptionsView, CliFaultView>(o),
{
    if args[i] == "--"@ {
        lemma_rest_are_operands(args, i + 1, o);
    }
}

proof fn lemma_rest_are_operands(args: Seq<Seq<char>>, i: int, o: OptionsView)
    requires
        0 <= i <= args.len(),
    ensures
        parsed_from(args, i, o, true) == Ok::<OptionsView, CliFaultView>(
            OptionsView { operands: o.operands + args.skip(i), ..o },
        ),
    decreases args.len() - i,
{
    if i < args.len() {
        lemma_rest_are_operands(args, i + 1, with_operand(o, args[i]));
        assert(o.operands.push(args[i]) + args.skip(i + 1) =~= o.operands + args.skip(i));
    } else {
        assert(o.operands + args.skip(i) =~= o.operands);
    }
}

/// Without arguments nothing is asked for, and behind `--` there are operands alone.
pub proof fn law_nothing_is_asked_for_unasked(args: Seq<Seq<char>>)
    ensures
        parsed(Seq::empty()) matches Ok(o) && !o.flags.ignore_case && !o.flags.quiet && !o.flags.count && !o.flags.files_only
            && !o.flags.text_format && o.flags.color == ColorWhen::Auto && !o.flags.hidden && !o.flags.no_ignore
            && !o.flags.follow && !o.flags.explicit_patterns && !o.flags.fixed && !o.flags.invert && !o.flags.word
            && o.limits.top is None && o.limits.port is None && o.limits.max_depth is None && o.limits.max_filesize is None
            && o.limits.after is None && o.limits.before is None && o.limits.around is None && o.limits.max_count is None
            && o.use_index is None && o.globs.len() == 0 && o.patterns.len() == 0 && o.pattern_files.len() == 0
            && o.group_separator == "--"@ && o.operands.len() == 0,
        parsed(seq!["--"@] + args) matches Ok(o) && o.operands == args && parsed(Seq::empty()) == Ok::<
            OptionsView,
            CliFaultView,
        >(OptionsView { operands: Seq::empty(), ..o }),
{
    let all = seq!["--"@] + args;
    law_arguments_are_read_in_order(all, 0, no_options());
    assert(all.skip(1) =~= args);
    assert(Seq::<Seq<char>>::empty() + args =~= args);
}

/// A switch and an operand: the search that is asked for has the flag of the switch, under
/// either of its names, and no other.
pub proof fn law_switch_and_pattern(p: Seq<char>)
    requires
        p.len() == 0 || p[0] != '-',
    ensures
        parsed(seq!["-F"@, p]) matches Ok(o) && o.flags.fixed && !o.flags.invert && !o.flags.word && !o.flags.ignore_case && !o.flags.quiet && !o.flags.count && !o.flags.files_only && o.operands == seq![p] && o.limits == no_limits(),
        parsed(seq!["--fixed-strings"@, p]) matches Ok(o) && o.flags.fixed && !o.flags.invert && !o.flags.word && !o.flags.ignore_case && !o.flags.quiet && !o.flags.count && !o.flags.files_only && o.operands == seq![p] && o.limits == no_limits(),
        parsed(seq!["-v"@, p]) matches Ok(o) && o.flags.invert && !o.flags.fixed && !o.flags.word && !o.flags.ignore_case && !o.flags.quiet && !o.flags.count && !o.flags.files_only && o.operands == seq![p] && o.limits == no_limits(),
        parsed(seq!["--invert-match"@, p]) matches Ok(o) && o.flags.invert && !o.flags.fixed && !o.flags.word && !o.flags.ignore_case && !o.flags.quiet && !o.flags.count && !o.flags.files_only && o.operands == seq![p] && o.limits == no_limits(),
        parsed(seq!["-w"@, p]) matches Ok(o) && o.flags.word && !o.flags.fixed && !o.flags.invert && !o.flags.ignore_case && !o.flags.quiet && !o.flags.count && !o.flags.files_only && o.operands == seq![p] && o.limits == no_limits(),
        parsed(seq!["--word-regexp"@, p]) matches Ok(o) && o.flags.word && !o.flags.fixed && !o.flags.invert && !o.flags.ignore_case && !o.flags.quiet && !o.flags.count && !o.flags.files_only && o.operands == seq![p] && o.limits == no_limits(),
        parsed(seq!["-i"@, p]) matches Ok(o) && o.flags.ignore_case && !o.flags.fixed && !o.flags.invert && !o.flags.word && !o.flags.quiet && !o.flags.count && !o.flags.files_only && o.operands == seq![p] && o.limits == no_limits(),
        parsed(seq!["--ignore-case"@, p]) matches Ok(o) && o.flags.ignore_case && !o.flags.fixed && !o.flags.invert && !o.flags.word && !o.flags.quiet && !o.flags.count && !o.flags.files_only && o.operands == seq![p] && o.limits == no_limits(),
        parsed(seq!["-q"@, p]) matches Ok(o) && o.flags.quiet && !o.flags.fixed && !o.flags.invert && !o.flags.word && !o.flags.ignore_case && !o.flags.count && !o.flags.files_only && o.operands == seq![p] && o.limits == no_limits(),
        parsed(seq!["--quiet"@, p]) matches Ok(o) && o.flags.quiet && !o.flags.fixed && !o.flags.invert && !o.flags.word && !o.flags.ignore_case && !o.flags.count && !o.flags.files_only && o.operands == seq![p] && o.limits == no_limits(),
        parsed(seq!["--silent"@, p]) matches Ok(o) && o.flags.quiet && !o.flags.fixed && !o.flags.invert && !o.flags.word && !o.flags.ignore_case && !o.flags.count && !o.flags.files_only && o.operands == seq![p] && o.limits == no_limits(),
        parsed(seq!["-c"@, p]) matches Ok(o) && o.flags.count && !o.flags.fixed && !o.flags.invert && !o.flags.word && !o.flags.ignore_case && !o.flags.quiet && !o.flags.files_only && o.operands == seq![p] && o.limits == no_limits(),
        parsed(seq!["--count"@, p]) matches Ok(o) && o.flags.count && !o.flags.fixed && !o.flags.invert && !o.flags.word && !o.flags.ignore_case && !o.flags.quiet && !o.flags.files_only && o.operands == seq![p] && o.limits == no_limits(),
        parsed(seq!["-l"@, p]) matches Ok(o) && o.flags.files_only && !o.flags.fixed && !o.flags.invert && !o.flags.word && !o.flags.ignore_case && !o.flags.quiet && !o.flags.count && o.operands == seq![p] && o.limits == no_limits(),
        parsed(seq!["--files-with-matches"@, p]) matches Ok(o) && o.flags.files_only && !o.flags.fixed && !o.flags.invert && !o.flags.word && !o.flags.ignore_case && !o.flags.quiet && !o.flags.count && o.operands == seq![p] && o.limits == no_limits(),
{
    lemma_letters_of_options();
    lemma_switch_then_operand("-F"@, p);
    lemma_switch_then_operand("--fixed-strings"@, p);
    lemma_switch_then_operand("-v"@, p);
    lemma_switch_then_operand("--invert-match"@, p);
    lemma_switch_then_operand("-w"@, p);
    lemma_switch_then_operand("--word-regexp"@, p);
    lemma_switch_then_operand("-i"@, p);
    lemma_switch_then_operand("--ignore-case"@, p);
    lemma_switch_then_operand("-q"@, p);
    lemma_switch_then_operand("--quiet"@, p);
    lemma_switch_then_operand("--silent"@, p);
    lemma_switch_then_operand("-c"@, p);
    lemma_switch_then_operand("--count"@, p);
    lemma_switch_then_operand("-l"@, p);
    lemma_switch_then_operand("--files-with-matches"@, p);
    lemma_names_of_switches();
}

proof fn lemma_switch_then_operand(a: Seq<char>, p: Seq<char>)
    requires
        p.len() == 0 || p[0] != '-',
        a != "--"@,
    ensures
        arg_form(a) matches ArgForm::Switch(s) ==> parsed(seq![a, p]) == Ok::<OptionsView, CliFaultView>(
            OptionsView { flags: switched(no_flags(), s), operands: seq![p], ..no_options() },
        ),
{
    let all = seq![a, p];
    lemma_letters_of_options();
    reveal(option_step);
    if arg_form(a) is Switch {
        let s = arg_form(a)->Switch_0;
        let o = OptionsView { flags: switched(no_flags(), s), ..no_options() };
        law_arguments_are_read_in_order(all, 0, no_options());
        law_arguments_are_read_in_order(all, 1, o);
        law_operands_add_up(o, p, None);
        assert(Seq::<Seq<char>>::empty().push(p) =~= seq![p]);
    }
}

} // verus!
