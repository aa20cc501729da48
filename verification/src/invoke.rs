//! From arguments to a task: subcommands, the search that is asked for, and how it
//! ends.

use crate::cli::{
    color_enabled, port_in, read_port, CliFault, CliFaultView, ColorWhen, Flags, Options, OptionsView, Want,
};
use crate::patterns::{combine_patterns, combined};
use crate::text::{same_text, views};
use crate::walk::{asks_beyond_index, is_default_walk, WalkOptions};
use vstd::prelude::*;

verus! {

/// Label of standard input.
pub open spec fn stdin_label_of() -> Seq<char> {
    "(standard input)"@
}

/// Label of standard input.
pub fn stdin_label() -> (s: String)
    ensures
        s@ == stdin_label_of(),
{
    "(standard input)".to_owned()
}

// ---- help ----

/// A request that is answered at once.
#[derive(Clone, Copy, Debug, PartialEq, Eq, Structural)]
pub enum Notice {
    Help,
    Version,
}

/// The request that an argument makes, if any.
pub open spec fn notice_named(a: Seq<char>) -> Option<Notice> {
    if a == "--help"@ || a == "-h"@ {
        Some(Notice::Help)
    } else if a == "--version"@ || a == "-V"@ {
        Some(Notice::Version)
    } else {
        None
    }
}

/// The first such request from position `i` on; `--` ends the search for one.
pub open spec fn notice_from(args: Seq<Seq<char>>, i: int) -> Option<Notice>
    decreases args.len() - i,
{
    if i < 0 || i >= args.len() || args[i] == "--"@ {
        None
    } else {
        match notice_named(args[i]) {
            Some(n) => Some(n),
            None => notice_from(args, i + 1),
        }
    }
}

/// Whether help or the version is asked for.
pub fn find_notice(args: &[String]) -> (n: Option<Notice>)
    ensures
        n == notice_from(views(args@), 0),
{
    let ghost all = views(args@);
    let mut i: usize = 0;
    while i < args.len()
        invariant
            i <= args@.len(),
            all == views(args@),
            notice_from(all, i as int) == notice_from(all, 0),
        decreases args@.len() - i,
    {
        let a: &str = args[i].as_str();
        assert(all[i as int] == a@);
        if same_text(a, "--") {
            return None;
        }
        if same_text(a, "--help") || same_text(a, "-h") {
            return Some(Notice::Help);
        }
        if same_text(a, "--version") || same_text(a, "-V") {
            return Some(Notice::Version);
        }
        i = i + 1;
    }
    None
}

// ---- subcommands ----

/// The index file that `--index` names last from position `i` on, `cur` being the
/// one named so far.
pub open spec fn index_named(args: Seq<Seq<char>>, i: int, cur: Seq<char>) -> Result<Seq<char>, CliFaultView>
    decreases args.len() - i,
{
    if i < 0 || i >= args.len() {
        Ok(cur)
    } else if args[i] == "--index"@ {
        if i + 1 >= args.len() {
            Err(CliFaultView::Usage)
        } else {
            index_named(args, i + 2, args[i + 1])
        }
    } else {
        index_named(args, i + 1, cur)
    }
}

/// What `index` is asked to do: the tree and the index file.
pub open spec fn index_task(args: Seq<Seq<char>>) -> Result<(Seq<char>, Seq<char>), CliFaultView> {
    if args.len() < 2 {
        Err(CliFaultView::Usage)
    } else {
        match index_named(args, 2, ".nkg.json"@) {
            Ok(idx) => Ok((args[1], idx)),
            Err(e) => Err(e),
        }
    }
}

/// Read the arguments of `index`, the word itself being the first.
pub fn parse_index_args(args: &[String]) -> (res: Result<(String, String), CliFault>)
    ensures
        match res {
            Ok((root, idx)) => index_task(views(args@)) == Ok::<(Seq<char>, Seq<char>), CliFaultView>((root@, idx@)),
            Err(e) => index_task(views(args@)) == Err::<(Seq<char>, Seq<char>), CliFaultView>(e@),
        },
{
    let ghost all = views(args@);
    let size: usize = args.len();
    if size < 2 {
        return Err(CliFault::Usage);
    }
    let mut idx: String = ".nkg.json".to_owned();
    let mut i: usize = 2;
    while i < args.len()
        invariant
            2 <= i <= args@.len(),
            size == args@.len(),
            all == views(args@),
            index_named(all, i as int, idx@) == index_named(all, 2, ".nkg.json"@),
        decreases args@.len() - i,
    {
        assert(all[i as int] == args@[i as int]@);
        if same_text(args[i].as_str(), "--index") {
            if size - i < 2 {
                return Err(CliFault::Usage);
            }
            assert(all[i + 1] == args@[i + 1]@);
            idx = args[i + 1].clone();
            i = i + 2;
        } else {
            i = i + 1;
        }
    }
    assert(all[1] == args@[1]@);
    Ok((args[1].clone(), idx))
}

/// What `serve` is asked to do from position `i` on.
pub open spec fn serve_from(args: Seq<Seq<char>>, i: int, idx: Seq<char>, port: Option<u16>) -> Result<
    (Seq<char>, u16),
    CliFaultView,
>
    decreases args.len() - i,
{
    if i < 0 || i >= args.len() {
        match port {
            Some(p) => Ok((idx, p)),
            None => Err(CliFaultView::Usage),
        }
    } else if args[i] == "--index"@ {
        if i + 1 >= args.len() {
            Err(CliFaultView::Usage)
        } else {
            serve_from(args, i + 2, args[i + 1], port)
        }
    } else if args[i] == "--port"@ {
        if i + 1 >= args.len() {
            Err(CliFaultView::Usage)
        } else if port_in(args[i + 1]) is Some && port_in(args[i + 1])->Some_0 > 0 {
            serve_from(args, i + 2, idx, Some(port_in(args[i + 1])->Some_0 as u16))
        } else {
            Err(CliFaultView::BadValue { flag: "--port"@, arg: args[i + 1], want: Want::PortNumber })
        }
    } else {
        serve_from(args, i + 1, idx, port)
    }
}

/// What `serve` is asked to do: the index file and the port, which must be given and
/// not be zero.
pub open spec fn serve_task(args: Seq<Seq<char>>) -> Result<(Seq<char>, u16), CliFaultView> {
    serve_from(args, 1, ".nkg.json"@, None)
}

/// Read the arguments of `serve`, the word itself being the first.
pub fn parse_serve_args(args: &[String]) -> (res: Result<(String, u16), CliFault>)
    ensures
        match res {
            Ok((idx, port)) => serve_task(views(args@)) == Ok::<(Seq<char>, u16), CliFaultView>((idx@, port)),
            Err(e) => serve_task(views(args@)) == Err::<(Seq<char>, u16), CliFaultView>(e@),
        },
{
    let ghost all = views(args@);
    let size: usize = args.len();
    let mut idx: String = ".nkg.json".to_owned();
    let mut port: Option<u16> = None;
    let mut i: usize = 1;
    while i < size
        invariant
            1 <= i,
            size == args@.len(),
            all == views(args@),
            serve_from(all, i as int, idx@, port) == serve_task(all),
        decreases args@.len() - i,
    {
        assert(all[i as int] == args@[i as int]@);
        if same_text(args[i].as_str(), "--index") {
            if size - i < 2 {
                return Err(CliFault::Usage);
            }
            assert(all[i + 1] == args@[i + 1]@);
            idx = args[i + 1].clone();
            i = i + 2;
        } else if same_text(args[i].as_str(), "--port") {
            if size - i < 2 {
                return Err(CliFault::Usage);
            }
            assert(all[i + 1] == args@[i + 1]@);
            let given: u16 = match read_port(args[i + 1].as_str()) {
                Some(p) => p,
                None => 0,
            };
            if given == 0 {
                return Err(
                    CliFault::BadValue { flag: "--port".to_owned(), arg: args[i + 1].clone(), want: Want::PortNumber },
                );
            }
            port = Some(given);
            i = i + 2;
        } else {
            i = i + 1;
        }
    }
    match port {
        Some(p) => Ok((idx, p)),
        None => Err(CliFault::Usage),
    }
}

// ---- the search ----

/// The number of operands fits: with patterns given by option at most a path, else a
/// pattern and at most a path.
pub open spec fn operands_fit(o: OptionsView) -> bool {
    if o.flags.explicit_patterns {
        o.operands.len() <= 1
    } else {
        1 <= o.operands.len() <= 2
    }
}

/// Whether the number of operands fits.
pub fn check_operands(o: &Options) -> (b: bool)
    ensures
        b == operands_fit(o@),
{
    assert(views(o.operands@).len() == o.operands@.len());
    let n: usize = o.operands.len();
    if o.flags.explicit_patterns {
        n <= 1
    } else {
        1 <= n && n <= 2
    }
}

/// The pattern that matches nothing, for a search that was given no pattern.
pub open spec fn nothing_pattern() -> Seq<char> {
    "\\b\\B"@
}

/// The patterns of a search: those given by option and those read from files; or the
/// one that matches nothing; or the first operand.
pub open spec fn search_patterns(o: OptionsView, from_files: Seq<Seq<char>>) -> Seq<Seq<char>> {
    if !o.flags.explicit_patterns {
        o.patterns + from_files + seq![o.operands[0]]
    } else if o.patterns.len() + from_files.len() == 0 {
        seq![nothing_pattern()]
    } else {
        o.patterns + from_files
    }
}

/// Patterns are literal: not when nothing was given, since what stands for that is
/// no literal.
pub open spec fn search_fixed(o: OptionsView, from_files: Seq<Seq<char>>) -> bool {
    o.flags.fixed && !(o.flags.explicit_patterns && o.patterns.len() + from_files.len() == 0)
}

/// The path operand, if any.
pub open spec fn path_operand(o: OptionsView) -> Option<Seq<char>> {
    let at: int = if o.flags.explicit_patterns {
        0
    } else {
        1
    };
    if at < o.operands.len() {
        Some(o.operands[at])
    } else {
        None
    }
}

/// Standard input is searched: it is named, or no path is and it is no terminal.
pub open spec fn reads_stdin(o: OptionsView, stdin_is_terminal: bool) -> bool {
    match path_operand(o) {
        Some(p) => p == "-"@,
        None => !stdin_is_terminal,
    }
}

/// What to search for and where.
pub struct Search {
    pub patterns: Vec<String>,
    /// All patterns as one.
    pub pattern: String,
    /// Whether the patterns are literal.
    pub fixed: bool,
    /// Whether there is a lone literal pattern.
    pub fixed_single: bool,
    /// The path to search.
    pub root: String,
    /// Whether standard input is searched instead.
    pub stdin: bool,
    /// Lines to show before and after a hit.
    pub before: usize,
    pub after: usize,
}

/// The lines of context on one side: its own option beats the one for both sides.
pub open spec fn context_lines(own: Option<usize>, both: Option<usize>) -> usize {
    match own {
        Some(n) => n,
        None => match both {
            Some(n) => n,
            None => 0,
        },
    }
}

/// The search is what the options ask for.
pub open spec fn is_search(s: Search, o: OptionsView, from_files: Seq<Seq<char>>, stdin_is_terminal: bool) -> bool {
    &&& views(s.patterns@) == search_patterns(o, from_files)
    &&& s.fixed == search_fixed(o, from_files)
    &&& s.pattern@ == combined(search_patterns(o, from_files), s.fixed)
    &&& s.fixed_single == (s.fixed && search_patterns(o, from_files).len() == 1)
    &&& s.root@ == match path_operand(o) {
        Some(p) => p,
        None => "."@,
    }
    &&& s.stdin == (o.limits.port is None && reads_stdin(o, stdin_is_terminal))
    &&& s.before == context_lines(o.limits.before, o.limits.around)
    &&& s.after == context_lines(o.limits.after, o.limits.around)
}

fn pick_lines(own: Option<usize>, both: Option<usize>) -> (n: usize)
    ensures
        n == context_lines(own, both),
{
    match own {
        Some(n) => n,
        None => match both {
            Some(n) => n,
            None => 0,
        },
    }
}

/// Append copies of texts.
fn push_all(out: &mut Vec<String>, more: &[String])
    ensures
        views(final(out)@) == views(old(out)@) + views(more@),
{
    let ghost had = views(out@);
    let mut k: usize = 0;
    assert(had + views(more@).take(0) =~= had);
    while k < more.len()
        invariant
            k <= more@.len(),
            views(out@) == had + views(more@).take(k as int),
        decreases more@.len() - k,
    {
        let ghost mid = views(out@);
        out.push(more[k].clone());
        assert(views(out@) =~= mid.push(more@[k as int]@));
        k = k + 1;
        assert(views(out@) =~= had + views(more@).take(k as int));
    }
    assert(views(more@).take(k as int) =~= views(more@));
}

/// Settle what to search for and where. `from_files` are the patterns read from
/// pattern files. Naming standard input together with a port is refused.
pub fn resolve_search(o: &Options, from_files: &[String], stdin_is_terminal: bool) -> (res: Result<Search, CliFault>)
    ensures
        match res {
            Ok(s) => operands_fit(o@) && !(path_operand(o@) == Some("-"@) && o@.limits.port is Some) && is_search(
                s,
                o@,
                views(from_files@),
                stdin_is_terminal,
            ),
            Err(CliFault::Usage) => !operands_fit(o@),
            Err(CliFault::StdinOverPort) => operands_fit(o@) && path_operand(o@) == Some("-"@)
                && o@.limits.port is Some,
            Err(_) => false,
        },
{
    if !check_operands(o) {
        return Err(CliFault::Usage);
    }
    let ghost all = views(o.operands@);
    assert(all.len() == o.operands@.len());
    let at: usize = if o.flags.explicit_patterns {
        0
    } else {
        1
    };
    let named: bool = at < o.operands.len();
    let dash: bool = named && same_text(o.operands[at].as_str(), "-");
    proof {
        if named {
            assert(all[at as int] == o.operands@[at as int]@);
        }
    }
    if dash && o.limits.port.is_some() {
        return Err(CliFault::StdinOverPort);
    }
    let mut patterns: Vec<String> = Vec::new();
    assert(views(patterns@) =~= Seq::empty());
    push_all(&mut patterns, &o.patterns);
    push_all(&mut patterns, from_files);
    assert(views(patterns@) =~= views(o.patterns@) + views(from_files@));
    assert(views(patterns@).len() == patterns@.len());
    let ghost given = views(patterns@);
    let nothing: bool = o.flags.explicit_patterns && patterns.len() == 0;
    if nothing {
        patterns.push("\\b\\B".to_owned());
        assert(views(patterns@) =~= seq![nothing_pattern()]);
    }
    if !o.flags.explicit_patterns {
        patterns.push(o.operands[0].clone());
        assert(all[0] == o.operands@[0]@);
        assert(views(patterns@) =~= given + seq![all[0]]);
    }
    let fixed: bool = o.flags.fixed && !nothing;
    let pattern: String = combine_patterns(&patterns, fixed);
    assert(views(patterns@).len() == patterns@.len());
    let fixed_single: bool = fixed && patterns.len() == 1;
    let root: String = if named {
        o.operands[at].clone()
    } else {
        ".".to_owned()
    };
    let stdin: bool = o.limits.port.is_none() && (dash || (!named && !stdin_is_terminal));
    Ok(
        Search {
            patterns,
            pattern,
            fixed,
            fixed_single,
            root,
            stdin,
            before: pick_lines(o.limits.before, o.limits.around),
            after: pick_lines(o.limits.after, o.limits.around),
        },
    )
}

/// The traversal that the options ask for.
pub fn walk_options(o: &Options) -> (w: WalkOptions)
    ensures
        w.hidden == o@.flags.hidden,
        w.no_ignore == o@.flags.no_ignore,
        w.follow == o@.flags.follow,
        w.max_depth == o@.limits.max_depth,
        w.max_filesize == o@.limits.max_filesize,
        views(w.globs@) == o@.globs,
{
    let mut globs: Vec<String> = Vec::new();
    push_all(&mut globs, &o.globs);
    assert(views(globs@) =~= views(o.globs@));
    WalkOptions {
        hidden: o.flags.hidden,
        no_ignore: o.flags.no_ignore,
        follow: o.flags.follow,
        max_depth: o.limits.max_depth,
        max_filesize: o.limits.max_filesize,
        globs,
    }
}

/// Whether rows are highlighted: only text rows are.
pub fn color_on(o: &Options, stdout_is_terminal: bool) -> (on: bool)
    ensures
        on == (o@.flags.text_format && match o@.flags.color {
            ColorWhen::Always => true,
            ColorWhen::Never => false,
            ColorWhen::Auto => stdout_is_terminal,
        }),
{
    o.flags.text_format && color_enabled(o.flags.color, stdout_is_terminal)
}

// ---- how it ends ----

/// The exit status: 2 when a file could not be read, else 0 when something was
/// found and 1 when nothing was.
pub open spec fn exit_status_of(failed: bool, found: bool) -> u8 {
    if failed {
        2
    } else if found {
        0
    } else {
        1
    }
}

/// The exit status of a search.
pub fn exit_status(failed: bool, found: bool) -> (code: u8)
    ensures
        code == exit_status_of(failed, found),
{
    if failed {
        2
    } else if found {
        0
    } else {
        1
    }
}

/// Whether a quiet search found something: a cap of zero matches nothing.
pub fn quiet_finds(found: bool, max_count: Option<usize>) -> (b: bool)
    ensures
        b == (found && max_count != Some(0usize)),
{
    match max_count {
        Some(n) => found && n != 0,
        None => found,
    }
}

// ---- how it is done ----

/// How a search is answered.
#[derive(Clone, Copy, Debug, PartialEq, Eq, Structural)]
pub enum Route {
    /// By the daemon on this port.
    Port(u16),
    /// From standard input.
    Stdin,
    /// From an index on disk, after a daemon registered for it was asked.
    Probe,
    /// From an index on disk.
    Index,
    /// By a traversal.
    Scan,
}

/// How a search is answered: a daemon knows nothing of traversal filters, so that
/// with any set it is not asked.
pub open spec fn route_of(o: OptionsView, stdin: bool, default_walk: bool) -> Route {
    match o.limits.port {
        Some(p) => if default_walk {
            Route::Port(p)
        } else if o.use_index is Some {
            Route::Index
        } else {
            Route::Scan
        },
        None => if stdin {
            Route::Stdin
        } else if o.use_index is Some {
            if default_walk {
                Route::Probe
            } else {
                Route::Index
            }
        } else {
            Route::Scan
        },
    }
}

/// Settle how a search is answered. Standard input is never searched over a port.
pub fn plan_route(o: &Options, stdin: bool, walk: &WalkOptions) -> (r: Route)
    ensures
        r == route_of(o@, stdin, is_default_walk(*walk)),
{
    let default_walk: bool = walk.is_default();
    match o.limits.port {
        Some(p) => {
            if default_walk {
                Route::Port(p)
            } else if o.use_index.is_some() {
                Route::Index
            } else {
                Route::Scan
            }
        },
        None => {
            if stdin {
                Route::Stdin
            } else if o.use_index.is_some() {
                if default_walk {
                    Route::Probe
                } else {
                    Route::Index
                }
            } else {
                Route::Scan
            }
        },
    }
}

/// Whether an index cannot narrow the search: case is folded or matches are
/// inverted, so that the trigrams of the pattern say nothing, or files are asked for
/// that it does not hold.
pub fn forces_scan(o: &Options, walk: &WalkOptions) -> (b: bool)
    ensures
        b == (o@.flags.ignore_case || o@.flags.invert || asks_beyond_index(*walk)),
{
    o.flags.ignore_case || o.flags.invert || walk.beyond_index()
}

/// What is shown of the hits.
#[derive(Clone, Copy, Debug, PartialEq, Eq, Structural)]
pub enum Form {
    /// The files, or the number of hits in each.
    Counts,
    /// Hits with the lines around them.
    Context,
    /// Text rows.
    Text,
    /// JSON lines.
    Json,
}

/// What is shown of the hits; `ctx` tells whether lines around them are at hand.
pub open spec fn form_of(flags: Flags, ctx: bool) -> Form {
    if flags.count || flags.files_only {
        Form::Counts
    } else if ctx {
        Form::Context
    } else if flags.text_format {
        Form::Text
    } else {
        Form::Json
    }
}

/// Settle what is shown of the hits.
pub fn output_form(o: &Options, ctx: bool) -> (f: Form)
    ensures
        f == form_of(o@.flags, ctx),
{
    if o.flags.count || o.flags.files_only {
        Form::Counts
    } else if ctx {
        Form::Context
    } else if o.flags.text_format {
        Form::Text
    } else {
        Form::Json
    }
}

// ---- what a task is ----

/// The exit status tells three things apart: 2 if something failed, 0 if nothing did and
/// something was found, and 1 if nothing did and nothing was.
pub proof fn law_exit_status_tells_three_things(failed: bool, found: bool)
    ensures
        exit_status_of(failed, found) == 2 <==> failed,
        exit_status_of(failed, found) == 0 <==> !failed && found,
        exit_status_of(failed, found) == 1 <==> !failed && !found,
{
}

/// A search goes to the port that was named unless files are asked for that a daemon does not
/// answer for; to standard input if that is searched; to a daemon that is found through the
/// index, or to the index itself, if one was named; and otherwise it is a scan.
pub proof fn law_route_goes_by_what_was_asked(o: OptionsView, stdin: bool, default_walk: bool, p: u16)
    ensures
        route_of(o, stdin, default_walk) == Route::Port(p) <==> o.limits.port == Some(p) && default_walk,
        route_of(o, stdin, default_walk) == Route::Stdin <==> o.limits.port is None && stdin,
        route_of(o, stdin, default_walk) == Route::Probe <==> o.limits.port is None && !stdin && o.use_index is Some
            && default_walk,
        route_of(o, stdin, default_walk) == Route::Index <==> o.use_index is Some && !default_walk && (o.limits.port is Some
            || !stdin),
        route_of(o, stdin, default_walk) == Route::Scan <==> o.use_index is None && (if o.limits.port is Some {
            !default_walk
        } else {
            !stdin
        }),
{
}

/// Counts and file names win over everything, context over plain hits, and plain hits are
/// shown as text only if that was asked for.
pub proof fn law_form_goes_by_what_was_asked(flags: Flags, ctx: bool)
    ensures
        form_of(flags, ctx) == Form::Counts <==> flags.count || flags.files_only,
        form_of(flags, ctx) == Form::Context <==> !flags.count && !flags.files_only && ctx,
        form_of(flags, ctx) == Form::Text <==> !flags.count && !flags.files_only && !ctx && flags.text_format,
        form_of(flags, ctx) == Form::Json <==> !flags.count && !flags.files_only && !ctx && !flags.text_format,
{
}

/// The patterns of a search are those that were given by option, then those of the pattern
/// files, in order; without any such option the first operand is the one pattern. A search
/// with an option that gave no pattern at all matches nothing. The operand behind the
/// pattern, or the first one if no operand is a pattern, is the path.
pub proof fn law_search_has_what_was_given(s: Search, o: OptionsView, from_files: Seq<Seq<char>>, stdin_is_terminal: bool)
    requires
        operands_fit(o),
        is_search(s, o, from_files, stdin_is_terminal),
    ensures
        o.flags.explicit_patterns && o.patterns.len() + from_files.len() > 0 ==> views(s.patterns@) == o.patterns + from_files
            && s.fixed == o.flags.fixed,
        o.flags.explicit_patterns && o.patterns.len() + from_files.len() == 0 ==> views(s.patterns@) == seq!["\\b\\B"@]
            && !s.fixed,
        !o.flags.explicit_patterns && o.patterns.len() + from_files.len() == 0 ==> views(s.patterns@) == seq![
            o.operands[0],
        ] && s.fixed == o.flags.fixed,
        s.pattern@ == combined(views(s.patterns@), s.fixed),
        s.fixed_single <==> s.fixed && s.patterns@.len() == 1,
        o.flags.explicit_patterns && o.operands.len() == 1 ==> s.root@ == o.operands[0],
        !o.flags.explicit_patterns && o.operands.len() == 2 ==> s.root@ == o.operands[1],
        (o.flags.explicit_patterns && o.operands.len() == 0) || (!o.flags.explicit_patterns && o.operands.len() == 1)
            ==> s.root@ == "."@ && (s.stdin <==> o.limits.port is None && !stdin_is_terminal),
        s.root@ == "-"@ ==> (s.stdin <==> o.limits.port is None),
        (o.flags.explicit_patterns && o.operands.len() == 1) || (!o.flags.explicit_patterns && o.operands.len() == 2)
            ==> (s.stdin ==> s.root@ == "-"@),
        s.stdin ==> o.limits.port is None,
{
    assert(views(s.patterns@).len() == s.patterns@.len());
    let none = Seq::<Seq<char>>::empty();
    if o.patterns.len() + from_files.len() == 0 {
        assert(o.patterns =~= none);
        assert(from_files =~= none);
        if !o.flags.explicit_patterns {
            assert(o.patterns + from_files + seq![o.operands[0]] =~= seq![o.operands[0]]);
        }
    }
    reveal_strlit(".");
    reveal_strlit("-");
    assert("."@[0] != "-"@[0]);
}

/// Context on one side is what was asked for on that side, else what was asked for on both,
/// else none; and the two sides do not change each other.
pub proof fn law_each_side_has_its_context(s: Search, o: OptionsView, from_files: Seq<Seq<char>>, stdin_is_terminal: bool)
    requires
        is_search(s, o, from_files, stdin_is_terminal),
    ensures
        o.limits.before is Some ==> s.before == o.limits.before->Some_0,
        o.limits.before is None && o.limits.around is Some ==> s.before == o.limits.around->Some_0,
        o.limits.before is None && o.limits.around is None ==> s.before == 0,
        o.limits.after is Some ==> s.after == o.limits.after->Some_0,
        o.limits.after is None && o.limits.around is Some ==> s.after == o.limits.around->Some_0,
        o.limits.after is None && o.limits.around is None ==> s.after == 0,
{
}

/// A search takes one pattern and at most one path, and only a path where patterns were given
/// by option.
pub proof fn law_operands_are_pattern_and_path(o: OptionsView)
    ensures
        operands_fit(o) <==> (o.flags.explicit_patterns && o.operands.len() == 0) || o.operands.len() == 1 || (
        !o.flags.explicit_patterns && o.operands.len() == 2),
{
}

/// Help or the version is shown exactly if it is asked for before any `--`, and of both the
/// one that was asked for first.
pub proof fn law_first_notice_counts(args: Seq<Seq<char>>, k: int)
    requires
        0 <= k <= args.len(),
        forall|i: int|
            0 <= i < k ==> #[trigger] args[i] != "--"@ && args[i] != "--help"@ && args[i] != "-h"@ && args[i]
                != "--version"@ && args[i] != "-V"@,
    ensures
        k < args.len() && (args[k] == "--help"@ || args[k] == "-h"@) ==> notice_from(args, 0) == Some(Notice::Help),
        k < args.len() && (args[k] == "--version"@ || args[k] == "-V"@) ==> notice_from(args, 0) == Some(Notice::Version),
        k < args.len() && args[k] == "--"@ ==> notice_from(args, 0) is None,
        k == args.len() ==> notice_from(args, 0) is None,
{
    reveal_strlit("--");
    reveal_strlit("--help");
    reveal_strlit("-h");
    reveal_strlit("--version");
    reveal_strlit("-V");
    assert("--"@.len() == 2 && "--help"@.len() == 6 && "-h"@.len() == 2 && "--version"@.len() == 9 && "-V"@.len() == 2);
    assert("--"@[1] == '-' && "-h"@[1] == 'h' && "-V"@[1] == 'V');
    lemma_no_notice_before(args, 0, k);
}

proof fn lemma_no_notice_before(args: Seq<Seq<char>>, i: int, k: int)
    requires
        0 <= i <= k <= args.len(),
        forall|i: int|
            0 <= i < k ==> #[trigger] args[i] != "--"@ && args[i] != "--help"@ && args[i] != "-h"@ && args[i]
                != "--version"@ && args[i] != "-V"@,
    ensures
        notice_from(args, i) == notice_from(args, k),
    decreases k - i,
{
    if i < k {
        lemma_no_notice_before(args, i + 1, k);
    }
}

/// Indexing goes to the path that was named and writes the index that was named last, or
/// `.nkg.json` if none was; it needs the path, and a name behind `--index`.
pub proof fn law_index_is_written_where_named(args: Seq<Seq<char>>, k: int)
    requires
        2 <= k,
        forall|i: int| k + 2 <= i < args.len() ==> #[trigger] args[i] != "--index"@,
        forall|i: int| 2 <= i < k && i < args.len() ==> #[trigger] args[i] != "--index"@,
    ensures
        args.len() < 2 ==> index_task(args) is Err,
        args.len() >= 2 && k >= args.len() ==> index_task(args) == Ok::<(Seq<char>, Seq<char>), CliFaultView>(
            (args[1], ".nkg.json"@),
        ),
        k + 1 < args.len() && args[k] == "--index"@ ==> index_task(args) == Ok::<(Seq<char>, Seq<char>), CliFaultView>(
            (args[1], args[k + 1]),
        ),
        k + 1 == args.len() && args[k] == "--index"@ ==> index_task(args) is Err,
{
    let mid: int = if k < args.len() {
        k
    } else {
        args.len() as int
    };
    if args.len() >= 2 {
        lemma_no_index_between(args, 2, mid, ".nkg.json"@);
        if k + 1 < args.len() && args[k] == "--index"@ {
            lemma_no_index_between(args, k + 2, args.len() as int, args[k + 1]);
        }
    }
}

proof fn lemma_no_index_between(args: Seq<Seq<char>>, i: int, e: int, cur: Seq<char>)
    requires
        0 <= i <= e <= args.len(),
        forall|j: int| i <= j < e ==> #[trigger] args[j] != "--index"@,
    ensures
        index_named(args, i, cur) == index_named(args, e, cur),
    decreases e - i,
{
    if i < e {
        lemma_no_index_between(args, i + 1, e, cur);
    }
}

/// A daemon serves the index that was named on the port that was named, in either order; it
/// needs a port, which is a number from 1 to 65535.
pub proof fn law_daemon_serves_index_on_port(c: Seq<char>, idx: Seq<char>, port: Seq<char>)
    ensures
        port_in(port) matches Some(n) && n > 0 ==> {
            &&& serve_task(seq![c, "--index"@, idx, "--port"@, port]) == Ok::<(Seq<char>, u16), CliFaultView>(
                (idx, port_in(port)->Some_0 as u16),
            )
            &&& serve_task(seq![c, "--port"@, port, "--index"@, idx]) == Ok::<(Seq<char>, u16), CliFaultView>(
                (idx, port_in(port)->Some_0 as u16),
            )
            &&& serve_task(seq![c, "--port"@, port]) == Ok::<(Seq<char>, u16), CliFaultView>(
                (".nkg.json"@, port_in(port)->Some_0 as u16),
            )
        },
        !(port_in(port) matches Some(n) && n > 0) ==> serve_task(seq![c, "--port"@, port]) is Err && serve_task(
            seq![c, "--index"@, idx, "--port"@, port],
        ) is Err,
        serve_task(seq![c, "--index"@, idx]) is Err,
        serve_task(seq![c]) is Err,
        serve_task(seq![c, "--port"@]) is Err,
        serve_task(seq![c, "--index"@]) is Err,
{
    reveal_strlit("--index");
    reveal_strlit("--port");
    assert("--index"@.len() == 7 && "--port"@.len() == 6);
    reveal_with_fuel(serve_from, 4);
}

} // verus!
