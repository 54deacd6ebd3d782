//! Status lines, warnings, one progress line. Same shape as cargo.
//!
//! What goes to the terminal comes back as text; whoever asked for it writes it.

use vstd::prelude::*;
use crate::invocation::byte_len;
use crate::invocation::opt_text;
use crate::num::dec;
use crate::num::usize_text;
use crate::text::cat;
use crate::text::cat3;
use crate::text::cat5;
use crate::text::chars_of;
use crate::text::ends_with;
use crate::text::ends;
use crate::text::join;
use crate::text::joined;
use crate::text::push_char;
use crate::text::same;
use crate::text::string_of;
use crate::text::views;

verus! {

#[derive(Clone, Copy, Debug, PartialEq, Eq, Structural)]
pub enum Verbosity {
    Quiet,
    Normal,
    Verbose,
    VeryVerbose,
}

#[derive(Clone, Copy, Debug, PartialEq, Eq, Structural)]
pub enum MessageFormat {
    Human,
    /// One-line diagnostics, no JSON.
    Short,
    Json {
        /// `json-render-diagnostics`: human output as well as the JSON.
        render: bool,
        short: bool,
        ansi: bool,
    },
}

/// The format of that name.
pub open spec fn format_named(s: Seq<char>) -> Option<MessageFormat> {
    if s == "human"@ {
        Some(MessageFormat::Human)
    } else if s == "short"@ {
        Some(MessageFormat::Short)
    } else if s == "json"@ {
        Some(MessageFormat::Json { render: false, short: false, ansi: false })
    } else if s == "json-diagnostic-short"@ {
        Some(MessageFormat::Json { render: false, short: true, ansi: false })
    } else if s == "json-diagnostic-rendered-ansi"@ {
        Some(MessageFormat::Json { render: false, short: false, ansi: true })
    } else if s == "json-render-diagnostics"@ {
        Some(MessageFormat::Json { render: true, short: false, ansi: true })
    } else {
        None
    }
}

impl MessageFormat {
    /// Whether people read the output too.
    pub open spec fn renders(self) -> bool {
        match self {
            MessageFormat::Json { render, .. } => render,
            _ => true,
        }
    }

    pub fn parse(s: &str) -> (r: Result<MessageFormat, String>)
        ensures
            match r {
                Ok(f) => format_named(s@) == Some(f),
                Err(e) => format_named(s@).is_none() && e@ == "unknown --message-format `"@ + s@ + "`"@,
            },
    {
        if same(s, "human") {
            Ok(MessageFormat::Human)
        } else if same(s, "short") {
            Ok(MessageFormat::Short)
        } else if same(s, "json") {
            Ok(MessageFormat::Json { render: false, short: false, ansi: false })
        } else if same(s, "json-diagnostic-short") {
            Ok(MessageFormat::Json { render: false, short: true, ansi: false })
        } else if same(s, "json-diagnostic-rendered-ansi") {
            Ok(MessageFormat::Json { render: false, short: false, ansi: true })
        } else if same(s, "json-render-diagnostics") {
            Ok(MessageFormat::Json { render: true, short: false, ansi: true })
        } else {
            Err(cat3("unknown --message-format `", s, "`"))
        }
    }

    pub fn is_json(self) -> (r: bool)
        ensures
            r == self is Json,
    {
        match self {
            MessageFormat::Json { .. } => true,
            _ => false,
        }
    }

    pub fn render(self) -> (r: bool)
        ensures
            r == self.renders(),
    {
        match self {
            MessageFormat::Human | MessageFormat::Short => true,
            MessageFormat::Json { render, .. } => render,
        }
    }
}

/// What is known of the terminal and the variables that speak of it.
#[derive(Debug)]
pub struct Terminal {
    pub tty: bool,
    /// `CARGO_TERM_COLOR`
    pub cargo_color: Option<String>,
    /// `CARGO_TERM_QUIET`
    pub cargo_quiet: Option<String>,
    /// `NO_COLOR` is set.
    pub no_color: bool,
    /// `TERM` is `dumb`.
    pub dumb: bool,
}

#[derive(Debug)]
pub struct Shell {
    verbosity: Verbosity,
    color: bool,
    tty: bool,
    format: MessageFormat,
    progress_shown: bool,
}

/// The model of a shell.
pub struct ShellView {
    pub verbosity: Verbosity,
    pub color: bool,
    pub tty: bool,
    pub format: MessageFormat,
    pub progress_shown: bool,
}

impl View for Shell {
    type V = ShellView;

    closed spec fn view(&self) -> ShellView {
        ShellView {
            verbosity: self.verbosity,
            color: self.color,
            tty: self.tty,
            format: self.format,
            progress_shown: self.progress_shown,
        }
    }
}

pub const GREEN: &'static str = "\x1b[1;32m";

pub const CYAN: &'static str = "\x1b[1;36m";

pub const YELLOW: &'static str = "\x1b[1;33m";

pub const RED: &'static str = "\x1b[1;31m";

pub const BOLD: &'static str = "\x1b[1m";

pub const RESET: &'static str = "\x1b[0m";

/// Takes the cursor back and clears the line.
pub const CLEAR: &'static str = "\r\x1b[2K";

/// The flag decides, then cargo's variable, then the terminal.
pub open spec fn wants_color(
    flag: Option<Seq<char>>,
    cargo_term: Option<Seq<char>>,
    tty: bool,
    no_color: bool,
    term_dumb: bool,
) -> bool {
    if flag == Some("always"@) {
        true
    } else if flag == Some("never"@) {
        false
    } else if cargo_term == Some("always"@) {
        true
    } else if cargo_term == Some("never"@) {
        false
    } else {
        tty && !no_color && !term_dumb
    }
}

fn is_text(o: Option<&str>, s: &str) -> (r: bool)
    ensures
        r == (opt_text(o) == Some(s@)),
{
    match o {
        Some(t) => same(t, s),
        None => false,
    }
}

pub fn color_enabled(flag: Option<&str>, cargo_term: Option<&str>, tty: bool, no_color: bool, term_dumb: bool) -> (r: bool)
    ensures
        r == wants_color(opt_text(flag), opt_text(cargo_term), tty, no_color, term_dumb),
{
    if is_text(flag, "always") {
        true
    } else if is_text(flag, "never") {
        false
    } else if is_text(cargo_term, "always") {
        true
    } else if is_text(cargo_term, "never") {
        false
    } else {
        tty && !no_color && !term_dumb
    }
}

pub open spec fn level(quiet: bool, verbose: u8) -> Verbosity {
    if quiet {
        Verbosity::Quiet
    } else if verbose == 0 {
        Verbosity::Normal
    } else if verbose == 1 {
        Verbosity::Verbose
    } else {
        Verbosity::VeryVerbose
    }
}

/// The character `n` times.
pub open spec fn times(c: char, n: int) -> Seq<char> {
    Seq::new(if n < 0 { 0 } else { n as nat }, |i: int| c)
}

/// The text behind as many spaces as it takes to fill twelve columns.
pub open spec fn right12(s: Seq<char>) -> Seq<char> {
    times(' ', 12 - s.len()) + s
}

/// The characters of the longest beginning that takes at most `n` bytes, of the first `k`.
pub open spec fn fits_in(s: Seq<char>, n: nat, k: int) -> int
    decreases k,
{
    if k <= 0 {
        0
    } else if byte_len(s.take(k)) <= n {
        k
    } else {
        fits_in(s, n, k - 1)
    }
}

/// The names, cut off where they are too many.
pub open spec fn shortened(s: Seq<char>) -> Seq<char> {
    if byte_len(s) > 60 {
        s.take(fits_in(s, 57, s.len() as int)) + "..."@
    } else {
        s
    }
}

impl ShellView {
    pub open spec fn shows(self) -> bool {
        self.verbosity != Verbosity::Quiet && self.format.renders()
    }

    pub open spec fn verbose(self) -> bool {
        self.verbosity is Verbose || self.verbosity is VeryVerbose
    }

    pub open spec fn painted(self, style: Seq<char>, s: Seq<char>) -> Seq<char> {
        if self.color {
            style + s + RESET@
        } else {
            s
        }
    }

    /// What clears the progress line, if there is one.
    pub open spec fn cleared(self) -> Seq<char> {
        if self.progress_shown {
            CLEAR@
        } else {
            ""@
        }
    }

    /// A line of its own.
    pub open spec fn line(self, s: Seq<char>) -> Seq<char> {
        self.cleared() + s + "\n"@
    }

    pub open spec fn verb_line(self, style: Seq<char>, verb: Seq<char>, msg: Seq<char>) -> Seq<char> {
        self.line(self.painted(style, right12(verb)) + " "@ + msg)
    }

    pub open spec fn label_line(self, style: Seq<char>, label: Seq<char>, msg: Seq<char>) -> Seq<char> {
        self.line(self.painted(style, label) + ": "@ + msg)
    }

    pub open spec fn idle(self) -> ShellView {
        ShellView { progress_shown: false, ..self }
    }

    /// What rustc's `--json` is asked for.
    pub open spec fn json_kinds(self) -> Seq<char> {
        match self.format {
            MessageFormat::Short => "diagnostic-short,artifacts,future-incompat"@,
            MessageFormat::Json { short, ansi, .. } => if short {
                "diagnostic-short,artifacts,future-incompat"@
            } else if ansi {
                "diagnostic-rendered-ansi,artifacts,future-incompat"@
            } else {
                "artifacts,future-incompat"@
            },
            MessageFormat::Human => if self.color {
                "diagnostic-rendered-ansi,artifacts,future-incompat"@
            } else {
                "artifacts,future-incompat"@
            },
        }
    }

    /// The progress line: how much is done, and what is under way.
    pub open spec fn progress_line(self, done: nat, total: nat, active: Seq<Seq<char>>) -> Seq<char> {
        let filled = done as int * 25 / total as int;
        CLEAR@ + self.painted(CYAN@, right12("Building"@)) + " ["@ + times('=', filled) + ">"@ + times(
            ' ',
            25 - (if filled < 25 { filled } else { 25 }),
        ) + "] "@ + dec(done) + "/"@ + dec(total) + ": "@ + shortened(joined(active, ", "@))
    }
}

pub(crate) fn repeat(c: char, n: usize) -> (r: String)
    ensures
        r@ == times(c, n as int),
{
    let mut r = String::new();
    let mut k: usize = 0;
    while k < n
        invariant
            k <= n,
            r@ == times(c, k as int),
        decreases n - k,
    {
        push_char(&mut r, c);
        assert(times(c, k as int).push(c) =~= times(c, k + 1));
        k += 1;
    }
    r
}

fn pad12(s: &str) -> (r: String)
    ensures
        r@ == right12(s@),
{
    let n: usize = chars_of(s).len();
    if n >= 12 {
        assert(times(' ', 12 - n) + s@ =~= s@);
        s.to_owned()
    } else {
        cat(repeat(' ', 12 - n).as_str(), s)
    }
}

fn shorten(s: &str) -> (r: String)
    ensures
        r@ == shortened(s@),
{
    if s.as_bytes().len() <= 60 {
        return s.to_owned();
    }
    let cs = chars_of(s);
    let mut k: usize = cs.len();
    while k > 0
        invariant
            cs@ == s@,
            byte_len(s@) > 60,
            k <= cs@.len(),
            fits_in(s@, 57, s@.len() as int) == fits_in(s@, 57, k as int),
        decreases k,
    {
        let part = string_of(&cs, 0, k);
        assert(s@.subrange(0, k as int) =~= s@.take(k as int));
        if part.as_str().as_bytes().len() <= 57 {
            return cat(part.as_str(), "...");
        }
        k -= 1;
    }
    assert(s@.take(0) + "..."@ =~= "..."@);
    "...".to_owned()
}

impl Shell {
    pub fn new(verbose: u8, quiet: bool, color: Option<&str>, term: &Terminal) -> (r: Shell)
        ensures
            r@ == (ShellView {
                verbosity: level(
                    quiet || crate::text::opt_view(term.cargo_quiet) == Some("true"@) || crate::text::opt_view(
                        term.cargo_quiet,
                    ) == Some("1"@),
                    verbose,
                ),
                color: wants_color(
                    opt_text(color),
                    crate::text::opt_view(term.cargo_color),
                    term.tty,
                    term.no_color,
                    term.dumb,
                ),
                tty: term.tty,
                format: MessageFormat::Human,
                progress_shown: false,
            }),
    {
        let cargo_color: Option<&str> = match &term.cargo_color {
            Some(s) => Some(s.as_str()),
            None => None,
        };
        let cargo_quiet: Option<&str> = match &term.cargo_quiet {
            Some(s) => Some(s.as_str()),
            None => None,
        };
        let color = color_enabled(color, cargo_color, term.tty, term.no_color, term.dumb);
        let quiet: bool = quiet || is_text(cargo_quiet, "true") || is_text(cargo_quiet, "1");
        let verbosity = if quiet {
            Verbosity::Quiet
        } else if verbose == 0 {
            Verbosity::Normal
        } else if verbose == 1 {
            Verbosity::Verbose
        } else {
            Verbosity::VeryVerbose
        };
        Shell { verbosity, color, tty: term.tty, format: MessageFormat::Human, progress_shown: false }
    }

    pub fn set_format(&mut self, format: MessageFormat)
        ensures
            final(self)@ == (ShellView { format, ..old(self)@ }),
    {
        self.format = format;
    }

    pub fn format(&self) -> (r: MessageFormat)
        ensures
            r == self@.format,
    {
        self.format
    }

    pub fn verbosity(&self) -> (r: Verbosity)
        ensures
            r == self@.verbosity,
    {
        self.verbosity
    }

    pub fn is_verbose(&self) -> (r: bool)
        ensures
            r == self@.verbose(),
    {
        match self.verbosity {
            Verbosity::Verbose | Verbosity::VeryVerbose => true,
            _ => false,
        }
    }

    pub fn color(&self) -> (r: bool)
        ensures
            r == self@.color,
    {
        self.color
    }

    pub fn rustc_json(&self) -> (r: &'static str)
        ensures
            r@ == self@.json_kinds(),
    {
        match self.format {
            MessageFormat::Short => "diagnostic-short,artifacts,future-incompat",
            MessageFormat::Json { short, ansi, .. } => if short {
                "diagnostic-short,artifacts,future-incompat"
            } else if ansi {
                "diagnostic-rendered-ansi,artifacts,future-incompat"
            } else {
                "artifacts,future-incompat"
            },
            MessageFormat::Human => if self.color {
                "diagnostic-rendered-ansi,artifacts,future-incompat"
            } else {
                "artifacts,future-incompat"
            },
        }
    }

    fn show_human(&self) -> (r: bool)
        ensures
            r == self@.shows(),
    {
        self.verbosity != Verbosity::Quiet && self.format.render()
    }

    fn paint(&self, style: &str, s: &str) -> (r: String)
        ensures
            r@ == self@.painted(style@, s@),
    {
        if self.color {
            cat3(style, s, RESET)
        } else {
            s.to_owned()
        }
    }

    fn emit(&mut self, line: &str) -> (r: String)
        ensures
            r@ == old(self)@.line(line@),
            final(self)@ == old(self)@.idle(),
    {
        let clear: &str = if self.progress_shown {
            CLEAR
        } else {
            ""
        };
        self.progress_shown = false;
        cat3(clear, line, "\n")
    }

    fn verb_line(&mut self, style: &str, verb: &str, msg: &str) -> (r: Option<String>)
        ensures
            old(self)@.shows() ==> final(self)@ == old(self)@.idle() && crate::text::opt_view(r) == Some(
                old(self)@.verb_line(style@, verb@, msg@),
            ),
            !old(self)@.shows() ==> final(self)@ == old(self)@ && r.is_none(),
    {
        if !self.show_human() {
            return None;
        }
        let line = cat3(self.paint(style, pad12(verb).as_str()).as_str(), " ", msg);
        Some(self.emit(line.as_str()))
    }

    pub fn status(&mut self, verb: &str, msg: &str) -> (r: Option<String>)
        ensures
            old(self)@.shows() ==> final(self)@ == old(self)@.idle() && crate::text::opt_view(r) == Some(
                old(self)@.verb_line(GREEN@, verb@, msg@),
            ),
            !old(self)@.shows() ==> final(self)@ == old(self)@ && r.is_none(),
    {
        self.verb_line(GREEN, verb, msg)
    }

    pub fn status_alt(&mut self, verb: &str, msg: &str) -> (r: Option<String>)
        ensures
            old(self)@.shows() ==> final(self)@ == old(self)@.idle() && crate::text::opt_view(r) == Some(
                old(self)@.verb_line(CYAN@, verb@, msg@),
            ),
            !old(self)@.shows() ==> final(self)@ == old(self)@ && r.is_none(),
    {
        self.verb_line(CYAN, verb, msg)
    }

    pub fn verbose_status(&mut self, verb: &str, msg: &str) -> (r: Option<String>)
        ensures
            old(self)@.verbose() && old(self)@.shows() ==> final(self)@ == old(self)@.idle() && crate::text::opt_view(r)
                == Some(old(self)@.verb_line(GREEN@, verb@, msg@)),
            !(old(self)@.verbose() && old(self)@.shows()) ==> final(self)@ == old(self)@ && r.is_none(),
    {
        if self.is_verbose() {
            self.verb_line(GREEN, verb, msg)
        } else {
            None
        }
    }

    fn label_line(&mut self, style: &str, label: &str, msg: &str) -> (r: String)
        ensures
            r@ == old(self)@.label_line(style@, label@, msg@),
            final(self)@ == old(self)@.idle(),
    {
        let line = cat3(self.paint(style, label).as_str(), ": ", msg);
        self.emit(line.as_str())
    }

    pub fn warn(&mut self, msg: &str) -> (r: Option<String>)
        ensures
            old(self)@.shows() ==> final(self)@ == old(self)@.idle() && crate::text::opt_view(r) == Some(
                old(self)@.label_line(YELLOW@, "warning"@, msg@),
            ),
            !old(self)@.shows() ==> final(self)@ == old(self)@ && r.is_none(),
    {
        if self.show_human() {
            Some(self.label_line(YELLOW, "warning", msg))
        } else {
            None
        }
    }

    /// Errors are always shown.
    pub fn error(&mut self, msg: &str) -> (r: String)
        ensures
            r@ == old(self)@.label_line(RED@, "error"@, msg@),
            final(self)@ == old(self)@.idle(),
    {
        self.label_line(RED, "error", msg)
    }

    pub fn note(&mut self, msg: &str) -> (r: Option<String>)
        ensures
            old(self)@.shows() ==> final(self)@ == old(self)@.idle() && crate::text::opt_view(r) == Some(
                old(self)@.label_line(BOLD@, "note"@, msg@),
            ),
            !old(self)@.shows() ==> final(self)@ == old(self)@ && r.is_none(),
    {
        if self.show_human() {
            Some(self.label_line(BOLD, "note", msg))
        } else {
            None
        }
    }

    /// Text as it is, ended by a newline.
    pub fn raw(&mut self, text: &str) -> (r: String)
        ensures
            r@ == old(self)@.cleared() + text@ + if ends(text@, "\n"@) {
                ""@
            } else {
                "\n"@
            },
            final(self)@ == old(self)@.idle(),
    {
        let clear: &str = if self.progress_shown {
            CLEAR
        } else {
            ""
        };
        self.progress_shown = false;
        let end: &str = if ends_with(text, "\n") {
            ""
        } else {
            "\n"
        };
        cat3(clear, text, end)
    }

    /// The progress line, on a terminal.
    pub fn progress(&mut self, done: usize, total: usize, active: &Vec<String>) -> (r: Option<String>)
        requires
            done * 25 <= usize::MAX,
        ensures
            old(self)@.tty && old(self)@.shows() && total > 0 ==> final(self)@ == (ShellView {
                progress_shown: true,
                ..old(self)@
            }) && crate::text::opt_view(r) == Some(
                old(self)@.progress_line(done as nat, total as nat, views(active@)),
            ),
            !(old(self)@.tty && old(self)@.shows() && total > 0) ==> final(self)@ == old(self)@ && r.is_none(),
    {
        if !self.tty || !self.show_human() || total == 0 {
            return None;
        }
        let filled: usize = done * 25 / total;
        let empty: usize = if filled < 25 {
            25 - filled
        } else {
            0
        };
        let names = shorten(join(active, ", ").as_str());
        let mut r = cat5(
            CLEAR,
            self.paint(CYAN, pad12("Building").as_str()).as_str(),
            " [",
            repeat('=', filled).as_str(),
            ">",
        );
        r.append(repeat(' ', empty).as_str());
        r.append("] ");
        r.append(usize_text(done).as_str());
        r.append("/");
        r.append(usize_text(total).as_str());
        r.append(": ");
        r.append(names.as_str());
        self.progress_shown = true;
        Some(r)
    }

    pub fn clear_progress(&mut self) -> (r: &'static str)
        ensures
            r@ == old(self)@.cleared(),
            final(self)@ == old(self)@.idle(),
    {
        if self.progress_shown {
            self.progress_shown = false;
            CLEAR
        } else {
            ""
        }
    }
}

} // verus!
