//! `cargo:` and `cargo::` lines from a build script.

use vstd::prelude::*;
use crate::invocation::byte_len;
use crate::profile::dup_list;
use crate::text::after_prefix;
use crate::text::cat3;
use crate::text::first_at;
use crate::text::lemma_first_at;
use crate::text::lines;
use crate::text::lines_of;
use crate::text::replace_char;
use crate::text::same;
use crate::text::split_first;
use crate::text::split_once;
use crate::text::strip_prefix;
use crate::text::swapped;
use crate::text::to_upper;
use crate::text::uppercase;
use crate::text::views;
use crate::text::words;
use crate::text::words_of;

verus! {

#[derive(Debug, PartialEq, Eq)]
pub enum LinkArgTarget {
    All,
    Bins,
    Bin(String),
    Cdylib,
    Tests,
    Examples,
    Benches,
}

pub enum LinkTargetView {
    All,
    Bins,
    Bin(Seq<char>),
    Cdylib,
    Tests,
    Examples,
    Benches,
}

impl View for LinkArgTarget {
    type V = LinkTargetView;

    open spec fn view(&self) -> LinkTargetView {
        match self {
            LinkArgTarget::All => LinkTargetView::All,
            LinkArgTarget::Bins => LinkTargetView::Bins,
            LinkArgTarget::Bin(s) => LinkTargetView::Bin(s@),
            LinkArgTarget::Cdylib => LinkTargetView::Cdylib,
            LinkArgTarget::Tests => LinkTargetView::Tests,
            LinkArgTarget::Examples => LinkTargetView::Examples,
            LinkArgTarget::Benches => LinkTargetView::Benches,
        }
    }
}

impl LinkArgTarget {
    pub fn dup(&self) -> (r: LinkArgTarget)
        ensures
            r@ == self@,
    {
        match self {
            LinkArgTarget::All => LinkArgTarget::All,
            LinkArgTarget::Bins => LinkArgTarget::Bins,
            LinkArgTarget::Bin(s) => LinkArgTarget::Bin(s.clone()),
            LinkArgTarget::Cdylib => LinkArgTarget::Cdylib,
            LinkArgTarget::Tests => LinkArgTarget::Tests,
            LinkArgTarget::Examples => LinkArgTarget::Examples,
            LinkArgTarget::Benches => LinkArgTarget::Benches,
        }
    }
}

#[derive(Debug)]
pub struct BuildOutput {
    pub link_libs: Vec<String>,
    pub link_search: Vec<String>,
    pub link_args: Vec<(LinkArgTarget, String)>,
    pub cfgs: Vec<String>,
    pub check_cfgs: Vec<String>,
    pub env: Vec<(String, String)>,
    pub metadata: Vec<(String, String)>,
    pub rerun_if_changed: Vec<String>,
    pub rerun_if_env_changed: Vec<String>,
    pub warnings: Vec<String>,
    pub errors: Vec<String>,
}

/// The model of what a build script asked for.
pub struct OutputView {
    pub link_libs: Seq<Seq<char>>,
    pub link_search: Seq<Seq<char>>,
    pub link_args: Seq<(LinkTargetView, Seq<char>)>,
    pub cfgs: Seq<Seq<char>>,
    pub check_cfgs: Seq<Seq<char>>,
    pub env: Seq<(Seq<char>, Seq<char>)>,
    pub metadata: Seq<(Seq<char>, Seq<char>)>,
    pub rerun_if_changed: Seq<Seq<char>>,
    pub rerun_if_env_changed: Seq<Seq<char>>,
    pub warnings: Seq<Seq<char>>,
    pub errors: Seq<Seq<char>>,
}

impl View for BuildOutput {
    type V = OutputView;

    open spec fn view(&self) -> OutputView {
        OutputView {
            link_libs: views(self.link_libs@),
            link_search: views(self.link_search@),
            link_args: views(self.link_args@),
            cfgs: views(self.cfgs@),
            check_cfgs: views(self.check_cfgs@),
            env: views(self.env@),
            metadata: views(self.metadata@),
            rerun_if_changed: views(self.rerun_if_changed@),
            rerun_if_env_changed: views(self.rerun_if_env_changed@),
            warnings: views(self.warnings@),
            errors: views(self.errors@),
        }
    }
}

pub open spec fn no_output() -> OutputView {
    OutputView {
        link_libs: Seq::empty(),
        link_search: Seq::empty(),
        link_args: Seq::empty(),
        cfgs: Seq::empty(),
        check_cfgs: Seq::empty(),
        env: Seq::empty(),
        metadata: Seq::empty(),
        rerun_if_changed: Seq::empty(),
        rerun_if_env_changed: Seq::empty(),
        warnings: Seq::empty(),
        errors: Seq::empty(),
    }
}

/// A line that counts: whether it has the new syntax, its key, and its value.
pub open spec fn instruction(line: Seq<char>) -> Option<(bool, Seq<char>, Seq<char>)> {
    match after_prefix(line, "cargo::"@) {
        Some(rest) => match split_first(rest, '=') {
            Some((k, v)) => Some((true, k, v)),
            None => None,
        },
        None => match after_prefix(line, "cargo:"@) {
            Some(rest) => match split_first(rest, '=') {
                Some((k, v)) => Some((false, k, v)),
                None => None,
            },
            None => None,
        },
    }
}

/// Which links a `rustc-link-arg` is for.
pub open spec fn link_target(key: Seq<char>) -> Option<LinkTargetView> {
    if key == "rustc-link-arg"@ {
        Some(LinkTargetView::All)
    } else if key == "rustc-link-arg-bins"@ {
        Some(LinkTargetView::Bins)
    } else if key == "rustc-link-arg-cdylib"@ || key == "rustc-cdylib-link-arg"@ {
        Some(LinkTargetView::Cdylib)
    } else if key == "rustc-link-arg-tests"@ {
        Some(LinkTargetView::Tests)
    } else if key == "rustc-link-arg-examples"@ {
        Some(LinkTargetView::Examples)
    } else if key == "rustc-link-arg-benches"@ {
        Some(LinkTargetView::Benches)
    } else {
        None
    }
}

/// The libraries and search paths among the flags from `k` on. The value of a flag is the rest of its
/// word, or the next word.
pub open spec fn flags_from(ws: Seq<Seq<char>>, k: int, out: OutputView) -> OutputView
    decreases ws.len() - k,
{
    if k < 0 || k >= ws.len() {
        out
    } else if byte_len(ws[k]) > 2 {
        match after_prefix(ws[k], "-l"@) {
            Some(v) => flags_from(ws, k + 1, OutputView { link_libs: out.link_libs.push(v), ..out }),
            None => match after_prefix(ws[k], "-L"@) {
                Some(v) => flags_from(ws, k + 1, OutputView { link_search: out.link_search.push(v), ..out }),
                None => flags_from(ws, k + 1, out),
            },
        }
    } else if k + 1 >= ws.len() {
        out
    } else if ws[k] == "-l"@ {
        flags_from(ws, k + 2, OutputView { link_libs: out.link_libs.push(ws[k + 1]), ..out })
    } else if ws[k] == "-L"@ {
        flags_from(ws, k + 2, OutputView { link_search: out.link_search.push(ws[k + 1]), ..out })
    } else {
        flags_from(ws, k + 2, out)
    }
}

/// What an instruction adds.
pub open spec fn obeyed(out: OutputView, new_syntax: bool, key: Seq<char>, value: Seq<char>) -> OutputView {
    if key == "rustc-link-lib"@ {
        OutputView { link_libs: out.link_libs.push(value), ..out }
    } else if key == "rustc-link-search"@ {
        OutputView { link_search: out.link_search.push(value), ..out }
    } else if link_target(key).is_some() {
        OutputView { link_args: out.link_args.push((link_target(key).unwrap(), value)), ..out }
    } else if key == "rustc-link-arg-bin"@ {
        match split_first(value, '=') {
            Some((bin, arg)) => OutputView { link_args: out.link_args.push((LinkTargetView::Bin(bin), arg)), ..out },
            None => out,
        }
    } else if key == "rustc-cfg"@ {
        OutputView { cfgs: out.cfgs.push(value), ..out }
    } else if key == "rustc-check-cfg"@ {
        OutputView { check_cfgs: out.check_cfgs.push(value), ..out }
    } else if key == "rustc-env"@ {
        match split_first(value, '=') {
            Some((k, v)) => OutputView { env: out.env.push((k, v)), ..out },
            None => out,
        }
    } else if key == "rustc-flags"@ {
        flags_from(words_of(value), 0, out)
    } else if key == "warning"@ {
        OutputView { warnings: out.warnings.push(value), ..out }
    } else if key == "error"@ {
        OutputView { errors: out.errors.push(value), ..out }
    } else if key == "rerun-if-changed"@ {
        OutputView { rerun_if_changed: out.rerun_if_changed.push(value), ..out }
    } else if key == "rerun-if-env-changed"@ {
        OutputView { rerun_if_env_changed: out.rerun_if_env_changed.push(value), ..out }
    } else if new_syntax && key == "metadata"@ {
        match split_first(value, '=') {
            Some((k, v)) => OutputView { metadata: out.metadata.push((k, v)), ..out },
            None => out,
        }
    } else if !new_syntax {
        OutputView { metadata: out.metadata.push((key, value)), ..out }
    } else {
        OutputView {
            warnings: out.warnings.push("unknown build script instruction `cargo::"@ + key + "`"@),
            ..out
        }
    }
}

/// What the first `k` lines ask for.
pub open spec fn output_upto(ls: Seq<Seq<char>>, k: int) -> OutputView
    decreases k,
{
    if k <= 0 || k > ls.len() {
        no_output()
    } else {
        match instruction(ls[k - 1]) {
            Some((new_syntax, key, value)) => obeyed(output_upto(ls, k - 1), new_syntax, key, value),
            None => output_upto(ls, k - 1),
        }
    }
}

/// What the lines that a build script printed ask for.
pub open spec fn output_of(stdout: Seq<char>) -> OutputView {
    let ls = lines_of(stdout);
    output_upto(ls, ls.len() as int)
}

fn push_text(v: &mut Vec<String>, s: &str)
    ensures
        views(final(v)@) == views(old(v)@).push(s@),
{
    v.push(s.to_owned());
    assert(views(v@) =~= views(old(v)@).push(s@));
}

fn push_pair(v: &mut Vec<(String, String)>, a: &str, b: &str)
    ensures
        views(final(v)@) == views(old(v)@).push((a@, b@)),
{
    v.push((a.to_owned(), b.to_owned()));
    assert(views(v@) =~= views(old(v)@).push((a@, b@)));
}

fn push_arg(v: &mut Vec<(LinkArgTarget, String)>, t: LinkArgTarget, s: &str)
    ensures
        views(final(v)@) == views(old(v)@).push((t@, s@)),
{
    let ghost tv = t@;
    v.push((t, s.to_owned()));
    assert(views(v@) =~= views(old(v)@).push((tv, s@)));
}

fn read_target(key: &str) -> (r: Option<LinkArgTarget>)
    ensures
        crate::text::opt_view(r) == link_target(key@),
{
    if same(key, "rustc-link-arg") {
        Some(LinkArgTarget::All)
    } else if same(key, "rustc-link-arg-bins") {
        Some(LinkArgTarget::Bins)
    } else if same(key, "rustc-link-arg-cdylib") || same(key, "rustc-cdylib-link-arg") {
        Some(LinkArgTarget::Cdylib)
    } else if same(key, "rustc-link-arg-tests") {
        Some(LinkArgTarget::Tests)
    } else if same(key, "rustc-link-arg-examples") {
        Some(LinkArgTarget::Examples)
    } else if same(key, "rustc-link-arg-benches") {
        Some(LinkArgTarget::Benches)
    } else {
        None
    }
}

fn read_instruction<'a>(line: &'a str) -> (r: Option<(bool, &'a str, &'a str)>)
    ensures
        match r {
            Some((n, k, v)) => instruction(line@) == Some((n, k@, v@)),
            None => instruction(line@).is_none(),
        },
{
    let (new_syntax, rest) = match strip_prefix(line, "cargo::") {
        Some(rest) => (true, rest),
        None => match strip_prefix(line, "cargo:") {
            Some(rest) => (false, rest),
            None => return None,
        },
    };
    match split_once(rest, '=') {
        Some((k, v)) => Some((new_syntax, k, v)),
        None => None,
    }
}

impl BuildOutput {
    pub fn new() -> (r: BuildOutput)
        ensures
            r@ == no_output(),
    {
        let r = BuildOutput {
            link_libs: Vec::new(),
            link_search: Vec::new(),
            link_args: Vec::new(),
            cfgs: Vec::new(),
            check_cfgs: Vec::new(),
            env: Vec::new(),
            metadata: Vec::new(),
            rerun_if_changed: Vec::new(),
            rerun_if_env_changed: Vec::new(),
            warnings: Vec::new(),
            errors: Vec::new(),
        };
        assert(views(r.cfgs@) =~= Seq::<Seq<char>>::empty());
        assert(views(r.link_args@) =~= Seq::<(LinkTargetView, Seq<char>)>::empty());
        assert(views(r.env@) =~= Seq::<(Seq<char>, Seq<char>)>::empty());
        r
    }

    fn read_flags(&mut self, value: &str)
        ensures
            final(self)@ == flags_from(words_of(value@), 0, old(self)@),
    {
        let ws = words(value);
        let ghost all = words_of(value@);
        let ghost start = self@;
        let mut k: usize = 0;
        while k < ws.len()
            invariant
                all == views(ws@),
                all == words_of(value@),
                start == old(self)@,
                flags_from(all, k as int, self@) == flags_from(all, 0, start),
            decreases ws@.len() - k,
        {
            assert(all[k as int] == ws@[k as int]@);
            let flag = ws[k].as_str();
            if flag.as_bytes().len() > 2 {
                match strip_prefix(flag, "-l") {
                    Some(v) => {
                        push_text(&mut self.link_libs, v);
                    }
                    None => match strip_prefix(flag, "-L") {
                        Some(v) => {
                            push_text(&mut self.link_search, v);
                        }
                        None => {}
                    },
                }
                k += 1;
            } else {
                if k + 1 < ws.len() {
                    assert(all[k + 1] == ws@[k + 1]@);
                    if same(flag, "-l") {
                        push_text(&mut self.link_libs, ws[k + 1].as_str());
                    } else if same(flag, "-L") {
                        push_text(&mut self.link_search, ws[k + 1].as_str());
                    }
                    k += 2;
                } else {
                    return;
                }
            }
        }
    }

    fn obey(&mut self, new_syntax: bool, key: &str, value: &str)
        ensures
            final(self)@ == obeyed(old(self)@, new_syntax, key@, value@),
    {
        if same(key, "rustc-link-lib") {
            push_text(&mut self.link_libs, value);
        } else if same(key, "rustc-link-search") {
            push_text(&mut self.link_search, value);
        } else if let Some(t) = read_target(key) {
            push_arg(&mut self.link_args, t, value);
        } else if same(key, "rustc-link-arg-bin") {
            if let Some((bin, arg)) = split_once(value, '=') {
                push_arg(&mut self.link_args, LinkArgTarget::Bin(bin.to_owned()), arg);
            }
        } else if same(key, "rustc-cfg") {
            push_text(&mut self.cfgs, value);
        } else if same(key, "rustc-check-cfg") {
            push_text(&mut self.check_cfgs, value);
        } else if same(key, "rustc-env") {
            if let Some((k, v)) = split_once(value, '=') {
                push_pair(&mut self.env, k, v);
            }
        } else if same(key, "rustc-flags") {
            self.read_flags(value);
        } else if same(key, "warning") {
            push_text(&mut self.warnings, value);
        } else if same(key, "error") {
            push_text(&mut self.errors, value);
        } else if same(key, "rerun-if-changed") {
            push_text(&mut self.rerun_if_changed, value);
        } else if same(key, "rerun-if-env-changed") {
            push_text(&mut self.rerun_if_env_changed, value);
        } else if new_syntax && same(key, "metadata") {
            if let Some((k, v)) = split_once(value, '=') {
                push_pair(&mut self.metadata, k, v);
            }
        } else if !new_syntax {
            push_pair(&mut self.metadata, key, value);
        } else {
            push_text(&mut self.warnings, cat3("unknown build script instruction `cargo::", key, "`").as_str());
        }
    }

    pub fn parse(stdout: &str) -> (r: BuildOutput)
        ensures
            r@ == output_of(stdout@),
    {
        let mut out = BuildOutput::new();
        let ls = lines(stdout);
        let ghost all = lines_of(stdout@);
        let mut k: usize = 0;
        while k < ls.len()
            invariant
                k <= ls@.len(),
                all == views(ls@),
                out@ == output_upto(all, k as int),
            decreases ls@.len() - k,
        {
            assert(all[k as int] == ls@[k as int]@);
            if let Some((new_syntax, key, value)) = read_instruction(ls[k].as_str()) {
                out.obey(new_syntax, key, value);
            }
            k += 1;
        }
        out
    }
}

/// The text is what `f` makes of the other one.
pub open spec fn made_by<F: Fn(&str) -> String>(f: F, from: Seq<char>, to: String) -> bool {
    exists|s: &str| s@ == from && #[trigger] call_ensures(f, (s,), to)
}

pub open spec fn all_made<F: Fn(&str) -> String>(f: F, from: Seq<String>, to: Seq<String>) -> bool {
    from.len() == to.len() && forall|k: int| 0 <= k < from.len() ==> made_by(f, from[k]@, #[trigger] to[k])
}

/// The second texts are what `f` makes of the others; the first stay.
pub open spec fn seconds_made<A: View, F: Fn(&str) -> String>(f: F, from: Seq<(A, String)>, to: Seq<(A, String)>) -> bool {
    from.len() == to.len() && forall|k: int|
        0 <= k < from.len() ==> (#[trigger] to[k]).0@ == from[k].0@ && made_by(f, from[k].1@, to[k].1)
}

fn map_texts<F: Fn(&str) -> String>(f: &F, v: &Vec<String>) -> (r: Vec<String>)
    requires
        forall|s: &str| call_requires(*f, (s,)),
    ensures
        all_made(*f, v@, r@),
{
    let mut r: Vec<String> = Vec::new();
    let mut k: usize = 0;
    while k < v.len()
        invariant
            k <= v@.len(),
            forall|s: &str| call_requires(*f, (s,)),
            r@.len() == k,
            forall|j: int| 0 <= j < k ==> made_by(*f, v@[j]@, #[trigger] r@[j]),
        decreases v@.len() - k,
    {
        let s: &str = v[k].as_str();
        let t = f(s);
        assert(made_by(*f, v@[k as int]@, t));
        r.push(t);
        k += 1;
    }
    r
}

fn map_pairs<F: Fn(&str) -> String>(f: &F, v: &Vec<(String, String)>) -> (r: Vec<(String, String)>)
    requires
        forall|s: &str| call_requires(*f, (s,)),
    ensures
        seconds_made(*f, v@, r@),
{
    let mut r: Vec<(String, String)> = Vec::new();
    let mut k: usize = 0;
    while k < v.len()
        invariant
            k <= v@.len(),
            forall|s: &str| call_requires(*f, (s,)),
            r@.len() == k,
            forall|j: int| 0 <= j < k ==> (#[trigger] r@[j]).0@ == v@[j].0@ && made_by(*f, v@[j].1@, r@[j].1),
        decreases v@.len() - k,
    {
        let s: &str = v[k].1.as_str();
        let t = f(s);
        assert(made_by(*f, v@[k as int].1@, t));
        r.push((v[k].0.clone(), t));
        k += 1;
    }
    r
}

fn map_args<F: Fn(&str) -> String>(f: &F, v: &Vec<(LinkArgTarget, String)>) -> (r: Vec<(LinkArgTarget, String)>)
    requires
        forall|s: &str| call_requires(*f, (s,)),
    ensures
        seconds_made(*f, v@, r@),
{
    let mut r: Vec<(LinkArgTarget, String)> = Vec::new();
    let mut k: usize = 0;
    while k < v.len()
        invariant
            k <= v@.len(),
            forall|s: &str| call_requires(*f, (s,)),
            r@.len() == k,
            forall|j: int| 0 <= j < k ==> (#[trigger] r@[j]).0@ == v@[j].0@ && made_by(*f, v@[j].1@, r@[j].1),
        decreases v@.len() - k,
    {
        let s: &str = v[k].1.as_str();
        let t = f(s);
        assert(made_by(*f, v@[k as int].1@, t));
        r.push((v[k].0.dup(), t));
        k += 1;
    }
    r
}

impl BuildOutput {
    /// Apply `f` to every value that may contain a path
    pub fn map_strings<F: Fn(&str) -> String>(&self, f: F) -> (r: BuildOutput)
        requires
            forall|s: &str| call_requires(f, (s,)),
        ensures
            all_made(f, self.link_libs@, r.link_libs@),
            all_made(f, self.link_search@, r.link_search@),
            seconds_made(f, self.link_args@, r.link_args@),
            r.cfgs@ == self.cfgs@,
            r.check_cfgs@ == self.check_cfgs@,
            seconds_made(f, self.env@, r.env@),
            seconds_made(f, self.metadata@, r.metadata@),
            all_made(f, self.rerun_if_changed@, r.rerun_if_changed@),
            r.rerun_if_env_changed@ == self.rerun_if_env_changed@,
            r.warnings@ == self.warnings@,
            r.errors@ == self.errors@,
    {
        BuildOutput {
            link_libs: map_texts(&f, &self.link_libs),
            link_search: map_texts(&f, &self.link_search),
            link_args: map_args(&f, &self.link_args),
            cfgs: dup_list(&self.cfgs),
            check_cfgs: dup_list(&self.check_cfgs),
            env: map_pairs(&f, &self.env),
            metadata: map_pairs(&f, &self.metadata),
            rerun_if_changed: map_texts(&f, &self.rerun_if_changed),
            rerun_if_env_changed: dup_list(&self.rerun_if_env_changed),
            warnings: dup_list(&self.warnings),
            errors: dup_list(&self.errors),
        }
    }
}

/// `CARGO_FEATURE_<NAME>` / `DEP_<LINKS>_<KEY>` style environment names
pub fn env_name(s: &str) -> (r: String)
    ensures
        r@ == swapped(uppercase(s@), '-', '_'),
        crate::text::ascii(s@) ==> r@ == swapped(crate::text::ascii_upper(s@), '-', '_'),
{
    replace_char(to_upper(s).as_str(), '-', '_')
}

// ---------------------------------------------------------------------------
// Outputs that are put together.

/// One output behind the other, list by list.
pub open spec fn both_outputs(a: OutputView, b: OutputView) -> OutputView {
    OutputView {
        link_libs: a.link_libs + b.link_libs,
        link_search: a.link_search + b.link_search,
        link_args: a.link_args + b.link_args,
        cfgs: a.cfgs + b.cfgs,
        check_cfgs: a.check_cfgs + b.check_cfgs,
        env: a.env + b.env,
        metadata: a.metadata + b.metadata,
        rerun_if_changed: a.rerun_if_changed + b.rerun_if_changed,
        rerun_if_env_changed: a.rerun_if_env_changed + b.rerun_if_env_changed,
        warnings: a.warnings + b.warnings,
        errors: a.errors + b.errors,
    }
}

proof fn lemma_same_output(a: OutputView, b: OutputView)
    requires
        a.link_libs =~= b.link_libs,
        a.link_search =~= b.link_search,
        a.link_args =~= b.link_args,
        a.cfgs =~= b.cfgs,
        a.check_cfgs =~= b.check_cfgs,
        a.env =~= b.env,
        a.metadata =~= b.metadata,
        a.rerun_if_changed =~= b.rerun_if_changed,
        a.rerun_if_env_changed =~= b.rerun_if_env_changed,
        a.warnings =~= b.warnings,
        a.errors =~= b.errors,
    ensures
        a == b,
{
}

proof fn lemma_flags(ws: Seq<Seq<char>>, k: int, a: OutputView, b: OutputView)
    ensures
        flags_from(ws, k, both_outputs(a, b)) == both_outputs(a, flags_from(ws, k, b)),
    decreases ws.len() - k,
{
    if 0 <= k < ws.len() {
        let lib = |v: Seq<char>| OutputView { link_libs: b.link_libs.push(v), ..b };
        let search = |v: Seq<char>| OutputView { link_search: b.link_search.push(v), ..b };
        assert forall|v: Seq<char>| #[trigger] both_outputs(a, lib(v)) == (OutputView {
            link_libs: both_outputs(a, b).link_libs.push(v),
            ..both_outputs(a, b)
        }) by {
            assert(a.link_libs + b.link_libs.push(v) =~= (a.link_libs + b.link_libs).push(v));
        }
        assert forall|v: Seq<char>| #[trigger] both_outputs(a, search(v)) == (OutputView {
            link_search: both_outputs(a, b).link_search.push(v),
            ..both_outputs(a, b)
        }) by {
            assert(a.link_search + b.link_search.push(v) =~= (a.link_search + b.link_search).push(v));
        }
        if byte_len(ws[k]) > 2 {
            match after_prefix(ws[k], "-l"@) {
                Some(v) => {
                    assert(both_outputs(a, lib(v)) == both_outputs(a, lib(v)));
                    lemma_flags(ws, k + 1, a, lib(v));
                },
                None => match after_prefix(ws[k], "-L"@) {
                    Some(v) => {
                        assert(both_outputs(a, search(v)) == both_outputs(a, search(v)));
                        lemma_flags(ws, k + 1, a, search(v));
                    },
                    None => {
                        lemma_flags(ws, k + 1, a, b);
                    },
                },
            }
        } else if k + 1 < ws.len() {
            let v = ws[k + 1];
            assert(both_outputs(a, lib(v)) == both_outputs(a, lib(v)));
            assert(both_outputs(a, search(v)) == both_outputs(a, search(v)));
            lemma_flags(ws, k + 2, a, lib(v));
            lemma_flags(ws, k + 2, a, search(v));
            lemma_flags(ws, k + 2, a, b);
        }
    }
}

proof fn lemma_obeyed(a: OutputView, b: OutputView, new_syntax: bool, key: Seq<char>, value: Seq<char>)
    ensures
        obeyed(both_outputs(a, b), new_syntax, key, value) == both_outputs(a, obeyed(b, new_syntax, key, value)),
{
    let l = obeyed(both_outputs(a, b), new_syntax, key, value);
    let r = both_outputs(a, obeyed(b, new_syntax, key, value));
    if key == "rustc-flags"@ {
        lemma_flags(words_of(value), 0, a, b);
    }
    assert(l.link_libs =~= r.link_libs);
    assert(l.link_search =~= r.link_search);
    assert(l.link_args =~= r.link_args);
    assert(l.cfgs =~= r.cfgs);
    assert(l.check_cfgs =~= r.check_cfgs);
    assert(l.env =~= r.env);
    assert(l.metadata =~= r.metadata);
    assert(l.rerun_if_changed =~= r.rerun_if_changed);
    assert(l.rerun_if_env_changed =~= r.rerun_if_env_changed);
    assert(l.warnings =~= r.warnings);
    assert(l.errors =~= r.errors);
    lemma_same_output(l, r);
}

proof fn lemma_outputs_upto(x: Seq<Seq<char>>, y: Seq<Seq<char>>, k: int)
    requires
        0 <= k <= y.len(),
    ensures
        output_upto(x + y, x.len() + k) == both_outputs(output_upto(x, x.len() as int), output_upto(y, k)),
    decreases k,
{
    let all = x + y;
    let a = output_upto(x, x.len() as int);
    if k > 0 {
        lemma_outputs_upto(x, y, k - 1);
        assert(all[x.len() + k - 1] == y[k - 1]);
        if let Some((n, key, value)) = instruction(y[k - 1]) {
            lemma_obeyed(a, output_upto(y, k - 1), n, key, value);
        }
    } else {
        lemma_output_prefix(x, all, x.len() as int);
        lemma_same_output(both_outputs(a, no_output()), a);
    }
}

proof fn lemma_output_prefix(x: Seq<Seq<char>>, all: Seq<Seq<char>>, k: int)
    requires
        0 <= k <= x.len() <= all.len(),
        forall|i: int| 0 <= i < x.len() ==> x[i] == all[i],
    ensures
        output_upto(x, k) == output_upto(all, k),
    decreases k,
{
    if k > 0 {
        lemma_output_prefix(x, all, k - 1);
    }
}

proof fn lemma_lines_behind(a: Seq<char>, b: Seq<char>, k: int)
    requires
        0 <= k <= b.len(),
    ensures
        crate::text::lines_from(a + b, a.len() + k) == crate::text::lines_from(b, k),
    decreases b.len() - k,
{
    let s = a + b;
    if k < b.len() {
        let i = first_at(b, '\n', k);
        let j = first_at(s, '\n', a.len() + k);
        lemma_first_at(b, '\n', k);
        lemma_first_at(s, '\n', a.len() + k);
        assert(j == a.len() + i) by {
            if j < a.len() + i {
                assert(s[j] == b[j - a.len()]);
            }
            if a.len() + i < j {
                assert(s[a.len() + i] == b[i]);
            }
        }
        if i < b.len() {
            lemma_lines_behind(a, b, i + 1);
            assert(s.subrange(a.len() + k, j) =~= b.subrange(k, i));
        } else {
            assert(s.skip(a.len() + k) =~= b.skip(k));
        }
    }
}

proof fn lemma_lines_joined(a: Seq<char>, b: Seq<char>, from: int)
    requires
        0 <= from <= a.len(),
        a.len() > 0 ==> a.last() == '\n',
    ensures
        crate::text::lines_from(a + b, from) == crate::text::lines_from(a, from) + lines_of(b),
    decreases a.len() - from,
{
    let s = a + b;
    if from < a.len() {
        let i = first_at(a, '\n', from);
        let j = first_at(s, '\n', from);
        lemma_first_at(a, '\n', from);
        lemma_first_at(s, '\n', from);
        assert(a[a.len() - 1] == '\n');
        assert(i < a.len());
        assert(s[i] == a[i]);
        assert(j == i) by {
            if j < i {
                assert(s[j] == a[j]);
            }
        }
        lemma_lines_joined(a, b, i + 1);
        assert(s.subrange(from, j) =~= a.subrange(from, i));
        let x = crate::text::chomp(a.subrange(from, i));
        assert(crate::text::lines_from(s, from) =~= crate::text::lines_from(a, from) + lines_of(b));
    } else {
        lemma_lines_behind(a, b, 0);
        assert(crate::text::lines_from(a, from) + lines_of(b) =~= lines_of(b));
    }
}

/// Each line is read on its own, and every list keeps the order of the lines: what two outputs ask for, one behind the
/// other, is what the first asks for and then what the second does.
pub proof fn law_outputs_are_read_line_by_line(a: Seq<char>, b: Seq<char>)
    requires
        a.len() > 0 ==> a.last() == '\n',
    ensures
        output_of(a + b) == both_outputs(output_of(a), output_of(b)),
{
    lemma_lines_joined(a, b, 0);
    let x = lines_of(a);
    let y = lines_of(b);
    lemma_outputs_upto(x, y, y.len() as int);
}

} // verus!
