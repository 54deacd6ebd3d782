//! Built-in defaults, `inherits`, then manifest, config, and `CARGO_PROFILE_*`. Host units get `build-override`.

use vstd::prelude::*;
use crate::finite::lemma_concat;
use crate::finite::lemma_no_longer;
use crate::num::i64_text;
use crate::num::i64_of;
use crate::num::int_text;
use crate::num::parse_i64;
use crate::order::before;
use crate::order::is_before;
use crate::text::cat3;
use crate::text::chars_of;
use crate::text::find_from;
use crate::text::first_at;
use crate::text::lowercase;
use crate::text::opt_view;
use crate::text::replace_char;
use crate::text::same;
use crate::text::strip_prefix;
use crate::text::after_prefix;
use crate::text::swapped;
use crate::text::to_lower;
use crate::text::to_upper;
use crate::text::uppercase;
use crate::text::views;
use crate::value::Toml;
use crate::value::TomlTree;
use crate::value::at;
use crate::value::entry_at;
use crate::value::get;
use crate::value::toml_entries;
use crate::value::toml_tree;
use crate::value::toml_trees;
use crate::version::version_text;
use crate::workspace::Pkg;

verus! {

#[derive(Debug)]
pub enum StringOrBool {
    Bool(bool),
    String(String),
}

#[derive(Debug)]
pub enum StringOrInt {
    Int(i64),
    String(String),
}

#[derive(Debug)]
pub enum DebugValue {
    Bool(bool),
    Int(i64),
    String(String),
}

/// The model of a setting that is a flag, a number or a text.
pub enum Setting {
    Flag(bool),
    Number(int),
    Text(Seq<char>),
}

impl View for StringOrBool {
    type V = Setting;

    open spec fn view(&self) -> Setting {
        match self {
            StringOrBool::Bool(b) => Setting::Flag(*b),
            StringOrBool::String(s) => Setting::Text(s@),
        }
    }
}

impl View for StringOrInt {
    type V = Setting;

    open spec fn view(&self) -> Setting {
        match self {
            StringOrInt::Int(i) => Setting::Number(*i as int),
            StringOrInt::String(s) => Setting::Text(s@),
        }
    }
}

impl View for DebugValue {
    type V = Setting;

    open spec fn view(&self) -> Setting {
        match self {
            DebugValue::Bool(b) => Setting::Flag(*b),
            DebugValue::Int(i) => Setting::Number(*i as int),
            DebugValue::String(s) => Setting::Text(s@),
        }
    }
}

/// One layer: manifest, a config file, or `CARGO_PROFILE_*`.
#[derive(Debug)]
pub struct TomlProfile {
    pub opt_level: Option<StringOrInt>,
    pub debug: Option<DebugValue>,
    pub debug_assertions: Option<bool>,
    pub overflow_checks: Option<bool>,
    pub lto: Option<StringOrBool>,
    pub panic: Option<String>,
    pub codegen_units: Option<u32>,
    pub incremental: Option<bool>,
    pub rpath: Option<bool>,
    pub strip: Option<StringOrBool>,
    pub split_debuginfo: Option<String>,
    pub codegen_backend: Option<String>,
    pub rustflags: Option<Vec<String>>,
    pub inherits: Option<String>,
    pub dir_name: Option<String>,
    pub build_override: Option<Box<TomlProfile>>,
    /// `"*"` for every non-member, or `name` / `name@version`; in ascending order.
    pub package: Option<Vec<(String, TomlProfile)>>,
}

/// The settings of a layer, without its overrides.
pub struct Settings {
    pub opt_level: Option<Setting>,
    pub debug: Option<Setting>,
    pub debug_assertions: Option<bool>,
    pub overflow_checks: Option<bool>,
    pub lto: Option<Setting>,
    pub panic: Option<Seq<char>>,
    pub codegen_units: Option<u32>,
    pub incremental: Option<bool>,
    pub rpath: Option<bool>,
    pub strip: Option<Setting>,
    pub split_debuginfo: Option<Seq<char>>,
    pub codegen_backend: Option<Seq<char>>,
    pub rustflags: Option<Seq<Seq<char>>>,
    pub inherits: Option<Seq<char>>,
    pub dir_name: Option<Seq<char>>,
}

/// The model of a layer.
pub struct Layer {
    pub own: Settings,
    pub build_override: Option<Box<Layer>>,
    pub package: Option<Seq<(Seq<char>, Layer)>>,
}

pub open spec fn settings(t: TomlProfile) -> Settings {
    Settings {
        opt_level: opt_view(t.opt_level),
        debug: opt_view(t.debug),
        debug_assertions: t.debug_assertions,
        overflow_checks: t.overflow_checks,
        lto: opt_view(t.lto),
        panic: opt_view(t.panic),
        codegen_units: t.codegen_units,
        incremental: t.incremental,
        rpath: t.rpath,
        strip: opt_view(t.strip),
        split_debuginfo: opt_view(t.split_debuginfo),
        codegen_backend: opt_view(t.codegen_backend),
        rustflags: match t.rustflags {
            Some(f) => Some(views(f@)),
            None => None,
        },
        inherits: opt_view(t.inherits),
        dir_name: opt_view(t.dir_name),
    }
}

pub open spec fn layer(t: TomlProfile) -> Layer
    decreases t,
{
    Layer {
        own: settings(t),
        build_override: match t.build_override {
            Some(b) => Some(Box::new(layer(*b))),
            None => None,
        },
        package: match t.package {
            Some(l) => Some(layers(l@)),
            None => None,
        },
    }
}

pub open spec fn layers(l: Seq<(String, TomlProfile)>) -> Seq<(Seq<char>, Layer)>
    decreases l,
{
    Seq::new(
        l.len(),
        |i: int|
            if 0 <= i < l.len() {
                (l[i].0@, layer(l[i].1))
            } else {
                (Seq::empty(), no_layer())
            },
    )
}

impl View for TomlProfile {
    type V = Layer;

    open spec fn view(&self) -> Layer {
        layer(*self)
    }
}

/// A layer that sets nothing.
pub open spec fn no_layer() -> Layer {
    Layer {
        own: Settings {
            opt_level: None,
            debug: None,
            debug_assertions: None,
            overflow_checks: None,
            lto: None,
            panic: None,
            codegen_units: None,
            incremental: None,
            rpath: None,
            strip: None,
            split_debuginfo: None,
            codegen_backend: None,
            rustflags: None,
            inherits: None,
            dir_name: None,
        },
        build_override: None,
        package: None,
    }
}

/// The second setting where it is there, else the first.
pub open spec fn over<T>(a: Option<T>, b: Option<T>) -> Option<T> {
    if b.is_some() {
        b
    } else {
        a
    }
}

pub open spec fn over_settings(a: Settings, b: Settings) -> Settings {
    Settings {
        opt_level: over(a.opt_level, b.opt_level),
        debug: over(a.debug, b.debug),
        debug_assertions: over(a.debug_assertions, b.debug_assertions),
        overflow_checks: over(a.overflow_checks, b.overflow_checks),
        lto: over(a.lto, b.lto),
        panic: over(a.panic, b.panic),
        codegen_units: over(a.codegen_units, b.codegen_units),
        incremental: over(a.incremental, b.incremental),
        rpath: over(a.rpath, b.rpath),
        strip: over(a.strip, b.strip),
        split_debuginfo: over(a.split_debuginfo, b.split_debuginfo),
        codegen_backend: over(a.codegen_backend, b.codegen_backend),
        rustflags: over(a.rustflags, b.rustflags),
        inherits: over(a.inherits, b.inherits),
        dir_name: over(a.dir_name, b.dir_name),
    }
}

/// The layer `b` on top of the layer `a`.
pub open spec fn merged(a: Layer, b: Layer) -> Layer
    decreases b, 0int,
{
    Layer {
        own: over_settings(a.own, b.own),
        build_override: match b.build_override {
            Some(x) => Some(
                Box::new(
                    match a.build_override {
                        Some(y) => merged(*y, *x),
                        None => merged(no_layer(), *x),
                    },
                ),
            ),
            None => a.build_override,
        },
        package: match b.package {
            Some(l) => Some(
                merged_list(
                    match a.package {
                        Some(m) => m,
                        None => Seq::empty(),
                    },
                    l,
                    l.len() as int,
                ),
            ),
            None => a.package,
        },
    }
}

/// The first `n` overrides of `l` on top of the overrides `m`.
pub open spec fn merged_list(m: Seq<(Seq<char>, Layer)>, l: Seq<(Seq<char>, Layer)>, n: int) -> Seq<
    (Seq<char>, Layer),
>
    decreases l, n,
{
    if 0 < n <= l.len() {
        put(merged_list(m, l, n - 1), l[n - 1].0, l[n - 1].1)
    } else {
        m
    }
}

/// The override `p` for `key` on top of the overrides `m`, which are in ascending order.
pub open spec fn put(m: Seq<(Seq<char>, Layer)>, key: Seq<char>, p: Layer) -> Seq<(Seq<char>, Layer)>
    decreases p, m.len() + 1,
{
    let i = place(m, key, 0);
    if 0 <= i < m.len() && m[i].0 == key {
        m.update(i, (key, merged(m[i].1, p)))
    } else {
        m.insert(i, (key, merged(no_layer(), p)))
    }
}

/// The first place from `i` on whose key does not come before `key`.
pub open spec fn place(m: Seq<(Seq<char>, Layer)>, key: Seq<char>, i: int) -> int
    decreases m.len() - i,
{
    if i >= m.len() || !before(m[i].0, key) {
        i
    } else {
        place(m, key, i + 1)
    }
}

pub(crate) fn dup_text(o: &Option<String>) -> (r: Option<String>)
    ensures
        opt_view(r) == opt_view(*o),
        r.is_some() == o.is_some(),
{
    match o {
        Some(s) => Some(s.clone()),
        None => None,
    }
}

fn over_text(mine: Option<String>, other: &Option<String>) -> (r: Option<String>)
    ensures
        opt_view(r) == over(opt_view(mine), opt_view(*other)),
{
    match other {
        Some(s) => Some(s.clone()),
        None => mine,
    }
}

fn over_flag(mine: Option<bool>, other: Option<bool>) -> (r: Option<bool>)
    ensures
        r == over(mine, other),
{
    match other {
        Some(b) => Some(b),
        None => mine,
    }
}

/// A list of the same strings.
pub(crate) fn dup_list(v: &Vec<String>) -> (r: Vec<String>)
    ensures
        r@ == v@,
{
    let r: Vec<String> = v.clone();
    assert(r@ =~= v@);
    r
}

impl StringOrBool {
    fn dup(&self) -> (r: StringOrBool)
        ensures
            r@ == self@,
    {
        match self {
            StringOrBool::Bool(b) => StringOrBool::Bool(*b),
            StringOrBool::String(s) => StringOrBool::String(s.clone()),
        }
    }
}

impl StringOrInt {
    fn dup(&self) -> (r: StringOrInt)
        ensures
            r@ == self@,
    {
        match self {
            StringOrInt::Int(b) => StringOrInt::Int(*b),
            StringOrInt::String(s) => StringOrInt::String(s.clone()),
        }
    }
}

impl DebugValue {
    fn dup(&self) -> (r: DebugValue)
        ensures
            r@ == self@,
    {
        match self {
            DebugValue::Bool(b) => DebugValue::Bool(*b),
            DebugValue::Int(b) => DebugValue::Int(*b),
            DebugValue::String(s) => DebugValue::String(s.clone()),
        }
    }
}

/// An override is smaller than the layer that holds it.
proof fn lemma_smaller(t: TomlProfile, l: Vec<(String, TomlProfile)>, k: int)
    requires
        t.package == Some(l),
        0 <= k < l@.len(),
    ensures
        decreases_to!(t => l@[k].1),
{
    assert(decreases_to!(t => t.package));
    assert(decreases_to!(t.package => t.package->0));
    assert(decreases_to!(l => l@));
    assert(decreases_to!(l@ => l@[k]));
    assert(decreases_to!(l@[k] => l@[k].1));
}

impl TomlProfile {
    /// A layer that sets nothing.
    pub fn new() -> (r: TomlProfile)
        ensures
            r@ == no_layer(),
    {
        TomlProfile {
            opt_level: None,
            debug: None,
            debug_assertions: None,
            overflow_checks: None,
            lto: None,
            panic: None,
            codegen_units: None,
            incremental: None,
            rpath: None,
            strip: None,
            split_debuginfo: None,
            codegen_backend: None,
            rustflags: None,
            inherits: None,
            dir_name: None,
            build_override: None,
            package: None,
        }
    }

    fn merge_own(&mut self, other: &TomlProfile)
        ensures
            settings(*final(self)) == over_settings(settings(*old(self)), settings(*other)),
            final(self).build_override == old(self).build_override,
            final(self).package == old(self).package,
    {
        let mut me: TomlProfile = TomlProfile::new();
        std::mem::swap(&mut me, self);
        *self = TomlProfile {
            opt_level: match &other.opt_level {
                Some(v) => Some(v.dup()),
                None => me.opt_level,
            },
            debug: match &other.debug {
                Some(v) => Some(v.dup()),
                None => me.debug,
            },
            debug_assertions: over_flag(me.debug_assertions, other.debug_assertions),
            overflow_checks: over_flag(me.overflow_checks, other.overflow_checks),
            lto: match &other.lto {
                Some(v) => Some(v.dup()),
                None => me.lto,
            },
            panic: over_text(me.panic, &other.panic),
            codegen_units: match other.codegen_units {
                Some(n) => Some(n),
                None => me.codegen_units,
            },
            incremental: over_flag(me.incremental, other.incremental),
            rpath: over_flag(me.rpath, other.rpath),
            strip: match &other.strip {
                Some(v) => Some(v.dup()),
                None => me.strip,
            },
            split_debuginfo: over_text(me.split_debuginfo, &other.split_debuginfo),
            codegen_backend: over_text(me.codegen_backend, &other.codegen_backend),
            rustflags: match &other.rustflags {
                Some(f) => Some(dup_list(f)),
                None => me.rustflags,
            },
            inherits: over_text(me.inherits, &other.inherits),
            dir_name: over_text(me.dir_name, &other.dir_name),
            build_override: me.build_override,
            package: me.package,
        };
    }

    /// Puts the layer `other` on top of this one.
    pub fn merge(&mut self, other: &TomlProfile)
        ensures
            final(self)@ == merged(old(self)@, other@),
        decreases *other, 0int,
    {
        self.merge_own(other);
        if let Some(b) = &other.build_override {
            let mut mine: Box<TomlProfile> = match self.build_override.take() {
                Some(m) => m,
                None => Box::new(TomlProfile::new()),
            };
            mine.merge(b);
            self.build_override = Some(mine);
        }
        if let Some(pk) = &other.package {
            let mut mine: Vec<(String, TomlProfile)> = match self.package.take() {
                Some(m) => m,
                None => Vec::new(),
            };
            let ghost start = layers(mine@);
            assert(old(self).package.is_none() ==> start =~= Seq::<(Seq<char>, Layer)>::empty());
            let ghost theirs = layers(pk@);
            let mut k: usize = 0;
            while k < pk.len()
                invariant
                    other.package == Some(*pk),
                    k <= pk@.len(),
                    theirs == layers(pk@),
                    layers(mine@) == merged_list(start, theirs, k as int),
                decreases pk@.len() - k,
            {
                proof {
                    lemma_smaller(*other, *pk, k as int);
                }
                assert(theirs[k as int] == (pk@[k as int].0@, layer(pk@[k as int].1)));
                TomlProfile::merge_into(&mut mine, pk[k].0.as_str(), &pk[k].1);
                k += 1;
            }
            self.package = Some(mine);
        }
    }

    /// Puts the override `p` for `key` on top of the overrides.
    fn merge_into(mine: &mut Vec<(String, TomlProfile)>, key: &str, p: &TomlProfile)
        ensures
            layers(final(mine)@) == put(layers(old(mine)@), key@, p@),
        decreases *p, 1int,
    {
        let i: usize = place_in(mine, key);
        let ghost was = mine@;
        let ghost ms = layers(was);
        assert(i < was.len() ==> ms[i as int].0 == was[i as int].0@);
        if i < mine.len() && same(mine[i].0.as_str(), key) {
            let (name, mut t): (String, TomlProfile) = mine.remove(i);
            t.merge(p);
            mine.insert(i, (name, t));
            proof {
                lemma_layers_update(was, mine@, i as int, (name, t));
            }
        } else {
            let mut t: TomlProfile = TomlProfile::new();
            t.merge(p);
            let e: (String, TomlProfile) = (key.to_owned(), t);
            mine.insert(i, e);
            proof {
                lemma_layers_insert(was, mine@, i as int, e);
            }
        }
    }
}

proof fn lemma_layers_update(was: Seq<(String, TomlProfile)>, now: Seq<(String, TomlProfile)>, i: int, e: (String, TomlProfile))
    requires
        0 <= i < was.len(),
        now == was.remove(i).insert(i, e),
    ensures
        layers(now) == layers(was).update(i, (e.0@, layer(e.1))),
{
    assert(now =~= was.update(i, e));
    assert(layers(now) =~= layers(was).update(i, (e.0@, layer(e.1))));
}

proof fn lemma_layers_insert(was: Seq<(String, TomlProfile)>, now: Seq<(String, TomlProfile)>, i: int, e: (String, TomlProfile))
    requires
        0 <= i <= was.len(),
        now == was.insert(i, e),
    ensures
        layers(now) == layers(was).insert(i, (e.0@, layer(e.1))),
{
    assert(layers(now) =~= layers(was).insert(i, (e.0@, layer(e.1))));
}

fn place_in(mine: &Vec<(String, TomlProfile)>, key: &str) -> (i: usize)
    ensures
        i == place(layers(mine@), key@, 0),
        i <= mine@.len(),
{
    let mut i: usize = 0;
    let ghost ms = layers(mine@);
    while i < mine.len() && is_before(mine[i].0.as_str(), key)
        invariant
            i <= mine@.len(),
            ms == layers(mine@),
            place(ms, key@, 0) == place(ms, key@, i as int),
        decreases mine@.len() - i,
    {
        assert(ms[i as int].0 == mine@[i as int].0@);
        i += 1;
    }
    assert(i < mine@.len() ==> ms[i as int].0 == mine@[i as int].0@);
    i
}

// ---------------------------------------------------------------------------
// Reading a layer
// ---------------------------------------------------------------------------

/// A setting that may be a flag, a number or a text, as far as allowed; nothing where it is malformed.
pub open spec fn setting_field(o: Option<TomlTree>, flag: bool, number: bool) -> Option<Option<Setting>> {
    match o {
        None => Some(None),
        Some(TomlTree::Bool(b)) => if flag {
            Some(Some(Setting::Flag(b)))
        } else {
            None
        },
        Some(TomlTree::Int(i)) => if number {
            Some(Some(Setting::Number(i as int)))
        } else {
            None
        },
        Some(TomlTree::Str(s)) => Some(Some(Setting::Text(s))),
        _ => None,
    }
}

pub open spec fn flag_field(o: Option<TomlTree>) -> Option<Option<bool>> {
    match o {
        None => Some(None),
        Some(TomlTree::Bool(b)) => Some(Some(b)),
        _ => None,
    }
}

pub open spec fn text_field(o: Option<TomlTree>) -> Option<Option<Seq<char>>> {
    match o {
        None => Some(None),
        Some(TomlTree::Str(s)) => Some(Some(s)),
        _ => None,
    }
}

pub open spec fn count_field(o: Option<TomlTree>) -> Option<Option<u32>> {
    match o {
        None => Some(None),
        Some(TomlTree::Int(i)) => if 0 <= i <= u32::MAX {
            Some(Some(i as u32))
        } else {
            None
        },
        _ => None,
    }
}

/// The first `n` values as texts; nothing where one of them is none.
pub open spec fn texts_upto(l: Seq<TomlTree>, n: int) -> Option<Seq<Seq<char>>>
    decreases n,
{
    if n <= 0 {
        Some(Seq::empty())
    } else {
        match (texts_upto(l, n - 1), l[n - 1]) {
            (Some(rest), TomlTree::Str(s)) => Some(rest.push(s)),
            _ => None,
        }
    }
}

pub open spec fn list_field(o: Option<TomlTree>) -> Option<Option<Seq<Seq<char>>>> {
    match o {
        None => Some(None),
        Some(TomlTree::Array(l)) => match texts_upto(l, l.len() as int) {
            Some(t) => Some(Some(t)),
            None => None,
        },
        _ => None,
    }
}

/// The settings of a table; nothing where one of them is malformed.
#[verifier::opaque]
pub open spec fn settings_of(l: Seq<(Seq<char>, TomlTree)>) -> Option<Settings> {
    let opt_level = setting_field(at(l, "opt-level"@), false, true);
    let debug = setting_field(at(l, "debug"@), true, true);
    let debug_assertions = flag_field(at(l, "debug-assertions"@));
    let overflow_checks = flag_field(at(l, "overflow-checks"@));
    let lto = setting_field(at(l, "lto"@), true, false);
    let panic = text_field(at(l, "panic"@));
    let codegen_units = count_field(at(l, "codegen-units"@));
    let incremental = flag_field(at(l, "incremental"@));
    let rpath = flag_field(at(l, "rpath"@));
    let strip = setting_field(at(l, "strip"@), true, false);
    let split_debuginfo = text_field(at(l, "split-debuginfo"@));
    let codegen_backend = text_field(at(l, "codegen-backend"@));
    let rustflags = list_field(at(l, "rustflags"@));
    let inherits = text_field(at(l, "inherits"@));
    let dir_name = text_field(at(l, "dir-name"@));
    if opt_level.is_some() && debug.is_some() && debug_assertions.is_some() && overflow_checks.is_some()
        && lto.is_some() && panic.is_some() && codegen_units.is_some() && incremental.is_some()
        && rpath.is_some() && strip.is_some() && split_debuginfo.is_some() && codegen_backend.is_some()
        && rustflags.is_some() && inherits.is_some() && dir_name.is_some() {
        Some(
            Settings {
                opt_level: opt_level.unwrap(),
                debug: debug.unwrap(),
                debug_assertions: debug_assertions.unwrap(),
                overflow_checks: overflow_checks.unwrap(),
                lto: lto.unwrap(),
                panic: panic.unwrap(),
                codegen_units: codegen_units.unwrap(),
                incremental: incremental.unwrap(),
                rpath: rpath.unwrap(),
                strip: strip.unwrap(),
                split_debuginfo: split_debuginfo.unwrap(),
                codegen_backend: codegen_backend.unwrap(),
                rustflags: rustflags.unwrap(),
                inherits: inherits.unwrap(),
                dir_name: dir_name.unwrap(),
            },
        )
    } else {
        None
    }
}

/// The layer that a table stands for; nothing where it is malformed. Unknown keys are ignored.
pub open spec fn layer_of(t: TomlTree) -> Option<Layer>
    decreases t, 0int,
{
    match t {
        TomlTree::Table(l) => {
            match (settings_of(l), override_in(l), package_in(l)) {
                (Some(own), Some(build_override), Some(package)) => Some(Layer { own, build_override, package }),
                _ => None,
            }
        },
        _ => None,
    }
}

/// The layer under `build-override`; nothing where it is malformed.
pub open spec fn override_in(l: Seq<(Seq<char>, TomlTree)>) -> Option<Option<Box<Layer>>>
    decreases l, 0int,
{
    let i = entry_at(l, "build-override"@, 0);
    if 0 <= i < l.len() {
        match layer_of(l[i].1) {
            Some(b) => Some(Some(Box::new(b))),
            None => None,
        }
    } else {
        Some(None)
    }
}

/// The layers under `package`; nothing where one is malformed.
pub open spec fn package_in(l: Seq<(Seq<char>, TomlTree)>) -> Option<Option<Seq<(Seq<char>, Layer)>>>
    decreases l, 0int,
{
    let j = entry_at(l, "package"@, 0);
    if 0 <= j < l.len() {
        match l[j].1 {
            TomlTree::Table(p) => match layers_of(p, p.len() as int) {
                Some(m) => Some(Some(m)),
                None => None,
            },
            _ => None,
        }
    } else {
        Some(None)
    }
}

/// The first `n` entries as layers; nothing where one of them is malformed.
pub open spec fn layers_of(l: Seq<(Seq<char>, TomlTree)>, n: int) -> Option<Seq<(Seq<char>, Layer)>>
    decreases l, n,
{
    if 0 < n <= l.len() {
        match (layers_of(l, n - 1), layer_of(l[n - 1].1)) {
            (Some(rest), Some(p)) => Some(rest.push((l[n - 1].0, p))),
            _ => None,
        }
    } else {
        Some(Seq::empty())
    }
}

fn read_flag(o: Option<&Toml>) -> (r: Option<Option<bool>>)
    ensures
        r == flag_field(tree_opt(o)),
{
    match o {
        None => Some(None),
        Some(Toml::Bool(b)) => Some(Some(*b)),
        _ => None,
    }
}

/// The model of an optional value.
pub open spec fn tree_opt(o: Option<&Toml>) -> Option<TomlTree> {
    match o {
        Some(t) => Some(toml_tree(*t)),
        None => None,
    }
}

/// The view of an optional setting that was read.
pub open spec fn read_view<T: View>(o: Option<Option<T>>) -> Option<Option<T::V>> {
    match o {
        Some(x) => Some(opt_view(x)),
        None => None,
    }
}

fn read_text(o: Option<&Toml>) -> (r: Option<Option<String>>)
    ensures
        read_view(r) == text_field(tree_opt(o)),
{
    match o {
        None => Some(None),
        Some(Toml::Str(s)) => Some(Some(s.clone())),
        _ => None,
    }
}

fn read_count(o: Option<&Toml>) -> (r: Option<Option<u32>>)
    ensures
        r == count_field(tree_opt(o)),
{
    match o {
        None => Some(None),
        Some(Toml::Int(i)) => if 0 <= *i && *i <= 0xffff_ffff {
            Some(Some(*i as u32))
        } else {
            None
        },
        _ => None,
    }
}

fn read_num_or_text(o: Option<&Toml>) -> (r: Option<Option<StringOrInt>>)
    ensures
        read_view(r) == setting_field(tree_opt(o), false, true),
{
    match o {
        None => Some(None),
        Some(Toml::Int(i)) => Some(Some(StringOrInt::Int(*i))),
        Some(Toml::Str(s)) => Some(Some(StringOrInt::String(s.clone()))),
        _ => None,
    }
}

fn read_flag_or_text(o: Option<&Toml>) -> (r: Option<Option<StringOrBool>>)
    ensures
        read_view(r) == setting_field(tree_opt(o), true, false),
{
    match o {
        None => Some(None),
        Some(Toml::Bool(b)) => Some(Some(StringOrBool::Bool(*b))),
        Some(Toml::Str(s)) => Some(Some(StringOrBool::String(s.clone()))),
        _ => None,
    }
}

fn read_debug(o: Option<&Toml>) -> (r: Option<Option<DebugValue>>)
    ensures
        read_view(r) == setting_field(tree_opt(o), true, true),
{
    match o {
        None => Some(None),
        Some(Toml::Bool(b)) => Some(Some(DebugValue::Bool(*b))),
        Some(Toml::Int(i)) => Some(Some(DebugValue::Int(*i))),
        Some(Toml::Str(s)) => Some(Some(DebugValue::String(s.clone()))),
        _ => None,
    }
}

fn read_texts(l: &Vec<Toml>) -> (r: Option<Vec<String>>)
    ensures
        match r {
            Some(v) => texts_upto(toml_trees(l@), l@.len() as int) == Some(views(v@)),
            None => texts_upto(toml_trees(l@), l@.len() as int).is_none(),
        },
{
    let mut out: Vec<String> = Vec::new();
    let ghost ts = toml_trees(l@);
    let mut i: usize = 0;
    assert(views(out@) =~= Seq::<Seq<char>>::empty());
    while i < l.len()
        invariant
            i <= l@.len(),
            ts == toml_trees(l@),
            texts_upto(ts, i as int) == Some(views(out@)),
        decreases l@.len() - i,
    {
        assert(ts[i as int] == toml_tree(l@[i as int]));
        match &l[i] {
            Toml::Str(s) => {
                let ghost was = views(out@);
                out.push(s.clone());
                assert(views(out@) =~= was.push(s@));
            },
            _ => {
                proof {
                    assert(texts_upto(ts, i + 1).is_none());
                    lemma_texts_none(ts, i + 1, ts.len() as int);
                }
                return None;
            },
        }
        i += 1;
    }
    Some(out)
}

proof fn lemma_texts_none(l: Seq<TomlTree>, n: int, m: int)
    requires
        texts_upto(l, n).is_none(),
        n <= m,
    ensures
        texts_upto(l, m).is_none(),
    decreases m - n,
{
    if n < m {
        lemma_texts_none(l, n, m - 1);
    }
}

fn read_list(o: Option<&Toml>) -> (r: Option<Option<Vec<String>>>)
    ensures
        match r {
            Some(Some(v)) => list_field(tree_opt(o)) == Some(Some(views(v@))),
            Some(None) => list_field(tree_opt(o)) == Some(None::<Seq<Seq<char>>>),
            None => list_field(tree_opt(o)).is_none(),
        },
{
    match o {
        None => Some(None),
        Some(Toml::Array(l)) => match read_texts(l) {
            Some(v) => Some(Some(v)),
            None => None,
        },
        _ => None,
    }
}

fn lookup<'a>(t: &'a Vec<(String, Toml)>, key: &str) -> (r: Option<&'a Toml>)
    ensures
        tree_opt(r) == at(toml_entries(t@), key@),
{
    get(t, key)
}

fn find_entry(t: &Vec<(String, Toml)>, key: &str) -> (r: usize)
    ensures
        r == entry_at(toml_entries(t@), key@, 0),
        r <= t@.len(),
{
    let mut i: usize = 0;
    while i < t.len()
        invariant
            i <= t@.len(),
            entry_at(toml_entries(t@), key@, 0) == entry_at(toml_entries(t@), key@, i as int),
        decreases t@.len() - i,
    {
        assert(toml_entries(t@)[i as int].0 == t@[i as int].0@);
        if same(t[i].0.as_str(), key) {
            return i;
        }
        i += 1;
    }
    i
}

proof fn lemma_entry_smaller(t: Toml, l: Vec<(String, Toml)>, k: int)
    requires
        t == Toml::Table(l),
        0 <= k < l@.len(),
    ensures
        decreases_to!(t => l@[k].1),
        decreases_to!(l@ => l@[k].1),
{
    assert(decreases_to!(t => t->Table_0));
    assert(decreases_to!(l => l@));
    assert(decreases_to!(l@ => l@[k]));
    assert(decreases_to!(l@[k] => l@[k].1));
}

proof fn lemma_item_smaller(l: Vec<(String, Toml)>, k: int)
    requires
        0 <= k < l@.len(),
    ensures
        decreases_to!(l => l@[k].1),
{
    assert(decreases_to!(l => l@));
    assert(decreases_to!(l@ => l@[k]));
    assert(decreases_to!(l@[k] => l@[k].1));
}

proof fn lemma_layers_push(s: Seq<(String, TomlProfile)>, x: (String, TomlProfile))
    ensures
        layers(s.push(x)) == layers(s).push((x.0@, layer(x.1))),
{
    assert(layers(s.push(x)) =~= layers(s).push((x.0@, layer(x.1))));
}

/// The settings of a table, without its overrides.
fn read_settings(t: &Vec<(String, Toml)>) -> (r: Option<TomlProfile>)
    ensures
        match r {
            Some(p) => settings_of(toml_entries(t@)) == Some(settings(p)) && p.build_override.is_none()
                && p.package.is_none(),
            None => settings_of(toml_entries(t@)).is_none(),
        },
{
    reveal(settings_of);
    let opt_level = read_num_or_text(lookup(t, "opt-level"));
    let debug = read_debug(lookup(t, "debug"));
    let debug_assertions = read_flag(lookup(t, "debug-assertions"));
    let overflow_checks = read_flag(lookup(t, "overflow-checks"));
    let lto = read_flag_or_text(lookup(t, "lto"));
    let panic = read_text(lookup(t, "panic"));
    let codegen_units = read_count(lookup(t, "codegen-units"));
    let incremental = read_flag(lookup(t, "incremental"));
    let rpath = read_flag(lookup(t, "rpath"));
    let strip = read_flag_or_text(lookup(t, "strip"));
    let split_debuginfo = read_text(lookup(t, "split-debuginfo"));
    let codegen_backend = read_text(lookup(t, "codegen-backend"));
    let rustflags = read_list(lookup(t, "rustflags"));
    let inherits = read_text(lookup(t, "inherits"));
    let dir_name = read_text(lookup(t, "dir-name"));
    if let (Some(opt_level), Some(debug), Some(debug_assertions), Some(overflow_checks), Some(lto)) = (
        opt_level,
        debug,
        debug_assertions,
        overflow_checks,
        lto,
    ) {
        if let (Some(panic), Some(codegen_units), Some(incremental), Some(rpath), Some(strip)) = (
            panic,
            codegen_units,
            incremental,
            rpath,
            strip,
        ) {
            if let (Some(split_debuginfo), Some(codegen_backend), Some(rustflags), Some(inherits), Some(dir_name)) = (
                split_debuginfo,
                codegen_backend,
                rustflags,
                inherits,
                dir_name,
            ) {
                return Some(
                    TomlProfile {
                        opt_level,
                        debug,
                        debug_assertions,
                        overflow_checks,
                        lto,
                        panic,
                        codegen_units,
                        incremental,
                        rpath,
                        strip,
                        split_debuginfo,
                        codegen_backend,
                        rustflags,
                        inherits,
                        dir_name,
                        build_override: None,
                        package: None,
                    },
                );
            }
        }
    }
    None
}

proof fn lemma_layers_none(l: Seq<(Seq<char>, TomlTree)>, n: int, m: int)
    requires
        layers_of(l, n).is_none(),
        0 <= n <= m <= l.len(),
    ensures
        layers_of(l, m).is_none(),
    decreases m - n,
{
    if n < m {
        lemma_layers_none(l, n, m - 1);
    }
}

pub open spec fn box_view(o: Option<Box<TomlProfile>>) -> Option<Box<Layer>> {
    match o {
        Some(b) => Some(Box::new(layer(*b))),
        None => None,
    }
}

pub open spec fn layers_view(o: Option<Vec<(String, TomlProfile)>>) -> Option<Seq<(Seq<char>, Layer)>> {
    match o {
        Some(l) => Some(layers(l@)),
        None => None,
    }
}

impl TomlProfile {
    /// Reads a layer. Unknown keys are ignored; `None` where a known one is malformed.
    pub fn from_toml(t: &Toml) -> (r: Option<TomlProfile>)
        ensures
            opt_view(r) == layer_of(t@),
        decreases *t, 1int,
    {
        let l: &Vec<(String, Toml)> = match t {
            Toml::Table(l) => l,
            _ => {
                return None;
            },
        };
        assert(t@ == TomlTree::Table(toml_entries(l@)));
        let own = read_settings(l);
        let build_override = TomlProfile::read_override(t, l);
        let package = TomlProfile::read_package(t, l);
        match (own, build_override, package) {
            (Some(own), Some(build_override), Some(package)) => {
                let out = own.with_overrides(build_override, package);
                Some(out)
            },
            _ => None,
        }
    }

    fn with_overrides(self, build_override: Option<Box<TomlProfile>>, package: Option<Vec<(String, TomlProfile)>>) -> (r: TomlProfile)
        ensures
            layer(r) == (Layer {
                own: settings(self),
                build_override: box_view(build_override),
                package: layers_view(package),
            }),
    {
        TomlProfile { build_override, package, ..self }
    }

    fn read_override(t: &Toml, l: &Vec<(String, Toml)>) -> (r: Option<Option<Box<TomlProfile>>>)
        requires
            *t == Toml::Table(*l),
        ensures
            match r {
                Some(b) => override_in(toml_entries(l@)) == Some(box_view(b)),
                None => override_in(toml_entries(l@)).is_none(),
            },
        decreases *t, 0int,
    {
        let ghost ls = toml_entries(l@);
        let i: usize = find_entry(l, "build-override");
        if i >= l.len() {
            return Some(None);
        }
        assert(ls[i as int] == (l@[i as int].0@, toml_tree(l@[i as int].1)));
        proof {
            lemma_entry_smaller(*t, *l, i as int);
        }
        match TomlProfile::from_toml(&l[i].1) {
            Some(b) => Some(Some(Box::new(b))),
            None => None,
        }
    }

    fn read_package(t: &Toml, l: &Vec<(String, Toml)>) -> (r: Option<Option<Vec<(String, TomlProfile)>>>)
        requires
            *t == Toml::Table(*l),
        ensures
            match r {
                Some(m) => package_in(toml_entries(l@)) == Some(layers_view(m)),
                None => package_in(toml_entries(l@)).is_none(),
            },
        decreases *t, 0int,
    {
        let ghost ls = toml_entries(l@);
        let j: usize = find_entry(l, "package");
        if j >= l.len() {
            return Some(None);
        }
        assert(ls[j as int] == (l@[j as int].0@, toml_tree(l@[j as int].1)));
        proof {
            lemma_entry_smaller(*t, *l, j as int);
        }
        match &l[j].1 {
            Toml::Table(p) => {
                assert(toml_entries(p@).len() == p@.len());
                match TomlProfile::all_from_toml(p) {
                    Some(m) => Some(Some(m)),
                    None => None,
                }
            },
            _ => None,
        }
    }

    /// Reads the entries of a table as layers.
    pub fn all_from_toml(l: &Vec<(String, Toml)>) -> (r: Option<Vec<(String, TomlProfile)>>)
        ensures
            match r {
                Some(v) => layers_of(toml_entries(l@), l@.len() as int) == Some(layers(v@)),
                None => layers_of(toml_entries(l@), l@.len() as int).is_none(),
            },
        decreases *l, 1int,
    {
        let ghost ls = toml_entries(l@);
        let mut out: Vec<(String, TomlProfile)> = Vec::new();
        let mut k: usize = 0;
        assert(layers(out@) =~= Seq::<(Seq<char>, Layer)>::empty());
        while k < l.len()
            invariant
                k <= l@.len(),
                ls == toml_entries(l@),
                layers_of(ls, k as int) == Some(layers(out@)),
            decreases l@.len() - k,
        {
            assert(ls[k as int] == (l@[k as int].0@, toml_tree(l@[k as int].1)));
            proof {
                lemma_item_smaller(*l, k as int);
            }
            let ghost was = out@;
            match TomlProfile::from_toml(&l[k].1) {
                Some(p) => {
                    let item = (l[k].0.clone(), p);
                    proof {
                        lemma_layers_push(was, item);
                    }
                    out.push(item);
                },
                None => {
                    proof {
                        assert(layers_of(ls, k + 1).is_none());
                        lemma_layers_none(ls, k + 1, ls.len() as int);
                    }
                    return None;
                },
            }
            k += 1;
        }
        Some(out)
    }
}

// ---------------------------------------------------------------------------
// Profiles
// ---------------------------------------------------------------------------

#[derive(Clone, Copy, Debug, PartialEq, Eq, Structural)]
pub enum Lto {
    /// `lto = false`. Thin-local. Dependencies don't need bitcode.
    Default,
    Off,
    Thin,
    Fat,
    /// `lto = true`. Same as fat.
    True,
}

#[derive(Debug)]
pub struct Profile {
    pub name: String,
    /// `dev` or `release`. What the `PROFILE` env var says.
    pub root: String,
    pub opt_level: String,
    pub debuginfo: String,
    pub debug_assertions: bool,
    pub overflow_checks: bool,
    pub lto: Lto,
    pub panic: String,
    pub codegen_units: Option<u32>,
    pub incremental: bool,
    pub rpath: bool,
    pub strip: Option<String>,
    pub split_debuginfo: Option<String>,
    pub codegen_backend: Option<String>,
    pub rustflags: Vec<String>,
}

/// The model of a profile.
pub struct ProfileView {
    pub name: Seq<char>,
    pub root: Seq<char>,
    pub opt_level: Seq<char>,
    pub debuginfo: Seq<char>,
    pub debug_assertions: bool,
    pub overflow_checks: bool,
    pub lto: Lto,
    pub panic: Seq<char>,
    pub codegen_units: Option<u32>,
    pub incremental: bool,
    pub rpath: bool,
    pub strip: Option<Seq<char>>,
    pub split_debuginfo: Option<Seq<char>>,
    pub codegen_backend: Option<Seq<char>>,
    pub rustflags: Seq<Seq<char>>,
}

impl View for Profile {
    type V = ProfileView;

    open spec fn view(&self) -> ProfileView {
        ProfileView {
            name: self.name@,
            root: self.root@,
            opt_level: self.opt_level@,
            debuginfo: self.debuginfo@,
            debug_assertions: self.debug_assertions,
            overflow_checks: self.overflow_checks,
            lto: self.lto,
            panic: self.panic@,
            codegen_units: self.codegen_units,
            incremental: self.incremental,
            rpath: self.rpath,
            strip: opt_view(self.strip),
            split_debuginfo: opt_view(self.split_debuginfo),
            codegen_backend: opt_view(self.codegen_backend),
            rustflags: views(self.rustflags@),
        }
    }
}

/// The defaults of `dev` and `release`.
pub open spec fn builtin_of(name: Seq<char>) -> ProfileView {
    let release = name == "release"@;
    ProfileView {
        name,
        root: if release {
            "release"@
        } else {
            "dev"@
        },
        opt_level: if release {
            "3"@
        } else {
            "0"@
        },
        debuginfo: if release {
            "0"@
        } else {
            "2"@
        },
        debug_assertions: !release,
        overflow_checks: !release,
        lto: Lto::Default,
        panic: "unwind"@,
        codegen_units: None,
        incremental: !release,
        rpath: false,
        strip: None,
        split_debuginfo: None,
        codegen_backend: None,
        rustflags: Seq::empty(),
    }
}

/// The level that a `debug` setting stands for.
pub open spec fn debug_level(d: Setting) -> Seq<char> {
    match d {
        Setting::Flag(b) => if b {
            "2"@
        } else {
            "0"@
        },
        Setting::Number(i) => int_text(i),
        Setting::Text(s) => if s == "none"@ {
            "0"@
        } else if s == "limited"@ {
            "1"@
        } else if s == "full"@ {
            "2"@
        } else {
            s
        },
    }
}

pub open spec fn opt_level_of(o: Setting) -> Seq<char> {
    match o {
        Setting::Number(i) => int_text(i),
        Setting::Text(s) => s,
        Setting::Flag(_) => Seq::empty(),
    }
}

pub open spec fn lto_of(l: Setting) -> Lto {
    match l {
        Setting::Flag(b) => if b {
            Lto::True
        } else {
            Lto::Default
        },
        Setting::Text(s) => if s == "off"@ {
            Lto::Off
        } else if s == "thin"@ {
            Lto::Thin
        } else if s == "fat"@ {
            Lto::Fat
        } else {
            Lto::Default
        },
        Setting::Number(_) => Lto::Default,
    }
}

pub open spec fn strip_of(s: Setting) -> Seq<char> {
    match s {
        Setting::Flag(b) => if b {
            "symbols"@
        } else {
            "none"@
        },
        Setting::Text(s) => s,
        Setting::Number(_) => Seq::empty(),
    }
}

/// A profile with the settings of a layer on top.
pub open spec fn applied(p: ProfileView, t: Settings) -> ProfileView {
    ProfileView {
        name: p.name,
        root: p.root,
        opt_level: match t.opt_level {
            Some(o) => opt_level_of(o),
            None => p.opt_level,
        },
        debuginfo: match t.debug {
            Some(d) => debug_level(d),
            None => p.debuginfo,
        },
        debug_assertions: match t.debug_assertions {
            Some(v) => v,
            None => p.debug_assertions,
        },
        overflow_checks: match t.overflow_checks {
            Some(v) => v,
            None => p.overflow_checks,
        },
        lto: match t.lto {
            Some(l) => lto_of(l),
            None => p.lto,
        },
        panic: match t.panic {
            Some(v) => v,
            None => p.panic,
        },
        codegen_units: over(p.codegen_units, t.codegen_units),
        incremental: match t.incremental {
            Some(v) => v,
            None => p.incremental,
        },
        rpath: match t.rpath {
            Some(v) => v,
            None => p.rpath,
        },
        strip: match t.strip {
            Some(s) => Some(strip_of(s)),
            None => p.strip,
        },
        split_debuginfo: over(p.split_debuginfo, t.split_debuginfo),
        codegen_backend: over(p.codegen_backend, t.codegen_backend),
        rustflags: match t.rustflags {
            Some(f) => p.rustflags + f,
            None => p.rustflags,
        },
    }
}

fn debuginfo_value(d: &DebugValue) -> (r: String)
    ensures
        r@ == debug_level(d@),
{
    match d {
        DebugValue::Bool(true) => "2".to_owned(),
        DebugValue::Bool(false) => "0".to_owned(),
        DebugValue::Int(i) => i64_text(*i),
        DebugValue::String(s) => if same(s.as_str(), "none") {
            "0".to_owned()
        } else if same(s.as_str(), "limited") {
            "1".to_owned()
        } else if same(s.as_str(), "full") {
            "2".to_owned()
        } else {
            s.clone()
        },
    }
}

fn lto_value(l: &StringOrBool) -> (r: Lto)
    ensures
        r == lto_of(l@),
{
    match l {
        StringOrBool::Bool(false) => Lto::Default,
        StringOrBool::Bool(true) => Lto::True,
        StringOrBool::String(s) => if same(s.as_str(), "off") {
            Lto::Off
        } else if same(s.as_str(), "thin") {
            Lto::Thin
        } else if same(s.as_str(), "fat") {
            Lto::Fat
        } else {
            Lto::Default
        },
    }
}

fn strip_value(s: &StringOrBool) -> (r: String)
    ensures
        r@ == strip_of(s@),
{
    match s {
        StringOrBool::Bool(true) => "symbols".to_owned(),
        StringOrBool::Bool(false) => "none".to_owned(),
        StringOrBool::String(s) => s.clone(),
    }
}

fn opt_level_value(o: &StringOrInt) -> (r: String)
    ensures
        r@ == opt_level_of(o@),
{
    match o {
        StringOrInt::Int(i) => i64_text(*i),
        StringOrInt::String(s) => s.clone(),
    }
}

/// The two lists, one after the other.
pub(crate) fn join_lists(mut a: Vec<String>, b: &Vec<String>) -> (r: Vec<String>)
    ensures
        r@ == a@ + b@,
        views(r@) == views(a@) + views(b@),
{
    let ghost start = a@;
    let mut i: usize = 0;
    while i < b.len()
        invariant
            i <= b@.len(),
            a@ == start + b@.take(i as int),
        decreases b@.len() - i,
    {
        a.push(b[i].clone());
        i += 1;
        assert(b@.take(i as int) == b@.take(i - 1).push(b@[i - 1]));
    }
    assert(b@.take(i as int) == b@);
    assert(views(a@) =~= views(start) + views(b@));
    a
}

impl Profile {
    fn builtin(name: &str) -> (r: Profile)
        ensures
            r@ == builtin_of(name@),
    {
        let release: bool = same(name, "release");
        let flags: Vec<String> = Vec::new();
        assert(views(flags@) =~= Seq::<Seq<char>>::empty());
        Profile {
            name: name.to_owned(),
            root: if release {
                "release".to_owned()
            } else {
                "dev".to_owned()
            },
            opt_level: if release {
                "3".to_owned()
            } else {
                "0".to_owned()
            },
            debuginfo: if release {
                "0".to_owned()
            } else {
                "2".to_owned()
            },
            debug_assertions: !release,
            overflow_checks: !release,
            lto: Lto::Default,
            panic: "unwind".to_owned(),
            codegen_units: None,
            incremental: !release,
            rpath: false,
            strip: None,
            split_debuginfo: None,
            codegen_backend: None,
            rustflags: flags,
        }
    }

    /// Debuginfo is generated.
    pub fn debuginfo_on(&self) -> (r: bool)
        ensures
            r == (self.debuginfo@ != "0"@),
    {
        !same(self.debuginfo.as_str(), "0")
    }

    pub fn dup(&self) -> (r: Profile)
        ensures
            r@ == self@,
    {
        let r = Profile {
            name: self.name.clone(),
            root: self.root.clone(),
            opt_level: self.opt_level.clone(),
            debuginfo: self.debuginfo.clone(),
            debug_assertions: self.debug_assertions,
            overflow_checks: self.overflow_checks,
            lto: self.lto,
            panic: self.panic.clone(),
            codegen_units: self.codegen_units,
            incremental: self.incremental,
            rpath: self.rpath,
            strip: dup_text(&self.strip),
            split_debuginfo: dup_text(&self.split_debuginfo),
            codegen_backend: dup_text(&self.codegen_backend),
            rustflags: dup_list(&self.rustflags),
        };
        r
    }

    /// The profile with the settings of the layer on top.
    fn apply(self, t: &TomlProfile) -> (r: Profile)
        ensures
            r@ == applied(self@, settings(*t)),
    {
        Profile {
            name: self.name,
            root: self.root,
            opt_level: pick_level(&t.opt_level, self.opt_level),
            debuginfo: pick_debug(&t.debug, self.debuginfo),
            debug_assertions: pick_flag(t.debug_assertions, self.debug_assertions),
            overflow_checks: pick_flag(t.overflow_checks, self.overflow_checks),
            lto: pick_lto(&t.lto, self.lto),
            panic: pick_text(&t.panic, self.panic),
            codegen_units: pick_count(t.codegen_units, self.codegen_units),
            incremental: pick_flag(t.incremental, self.incremental),
            rpath: pick_flag(t.rpath, self.rpath),
            strip: pick_strip(&t.strip, self.strip),
            split_debuginfo: over_text(self.split_debuginfo, &t.split_debuginfo),
            codegen_backend: over_text(self.codegen_backend, &t.codegen_backend),
            rustflags: pick_flags(&t.rustflags, self.rustflags),
        }
    }
}

fn pick_level(o: &Option<StringOrInt>, was: String) -> (r: String)
    ensures
        r@ == (match o {
            Some(o) => opt_level_of(o@),
            None => was@,
        }),
{
    match o {
        Some(o) => opt_level_value(o),
        None => was,
    }
}

fn pick_debug(o: &Option<DebugValue>, was: String) -> (r: String)
    ensures
        r@ == (match o {
            Some(d) => debug_level(d@),
            None => was@,
        }),
{
    match o {
        Some(d) => debuginfo_value(d),
        None => was,
    }
}

fn pick_flag(o: Option<bool>, was: bool) -> (r: bool)
    ensures
        r == (match o {
            Some(v) => v,
            None => was,
        }),
{
    match o {
        Some(v) => v,
        None => was,
    }
}

fn pick_lto(o: &Option<StringOrBool>, was: Lto) -> (r: Lto)
    ensures
        r == (match o {
            Some(l) => lto_of(l@),
            None => was,
        }),
{
    match o {
        Some(l) => lto_value(l),
        None => was,
    }
}

fn pick_text(o: &Option<String>, was: String) -> (r: String)
    ensures
        r@ == (match o {
            Some(s) => s@,
            None => was@,
        }),
{
    match o {
        Some(s) => s.clone(),
        None => was,
    }
}

fn pick_count(o: Option<u32>, was: Option<u32>) -> (r: Option<u32>)
    ensures
        r == over(was, o),
{
    match o {
        Some(n) => Some(n),
        None => was,
    }
}

fn pick_strip(o: &Option<StringOrBool>, was: Option<String>) -> (r: Option<String>)
    ensures
        opt_view(r) == (match o {
            Some(s) => Some(strip_of(s@)),
            None => opt_view(was),
        }),
{
    match o {
        Some(s) => Some(strip_value(s)),
        None => was,
    }
}

fn pick_flags(o: &Option<Vec<String>>, was: Vec<String>) -> (r: Vec<String>)
    ensures
        views(r@) == (match o {
            Some(f) => views(was@) + views(f@),
            None => views(was@),
        }),
{
    match o {
        Some(f) => join_lists(was, f),
        None => was,
    }
}

/// The settings of the first `n` layers on top of a profile, one after the other.
pub open spec fn chained(p: ProfileView, chain: Seq<Layer>, n: int) -> ProfileView
    decreases n,
{
    if n <= 0 {
        p
    } else {
        applied(chained(p, chain, n - 1), chain[n - 1].own)
    }
}

/// The `build-override`s of the first `n` layers on top of a profile.
pub open spec fn build_overridden(p: ProfileView, chain: Seq<Layer>, n: int) -> ProfileView
    decreases n,
{
    if n <= 0 {
        p
    } else {
        let q = build_overridden(p, chain, n - 1);
        match chain[n - 1].build_override {
            Some(b) => applied(q, b.own),
            None => q,
        }
    }
}

/// The parts of a package spec before and after its first `@` or `:`.
pub open spec fn split_spec(s: Seq<char>) -> (Seq<char>, Option<Seq<char>>) {
    let a = first_at(s, '@', 0);
    let b = first_at(s, ':', 0);
    let i = if a < b {
        a
    } else {
        b
    };
    if i < s.len() {
        (s.take(i), Some(s.skip(i + 1)))
    } else {
        (s, None)
    }
}

/// `name`, `name@version`, or the older `name:version` names the package.
pub open spec fn spec_fits(s: Seq<char>, name: Seq<char>, version: Seq<char>) -> bool {
    let (n, v) = split_spec(s);
    s != "*"@ && n == name && (v.is_none() || v == Some(version))
}

/// Those of the first `n` overrides that name the package, on top of a profile.
pub open spec fn named_overrides(
    p: ProfileView,
    pk: Seq<(Seq<char>, Layer)>,
    name: Seq<char>,
    version: Seq<char>,
    n: int,
) -> ProfileView
    decreases n,
{
    if n <= 0 {
        p
    } else {
        let q = named_overrides(p, pk, name, version, n - 1);
        if spec_fits(pk[n - 1].0, name, version) {
            applied(q, pk[n - 1].1.own)
        } else {
            q
        }
    }
}

/// The package overrides of the first `n` layers on top of a profile: in each layer that for every
/// package outside the workspace first.
pub open spec fn package_overridden(
    p: ProfileView,
    chain: Seq<Layer>,
    member: bool,
    name: Seq<char>,
    version: Seq<char>,
    n: int,
) -> ProfileView
    decreases n,
{
    if n <= 0 {
        p
    } else {
        let q = package_overridden(p, chain, member, name, version, n - 1);
        match chain[n - 1].package {
            Some(pk) => {
                let r = match at(pk, "*"@) {
                    Some(all) => if member {
                        q
                    } else {
                        applied(q, all.own)
                    },
                    None => q,
                };
                named_overrides(r, pk, name, version, pk.len() as int)
            },
            None => q,
        }
    }
}

/// The profile for a unit on the host, before the overrides of packages.
pub open spec fn host_profile(p: ProfileView, chain: Seq<Layer>, weaken: bool) -> ProfileView {
    let q = ProfileView {
        opt_level: "0"@,
        codegen_units: None,
        debuginfo: if weaken {
            "0"@
        } else {
            p.debuginfo
        },
        ..p
    };
    ProfileView { panic: "unwind"@, ..build_overridden(q, chain, chain.len() as int) }
}

/// What is stripped: debuginfo where the profile has none to begin with, and nothing for `none`.
pub open spec fn strip_rule(strip: Option<Seq<char>>, debug_off: bool, debuginfo: Seq<char>) -> Option<Seq<char>> {
    if strip.is_none() && debug_off && debuginfo == "0"@ {
        Some("debuginfo"@)
    } else if strip == Some("none"@) {
        None
    } else {
        strip
    }
}

/// The profile that a package is built with.
pub open spec fn profile_for(
    base: ProfileView,
    chain: Seq<Layer>,
    incremental: Option<bool>,
    weaken: bool,
    pkg: Pkg,
    for_host: bool,
    apple: bool,
) -> ProfileView {
    let p = chained(base, chain, chain.len() as int);
    let debug_off = p.debuginfo == "0"@;
    let h = if for_host {
        host_profile(p, chain, weaken)
    } else {
        p
    };
    let q = package_overridden(
        h,
        chain,
        pkg.is_member,
        pkg.name@,
        version_text(pkg.version@),
        chain.len() as int,
    );
    finished(q, incremental, debug_off, apple)
}

/// The settings that follow from the others.
pub open spec fn finished(q: ProfileView, incremental: Option<bool>, debug_off: bool, apple: bool) -> ProfileView {
    ProfileView {
        incremental: match incremental {
            Some(i) => i,
            None => q.incremental,
        },
        strip: strip_rule(q.strip, debug_off, q.debuginfo),
        split_debuginfo: if apple && q.split_debuginfo.is_none() && q.debuginfo != "0"@ {
            Some("unpacked"@)
        } else {
            q.split_debuginfo
        },
        ..q
    }
}

pub struct Profiles {
    pub requested: String,
    pub dir_name: String,
    pub base: Profile,
    /// The layers, from the profile that the others inherit from on.
    pub chain: Vec<TomlProfile>,
    pub incremental_override: Option<bool>,
    /// Host units get no debuginfo, but only when there's no `--target`. Explicit targets keep the profile's.
    pub weaken_host_debuginfo: bool,
}

pub(crate) fn split_at_mark<'a>(s: &'a str) -> (r: (&'a str, Option<&'a str>))
    ensures
        r.0@ == split_spec(s@).0,
        r.1.is_some() == split_spec(s@).1.is_some(),
        r.1.is_some() ==> r.1.unwrap()@ == split_spec(s@).1.unwrap(),
{
    let cs: Vec<char> = chars_of(s);
    let a: usize = find_from(&cs, '@', 0);
    let b: usize = find_from(&cs, ':', 0);
    let i: usize = if a < b {
        a
    } else {
        b
    };
    if i < cs.len() {
        let n: usize = cs.len();
        assert(s@.subrange(0, i as int) == s@.take(i as int));
        assert(s@.subrange(i + 1, n as int) == s@.skip(i + 1));
        (s.substring_char(0, i), Some(s.substring_char(i + 1, n)))
    } else {
        (s, None)
    }
}

/// `name`, `name@version`, or the older `name:version`.
fn spec_matches(spec: &str, name: &str, version: &str) -> (r: bool)
    ensures
        r == spec_fits(spec@, name@, version@),
{
    let (n, v): (&str, Option<&str>) = split_at_mark(spec);
    !same(spec, "*") && same(n, name) && match v {
        Some(v) => same(v, version),
        None => true,
    }
}

impl Profiles {
    fn apply_chain(&self, p: Profile) -> (r: Profile)
        ensures
            r@ == chained(p@, views(self.chain@), self.chain@.len() as int),
    {
        let ghost start = p@;
        let mut p: Profile = p;
        let mut i: usize = 0;
        while i < self.chain.len()
            invariant
                i <= self.chain@.len(),
                p@ == chained(start, views(self.chain@), i as int),
            decreases self.chain@.len() - i,
        {
            p = p.apply(&self.chain[i]);
            i += 1;
            assert(views(self.chain@)[i - 1].own == settings(self.chain@[i - 1]));
        }
        p
    }

    fn apply_build_overrides(&self, p: Profile) -> (r: Profile)
        ensures
            r@ == build_overridden(p@, views(self.chain@), self.chain@.len() as int),
    {
        let ghost start = p@;
        let mut p: Profile = p;
        let mut i: usize = 0;
        while i < self.chain.len()
            invariant
                i <= self.chain@.len(),
                p@ == build_overridden(start, views(self.chain@), i as int),
            decreases self.chain@.len() - i,
        {
            assert(views(self.chain@)[i as int] == layer(self.chain@[i as int]));
            if let Some(bo) = &self.chain[i].build_override {
                p = p.apply(bo);
                assert(layer(**bo).own == settings(**bo));
            }
            i += 1;
        }
        p
    }

    fn apply_packages(&self, p: Profile, pkg: &Pkg) -> (r: Profile)
        ensures
            r@ == package_overridden(
                p@,
                views(self.chain@),
                pkg.is_member,
                pkg.name@,
                version_text(pkg.version@),
                self.chain@.len() as int,
            ),
    {
        let ghost start = p@;
        let ghost chain = views(self.chain@);
        let version: String = pkg.version.text();
        let mut p: Profile = p;
        let mut i: usize = 0;
        while i < self.chain.len()
            invariant
                i <= self.chain@.len(),
                chain == views(self.chain@),
                version@ == version_text(pkg.version@),
                p@ == package_overridden(start, chain, pkg.is_member, pkg.name@, version@, i as int),
            decreases self.chain@.len() - i,
        {
            reveal(at);
            assert(chain[i as int] == layer(self.chain@[i as int]));
            if let Some(pk) = &self.chain[i].package {
                let ghost ls = layers(pk@);
                assert(chain[i as int].package == Some(ls));
                if !pkg.is_member {
                    let k: usize = star_entry(pk);
                    if k < pk.len() {
                        assert(ls[k as int].1 == layer(pk@[k as int].1));
                        p = p.apply(&pk[k].1);
                    }
                }
                let ghost q = p@;
                let mut j: usize = 0;
                while j < pk.len()
                    invariant
                        j <= pk@.len(),
                        ls == layers(pk@),
                        p@ == named_overrides(q, ls, pkg.name@, version@, j as int),
                    decreases pk@.len() - j,
                {
                    assert(ls[j as int] == (pk@[j as int].0@, layer(pk@[j as int].1)));
                    if spec_matches(pk[j].0.as_str(), pkg.name.as_str(), version.as_str()) {
                        p = p.apply(&pk[j].1);
                    }
                    j += 1;
                }
            }
            i += 1;
        }
        p
    }

    /// Before per-package and host tweaks. Cargo's `Finished` line.
    pub fn base_profile(&self) -> (r: Profile)
        ensures
            r@ == chained(self.base@, views(self.chain@), self.chain@.len() as int),
    {
        self.apply_chain(self.base.dup())
    }

    /// `for_host` is build scripts, proc-macros, and their deps.
    /// `apple` defaults split-debuginfo to unpacked.
    pub fn get(&self, pkg: &Pkg, for_host: bool, apple: bool) -> (r: Profile)
        ensures
            r@ == profile_for(
                self.base@,
                views(self.chain@),
                self.incremental_override,
                self.weaken_host_debuginfo,
                *pkg,
                for_host,
                apple,
            ),
    {
        let p: Profile = self.base_profile();
        let debug_off_in_profile: bool = !p.debuginfo_on();
        let p: Profile = if for_host {
            self.on_host(p)
        } else {
            p
        };
        finish(self.apply_packages(p, pkg), self.incremental_override, debug_off_in_profile, apple)
    }

    fn on_host(&self, p: Profile) -> (r: Profile)
        ensures
            r@ == host_profile(p@, views(self.chain@), self.weaken_host_debuginfo),
    {
        let debuginfo: String = if self.weaken_host_debuginfo {
            "0".to_owned()
        } else {
            p.debuginfo
        };
        let q = Profile { opt_level: "0".to_owned(), codegen_units: None, debuginfo, ..p };
        let r: Profile = self.apply_build_overrides(q);
        // Build scripts and proc-macros have to unwind.
        Profile { panic: "unwind".to_owned(), ..r }
    }
}

/// What is stripped.
fn strip_for(strip: Option<String>, debug_off: bool, debuginfo: &str) -> (r: Option<String>)
    ensures
        opt_view(r) == strip_rule(opt_view(strip), debug_off, debuginfo@),
{
    match strip {
        None => if debug_off && same(debuginfo, "0") {
            Some("debuginfo".to_owned())
        } else {
            None
        },
        Some(s) => if same(s.as_str(), "none") {
            None
        } else {
            Some(s)
        },
    }
}

/// The settings that follow from the others.
fn finish(q: Profile, incremental: Option<bool>, debug_off: bool, apple: bool) -> (r: Profile)
    ensures
        r@ == finished(q@, incremental, debug_off, apple),
{
    let split_debuginfo: Option<String> = match q.split_debuginfo {
        Some(s) => Some(s),
        None => if apple && !same(q.debuginfo.as_str(), "0") {
            Some("unpacked".to_owned())
        } else {
            None
        },
    };
    let strip: Option<String> = strip_for(q.strip, debug_off, q.debuginfo.as_str());
    Profile {
        incremental: match incremental {
            Some(i) => i,
            None => q.incremental,
        },
        strip,
        split_debuginfo,
        ..q
    }
}

fn star_entry(pk: &Vec<(String, TomlProfile)>) -> (k: usize)
    ensures
        k <= pk@.len(),
        k == entry_at(layers(pk@), "*"@, 0),
{
    let mut k: usize = 0;
    while k < pk.len()
        invariant
            k <= pk@.len(),
            entry_at(layers(pk@), "*"@, 0) == entry_at(layers(pk@), "*"@, k as int),
        decreases pk@.len() - k,
    {
        assert(layers(pk@)[k as int].0 == pk@[k as int].0@);
        if same(pk[k].0.as_str(), "*") {
            return k;
        }
        k += 1;
    }
    k
}

// ---------------------------------------------------------------------------
// Inheritance
// ---------------------------------------------------------------------------

/// Why there is no such profile.
#[derive(Debug)]
pub enum ProfileError {
    /// The profile inherits from itself.
    Loop(String),
    /// The profile is neither built in nor inherits from another.
    NoInherits(String),
    /// An environment variable with this prefix is malformed.
    Environment(String),
}

/// The prefix of the environment variables of a profile.
pub open spec fn env_prefix(name: Seq<char>) -> Seq<char> {
    "CARGO_PROFILE_"@ + swapped(uppercase(name), '-', '_') + "_"@
}

/// The value that an environment variable stands for.
pub open spec fn env_value(v: Seq<char>) -> TomlTree {
    if v == "true"@ {
        TomlTree::Bool(true)
    } else if v == "false"@ {
        TomlTree::Bool(false)
    } else {
        match i64_of(v) {
            Some(i) => TomlTree::Int(i as i64),
            None => TomlTree::Str(v),
        }
    }
}

/// A table with the value under the key, in place of what was there.
pub open spec fn with_key(t: Seq<(Seq<char>, TomlTree)>, key: Seq<char>, v: TomlTree) -> Seq<(Seq<char>, TomlTree)> {
    let i = entry_at(t, key, 0);
    if 0 <= i < t.len() {
        t.update(i, (key, v))
    } else {
        t.push((key, v))
    }
}

/// The key that an environment variable sets: of the overrides, or of the profile itself.
pub open spec fn env_key(var: Seq<char>, prefix: Seq<char>, overrides: bool) -> Option<Seq<char>> {
    match after_prefix(var, prefix) {
        Some(rest) => match after_prefix(rest, "BUILD_OVERRIDE_"@) {
            Some(key) => if overrides {
                Some(swapped(lowercase(key), '_', '-'))
            } else {
                None
            },
            None => if overrides {
                None
            } else {
                Some(swapped(lowercase(rest), '_', '-'))
            },
        },
        None => None,
    }
}

/// What the first `n` variables set.
pub open spec fn env_entries(vars: Seq<(String, String)>, prefix: Seq<char>, overrides: bool, n: int) -> Seq<
    (Seq<char>, TomlTree),
>
    decreases n,
{
    if n <= 0 {
        Seq::empty()
    } else {
        let t = env_entries(vars, prefix, overrides, n - 1);
        match env_key(vars[n - 1].0@, prefix, overrides) {
            Some(key) => with_key(t, key, env_value(vars[n - 1].1@)),
            None => t,
        }
    }
}

pub open spec fn env_table(vars: Seq<(String, String)>, prefix: Seq<char>) -> Seq<(Seq<char>, TomlTree)> {
    let t = env_entries(vars, prefix, false, vars.len() as int);
    let b = env_entries(vars, prefix, true, vars.len() as int);
    if b.len() > 0 {
        with_key(t, "build-override"@, TomlTree::Table(b))
    } else {
        t
    }
}

/// The layer of the environment for a profile, if any; nothing where it is malformed.
pub open spec fn env_layer(vars: Seq<(String, String)>, name: Seq<char>) -> Option<Option<Layer>> {
    let t = env_table(vars, env_prefix(name));
    if t.len() == 0 {
        Some(None)
    } else {
        match layer_of(TomlTree::Table(t)) {
            Some(l) => Some(Some(l)),
            None => None,
        }
    }
}

/// The layers of the first `n` config files for a profile, on top of `t`.
pub open spec fn config_stack(t: Layer, config: Seq<Vec<(String, TomlProfile)>>, name: Seq<char>, n: int) -> Layer
    decreases n,
{
    if n <= 0 {
        t
    } else {
        let u = config_stack(t, config, name, n - 1);
        match at(layers(config[n - 1]@), name) {
            Some(p) => merged(u, p),
            None => u,
        }
    }
}

/// The layers for a profile: the manifest, the config files, the environment.
#[verifier::opaque]
pub open spec fn stacked(
    manifest: Seq<(String, TomlProfile)>,
    config: Seq<Vec<(String, TomlProfile)>>,
    vars: Seq<(String, String)>,
    name: Seq<char>,
) -> Option<Layer> {
    let m = match at(layers(manifest), name) {
        Some(p) => merged(no_layer(), p),
        None => no_layer(),
    };
    let c = config_stack(m, config, name, config.len() as int);
    match env_layer(vars, name) {
        None => None,
        Some(None) => Some(c),
        Some(Some(e)) => Some(merged(c, e)),
    }
}

/// Where inheritance leads.
pub enum Next {
    Stop,
    To(Seq<char>),
    Lost,
}

pub open spec fn next_of(name: Seq<char>, l: Layer) -> Next {
    if name == "dev"@ || name == "release"@ {
        Next::Stop
    } else if name == "test"@ {
        Next::To("dev"@)
    } else if name == "bench"@ {
        Next::To("release"@)
    } else {
        match l.own.inherits {
            Some(p) => Next::To(p),
            None => Next::Lost,
        }
    }
}

/// Following inheritance from the requested profile visits these names.
pub open spec fn visits(
    manifest: Seq<(String, TomlProfile)>,
    config: Seq<Vec<(String, TomlProfile)>>,
    vars: Seq<(String, String)>,
    requested: Seq<char>,
    names: Seq<Seq<char>>,
) -> bool {
    &&& names.len() > 0
    &&& names[0] == requested
    &&& forall|i: int|
        0 <= i < names.len() - 1 ==> match stacked(manifest, config, vars, #[trigger] names[i]) {
            Some(l) => next_of(names[i], l) == Next::To(names[i + 1]),
            None => false,
        }
}

/// The directory of a profile.
pub open spec fn dir_of(requested: Seq<char>, own: Layer) -> Seq<char> {
    if requested == "dev"@ || requested == "test"@ {
        "debug"@
    } else if requested == "bench"@ {
        "release"@
    } else {
        match own.own.dir_name {
            Some(d) => d,
            None => requested,
        }
    }
}

/// These are the profiles that inheritance along the names gives.
pub open spec fn stand_for(
    manifest: Seq<(String, TomlProfile)>,
    config: Seq<Vec<(String, TomlProfile)>>,
    vars: Seq<(String, String)>,
    p: Profiles,
    names: Seq<Seq<char>>,
) -> bool {
    &&& names.no_duplicates()
    &&& names.last() == "dev"@ || names.last() == "release"@
    &&& p.base@ == (ProfileView { name: p.requested@, ..builtin_of(names.last()) })
    &&& p.chain@.len() == names.len()
    &&& forall|i: int|
        0 <= i < names.len() ==> Some(#[trigger] views(p.chain@)[i]) == stacked(
            manifest,
            config,
            vars,
            names[names.len() - 1 - i],
        )
    &&& p.dir_name@ == dir_of(p.requested@, views(p.chain@).last())
}

fn set_key(t: &mut Vec<(String, Toml)>, key: String, v: Toml)
    ensures
        toml_entries(final(t)@) == with_key(toml_entries(old(t)@), key@, v@),
{
    let i: usize = find_entry(t, key.as_str());
    let ghost was = toml_entries(t@);
    if i < t.len() {
        t.set(i, (key, v));
        assert(toml_entries(t@) =~= was.update(i as int, (key@, v@)));
    } else {
        t.push((key, v));
        assert(toml_entries(t@) =~= was.push((key@, v@)));
    }
}

fn value_of(v: &str) -> (r: Toml)
    ensures
        r@ == env_value(v@),
{
    if same(v, "true") {
        Toml::Bool(true)
    } else if same(v, "false") {
        Toml::Bool(false)
    } else {
        match parse_i64(v) {
            Some(i) => Toml::Int(i),
            None => Toml::Str(v.to_owned()),
        }
    }
}

fn key_of(var: &str, prefix: &str, overrides: bool) -> (r: Option<String>)
    ensures
        opt_view(r) == env_key(var@, prefix@, overrides),
{
    match strip_prefix(var, prefix) {
        Some(rest) => match strip_prefix(rest, "BUILD_OVERRIDE_") {
            Some(key) => if overrides {
                Some(replace_char(to_lower(key).as_str(), '_', '-'))
            } else {
                None
            },
            None => if overrides {
                None
            } else {
                Some(replace_char(to_lower(rest).as_str(), '_', '-'))
            },
        },
        None => None,
    }
}

fn entries_of(vars: &Vec<(String, String)>, prefix: &str, overrides: bool) -> (t: Vec<(String, Toml)>)
    ensures
        toml_entries(t@) == env_entries(vars@, prefix@, overrides, vars@.len() as int),
{
    let mut t: Vec<(String, Toml)> = Vec::new();
    let mut i: usize = 0;
    assert(toml_entries(t@) =~= Seq::<(Seq<char>, TomlTree)>::empty());
    while i < vars.len()
        invariant
            i <= vars@.len(),
            toml_entries(t@) == env_entries(vars@, prefix@, overrides, i as int),
        decreases vars@.len() - i,
    {
        if let Some(key) = key_of(vars[i].0.as_str(), prefix, overrides) {
            set_key(&mut t, key, value_of(vars[i].1.as_str()));
        }
        i += 1;
    }
    t
}

/// The layer of the environment for a profile.
pub fn env_profile(vars: &Vec<(String, String)>, name: &str) -> (r: Result<Option<TomlProfile>, ProfileError>)
    ensures
        match r {
            Ok(o) => env_layer(vars@, name@) == Some(opt_view(o)),
            Err(ProfileError::Environment(p)) => env_layer(vars@, name@).is_none() && p@ == env_prefix(name@),
            Err(_) => false,
        },
{
    let prefix: String = cat3("CARGO_PROFILE_", replace_char(to_upper(name).as_str(), '-', '_').as_str(), "_");
    let mut t: Vec<(String, Toml)> = entries_of(vars, prefix.as_str(), false);
    let b: Vec<(String, Toml)> = entries_of(vars, prefix.as_str(), true);
    assert(toml_entries(b@).len() == b@.len());
    if b.len() > 0 {
        set_key(&mut t, "build-override".to_owned(), Toml::Table(b));
    }
    assert(toml_entries(t@).len() == t@.len());
    if t.len() == 0 {
        return Ok(None);
    }
    match TomlProfile::from_toml(&Toml::Table(t)) {
        Some(p) => Ok(Some(p)),
        None => Err(ProfileError::Environment(prefix)),
    }
}

fn find_layer<'a>(l: &'a Vec<(String, TomlProfile)>, name: &str) -> (r: Option<&'a TomlProfile>)
    ensures
        match r {
            Some(p) => at(layers(l@), name@) == Some(p@),
            None => at(layers(l@), name@).is_none(),
        },
{
    reveal(at);
    let mut k: usize = 0;
    while k < l.len()
        invariant
            k <= l@.len(),
            entry_at(layers(l@), name@, 0) == entry_at(layers(l@), name@, k as int),
        decreases l@.len() - k,
    {
        reveal(at);
        assert(layers(l@)[k as int] == (l@[k as int].0@, layer(l@[k as int].1)));
        if same(l[k].0.as_str(), name) {
            return Some(&l[k].1);
        }
        k += 1;
    }
    None
}

fn stack(
    manifest: &Vec<(String, TomlProfile)>,
    config: &Vec<Vec<(String, TomlProfile)>>,
    vars: &Vec<(String, String)>,
    name: &str,
) -> (r: Result<TomlProfile, ProfileError>)
    ensures
        match r {
            Ok(t) => stacked(manifest@, config@, vars@, name@) == Some(t@),
            Err(ProfileError::Environment(p)) => stacked(manifest@, config@, vars@, name@).is_none() && p@
                == env_prefix(name@),
            Err(_) => false,
        },
{
    reveal(stacked);
    let mut t: TomlProfile = TomlProfile::new();
    if let Some(m) = find_layer(manifest, name) {
        t.merge(m);
    }
    let ghost start = t@;
    let mut i: usize = 0;
    while i < config.len()
        invariant
            i <= config@.len(),
            t@ == config_stack(start, config@, name@, i as int),
        decreases config@.len() - i,
    {
        if let Some(p) = find_layer(&config[i], name) {
            t.merge(p);
        }
        i += 1;
    }
    match env_profile(vars, name) {
        Ok(Some(e)) => {
            t.merge(&e);
            Ok(t)
        },
        Ok(None) => Ok(t),
        Err(e) => Err(e),
    }
}

spec fn table_parents(l: Seq<(Seq<char>, Layer)>, n: int) -> Seq<Seq<char>>
    decreases n,
{
    if n <= 0 {
        Seq::empty()
    } else {
        match l[n - 1].1.own.inherits {
            Some(p) => table_parents(l, n - 1).push(p),
            None => table_parents(l, n - 1),
        }
    }
}

spec fn config_parents(config: Seq<Vec<(String, TomlProfile)>>, n: int) -> Seq<Seq<char>>
    decreases n,
{
    if n <= 0 {
        Seq::empty()
    } else {
        config_parents(config, n - 1) + table_parents(layers(config[n - 1]@), config[n - 1]@.len() as int)
    }
}

/// Every name that inheritance can lead to.
spec fn parents(
    manifest: Seq<(String, TomlProfile)>,
    config: Seq<Vec<(String, TomlProfile)>>,
    vars: Seq<(String, String)>,
    requested: Seq<char>,
) -> Seq<Seq<char>> {
    seq![requested, "dev"@, "release"@] + table_parents(layers(manifest), manifest.len() as int) + config_parents(
        config,
        config.len() as int,
    ) + Seq::new(vars.len(), |i: int| vars[i].1@)
}

proof fn lemma_table_parents(l: Seq<(Seq<char>, Layer)>, i: int, n: int, p: Seq<char>)
    requires
        0 <= i < n <= l.len(),
        l[i].1.own.inherits == Some(p),
    ensures
        table_parents(l, n).contains(p),
    decreases n,
{
    let rest = table_parents(l, n - 1);
    if i < n - 1 {
        lemma_table_parents(l, i, n - 1, p);
        let k = choose|k: int| 0 <= k < rest.len() && rest[k] == p;
        assert(table_parents(l, n)[k] == p);
    } else {
        assert(table_parents(l, n)[rest.len() as int] == p);
    }
}

proof fn lemma_entry_at<V>(t: Seq<(Seq<char>, V)>, key: Seq<char>, i: int)
    requires
        0 <= i <= t.len(),
    ensures
        i <= entry_at(t, key, i) <= t.len(),
        entry_at(t, key, i) < t.len() ==> t[entry_at(t, key, i)].0 == key,
    decreases t.len() - i,
{
    if i < t.len() {
        lemma_entry_at(t, key, i + 1);
    }
}

proof fn lemma_config_parents(
    t: Layer,
    config: Seq<Vec<(String, TomlProfile)>>,
    name: Seq<char>,
    n: int,
    p: Seq<char>,
)
    requires
        0 <= n <= config.len(),
        config_stack(t, config, name, n).own.inherits == Some(p),
    ensures
        t.own.inherits == Some(p) || config_parents(config, n).contains(p),
    decreases n,
{
    if n > 0 {
        let l = layers(config[n - 1]@);
        let u = config_stack(t, config, name, n - 1);
        lemma_concat(config_parents(config, n - 1), table_parents(l, l.len() as int), p);
        lemma_entry_at(l, name, 0);
        reveal(at);
        match at(l, name) {
            Some(q) => {
                if q.own.inherits == Some(p) {
                    lemma_table_parents(l, entry_at(l, name, 0), l.len() as int, p);
                } else {
                    lemma_config_parents(t, config, name, n - 1, p);
                }
            },
            None => {
                lemma_config_parents(t, config, name, n - 1, p);
            },
        }
    }
}

/// A text in the table of the environment is the value of a variable.
proof fn lemma_env_texts(vars: Seq<(String, String)>, prefix: Seq<char>, overrides: bool, n: int, k: int)
    requires
        0 <= n <= vars.len(),
        0 <= k < env_entries(vars, prefix, overrides, n).len(),
        env_entries(vars, prefix, overrides, n)[k].1 is Str,
    ensures
        exists|i: int|
            0 <= i < n && (#[trigger] vars[i]).1@ == env_entries(vars, prefix, overrides, n)[k].1->Str_0,
    decreases n,
{
    if n > 0 {
        let t = env_entries(vars, prefix, overrides, n - 1);
        match env_key(vars[n - 1].0@, prefix, overrides) {
            Some(key) => {
                lemma_entry_at(t, key, 0);
                let i = entry_at(t, key, 0);
                if (i < t.len() && k == i) || (i >= t.len() && k == t.len()) {
                    assert(vars[n - 1].1@ == env_value(vars[n - 1].1@)->Str_0);
                } else {
                    lemma_env_texts(vars, prefix, overrides, n - 1, k);
                }
            },
            None => {
                lemma_env_texts(vars, prefix, overrides, n - 1, k);
            },
        }
    }
}

proof fn lemma_env_parent(vars: Seq<(String, String)>, name: Seq<char>, p: Seq<char>)
    requires
        env_layer(vars, name) matches Some(Some(l)) && l.own.inherits == Some(p),
    ensures
        exists|i: int| 0 <= i < vars.len() && (#[trigger] vars[i]).1@ == p,
{
    reveal(at);
    reveal(settings_of);
    let prefix = env_prefix(name);
    let t = env_table(vars, prefix);
    let tree = TomlTree::Table(t);
    assert(tree->Table_0 == t);
    assert(settings_of(t).is_some());
    assert(text_field(at(t, "inherits"@)) == Some(Some(p)));
    lemma_entry_at(t, "inherits"@, 0);
    let k = entry_at(t, "inherits"@, 0);
    assert(t[k].1 == TomlTree::Str(p));
    let own = env_entries(vars, prefix, false, vars.len() as int);
    let b = env_entries(vars, prefix, true, vars.len() as int);
    if b.len() > 0 {
        let j = entry_at(own, "build-override"@, 0);
        lemma_entry_at(own, "build-override"@, 0);
        let at_j = if j < own.len() {
            j
        } else {
            own.len() as int
        };
        assert(t[at_j].1 == TomlTree::Table(b));
        assert(k != at_j);
        assert(t[k] == own[k]);
    }
    lemma_env_texts(vars, prefix, false, vars.len() as int, k);
}

proof fn lemma_parents(
    manifest: Seq<(String, TomlProfile)>,
    config: Seq<Vec<(String, TomlProfile)>>,
    vars: Seq<(String, String)>,
    requested: Seq<char>,
    name: Seq<char>,
    l: Layer,
    p: Seq<char>,
)
    requires
        stacked(manifest, config, vars, name) == Some(l),
        next_of(name, l) == Next::To(p),
    ensures
        parents(manifest, config, vars, requested).contains(p),
{
    reveal(at);
    reveal(stacked);
    let head = seq![requested, "dev"@, "release"@];
    let a = table_parents(layers(manifest), manifest.len() as int);
    let b = config_parents(config, config.len() as int);
    let c = Seq::new(vars.len(), |i: int| vars[i].1@);
    lemma_concat(head, a, p);
    lemma_concat(head + a, b, p);
    lemma_concat(head + a + b, c, p);
    assert(head[1] == "dev"@ && head[2] == "release"@);
    if name == "test"@ || name == "bench"@ {
        assert(head.contains(p));
    } else {
        assert(l.own.inherits == Some(p));
        let m = match at(layers(manifest), name) {
            Some(q) => merged(no_layer(), q),
            None => no_layer(),
        };
        let u = config_stack(m, config, name, config.len() as int);
        let from_env = match env_layer(vars, name) {
            Some(Some(e)) => e.own.inherits == Some(p),
            _ => false,
        };
        if from_env {
            lemma_env_parent(vars, name, p);
            let i = choose|i: int| 0 <= i < vars.len() && (#[trigger] vars[i]).1@ == p;
            assert(c[i] == p);
        } else {
            assert(u.own.inherits == Some(p));
            lemma_config_parents(m, config, name, config.len() as int, p);
            if m.own.inherits == Some(p) {
                lemma_entry_at(layers(manifest), name, 0);
                lemma_table_parents(
                    layers(manifest),
                    entry_at(layers(manifest), name, 0),
                    manifest.len() as int,
                    p,
                );
            }
        }
    }
}

fn has_name(names: &Vec<String>, name: &str) -> (r: bool)
    ensures
        r == views(names@).contains(name@),
{
    crate::manifest::any_is(names, name)
}

impl Profiles {
    /// The requested profile: the layers of each profile that it inherits from, down to `dev` or
    /// `release`.
    pub fn new(
        manifest: &Vec<(String, TomlProfile)>,
        config: &Vec<Vec<(String, TomlProfile)>>,
        vars: &Vec<(String, String)>,
        requested: &str,
        incremental_override: Option<bool>,
    ) -> (r: Result<Profiles, ProfileError>)
        ensures
            match r {
                Ok(p) => p.requested@ == requested@ && p.incremental_override == incremental_override
                    && p.weaken_host_debuginfo && exists|names: Seq<Seq<char>>| #[trigger]
                    visits(manifest@, config@, vars@, requested@, names) && stand_for(
                        manifest@,
                        config@,
                        vars@,
                        p,
                        names,
                    ),
                Err(ProfileError::Loop(n)) => exists|names: Seq<Seq<char>>| #[trigger]
                    visits(manifest@, config@, vars@, requested@, names) && names.drop_last().no_duplicates()
                        && names.drop_last().contains(names.last()) && n@ == names.last(),
                Err(ProfileError::NoInherits(n)) => exists|names: Seq<Seq<char>>| #[trigger]
                    visits(manifest@, config@, vars@, requested@, names) && names.no_duplicates() && n@
                        == names.last() && stacked(manifest@, config@, vars@, n@).is_some() && next_of(
                        n@,
                        stacked(manifest@, config@, vars@, n@).unwrap(),
                    ) == Next::Lost,
                Err(ProfileError::Environment(e)) => exists|names: Seq<Seq<char>>| #[trigger]
                    visits(manifest@, config@, vars@, requested@, names) && names.no_duplicates() && stacked(
                        manifest@,
                        config@,
                        vars@,
                        names.last(),
                    ).is_none() && e@ == env_prefix(names.last()),
            },
    {
        let ghost all = parents(manifest@, config@, vars@, requested@);
        let ghost mut names: Seq<Seq<char>> = seq![requested@];
        let mut chain: Vec<TomlProfile> = Vec::new();
        let mut name: String = requested.to_owned();
        let mut seen: Vec<String> = Vec::new();
        proof {
            assert(all[0] == requested@);
            assert(views(seen@) =~= Seq::<Seq<char>>::empty());
            assert(names.drop_last() =~= Seq::<Seq<char>>::empty());
        }
        loop
            invariant
                all == parents(manifest@, config@, vars@, requested@),
                visits(manifest@, config@, vars@, requested@, names),
                names.last() == name@,
                views(seen@) == names.drop_last(),
                names.drop_last().no_duplicates(),
                chain@.len() == seen@.len(),
                forall|i: int| 0 <= i < names.len() ==> all.contains(#[trigger] names[i]),
                forall|i: int|
                    0 <= i < chain@.len() ==> Some(#[trigger] views(chain@)[i]) == stacked(
                        manifest@,
                        config@,
                        vars@,
                        names[chain@.len() - 1 - i],
                    ),
            decreases all.to_set().len() + 1 - names.len(),
        {
            if has_name(&seen, name.as_str()) {
                return Err(ProfileError::Loop(name));
            }
            proof {
                assert(names =~= names.drop_last().push(names.last()));
                lemma_no_longer(names, all);
            }
            let t: TomlProfile = match stack(manifest, config, vars, name.as_str()) {
                Ok(t) => t,
                Err(e) => {
                    return Err(e);
                },
            };
            let ghost own = t@;
            let inherits: Option<String> = dup_text(&t.inherits);
            let ghost was = views(chain@);
            let ghost old_seen = views(seen@);
            seen.push(name.clone());
            chain.insert(0, t);
            proof {
                assert(views(seen@) =~= old_seen.push(name@));
                assert(views(seen@) =~= names);
                assert(views(chain@) =~= was.insert(0, own));
                assert forall|i: int| 0 <= i < chain@.len() implies Some(#[trigger] views(chain@)[i]) == stacked(
                    manifest@,
                    config@,
                    vars@,
                    names[chain@.len() - 1 - i],
                ) by {
                    if i > 0 {
                        assert(views(chain@)[i] == was[i - 1]);
                    }
                }
            }
            if same(name.as_str(), "dev") || same(name.as_str(), "release") {
                let base: Profile = Profile::builtin(name.as_str());
                let base: Profile = Profile { name: requested.to_owned(), ..base };
                let dir_name: String = dir_name_of(requested, &chain[chain.len() - 1]);
                let p = Profiles {
                    requested: requested.to_owned(),
                    dir_name,
                    base,
                    chain,
                    incremental_override,
                    weaken_host_debuginfo: true,
                };
                assert(stand_for(manifest@, config@, vars@, p, names));
                return Ok(p);
            }
            let parent: String = if same(name.as_str(), "test") {
                "dev".to_owned()
            } else if same(name.as_str(), "bench") {
                "release".to_owned()
            } else {
                match inherits {
                    Some(parent) => parent,
                    None => {
                        return Err(ProfileError::NoInherits(name));
                    },
                }
            };
            proof {
                let longer = names.push(parent@);
                lemma_parents(manifest@, config@, vars@, requested@, name@, own, parent@);
                assert forall|i: int| 0 <= i < longer.len() - 1 implies match stacked(
                    manifest@,
                    config@,
                    vars@,
                    #[trigger] longer[i],
                ) {
                    Some(l) => next_of(longer[i], l) == Next::To(longer[i + 1]),
                    None => false,
                } by {
                    assert(longer[i] == names[i]);
                    if i < names.len() - 1 {
                        assert(longer[i + 1] == names[i + 1]);
                    }
                }
                assert(longer.drop_last() =~= names);
                names = longer;
            }
            name = parent;
        }
    }
}

fn dir_name_of(requested: &str, own: &TomlProfile) -> (r: String)
    ensures
        r@ == dir_of(requested@, own@),
{
    if same(requested, "dev") || same(requested, "test") {
        "debug".to_owned()
    } else if same(requested, "bench") {
        "release".to_owned()
    } else {
        match &own.dir_name {
            Some(d) => d.clone(),
            None => requested.to_owned(),
        }
    }
}

} // verus!
