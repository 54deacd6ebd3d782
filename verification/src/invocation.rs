//! Arguments and env split into hashed (changes the output) and unhashed (UI, jobserver, absolute paths).

use vstd::prelude::*;
use vstd::utf8::encode_utf8;
use crate::hash::add_text;
use crate::order::ascending;
use crate::path::is_same_place;
use crate::path::same_place;
use crate::strmap::StrMap;
use crate::strmap::listed;
use crate::text::head_bytes;
use crate::text::cuts;
use crate::text::cat3;
use crate::text::contains;
use crate::text::join;
use crate::text::joined;
use crate::text::replace;
use crate::text::replaced;
use crate::text::views;

verus! {

/// Placeholder for the unit's name id until we've computed it. `-C metadata`, file names, directories.
pub const SELF_NAME: &'static str = "__RB_SELF_NAME__";

pub const SELF_NAME16: &'static str = "__RB_SELF_NAME16__";

/// What `shell_words::quote` makes of a word.
pub uninterp spec fn quoted(s: Seq<char>) -> Seq<char>;

/// `shell_words::quote`: the word as a shell reads it back, which depends on the word alone. Where quotes
/// are needed, and which, is left to `quoted`.
#[verifier::external_body]
fn quote(s: &str) -> (r: String)
    ensures
        r@ == quoted(s@),
{
    shell_words::quote(s).into_owned()
}

/// Swap machine-specific path prefixes for stable tokens before hashing. Same inputs, different worktree,
/// same key.
#[derive(Debug)]
pub struct Normalizer {
    rules: Vec<(String, String)>,
}

/// The directories and their tokens, the longest first.
impl View for Normalizer {
    type V = Seq<(Seq<char>, Seq<char>)>;

    closed spec fn view(&self) -> Seq<(Seq<char>, Seq<char>)> {
        views(self.rules@)
    }
}

/// A text in bytes.
pub open spec fn byte_len(s: Seq<char>) -> nat {
    encode_utf8(s).len()
}

/// How many of the rules, from `k` on, come before one that long.
pub open spec fn rank(rules: Seq<(Seq<char>, Seq<char>)>, n: nat, k: int) -> int
    decreases rules.len() - k,
{
    if 0 <= k < rules.len() && byte_len(rules[k].0) >= n {
        rank(rules, n, k + 1)
    } else {
        k
    }
}

/// The rules with one more, behind those that are as long.
pub open spec fn with_rule(
    rules: Seq<(Seq<char>, Seq<char>)>,
    dir: Seq<char>,
    token: Seq<char>,
) -> Seq<(Seq<char>, Seq<char>)> {
    rules.insert(rank(rules, byte_len(dir), 0), (dir, token))
}

/// The rules with one more for the name of the directory behind links, where it differs.
pub open spec fn with_real(
    rules: Seq<(Seq<char>, Seq<char>)>,
    dir: Seq<char>,
    behind: Option<Seq<char>>,
    token: Seq<char>,
) -> Seq<(Seq<char>, Seq<char>)> {
    let rules = with_rule(rules, dir, token);
    match behind {
        Some(c) => if same_place(c, dir) {
            rules
        } else {
            with_rule(rules, c, token)
        },
        None => rules,
    }
}

/// The text after the first `k` rules.
pub open spec fn normal_upto(rules: Seq<(Seq<char>, Seq<char>)>, s: Seq<char>, k: int) -> Seq<char>
    decreases k,
{
    if k <= 0 || k > rules.len() {
        s
    } else {
        replaced(normal_upto(rules, s, k - 1), rules[k - 1].0, rules[k - 1].1)
    }
}

pub open spec fn normal(rules: Seq<(Seq<char>, Seq<char>)>, s: Seq<char>) -> Seq<char> {
    normal_upto(rules, s, rules.len() as int)
}

pub open spec fn opt_text(o: Option<&str>) -> Option<Seq<char>> {
    match o {
        Some(s) => Some(s@),
        None => None,
    }
}

proof fn lemma_rank(rules: Seq<(Seq<char>, Seq<char>)>, n: nat, k: int)
    requires
        0 <= k <= rules.len(),
    ensures
        k <= rank(rules, n, k) <= rules.len(),
    decreases rules.len() - k,
{
    if k < rules.len() && byte_len(rules[k].0) >= n {
        lemma_rank(rules, n, k + 1);
    }
}

fn insert_rule(rules: &mut Vec<(String, String)>, dir: &str, token: &str)
    ensures
        views(final(rules)@) == with_rule(views(old(rules)@), dir@, token@),
{
    let n: usize = dir.as_bytes().len();
    let ghost all = views(rules@);
    let mut k: usize = 0;
    while k < rules.len() && rules[k].0.as_str().as_bytes().len() >= n
        invariant
            k <= rules@.len(),
            rules@ == old(rules)@,
            all == views(rules@),
            n == byte_len(dir@),
            rank(all, byte_len(dir@), 0) == rank(all, byte_len(dir@), k as int),
        decreases rules@.len() - k,
    {
        assert(all[k as int] == rules@[k as int]@);
        k += 1;
    }
    proof {
        if k < rules@.len() {
            assert(all[k as int] == rules@[k as int]@);
        }
    }
    rules.insert(k, (dir.to_owned(), token.to_owned()));
    assert(views(rules@) =~= all.insert(k as int, (dir@, token@)));
}

fn insert_rules(rules: &mut Vec<(String, String)>, dir: &str, behind: Option<&str>, token: &str)
    ensures
        views(final(rules)@) == with_real(views(old(rules)@), dir@, opt_text(behind), token@),
{
    insert_rule(rules, dir, token);
    if let Some(c) = behind {
        if !is_same_place(c, dir) {
            insert_rule(rules, c, token);
        }
    }
}

impl Normalizer {
    /// Tools report the path we gave them, or the one behind symbolic links: `/tmp` is `/private/tmp` on
    /// macOS. Same token either way. The longest comes first, for the target directory usually lives
    /// inside the workspace.
    pub fn new(target_dir: &str, real_target: Option<&str>, ws_root: &str, real_root: Option<&str>) -> (r: Normalizer)
        ensures
            r@ == with_real(
                with_real(Seq::empty(), target_dir@, opt_text(real_target), "{TARGET}"@),
                ws_root@,
                opt_text(real_root),
                "{WS}"@,
            ),
    {
        let mut rules: Vec<(String, String)> = Vec::new();
        assert(views(rules@) =~= Seq::<(Seq<char>, Seq<char>)>::empty());
        insert_rules(&mut rules, target_dir, real_target, "{TARGET}");
        insert_rules(&mut rules, ws_root, real_root, "{WS}");
        Normalizer { rules }
    }

    pub fn apply(&self, s: &str) -> (r: String)
        ensures
            r@ == normal(self@, s@),
    {
        let mut out = s.to_owned();
        let mut k: usize = 0;
        while k < self.rules.len()
            invariant
                k <= self.rules@.len(),
                out@ == normal_upto(self@, s@, k as int),
            decreases self.rules@.len() - k,
        {
            assert(self@[k as int] == self.rules@[k as int]@);
            out = replace(out.as_str(), self.rules[k].0.as_str(), self.rules[k].1.as_str());
            k += 1;
        }
        out
    }
}

#[derive(Debug)]
pub struct Invocation {
    pub program: String,
    pub args: Vec<(String, bool)>,
    pub env: StrMap<(String, bool)>,
    pub cwd: String,
    pub path_prepend: Vec<String>,
}

pub type EnvView = Map<Seq<char>, (Seq<char>, bool)>;

/// The model of an invocation.
pub struct InvocationView {
    pub program: Seq<char>,
    pub args: Seq<(Seq<char>, bool)>,
    pub env: EnvView,
    pub cwd: Seq<char>,
    pub path_prepend: Seq<Seq<char>>,
}

pub open spec fn env_view(m: Map<Seq<char>, (String, bool)>) -> EnvView {
    Map::new(|k: Seq<char>| m.contains_key(k), |k: Seq<char>| m[k]@)
}

impl View for Invocation {
    type V = InvocationView;

    open spec fn view(&self) -> InvocationView {
        InvocationView {
            program: self.program@,
            args: views(self.args@),
            env: env_view(self.env@),
            cwd: self.cwd@,
            path_prepend: views(self.path_prepend@),
        }
    }
}

impl InvocationView {
    #[verifier::opaque]
    pub open spec fn adding(self, more: Seq<(Seq<char>, bool)>) -> InvocationView {
        InvocationView { args: self.args + more, ..self }
    }

    #[verifier::opaque]
    pub open spec fn setting(self, k: Seq<char>, v: Seq<char>, hashed: bool) -> InvocationView {
        InvocationView { env: self.env.insert(k, (v, hashed)), ..self }
    }
}

/// Arguments that count.
pub open spec fn counted(l: Seq<Seq<char>>) -> Seq<(Seq<char>, bool)> {
    Seq::new(l.len(), |k: int| (l[k], true))
}

/// The first `k` arguments, those that count, as they are hashed.
pub open spec fn args_data(
    rules: Seq<(Seq<char>, Seq<char>)>,
    args: Seq<(Seq<char>, bool)>,
    k: int,
) -> Seq<u8>
    decreases k,
{
    if k <= 0 || k > args.len() {
        Seq::empty()
    } else if args[k - 1].1 {
        args_data(rules, args, k - 1) + encode_utf8("\0a\0"@) + encode_utf8(normal(rules, args[k - 1].0))
    } else {
        args_data(rules, args, k - 1)
    }
}

/// The first `k` variables, those that count, as they are hashed.
pub open spec fn env_data(rules: Seq<(Seq<char>, Seq<char>)>, env: EnvView, names: Seq<Seq<char>>, k: int) -> Seq<u8>
    decreases k,
{
    if k <= 0 || k > names.len() {
        Seq::empty()
    } else if env[names[k - 1]].1 {
        env_data(rules, env, names, k - 1) + encode_utf8("\0e\0"@) + encode_utf8(names[k - 1]) + encode_utf8("="@)
            + encode_utf8(normal(rules, env[names[k - 1]].0))
    } else {
        env_data(rules, env, names, k - 1)
    }
}

/// What is hashed of an invocation: nothing that only this machine or this terminal has.
pub open spec fn hashed_data(rules: Seq<(Seq<char>, Seq<char>)>, inv: InvocationView) -> Seq<u8> {
    let names = listed(inv.env.dom());
    encode_utf8("program\0"@) + encode_utf8(normal(rules, inv.program)) + encode_utf8("\0cwd\0"@) + encode_utf8(
        normal(rules, inv.cwd),
    ) + args_data(rules, inv.args, inv.args.len() as int) + env_data(rules, inv.env, names, names.len() as int)
}

/// The text with the unit's name in place of the placeholders.
pub open spec fn named(s: Seq<char>, name: Seq<char>) -> Seq<char> {
    replaced(replaced(s, SELF_NAME16@, head_bytes(name, 16)), SELF_NAME@, name)
}

pub open spec fn named_args(args: Seq<(Seq<char>, bool)>, name: Seq<char>) -> Seq<(Seq<char>, bool)> {
    Seq::new(args.len(), |k: int| (named(args[k].0, name), args[k].1))
}

pub open spec fn named_env(env: EnvView, name: Seq<char>) -> EnvView {
    Map::new(|k: Seq<char>| env.contains_key(k), |k: Seq<char>| (named(env[k].0, name), env[k].1))
}

/// The variables, each with its value as a shell reads it.
pub open spec fn shown_env(env: EnvView, names: Seq<Seq<char>>) -> Seq<Seq<char>> {
    Seq::new(names.len(), |k: int| names[k] + "="@ + quoted(env[names[k]].0))
}

pub open spec fn shown(inv: InvocationView, with_env: bool) -> Seq<char> {
    let names = listed(inv.env.dom());
    joined(
        (if with_env {
            shown_env(inv.env, names)
        } else {
            Seq::empty()
        }).push(quoted(inv.program)) + Seq::new(inv.args.len(), |k: int| quoted(inv.args[k].0)),
        " "@,
    )
}

/// The text with the name in place of the placeholders. The name is sixteen characters or longer.
pub fn substitute(s: &str, name: &str, name16: &str) -> (r: String)
    requires
        name16@ == head_bytes(name@, 16),
    ensures
        r@ == named(s@, name@),
{
    proof {
        reveal_strlit("__RB_SELF_NAME__");
        reveal_strlit("__RB_SELF_NAME16__");
    }
    replace(replace(s, SELF_NAME16, name16).as_str(), SELF_NAME, name)
}

/// The first sixteen bytes.
pub fn first16(name: &str) -> (r: String)
    requires
        cuts(name@, 16),
    ensures
        r@ == head_bytes(name@, 16),
{
    crate::text::head_of(name, 16)
}

impl Invocation {
    pub fn new(program: &str, cwd: &str) -> (r: Invocation)
        ensures
            r@ == (InvocationView {
                program: program@,
                args: Seq::empty(),
                env: Map::empty(),
                cwd: cwd@,
                path_prepend: Seq::empty(),
            }),
    {
        proof {
            reveal(InvocationView::adding);
            reveal(InvocationView::setting);
        }
        let r = Invocation {
            program: program.to_owned(),
            args: Vec::new(),
            env: StrMap::new(),
            cwd: cwd.to_owned(),
            path_prepend: Vec::new(),
        };
        assert(r@.args =~= Seq::<(Seq<char>, bool)>::empty());
        assert(r@.env =~= Map::<Seq<char>, (Seq<char>, bool)>::empty());
        assert(r@.path_prepend =~= Seq::<Seq<char>>::empty());
        r
    }

    pub fn arg(&mut self, a: &str)
        ensures
            final(self)@ == old(self)@.adding(seq![(a@, true)]),
    {
        proof {
            reveal(InvocationView::adding);
        }
        self.args.push((a.to_owned(), true));
        assert(self@.args =~= old(self)@.args + seq![(a@, true)]);
    }

    pub fn arg_unhashed(&mut self, a: &str)
        ensures
            final(self)@ == old(self)@.adding(seq![(a@, false)]),
    {
        proof {
            reveal(InvocationView::adding);
        }
        self.args.push((a.to_owned(), false));
        assert(self@.args =~= old(self)@.args + seq![(a@, false)]);
    }

    pub fn args(&mut self, it: &Vec<String>)
        ensures
            final(self)@ == old(self)@.adding(counted(views(it@))),
    {
        proof {
            reveal(InvocationView::adding);
        }
        let ghost all = counted(views(it@));
        let mut k: usize = 0;
        assert(self@.args =~= old(self)@.args + all.take(0));
        while k < it.len()
            invariant
                k <= it@.len(),
                all == counted(views(it@)),
                self@ == old(self)@.adding(all.take(k as int)),
            decreases it@.len() - k,
        {
            proof {
                reveal(InvocationView::adding);
            }
            self.arg(it[k].as_str());
            assert(old(self)@.args + all.take(k as int) + seq![all[k as int]] =~= old(self)@.args + all.take(k + 1));
            k += 1;
        }
        assert(all.take(all.len() as int) =~= all);
    }

    pub fn env(&mut self, k: &str, v: &str)
        ensures
            final(self)@ == old(self)@.setting(k@, v@, true),
    {
        proof {
            reveal(InvocationView::setting);
        }
        self.env.insert(k, (v.to_owned(), true));
        assert(self@.env =~= old(self)@.env.insert(k@, (v@, true)));
    }

    pub fn env_unhashed(&mut self, k: &str, v: &str)
        ensures
            final(self)@ == old(self)@.setting(k@, v@, false),
    {
        proof {
            reveal(InvocationView::setting);
        }
        self.env.insert(k, (v.to_owned(), false));
        assert(self@.env =~= old(self)@.env.insert(k@, (v@, false)));
    }

    pub fn get_env(&self, k: &str) -> (r: Option<&str>)
        ensures
            opt_text(r) == if self@.env.contains_key(k@) {
                Some(self@.env[k@].0)
            } else {
                None
            },
    {
        match self.env.get(k) {
            Some(v) => Some(v.0.as_str()),
            None => None,
        }
    }

    /// Adds what counts of the invocation.
    pub fn hash_into(&self, h: &mut Vec<u8>, norm: &Normalizer)
        ensures
            final(h)@ == old(h)@ + hashed_data(norm@, self@),
    {
        let ghost start = h@;
        add_text(h, "program\0");
        add_text(h, norm.apply(self.program.as_str()).as_str());
        add_text(h, "\0cwd\0");
        add_text(h, norm.apply(self.cwd.as_str()).as_str());
        let ghost head = h@;
        let mut k: usize = 0;
        while k < self.args.len()
            invariant
                k <= self.args@.len(),
                h@ == head + args_data(norm@, self@.args, k as int),
            decreases self.args@.len() - k,
        {
            assert(self@.args[k as int] == self.args@[k as int]@);
            if self.args[k].1 {
                add_text(h, "\0a\0");
                add_text(h, norm.apply(self.args[k].0.as_str()).as_str());
            }
            k += 1;
            assert(h@ =~= head + args_data(norm@, self@.args, k as int));
        }
        let ghost body = h@;
        let names = self.env.keys();
        let ghost ns = views(names@);
        assert(self@.env.dom() =~= self.env@.dom());
        k = 0;
        while k < names.len()
            invariant
                k <= names@.len(),
                ns == views(names@),
                ns.to_set() == self.env@.dom(),
                h@ == body + env_data(norm@, self@.env, ns, k as int),
            decreases names@.len() - k,
        {
            assert(ns[k as int] == names@[k as int]@);
            assert(ns.to_set().contains(ns[k as int]));
            if let Some(v) = self.env.get(names[k].as_str()) {
                if v.1 {
                    add_text(h, "\0e\0");
                    add_text(h, names[k].as_str());
                    add_text(h, "=");
                    add_text(h, norm.apply(v.0.as_str()).as_str());
                }
            }
            k += 1;
            assert(h@ =~= body + env_data(norm@, self@.env, ns, k as int));
        }
        assert(h@ =~= start + hashed_data(norm@, self@));
    }

    /// Puts the unit's name in place of the placeholders.
    pub fn substitute_name(&mut self, name: &str)
        requires
            cuts(name@, 16),
        ensures
            final(self)@ == (InvocationView {
                program: named(old(self)@.program, name@),
                args: named_args(old(self)@.args, name@),
                env: named_env(old(self)@.env, name@),
                ..old(self)@
            }),
    {
        let name16 = first16(name);
        let mut args: Vec<(String, bool)> = Vec::new();
        let mut k: usize = 0;
        while k < self.args.len()
            invariant
                k <= self.args@.len(),
                name16@ == head_bytes(name@, 16),
                *self == *old(self),
                args@.len() == k,
                forall|j: int| 0 <= j < k ==> (#[trigger] args@[j])@ == named_args(self@.args, name@)[j],
            decreases self.args@.len() - k,
        {
            assert(self@.args[k as int] == self.args@[k as int]@);
            args.push((substitute(self.args[k].0.as_str(), name, name16.as_str()), self.args[k].1));
            k += 1;
        }
        assert(views(args@) =~= named_args(self@.args, name@));
        let mut env: StrMap<(String, bool)> = StrMap::new();
        let names = self.env.keys();
        let ghost ns = views(names@);
        k = 0;
        while k < names.len()
            invariant
                k <= names@.len(),
                *self == *old(self),
                ns == views(names@),
                ascending(ns),
                ns.to_set() == self.env@.dom(),
                name16@ == head_bytes(name@, 16),
                forall|n: Seq<char>| #[trigger] env@.contains_key(n) == ns.take(k as int).contains(n),
                forall|n: Seq<char>| #[trigger] env@.contains_key(n) ==> env@[n]@ == named_env(self@.env, name@)[n],
            decreases names@.len() - k,
        {
            assert(ns[k as int] == names@[k as int]@);
            assert(ns.to_set().contains(ns[k as int]));
            let ghost was = env@;
            if let Some(v) = self.env.get(names[k].as_str()) {
                env.insert(names[k].as_str(), (substitute(v.0.as_str(), name, name16.as_str()), v.1));
            }
            proof {
                assert(ns.take(k + 1) =~= ns.take(k as int).push(ns[k as int]));
                assert forall|n: Seq<char>| #[trigger] env@.contains_key(n) == ns.take(k + 1).contains(n) by {
                    if ns.take(k as int).contains(n) {
                        let j = choose|j: int| 0 <= j < k && ns.take(k as int)[j] == n;
                        assert(ns.take(k + 1)[j] == n);
                    }
                    assert(ns.take(k + 1)[k as int] == ns[k as int]);
                }
            }
            k += 1;
        }
        proof {
            assert(ns.take(ns.len() as int) =~= ns);
            assert forall|n: Seq<char>| env@.contains_key(n) == self@.env.contains_key(n) by {
                assert(ns.to_set().contains(n) == ns.contains(n));
            }
            assert(env_view(env@) =~= named_env(self@.env, name@));
        }
        let program = substitute(self.program.as_str(), name, name16.as_str());
        self.program = program;
        self.args = args;
        self.env = env;
    }

    /// The command as a shell reads it, with its variables where they are asked for.
    pub fn display(&self, with_env: bool) -> (r: String)
        ensures
            r@ == shown(self@, with_env),
    {
        let mut parts: Vec<String> = Vec::new();
        let ghost first = if with_env {
            shown_env(self@.env, listed(self@.env.dom()))
        } else {
            Seq::empty()
        };
        if with_env {
            let names = self.env.keys();
            let ghost ns = views(names@);
            assert(self@.env.dom() =~= self.env@.dom());
            let mut k: usize = 0;
            while k < names.len()
                invariant
                    k <= names@.len(),
                    ns == views(names@),
                    ns.to_set() == self.env@.dom(),
                    first == shown_env(self@.env, ns),
                    parts@.len() == k,
                    forall|j: int| 0 <= j < k ==> #[trigger] parts@[j]@ == first[j],
                decreases names@.len() - k,
            {
                assert(ns[k as int] == names@[k as int]@);
                assert(ns.to_set().contains(ns[k as int]));
                let value: &str = match self.env.get(names[k].as_str()) {
                    Some(v) => v.0.as_str(),
                    None => "",
                };
                parts.push(cat3(names[k].as_str(), "=", quote(value).as_str()));
                k += 1;
            }
        }
        assert(views(parts@) =~= first);
        parts.push(quote(self.program.as_str()));
        let ghost head = first.push(quoted(self@.program));
        assert(views(parts@) =~= head);
        let ghost tail = Seq::new(self@.args.len(), |k: int| quoted(self@.args[k].0));
        let mut k: usize = 0;
        assert(head + tail.take(0) =~= head);
        while k < self.args.len()
            invariant
                k <= self.args@.len(),
                tail == Seq::new(self@.args.len(), |k: int| quoted(self@.args[k].0)),
                views(parts@) == head + tail.take(k as int),
            decreases self.args@.len() - k,
        {
            assert(self@.args[k as int] == self.args@[k as int]@);
            let ghost before = parts@;
            parts.push(quote(self.args[k].0.as_str()));
            assert(views(parts@) =~= views(before).push(tail[k as int]));
            assert(head + tail.take(k + 1) =~= (head + tail.take(k as int)).push(tail[k as int]));
            k += 1;
        }
        assert(tail.take(tail.len() as int) =~= tail);
        join(&parts, " ")
    }
}

} // verus!
