//! A target triple, or a `cfg(...)` checked against what the compiler prints of a target.

use vstd::prelude::*;
use crate::text::alnum;
use crate::text::after_prefix;
use crate::text::before_suffix;
use crate::text::chars_of;
use crate::text::is_alnum;
use crate::text::opt_view;
use crate::text::same;
use crate::text::string_of;
use crate::text::strip_prefix;
use crate::text::strip_suffix;
use crate::text::trim;
use crate::text::trimmed;

verus! {

#[derive(Debug)]
pub enum Cfg {
    Name(String),
    KeyValue(String, String),
    All(Vec<Cfg>),
    Any(Vec<Cfg>),
    Not(Box<Cfg>),
}

#[derive(Debug)]
pub enum PlatformExpr {
    Triple(String),
    Cfg(Cfg),
}

/// A platform: its triple, and its flags and key-value pairs.
#[derive(Clone, Copy)]
pub struct PlatformCfg<'a> {
    pub triple: &'a str,
    pub cfg: &'a [(String, Option<String>)],
}

/// Why a platform expression is malformed. Offsets count the bytes before the place.
#[derive(Debug)]
pub enum CfgError {
    /// An identifier was expected at the offset.
    Identifier(u128),
    /// A string was expected at the offset.
    Text(u128),
    /// A `(` was expected.
    Open,
    /// `not()` holds no predicate, or more than one.
    NotArity,
    /// The expression goes on after its end.
    Trailing(String),
}

/// The model of a predicate.
pub enum CfgTree {
    Name(Seq<char>),
    KeyValue(Seq<char>, Seq<char>),
    All(Seq<CfgTree>),
    Any(Seq<CfgTree>),
    Not(Box<CfgTree>),
}

pub enum PlatformTree {
    Triple(Seq<char>),
    Cfg(CfgTree),
}

/// The model of an error.
pub enum CfgFault {
    Identifier(int),
    Text(int),
    Open,
    NotArity,
    Trailing(Seq<char>),
}

impl View for CfgError {
    type V = CfgFault;

    open spec fn view(&self) -> CfgFault {
        match self {
            CfgError::Identifier(n) => CfgFault::Identifier(*n as int),
            CfgError::Text(n) => CfgFault::Text(*n as int),
            CfgError::Open => CfgFault::Open,
            CfgError::NotArity => CfgFault::NotArity,
            CfgError::Trailing(s) => CfgFault::Trailing(s@),
        }
    }
}

pub open spec fn tree(c: Cfg) -> CfgTree
    decreases c,
{
    match c {
        Cfg::Name(n) => CfgTree::Name(n@),
        Cfg::KeyValue(k, v) => CfgTree::KeyValue(k@, v@),
        Cfg::All(l) => CfgTree::All(trees(l@)),
        Cfg::Any(l) => CfgTree::Any(trees(l@)),
        Cfg::Not(b) => CfgTree::Not(Box::new(tree(*b))),
    }
}

pub open spec fn trees(l: Seq<Cfg>) -> Seq<CfgTree>
    decreases l,
{
    Seq::new(
        l.len(),
        |i: int|
            if 0 <= i < l.len() {
                tree(l[i])
            } else {
                CfgTree::Name(Seq::empty())
            },
    )
}

impl View for Cfg {
    type V = CfgTree;

    open spec fn view(&self) -> CfgTree {
        tree(*self)
    }
}

impl View for PlatformExpr {
    type V = PlatformTree;

    open spec fn view(&self) -> PlatformTree {
        match self {
            PlatformExpr::Triple(t) => PlatformTree::Triple(t@),
            PlatformExpr::Cfg(c) => PlatformTree::Cfg(tree(*c)),
        }
    }
}

/// The flags and key-value pairs of a platform.
pub open spec fn facts(cfg: Seq<(String, Option<String>)>) -> Seq<(Seq<char>, Option<Seq<char>>)> {
    Seq::new(cfg.len(), |i: int| (cfg[i].0@, opt_view(cfg[i].1)))
}

/// What a predicate says of a platform.
pub open spec fn truth(c: CfgTree, facts: Seq<(Seq<char>, Option<Seq<char>>)>) -> bool
    decreases c,
{
    match c {
        CfgTree::Name(n) => facts.contains((n, None)),
        CfgTree::KeyValue(k, v) => facts.contains((k, Some(v))),
        CfgTree::All(l) => forall|i: int| 0 <= i < l.len() ==> truth(#[trigger] l[i], facts),
        CfgTree::Any(l) => exists|i: int| 0 <= i < l.len() && truth(#[trigger] l[i], facts),
        CfgTree::Not(b) => !truth(*b, facts),
    }
}

/// What a platform expression says of a platform.
pub open spec fn applies(
    e: PlatformTree,
    triple: Seq<char>,
    facts: Seq<(Seq<char>, Option<Seq<char>>)>,
) -> bool {
    match e {
        PlatformTree::Triple(t) => t == triple,
        PlatformTree::Cfg(c) => truth(c, facts),
    }
}

proof fn lemma_all(l: Seq<CfgTree>, f: Seq<(Seq<char>, Option<Seq<char>>)>, i: int)
    requires
        0 <= i < l.len(),
    ensures
        truth(CfgTree::All(l), f) ==> truth(l[i], f),
{
    let c = CfgTree::All(l);
    assert(c->All_0 == l);
}

proof fn lemma_any(l: Seq<CfgTree>, f: Seq<(Seq<char>, Option<Seq<char>>)>, i: int)
    requires
        0 <= i < l.len(),
    ensures
        truth(l[i], f) ==> truth(CfgTree::Any(l), f),
{
    let c = CfgTree::Any(l);
    assert(c->Any_0[i] == l[i]);
}

#[verifier::loop_isolation(false)]
fn eval(c: &Cfg, cfg: &[(String, Option<String>)]) -> (r: bool)
    ensures
        r == truth(tree(*c), facts(cfg@)),
    decreases *c,
{
    match c {
        Cfg::Name(n) => {
            let mut i: usize = 0;
            while i < cfg.len()
                invariant
                    i <= cfg@.len(),
                    forall|j: int| 0 <= j < i ==> facts(cfg@)[j] != (n@, None::<Seq<char>>),
                decreases cfg@.len() - i,
            {
                if same(cfg[i].0.as_str(), n.as_str()) && cfg[i].1.is_none() {
                    assert(facts(cfg@)[i as int] == (n@, None::<Seq<char>>));
                    return true;
                }
                i += 1;
            }
            false
        },
        Cfg::KeyValue(k, v) => {
            let mut i: usize = 0;
            while i < cfg.len()
                invariant
                    i <= cfg@.len(),
                    forall|j: int| 0 <= j < i ==> facts(cfg@)[j] != (k@, Some(v@)),
                decreases cfg@.len() - i,
            {
                if same(cfg[i].0.as_str(), k.as_str()) {
                    if let Some(w) = &cfg[i].1 {
                        if same(w.as_str(), v.as_str()) {
                            assert(facts(cfg@)[i as int] == (k@, Some(v@)));
                            return true;
                        }
                    }
                }
                i += 1;
            }
            false
        },
        Cfg::All(l) => {
            let mut i: usize = 0;
            while i < l.len()
                invariant
                    *c == Cfg::All(*l),
                    i <= l@.len(),
                    forall|j: int| 0 <= j < i ==> truth(#[trigger] trees(l@)[j], facts(cfg@)),
                decreases l@.len() - i,
            {
                assert(decreases_to!(*c => l@[i as int]));
                assert(trees(l@)[i as int] == tree(l@[i as int]));
                if !eval(&l[i], cfg) {
                    assert(!truth(trees(l@)[i as int], facts(cfg@)));
                    proof {
                        lemma_all(trees(l@), facts(cfg@), i as int);
                    }
                    return false;
                }
                i += 1;
            }
            true
        },
        Cfg::Any(l) => {
            let mut i: usize = 0;
            while i < l.len()
                invariant
                    *c == Cfg::Any(*l),
                    i <= l@.len(),
                    forall|j: int| 0 <= j < i ==> !truth(#[trigger] trees(l@)[j], facts(cfg@)),
                decreases l@.len() - i,
            {
                assert(decreases_to!(*c => l@[i as int]));
                assert(trees(l@)[i as int] == tree(l@[i as int]));
                if eval(&l[i], cfg) {
                    assert(truth(trees(l@)[i as int], facts(cfg@)));
                    proof {
                        lemma_any(trees(l@), facts(cfg@), i as int);
                    }
                    return true;
                }
                i += 1;
            }
            false
        },
        Cfg::Not(b) => !eval(b, cfg),
    }
}

// ---------------------------------------------------------------------------
// Reading
// ---------------------------------------------------------------------------

/// The white space between the tokens.
pub open spec fn blank(c: char) -> bool {
    c == ' ' || c == '\t' || c == '\n' || c == '\x0c' || c == '\r'
}

pub open spec fn word_char(c: char) -> bool {
    alnum(c) || c == '_'
}

pub open spec fn after_blanks(s: Seq<char>, i: int) -> int
    decreases s.len() - i,
{
    if 0 <= i < s.len() && blank(s[i]) {
        after_blanks(s, i + 1)
    } else {
        i
    }
}

pub open spec fn after_word(s: Seq<char>, i: int) -> int
    decreases s.len() - i,
{
    if 0 <= i < s.len() && word_char(s[i]) {
        after_word(s, i + 1)
    } else {
        i
    }
}

pub open spec fn at_quote(s: Seq<char>, i: int) -> int
    decreases s.len() - i,
{
    if 0 <= i < s.len() && s[i] != '"' {
        at_quote(s, i + 1)
    } else {
        i
    }
}

/// Whether the next token is `c`, and the place after it; the place of the token where it is not.
pub open spec fn token(s: Seq<char>, c: char, i: int) -> (bool, int) {
    let j = after_blanks(s, i);
    if 0 <= j < s.len() && s[j] == c {
        (true, j + 1)
    } else {
        (false, j)
    }
}

/// The bytes of a character in UTF-8.
pub open spec fn width(c: char) -> int {
    let u = c as u32;
    if u < 0x80 {
        1
    } else if u < 0x800 {
        2
    } else if u < 0x10000 {
        3
    } else {
        4
    }
}

/// The bytes before the place `i`. A place past the end counts as one byte more.
pub open spec fn offset(s: Seq<char>, i: int) -> int
    decreases i,
{
    if i <= 0 {
        0
    } else if i > s.len() {
        1 + offset(s, i - 1)
    } else {
        width(s[i - 1]) + offset(s, i - 1)
    }
}

pub open spec fn read_ident(s: Seq<char>, i: int) -> Result<(Seq<char>, int), CfgFault> {
    let a = after_blanks(s, i);
    let b = after_word(s, a);
    if a < b {
        Ok((s.subrange(a, b), b))
    } else {
        Err(CfgFault::Identifier(offset(s, a)))
    }
}

/// A string in quotes; the end of the text closes it too, one place further on.
pub open spec fn read_text(s: Seq<char>, i: int) -> Result<(Seq<char>, int), CfgFault> {
    let (quoted, a) = token(s, '"', i);
    if quoted {
        let b = at_quote(s, a);
        Ok((s.subrange(a, b), b + 1))
    } else {
        Err(CfgFault::Text(offset(s, a)))
    }
}

/// The predicates up to the closing `)`. A comma may follow each of them.
pub open spec fn read_items(s: Seq<char>, i: int) -> Result<(Seq<CfgTree>, int), CfgFault>
    decreases s.len() + 2 - i, 1int,
{
    let (closed, a) = token(s, ')', i);
    if closed {
        Ok((Seq::empty(), a))
    } else if a < i || a > s.len() + 1 {
        Err(CfgFault::Open)
    } else {
        match read_cfg(s, a) {
            Err(e) => Err(e),
            Ok((c, b)) => {
                let next = token(s, ',', b).1;
                if next <= i || next > s.len() + 1 {
                    Err(CfgFault::Open)
                } else {
                    match read_items(s, next) {
                        Err(e) => Err(e),
                        Ok((rest, end)) => Ok((seq![c] + rest, end)),
                    }
                }
            },
        }
    }
}

pub open spec fn read_list(s: Seq<char>, i: int) -> Result<(Seq<CfgTree>, int), CfgFault>
    decreases s.len() + 2 - i, 2int,
{
    let (opened, a) = token(s, '(', i);
    if opened && a > i && a <= s.len() {
        read_items(s, a)
    } else {
        Err(CfgFault::Open)
    }
}

/// A predicate: a name, `key = "value"`, or `all`, `any` or `not` with a list.
pub open spec fn read_cfg(s: Seq<char>, i: int) -> Result<(CfgTree, int), CfgFault>
    decreases s.len() + 2 - i, 0int,
{
    match read_ident(s, i) {
        Err(e) => Err(e),
        Ok((name, a)) => if a <= i || a > s.len() {
            Err(CfgFault::Open)
        } else if name == "all"@ {
            match read_list(s, a) {
                Err(e) => Err(e),
                Ok((l, b)) => Ok((CfgTree::All(l), b)),
            }
        } else if name == "any"@ {
            match read_list(s, a) {
                Err(e) => Err(e),
                Ok((l, b)) => Ok((CfgTree::Any(l), b)),
            }
        } else if name == "not"@ {
            match read_list(s, a) {
                Err(e) => Err(e),
                Ok((l, b)) => if l.len() == 1 {
                    Ok((CfgTree::Not(Box::new(l[0])), b))
                } else {
                    Err(CfgFault::NotArity)
                },
            }
        } else {
            let (paired, b) = token(s, '=', a);
            if paired {
                match read_text(s, b) {
                    Err(e) => Err(e),
                    Ok((v, d)) => Ok((CfgTree::KeyValue(name, v), d)),
                }
            } else {
                Ok((CfgTree::Name(name), b))
            }
        },
    }
}

/// What stands between `cfg(` and the closing `)`, where the text has that form.
pub open spec fn cfg_body(t: Seq<char>) -> Option<Seq<char>> {
    match after_prefix(t, "cfg("@) {
        Some(r) => before_suffix(r, ")"@),
        None => None,
    }
}

/// What a platform expression reads as.
pub open spec fn read_platform(s: Seq<char>) -> Result<PlatformTree, CfgFault> {
    let t = trimmed(s);
    match cfg_body(t) {
        None => Ok(PlatformTree::Triple(t)),
        Some(inner) => match read_cfg(inner, 0) {
            Err(e) => Err(e),
            Ok((c, end)) => if after_blanks(inner, end) == inner.len() {
                Ok(PlatformTree::Cfg(c))
            } else {
                Err(CfgFault::Trailing(s))
            },
        },
    }
}

proof fn lemma_blanks(s: Seq<char>, i: int)
    requires
        0 <= i,
    ensures
        i <= after_blanks(s, i),
        i <= s.len() ==> after_blanks(s, i) <= s.len(),
        i > s.len() ==> after_blanks(s, i) == i,
    decreases s.len() - i,
{
    if i < s.len() && blank(s[i]) {
        lemma_blanks(s, i + 1);
    }
}

proof fn lemma_word(s: Seq<char>, i: int)
    requires
        0 <= i,
    ensures
        i <= after_word(s, i),
        i <= s.len() ==> after_word(s, i) <= s.len(),
        i > s.len() ==> after_word(s, i) == i,
    decreases s.len() - i,
{
    if i < s.len() && word_char(s[i]) {
        lemma_word(s, i + 1);
    }
}

/// A reader of the characters of an expression: what is left starts at `i`, or, after a string
/// that the end of the text closed, one place past the end.
struct Parser {
    s: Vec<char>,
    i: usize,
    past: bool,
}

impl Parser {
    spec fn ok(self) -> bool {
        self.i <= self.s@.len() && (self.past ==> self.i == self.s@.len())
    }

    spec fn at(self) -> int {
        if self.past {
            self.i + 1
        } else {
            self.i as int
        }
    }

    fn ws(&mut self)
        requires
            old(self).ok(),
        ensures
            final(self).ok(),
            final(self).s == old(self).s,
            final(self).at() == after_blanks(old(self).s@, old(self).at()),
            final(self).past == old(self).past,
            final(self).at() >= old(self).at(),
    {
        proof {
            lemma_blanks(self.s@, self.at());
        }
        while self.i < self.s.len() && (self.s[self.i] == ' ' || self.s[self.i] == '\t' || self.s[self.i]
            == '\n' || self.s[self.i] == '\x0c' || self.s[self.i] == '\r')
            invariant
                self.ok(),
                self.s == old(self).s,
                self.i >= old(self).i,
                self.past == old(self).past,
                after_blanks(old(self).s@, old(self).at()) == after_blanks(self.s@, self.at()),
            decreases self.s@.len() - self.i,
        {
            self.i = self.i + 1;
        }
    }

    fn eat(&mut self, c: char) -> (r: bool)
        requires
            old(self).ok(),
        ensures
            final(self).ok(),
            final(self).s == old(self).s,
            (r, final(self).at()) == token(old(self).s@, c, old(self).at()),
            final(self).past == old(self).past,
            final(self).at() >= old(self).at(),
            r ==> old(self).at() < final(self).at() && !old(self).past,
    {
        self.ws();
        if self.i < self.s.len() && self.s[self.i] == c {
            self.i = self.i + 1;
            true
        } else {
            false
        }
    }

    /// The bytes before the current place.
    fn byte_offset(&self) -> (r: u128)
        requires
            self.ok(),
        ensures
            r == offset(self.s@, self.at()),
    {
        let mut n: u128 = 0;
        let mut k: usize = 0;
        while k < self.i
            invariant
                self.ok(),
                k <= self.i,
                n == offset(self.s@, k as int),
                n <= 4 * k,
            decreases self.i - k,
        {
            n = n + char_width(self.s[k]);
            k += 1;
        }
        if self.past {
            n + 1
        } else {
            n
        }
    }

    fn ident(&mut self) -> (r: Result<String, CfgError>)
        requires
            old(self).ok(),
        ensures
            final(self).ok(),
            final(self).s == old(self).s,
            match read_ident(old(self).s@, old(self).at()) {
                Ok((name, end)) => r.is_ok() && r->Ok_0@ == name && final(self).at() == end && old(self).at()
                    < end <= old(self).s@.len() && !final(self).past,
                Err(e) => r.is_err() && r->Err_0@ == e,
            },
    {
        self.ws();
        let start: usize = self.i;
        proof {
            lemma_word(self.s@, self.at());
        }
        while self.i < self.s.len() && (is_alnum(self.s[self.i]) || self.s[self.i] == '_')
            invariant
                self.ok(),
                start <= self.i,
                self.past == old(self).past,
                self.past ==> start == self.i,
                self.s == old(self).s,
                !self.past ==> after_word(self.s@, start as int) == after_word(self.s@, self.i as int),
            decreases self.s@.len() - self.i,
        {
            self.i = self.i + 1;
        }
        if start == self.i {
            return Err(CfgError::Identifier(self.byte_offset()));
        }
        Ok(string_of(&self.s, start, self.i))
    }

    fn string(&mut self) -> (r: Result<String, CfgError>)
        requires
            old(self).ok(),
        ensures
            final(self).ok(),
            final(self).s == old(self).s,
            match read_text(old(self).s@, old(self).at()) {
                Ok((text, end)) => r.is_ok() && r->Ok_0@ == text && final(self).at() == end && old(self).at() < end,
                Err(e) => r.is_err() && r->Err_0@ == e,
            },
    {
        if !self.eat('"') {
            return Err(CfgError::Text(self.byte_offset()));
        }
        let start: usize = self.i;
        while self.i < self.s.len() && self.s[self.i] != '"'
            invariant
                self.ok(),
                start <= self.i <= self.s@.len(),
                !self.past,
                self.s == old(self).s,
                at_quote(self.s@, start as int) == at_quote(self.s@, self.i as int),
            decreases self.s@.len() - self.i,
        {
            self.i = self.i + 1;
        }
        let v: String = string_of(&self.s, start, self.i);
        if self.i < self.s.len() {
            self.i = self.i + 1;
        } else {
            self.past = true;
        }
        Ok(v)
    }

    fn list(&mut self) -> (r: Result<Vec<Cfg>, CfgError>)
        requires
            old(self).ok(),
        ensures
            final(self).ok(),
            final(self).s == old(self).s,
            match read_list(old(self).s@, old(self).at()) {
                Ok((l, end)) => r.is_ok() && trees(r->Ok_0@) == l && final(self).at() == end && old(self).at()
                    < end,
                Err(e) => r.is_err() && r->Err_0@ == e,
            },
        decreases old(self).s@.len() + 2 - old(self).at(), 1int,
    {
        if !self.eat('(') {
            return Err(CfgError::Open);
        }
        let ghost start = self.at();
        let mut out: Vec<Cfg> = Vec::new();
        assert(trees(out@) == Seq::<CfgTree>::empty());
        assert(match read_items(self.s@, start) {
            Ok((l, end)) => l == trees(out@) + l,
            Err(e) => true,
        });
        loop
            invariant
                self.ok(),
                self.s == old(self).s,
                old(self).at() < start <= self.at(),
                read_list(self.s@, old(self).at()) == read_items(self.s@, start),
                match read_items(self.s@, self.at()) {
                    Ok((l, end)) => read_items(self.s@, start) == Ok::<(Seq<CfgTree>, int), CfgFault>(
                        (trees(out@) + l, end),
                    ),
                    Err(e) => read_items(self.s@, start) == Err::<(Seq<CfgTree>, int), CfgFault>(e),
                },
            decreases old(self).s@.len() + 2 - self.at(),
        {
            if self.eat(')') {
                assert(trees(out@) + Seq::<CfgTree>::empty() == trees(out@));
                return Ok(out);
            }
            let ghost was = trees(out@);
            match self.cfg() {
                Err(e) => {
                    return Err(e);
                },
                Ok(c) => {
                    out.push(c);
                },
            }
            let ghost c = tree(out@.last());
            assert(trees(out@) == was.push(c));
            self.eat(',');
            proof {
                match read_items(self.s@, self.at()) {
                    Ok((l, end)) => {
                        assert(was + (seq![c] + l) == trees(out@) + l);
                    },
                    Err(e) => {},
                }
            }
        }
    }

    fn cfg(&mut self) -> (r: Result<Cfg, CfgError>)
        requires
            old(self).ok(),
        ensures
            final(self).ok(),
            final(self).s == old(self).s,
            match read_cfg(old(self).s@, old(self).at()) {
                Ok((c, end)) => r.is_ok() && tree(r->Ok_0) == c && final(self).at() == end && old(self).at()
                    < end,
                Err(e) => r.is_err() && r->Err_0@ == e,
            },
        decreases old(self).s@.len() + 2 - old(self).at(), 0int,
    {
        let name: String = match self.ident() {
            Ok(name) => name,
            Err(e) => {
                return Err(e);
            },
        };
        if same(name.as_str(), "all") {
            return match self.list() {
                Ok(l) => Ok(Cfg::All(l)),
                Err(e) => Err(e),
            };
        }
        if same(name.as_str(), "any") {
            return match self.list() {
                Ok(l) => Ok(Cfg::Any(l)),
                Err(e) => Err(e),
            };
        }
        if same(name.as_str(), "not") {
            return match self.list() {
                Ok(l) => {
                    let mut l: Vec<Cfg> = l;
                    if l.len() != 1 {
                        return Err(CfgError::NotArity);
                    }
                    assert(trees(l@)[0] == tree(l@[0]));
                    Ok(Cfg::Not(Box::new(l.remove(0))))
                },
                Err(e) => Err(e),
            };
        }
        if self.eat('=') {
            match self.string() {
                Ok(v) => Ok(Cfg::KeyValue(name, v)),
                Err(e) => Err(e),
            }
        } else {
            Ok(Cfg::Name(name))
        }
    }
}

fn char_width(c: char) -> (r: u128)
    ensures
        r == width(c),
        1 <= r <= 4,
{
    let u: u32 = c as u32;
    if u < 0x80 {
        1
    } else if u < 0x800 {
        2
    } else if u < 0x10000 {
        3
    } else {
        4
    }
}

impl PlatformExpr {
    /// Reads a target triple, or a predicate in `cfg(...)`.
    pub fn parse(s: &str) -> (r: Result<PlatformExpr, CfgError>)
        ensures
            match read_platform(s@) {
                Ok(e) => r.is_ok() && r->Ok_0@ == e,
                Err(e) => r.is_err() && r->Err_0@ == e,
            },
    {
        let t: &str = trim(s);
        if let Some(r) = strip_prefix(t, "cfg(") {
            if let Some(inner) = strip_suffix(r, ")") {
                let mut p = Parser { s: chars_of(inner), i: 0, past: false };
                let c: Cfg = match p.cfg() {
                    Ok(c) => c,
                    Err(e) => {
                        return Err(e);
                    },
                };
                p.ws();
                if p.past || p.i != p.s.len() {
                    return Err(CfgError::Trailing(s.to_owned()));
                }
                return Ok(PlatformExpr::Cfg(c));
            }
        }
        Ok(PlatformExpr::Triple(t.to_owned()))
    }

    /// Whether the platform is one that the expression names.
    pub fn matches(&self, p: &PlatformCfg<'_>) -> (r: bool)
        ensures
            r == applies(self@, p.triple@, facts(p.cfg@)),
    {
        match self {
            PlatformExpr::Triple(t) => same(t.as_str(), p.triple),
            PlatformExpr::Cfg(c) => eval(c, p.cfg),
        }
    }
}

impl Cfg {
    #[verifier::loop_isolation(false)]
    fn dup(&self) -> (r: Cfg)
        ensures
            r@ == self@,
        decreases *self,
    {
        match self {
            Cfg::Name(n) => Cfg::Name(n.clone()),
            Cfg::KeyValue(k, v) => Cfg::KeyValue(k.clone(), v.clone()),
            Cfg::All(l) | Cfg::Any(l) => {
                let mut out: Vec<Cfg> = Vec::new();
                let mut i: usize = 0;
                while i < l.len()
                    invariant
                        *self == Cfg::All(*l) || *self == Cfg::Any(*l),
                        i <= l@.len(),
                        out@.len() == i,
                        forall|j: int| 0 <= j < i ==> tree(#[trigger] out@[j]) == tree(l@[j]),
                    decreases l@.len() - i,
                {
                    assert(decreases_to!(*self => l@[i as int]));
                    out.push(l[i].dup());
                    i += 1;
                }
                assert(trees(out@) =~= trees(l@));
                match self {
                    Cfg::All(_) => Cfg::All(out),
                    _ => Cfg::Any(out),
                }
            },
            Cfg::Not(b) => Cfg::Not(Box::new(b.dup())),
        }
    }
}

impl PlatformExpr {
    /// The same expression once more.
    pub fn dup(&self) -> (r: PlatformExpr)
        ensures
            r@ == self@,
    {
        match self {
            PlatformExpr::Triple(t) => PlatformExpr::Triple(t.clone()),
            PlatformExpr::Cfg(c) => PlatformExpr::Cfg(c.dup()),
        }
    }
}

/// `not` turns a predicate around, `all` needs each of its parts and `any` one of them; so nothing is missing from an empty
/// `all`, and nothing is in an empty `any`. A name is a flag of the platform, and a key with a value is one of its pairs. A
/// plain name of a platform is for that platform alone.
pub proof fn law_predicates_mean_what_they_say(
    l: Seq<CfgTree>,
    c: CfgTree,
    n: Seq<char>,
    v: Seq<char>,
    triple: Seq<char>,
    f: Seq<(Seq<char>, Option<Seq<char>>)>,
)
    ensures
        truth(CfgTree::Not(Box::new(c)), f) != truth(c, f),
        truth(CfgTree::All(l), f) ==> forall|i: int| 0 <= i < l.len() ==> truth(#[trigger] l[i], f),
        !truth(CfgTree::All(l), f) ==> exists|i: int| 0 <= i < l.len() && !truth(#[trigger] l[i], f),
        truth(CfgTree::Any(l), f) ==> exists|i: int| 0 <= i < l.len() && truth(#[trigger] l[i], f),
        !truth(CfgTree::Any(l), f) ==> forall|i: int| 0 <= i < l.len() ==> !truth(#[trigger] l[i], f),
        truth(CfgTree::All(Seq::empty()), f),
        !truth(CfgTree::Any(Seq::empty()), f),
        truth(CfgTree::Name(n), f) == exists|i: int| 0 <= i < f.len() && (#[trigger] f[i]).0 == n && f[i].1.is_none(),
        truth(CfgTree::KeyValue(n, v), f) == exists|i: int| 0 <= i < f.len() && (#[trigger] f[i]).0 == n && f[i].1 == Some(v),
        applies(PlatformTree::Triple(n), triple, f) == (n == triple),
        applies(PlatformTree::Cfg(c), triple, f) == truth(c, f),
{
    let not = CfgTree::Not(Box::new(c));
    assert(*(not->Not_0) == c);
    let all = CfgTree::All(l);
    assert(all->All_0 == l);
    let any = CfgTree::Any(l);
    assert(any->Any_0 == l);
    let e1 = CfgTree::All(Seq::empty());
    assert(e1->All_0.len() == 0);
    let e2 = CfgTree::Any(Seq::empty());
    assert(e2->Any_0.len() == 0);
    if truth(CfgTree::Name(n), f) {
        let i = choose|i: int| 0 <= i < f.len() && f[i] == (n, None::<Seq<char>>);
        assert(f[i].0 == n);
    }
    if exists|i: int| 0 <= i < f.len() && (#[trigger] f[i]).0 == n && f[i].1.is_none() {
        let i = choose|i: int| 0 <= i < f.len() && (#[trigger] f[i]).0 == n && f[i].1.is_none();
        assert(f[i] == (n, None::<Seq<char>>));
    }
    if truth(CfgTree::KeyValue(n, v), f) {
        let i = choose|i: int| 0 <= i < f.len() && f[i] == (n, Some(v));
        assert(f[i].0 == n);
    }
    if exists|i: int| 0 <= i < f.len() && (#[trigger] f[i]).0 == n && f[i].1 == Some(v) {
        let i = choose|i: int| 0 <= i < f.len() && (#[trigger] f[i]).0 == n && f[i].1 == Some(v);
        assert(f[i] == (n, Some(v)));
    }
}

} // verus!
