//! What is read from what build scripts and the compiler write.

use vstd::prelude::*;
use crate::build_script::LinkTargetView;
use crate::build_script::OutputView;
use crate::build_script::flags_from;
use crate::build_script::instruction;
use crate::build_script::link_target;
use crate::build_script::obeyed;
use crate::build_script::output_upto;
use crate::depinfo::env_dep;
use crate::depinfo::env_upto;
use crate::depinfo::paths_from;
use crate::depinfo::unescaped;
use crate::text::after_prefix;
use crate::text::first_at;
use crate::text::split_first;
use crate::text::starts;
use crate::text::words_of;

verus! {

/// Every list of the first output is the beginning of that of the second.
pub open spec fn grows_to(a: OutputView, b: OutputView) -> bool {
    &&& a.link_libs.len() <= b.link_libs.len() && b.link_libs.take(a.link_libs.len() as int) == a.link_libs
    &&& a.link_search.len() <= b.link_search.len() && b.link_search.take(a.link_search.len() as int) == a.link_search
    &&& a.link_args.len() <= b.link_args.len() && b.link_args.take(a.link_args.len() as int) == a.link_args
    &&& a.cfgs.len() <= b.cfgs.len() && b.cfgs.take(a.cfgs.len() as int) == a.cfgs
    &&& a.check_cfgs.len() <= b.check_cfgs.len() && b.check_cfgs.take(a.check_cfgs.len() as int) == a.check_cfgs
    &&& a.env.len() <= b.env.len() && b.env.take(a.env.len() as int) == a.env
    &&& a.metadata.len() <= b.metadata.len() && b.metadata.take(a.metadata.len() as int) == a.metadata
    &&& a.rerun_if_changed.len() <= b.rerun_if_changed.len() && b.rerun_if_changed.take(a.rerun_if_changed.len() as int) == a.rerun_if_changed
    &&& a.rerun_if_env_changed.len() <= b.rerun_if_env_changed.len() && b.rerun_if_env_changed.take(a.rerun_if_env_changed.len() as int) == a.rerun_if_env_changed
    &&& a.warnings.len() <= b.warnings.len() && b.warnings.take(a.warnings.len() as int) == a.warnings
    &&& a.errors.len() <= b.errors.len() && b.errors.take(a.errors.len() as int) == a.errors
}

proof fn lemma_grows_on(a: OutputView, b: OutputView, c: OutputView)
    requires
        grows_to(a, b),
        grows_to(b, c),
    ensures
        grows_to(a, c),
{
    assert(c.link_libs.take(a.link_libs.len() as int) =~= c.link_libs.take(b.link_libs.len() as int).take(a.link_libs.len() as int));
    assert(c.link_search.take(a.link_search.len() as int) =~= c.link_search.take(b.link_search.len() as int).take(a.link_search.len() as int));
    assert(c.link_args.take(a.link_args.len() as int) =~= c.link_args.take(b.link_args.len() as int).take(a.link_args.len() as int));
    assert(c.cfgs.take(a.cfgs.len() as int) =~= c.cfgs.take(b.cfgs.len() as int).take(a.cfgs.len() as int));
    assert(c.check_cfgs.take(a.check_cfgs.len() as int) =~= c.check_cfgs.take(b.check_cfgs.len() as int).take(a.check_cfgs.len() as int));
    assert(c.env.take(a.env.len() as int) =~= c.env.take(b.env.len() as int).take(a.env.len() as int));
    assert(c.metadata.take(a.metadata.len() as int) =~= c.metadata.take(b.metadata.len() as int).take(a.metadata.len() as int));
    assert(c.rerun_if_changed.take(a.rerun_if_changed.len() as int) =~= c.rerun_if_changed.take(b.rerun_if_changed.len() as int).take(a.rerun_if_changed.len() as int));
    assert(c.rerun_if_env_changed.take(a.rerun_if_env_changed.len() as int) =~= c.rerun_if_env_changed.take(b.rerun_if_env_changed.len() as int).take(a.rerun_if_env_changed.len() as int));
    assert(c.warnings.take(a.warnings.len() as int) =~= c.warnings.take(b.warnings.len() as int).take(a.warnings.len() as int));
    assert(c.errors.take(a.errors.len() as int) =~= c.errors.take(b.errors.len() as int).take(a.errors.len() as int));
}

proof fn lemma_grows_self(a: OutputView)
    ensures
        grows_to(a, a),
{
    assert(a.link_libs.take(a.link_libs.len() as int) =~= a.link_libs);
    assert(a.link_search.take(a.link_search.len() as int) =~= a.link_search);
    assert(a.link_args.take(a.link_args.len() as int) =~= a.link_args);
    assert(a.cfgs.take(a.cfgs.len() as int) =~= a.cfgs);
    assert(a.check_cfgs.take(a.check_cfgs.len() as int) =~= a.check_cfgs);
    assert(a.env.take(a.env.len() as int) =~= a.env);
    assert(a.metadata.take(a.metadata.len() as int) =~= a.metadata);
    assert(a.rerun_if_changed.take(a.rerun_if_changed.len() as int) =~= a.rerun_if_changed);
    assert(a.rerun_if_env_changed.take(a.rerun_if_env_changed.len() as int) =~= a.rerun_if_env_changed);
    assert(a.warnings.take(a.warnings.len() as int) =~= a.warnings);
    assert(a.errors.take(a.errors.len() as int) =~= a.errors);
}

proof fn lemma_pushed<A>(s: Seq<A>, x: A)
    ensures
        s.push(x).take(s.len() as int) == s,
        s.take(s.len() as int) == s,
{
    assert(s.push(x).take(s.len() as int) =~= s);
    assert(s.take(s.len() as int) =~= s);
}

proof fn lemma_flags_grow(ws: Seq<Seq<char>>, k: int, out: OutputView)
    ensures
        grows_to(out, flags_from(ws, k, out)),
    decreases ws.len() - k,
{
    lemma_grows_self(out);
    if 0 <= k < ws.len() {
        assert forall|v: Seq<char>| grows_to(out, #[trigger] with_lib(out, v)) by {
            lemma_pushed(out.link_libs, v);
        }
        assert forall|v: Seq<char>| grows_to(out, #[trigger] with_search(out, v)) by {
            lemma_pushed(out.link_search, v);
        }
        assert forall|v: Seq<char>, j: int| k < j <= ws.len() implies grows_to(out, #[trigger] flags_from(ws, j, with_lib(out, v))) by {
            lemma_flags_grow(ws, j, with_lib(out, v));
            lemma_grows_on(out, with_lib(out, v), flags_from(ws, j, with_lib(out, v)));
        }
        assert forall|v: Seq<char>, j: int| k < j <= ws.len() implies grows_to(out, #[trigger] flags_from(ws, j, with_search(out, v))) by {
            lemma_flags_grow(ws, j, with_search(out, v));
            lemma_grows_on(out, with_search(out, v), flags_from(ws, j, with_search(out, v)));
        }
        lemma_flags_grow(ws, k + 1, out);
        if k + 2 <= ws.len() {
            lemma_flags_grow(ws, k + 2, out);
        }
        if let Some(v) = after_prefix(ws[k], "-l"@) {
            assert(grows_to(out, flags_from(ws, k + 1, with_lib(out, v))));
        }
        if let Some(v) = after_prefix(ws[k], "-L"@) {
            assert(grows_to(out, flags_from(ws, k + 1, with_search(out, v))));
        }
        if k + 1 < ws.len() {
            assert(grows_to(out, flags_from(ws, k + 2, with_lib(out, ws[k + 1]))));
            assert(grows_to(out, flags_from(ws, k + 2, with_search(out, ws[k + 1]))));
        }
    }
}

spec fn with_lib(out: OutputView, v: Seq<char>) -> OutputView {
    OutputView { link_libs: out.link_libs.push(v), ..out }
}

spec fn with_search(out: OutputView, v: Seq<char>) -> OutputView {
    OutputView { link_search: out.link_search.push(v), ..out }
}

proof fn lemma_obeyed_grows(out: OutputView, new_syntax: bool, key: Seq<char>, value: Seq<char>)
    ensures
        grows_to(out, obeyed(out, new_syntax, key, value)),
{
    lemma_grows_self(out);
    lemma_flags_grow(words_of(value), 0, out);
    lemma_pushed(out.link_libs, value);
    lemma_pushed(out.link_search, value);
    lemma_pushed(out.cfgs, value);
    lemma_pushed(out.check_cfgs, value);
    lemma_pushed(out.warnings, value);
    lemma_pushed(out.errors, value);
    lemma_pushed(out.rerun_if_changed, value);
    lemma_pushed(out.rerun_if_env_changed, value);
    lemma_pushed(out.metadata, (key, value));
    lemma_pushed(out.warnings, "unknown build script instruction `cargo::"@ + key + "`"@);
    if link_target(key).is_some() {
        lemma_pushed(out.link_args, (link_target(key).unwrap(), value));
    }
    if let Some((a, b)) = split_first(value, '=') {
        lemma_pushed(out.link_args, (LinkTargetView::Bin(a), b));
        lemma_pushed(out.env, (a, b));
        lemma_pushed(out.metadata, (a, b));
    }
}

proof fn lemma_output_grows(ls: Seq<Seq<char>>, k: int, n: int)
    requires
        0 <= k <= n <= ls.len(),
    ensures
        grows_to(output_upto(ls, k), output_upto(ls, n)),
    decreases n,
{
    lemma_grows_self(output_upto(ls, k));
    if k < n {
        lemma_output_grows(ls, k, n - 1);
        if let Some((s, key, value)) = instruction(ls[n - 1]) {
            lemma_obeyed_grows(output_upto(ls, n - 1), s, key, value);
            lemma_grows_on(output_upto(ls, k), output_upto(ls, n - 1), output_upto(ls, n));
        }
    }
}

proof fn lemma_kept<A>(a: Seq<A>, b: Seq<A>, x: A)
    requires
        a.len() <= b.len(),
        b.take(a.len() as int) == a,
        a.contains(x),
    ensures
        b.contains(x),
{
    let i = choose|i: int| 0 <= i < a.len() && a[i] == x;
    assert(b.take(a.len() as int)[i] == b[i]);
}

proof fn lemma_last<A>(a: Seq<A>, x: A)
    ensures
        a.push(x).contains(x),
{
    assert(a.push(x)[a.len() as int] == x);
}

proof fn lemma_first(s: Seq<char>, c: char, i: int, k: int)
    requires
        0 <= k <= i < s.len(),
        s[i] == c,
        forall|j: int| k <= j < i ==> s[j] != c,
    ensures
        first_at(s, c, k) == i,
    decreases i - k,
{
    if k < i {
        lemma_first(s, c, i, k + 1);
    }
}

proof fn lemma_split(s: Seq<char>, a: Seq<char>, b: Seq<char>)
    requires
        s == a + "="@ + b,
        !a.contains('='),
    ensures
        split_first(s, '=') == Some((a, b)),
{
    reveal_strlit("=");
    let i = a.len() as int;
    assert forall|j: int| 0 <= j < i implies s[j] != '=' by {
        assert(s[j] == a[j]);
        assert(a.contains(a[j]));
    }
    lemma_first(s, '=', i, 0);
    assert(s.take(i) =~= a);
    assert(s.skip(i + 1) =~= b);
}

/// A line of a build script, in the new form or the old one.
pub open spec fn asks(line: Seq<char>, key: Seq<char>, value: Seq<char>) -> bool {
    line == "cargo::"@ + key + "="@ + value || (line == "cargo:"@ + key + "="@ + value && key.len() > 0 && key[0] != ':')
}

proof fn lemma_asks(line: Seq<char>, key: Seq<char>, value: Seq<char>)
    requires
        asks(line, key, value),
        !key.contains('='),
    ensures
        instruction(line) matches Some((_, k, v)) && k == key && v == value,
        line == "cargo::"@ + key + "="@ + value ==> instruction(line).unwrap().0,
        line != "cargo::"@ + key + "="@ + value ==> !instruction(line).unwrap().0,
{
    reveal_strlit("cargo::");
    reveal_strlit("cargo:");
    let rest = key + "="@ + value;
    if line == "cargo::"@ + key + "="@ + value {
        assert(line.take(7) =~= "cargo::"@);
        assert(line.skip(7) =~= rest);
    } else {
        assert(line.take(6) =~= "cargo:"@);
        assert(line.skip(6) =~= rest);
        assert(line[6] == key[0]);
        assert(!starts(line, "cargo::"@)) by {
            if starts(line, "cargo::"@) {
                assert(line.take(7)[6] == line[6]);
                assert("cargo::"@[6] == ':');
            }
        }
    }
    lemma_split(rest, key, value);
}

proof fn lemma_keys()
    ensures
        "rustc-link-lib"@ != "rustc-link-search"@,
        "rustc-link-lib"@ != "rustc-link-arg"@,
        "rustc-link-lib"@ != "rustc-link-arg-bins"@,
        "rustc-link-lib"@ != "rustc-link-arg-cdylib"@,
        "rustc-link-lib"@ != "rustc-cdylib-link-arg"@,
        "rustc-link-lib"@ != "rustc-link-arg-tests"@,
        "rustc-link-lib"@ != "rustc-link-arg-examples"@,
        "rustc-link-lib"@ != "rustc-link-arg-benches"@,
        "rustc-link-lib"@ != "rustc-link-arg-bin"@,
        "rustc-link-lib"@ != "rustc-cfg"@,
        "rustc-link-lib"@ != "rustc-check-cfg"@,
        "rustc-link-lib"@ != "rustc-env"@,
        "rustc-link-lib"@ != "rustc-flags"@,
        "rustc-link-lib"@ != "warning"@,
        "rustc-link-lib"@ != "error"@,
        "rustc-link-lib"@ != "rerun-if-changed"@,
        "rustc-link-lib"@ != "rerun-if-env-changed"@,
        "rustc-link-lib"@ != "metadata"@,
        "rustc-link-search"@ != "rustc-link-arg"@,
        "rustc-link-search"@ != "rustc-link-arg-bins"@,
        "rustc-link-search"@ != "rustc-link-arg-cdylib"@,
        "rustc-link-search"@ != "rustc-cdylib-link-arg"@,
        "rustc-link-search"@ != "rustc-link-arg-tests"@,
        "rustc-link-search"@ != "rustc-link-arg-examples"@,
        "rustc-link-search"@ != "rustc-link-arg-benches"@,
        "rustc-link-search"@ != "rustc-link-arg-bin"@,
        "rustc-link-search"@ != "rustc-cfg"@,
        "rustc-link-search"@ != "rustc-check-cfg"@,
        "rustc-link-search"@ != "rustc-env"@,
        "rustc-link-search"@ != "rustc-flags"@,
        "rustc-link-search"@ != "warning"@,
        "rustc-link-search"@ != "error"@,
        "rustc-link-search"@ != "rerun-if-changed"@,
        "rustc-link-search"@ != "rerun-if-env-changed"@,
        "rustc-link-search"@ != "metadata"@,
        "rustc-link-arg"@ != "rustc-link-arg-bins"@,
        "rustc-link-arg"@ != "rustc-link-arg-cdylib"@,
        "rustc-link-arg"@ != "rustc-cdylib-link-arg"@,
        "rustc-link-arg"@ != "rustc-link-arg-tests"@,
        "rustc-link-arg"@ != "rustc-link-arg-examples"@,
        "rustc-link-arg"@ != "rustc-link-arg-benches"@,
        "rustc-link-arg"@ != "rustc-link-arg-bin"@,
        "rustc-link-arg"@ != "rustc-cfg"@,
        "rustc-link-arg"@ != "rustc-check-cfg"@,
        "rustc-link-arg"@ != "rustc-env"@,
        "rustc-link-arg"@ != "rustc-flags"@,
        "rustc-link-arg"@ != "warning"@,
        "rustc-link-arg"@ != "error"@,
        "rustc-link-arg"@ != "rerun-if-changed"@,
        "rustc-link-arg"@ != "rerun-if-env-changed"@,
        "rustc-link-arg"@ != "metadata"@,
        "rustc-link-arg-bins"@ != "rustc-link-arg-cdylib"@,
        "rustc-link-arg-bins"@ != "rustc-cdylib-link-arg"@,
        "rustc-link-arg-bins"@ != "rustc-link-arg-tests"@,
        "rustc-link-arg-bins"@ != "rustc-link-arg-examples"@,
        "rustc-link-arg-bins"@ != "rustc-link-arg-benches"@,
        "rustc-link-arg-bins"@ != "rustc-link-arg-bin"@,
        "rustc-link-arg-bins"@ != "rustc-cfg"@,
        "rustc-link-arg-bins"@ != "rustc-check-cfg"@,
        "rustc-link-arg-bins"@ != "rustc-env"@,
        "rustc-link-arg-bins"@ != "rustc-flags"@,
        "rustc-link-arg-bins"@ != "warning"@,
        "rustc-link-arg-bins"@ != "error"@,
        "rustc-link-arg-bins"@ != "rerun-if-changed"@,
        "rustc-link-arg-bins"@ != "rerun-if-env-changed"@,
        "rustc-link-arg-bins"@ != "metadata"@,
        "rustc-link-arg-cdylib"@ != "rustc-cdylib-link-arg"@,
        "rustc-link-arg-cdylib"@ != "rustc-link-arg-tests"@,
        "rustc-link-arg-cdylib"@ != "rustc-link-arg-examples"@,
        "rustc-link-arg-cdylib"@ != "rustc-link-arg-benches"@,
        "rustc-link-arg-cdylib"@ != "rustc-link-arg-bin"@,
        "rustc-link-arg-cdylib"@ != "rustc-cfg"@,
        "rustc-link-arg-cdylib"@ != "rustc-check-cfg"@,
        "rustc-link-arg-cdylib"@ != "rustc-env"@,
        "rustc-link-arg-cdylib"@ != "rustc-flags"@,
        "rustc-link-arg-cdylib"@ != "warning"@,
        "rustc-link-arg-cdylib"@ != "error"@,
        "rustc-link-arg-cdylib"@ != "rerun-if-changed"@,
        "rustc-link-arg-cdylib"@ != "rerun-if-env-changed"@,
        "rustc-link-arg-cdylib"@ != "metadata"@,
        "rustc-cdylib-link-arg"@ != "rustc-link-arg-tests"@,
        "rustc-cdylib-link-arg"@ != "rustc-link-arg-examples"@,
        "rustc-cdylib-link-arg"@ != "rustc-link-arg-benches"@,
        "rustc-cdylib-link-arg"@ != "rustc-link-arg-bin"@,
        "rustc-cdylib-link-arg"@ != "rustc-cfg"@,
        "rustc-cdylib-link-arg"@ != "rustc-check-cfg"@,
        "rustc-cdylib-link-arg"@ != "rustc-env"@,
        "rustc-cdylib-link-arg"@ != "rustc-flags"@,
        "rustc-cdylib-link-arg"@ != "warning"@,
        "rustc-cdylib-link-arg"@ != "error"@,
        "rustc-cdylib-link-arg"@ != "rerun-if-changed"@,
        "rustc-cdylib-link-arg"@ != "rerun-if-env-changed"@,
        "rustc-cdylib-link-arg"@ != "metadata"@,
        "rustc-link-arg-tests"@ != "rustc-link-arg-examples"@,
        "rustc-link-arg-tests"@ != "rustc-link-arg-benches"@,
        "rustc-link-arg-tests"@ != "rustc-link-arg-bin"@,
        "rustc-link-arg-tests"@ != "rustc-cfg"@,
        "rustc-link-arg-tests"@ != "rustc-check-cfg"@,
        "rustc-link-arg-tests"@ != "rustc-env"@,
        "rustc-link-arg-tests"@ != "rustc-flags"@,
        "rustc-link-arg-tests"@ != "warning"@,
        "rustc-link-arg-tests"@ != "error"@,
        "rustc-link-arg-tests"@ != "rerun-if-changed"@,
        "rustc-link-arg-tests"@ != "rerun-if-env-changed"@,
        "rustc-link-arg-tests"@ != "metadata"@,
        "rustc-link-arg-examples"@ != "rustc-link-arg-benches"@,
        "rustc-link-arg-examples"@ != "rustc-link-arg-bin"@,
        "rustc-link-arg-examples"@ != "rustc-cfg"@,
        "rustc-link-arg-examples"@ != "rustc-check-cfg"@,
        "rustc-link-arg-examples"@ != "rustc-env"@,
        "rustc-link-arg-examples"@ != "rustc-flags"@,
        "rustc-link-arg-examples"@ != "warning"@,
        "rustc-link-arg-examples"@ != "error"@,
        "rustc-link-arg-examples"@ != "rerun-if-changed"@,
        "rustc-link-arg-examples"@ != "rerun-if-env-changed"@,
        "rustc-link-arg-examples"@ != "metadata"@,
        "rustc-link-arg-benches"@ != "rustc-link-arg-bin"@,
        "rustc-link-arg-benches"@ != "rustc-cfg"@,
        "rustc-link-arg-benches"@ != "rustc-check-cfg"@,
        "rustc-link-arg-benches"@ != "rustc-env"@,
        "rustc-link-arg-benches"@ != "rustc-flags"@,
        "rustc-link-arg-benches"@ != "warning"@,
        "rustc-link-arg-benches"@ != "error"@,
        "rustc-link-arg-benches"@ != "rerun-if-changed"@,
        "rustc-link-arg-benches"@ != "rerun-if-env-changed"@,
        "rustc-link-arg-benches"@ != "metadata"@,
        "rustc-link-arg-bin"@ != "rustc-cfg"@,
        "rustc-link-arg-bin"@ != "rustc-check-cfg"@,
        "rustc-link-arg-bin"@ != "rustc-env"@,
        "rustc-link-arg-bin"@ != "rustc-flags"@,
        "rustc-link-arg-bin"@ != "warning"@,
        "rustc-link-arg-bin"@ != "error"@,
        "rustc-link-arg-bin"@ != "rerun-if-changed"@,
        "rustc-link-arg-bin"@ != "rerun-if-env-changed"@,
        "rustc-link-arg-bin"@ != "metadata"@,
        "rustc-cfg"@ != "rustc-check-cfg"@,
        "rustc-cfg"@ != "rustc-env"@,
        "rustc-cfg"@ != "rustc-flags"@,
        "rustc-cfg"@ != "warning"@,
        "rustc-cfg"@ != "error"@,
        "rustc-cfg"@ != "rerun-if-changed"@,
        "rustc-cfg"@ != "rerun-if-env-changed"@,
        "rustc-cfg"@ != "metadata"@,
        "rustc-check-cfg"@ != "rustc-env"@,
        "rustc-check-cfg"@ != "rustc-flags"@,
        "rustc-check-cfg"@ != "warning"@,
        "rustc-check-cfg"@ != "error"@,
        "rustc-check-cfg"@ != "rerun-if-changed"@,
        "rustc-check-cfg"@ != "rerun-if-env-changed"@,
        "rustc-check-cfg"@ != "metadata"@,
        "rustc-env"@ != "rustc-flags"@,
        "rustc-env"@ != "warning"@,
        "rustc-env"@ != "error"@,
        "rustc-env"@ != "rerun-if-changed"@,
        "rustc-env"@ != "rerun-if-env-changed"@,
        "rustc-env"@ != "metadata"@,
        "rustc-flags"@ != "warning"@,
        "rustc-flags"@ != "error"@,
        "rustc-flags"@ != "rerun-if-changed"@,
        "rustc-flags"@ != "rerun-if-env-changed"@,
        "rustc-flags"@ != "metadata"@,
        "warning"@ != "error"@,
        "warning"@ != "rerun-if-changed"@,
        "warning"@ != "rerun-if-env-changed"@,
        "warning"@ != "metadata"@,
        "error"@ != "rerun-if-changed"@,
        "error"@ != "rerun-if-env-changed"@,
        "error"@ != "metadata"@,
        "rerun-if-changed"@ != "rerun-if-env-changed"@,
        "rerun-if-changed"@ != "metadata"@,
        "rerun-if-env-changed"@ != "metadata"@,
{
    reveal_strlit("rustc-link-lib");
    reveal_strlit("rustc-link-search");
    reveal_strlit("rustc-link-arg");
    reveal_strlit("rustc-link-arg-bins");
    reveal_strlit("rustc-link-arg-cdylib");
    reveal_strlit("rustc-cdylib-link-arg");
    reveal_strlit("rustc-link-arg-tests");
    reveal_strlit("rustc-link-arg-examples");
    reveal_strlit("rustc-link-arg-benches");
    reveal_strlit("rustc-link-arg-bin");
    reveal_strlit("rustc-cfg");
    reveal_strlit("rustc-check-cfg");
    reveal_strlit("rustc-env");
    reveal_strlit("rustc-flags");
    reveal_strlit("warning");
    reveal_strlit("error");
    reveal_strlit("rerun-if-changed");
    reveal_strlit("rerun-if-env-changed");
    reveal_strlit("metadata");
    assert("rustc-link-lib"@.len() == 14);
    assert("rustc-link-search"@.len() == 17);
    assert("rustc-link-arg"@.len() == 14);
    assert("rustc-link-arg-bins"@.len() == 19);
    assert("rustc-link-arg-cdylib"@.len() == 21);
    assert("rustc-cdylib-link-arg"@.len() == 21);
    assert("rustc-link-arg-tests"@.len() == 20);
    assert("rustc-link-arg-examples"@.len() == 23);
    assert("rustc-link-arg-benches"@.len() == 22);
    assert("rustc-link-arg-bin"@.len() == 18);
    assert("rustc-cfg"@.len() == 9);
    assert("rustc-check-cfg"@.len() == 15);
    assert("rustc-env"@.len() == 9);
    assert("rustc-flags"@.len() == 11);
    assert("warning"@.len() == 7);
    assert("error"@.len() == 5);
    assert("rerun-if-changed"@.len() == 16);
    assert("rerun-if-env-changed"@.len() == 20);
    assert("metadata"@.len() == 8);
    assert("rustc-link-lib"@[11] != "rustc-link-arg"@[11]);
    assert("rustc-link-arg-cdylib"@[6] != "rustc-cdylib-link-arg"@[6]);
    assert("rustc-link-arg-tests"@[1] != "rerun-if-env-changed"@[1]);
    assert("rustc-cfg"@[6] != "rustc-env"@[6]);
}

proof fn lemma_plain_keys()
    ensures
        !"rustc-link-lib"@.contains('='),
        !"rustc-link-search"@.contains('='),
        !"rustc-link-arg"@.contains('='),
        !"rustc-link-arg-bins"@.contains('='),
        !"rustc-link-arg-cdylib"@.contains('='),
        !"rustc-cdylib-link-arg"@.contains('='),
        !"rustc-link-arg-tests"@.contains('='),
        !"rustc-link-arg-examples"@.contains('='),
        !"rustc-link-arg-benches"@.contains('='),
        !"rustc-link-arg-bin"@.contains('='),
        !"rustc-cfg"@.contains('='),
        !"rustc-check-cfg"@.contains('='),
        !"rustc-env"@.contains('='),
        !"rustc-flags"@.contains('='),
        !"warning"@.contains('='),
        !"error"@.contains('='),
        !"rerun-if-changed"@.contains('='),
        !"rerun-if-env-changed"@.contains('='),
        !"metadata"@.contains('='),
{
    reveal_strlit("rustc-link-lib");
    reveal_strlit("rustc-link-search");
    reveal_strlit("rustc-link-arg");
    reveal_strlit("rustc-link-arg-bins");
    reveal_strlit("rustc-link-arg-cdylib");
    reveal_strlit("rustc-cdylib-link-arg");
    reveal_strlit("rustc-link-arg-tests");
    reveal_strlit("rustc-link-arg-examples");
    reveal_strlit("rustc-link-arg-benches");
    reveal_strlit("rustc-link-arg-bin");
    reveal_strlit("rustc-cfg");
    reveal_strlit("rustc-check-cfg");
    reveal_strlit("rustc-env");
    reveal_strlit("rustc-flags");
    reveal_strlit("warning");
    reveal_strlit("error");
    reveal_strlit("rerun-if-changed");
    reveal_strlit("rerun-if-env-changed");
    reveal_strlit("metadata");
}

/// What a build script prints is done: each line that asks for something adds it to its list, and no later line takes it away.
pub proof fn law_lines_of_build_scripts_count(ls: Seq<Seq<char>>, i: int, v: Seq<char>)
    requires
        0 <= i < ls.len(),
    ensures
        ({
            let out = output_upto(ls, ls.len() as int);
            &&& asks(ls[i], "rustc-link-lib"@, v) ==> out.link_libs.contains(v)
            &&& asks(ls[i], "rustc-link-search"@, v) ==> out.link_search.contains(v)
            &&& asks(ls[i], "rustc-link-arg"@, v) ==> out.link_args.contains((LinkTargetView::All, v))
            &&& asks(ls[i], "rustc-link-arg-bins"@, v) ==> out.link_args.contains((LinkTargetView::Bins, v))
            &&& asks(ls[i], "rustc-link-arg-cdylib"@, v) ==> out.link_args.contains((LinkTargetView::Cdylib, v))
            &&& asks(ls[i], "rustc-link-arg-tests"@, v) ==> out.link_args.contains((LinkTargetView::Tests, v))
            &&& asks(ls[i], "rustc-link-arg-examples"@, v) ==> out.link_args.contains((LinkTargetView::Examples, v))
            &&& asks(ls[i], "rustc-link-arg-benches"@, v) ==> out.link_args.contains((LinkTargetView::Benches, v))
            &&& asks(ls[i], "rustc-cfg"@, v) ==> out.cfgs.contains(v)
            &&& asks(ls[i], "rustc-check-cfg"@, v) ==> out.check_cfgs.contains(v)
            &&& asks(ls[i], "warning"@, v) ==> out.warnings.contains(v)
            &&& asks(ls[i], "error"@, v) ==> out.errors.contains(v)
            &&& asks(ls[i], "rerun-if-changed"@, v) ==> out.rerun_if_changed.contains(v)
            &&& asks(ls[i], "rerun-if-env-changed"@, v) ==> out.rerun_if_env_changed.contains(v)
        }),
{
    let n = ls.len() as int;
    let was = output_upto(ls, i);
    let now = output_upto(ls, i + 1);
    let out = output_upto(ls, n);
    lemma_keys();
    lemma_plain_keys();
    lemma_output_grows(ls, i + 1, n);
    if asks(ls[i], "rustc-link-lib"@, v) {
        lemma_asks(ls[i], "rustc-link-lib"@, v);
        lemma_last(was.link_libs, v);
        assert(now.link_libs == was.link_libs.push(v));
        lemma_kept(now.link_libs, out.link_libs, v);
    }
    if asks(ls[i], "rustc-link-search"@, v) {
        lemma_asks(ls[i], "rustc-link-search"@, v);
        lemma_last(was.link_search, v);
        assert(now.link_search == was.link_search.push(v));
        lemma_kept(now.link_search, out.link_search, v);
    }
    if asks(ls[i], "rustc-link-arg"@, v) {
        lemma_asks(ls[i], "rustc-link-arg"@, v);
        lemma_last(was.link_args, (LinkTargetView::All, v));
        assert(now.link_args == was.link_args.push((LinkTargetView::All, v)));
        lemma_kept(now.link_args, out.link_args, (LinkTargetView::All, v));
    }
    if asks(ls[i], "rustc-link-arg-bins"@, v) {
        lemma_asks(ls[i], "rustc-link-arg-bins"@, v);
        lemma_last(was.link_args, (LinkTargetView::Bins, v));
        assert(now.link_args == was.link_args.push((LinkTargetView::Bins, v)));
        lemma_kept(now.link_args, out.link_args, (LinkTargetView::Bins, v));
    }
    if asks(ls[i], "rustc-link-arg-cdylib"@, v) {
        lemma_asks(ls[i], "rustc-link-arg-cdylib"@, v);
        lemma_last(was.link_args, (LinkTargetView::Cdylib, v));
        assert(now.link_args == was.link_args.push((LinkTargetView::Cdylib, v)));
        lemma_kept(now.link_args, out.link_args, (LinkTargetView::Cdylib, v));
    }
    if asks(ls[i], "rustc-link-arg-tests"@, v) {
        lemma_asks(ls[i], "rustc-link-arg-tests"@, v);
        lemma_last(was.link_args, (LinkTargetView::Tests, v));
        assert(now.link_args == was.link_args.push((LinkTargetView::Tests, v)));
        lemma_kept(now.link_args, out.link_args, (LinkTargetView::Tests, v));
    }
    if asks(ls[i], "rustc-link-arg-examples"@, v) {
        lemma_asks(ls[i], "rustc-link-arg-examples"@, v);
        lemma_last(was.link_args, (LinkTargetView::Examples, v));
        assert(now.link_args == was.link_args.push((LinkTargetView::Examples, v)));
        lemma_kept(now.link_args, out.link_args, (LinkTargetView::Examples, v));
    }
    if asks(ls[i], "rustc-link-arg-benches"@, v) {
        lemma_asks(ls[i], "rustc-link-arg-benches"@, v);
        lemma_last(was.link_args, (LinkTargetView::Benches, v));
        assert(now.link_args == was.link_args.push((LinkTargetView::Benches, v)));
        lemma_kept(now.link_args, out.link_args, (LinkTargetView::Benches, v));
    }
    if asks(ls[i], "rustc-cfg"@, v) {
        lemma_asks(ls[i], "rustc-cfg"@, v);
        lemma_last(was.cfgs, v);
        assert(now.cfgs == was.cfgs.push(v));
        lemma_kept(now.cfgs, out.cfgs, v);
    }
    if asks(ls[i], "rustc-check-cfg"@, v) {
        lemma_asks(ls[i], "rustc-check-cfg"@, v);
        lemma_last(was.check_cfgs, v);
        assert(now.check_cfgs == was.check_cfgs.push(v));
        lemma_kept(now.check_cfgs, out.check_cfgs, v);
    }
    if asks(ls[i], "warning"@, v) {
        lemma_asks(ls[i], "warning"@, v);
        lemma_last(was.warnings, v);
        assert(now.warnings == was.warnings.push(v));
        lemma_kept(now.warnings, out.warnings, v);
    }
    if asks(ls[i], "error"@, v) {
        lemma_asks(ls[i], "error"@, v);
        lemma_last(was.errors, v);
        assert(now.errors == was.errors.push(v));
        lemma_kept(now.errors, out.errors, v);
    }
    if asks(ls[i], "rerun-if-changed"@, v) {
        lemma_asks(ls[i], "rerun-if-changed"@, v);
        lemma_last(was.rerun_if_changed, v);
        assert(now.rerun_if_changed == was.rerun_if_changed.push(v));
        lemma_kept(now.rerun_if_changed, out.rerun_if_changed, v);
    }
    if asks(ls[i], "rerun-if-env-changed"@, v) {
        lemma_asks(ls[i], "rerun-if-env-changed"@, v);
        lemma_last(was.rerun_if_env_changed, v);
        assert(now.rerun_if_env_changed == was.rerun_if_env_changed.push(v));
        lemma_kept(now.rerun_if_env_changed, out.rerun_if_env_changed, v);
    }
}

/// Variables that a build script sets, and arguments for one of its binaries, are told by their names.
pub proof fn law_named_values_of_build_scripts_count(ls: Seq<Seq<char>>, i: int, name: Seq<char>, v: Seq<char>)
    requires
        0 <= i < ls.len(),
        !name.contains('='),
    ensures
        asks(ls[i], "rustc-env"@, name + "="@ + v) ==> output_upto(ls, ls.len() as int).env.contains((name, v)),
        asks(ls[i], "rustc-link-arg-bin"@, name + "="@ + v) ==> output_upto(ls, ls.len() as int).link_args.contains(
            (LinkTargetView::Bin(name), v),
        ),
        ls[i] == "cargo::metadata="@ + name + "="@ + v ==> output_upto(ls, ls.len() as int).metadata.contains((name, v)),
{
    let n = ls.len() as int;
    let was = output_upto(ls, i);
    let now = output_upto(ls, i + 1);
    let out = output_upto(ls, n);
    let value = name + "="@ + v;
    lemma_keys();
    lemma_plain_keys();
    lemma_output_grows(ls, i + 1, n);
    lemma_split(value, name, v);
    if asks(ls[i], "rustc-env"@, value) {
        lemma_asks(ls[i], "rustc-env"@, value);
        lemma_last(was.env, (name, v));
        assert(now.env == was.env.push((name, v)));
        lemma_kept(now.env, out.env, (name, v));
    }
    if asks(ls[i], "rustc-link-arg-bin"@, value) {
        lemma_asks(ls[i], "rustc-link-arg-bin"@, value);
        lemma_last(was.link_args, (LinkTargetView::Bin(name), v));
        assert(now.link_args == was.link_args.push((LinkTargetView::Bin(name), v)));
        lemma_kept(now.link_args, out.link_args, (LinkTargetView::Bin(name), v));
    }
    if ls[i] == "cargo::metadata="@ + name + "="@ + v {
        reveal_strlit("cargo::metadata=");
        reveal_strlit("cargo::");
        reveal_strlit("metadata");
        reveal_strlit("=");
        assert(ls[i] =~= "cargo::"@ + "metadata"@ + "="@ + value);
        lemma_asks(ls[i], "metadata"@, value);
        lemma_last(was.metadata, (name, v));
        assert(now.metadata == was.metadata.push((name, v)));
        lemma_kept(now.metadata, out.metadata, (name, v));
    }
}

// ---------------------------------------------------------------------------
// What the compiler read.

/// Each path behind a space.
pub open spec fn row_of(ps: Seq<Seq<char>>, n: int) -> Seq<char>
    decreases n,
{
    if n <= 0 || n > ps.len() {
        Seq::empty()
    } else {
        row_of(ps, n - 1) + " "@ + ps[n - 1]
    }
}

/// A path that needs no escapes.
pub open spec fn is_plain_path(p: Seq<char>) -> bool {
    p.len() > 0 && !p.contains(' ') && !p.contains('\\')
}

proof fn lemma_row_read(ps: Seq<Seq<char>>, n: int, tail: Seq<char>)
    requires
        0 <= n <= ps.len(),
        forall|k: int| 0 <= k < ps.len() ==> is_plain_path(#[trigger] ps[k]),
    ensures
        n > 0 ==> paths_from(row_of(ps, n) + tail, 0, Seq::empty(), Seq::empty()) == paths_from(
            row_of(ps, n) + tail,
            row_of(ps, n).len() as int,
            ps.take(n - 1),
            ps[n - 1],
        ),
    decreases n,
{
    reveal_strlit(" ");
    if n > 0 {
        let p = ps[n - 1];
        let pre = row_of(ps, n - 1);
        let s = row_of(ps, n) + tail;
        assert(s =~= pre + (" "@ + p + tail));
        let at = pre.len() as int;
        assert(s[at] == ' ');
        if n > 1 {
            lemma_row_read(ps, n - 1, " "@ + p + tail);
            assert(ps.take(n - 2).push(ps[n - 2]) =~= ps.take(n - 1));
            assert(is_plain_path(ps[n - 2]));
        } else {
            assert(pre.len() == 0);
            assert(ps.take(0) =~= Seq::<Seq<char>>::empty());
        }
        let e = Seq::<char>::empty();
        assert(paths_from(s, 0, Seq::empty(), Seq::empty()) == paths_from(s, at + 1, ps.take(n - 1), e));
        assert(is_plain_path(p));
        lemma_chars(s, at + 1, p, p.len() as int, ps.take(n - 1));
        assert(p.take(p.len() as int) =~= p);
    }
}

proof fn lemma_chars(s: Seq<char>, at: int, p: Seq<char>, k: int, out: Seq<Seq<char>>)
    requires
        0 <= at,
        0 <= k <= p.len(),
        at + p.len() <= s.len(),
        forall|i: int| 0 <= i < p.len() ==> s[at + i] == #[trigger] p[i],
        is_plain_path(p),
    ensures
        paths_from(s, at, out, Seq::empty()) == paths_from(s, at + k, out, p.take(k)),
    decreases k,
{
    if k > 0 {
        lemma_chars(s, at, p, k - 1, out);
        assert(p.contains(p[k - 1]));
        assert(s[at + (k - 1)] == p[k - 1]);
        assert(p.take(k - 1).push(p[k - 1]) =~= p.take(k));
    } else {
        assert(p.take(0) =~= Seq::<char>::empty());
    }
}

/// The files that the compiler lists are those that were read, each of them and no others.
pub proof fn law_listed_files_are_read(ps: Seq<Seq<char>>)
    requires
        forall|k: int| 0 <= k < ps.len() ==> is_plain_path(#[trigger] ps[k]),
    ensures
        paths_from(row_of(ps, ps.len() as int), 0, Seq::empty(), Seq::empty()) == ps,
{
    let n = ps.len() as int;
    let row = row_of(ps, n);
    lemma_row_read(ps, n, Seq::empty());
    assert(row + Seq::<char>::empty() =~= row);
    if n > 0 {
        assert(is_plain_path(ps[n - 1]));
        assert(ps.take(n - 1).push(ps[n - 1]) =~= ps);
    } else {
        assert(ps =~= Seq::<Seq<char>>::empty());
    }
}

/// The variables that the compiler looked up are told by their names: with the value that it found, where there was one.
pub proof fn law_variables_that_were_looked_up_are_read(ls: Seq<Seq<char>>, i: int, name: Seq<char>, v: Seq<char>)
    requires
        0 <= i < ls.len(),
        !name.contains('='),
        !v.contains('\\'),
    ensures
        ls[i] == "# env-dep:"@ + name + "="@ + v ==> env_upto(ls, ls.len() as int).contains((name, Some(v))),
        ls[i] == "# env-dep:"@ + name ==> env_upto(ls, ls.len() as int).contains((name, None)),
{
    reveal_strlit("# env-dep:");
    let n = ls.len() as int;
    if ls[i] == "# env-dep:"@ + name + "="@ + v {
        let rest = name + "="@ + v;
        assert(ls[i].take(10) =~= "# env-dep:"@);
        assert(ls[i].skip(10) =~= rest);
        lemma_split(rest, name, v);
        lemma_no_escapes(v, 0);
        assert(v.skip(0) =~= v);
        lemma_env_has(ls, n, i);
    }
    if ls[i] == "# env-dep:"@ + name {
        assert(ls[i].take(10) =~= "# env-dep:"@);
        assert(ls[i].skip(10) =~= name);
        lemma_none(name, 0);
        lemma_env_has(ls, n, i);
    }
}

proof fn lemma_none(s: Seq<char>, k: int)
    requires
        0 <= k <= s.len(),
        !s.contains('='),
    ensures
        first_at(s, '=', k) == s.len(),
    decreases s.len() - k,
{
    if k < s.len() {
        assert(s.contains(s[k]));
        lemma_none(s, k + 1);
    }
}

proof fn lemma_no_escapes(v: Seq<char>, k: int)
    requires
        0 <= k <= v.len(),
        !v.contains('\\'),
    ensures
        unescaped(v, k) == v.skip(k),
    decreases v.len() - k,
{
    if k < v.len() {
        lemma_no_escapes(v, k + 1);
        assert(v.contains(v[k]));
        assert(seq![v[k]] + v.skip(k + 1) =~= v.skip(k));
    } else {
        assert(v.skip(k) =~= Seq::<char>::empty());
    }
}

proof fn lemma_env_has(ls: Seq<Seq<char>>, n: int, i: int)
    requires
        0 <= i < n <= ls.len(),
        env_dep(ls[i]).is_some(),
    ensures
        env_upto(ls, n).contains(env_dep(ls[i]).unwrap()),
    decreases n,
{
    let x = env_dep(ls[i]).unwrap();
    if i == n - 1 {
        lemma_last(env_upto(ls, n - 1), x);
    } else {
        lemma_env_has(ls, n - 1, i);
        let rest = env_upto(ls, n - 1);
        let j = choose|j: int| 0 <= j < rest.len() && rest[j] == x;
        assert(env_upto(ls, n)[j] == x);
    }
}

} // verus!
