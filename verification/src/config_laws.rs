//! Which setting counts where several say something.

use vstd::prelude::*;
use crate::config::ConfigFault;
use crate::config::Facts;
use crate::config::FileView;
use crate::config::Stack;
use crate::config::Vars;
use crate::config::dig;
use crate::config::dotted;
use crate::config::file_from;
use crate::config::flag_setting;
use crate::config::list_of;
use crate::config::list_setting;
use crate::config::lists_down;
use crate::config::rustflags_of;
use crate::config::setting;
use crate::config::settings_of;
use crate::config::target_var;
use crate::path::under;
use crate::text::words_of;
use crate::value::TomlTree;

verus! {

proof fn lemma_nearest(st: Stack, path: Seq<Seq<char>>, i: int)
    requires
        0 <= i <= st.len(),
    ensures
        match file_from(st, path, i) {
            Some(k) => i <= k < st.len() && dig(st[k].table, path).is_some() && forall|j: int|
                i <= j < k ==> dig((#[trigger] st[j]).table, path).is_none(),
            None => forall|j: int| i <= j < st.len() ==> dig((#[trigger] st[j]).table, path).is_none(),
        },
    decreases st.len() - i,
{
    if i < st.len() {
        lemma_nearest(st, path, i + 1);
    }
}

/// Of the files of the configuration the nearest that has a setting is right, and its directory goes with it.
pub proof fn law_the_nearest_file_is_right(st: Stack, path: Seq<Seq<char>>, k: int)
    requires
        0 <= k < st.len(),
        forall|j: int| 0 <= j < k ==> dig((#[trigger] st[j]).table, path).is_none(),
    ensures
        dig(st[k].table, path) matches Some(v) ==> setting(st, path) == Some((v, st[k].base)),
        (forall|j: int| 0 <= j < st.len() ==> dig((#[trigger] st[j]).table, path).is_none()) ==> setting(st, path).is_none(),
{
    lemma_nearest(st, path, 0);
}

/// A variable that is not empty beats every file: `true` and `1` turn a flag on, and everything else off.
pub proof fn law_variables_beat_files(st: Stack, env: Vars, path: Seq<Seq<char>>, name: Seq<char>)
    ensures
        env.contains_key(name) && env[name]@.len() > 0 ==> flag_setting(st, env, path, name) == Ok::<Option<bool>, ConfigFault>(
            Some(env[name]@ == "true"@ || env[name]@ == "1"@),
        ),
        !(env.contains_key(name) && env[name]@.len() > 0) ==> (setting(st, path) matches Some((TomlTree::Bool(b), _)) ==> flag_setting(
            st,
            env,
            path,
            name,
        ) == Ok::<Option<bool>, ConfigFault>(Some(b))),
        !(env.contains_key(name) && env[name]@.len() > 0) && setting(st, path).is_none() ==> flag_setting(st, env, path, name)
            == Ok::<Option<bool>, ConfigFault>(None),
{
}

/// The flags for the compiler come from one place: where `CARGO_ENCODED_RUSTFLAGS` is set, nothing else counts, and where
/// `RUSTFLAGS` is, no file does.
pub proof fn law_flags_come_from_one_place(st: Stack, other: Stack, env: Vars, triple: Seq<char>, p: Facts, q: Facts)
    ensures
        env.contains_key("CARGO_ENCODED_RUSTFLAGS"@) ==> rustflags_of(st, env, triple, p) == rustflags_of(other, env, triple, q)
            && rustflags_of(st, env, triple, p).is_ok(),
        env.contains_key("CARGO_ENCODED_RUSTFLAGS"@) && env["CARGO_ENCODED_RUSTFLAGS"@]@.len() == 0 ==> rustflags_of(st, env, triple, p)
            == Ok::<Seq<Seq<char>>, ConfigFault>(Seq::empty()),
        !env.contains_key("CARGO_ENCODED_RUSTFLAGS"@) && env.contains_key("RUSTFLAGS"@) ==> rustflags_of(st, env, triple, p) == Ok::<
            Seq<Seq<char>>,
            ConfigFault,
        >(words_of(env["RUSTFLAGS"@]@)),
        !env.contains_key("CARGO_ENCODED_RUSTFLAGS"@) && !env.contains_key("RUSTFLAGS"@) && st.len() == 0 && p.is_none()
            && !env.contains_key(target_var(triple, "RUSTFLAGS"@)) && !env.contains_key("CARGO_BUILD_RUSTFLAGS"@)
            ==> rustflags_of(st, env, triple, p) == Ok::<Seq<Seq<char>>, ConfigFault>(Seq::empty()),
{
    assert(lists_down(Seq::empty(), seq!["target"@, triple, "rustflags"@], 0) == Ok::<
        Option<Seq<Seq<char>>>,
        ConfigFault,
    >(None));
    assert(st.len() == 0 ==> st =~= Seq::empty());
}

/// A list is made of all that is said: what the farther file says comes first, then what the nearer one does, and what a
/// variable says last.
pub proof fn law_lists_add_up(st: Stack, env: Vars, path: Seq<Seq<char>>, name: Seq<char>, near: Seq<Seq<char>>, far: Seq<Seq<char>>)
    requires
        st.len() == 2,
        dig(st[0].table, path).is_some(),
        dig(st[1].table, path).is_some(),
        list_of(dig(st[0].table, path).unwrap(), dotted(path)) == Ok::<Seq<Seq<char>>, ConfigFault>(near),
        list_of(dig(st[1].table, path).unwrap(), dotted(path)) == Ok::<Seq<Seq<char>>, ConfigFault>(far),
    ensures
        !env.contains_key(name) ==> list_setting(st, env, path, name) == Ok::<Option<Seq<Seq<char>>>, ConfigFault>(Some(far + near)),
        env.contains_key(name) && env[name]@.len() > 0 ==> list_setting(st, env, path, name) == Ok::<Option<Seq<Seq<char>>>, ConfigFault>(
            Some(far + near + words_of(env[name]@)),
        ),
{
    assert(lists_down(st, path, 2) == Ok::<Option<Seq<Seq<char>>>, ConfigFault>(None));
    assert(lists_down(st, path, 1) == Ok::<Option<Seq<Seq<char>>>, ConfigFault>(Some(far)));
    assert(lists_down(st, path, 0) == Ok::<Option<Seq<Seq<char>>>, ConfigFault>(Some(far + near)));
}

/// The tool's own settings: what the environment says, or else the file, or else the usual.
pub proof fn law_settings_have_an_order(env: Vars, home: Seq<char>, f: FileView, zig: Seq<char>)
    ensures
        settings_of(env, home, f, zig) matches Ok(c) ==> {
            &&& c.home == home
            &&& env.contains_key("RB_STORE_DIR"@) ==> c.store_dir == env["RB_STORE_DIR"@]@
            &&& !env.contains_key("RB_STORE_DIR"@) && f.dir.is_some() ==> c.store_dir == f.dir.unwrap()
            &&& !env.contains_key("RB_STORE_DIR"@) && f.dir.is_none() ==> c.store_dir == under(home, "store"@)
            &&& env.contains_key("RB_NO_STORE"@) && env["RB_NO_STORE"@]@ == "1"@ ==> !c.store_enabled
            &&& !env.contains_key("RB_NO_STORE"@) && f.enabled.is_some() ==> c.store_enabled == f.enabled.unwrap()
            &&& !env.contains_key("RB_NO_STORE"@) && f.enabled.is_none() ==> c.store_enabled
            &&& f.max_age_days.is_some() ==> c.gc_max_age_days == f.max_age_days.unwrap()
            &&& f.keep_unused_days.is_some() ==> c.target_keep_days == f.keep_unused_days.unwrap()
            &&& env.contains_key("RB_CODEGEN_BACKEND"@) ==> c.codegen_backend == Some(env["RB_CODEGEN_BACKEND"@]@)
            &&& !env.contains_key("RB_CODEGEN_BACKEND"@) ==> c.codegen_backend == f.codegen_backend
            &&& f.zig_version.is_some() ==> c.zig_version == f.zig_version.unwrap()
            &&& f.zig_version.is_none() ==> c.zig_version == zig
            &&& env.contains_key("RB_ACCEPT_MSVC_LICENSE"@) && env["RB_ACCEPT_MSVC_LICENSE"@]@ == "1"@ ==> c.accept_msvc_license
            &&& !env.contains_key("RB_ACCEPT_MSVC_LICENSE"@) && f.accept_msvc_license.is_none() ==> !c.accept_msvc_license
            &&& f.cache.is_some() ==> c.cache_build_scripts == f.cache.unwrap()
            &&& f.cache.is_none() ==> c.cache_build_scripts
            &&& f.remap_deps_paths.is_none() ==> !c.remap_deps_paths
            &&& f.remap_deps_paths.is_some() ==> c.remap_deps_paths == f.remap_deps_paths.unwrap()
            &&& !env.contains_key("RB_STORE_MAX_SIZE"@) && f.max_size.is_none() ==> c.store_max_size == Some(0x5_0000_0000u64)
            &&& !env.contains_key("RB_LINK_MODE"@) && f.link_mode.is_some() ==> c.link_mode == f.link_mode.unwrap()
        },
{
}

} // verus!
