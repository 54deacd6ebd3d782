//! Outputs that are stored later: what a build leaves behind about them, and what is made of it.

use vstd::prelude::*;
use crate::json::Json;
use crate::json::JsonTree;
use crate::json::json_entries;
use crate::json::json_of;
use crate::json::json_trees;
use crate::json::lemma_keys_ascend;
use crate::json::lemma_plain_number;
use crate::json::list_of;
use crate::json::maybe_text;
use crate::json::member;
use crate::json::plain;
use crate::json::read_maybe;
use crate::json::read_texts;
use crate::json::text_at;
use crate::json::text_in;
use crate::json::texts_upto;
use crate::json::tree_of;
use crate::messages::Fields;
use crate::messages::maybe;
use crate::messages::no_fields;
use crate::messages::number;
use crate::messages::push_json;
use crate::messages::put;
use crate::messages::put_maybe;
use crate::messages::put_text;
use crate::messages::put_texts;
use crate::messages::texts_of;
use crate::num::parse_u64;
use crate::num::u64_of;
use crate::num::u64_text;
use crate::order::lemma_before_at;
use crate::path::base_name;
use crate::path::file_name;
use crate::store::Entry;
use crate::store::EnvInput;
use crate::store::ExtraInputs;
use crate::store::ExtraView;
use crate::store::FileInput;
use crate::store::InputView;
use crate::store::OutputFile;
use crate::store::UnitManifest;
use crate::store::upserted;
use crate::text::views;

verus! {

/// What is known of outputs that are yet to be stored.
#[derive(Debug)]
pub struct Job {
    pub key: String,
    pub label: String,
    pub duration_ms: u64,
    pub outputs: Vec<String>,
    pub inputs: ExtraInputs,
    pub diagnostics: Vec<String>,
}

/// The model of a job.
pub struct JobView {
    pub key: Seq<char>,
    pub label: Seq<char>,
    pub duration_ms: u64,
    pub outputs: Seq<Seq<char>>,
    pub inputs: ExtraView,
    pub diagnostics: Seq<Seq<char>>,
}

impl View for Job {
    type V = JobView;

    open spec fn view(&self) -> JobView {
        JobView {
            key: self.key@,
            label: self.label@,
            duration_ms: self.duration_ms,
            outputs: views(self.outputs@),
            inputs: self.inputs@,
            diagnostics: views(self.diagnostics@),
        }
    }
}

// ---------------------------------------------------------------------------
// Writing.

pub open spec fn file_json(f: InputView) -> JsonTree {
    JsonTree::Object(seq![("hash"@, maybe(f.1)), ("path"@, JsonTree::Str(f.0))])
}

pub open spec fn env_json(e: InputView) -> JsonTree {
    JsonTree::Object(seq![("name"@, JsonTree::Str(e.0)), ("value"@, maybe(e.1))])
}

pub open spec fn files_json(l: Seq<InputView>) -> JsonTree {
    JsonTree::Array(Seq::new(l.len(), |i: int| file_json(l[i])))
}

pub open spec fn envs_json(l: Seq<InputView>) -> JsonTree {
    JsonTree::Array(Seq::new(l.len(), |i: int| env_json(l[i])))
}

/// Inputs without members are left out.
pub open spec fn inputs_fields(i: ExtraView) -> Fields {
    (if i.env.len() > 0 {
        seq![("env"@, envs_json(i.env))]
    } else {
        Seq::empty()
    }) + (if i.files.len() > 0 {
        seq![("files"@, files_json(i.files))]
    } else {
        Seq::empty()
    })
}

pub open spec fn job_json(j: JobView) -> JsonTree {
    JsonTree::Object(
        seq![
            ("diagnostics"@, texts_of(j.diagnostics)),
            ("duration_ms"@, number(j.duration_ms as int)),
            ("inputs"@, JsonTree::Object(inputs_fields(j.inputs))),
            ("key"@, JsonTree::Str(j.key)),
            ("label"@, JsonTree::Str(j.label)),
            ("outputs"@, texts_of(j.outputs)),
        ],
    )
}

fn write_files(l: &Vec<FileInput>) -> (r: Json)
    ensures
        r@ == files_json(views(l@)),
{
    let ghost lv = views(l@);
    let mut out: Vec<Json> = Vec::new();
    let mut k: usize = 0;
    assert(json_trees(out@) =~= Seq::<JsonTree>::empty());
    while k < l.len()
        invariant
            k <= l@.len(),
            lv == views(l@),
            json_trees(out@) =~= Seq::new(k as nat, |i: int| file_json(lv[i])),
        decreases l@.len() - k,
    {
        assert(lv[k as int] == l@[k as int]@);
        let mut o = no_fields();
        put_maybe(&mut o, "hash", &l[k].hash);
        put_text(&mut o, "path", l[k].path.as_str());
        assert(json_entries(o@) =~= file_json(lv[k as int])->Object_0);
        push_json(&mut out, Json::Object(o));
        k += 1;
    }
    assert(lv.len() == l@.len());
    Json::Array(out)
}

fn write_env(l: &Vec<EnvInput>) -> (r: Json)
    ensures
        r@ == envs_json(views(l@)),
{
    let ghost lv = views(l@);
    let mut out: Vec<Json> = Vec::new();
    let mut k: usize = 0;
    assert(json_trees(out@) =~= Seq::<JsonTree>::empty());
    while k < l.len()
        invariant
            k <= l@.len(),
            lv == views(l@),
            json_trees(out@) =~= Seq::new(k as nat, |i: int| env_json(lv[i])),
        decreases l@.len() - k,
    {
        assert(lv[k as int] == l@[k as int]@);
        let mut o = no_fields();
        put_text(&mut o, "name", l[k].name.as_str());
        put_maybe(&mut o, "value", &l[k].value);
        assert(json_entries(o@) =~= env_json(lv[k as int])->Object_0);
        push_json(&mut out, Json::Object(o));
        k += 1;
    }
    assert(lv.len() == l@.len());
    Json::Array(out)
}

/// What is left behind about outputs that are yet to be stored.
pub fn write_job(j: &Job) -> (r: Json)
    ensures
        r@ == job_json(j@),
        plain(r@, 100),
{
    let mut inputs = no_fields();
    if j.inputs.env.len() > 0 {
        put(&mut inputs, "env", write_env(&j.inputs.env));
    }
    if j.inputs.files.len() > 0 {
        put(&mut inputs, "files", write_files(&j.inputs.files));
    }
    assert(json_entries(inputs@) =~= inputs_fields(j@.inputs));
    let mut o = no_fields();
    put_texts(&mut o, "diagnostics", &j.diagnostics);
    put(&mut o, "duration_ms", Json::Number(u64_text(j.duration_ms)));
    put(&mut o, "inputs", Json::Object(inputs));
    put_text(&mut o, "key", j.key.as_str());
    put_text(&mut o, "label", j.label.as_str());
    put_texts(&mut o, "outputs", &j.outputs);
    assert(json_entries(o@) =~= job_json(j@)->Object_0);
    proof {
        law_jobs_survive_as_text(j@);
    }
    Json::Object(o)
}

// ---------------------------------------------------------------------------
// Reading.

/// One input, under the names of its two fields.
pub open spec fn input_of(j: JsonTree, name: Seq<char>, value: Seq<char>) -> Option<InputView> {
    match (text_in(member(j, name)), maybe_text(member(j, value))) {
        (Some(n), Some(v)) => Some((n, v)),
        _ => None,
    }
}

/// The first `n` inputs, where each can be read.
pub open spec fn inputs_upto(l: Seq<JsonTree>, name: Seq<char>, value: Seq<char>, n: int) -> Option<Seq<InputView>>
    decreases n,
{
    if n <= 0 {
        Some(Seq::empty())
    } else {
        match (inputs_upto(l, name, value, n - 1), input_of(l[n - 1], name, value)) {
            (Some(s), Some(i)) => Some(s.push(i)),
            _ => None,
        }
    }
}

/// A list of inputs, empty where there is none.
pub open spec fn input_list(o: Option<JsonTree>, name: Seq<char>, value: Seq<char>) -> Option<Seq<InputView>> {
    match o {
        None => Some(Seq::empty()),
        Some(JsonTree::Array(l)) => inputs_upto(l, name, value, l.len() as int),
        _ => None,
    }
}

/// The inputs that a value stands for; none where one of them cannot be read.
pub open spec fn inputs_of(o: Option<JsonTree>) -> ExtraView {
    match o {
        Some(JsonTree::Object(l)) => match (
            input_list(member(JsonTree::Object(l), "files"@), "path"@, "hash"@),
            input_list(member(JsonTree::Object(l), "env"@), "name"@, "value"@),
        ) {
            (Some(files), Some(env)) => ExtraView { files, env },
            _ => ExtraView { files: Seq::empty(), env: Seq::empty() },
        },
        _ => ExtraView { files: Seq::empty(), env: Seq::empty() },
    }
}

/// A list of texts; empty where it cannot be read.
pub open spec fn texts_in(o: Option<JsonTree>) -> Seq<Seq<char>> {
    match o {
        Some(j) => match list_of(j) {
            Some(l) => l,
            None => Seq::empty(),
        },
        None => Seq::empty(),
    }
}

pub open spec fn millis_of(o: Option<JsonTree>) -> u64 {
    match o {
        Some(JsonTree::Number(s)) => match u64_of(s) {
            Some(n) => n as u64,
            None => 0,
        },
        _ => 0,
    }
}

/// The job that a value stands for, where it has a key.
pub open spec fn job_in(j: JsonTree) -> Option<JobView> {
    match text_in(member(j, "key"@)) {
        Some(key) => Some(
            JobView {
                key,
                label: match text_in(member(j, "label"@)) {
                    Some(s) => s,
                    None => Seq::empty(),
                },
                duration_ms: millis_of(member(j, "duration_ms"@)),
                outputs: texts_in(member(j, "outputs"@)),
                inputs: inputs_of(member(j, "inputs"@)),
                diagnostics: texts_in(member(j, "diagnostics"@)),
            },
        ),
        None => None,
    }
}

proof fn lemma_inputs_none(l: Seq<JsonTree>, name: Seq<char>, value: Seq<char>, a: int, b: int)
    requires
        0 <= a <= b <= l.len(),
        inputs_upto(l, name, value, a).is_none(),
    ensures
        inputs_upto(l, name, value, b).is_none(),
    decreases b - a,
{
    if a < b {
        lemma_inputs_none(l, name, value, a, b - 1);
    }
}

/// The two fields of each input.
pub open spec fn pairs(l: Seq<(String, Option<String>)>) -> Seq<InputView> {
    Seq::new(l.len(), |i: int| (l[i].0@, crate::text::opt_view(l[i].1)))
}

fn read_inputs(o: Option<&Json>, name: &str, value: &str) -> (r: Option<Vec<(String, Option<String>)>>)
    ensures
        match r {
            Some(l) => input_list(tree_of(o), name@, value@) == Some(pairs(l@)),
            None => input_list(tree_of(o), name@, value@).is_none(),
        },
{
    let mut out: Vec<(String, Option<String>)> = Vec::new();
    assert(pairs(out@) =~= Seq::<InputView>::empty());
    match o {
        None => Some(out),
        Some(Json::Array(l)) => {
            let ghost all = json_trees(l@);
            let mut k: usize = 0;
            while k < l.len()
                invariant
                    k <= l@.len(),
                    all == json_trees(l@),
                    tree_of(o) == Some(JsonTree::Array(all)),
                    inputs_upto(all, name@, value@, k as int) == Some(pairs(out@)),
                decreases l@.len() - k,
            {
                assert(all[k as int] == l@[k as int]@);
                let ghost was = pairs(out@);
                match (text_at(&l[k], name), read_maybe(l[k].get(value))) {
                    (Some(n), Some(v)) => {
                        let ghost vv = crate::text::opt_view(v);
                        out.push((n.to_owned(), v));
                        assert(pairs(out@) =~= was.push((n@, vv)));
                    },
                    _ => {
                        proof {
                            lemma_inputs_none(all, name@, value@, k + 1, all.len() as int);
                        }
                        return None;
                    },
                }
                k += 1;
            }
            assert(all.len() == l@.len());
            Some(out)
        },
        _ => None,
    }
}

fn no_inputs() -> (r: ExtraInputs)
    ensures
        r@ == (ExtraView { files: Seq::empty(), env: Seq::empty() }),
{
    ExtraInputs::new()
}

fn read_extra(o: Option<&Json>) -> (r: ExtraInputs)
    ensures
        r@ == inputs_of(tree_of(o)),
{
    match o {
        Some(j) => {
            let object: bool = match j {
                Json::Object(_) => true,
                _ => false,
            };
            if !object {
                return no_inputs();
            }
            let files = read_inputs(j.get("files"), "path", "hash");
            let env = read_inputs(j.get("env"), "name", "value");
            match (files, env) {
                (Some(f), Some(e)) => {
                    let ghost fv = pairs(f@);
                    let ghost ev = pairs(e@);
                    let mut files: Vec<FileInput> = Vec::new();
                    let mut k: usize = 0;
                    while k < f.len()
                        invariant
                            k <= f@.len(),
                            fv == pairs(f@),
                            files@.len() == k,
                            forall|i: int| 0 <= i < k ==> (#[trigger] files@[i])@ == fv[i],
                        decreases f@.len() - k,
                    {
                        files.push(FileInput { path: f[k].0.clone(), hash: crate::profile::dup_text(&f[k].1) });
                        k += 1;
                    }
                    assert(views(files@) =~= fv);
                    let mut env: Vec<EnvInput> = Vec::new();
                    let mut k: usize = 0;
                    while k < e.len()
                        invariant
                            k <= e@.len(),
                            ev == pairs(e@),
                            env@.len() == k,
                            forall|i: int| 0 <= i < k ==> (#[trigger] env@[i])@ == ev[i],
                        decreases e@.len() - k,
                    {
                        env.push(EnvInput { name: e[k].0.clone(), value: crate::profile::dup_text(&e[k].1) });
                        k += 1;
                    }
                    assert(views(env@) =~= ev);
                    ExtraInputs { files, env }
                },
                _ => no_inputs(),
            }
        },
        None => no_inputs(),
    }
}

fn read_strings(o: Option<&Json>) -> (r: Vec<String>)
    ensures
        views(r@) == texts_in(tree_of(o)),
{
    let none: Vec<String> = Vec::new();
    assert(views(none@) =~= Seq::<Seq<char>>::empty());
    match o {
        Some(j) => match read_texts(j) {
            Some(l) => l,
            None => none,
        },
        None => none,
    }
}

/// What a file of the queue is.
#[derive(Debug)]
pub enum Queued {
    /// It cannot be read, and is removed.
    Broken,
    /// It has no key, and is left alone.
    Keyless,
    Job(Job),
}

pub fn read_job(text: &str) -> (r: Queued)
    ensures
        match json_of(text@) {
            None => r is Broken,
            Some(j) => match job_in(j) {
                None => r is Keyless,
                Some(v) => r matches Queued::Job(x) && x@ == v,
            },
        },
{
    let j = match Json::parse(text) {
        Some(j) => j,
        None => {
            return Queued::Broken;
        },
    };
    let key = match text_at(&j, "key") {
        Some(k) => k.to_owned(),
        None => {
            return Queued::Keyless;
        },
    };
    proof {
        reveal_strlit("");
        assert(""@ =~= Seq::<char>::empty());
    }
    let label = match text_at(&j, "label") {
        Some(s) => s.to_owned(),
        None => "".to_owned(),
    };
    let duration_ms: u64 = match j.get("duration_ms") {
        Some(Json::Number(s)) => match parse_u64(s.as_str()) {
            Some(n) => n,
            None => 0,
        },
        _ => 0,
    };
    let outputs = read_strings(j.get("outputs"));
    let inputs = read_extra(j.get("inputs"));
    let diagnostics = read_strings(j.get("diagnostics"));
    Queued::Job(Job { key, label, duration_ms, outputs, inputs, diagnostics })
}

// ---------------------------------------------------------------------------
// Laws.

proof fn lemma_texts(l: Seq<Seq<char>>, n: int)
    requires
        0 <= n <= l.len(),
    ensures
        texts_upto(texts_of(l)->Array_0, n) == Some(l.take(n)),
    decreases n,
{
    if n > 0 {
        lemma_texts(l, n - 1);
        assert(l.take(n) =~= l.take(n - 1).push(l[n - 1]));
    } else {
        assert(l.take(0) =~= Seq::<Seq<char>>::empty());
    }
}

proof fn lemma_text_list(l: Seq<Seq<char>>)
    ensures
        texts_in(Some(texts_of(l))) == l,
{
    lemma_texts(l, l.len() as int);
    assert(l.take(l.len() as int) =~= l);
}

proof fn lemma_files(l: Seq<InputView>, n: int)
    requires
        0 <= n <= l.len(),
    ensures
        inputs_upto(files_json(l)->Array_0, "path"@, "hash"@, n) == Some(l.take(n)),
    decreases n,
{
    if n > 0 {
        lemma_files(l, n - 1);
        reveal(crate::value::at);
        reveal_strlit("hash");
        reveal_strlit("path");
        reveal_with_fuel(crate::value::entry_at, 3);
        let j = files_json(l)->Array_0[n - 1];
        assert(j == file_json(l[n - 1]));
        assert("hash"@[0] != "path"@[0]);
        assert(member(j, "path"@) == Some(JsonTree::Str(l[n - 1].0)));
        assert(member(j, "hash"@) == Some(maybe(l[n - 1].1)));
        assert(input_of(j, "path"@, "hash"@) == Some(l[n - 1]));
        assert(l.take(n) =~= l.take(n - 1).push(l[n - 1]));
    } else {
        assert(l.take(0) =~= Seq::<InputView>::empty());
    }
}

proof fn lemma_envs(l: Seq<InputView>, n: int)
    requires
        0 <= n <= l.len(),
    ensures
        inputs_upto(envs_json(l)->Array_0, "name"@, "value"@, n) == Some(l.take(n)),
    decreases n,
{
    if n > 0 {
        lemma_envs(l, n - 1);
        reveal(crate::value::at);
        reveal_strlit("name");
        reveal_strlit("value");
        reveal_with_fuel(crate::value::entry_at, 3);
        let j = envs_json(l)->Array_0[n - 1];
        assert(j == env_json(l[n - 1]));
        assert("name"@.len() != "value"@.len());
        assert(member(j, "name"@) == Some(JsonTree::Str(l[n - 1].0)));
        assert(member(j, "value"@) == Some(maybe(l[n - 1].1)));
        assert(input_of(j, "name"@, "value"@) == Some(l[n - 1]));
        assert(l.take(n) =~= l.take(n - 1).push(l[n - 1]));
    } else {
        assert(l.take(0) =~= Seq::<InputView>::empty());
    }
}

proof fn lemma_inputs(i: ExtraView)
    ensures
        inputs_of(Some(JsonTree::Object(inputs_fields(i)))) == i,
{
    reveal(crate::value::at);
    reveal_strlit("env");
    reveal_strlit("files");
    reveal_with_fuel(crate::value::entry_at, 4);
    assert("env"@.len() != "files"@.len());
    let l = inputs_fields(i);
    let j = JsonTree::Object(l);
    lemma_files(i.files, i.files.len() as int);
    lemma_envs(i.env, i.env.len() as int);
    assert(i.files.take(i.files.len() as int) =~= i.files);
    assert(i.env.take(i.env.len() as int) =~= i.env);
    if i.env.len() > 0 {
        assert(l[0] == ("env"@, envs_json(i.env)));
        if i.files.len() > 0 {
            assert(l[1] == ("files"@, files_json(i.files)));
            assert(l.len() == 2);
        } else {
            assert(l.len() == 1);
            assert(i.files =~= Seq::<InputView>::empty());
        }
    } else {
        assert(i.env =~= Seq::<InputView>::empty());
        if i.files.len() > 0 {
            assert(l[0] == ("files"@, files_json(i.files)));
            assert(l.len() == 1);
        } else {
            assert(l.len() == 0);
            assert(i.files =~= Seq::<InputView>::empty());
        }
    }
    assert(member(j, "env"@) == if i.env.len() > 0 { Some(envs_json(i.env)) } else { None });
    assert(member(j, "files"@) == if i.files.len() > 0 { Some(files_json(i.files)) } else { None });
}

/// What a build leaves behind about its outputs is read back as it was.
pub proof fn law_jobs_are_read_back(j: JobView)
    ensures
        job_in(job_json(j)) == Some(j),
{
    reveal(crate::value::at);
    reveal_strlit("diagnostics");
    reveal_strlit("duration_ms");
    reveal_strlit("inputs");
    reveal_strlit("key");
    reveal_strlit("label");
    reveal_strlit("outputs");
    reveal_with_fuel(crate::value::entry_at, 7);
    assert("diagnostics"@.len() == 11 && "duration_ms"@.len() == 11 && "inputs"@.len() == 6 && "key"@.len() == 3 && "label"@.len() == 5
        && "outputs"@.len() == 7);
    assert("diagnostics"@[1] != "duration_ms"@[1]);
    let t = job_json(j);
    assert(member(t, "diagnostics"@) == Some(texts_of(j.diagnostics)));
    assert(member(t, "duration_ms"@) == Some(number(j.duration_ms as int)));
    assert(member(t, "inputs"@) == Some(JsonTree::Object(inputs_fields(j.inputs))));
    assert(member(t, "key"@) == Some(JsonTree::Str(j.key)));
    assert(member(t, "label"@) == Some(JsonTree::Str(j.label)));
    assert(member(t, "outputs"@) == Some(texts_of(j.outputs)));
    lemma_text_list(j.diagnostics);
    lemma_text_list(j.outputs);
    lemma_inputs(j.inputs);
    crate::num::law_decimal_reads_back(j.duration_ms);
}

proof fn lemma_plain_inputs(i: ExtraView, d: nat)
    requires
        d >= 3,
    ensures
        plain(JsonTree::Object(inputs_fields(i)), d),
{
    reveal_strlit("env");
    reveal_strlit("files");
    reveal_strlit("hash");
    reveal_strlit("path");
    reveal_strlit("name");
    reveal_strlit("value");
    lemma_before_at("env"@, "files"@, 0);
    lemma_before_at("hash"@, "path"@, 0);
    lemma_before_at("name"@, "value"@, 0);
    let a = (d - 1) as nat;
    let b = (d - 2) as nat;
    let c = (d - 3) as nat;
    assert forall|f: InputView| #[trigger] plain(file_json(f), b) by {
        let l = file_json(f)->Object_0;
        lemma_keys_ascend(l);
        assert forall|k: int| 0 <= k < l.len() implies plain((#[trigger] l[k]).1, c) by {}
    }
    assert forall|f: InputView| #[trigger] plain(env_json(f), b) by {
        let l = env_json(f)->Object_0;
        lemma_keys_ascend(l);
        assert forall|k: int| 0 <= k < l.len() implies plain((#[trigger] l[k]).1, c) by {}
    }
    let f = files_json(i.files)->Array_0;
    assert forall|k: int| 0 <= k < f.len() implies plain(#[trigger] f[k], b) by {
        assert(plain(file_json(i.files[k]), b));
    }
    assert(plain(files_json(i.files), a));
    let e = envs_json(i.env)->Array_0;
    assert forall|k: int| 0 <= k < e.len() implies plain(#[trigger] e[k], b) by {
        assert(plain(env_json(i.env[k]), b));
    }
    assert(plain(envs_json(i.env), a));
    lemma_keys_ascend(inputs_fields(i));
}

proof fn lemma_plain_texts(l: Seq<Seq<char>>, d: nat)
    requires
        d >= 1,
    ensures
        plain(texts_of(l), d),
{
    let t = texts_of(l)->Array_0;
    assert forall|k: int| 0 <= k < t.len() implies plain(#[trigger] t[k], (d - 1) as nat) by {}
}

/// What is left behind about outputs is plain, so that it comes back from its text.
pub proof fn law_jobs_survive_as_text(j: JobView)
    ensures
        plain(job_json(j), 100),
{
    reveal_strlit("diagnostics");
    reveal_strlit("duration_ms");
    reveal_strlit("inputs");
    reveal_strlit("key");
    reveal_strlit("label");
    reveal_strlit("outputs");
    lemma_before_at("diagnostics"@, "duration_ms"@, 1);
    lemma_before_at("duration_ms"@, "inputs"@, 0);
    lemma_before_at("inputs"@, "key"@, 0);
    lemma_before_at("key"@, "label"@, 0);
    lemma_before_at("label"@, "outputs"@, 0);
    let l = job_json(j)->Object_0;
    lemma_keys_ascend(l);
    lemma_plain_texts(j.diagnostics, 99);
    lemma_plain_texts(j.outputs, 99);
    lemma_plain_inputs(j.inputs, 99);
    lemma_plain_number(j.duration_ms, 99);
    assert forall|k: int| 0 <= k < l.len() implies plain((#[trigger] l[k]).1, 99) by {
        if k == 0 {
            assert(l[k].1 == texts_of(j.diagnostics));
        } else if k == 1 {
            assert(l[k].1 == number(j.duration_ms as int));
        } else if k == 2 {
            assert(l[k].1 == JsonTree::Object(inputs_fields(j.inputs)));
        } else if k == 5 {
            assert(l[k].1 == texts_of(j.outputs));
        }
    }
}

// ---------------------------------------------------------------------------
// Storing.

/// The file of an output whose blob, size and mode are known.
pub open spec fn is_file_of(o: OutputFile, path: Seq<char>, stored: (String, u64, bool)) -> bool {
    &&& o.name@ == match base_name(path) {
        Some(n) => n,
        None => Seq::empty(),
    }
    &&& o.blob@ == stored.0@
    &&& o.size == stored.1
    &&& o.executable == stored.2
    &&& !o.templated
}

/// The entry of a job whose outputs are stored, made now.
pub open spec fn is_entry_of(e: Entry, j: JobView, stored: Seq<Option<(String, u64, bool)>>, now: u64) -> bool {
    &&& e.label@ == j.label
    &&& e.created == now
    &&& e.last_used == now
    &&& e.outputs@.len() == j.outputs.len()
    &&& forall|i: int| 0 <= i < j.outputs.len() ==> is_file_of(#[trigger] e.outputs@[i], j.outputs[i], stored[i].unwrap())
    &&& e.dirs@.len() == 0
    &&& e.symlinks@.len() == 0
    &&& e.inputs@ == j.inputs
    &&& e.payload.is_none()
    &&& views(e.diagnostics@) == j.diagnostics
    &&& e.duration_ms == j.duration_ms
}

/// There are outputs, and all of them are stored.
pub open spec fn all_stored(stored: Seq<Option<(String, u64, bool)>>) -> bool {
    stored.len() > 0 && forall|i: int| 0 <= i < stored.len() ==> (#[trigger] stored[i]).is_some()
}

/// What the store then has for the key of a job. `stored`: the blob of each output, its size and whether it can be run,
/// where it could be put in. Nothing where one could not, or there is none. `known`: what the store has so far.
pub fn finish_job(job: Job, stored: Vec<Option<(String, u64, bool)>>, now: u64, known: Option<UnitManifest>) -> (r: Option<
    UnitManifest,
>)
    requires
        stored@.len() == job.outputs@.len(),
    ensures
        r.is_some() == all_stored(stored@),
        r matches Some(m) ==> match known {
            Some(k) => m.key == k.key && exists|e: Entry| #[trigger] is_entry_of(e, job@, stored@, now) && m.entries@ == upserted(k.entries@, e),
            None => m.key@ == job@.key && exists|e: Entry| #[trigger] is_entry_of(e, job@, stored@, now) && m.entries@ == upserted(Seq::empty(), e),
        },
{
    let ghost jv = job@;
    let n: usize = stored.len();
    if n == 0 {
        return None;
    }
    let mut outputs: Vec<OutputFile> = Vec::new();
    let mut k: usize = 0;
    while k < n
        invariant
            k <= n,
            n == stored@.len(),
            n == job.outputs@.len(),
            jv == job@,
            outputs@.len() == k,
            forall|i: int| 0 <= i < k ==> (#[trigger] stored@[i]).is_some(),
            forall|i: int| 0 <= i < k ==> is_file_of(#[trigger] outputs@[i], jv.outputs[i], stored@[i].unwrap()),
        decreases n - k,
    {
        assert(jv.outputs[k as int] == job.outputs@[k as int]@);
        match &stored[k] {
            Some((blob, size, executable)) => {
                let name = match file_name(job.outputs[k].as_str()) {
                    Some(f) => f,
                    None => String::new(),
                };
                outputs.push(
                    OutputFile { name, blob: blob.clone(), executable: *executable, size: *size, templated: false },
                );
            },
            None => {
                return None;
            },
        }
        k += 1;
    }
    let entry = Entry {
        label: job.label,
        created: now,
        last_used: now,
        outputs,
        dirs: Vec::new(),
        symlinks: Vec::new(),
        inputs: job.inputs,
        payload: None,
        diagnostics: job.diagnostics,
        duration_ms: job.duration_ms,
    };
    assert(is_entry_of(entry, jv, stored@, now));
    let mut m = match known {
        Some(m) => m,
        None => UnitManifest { key: job.key, entries: Vec::new() },
    };
    m.upsert(entry);
    Some(m)
}

} // verus!
