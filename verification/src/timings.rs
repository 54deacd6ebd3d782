//! Per-unit durations, for the critical path and the summary of a build.

use vstd::prelude::*;
use crate::json::Json;
use crate::json::JsonTree;
use crate::json::json_entries;
use crate::json::json_of;
use crate::json::read_json;
use crate::lints::text_leq;
use crate::num::dec;
use crate::num::parse_u64;
use crate::num::u64_of;
use crate::num::u64_text;
use crate::order::before;
use crate::order::is_before;
use crate::order::lemma_before_asymmetric;
use crate::order::lemma_before_irreflexive;
use crate::order::lemma_before_total;
use crate::order::lemma_before_transitive;
use crate::sort::Ranked;
use crate::sort::in_order;
use crate::sort::sort;
use crate::strmap::StrMap;
use crate::strmap::listed;
use crate::text::replace;
use crate::text::replaced;
use crate::text::same;
use crate::text::starts;
use crate::text::starts_with;
use crate::text::views;

verus! {

/// How long units took, by their labels.
pub struct Timings {
    map: StrMap<u64>,
    dirty: bool,
}

pub struct TimingsView {
    pub map: Map<Seq<char>, u64>,
    pub dirty: bool,
}

impl View for Timings {
    type V = TimingsView;

    closed spec fn view(&self) -> TimingsView {
        TimingsView { map: self.map@, dirty: self.dirty }
    }
}

/// The durations of the first `n` entries, where each is a number.
pub open spec fn durations_upto(l: Seq<(Seq<char>, JsonTree)>, n: int) -> Option<Map<Seq<char>, u64>>
    decreases n,
{
    if n <= 0 || n > l.len() {
        Some(Map::empty())
    } else {
        match (durations_upto(l, n - 1), l[n - 1].1) {
            (Some(m), JsonTree::Number(s)) => match u64_of(s) {
                Some(v) => Some(m.insert(l[n - 1].0, v as u64)),
                None => None,
            },
            _ => None,
        }
    }
}

/// The durations that a text holds; none where it cannot be read.
pub open spec fn durations_in(text: Option<Seq<char>>) -> Map<Seq<char>, u64> {
    match text {
        None => Map::empty(),
        Some(t) => match json_of(t) {
            Some(JsonTree::Object(l)) => match durations_upto(l, l.len() as int) {
                Some(m) => m,
                None => Map::empty(),
            },
            _ => Map::empty(),
        },
    }
}

proof fn lemma_durations_none(l: Seq<(Seq<char>, JsonTree)>, a: int, b: int)
    requires
        0 <= a <= b <= l.len(),
        durations_upto(l, a).is_none(),
    ensures
        durations_upto(l, b).is_none(),
    decreases b - a,
{
    if a < b {
        lemma_durations_none(l, a, b - 1);
    }
}

fn read_durations(l: &Vec<(String, Json)>) -> (r: Option<StrMap<u64>>)
    ensures
        match r {
            Some(m) => durations_upto(json_entries(l@), l@.len() as int) == Some(m@),
            None => durations_upto(json_entries(l@), l@.len() as int).is_none(),
        },
{
    let ghost all = json_entries(l@);
    let mut out: StrMap<u64> = StrMap::new();
    let mut k: usize = 0;
    while k < l.len()
        invariant
            k <= l@.len(),
            all == json_entries(l@),
            durations_upto(all, k as int) == Some(out@),
        decreases l@.len() - k,
    {
        assert(all[k as int] == (l@[k as int].0@, l@[k as int].1@));
        let v: Option<u64> = match &l[k].1 {
            Json::Number(s) => parse_u64(s.as_str()),
            _ => None,
        };
        match v {
            Some(v) => {
                out.insert(l[k].0.as_str(), v);
            },
            None => {
                proof {
                    lemma_durations_none(all, k + 1, all.len() as int);
                }
                return None;
            },
        }
        k += 1;
    }
    Some(out)
}

/// How long a unit takes, once it took `ms` again.
pub open spec fn averaged(m: Map<Seq<char>, u64>, label: Seq<char>, ms: u64) -> u64 {
    if m.contains_key(label) {
        ((m[label] + ms) / 2) as u64
    } else {
        ms
    }
}

impl Timings {
    /// What is known of earlier builds, from the text of the file that holds it.
    pub fn load(text: Option<&str>) -> (r: Timings)
        ensures
            r@ == (TimingsView { map: durations_in(crate::invocation::opt_text(text)), dirty: false }),
    {
        let map = match text {
            None => StrMap::new(),
            Some(t) => match read_json(t) {
                Some(Json::Object(l)) => {
                    assert(json_entries(l@).len() == l@.len());
                    match read_durations(&l) {
                        Some(m) => m,
                        None => StrMap::new(),
                    }
                },
                _ => StrMap::new(),
            },
        };
        Timings { map, dirty: false }
    }

    pub fn get(&self, label: &str) -> (r: Option<u64>)
        ensures
            r == (if self@.map.contains_key(label@) {
                Some(self@.map[label@])
            } else {
                None
            }),
    {
        match self.map.get(label) {
            Some(v) => Some(*v),
            None => None,
        }
    }

    /// Exponential moving average so one noisy build does not dominate
    pub fn record(&mut self, label: &str, ms: u64)
        requires
            old(self)@.map.contains_key(label@) ==> old(self)@.map[label@] + ms <= u64::MAX,
        ensures
            final(self)@ == (TimingsView {
                map: old(self)@.map.insert(label@, averaged(old(self)@.map, label@, ms)),
                dirty: true,
            }),
    {
        let v: u64 = match self.map.get(label) {
            Some(was) => (*was + ms) / 2,
            None => ms,
        };
        self.map.insert(label, v);
        self.dirty = true;
    }

    /// What to write, where something changed: each label with its duration, in order.
    pub fn save(&self) -> (r: Option<Json>)
        ensures
            match r {
                None => !self@.dirty,
                Some(j) => self@.dirty && j@ == JsonTree::Object(durations_json(self@.map)),
            },
    {
        if !self.dirty {
            return None;
        }
        let names = self.map.keys();
        let ghost nv = listed(self.map@.dom());
        let ghost m = self.map@;
        let ghost want = Seq::new(nv.len(), |i: int| (nv[i], JsonTree::Number(dec(m[nv[i]] as nat))));
        let mut out: Vec<(String, Json)> = Vec::new();
        let mut k: usize = 0;
        while k < names.len()
            invariant
                k <= names@.len(),
                nv == views(names@),
                m == self.map@,
                nv.to_set() == m.dom(),
                want == Seq::new(nv.len(), |i: int| (nv[i], JsonTree::Number(dec(m[nv[i]] as nat)))),
                out@.len() == k,
                forall|j: int| 0 <= j < k ==> ((#[trigger] out@[j]).0@, out@[j].1@) == want[j],
            decreases names@.len() - k,
        {
            assert(nv[k as int] == names@[k as int]@);
            assert(nv.contains(nv[k as int]));
            assert(m.dom().contains(nv[k as int]));
            let v: u64 = match self.map.get(names[k].as_str()) {
                Some(v) => *v,
                None => 0,
            };
            out.push((names[k].clone(), Json::Number(u64_text(v))));
            k += 1;
        }
        assert(json_entries(out@) =~= want);
        Some(Json::Object(out))
    }
}

/// How long a unit took.
#[derive(Debug)]
pub struct TimingRow {
    pub label: String,
    pub ms: u64,
}

/// A row, and where it stood.
#[derive(Debug)]
pub struct Row {
    pub at: usize,
    pub ms: u64,
    pub label: String,
}

pub type RowView = (u64, (usize, Seq<char>));

impl View for Row {
    type V = RowView;

    open spec fn view(&self) -> RowView {
        (self.ms, (self.at, self.label@))
    }
}

impl Ranked for Row {
    /// The longest first; the earlier first where two took as long.
    open spec fn leq(a: RowView, b: RowView) -> bool {
        a.0 > b.0 || (a.0 == b.0 && (a.1.0 < b.1.0 || (a.1.0 == b.1.0 && text_leq(a.1.1, b.1.1))))
    }

    proof fn lemma_total() {
        let leq = |a: RowView, b: RowView| Self::leq(a, b);
        assert forall|x: RowView, y: RowView| #[trigger] leq(x, y) && #[trigger] leq(y, x) implies x == y by {
            if before(x.1.1, y.1.1) {
                lemma_before_asymmetric(x.1.1, y.1.1);
            }
        }
        assert forall|x: RowView, y: RowView, z: RowView| #[trigger] leq(x, y) && #[trigger] leq(y, z) implies leq(x, z) by {
            if before(x.1.1, y.1.1) && before(y.1.1, z.1.1) {
                lemma_before_transitive(x.1.1, y.1.1, z.1.1);
            }
        }
        assert forall|x: RowView, y: RowView| #[trigger] leq(x, y) || #[trigger] leq(y, x) by {
            lemma_before_total(x.1.1, y.1.1);
        }
    }

    fn not_after(&self, other: &Row) -> (r: bool) {
        proof {
            lemma_before_irreflexive(self.label@);
        }
        if self.ms != other.ms {
            self.ms > other.ms
        } else if self.at != other.at {
            self.at < other.at
        } else {
            same(self.label.as_str(), other.label.as_str()) || is_before(self.label.as_str(), other.label.as_str())
        }
    }
}

/// A row that is a remark on the build and no unit.
pub open spec fn is_note(r: TimingRow) -> bool {
    r.ms == 0 && starts(r.label@, "("@)
}

pub open spec fn notes_upto(rows: Seq<TimingRow>, k: int) -> Seq<Seq<char>>
    decreases k,
{
    if k <= 0 || k > rows.len() {
        Seq::empty()
    } else if is_note(rows[k - 1]) {
        notes_upto(rows, k - 1).push(rows[k - 1].label@)
    } else {
        notes_upto(rows, k - 1)
    }
}

pub open spec fn units_upto(rows: Seq<TimingRow>, k: int) -> Seq<RowView>
    decreases k,
{
    if k <= 0 || k > rows.len() {
        Seq::empty()
    } else if is_note(rows[k - 1]) {
        units_upto(rows, k - 1)
    } else {
        units_upto(rows, k - 1).push((rows[k - 1].ms, ((k - 1) as usize, rows[k - 1].label@)))
    }
}

/// The remarks on a build, and its units, the longest first.
pub fn summary(rows: &Vec<TimingRow>) -> (r: (Vec<String>, Vec<Row>))
    ensures
        views(r.0@) == notes_upto(rows@, rows@.len() as int),
        views(r.1@) == in_order::<Row>(units_upto(rows@, rows@.len() as int)),
{
    let mut notes: Vec<String> = Vec::new();
    let mut units: Vec<Row> = Vec::new();
    let mut k: usize = 0;
    assert(views(notes@) =~= Seq::<Seq<char>>::empty());
    assert(views(units@) =~= Seq::<RowView>::empty());
    while k < rows.len()
        invariant
            k <= rows@.len(),
            views(notes@) == notes_upto(rows@, k as int),
            views(units@) == units_upto(rows@, k as int),
        decreases rows@.len() - k,
    {
        let row = &rows[k];
        let ghost n = notes@;
        let ghost u = units@;
        if row.ms == 0 && starts_with(row.label.as_str(), "(") {
            notes.push(row.label.clone());
            assert(views(notes@) =~= views(n).push(row.label@));
        } else {
            let one = Row { at: k, ms: row.ms, label: row.label.clone() };
            units.push(one);
            assert(views(units@) =~= views(u).push(one@));
        }
        k += 1;
    }
    (notes, sort(units))
}

/// The text with the characters that HTML would take for its own written otherwise.
pub open spec fn escaped(s: Seq<char>) -> Seq<char> {
    replaced(replaced(replaced(s, "&"@, "&amp;"@), "<"@, "&lt;"@), ">"@, "&gt;"@)
}

pub fn html_escape(s: &str) -> (r: String)
    ensures
        r@ == escaped(s@),
{
    proof {
        reveal_strlit("&");
        reveal_strlit("<");
        reveal_strlit(">");
    }
    let a = replace(s, "&", "&amp;");
    let b = replace(a.as_str(), "<", "&lt;");
    replace(b.as_str(), ">", "&gt;")
}

/// What is written of durations.
pub open spec fn durations_json(m: Map<Seq<char>, u64>) -> Seq<(Seq<char>, JsonTree)> {
    Seq::new(listed(m.dom()).len(), |i: int| (listed(m.dom())[i], JsonTree::Number(dec(m[listed(m.dom())[i]] as nat))))
}

proof fn lemma_durations(m: Map<Seq<char>, u64>, n: int)
    requires
        0 <= n <= durations_json(m).len(),
    ensures
        ({
            let r = durations_upto(durations_json(m), n);
            &&& r.is_some()
            &&& forall|k: Seq<char>| #[trigger] r.unwrap().contains_key(k) == listed(m.dom()).take(n).contains(k)
            &&& forall|k: Seq<char>| #[trigger] r.unwrap().contains_key(k) ==> r.unwrap()[k] == m[k]
        }),
    decreases n,
{
    let l = durations_json(m);
    let names = listed(m.dom());
    if n > 0 {
        lemma_durations(m, n - 1);
        crate::num::law_decimal_reads_back(m[names[n - 1]]);
        let a = durations_upto(l, n - 1).unwrap();
        let r = durations_upto(l, n).unwrap();
        assert(r == a.insert(names[n - 1], m[names[n - 1]]));
        assert forall|k: Seq<char>| #[trigger] r.contains_key(k) == names.take(n).contains(k) by {
            if names.take(n).contains(k) {
                let i = choose|i: int| 0 <= i < n && names.take(n)[i] == k;
                if i < n - 1 {
                    assert(names.take(n - 1)[i] == k);
                }
            }
            if names.take(n - 1).contains(k) {
                let i = choose|i: int| 0 <= i < n - 1 && #[trigger] names.take(n - 1)[i] == k;
                assert(names.take(n)[i] == k);
            }
            assert(names.take(n)[n - 1] == names[n - 1]);
        }
    } else {
        assert(names.take(0).len() == 0);
    }
}

/// What a build learnt about durations is read back by the next one.
pub proof fn law_durations_are_read_back(m: Map<Seq<char>, u64>, text: Seq<char>)
    requires
        m.dom().finite(),
        json_of(text) == Some(JsonTree::Object(durations_json(m))),
    ensures
        durations_in(Some(text)) == m,
{
    let names = listed(m.dom());
    let n = durations_json(m).len() as int;
    crate::strmap::lemma_listed_finite(m.dom());
    lemma_durations(m, n);
    assert(names.take(n) =~= names);
    let r = durations_in(Some(text));
    assert forall|k: Seq<char>| r.contains_key(k) == m.contains_key(k) by {
        assert(names.to_set().contains(k) == m.dom().contains(k));
    }
    assert(r =~= m);
}

/// What is written of durations is plain, so that it comes back from its text.
pub proof fn law_durations_survive_as_text(m: Map<Seq<char>, u64>)
    requires
        m.dom().finite(),
    ensures
        crate::json::plain(JsonTree::Object(durations_json(m)), 100),
{
    crate::strmap::lemma_listed_finite(m.dom());
    let names = listed(m.dom());
    let l = durations_json(m);
    assert forall|i: int, k: int| 0 <= i < k < l.len() implies before((#[trigger] l[i]).0, (#[trigger] l[k]).0) by {
        assert(before(names[i], names[k]));
    }
    assert forall|k: int| 0 <= k < l.len() implies crate::json::plain((#[trigger] l[k]).1, 99) by {
        crate::json::lemma_plain_number(m[names[k]], 99);
    }
}

} // verus!
