//! Persisted session settings: the set of open files, the
//! most-recently-used history, the operations that maintain both, and the
//! JSON document they are saved to and loaded from.

use vstd::prelude::*;
use vstd::string::StringExecFns;

use crate::json::Json;
use crate::json::JsonV;
use crate::json::chars_lt;
use crate::json::depth_list;
use crate::json::depth_members;
use crate::json::json_depth;
use crate::json::canonical_json;
use crate::json::json_of;
use crate::json::jview;
use crate::json::jview_list;
use crate::json::jview_members;
use crate::json::lemma_jview_list;
use crate::json::lemma_jview_members;
use crate::json::obj_get;
use crate::json::parse_json;
use crate::json::print_json;
use crate::json::spec_obj_get;

verus! {

broadcast use vstd::std_specs::vec::group_vec_axioms;

/// No path appears twice.
pub open spec fn distinct(s: Seq<Seq<char>>) -> bool {
    forall|i: int, k: int| 0 <= i < k < s.len() ==> s[i] != s[k]
}

/// The sequence with every occurrence of `p` removed, order kept.
pub open spec fn remove_path(s: Seq<Seq<char>>, p: Seq<char>) -> Seq<Seq<char>>
    decreases s.len(),
{
    if s.len() == 0 {
        Seq::empty()
    } else {
        let rest = remove_path(s.drop_first(), p);
        if s[0] == p {
            rest
        } else {
            seq![s[0]] + rest
        }
    }
}

/// Removal keeps the others, keeps distinctness, drops every `p`, and
/// leaves a sequence without `p` alone.
pub proof fn lemma_remove_path(s: Seq<Seq<char>>, p: Seq<char>)
    ensures
        remove_path(s, p).len() <= s.len(),
        !remove_path(s, p).contains(p),
        forall|q: Seq<char>|
            #[trigger] remove_path(s, p).contains(q) <==> (s.contains(q) && q != p),
        distinct(s) ==> distinct(remove_path(s, p)),
        !s.contains(p) ==> remove_path(s, p) == s,
    decreases s.len(),
{
    if s.len() == 0 {
        assert forall|q: Seq<char>| #[trigger]
            remove_path(s, p).contains(q) <==> (s.contains(q) && q != p) by {
            assert(!remove_path(s, p).contains(q));
            assert(!s.contains(q));
        }
    } else {
        let tail = s.drop_first();
        lemma_remove_path(tail, p);
        let rest = remove_path(tail, p);
        assert forall|q: Seq<char>| #[trigger] s.contains(q) implies (q == s[0] || tail.contains(
            q,
        )) by {
            let i = choose|i: int| 0 <= i < s.len() && s[i] == q;
            if i > 0 {
                assert(tail[i - 1] == q);
            }
        }
        assert forall|q: Seq<char>| #[trigger] tail.contains(q) implies s.contains(q) by {
            let i = choose|i: int| 0 <= i < tail.len() && tail[i] == q;
            assert(s[i + 1] == q);
        }
        assert(s.contains(s[0]));
        if s[0] == p {
            assert(remove_path(s, p) == rest);
            assert forall|q: Seq<char>| #[trigger]
                remove_path(s, p).contains(q) <==> (s.contains(q) && q != p) by {
                if s.contains(q) && q != p {
                    assert(q == s[0] || tail.contains(q));
                }
            }
            if distinct(s) {
                assert forall|i: int, k: int| 0 <= i < k < tail.len() implies tail[i] != tail[k] by {
                    assert(s[i + 1] == tail[i] && s[k + 1] == tail[k]);
                }
            }
        } else {
            assert(remove_path(s, p) == seq![s[0]] + rest);
            assert forall|q: Seq<char>| #[trigger]
                remove_path(s, p).contains(q) <==> (s.contains(q) && q != p) by {
                if remove_path(s, p).contains(q) {
                    let i = choose|i: int|
                        0 <= i < remove_path(s, p).len() && remove_path(s, p)[i] == q;
                    if i == 0 {
                        assert(q == s[0]);
                    } else {
                        assert(rest.contains(q));
                    }
                }
                if s.contains(q) && q != p {
                    if q == s[0] {
                        assert(remove_path(s, p)[0] == q);
                    } else {
                        assert(tail.contains(q));
                        assert(rest.contains(q));
                        let i = choose|i: int| 0 <= i < rest.len() && rest[i] == q;
                        assert(remove_path(s, p)[i + 1] == q);
                    }
                }
            }
            if distinct(s) {
                assert forall|i: int, k: int| 0 <= i < k < tail.len() implies tail[i] != tail[k] by {
                    assert(s[i + 1] == tail[i] && s[k + 1] == tail[k]);
                }
                assert(distinct(rest));
                assert forall|i: int, k: int|
                    0 <= i < k < remove_path(s, p).len() implies remove_path(s, p)[i]
                    != remove_path(s, p)[k] by {
                    if i == 0 {
                        assert(remove_path(s, p)[k] == rest[k - 1]);
                        assert(rest.contains(rest[k - 1]));
                        if rest[k - 1] == s[0] {
                            assert(tail.contains(s[0]));
                            let m = choose|m: int| 0 <= m < tail.len() && tail[m] == s[0];
                            assert(s[m + 1] == s[0]);
                        }
                    }
                }
            }
            if !s.contains(p) {
                assert(!tail.contains(p));
                assert(remove_path(s, p) =~= s);
            }
        }
    }
}

/// First occurrences only: a path keeps its earliest place, later copies
/// fall away.
pub open spec fn dedup_first(s: Seq<Seq<char>>) -> Seq<Seq<char>>
    decreases s.len(),
{
    if s.len() == 0 {
        Seq::empty()
    } else {
        let rest = dedup_first(s.drop_last());
        if s.drop_last().contains(s.last()) {
            rest
        } else {
            rest + seq![s.last()]
        }
    }
}

/// Deduplication yields a duplicate-free list with the same members,
/// and leaves a duplicate-free list alone.
pub proof fn lemma_dedup_first(s: Seq<Seq<char>>)
    ensures
        distinct(dedup_first(s)),
        forall|q: Seq<char>| #[trigger] dedup_first(s).contains(q) <==> s.contains(q),
        distinct(s) ==> dedup_first(s) == s,
    decreases s.len(),
{
    if s.len() == 0 {
        assert forall|q: Seq<char>| #[trigger]
            dedup_first(s).contains(q) <==> s.contains(q) by {
            assert(!dedup_first(s).contains(q));
            assert(!s.contains(q));
        }
    } else {
        let head = s.drop_last();
        lemma_dedup_first(head);
        let rest = dedup_first(head);
        assert forall|q: Seq<char>| #[trigger] s.contains(q) implies (q == s.last()
            || head.contains(q)) by {
            let i = choose|i: int| 0 <= i < s.len() && s[i] == q;
            if i < s.len() - 1 {
                assert(head[i] == q);
            }
        }
        assert forall|q: Seq<char>| #[trigger] head.contains(q) implies s.contains(q) by {
            let i = choose|i: int| 0 <= i < head.len() && head[i] == q;
            assert(s[i] == q);
        }
        assert(s.contains(s.last()));
        if head.contains(s.last()) {
            assert(dedup_first(s) == rest);
        } else {
            assert(dedup_first(s) == rest + seq![s.last()]);
            assert forall|q: Seq<char>| #[trigger]
                dedup_first(s).contains(q) <==> s.contains(q) by {
                if dedup_first(s).contains(q) {
                    let i = choose|i: int|
                        0 <= i < dedup_first(s).len() && dedup_first(s)[i] == q;
                    if i < rest.len() {
                        assert(rest.contains(q));
                    } else {
                        assert(q == s.last());
                    }
                }
                if s.contains(q) {
                    if q == s.last() {
                        assert(dedup_first(s)[rest.len() as int] == q);
                    } else {
                        assert(head.contains(q));
                        assert(rest.contains(q));
                        let i = choose|i: int| 0 <= i < rest.len() && rest[i] == q;
                        assert(dedup_first(s)[i] == q);
                    }
                }
            }
            assert forall|i: int, k: int|
                0 <= i < k < dedup_first(s).len() implies dedup_first(s)[i] != dedup_first(
                s,
            )[k] by {
                if k == rest.len() {
                    assert(rest.contains(rest[i]));
                }
            }
            if distinct(s) {
                assert forall|i: int, k: int|
                    0 <= i < k < head.len() implies head[i] != head[k] by {
                    assert(s[i] == head[i] && s[k] == head[k]);
                }
                assert(rest == head);
                assert(dedup_first(s) =~= s);
            }
        }
        if distinct(s) && head.contains(s.last()) {
            let i = choose|i: int| 0 <= i < head.len() && head[i] == s.last();
            assert(s[i] == s.last());
        }
    }
}

/// The persisted session bookkeeping: the paths currently open, and the
/// most-recently-opened-first history.
#[verifier::ext_equal]
pub struct SettingsV {
    pub open_paths: Seq<Seq<char>>,
    pub recent_paths: Seq<Seq<char>>,
}

/// Persisted session settings: the open set and the recent history.
#[derive(Debug)]
pub struct Settings {
    pub open_paths: Vec<String>,
    pub recent_paths: Vec<String>,
}

impl View for Settings {
    type V = SettingsV;

    open spec fn view(&self) -> SettingsV {
        SettingsV {
            open_paths: self.open_paths.deep_view(),
            recent_paths: self.recent_paths.deep_view(),
        }
    }
}

/// Both lists are duplicate-free.
pub open spec fn wf_settings(s: SettingsV) -> bool {
    distinct(s.open_paths) && distinct(s.recent_paths)
}

/// The state after opening `p`: `p` moves to the front of the recent
/// history (its old place, if any, is vacated) and joins the open set if
/// absent; the reply says whether it was newly opened.
pub open spec fn spec_open(s: SettingsV, p: Seq<char>) -> (SettingsV, bool) {
    let newly = !s.open_paths.contains(p);
    (
        SettingsV {
            open_paths: if newly {
                s.open_paths.push(p)
            } else {
                s.open_paths
            },
            recent_paths: seq![p] + remove_path(s.recent_paths, p),
        },
        newly,
    )
}

/// The state after closing `p`: it leaves the open set and keeps its
/// place in the recent history; the reply says whether it had been open.
pub open spec fn spec_close(s: SettingsV, p: Seq<char>) -> (SettingsV, bool) {
    (
        SettingsV { open_paths: remove_path(s.open_paths, p), recent_paths: s.recent_paths },
        s.open_paths.contains(p),
    )
}

/// The state after forgetting `p`: it leaves the recent history; the open
/// set is untouched.
pub open spec fn spec_remove_recent(s: SettingsV, p: Seq<char>) -> SettingsV {
    SettingsV { open_paths: s.open_paths, recent_paths: remove_path(s.recent_paths, p) }
}

fn contains_path(v: &Vec<String>, p: &String) -> (r: bool)
    ensures
        r == v.deep_view().contains(p@),
{
    let mut i: usize = 0;
    while i < v.len()
        invariant
            i <= v.len(),
            forall|k: int| 0 <= k < i as int ==> v.deep_view()[k] != p@,
        decreases v.len() - i,
    {
        if v[i] == *p {
            proof {
                assert(v.deep_view()[i as int] == p@);
            }
            return true;
        }
        proof {
            assert(v.deep_view()[i as int] == v@[i as int]@);
        }
        i = i + 1;
    }
    proof {
        if v.deep_view().contains(p@) {
            let k = choose|k: int| 0 <= k < v.deep_view().len() && v.deep_view()[k] == p@;
            assert(v.deep_view()[k] != p@);
        }
    }
    false
}

fn without_path(v: &Vec<String>, p: &String) -> (r: Vec<String>)
    ensures
        r.deep_view() == remove_path(v.deep_view(), p@),
{
    let ghost dv = v.deep_view();
    let mut out: Vec<String> = Vec::new();
    proof {
        assert(dv.skip(0) =~= dv);
        assert(out.deep_view() =~= Seq::<Seq<char>>::empty());
    }
    let mut i: usize = 0;
    while i < v.len()
        invariant
            i <= v.len(),
            dv == v.deep_view(),
            remove_path(dv, p@) =~= out.deep_view() + remove_path(dv.skip(i as int), p@),
        decreases v.len() - i,
    {
        proof {
            assert(dv.skip(i as int)[0] == dv[i as int]);
            assert(dv[i as int] == v@[i as int]@);
            assert(dv.skip(i as int).drop_first() =~= dv.skip(i as int + 1));
        }
        if !(v[i] == *p) {
            let ghost prev = out.deep_view();
            out.push(v[i].clone());
            proof {
                assert(out.deep_view() =~= prev.push(dv[i as int]));
                assert(prev.push(dv[i as int]) =~= prev + seq![dv[i as int]]);
            }
        }
        i = i + 1;
    }
    proof {
        assert(dv.skip(v@.len() as int).len() == 0);
        assert(out.deep_view() + remove_path(dv.skip(v@.len() as int), p@) =~= out.deep_view());
    }
    out
}

impl Settings {
    /// Both lists are duplicate-free.
    pub open spec fn wf(&self) -> bool {
        wf_settings(self@)
    }

    /// Marks `path` open, exactly as [`spec_open`] says; the reply is true
    /// when the path was not already open.
    pub fn open(&mut self, path: String) -> (newly: bool)
        ensures
            final(self)@ == spec_open(old(self)@, path@).0,
            newly == spec_open(old(self)@, path@).1,
    {
        let newly = !contains_path(&self.open_paths, &path);
        let mut rebuilt: Vec<String> = Vec::new();
        rebuilt.push(path.clone());
        let mut rest = without_path(&self.recent_paths, &path);
        let ghost rest_dv = rest.deep_view();
        rebuilt.append(&mut rest);
        proof {
            assert(rebuilt.deep_view() =~= seq![path@] + rest_dv);
        }
        self.recent_paths = rebuilt;
        if newly {
            let ghost prev = self.open_paths.deep_view();
            self.open_paths.push(path);
            proof {
                assert(self.open_paths.deep_view() =~= prev.push(path@));
            }
        }
        newly
    }

    /// Removes `path` from the open set, exactly as [`spec_close`] says;
    /// the reply is true when the path had been open. The recent history
    /// keeps the path.
    pub fn close(&mut self, path: &String) -> (was_open: bool)
        ensures
            final(self)@ == spec_close(old(self)@, path@).0,
            was_open == spec_close(old(self)@, path@).1,
    {
        let was_open = contains_path(&self.open_paths, path);
        self.open_paths = without_path(&self.open_paths, path);
        was_open
    }

    /// Strips `file` from the recent history, exactly as
    /// [`spec_remove_recent`] says.
    pub fn remove_recent(&mut self, file: &String)
        ensures
            final(self)@ == spec_remove_recent(old(self)@, file@),
    {
        self.recent_paths = without_path(&self.recent_paths, file);
    }
}

/// The operations keep both lists duplicate-free.
pub proof fn lemma_ops_preserve_wf(s: SettingsV, p: Seq<char>)
    requires
        wf_settings(s),
    ensures
        wf_settings(spec_open(s, p).0),
        wf_settings(spec_close(s, p).0),
        wf_settings(spec_remove_recent(s, p)),
{
    lemma_remove_path(s.open_paths, p);
    lemma_remove_path(s.recent_paths, p);
    let opened = spec_open(s, p).0;
    if !s.open_paths.contains(p) {
        assert forall|i: int, k: int|
            0 <= i < k < opened.open_paths.len() implies opened.open_paths[i]
            != opened.open_paths[k] by {
            if k == s.open_paths.len() {
                assert(s.open_paths.contains(s.open_paths[i]));
            }
        }
    }
    let stripped = remove_path(s.recent_paths, p);
    assert forall|i: int, k: int|
        0 <= i < k < opened.recent_paths.len() implies opened.recent_paths[i]
        != opened.recent_paths[k] by {
        if i == 0 {
            assert(opened.recent_paths[k] == stripped[k - 1]);
            assert(stripped.contains(stripped[k - 1]));
        } else {
            assert(opened.recent_paths[i] == stripped[i - 1]);
            assert(opened.recent_paths[k] == stripped[k - 1]);
        }
    }
}

/// Opening a path twice reports a new open the first time only, and the
/// recent history then holds the path exactly once, at the front.
pub proof fn lemma_open_twice(s: SettingsV, p: Seq<char>)
    requires
        !s.open_paths.contains(p),
    ensures
        spec_open(s, p).1 == true,
        spec_open(spec_open(s, p).0, p).1 == false,
        spec_open(spec_open(s, p).0, p).0.recent_paths.len() >= 1,
        spec_open(spec_open(s, p).0, p).0.recent_paths[0] == p,
        forall|i: int|
            1 <= i < spec_open(spec_open(s, p).0, p).0.recent_paths.len() ==> spec_open(
                spec_open(s, p).0,
                p,
            ).0.recent_paths[i] != p,
{
    let s1 = spec_open(s, p).0;
    assert(s1.open_paths[s.open_paths.len() as int] == p);
    assert(s1.open_paths.contains(p));
    let stripped = remove_path(s1.recent_paths, p);
    lemma_remove_path(s1.recent_paths, p);
    let s2 = spec_open(s1, p).0;
    assert forall|i: int| 1 <= i < s2.recent_paths.len() implies s2.recent_paths[i] != p by {
        assert(s2.recent_paths[i] == stripped[i - 1]);
        assert(stripped.contains(stripped[i - 1]));
    }
}

/// Closing a path that is not open reports so and changes nothing.
pub proof fn lemma_close_not_open(s: SettingsV, p: Seq<char>)
    requires
        !s.open_paths.contains(p),
    ensures
        spec_close(s, p).1 == false,
        spec_close(s, p).0 == s,
{
    lemma_remove_path(s.open_paths, p);
}

/// The JSON document persisted settings take: the open set under `open`,
/// the recent history under `recent`, both as arrays of path strings.
pub open spec fn settings_jsonv(s: SettingsV) -> JsonV {
    JsonV::Obj(
        seq![
            ("open"@, JsonV::Arr(s.open_paths.map_values(|p: Seq<char>| JsonV::Str(p)))),
            ("recent"@, JsonV::Arr(s.recent_paths.map_values(|p: Seq<char>| JsonV::Str(p)))),
        ],
    )
}

/// The string items of a JSON array, when every item is a string.
pub open spec fn spec_str_items(items: Seq<JsonV>) -> Option<Seq<Seq<char>>>
    decreases items.len(),
{
    if items.len() == 0 {
        Some(Seq::empty())
    } else {
        match (items[0], spec_str_items(items.drop_first())) {
            (JsonV::Str(s), Some(rest)) => Some(seq![s] + rest),
            _ => None,
        }
    }
}

/// One member of the settings document: an array of strings gives its
/// paths; a missing member, or one of any other shape, gives none.
pub open spec fn spec_paths_member(doc: Seq<(Seq<char>, JsonV)>, key: Seq<char>) -> Seq<
    Seq<char>,
> {
    match spec_obj_get(doc, key) {
        Some(JsonV::Arr(items)) => match spec_str_items(items) {
            Some(paths) => paths,
            None => Seq::empty(),
        },
        _ => Seq::empty(),
    }
}

/// The settings a parsed document yields: each list member contributes
/// its paths, first occurrence of each path kept; a document that is no
/// object yields the empty state.
pub open spec fn settings_of_json(v: JsonV) -> SettingsV {
    match v {
        JsonV::Obj(doc) => SettingsV {
            open_paths: dedup_first(spec_paths_member(doc, "open"@)),
            recent_paths: dedup_first(spec_paths_member(doc, "recent"@)),
        },
        _ => SettingsV { open_paths: Seq::empty(), recent_paths: Seq::empty() },
    }
}

/// The settings a settings file yields: an absent or unparsable file
/// yields the empty state.
pub open spec fn spec_load(content: Option<Seq<u8>>) -> SettingsV {
    match content {
        Some(bytes) => match json_of(bytes) {
            Some(v) => settings_of_json(v),
            None => SettingsV { open_paths: Seq::empty(), recent_paths: Seq::empty() },
        },
        None => SettingsV { open_paths: Seq::empty(), recent_paths: Seq::empty() },
    }
}

fn paths_to_json(v: &Vec<String>) -> (r: Json)
    ensures
        jview(r) == JsonV::Arr(v.deep_view().map_values(|p: Seq<char>| JsonV::Str(p))),
{
    let mut items: Vec<Json> = Vec::new();
    let mut i: usize = 0;
    while i < v.len()
        invariant
            i <= v.len(),
            items@.len() == i as int,
            forall|k: int|
                0 <= k < i as int ==> jview(#[trigger] items@[k]) == JsonV::Str(
                    v.deep_view()[k],
                ),
        decreases v.len() - i,
    {
        proof {
            assert(v.deep_view()[i as int] == v@[i as int]@);
        }
        items.push(Json::Str(v[i].clone()));
        i = i + 1;
    }
    proof {
        lemma_jview_list(items@);
        assert(jview_list(items@) =~= v.deep_view().map_values(|p: Seq<char>| JsonV::Str(p)));
    }
    Json::Arr(items)
}

/// The settings document always prints back to itself: it holds no
/// numbers and its member names are strictly ordered.
proof fn lemma_depth_list_of_strs(items: Seq<JsonV>)
    requires
        forall|i: int| 0 <= i < items.len() ==> (#[trigger] items[i]) is Str,
    ensures
        depth_list(items) == 0,
    decreases items.len(),
{
    if items.len() > 0 {
        assert forall|i: int|
            0 <= i < items.drop_first().len() implies (#[trigger] items.drop_first()[i])
            is Str by {
            assert(items.drop_first()[i] == items[i + 1]);
        }
        lemma_depth_list_of_strs(items.drop_first());
        assert(items[0] is Str);
        assert(json_depth(items[0]) == 0);
    }
}

/// The settings document always prints back to itself: it holds no
/// numbers, its member names are strictly ordered, and its containers
/// nest two deep.
pub proof fn lemma_settings_jsonv_canonical(s: SettingsV)
    ensures
        canonical_json(settings_jsonv(s)),
        json_depth(settings_jsonv(s)) == 2,
{
    let open_items = s.open_paths.map_values(|p: Seq<char>| JsonV::Str(p));
    let recent_items = s.recent_paths.map_values(|p: Seq<char>| JsonV::Str(p));
    assert forall|i: int| 0 <= i < open_items.len() implies canonical_json(
        #[trigger] open_items[i],
    ) by {
        assert(open_items[i] == JsonV::Str(s.open_paths[i]));
    }
    assert forall|i: int| 0 <= i < recent_items.len() implies canonical_json(
        #[trigger] recent_items[i],
    ) by {
        assert(recent_items[i] == JsonV::Str(s.recent_paths[i]));
    }
    assert(canonical_json(JsonV::Arr(open_items)));
    assert(canonical_json(JsonV::Arr(recent_items)));
    reveal_strlit("open");
    reveal_strlit("recent");
    assert(chars_lt("open"@, "recent"@)) by {
        assert("open"@[0] == 'o');
        assert("recent"@[0] == 'r');
        assert(('o' as int) < ('r' as int));
    }
    let fields = seq![("open"@, JsonV::Arr(open_items)), ("recent"@, JsonV::Arr(recent_items))];
    assert forall|i: int| 0 <= i < fields.len() implies canonical_json(
        #[trigger] fields[i].1,
    ) by {
        if i == 0 {
            assert(fields[0].1 == JsonV::Arr(open_items));
        } else {
            assert(fields[1].1 == JsonV::Arr(recent_items));
        }
    }
    assert forall|i: int, k: int| 0 <= i < k < fields.len() implies chars_lt(
        #[trigger] fields[i].0,
        #[trigger] fields[k].0,
    ) by {
        assert(i == 0 && k == 1);
    }
    lemma_depth_list_of_strs(open_items);
    lemma_depth_list_of_strs(recent_items);
    assert(json_depth(JsonV::Arr(open_items)) == 1);
    assert(json_depth(JsonV::Arr(recent_items)) == 1);
    assert(fields[0].1 == JsonV::Arr(open_items));
    assert(fields[1].1 == JsonV::Arr(recent_items));
    assert(fields.drop_first()[0] == fields[1]);
    assert(fields.drop_first().drop_first().len() == 0);
    assert(depth_members(fields.drop_first().drop_first()) == 0);
    assert(depth_members(fields.drop_first()) == 1);
    assert(depth_members(fields) == 1);
}

impl Settings {
    /// Prints the settings document; what it prints parses back to
    /// exactly [`settings_jsonv`] of this state.
    pub fn save(&self) -> (r: Vec<u8>)
        ensures
            json_of(r@) == Some(settings_jsonv(self@)),
    {
        let open_json = paths_to_json(&self.open_paths);
        let recent_json = paths_to_json(&self.recent_paths);
        let mut members: Vec<(String, Json)> = Vec::new();
        members.push(("open".to_owned(), open_json));
        members.push(("recent".to_owned(), recent_json));
        let doc = Json::Obj(members);
        proof {
            lemma_jview_members(members@);
            assert(jview_members(members@) =~= settings_jsonv(self@)->Obj_0);
            assert(jview(doc) == settings_jsonv(self@));
            lemma_settings_jsonv_canonical(self@);
        }
        print_json(&doc)
    }
}

fn json_str_items(items: &Vec<Json>) -> (r: Option<Vec<String>>)
    ensures
        match r {
            Some(v) => spec_str_items(jview_list(items@)) == Some(v.deep_view()),
            None => spec_str_items(jview_list(items@)) is None,
        },
{
    let ghost lv = jview_list(items@);
    let mut out: Vec<String> = Vec::new();
    proof {
        lemma_jview_list(items@);
        assert(lv.skip(0) =~= lv);
        assert(out.deep_view() =~= Seq::<Seq<char>>::empty());
    }
    let mut i: usize = 0;
    while i < items.len()
        invariant
            i <= items.len(),
            lv == jview_list(items@),
            lv.len() == items@.len(),
            forall|k: int| 0 <= k < items@.len() ==> #[trigger] lv[k] == jview(items@[k]),
            match spec_str_items(lv.skip(i as int)) {
                Some(rest) => spec_str_items(lv) == Some(out.deep_view() + rest),
                None => spec_str_items(lv) is None,
            },
        decreases items.len() - i,
    {
        proof {
            assert(lv.skip(i as int)[0] == lv[i as int]);
            assert(lv.skip(i as int).drop_first() =~= lv.skip(i as int + 1));
        }
        match &items[i] {
            Json::Str(s) => {
                let ghost prev = out.deep_view();
                out.push(s.clone());
                proof {
                    assert(out.deep_view() =~= prev.push(s@));
                    if spec_str_items(lv.skip(i as int + 1)) is Some {
                        let rest = spec_str_items(lv.skip(i as int + 1))->Some_0;
                        assert((prev + (seq![s@] + rest)) =~= (prev.push(s@) + rest));
                    }
                }
            },
            _ => {
                return None;
            },
        }
        i = i + 1;
    }
    proof {
        assert(lv.skip(items@.len() as int).len() == 0);
        assert(out.deep_view() + Seq::<Seq<char>>::empty() =~= out.deep_view());
    }
    Some(out)
}

fn dedup_paths(v: &Vec<String>) -> (r: Vec<String>)
    ensures
        r.deep_view() == dedup_first(v.deep_view()),
{
    let ghost dv = v.deep_view();
    let mut out: Vec<String> = Vec::new();
    proof {
        assert(dv.take(0).len() == 0);
        assert(out.deep_view() =~= dedup_first(dv.take(0)));
    }
    let mut i: usize = 0;
    while i < v.len()
        invariant
            i <= v.len(),
            dv == v.deep_view(),
            out.deep_view() == dedup_first(dv.take(i as int)),
        decreases v.len() - i,
    {
        proof {
            assert(dv.take(i as int + 1).drop_last() =~= dv.take(i as int));
            assert(dv.take(i as int + 1).last() == dv[i as int]);
            assert(dv[i as int] == v@[i as int]@);
            lemma_dedup_first(dv.take(i as int));
        }
        let present = contains_path(&out, &v[i]);
        if !present {
            let ghost prev = out.deep_view();
            out.push(v[i].clone());
            proof {
                assert(out.deep_view() =~= prev.push(dv[i as int]));
                assert(prev.push(dv[i as int]) =~= prev + seq![dv[i as int]]);
            }
        }
        i = i + 1;
    }
    proof {
        assert(dv.take(v@.len() as int) =~= dv);
    }
    out
}

fn member_paths(doc: &Vec<(String, Json)>, key: &String) -> (r: Vec<String>)
    ensures
        r.deep_view() == spec_paths_member(jview_members(doc@), key@),
{
    match obj_get(doc, key) {
        Some(Json::Arr(items)) => match json_str_items(items) {
            Some(v) => v,
            None => {
                let out: Vec<String> = Vec::new();
                proof {
                    assert(out.deep_view() =~= Seq::<Seq<char>>::empty());
                }
                out
            },
        },
        _ => {
            let out: Vec<String> = Vec::new();
            proof {
                assert(out.deep_view() =~= Seq::<Seq<char>>::empty());
            }
            out
        },
    }
}

impl Settings {
    /// Decodes a settings file's bytes, exactly as [`spec_load`] says: an
    /// absent or unparsable file yields the empty state, and each list
    /// keeps the first occurrence of every path.
    pub fn load(content: Option<Vec<u8>>) -> (s: Settings)
        ensures
            s@ == spec_load(content.deep_view()),
            s.wf(),
    {
        let parsed: Option<Json> = match &content {
            Some(b) => {
                proof {
                    assert(b.deep_view() =~= b@);
                }
                parse_json(b.as_slice())
            },
            None => None,
        };
        let doc: Vec<(String, Json)> = match parsed {
            Some(Json::Obj(doc)) => doc,
            _ => {
                let s = Settings { open_paths: Vec::new(), recent_paths: Vec::new() };
                proof {
                    assert(s@.open_paths =~= Seq::<Seq<char>>::empty());
                    assert(s@.recent_paths =~= Seq::<Seq<char>>::empty());
                }
                return s;
            },
        };
        let k_open: String = "open".to_owned();
        let k_recent: String = "recent".to_owned();
        let open_list = member_paths(&doc, &k_open);
        let recent_list = member_paths(&doc, &k_recent);
        let s = Settings {
            open_paths: dedup_paths(&open_list),
            recent_paths: dedup_paths(&recent_list),
        };
        proof {
            lemma_dedup_first(open_list.deep_view());
            lemma_dedup_first(recent_list.deep_view());
        }
        s
    }
}

/// An array built of path strings yields those paths back.
pub proof fn lemma_str_items_of_strs(paths: Seq<Seq<char>>)
    ensures
        spec_str_items(paths.map_values(|p: Seq<char>| JsonV::Str(p))) == Some(paths),
    decreases paths.len(),
{
    let mapped = paths.map_values(|p: Seq<char>| JsonV::Str(p));
    if paths.len() == 0 {
        assert(mapped.len() == 0);
        assert(spec_str_items(mapped) == Some(Seq::<Seq<char>>::empty()));
        assert(Seq::<Seq<char>>::empty() =~= paths);
    } else {
        lemma_str_items_of_strs(paths.drop_first());
        assert(mapped.drop_first() =~= paths.drop_first().map_values(
            |p: Seq<char>| JsonV::Str(p),
        ));
        assert(mapped[0] == JsonV::Str(paths[0]));
        assert(seq![paths[0]] + paths.drop_first() =~= paths);
    }
}

/// Saving then loading reproduces the session state: for duplicate-free
/// settings, the saved document decodes back to the very same open set
/// and recent history, order kept.
pub proof fn lemma_settings_round_trip(s: SettingsV)
    requires
        wf_settings(s),
    ensures
        settings_of_json(settings_jsonv(s)) == s,
{
    let open_items = s.open_paths.map_values(|p: Seq<char>| JsonV::Str(p));
    let recent_items = s.recent_paths.map_values(|p: Seq<char>| JsonV::Str(p));
    let fields = seq![("open"@, JsonV::Arr(open_items)), ("recent"@, JsonV::Arr(recent_items))];
    reveal_strlit("open");
    reveal_strlit("recent");
    assert("open"@.len() != "recent"@.len());
    assert(spec_obj_get(fields, "open"@) == Some(JsonV::Arr(open_items)));
    assert(fields[0].0 != "recent"@);
    assert(spec_obj_get(fields, "recent"@) == spec_obj_get(fields.drop_first(), "recent"@));
    assert(fields.drop_first()[0] == fields[1]);
    assert(fields.drop_first().len() == 1);
    assert(spec_obj_get(fields.drop_first(), "recent"@) == Some(JsonV::Arr(recent_items)));
    lemma_str_items_of_strs(s.open_paths);
    lemma_str_items_of_strs(s.recent_paths);
    lemma_dedup_first(s.open_paths);
    lemma_dedup_first(s.recent_paths);
}

/// What `save` prints, `load` brings back: a file holding the saved
/// document of duplicate-free settings loads to the very same state.
pub proof fn lemma_load_of_saved(s: SettingsV, bytes: Seq<u8>)
    requires
        wf_settings(s),
        json_of(bytes) == Some(settings_jsonv(s)),
    ensures
        spec_load(Some(bytes)) == s,
{
    lemma_settings_round_trip(s);
}

/// Where the settings live: a platform configuration directory resolved
/// by the host, or a local fallback directory.
#[derive(Debug)]
pub enum Dirs {
    /// A platform-resolved configuration directory.
    Proj(String),
    /// No platform convention: a directory next to the working directory.
    FromBase,
}

/// The local fallback directory.
pub fn default_local_path() -> (r: String)
    ensures
        r@ == ".log-view-settings/"@,
{
    ".log-view-settings/".to_owned()
}

pub open spec fn spec_config_dir(d: Dirs) -> Seq<char> {
    match d {
        Dirs::Proj(p) => p@,
        Dirs::FromBase => ".log-view-settings/"@ + "config"@,
    }
}

impl Default for Dirs {
    fn default() -> (r: Self)
        ensures
            r == Dirs::FromBase,
    {
        Dirs::FromBase
    }
}

impl Dirs {
    /// The configuration directory: the platform's, or `config` under the
    /// local fallback.
    pub fn config_dir(&self) -> (r: String)
        ensures
            r@ == spec_config_dir(*self),
    {
        match self {
            Dirs::Proj(p) => p.clone(),
            Dirs::FromBase => default_local_path().concat("config"),
        }
    }

    /// The settings file inside the configuration directory.
    pub fn settings_file(&self) -> (r: String)
        ensures
            r@ == spec_config_dir(*self) + "/settings.json"@,
    {
        self.config_dir().concat("/settings.json")
    }
}

} // verus!

