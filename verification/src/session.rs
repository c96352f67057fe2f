//! The live session: every open path with its parse cache, backed by the
//! persisted settings, and the operations the host drives it with.

use vstd::prelude::*;

use crate::log_read::LogState;
use crate::log_read::LogStateV;
use crate::log_read::Record;
use crate::log_read::RecordV;
use crate::log_read::spec_compute;
use crate::settings::Settings;
use crate::settings::SettingsV;
use crate::settings::distinct;
use crate::settings::lemma_ops_preserve_wf;
use crate::settings::lemma_remove_path;
use crate::settings::remove_path;
use crate::settings::spec_close;
use crate::settings::spec_open;
use crate::settings::spec_remove_recent;
use crate::settings::wf_settings;

verus! {

broadcast use vstd::std_specs::vec::group_vec_axioms;

/// The live session: each open path with its cache, and the settings
/// that persist the bookkeeping.
pub struct AppState {
    open_files: Vec<(String, LogState)>,
    settings: Settings,
}

#[verifier::ext_equal]
pub struct AppStateV {
    pub open_files: Seq<(Seq<char>, LogStateV)>,
    pub settings: SettingsV,
}

pub open spec fn files_view(s: Seq<(String, LogState)>) -> Seq<(Seq<char>, LogStateV)> {
    Seq::new(s.len(), |i: int| (s[i].0@, s[i].1@))
}

impl View for AppState {
    type V = AppStateV;

    closed spec fn view(&self) -> AppStateV {
        AppStateV { open_files: files_view(self.open_files@), settings: self.settings@ }
    }
}

/// The paths of the cached files, in order.
pub open spec fn keys_of(files: Seq<(Seq<char>, LogStateV)>) -> Seq<Seq<char>> {
    files.map_values(|e: (Seq<char>, LogStateV)| e.0)
}

/// The session invariant: the settings lists are duplicate-free and the
/// open set is exactly the cached files' paths, in order.
pub open spec fn wf_app(st: AppStateV) -> bool {
    wf_settings(st.settings) && keys_of(st.open_files) == st.settings.open_paths
}

/// A fresh cache bound to `p`, nothing computed yet.
pub open spec fn fresh_cache(p: Seq<char>) -> LogStateV {
    LogStateV { file: Some(p), cached: None }
}

/// The session after opening `p`: the settings move as
/// [`spec_open`] says, and a newly opened path gains a fresh cache.
pub open spec fn app_open(st: AppStateV, p: Seq<char>) -> AppStateV {
    let newly = spec_open(st.settings, p).1;
    AppStateV {
        open_files: if newly {
            st.open_files.push((p, fresh_cache(p)))
        } else {
            st.open_files
        },
        settings: spec_open(st.settings, p).0,
    }
}

/// The file list with the first entry for `p` dropped.
pub open spec fn remove_first_file(files: Seq<(Seq<char>, LogStateV)>, p: Seq<char>) -> Seq<
    (Seq<char>, LogStateV),
>
    decreases files.len(),
{
    if files.len() == 0 {
        Seq::empty()
    } else if files[0].0 == p {
        files.drop_first()
    } else {
        seq![files[0]] + remove_first_file(files.drop_first(), p)
    }
}

/// The session after closing `p`: its cache, if any, is dropped, and the
/// settings move as [`spec_close`] says; the history keeps the path.
pub open spec fn app_close(st: AppStateV, p: Seq<char>) -> AppStateV {
    AppStateV {
        open_files: remove_first_file(st.open_files, p),
        settings: spec_close(st.settings, p).0,
    }
}

/// The session after forgetting `p`: closed, and stripped from the
/// recent history.
pub open spec fn app_remove_recent(st: AppStateV, p: Seq<char>) -> AppStateV {
    let closed = app_close(st, p);
    AppStateV {
        open_files: closed.open_files,
        settings: spec_remove_recent(closed.settings, p),
    }
}

/// The place of the first entry for `p`, or the list's length.
pub open spec fn key_index(files: Seq<(Seq<char>, LogStateV)>, p: Seq<char>) -> int
    decreases files.len(),
{
    if files.len() == 0 {
        0
    } else if files[0].0 == p {
        0
    } else {
        1 + key_index(files.drop_first(), p)
    }
}

/// The session after a demand for `p`'s records, and its reply. A path
/// that is not open yields nothing and changes nothing. An open path has
/// its recency bumped as by an open, its cache filled on first demand
/// from `content`, and its cached records handed back.
pub open spec fn app_get(st: AppStateV, p: Seq<char>, content: Option<Seq<u8>>) -> (
    AppStateV,
    Option<Seq<RecordV>>,
) {
    if !keys_of(st.open_files).contains(p) {
        (st, None)
    } else {
        let i = key_index(st.open_files, p);
        let cache = spec_compute(st.open_files[i].1, content);
        let st2 = AppStateV {
            open_files: st.open_files.update(i, (st.open_files[i].0, cache)),
            settings: spec_open(st.settings, p).0,
        };
        let reply = match cache.cached {
            Some(Some(rs)) => Some(rs),
            _ => None,
        };
        (st2, reply)
    }
}

fn find_key(files: &Vec<(String, LogState)>, p: &String) -> (r: Option<usize>)
    ensures
        match r {
            Some(i) => {
                &&& (i as int) < files@.len()
                &&& files_view(files@)[i as int].0 == p@
                &&& key_index(files_view(files@), p@) == i as int
                &&& keys_of(files_view(files@)).contains(p@)
                &&& forall|k: int| 0 <= k < i as int ==> files_view(files@)[k].0 != p@
            },
            None => !keys_of(files_view(files@)).contains(p@),
        },
{
    let ghost fv = files_view(files@);
    proof {
        assert(fv.skip(0) =~= fv);
    }
    let mut i: usize = 0;
    while i < files.len()
        invariant
            i <= files.len(),
            fv == files_view(files@),
            forall|k: int| 0 <= k < i as int ==> fv[k].0 != p@,
            key_index(fv, p@) == i as int + key_index(fv.skip(i as int), p@),
        decreases files.len() - i,
    {
        proof {
            assert(fv.skip(i as int)[0] == fv[i as int]);
            assert(fv.skip(i as int).drop_first() =~= fv.skip(i as int + 1));
        }
        if files[i].0 == *p {
            proof {
                assert(keys_of(fv)[i as int] == p@);
            }
            return Some(i);
        }
        i = i + 1;
    }
    proof {
        assert(fv.skip(files@.len() as int).len() == 0);
        if keys_of(fv).contains(p@) {
            let k = choose|k: int| 0 <= k < keys_of(fv).len() && keys_of(fv)[k] == p@;
            assert(fv[k].0 != p@);
        }
    }
    None
}

fn clone_paths(v: &Vec<String>) -> (r: Vec<String>)
    ensures
        r.deep_view() == v.deep_view(),
{
    let mut out: Vec<String> = Vec::new();
    let mut i: usize = 0;
    while i < v.len()
        invariant
            i <= v.len(),
            out@.len() == i as int,
            forall|k: int| 0 <= k < i as int ==> #[trigger] out@[k]@ == v@[k]@,
        decreases v.len() - i,
    {
        out.push(v[i].clone());
        i = i + 1;
    }
    proof {
        assert(out.deep_view() =~= v.deep_view());
    }
    out
}

fn clone_records(v: &Vec<Record>) -> (r: Vec<Record>)
    ensures
        r.deep_view() == v.deep_view(),
{
    let mut out: Vec<Record> = Vec::new();
    let mut i: usize = 0;
    while i < v.len()
        invariant
            i <= v.len(),
            out@.len() == i as int,
            forall|k: int| 0 <= k < i as int ==> #[trigger] out@[k]@ == v@[k]@,
        decreases v.len() - i,
    {
        out.push(v[i].clone());
        i = i + 1;
    }
    proof {
        assert(out.deep_view() =~= v.deep_view());
    }
    out
}

impl AppState {
    /// The session invariant holds.
    pub open spec fn wf(&self) -> bool {
        wf_app(self@)
    }

    /// A fresh session around loaded settings: every open path gets a
    /// fresh cache bound to it, in order.
    pub fn from_settings(settings: Settings) -> (r: AppState)
        ensures
            r@.settings == settings@,
            keys_of(r@.open_files) == settings@.open_paths,
            forall|i: int|
                0 <= i < r@.open_files.len() ==> #[trigger] r@.open_files[i].1 == fresh_cache(
                    r@.open_files[i].0,
                ),
            settings.wf() ==> r.wf(),
    {
        let mut files: Vec<(String, LogState)> = Vec::new();
        let mut i: usize = 0;
        while i < settings.open_paths.len()
            invariant
                i <= settings.open_paths.len(),
                files@.len() == i as int,
                forall|k: int|
                    0 <= k < i as int ==> (#[trigger] files@[k]).0@ == settings@.open_paths[k]
                        && files@[k].1@ == fresh_cache(settings@.open_paths[k]),
            decreases settings.open_paths.len() - i,
        {
            proof {
                assert(settings@.open_paths[i as int] == settings.open_paths@[i as int]@);
            }
            let path = settings.open_paths[i].clone();
            let mut cache = LogState::default();
            cache.set_file(path.clone());
            proof {
                assert(cache@ =~= fresh_cache(path@));
            }
            files.push((path, cache));
            i = i + 1;
        }
        let r = AppState { open_files: files, settings };
        proof {
            assert(keys_of(r@.open_files) =~= r@.settings.open_paths);
        }
        r
    }

    /// Marks `file` open, exactly as [`app_open`] says: the path moves to
    /// the front of the recent history, and a newly opened path gains a
    /// fresh cache. The reply is true when the path was not already open.
    pub fn open(&mut self, file: String) -> (newly: bool)
        ensures
            final(self)@ == app_open(old(self)@, file@),
            newly == spec_open(old(self)@.settings, file@).1,
    {
        let ghost st0 = self@;
        let newly = self.settings.open(file.clone());
        if newly {
            let mut cache = LogState::default();
            cache.set_file(file.clone());
            proof {
                assert(cache@ =~= fresh_cache(file@));
            }
            let ghost prev = files_view(self.open_files@);
            self.open_files.push((file, cache));
            proof {
                assert(files_view(self.open_files@) =~= prev.push((file@, fresh_cache(file@))));
            }
        }
        proof {
            assert(self@ =~= app_open(st0, file@));
        }
        newly
    }

    /// Removes `file` from the open set and drops its cache, exactly as
    /// [`app_close`] says; the reply says whether it had been open. The
    /// recent history keeps the path.
    pub fn close(&mut self, file: &String) -> (was_open: bool)
        ensures
            final(self)@ == app_close(old(self)@, file@),
            was_open == spec_close(old(self)@.settings, file@).1,
    {
        let ghost st0 = self@;
        let ghost fv = files_view(self.open_files@);
        let found = find_key(&self.open_files, file);
        let was_open = self.settings.close(file);
        match found {
            Some(i) => {
                proof {
                    lemma_remove_first_at(fv, file@, i as int);
                }
                self.open_files.remove(i);
                proof {
                    assert(files_view(self.open_files@) =~= remove_first_file(fv, file@));
                    assert(self@ =~= app_close(st0, file@));
                }
            },
            None => {
                proof {
                    assert forall|k: int| 0 <= k < fv.len() implies fv[k].0 != file@ by {
                        assert(keys_of(fv)[k] == fv[k].0);
                    }
                    lemma_remove_first_absent(fv, file@);
                    assert(self@ =~= app_close(st0, file@));
                }
            },
        }
        was_open
    }

    /// Forgets `file`: closes it and strips it from the recent history,
    /// exactly as [`app_remove_recent`] says.
    pub fn remove_recent(&mut self, file: &String)
        ensures
            final(self)@ == app_remove_recent(old(self)@, file@),
    {
        let _ = self.close(file);
        self.settings.remove_recent(file);
    }

    /// Answers a demand for `file`'s records, exactly as [`app_get`]
    /// says: nothing for a path that is not open; for an open path, a
    /// recency bump, the cache filled on first demand from `content`,
    /// and a copy of its records.
    pub fn get(&mut self, file: &String, content: Option<Vec<u8>>) -> (r: Option<Vec<Record>>)
        ensures
            final(self)@ == app_get(old(self)@, file@, content.deep_view()).0,
            r.deep_view() == app_get(old(self)@, file@, content.deep_view()).1,
    {
        let ghost st0 = self@;
        let ghost fv = files_view(self.open_files@);
        match find_key(&self.open_files, file) {
            None => None,
            Some(i) => {
                let newly = self.settings.open(file.clone());
                let mut entry = self.open_files.remove(i);
                entry.1.compute(content);
                let reply = match entry.1.data() {
                    Some(v) => {
                        let copied = clone_records(v);
                        proof {
                            assert(copied.deep_view() == v.deep_view());
                        }
                        Some(copied)
                    },
                    None => None,
                };
                let ghost entry_v = (entry.0@, entry.1@);
                self.open_files.insert(i, entry);
                proof {
                    assert(files_view(self.open_files@) =~= fv.update(i as int, entry_v));
                    assert(self@ =~= app_get(st0, file@, content.deep_view()).0);
                }
                reply
            },
        }
    }

    /// Whether a demand for `file`'s records would need the file's bytes.
    pub fn needs_read(&self, file: &String) -> (r: bool)
        ensures
            r == {
                let files = self@.open_files;
                &&& keys_of(files).contains(file@)
                &&& files[key_index(files, file@)].1.cached is None
                &&& files[key_index(files, file@)].1.file is Some
            },
    {
        match find_key(&self.open_files, file) {
            Some(i) => {
                let entry = &self.open_files[i];
                entry.1.needs_read()
            },
            None => false,
        }
    }

    /// The currently open paths, in the order they were opened.
    pub fn get_open_files(&self) -> (r: Vec<String>)
        ensures
            r.deep_view() == self@.settings.open_paths,
    {
        clone_paths(&self.settings.open_paths)
    }

    /// The recent history, most recent first.
    pub fn get_recent_files(&self) -> (r: Vec<String>)
        ensures
            r.deep_view() == self@.settings.recent_paths,
    {
        clone_paths(&self.settings.recent_paths)
    }

    /// The settings as they are to be persisted.
    pub fn settings(&self) -> (r: &Settings)
        ensures
            r@ == self@.settings,
    {
        &self.settings
    }
}

proof fn lemma_remove_first_at(fv: Seq<(Seq<char>, LogStateV)>, p: Seq<char>, i: int)
    requires
        0 <= i < fv.len(),
        fv[i].0 == p,
        forall|k: int| 0 <= k < i ==> fv[k].0 != p,
    ensures
        remove_first_file(fv, p) == fv.remove(i),
    decreases i,
{
    if i == 0 {
        assert(remove_first_file(fv, p) == fv.drop_first());
        assert(fv.drop_first() =~= fv.remove(0));
    } else {
        assert forall|k: int| 0 <= k < i - 1 implies fv.drop_first()[k].0 != p by {
            assert(fv.drop_first()[k] == fv[k + 1]);
        }
        assert(fv.drop_first()[i - 1] == fv[i]);
        lemma_remove_first_at(fv.drop_first(), p, i - 1);
        assert(remove_first_file(fv, p) == seq![fv[0]] + fv.drop_first().remove(i - 1));
        assert(seq![fv[0]] + fv.drop_first().remove(i - 1) =~= fv.remove(i));
    }
}

proof fn lemma_remove_first_absent(fv: Seq<(Seq<char>, LogStateV)>, p: Seq<char>)
    requires
        forall|k: int| 0 <= k < fv.len() ==> fv[k].0 != p,
    ensures
        remove_first_file(fv, p) == fv,
    decreases fv.len(),
{
    if fv.len() > 0 {
        assert forall|k: int| 0 <= k < fv.drop_first().len() implies fv.drop_first()[k].0 != p by {
            assert(fv.drop_first()[k] == fv[k + 1]);
        }
        lemma_remove_first_absent(fv.drop_first(), p);
        assert(seq![fv[0]] + fv.drop_first() =~= fv);
    }
}

/// Closing keeps the open set aligned with the cached files: dropping the
/// first cache for `p` drops exactly `p`'s place among the keys.
pub proof fn lemma_keys_remove(files: Seq<(Seq<char>, LogStateV)>, p: Seq<char>)
    requires
        distinct(keys_of(files)),
    ensures
        keys_of(remove_first_file(files, p)) == remove_path(keys_of(files), p),
    decreases files.len(),
{
    let keys = keys_of(files);
    if files.len() == 0 {
        assert(keys_of(remove_first_file(files, p)) =~= remove_path(keys, p));
    } else {
        let tail = files.drop_first();
        assert(keys.drop_first() =~= keys_of(tail));
        assert forall|i: int, k: int|
            0 <= i < k < keys_of(tail).len() implies keys_of(tail)[i] != keys_of(tail)[k] by {
            assert(keys[i + 1] == keys_of(tail)[i] && keys[k + 1] == keys_of(tail)[k]);
        }
        lemma_keys_remove(tail, p);
        if files[0].0 == p {
            lemma_remove_path(keys_of(tail), p);
            if keys_of(tail).contains(p) {
                let m = choose|m: int| 0 <= m < keys_of(tail).len() && keys_of(tail)[m] == p;
                assert(keys[m + 1] == p && keys[0] == p);
            }
            assert(remove_path(keys, p) == remove_path(keys.drop_first(), p));
            assert(keys_of(remove_first_file(files, p)) =~= keys_of(tail));
        } else {
            assert(keys_of(remove_first_file(files, p)) =~= seq![keys[0]] + keys_of(
                remove_first_file(tail, p),
            ));
            assert(remove_path(keys, p) == seq![keys[0]] + remove_path(keys.drop_first(), p));
        }
    }
}

/// The session operations preserve the session invariant.
pub proof fn lemma_app_ops_preserve_wf(st: AppStateV, p: Seq<char>)
    requires
        wf_app(st),
    ensures
        wf_app(app_open(st, p)),
        wf_app(app_close(st, p)),
        wf_app(app_remove_recent(st, p)),
{
    lemma_ops_preserve_wf(st.settings, p);
    if spec_open(st.settings, p).1 {
        assert(keys_of(st.open_files.push((p, fresh_cache(p)))) =~= keys_of(st.open_files).push(
            p,
        ));
    }
    lemma_keys_remove(st.open_files, p);
}

/// A demand for records preserves the session invariant.
pub proof fn lemma_app_get_preserves_wf(st: AppStateV, p: Seq<char>, content: Option<Seq<u8>>)
    requires
        wf_app(st),
    ensures
        wf_app(app_get(st, p, content).0),
{
    lemma_ops_preserve_wf(st.settings, p);
    if keys_of(st.open_files).contains(p) {
        let i = key_index(st.open_files, p);
        lemma_key_index_bounds(st.open_files, p);
        let cache = spec_compute(st.open_files[i].1, content);
        assert(keys_of(st.open_files.update(i, (st.open_files[i].0, cache))) =~= keys_of(
            st.open_files,
        ));
    }
}

/// The first entry for a held path lies within the list and carries it.
pub proof fn lemma_key_index_bounds(files: Seq<(Seq<char>, LogStateV)>, p: Seq<char>)
    ensures
        0 <= key_index(files, p) <= files.len(),
        keys_of(files).contains(p) ==> key_index(files, p) < files.len() && files[key_index(
            files,
            p,
        )].0 == p,
    decreases files.len(),
{
    if files.len() > 0 && files[0].0 != p {
        let tail = files.drop_first();
        assert(keys_of(tail) =~= keys_of(files).drop_first());
        lemma_key_index_bounds(tail, p);
        if keys_of(files).contains(p) {
            let m = choose|m: int| 0 <= m < keys_of(files).len() && keys_of(files)[m] == p;
            assert(keys_of(tail)[m - 1] == p);
            assert(keys_of(tail).contains(p));
            assert(files[1 + key_index(tail, p)] == tail[key_index(tail, p)]);
        }
    }
}

/// Forgetting a path removes it everywhere: afterwards it is neither
/// open, nor cached, nor in the recent history, and a demand for its
/// records yields nothing and changes nothing.
pub proof fn lemma_remove_recent_forgets(st: AppStateV, p: Seq<char>, content: Option<Seq<u8>>)
    requires
        wf_app(st),
    ensures
        !app_remove_recent(st, p).settings.open_paths.contains(p),
        !app_remove_recent(st, p).settings.recent_paths.contains(p),
        !keys_of(app_remove_recent(st, p).open_files).contains(p),
        app_get(app_remove_recent(st, p), p, content).1 is None,
        app_get(app_remove_recent(st, p), p, content).0 == app_remove_recent(st, p),
{
    lemma_app_ops_preserve_wf(st, p);
    lemma_remove_path(st.settings.open_paths, p);
    lemma_remove_path(spec_close(st.settings, p).0.recent_paths, p);
    lemma_keys_remove(st.open_files, p);
}

} // verus!
