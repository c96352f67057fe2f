//! Log records and the per-file parse cache: the shape of one record, the
//! decoding of a JSON value into a record, the splitting of a file's bytes
//! into lines, and the lazily filled [`LogState`] cache.

use vstd::prelude::*;
use vstd::string::StringExecFns;

use crate::json::Json;
use crate::json::JsonV;
use crate::json::json_of;
use crate::json::jview;
use crate::json::jview_members;
use crate::json::obj_get;
use crate::json::clone_members;
use crate::json::parse_json;
use crate::json::spec_obj_get;

verus! {

broadcast use vstd::std_specs::vec::group_vec_axioms;

/// Optional task and process attribution of one record.
#[derive(Debug)]
pub struct RecordExtra {
    pub task_id: Option<String>,
    pub process_id: Option<String>,
}

/// One parsed log line.
#[derive(Debug)]
pub struct Record {
    pub level: String,
    pub target: String,
    pub message: String,
    pub modpath: Option<String>,
    pub file: Option<String>,
    pub line: Option<u32>,
    pub data: Vec<(String, Json)>,
    pub extra: RecordExtra,
}

#[verifier::ext_equal]
pub struct RecordExtraV {
    pub task_id: Option<Seq<char>>,
    pub process_id: Option<Seq<char>>,
}

#[verifier::ext_equal]
pub struct RecordV {
    pub level: Seq<char>,
    pub target: Seq<char>,
    pub message: Seq<char>,
    pub modpath: Option<Seq<char>>,
    pub file: Option<Seq<char>>,
    pub line: Option<u32>,
    pub data: Seq<(Seq<char>, JsonV)>,
    pub extra: RecordExtraV,
}

impl View for RecordExtra {
    type V = RecordExtraV;

    open spec fn view(&self) -> RecordExtraV {
        RecordExtraV {
            task_id: self.task_id.deep_view(),
            process_id: self.process_id.deep_view(),
        }
    }
}

impl DeepView for RecordExtra {
    type V = RecordExtraV;

    open spec fn deep_view(&self) -> RecordExtraV {
        self.view()
    }
}

impl View for Record {
    type V = RecordV;

    open spec fn view(&self) -> RecordV {
        RecordV {
            level: self.level@,
            target: self.target@,
            message: self.message@,
            modpath: self.modpath.deep_view(),
            file: self.file.deep_view(),
            line: self.line,
            data: jview_members(self.data@),
            extra: self.extra@,
        }
    }
}

impl DeepView for Record {
    type V = RecordV;

    open spec fn deep_view(&self) -> RecordV {
        self.view()
    }
}

impl Clone for RecordExtra {
    fn clone(&self) -> (r: Self)
        ensures
            r@ == self@,
    {
        RecordExtra { task_id: self.task_id.clone(), process_id: self.process_id.clone() }
    }
}

impl Clone for Record {
    fn clone(&self) -> (r: Self)
        ensures
            r@ == self@,
    {
        Record {
            level: self.level.clone(),
            target: self.target.clone(),
            message: self.message.clone(),
            modpath: self.modpath.clone(),
            file: self.file.clone(),
            line: self.line,
            data: clone_members(&self.data),
            extra: self.extra.clone(),
        }
    }
}

/// An optional string field: absent or null is nothing, a string is its
/// value, and any other shape refuses the record.
pub open spec fn spec_opt_str(f: Option<JsonV>) -> Option<Option<Seq<char>>> {
    match f {
        None => Some(None),
        Some(JsonV::Null) => Some(None),
        Some(JsonV::Str(s)) => Some(Some(s)),
        Some(_) => None,
    }
}

/// A required string field: anything but a string refuses the record.
pub open spec fn spec_req_str(f: Option<JsonV>) -> Option<Seq<char>> {
    match f {
        Some(JsonV::Str(s)) => Some(s),
        _ => None,
    }
}

/// An optional line-number field: absent or null is nothing; a number is
/// accepted when its unsigned reading fits in 32 bits.
pub open spec fn spec_opt_line(f: Option<JsonV>) -> Option<Option<u32>> {
    match f {
        None => Some(None),
        Some(JsonV::Null) => Some(None),
        Some(JsonV::Num(n, _)) => match n {
            Some(x) => if x <= u32::MAX { Some(Some(x as u32)) } else { None },
            None => None,
        },
        Some(_) => None,
    }
}

/// The attribution sub-record: absent means empty; an object yields its
/// optional string members; any other shape refuses the record.
pub open spec fn spec_extra(f: Option<JsonV>) -> Option<RecordExtraV> {
    match f {
        None => Some(RecordExtraV { task_id: None, process_id: None }),
        Some(JsonV::Obj(fs)) => match (
            spec_opt_str(spec_obj_get(fs, "task_id"@)),
            spec_opt_str(spec_obj_get(fs, "process_id"@)),
        ) {
            (Some(t), Some(p)) => Some(RecordExtraV { task_id: t, process_id: p }),
            _ => None,
        },
        Some(_) => None,
    }
}

/// The record a JSON value decodes to: an object whose `level`, `target`
/// and `message` members are strings, whose source-location members are
/// optional strings and an optional 32-bit line number, whose `data`
/// member is an object, and whose `extra` member, when present, is an
/// object with optional string attribution. Any other shape is refused.
pub open spec fn record_of_json(v: JsonV) -> Option<RecordV> {
    match v {
        JsonV::Obj(fs) => match (
            spec_req_str(spec_obj_get(fs, "level"@)),
            spec_req_str(spec_obj_get(fs, "target"@)),
            spec_req_str(spec_obj_get(fs, "message"@)),
        ) {
            (Some(level), Some(target), Some(message)) => match (
                spec_opt_str(spec_obj_get(fs, "module_"@ + "path"@)),
                spec_opt_str(spec_obj_get(fs, "file"@)),
                spec_opt_line(spec_obj_get(fs, "line"@)),
            ) {
                (Some(modpath), Some(file), Some(line)) => match (
                    spec_obj_get(fs, "data"@),
                    spec_extra(spec_obj_get(fs, "extra"@)),
                ) {
                    (Some(JsonV::Obj(data)), Some(extra)) => Some(
                        RecordV { level, target, message, modpath, file, line, data, extra },
                    ),
                    _ => None,
                },
                _ => None,
            },
            _ => None,
        },
        _ => None,
    }
}

fn get_req_str(fields: &Vec<(String, Json)>, key: &String) -> (r: Option<String>)
    ensures
        match r {
            Some(s) => spec_req_str(spec_obj_get(jview_members(fields@), key@)) == Some(s@),
            None => spec_req_str(spec_obj_get(jview_members(fields@), key@)) is None,
        },
{
    match obj_get(fields, key) {
        Some(Json::Str(s)) => Some(s.clone()),
        _ => None,
    }
}

fn get_opt_str(fields: &Vec<(String, Json)>, key: &String) -> (r: Option<Option<String>>)
    ensures
        match r {
            Some(v) => spec_opt_str(spec_obj_get(jview_members(fields@), key@)) == Some(
                v.deep_view(),
            ),
            None => spec_opt_str(spec_obj_get(jview_members(fields@), key@)) is None,
        },
{
    match obj_get(fields, key) {
        None => Some(None),
        Some(Json::Null) => Some(None),
        Some(Json::Str(s)) => Some(Some(s.clone())),
        Some(_) => None,
    }
}

fn get_opt_line(fields: &Vec<(String, Json)>, key: &String) -> (r: Option<Option<u32>>)
    ensures
        match r {
            Some(v) => spec_opt_line(spec_obj_get(jview_members(fields@), key@)) == Some(v),
            None => spec_opt_line(spec_obj_get(jview_members(fields@), key@)) is None,
        },
{
    match obj_get(fields, key) {
        None => Some(None),
        Some(Json::Null) => Some(None),
        Some(Json::Num(n, _)) => match n {
            Some(x) => {
                if *x <= u32::MAX as u64 {
                    Some(Some(*x as u32))
                } else {
                    None
                }
            },
            None => None,
        },
        Some(_) => None,
    }
}

fn get_extra(fields: &Vec<(String, Json)>, key: &String, k_task: &String, k_proc: &String) -> (r:
    Option<RecordExtra>)
    requires
        k_task@ == "task_id"@,
        k_proc@ == "process_id"@,
    ensures
        match r {
            Some(e) => spec_extra(spec_obj_get(jview_members(fields@), key@)) == Some(e@),
            None => spec_extra(spec_obj_get(jview_members(fields@), key@)) is None,
        },
{
    match obj_get(fields, key) {
        None => Some(RecordExtra { task_id: None, process_id: None }),
        Some(Json::Obj(fs)) => {
            let t = get_opt_str(fs, k_task);
            let p = get_opt_str(fs, k_proc);
            match (t, p) {
                (Some(t), Some(p)) => Some(RecordExtra { task_id: t, process_id: p }),
                _ => None,
            }
        },
        Some(_) => None,
    }
}

/// Decodes one JSON value into a record, exactly as [`record_of_json`]
/// says.
pub fn decode_record(j: Json) -> (r: Option<Record>)
    ensures
        match r {
            Some(rec) => record_of_json(jview(j)) == Some(rec@),
            None => record_of_json(jview(j)) is None,
        },
{
    let fields = match j {
        Json::Obj(fields) => fields,
        _ => {
            return None;
        },
    };
    let k_level: String = "level".to_owned();
    let k_target: String = "target".to_owned();
    let k_message: String = "message".to_owned();
    let k_modpath: String = "module_".to_owned().concat("path");
    let k_file: String = "file".to_owned();
    let k_line: String = "line".to_owned();
    let k_data: String = "data".to_owned();
    let k_extra: String = "extra".to_owned();
    let k_task: String = "task_id".to_owned();
    let k_proc: String = "process_id".to_owned();
    let level = match get_req_str(&fields, &k_level) {
        Some(s) => s,
        None => {
            return None;
        },
    };
    let target = match get_req_str(&fields, &k_target) {
        Some(s) => s,
        None => {
            return None;
        },
    };
    let message = match get_req_str(&fields, &k_message) {
        Some(s) => s,
        None => {
            return None;
        },
    };
    let modpath = match get_opt_str(&fields, &k_modpath) {
        Some(v) => v,
        None => {
            return None;
        },
    };
    let file = match get_opt_str(&fields, &k_file) {
        Some(v) => v,
        None => {
            return None;
        },
    };
    let line = match get_opt_line(&fields, &k_line) {
        Some(v) => v,
        None => {
            return None;
        },
    };
    let data = match obj_get(&fields, &k_data) {
        Some(Json::Obj(d)) => clone_members(d),
        _ => {
            return None;
        },
    };
    let extra = match get_extra(&fields, &k_extra, &k_task, &k_proc) {
        Some(e) => e,
        None => {
            return None;
        },
    };
    Some(Record { level, target, message, modpath, file, line, data, extra })
}

/// The position of the first line feed in `s`, or its length.
pub open spec fn newline_pos(s: Seq<u8>) -> int
    decreases s.len(),
{
    if s.len() == 0 {
        0
    } else if s[0] == 10u8 {
        0
    } else {
        1 + newline_pos(s.drop_first())
    }
}

/// The first line feed lies within the sequence, or just past it.
pub proof fn lemma_newline_pos_bounds(s: Seq<u8>)
    ensures
        0 <= newline_pos(s) <= s.len(),
    decreases s.len(),
{
    if s.len() > 0 && s[0] != 10u8 {
        lemma_newline_pos_bounds(s.drop_first());
    }
}

/// A position with no line feed before it, and one at it or the end
/// behind it, is the first.
pub proof fn lemma_newline_pos_is(s: Seq<u8>, m: int)
    requires
        0 <= m <= s.len(),
        forall|k: int| 0 <= k < m ==> s[k] != 10u8,
        m < s.len() ==> s[m] == 10u8,
    ensures
        newline_pos(s) == m,
    decreases m,
{
    if m > 0 {
        assert(s[0] != 10u8);
        assert forall|k: int| 0 <= k < m - 1 implies s.drop_first()[k] != 10u8 by {
            assert(s.drop_first()[k] == s[k + 1]);
        }
        assert(m - 1 < s.drop_first().len() ==> s.drop_first()[m - 1] == s[m]);
        lemma_newline_pos_is(s.drop_first(), m - 1);
    }
}

/// One line's bytes without a trailing carriage return.
pub open spec fn strip_cr(line: Seq<u8>) -> Seq<u8> {
    if line.len() > 0 && line[line.len() - 1] == 13u8 {
        line.drop_last()
    } else {
        line
    }
}

/// The lines of a byte sequence, split at line feeds; a carriage return
/// before a line feed is dropped, and a final line terminator opens no
/// further empty line.
pub open spec fn split_lines(s: Seq<u8>) -> Seq<Seq<u8>>
    decreases s.len(),
{
    if s.len() == 0 {
        Seq::empty()
    } else {
        proof {
            lemma_newline_pos_bounds(s);
        }
        let p = newline_pos(s);
        if p == s.len() {
            seq![s]
        } else {
            seq![strip_cr(s.take(p))] + split_lines(s.skip(p + 1))
        }
    }
}

fn copy_range(bytes: &Vec<u8>, a: usize, b: usize) -> (r: Vec<u8>)
    requires
        a <= b <= bytes@.len(),
    ensures
        r@ == bytes@.subrange(a as int, b as int),
{
    let mut r: Vec<u8> = Vec::new();
    proof {
        assert(r@ =~= bytes@.subrange(a as int, a as int));
    }
    let mut k: usize = a;
    while k < b
        invariant
            a <= k <= b,
            b <= bytes@.len(),
            r@ == bytes@.subrange(a as int, k as int),
        decreases b - k,
    {
        r.push(bytes[k]);
        proof {
            assert(r@ =~= bytes@.subrange(a as int, k as int + 1));
        }
        k = k + 1;
    }
    r
}

/// Splits a file's bytes into its lines, exactly as [`split_lines`] says.
pub fn split_bytes_lines(bytes: &Vec<u8>) -> (r: Vec<Vec<u8>>)
    ensures
        r.deep_view() == split_lines(bytes@),
{
    let ghost full = bytes@;
    let mut out: Vec<Vec<u8>> = Vec::new();
    proof {
        assert(full.skip(0) =~= full);
        assert(out.deep_view() =~= Seq::<Seq<u8>>::empty());
    }
    let mut pos: usize = 0;
    while pos < bytes.len()
        invariant
            pos <= bytes.len(),
            full == bytes@,
            split_lines(full) =~= out.deep_view() + split_lines(full.skip(pos as int)),
        decreases bytes.len() - pos,
    {
        let mut j: usize = pos;
        while j < bytes.len() && bytes[j] != 10u8
            invariant
                pos <= j <= bytes.len(),
                full == bytes@,
                forall|k: int| pos as int <= k < j as int ==> full[k] != 10u8,
            decreases bytes.len() - j,
        {
            j = j + 1;
        }
        let ghost suffix = full.skip(pos as int);
        proof {
            assert forall|k: int| 0 <= k < j as int - pos as int implies suffix[k] != 10u8 by {
                assert(suffix[k] == full[pos as int + k]);
            }
            lemma_newline_pos_is(suffix, j as int - pos as int);
        }
        let has_nl = j < bytes.len();
        let mut endpoint: usize = j;
        if has_nl && j > pos && bytes[j - 1] == 13u8 {
            endpoint = j - 1;
        }
        let line = copy_range(bytes, pos, endpoint);
        proof {
            if has_nl {
                assert(suffix.take(j as int - pos as int) =~= full.subrange(pos as int, j as int));
                if j > pos && full[j as int - 1] == 13u8 {
                    assert(strip_cr(suffix.take(j as int - pos as int)) =~= full.subrange(
                        pos as int,
                        j as int - 1,
                    ));
                } else {
                    assert(strip_cr(suffix.take(j as int - pos as int)) =~= full.subrange(
                        pos as int,
                        j as int,
                    ));
                }
                assert(suffix.skip(j as int - pos as int + 1) =~= full.skip(j as int + 1));
            } else {
                assert(suffix =~= full.subrange(pos as int, j as int));
                assert(full.skip(j as int).len() == 0);
            }
        }
        let ghost prev = out.deep_view();
        out.push(line);
        proof {
            assert(out.deep_view() =~~= prev.push(line@));
            assert(prev.push(line@) =~= prev + seq![line@]);
        }
        if has_nl {
            pos = j + 1;
        } else {
            pos = j;
        }
    }
    proof {
        assert(full.skip(bytes@.len() as int).len() == 0);
        assert(out.deep_view() + split_lines(full.skip(bytes@.len() as int)) =~= out.deep_view());
    }
    out
}

/// The record one line yields, if the line is a JSON document that decodes
/// as a record.
pub open spec fn line_record(line: Seq<u8>) -> Option<RecordV> {
    match json_of(line) {
        None => None,
        Some(v) => record_of_json(v),
    }
}

/// The records of a sequence of lines, in order; lines that yield no
/// record are skipped.
pub open spec fn lines_records(lines: Seq<Seq<u8>>) -> Seq<RecordV>
    decreases lines.len(),
{
    if lines.len() == 0 {
        Seq::empty()
    } else {
        let head = match line_record(lines[0]) {
            Some(r) => seq![r],
            None => Seq::<RecordV>::empty(),
        };
        head + lines_records(lines.drop_first())
    }
}

/// Every record of a log file's bytes, in file order: each line that
/// decodes as a record contributes it, every other line is dropped.
pub open spec fn records_of(content: Seq<u8>) -> Seq<RecordV> {
    lines_records(split_lines(content))
}

/// Parses a file's bytes into its records, exactly as [`records_of`] says.
pub fn parse_records(content: &Vec<u8>) -> (r: Vec<Record>)
    ensures
        r.deep_view() == records_of(content@),
{
    let lines = split_bytes_lines(content);
    let ghost ls = lines.deep_view();
    let mut out: Vec<Record> = Vec::new();
    proof {
        assert(ls.skip(0) =~= ls);
        assert(out.deep_view() =~= Seq::<RecordV>::empty());
    }
    let mut i: usize = 0;
    while i < lines.len()
        invariant
            i <= lines.len(),
            ls == lines.deep_view(),
            ls == split_lines(content@),
            lines_records(ls) =~= out.deep_view() + lines_records(ls.skip(i as int)),
        decreases lines.len() - i,
    {
        proof {
            assert(ls.skip(i as int)[0] == ls[i as int]);
            assert(ls[i as int] == lines@[i as int]@);
            assert(ls.skip(i as int).drop_first() =~= ls.skip(i as int + 1));
        }
        let line = &lines[i];
        let jopt = parse_json(line.as_slice());
        match jopt {
            Some(jv) => match decode_record(jv) {
                Some(rec) => {
                    out.push(rec);
                },
                None => {},
            },
            None => {},
        }
        i = i + 1;
    }
    proof {
        assert(ls.skip(lines@.len() as int).len() == 0);
        assert(out.deep_view() + lines_records(ls.skip(lines@.len() as int)) =~= out.deep_view());
    }
    out
}

/// The per-file cache: the path it stands for, and the at-most-once
/// computed parse result.
#[derive(Debug)]
pub struct LogState {
    file: Option<String>,
    cached: Option<Option<Vec<Record>>>,
}

#[verifier::ext_equal]
pub struct LogStateV {
    pub file: Option<Seq<char>>,
    pub cached: Option<Option<Seq<RecordV>>>,
}

impl View for LogState {
    type V = LogStateV;

    closed spec fn view(&self) -> LogStateV {
        LogStateV { file: self.file.deep_view(), cached: self.cached.deep_view() }
    }
}

/// The cache after one demand. An already computed cache is untouched,
/// whatever was handed in; otherwise the outcome of reading the file —
/// nothing for a missing path or an unreadable file, the file's bytes
/// otherwise — is parsed and filled in, once and for all.
pub open spec fn spec_compute(st: LogStateV, content: Option<Seq<u8>>) -> LogStateV {
    if st.cached is Some {
        st
    } else if st.file is None {
        LogStateV { file: st.file, cached: Some(None) }
    } else {
        match content {
            None => LogStateV { file: st.file, cached: Some(None) },
            Some(bytes) => LogStateV { file: st.file, cached: Some(Some(records_of(bytes))) },
        }
    }
}

impl Default for LogState {
    fn default() -> (r: Self)
        ensures
            r@.file is None,
            r@.cached is None,
    {
        LogState { file: None, cached: None }
    }
}

impl LogState {
    /// Replaces the path and unconditionally discards any computed result.
    pub fn set_file(&mut self, file: String)
        ensures
            final(self)@.file == Some(file@),
            final(self)@.cached is None,
    {
        self.file = Some(file);
        self.cached = None;
    }

    /// Whether a demand for data would need the file's bytes.
    pub fn needs_read(&self) -> (r: bool)
        ensures
            r == (self@.cached is None && self@.file is Some),
    {
        self.cached.is_none() && self.file.is_some()
    }

    /// The path this cache stands for, if one was set.
    pub fn path(&self) -> (r: Option<&String>)
        ensures
            match r {
                Some(p) => self@.file == Some(p@),
                None => self@.file is None,
            },
    {
        self.file.as_ref()
    }

    /// Fills the cache on its first demand, as [`spec_compute`] says;
    /// `content` is the outcome of reading the file and is ignored once a
    /// result is cached.
    pub fn compute(&mut self, content: Option<Vec<u8>>)
        ensures
            final(self)@ == spec_compute(old(self)@, content.deep_view()),
    {
        if self.cached.is_some() {
            return;
        }
        if self.file.is_none() {
            self.cached = Some(None);
            return;
        }
        match content {
            None => {
                self.cached = Some(None);
            },
            Some(bytes) => {
                proof {
                    assert(bytes.deep_view() =~= bytes@);
                }
                let recs = parse_records(&bytes);
                self.cached = Some(Some(recs));
            },
        }
    }

    /// The computed records: nothing when the cache is unfilled or the
    /// file had no data, the parsed records otherwise.
    pub fn data(&self) -> (r: Option<&Vec<Record>>)
        ensures
            match r {
                Some(v) => self@.cached == Some(Some(v.deep_view())),
                None => !(self@.cached matches Some(Some(_))),
            },
    {
        match &self.cached {
            Some(Some(v)) => Some(v),
            _ => None,
        }
    }
}

/// A cache whose path was never set yields no data, whatever the demand
/// handed in.
pub proof fn lemma_unset_no_data(st: LogStateV, content: Option<Seq<u8>>)
    requires
        st.file is None,
        st.cached is None,
    ensures
        spec_compute(st, content).cached == Some(None::<Seq<RecordV>>),
{
}

/// A computed cache is never recomputed: a second demand, with whatever
/// content, leaves the cache exactly as the first demand left it.
pub proof fn lemma_compute_once(st: LogStateV, c1: Option<Seq<u8>>, c2: Option<Seq<u8>>)
    ensures
        spec_compute(spec_compute(st, c1), c2) == spec_compute(st, c1),
{
}

/// Setting a path discards any previous result: a cache freshly bound to
/// `p` answers its next demand from the new read alone, also when that
/// read failed.
pub proof fn lemma_set_file_invalidates(p: Seq<char>, content: Option<Seq<u8>>)
    ensures
        spec_compute(LogStateV { file: Some(p), cached: None }, content).cached == match content {
            None => Some(None::<Seq<RecordV>>),
            Some(bytes) => Some(Some(records_of(bytes))),
        },
{
}

} // verus!
