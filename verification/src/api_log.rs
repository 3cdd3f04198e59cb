//! The log of API calls: one YAML file for every request and its response.
//!
//! Logging is off unless it is switched on, by the configuration or by the
//! environment. A failed write ends the logging of that call and nothing else.
//! No record replaces another: a file whose name is taken gets the next name.

use vstd::prelude::*;
use vstd::string::*;

use crate::clock;
use crate::clock::UtcInstant;
use crate::number;
use crate::number::push_decimal;
use crate::order;
use crate::order::{sort, Ranked};
use crate::text;
use crate::text::{same_text, to_lower_ascii, trimmed};

verus! {

/// A JSON value of the `serde_json` crate, which the log carries as it is.
#[verifier::external_type_specification]
#[verifier::external_body]
pub struct ExValue(serde_json::Value);

/// The environment variable that names the directory of the log.
pub const LOG_DIR_ENV: &'static str = "DEEPSEEK_API_LOG_DIR";

/// The environment variable that switches logging on or off.
pub const LOG_ENABLE_ENV: &'static str = "DEEPSEEK_API_LOG_ENABLE";

/// The number of log files that are kept.
pub const MAX_LOG_FILES: usize = 200;

/// What the log says in place of the body of a streamed response.
pub const STREAM_NOTE: &'static str = "streaming — response body consumed via SSE";

// ---------------------------------------------------------------------------
// Whether and where
// ---------------------------------------------------------------------------

/// The switch that the configuration sets.
pub struct LogSwitch {
    pub enabled: bool,
}

impl LogSwitch {
    /// The switch before anything is set: off.
    pub fn off() -> (r: LogSwitch)
        ensures
            !r.enabled,
    {
        LogSwitch { enabled: false }
    }
}

/// Sets the switch.
pub fn set_enabled(switch: &mut LogSwitch, yes: bool)
    ensures
        final(switch).enabled == yes,
{
    switch.enabled = yes;
}

/// Whether the value of the environment variable switches logging on.
pub open spec fn says_on(value: Seq<char>) -> bool {
    let word = text::lowered(text::trim(value));
    word == "1"@ || word == "true"@ || word == "yes"@ || word == "on"@
}

/// Whether a call is logged: the environment variable decides where it is set,
/// and the switch where it is not.
pub open spec fn logs(variable: Option<Seq<char>>, switch: LogSwitch) -> bool {
    match variable {
        Some(value) => says_on(value),
        None => switch.enabled,
    }
}

/// Whether a call is logged, given the value of the environment variable.
pub fn should_log(variable: Option<&str>, switch: &LogSwitch) -> (r: bool)
    ensures
        r == logs(text::opt_str(variable), *switch),
{
    match variable {
        Some(value) => {
            let word = to_lower_ascii(trimmed(value));
            let w = word.as_str();
            same_text(w, "1") || same_text(w, "true") || same_text(w, "yes") || same_text(w, "on")
        },
        None => switch.enabled,
    }
}

/// Where a path starts: at the home directory, or at a path in writing.
pub enum LogBase<P> {
    Home(P),
    Path(String),
}

/// The directory of the log: a base and the directories to descend into.
pub struct LogDir<P> {
    pub base: LogBase<P>,
    pub subdirs: Vec<String>,
}

/// The directory of the log: the one that the environment variable names, if
/// it is set and not empty, or else `.deepseek/api-logs` in the home directory,
/// or in the current directory where there is no home directory.
pub fn api_log_dir<P>(variable: Option<String>, home: Option<P>) -> (r: LogDir<P>)
    ensures
        ({
            let named = variable is Some && variable->0@.len() > 0;
            &&& named ==> r.base is Path && r.base->Path_0@ == variable->0@
            &&& named ==> text::texts(r.subdirs@) == Seq::<Seq<char>>::empty()
            &&& !named ==> text::texts(r.subdirs@) == seq![".deepseek"@, "api-logs"@]
            &&& !named && home is Some ==> r.base == LogBase::Home(home->0)
            &&& !named && home is None ==> r.base is Path && r.base->Path_0@ == "."@
        }),
{
    if let Some(dir) = variable {
        if dir.as_str().unicode_len() > 0 {
            let r: LogDir<P> = LogDir { base: LogBase::Path(dir), subdirs: Vec::new() };
            assert(text::texts(r.subdirs@) =~= Seq::<Seq<char>>::empty());
            return r;
        }
    }
    let mut subdirs: Vec<String> = Vec::new();
    subdirs.push(".deepseek".to_owned());
    subdirs.push("api-logs".to_owned());
    assert(text::texts(subdirs@) =~= seq![".deepseek"@, "api-logs"@]);
    let base = match home {
        Some(p) => LogBase::Home(p),
        None => LogBase::Path(".".to_owned()),
    };
    LogDir { base, subdirs }
}

// ---------------------------------------------------------------------------
// What is logged
// ---------------------------------------------------------------------------

/// How long a call took: whole seconds, and the nanoseconds of the last one.
#[derive(Clone, Copy)]
pub struct Elapsed {
    pub secs: u64,
    pub nanos: u32,
}

/// The whole milliseconds of a time.
pub open spec fn millis(e: Elapsed) -> nat {
    (e.secs * 1000 + e.nanos / 1_000_000) as nat
}

impl Elapsed {
    /// The whole milliseconds, in 64 bits.
    pub fn millis(self) -> (r: u64)
        ensures
            r == millis(self) % 0x1_0000_0000_0000_0000,
    {
        let all: u128 = self.secs as u128 * 1000 + (self.nanos / 1_000_000) as u128;
        (all % 0x1_0000_0000_0000_0000u128) as u64
    }
}

/// The request of a call.
pub struct RequestLog<'a> {
    pub body: &'a serde_json::Value,
}

/// The response to a call.
pub struct ResponseLog<'a> {
    pub status: u16,
    pub body: Option<&'a serde_json::Value>,
    pub stream_note: Option<&'a str>,
}

/// The log entry of one API call.
pub struct ApiCallLog<'a> {
    pub timestamp: String,
    pub model: &'a str,
    pub endpoint: &'a str,
    pub duration_ms: u64,
    pub request: RequestLog<'a>,
    pub response: ResponseLog<'a>,
}

/// Whether an entry is that of a call that was logged at an instant.
pub open spec fn records(
    entry: ApiCallLog,
    at: UtcInstant,
    model: &str,
    endpoint: &str,
    request_body: serde_json::Value,
    response_status: u16,
    response_body: Option<&serde_json::Value>,
    duration: Elapsed,
) -> bool {
    &&& entry.timestamp@ == clock::rfc3339_text(at.secs(), at.nanos())
    &&& entry.model@ == model@
    &&& entry.endpoint@ == endpoint@
    &&& entry.duration_ms == millis(duration) % 0x1_0000_0000_0000_0000
    &&& *entry.request.body == request_body
    &&& entry.response.status == response_status
    &&& entry.response.body == response_body
    &&& entry.response.stream_note is Some <==> response_body is None
    &&& entry.response.stream_note matches Some(note) ==> note@ == STREAM_NOTE@
}

/// The entry of a call that is logged at an instant. A streamed response has no
/// body and a note in its place.
pub fn make_entry<'a>(
    at: &UtcInstant,
    model: &'a str,
    endpoint: &'a str,
    request_body: &'a serde_json::Value,
    response_status: u16,
    response_body: Option<&'a serde_json::Value>,
    duration: Elapsed,
) -> (r: ApiCallLog<'a>)
    ensures
        records(
            r,
            *at,
            model,
            endpoint,
            *request_body,
            response_status,
            response_body,
            duration,
        ),
{
    let stream_note = if response_body.is_none() {
        Some(STREAM_NOTE)
    } else {
        None
    };
    ApiCallLog {
        timestamp: at.to_rfc3339(),
        model,
        endpoint,
        duration_ms: duration.millis(),
        request: RequestLog { body: request_body },
        response: ResponseLog { status: response_status, body: response_body, stream_note },
    }
}

/// Starts to log a call: its entry, if calls are logged. `LogRun` says what is
/// to be done with the entry.
///
/// A call that streams its response passes no body for it.
pub fn log_api_call<'a>(
    variable: Option<&str>,
    switch: &LogSwitch,
    model: &'a str,
    endpoint: &'a str,
    request_body: &'a serde_json::Value,
    response_status: u16,
    response_body: Option<&'a serde_json::Value>,
    duration: Elapsed,
) -> (r: Option<ApiCallLog<'a>>)
    ensures
        r is Some <==> logs(text::opt_str(variable), *switch),
        r matches Some(entry) ==> exists|at: UtcInstant|
            clock::in_calendar(at.secs(), at.nanos()) && #[trigger] records(
                entry,
                at,
                model,
                endpoint,
                *request_body,
                response_status,
                response_body,
                duration,
            ),
{
    if !should_log(variable, switch) {
        return None;
    }
    let at = UtcInstant::now();
    Some(
        make_entry(
            &at,
            model,
            endpoint,
            request_body,
            response_status,
            response_body,
            duration,
        ),
    )
}

/// A character of a model name as it stands in a file name.
pub open spec fn slug_char(c: char) -> char {
    if c == '/' || c == '\\' || c == ':' || c == ' ' {
        '_'
    } else {
        c
    }
}

/// A model name as it stands in a file name.
pub open spec fn slug(model: Seq<char>) -> Seq<char> {
    model.map_values(|c: char| slug_char(c))
}

/// The beginning of the names that the file of a call may have, which is written
/// at an instant.
pub open spec fn file_stem(at: UtcInstant, model: Seq<char>) -> Seq<char> {
    clock::formatted_text(at.secs(), at.nanos(), clock::FILE_STAMP@) + "_"@ + slug(model)
}

/// The name to be tried after `tries` names with the same beginning were taken.
pub open spec fn try_name(stem: Seq<char>, tries: nat) -> Seq<char> {
    if tries == 0 {
        stem + ".yaml"@
    } else {
        stem + "_"@ + number::decimal(tries) + ".yaml"@
    }
}

/// The name of the log file of a call that is written at an instant, where
/// `tries` names are taken.
pub open spec fn file_name(at: UtcInstant, model: Seq<char>, tries: nat) -> Seq<char> {
    try_name(file_stem(at, model), tries)
}

/// Whether a text can stand as one component of a path on every platform.
pub open spec fn safe_name(s: Seq<char>) -> bool {
    !s.contains('/') && !s.contains('\\') && !s.contains(':') && !s.contains(' ')
}

/// The beginning of the names that the file of a call may have, which is written
/// at an instant. It stays in the directory, whatever the model is called.
pub fn log_file_stem(at: &UtcInstant, model: &str) -> (r: String)
    ensures
        r@ == file_stem(*at, model@),
        safe_name(r@),
{
    let mut name = at.file_stamp();
    let ghost stamp = name@;
    name.append("_");
    let ghost head = name@;
    for c in it: model.chars()
        invariant
            it.seq() == model@,
            name@ == head + slug(model@.take(it.index() as int)),
    {
        if c == '/' || c == '\\' || c == ':' || c == ' ' {
            name.push('_');
        } else {
            name.push(c);
        }
        assert(head + slug(model@.take(it.index() as int + 1)) =~= (head + slug(
            model@.take(it.index() as int),
        )).push(slug_char(c)));
    }
    assert(model@.take(model@.len() as int) =~= model@);
    proof {
        reveal_strlit("_");
        let s = name@;
        let n = stamp.len() as int;
        assert forall|i: int| 0 <= i < s.len() implies s[i] != '/' && s[i] != '\\' && s[i] != ':'
            && s[i] != ' ' by {
            if i < n {
                assert(s[i] == stamp[i]);
            } else if i == n {
                assert(s[i] == '_');
            } else {
                assert(s[i] == slug_char(model@[i - n - 1]));
            }
        }
    }
    name
}

/// The name to be tried after `tries` names with the same beginning were taken.
pub fn next_file_name(stem: &str, tries: usize) -> (r: String)
    ensures
        r@ == try_name(stem@, tries as nat),
        safe_name(stem@) ==> safe_name(r@),
{
    let mut name = stem.to_owned();
    if tries > 0 {
        name.append("_");
        push_decimal(&mut name, tries);
    }
    name.append(".yaml");
    proof {
        if safe_name(stem@) {
            lemma_try_name_safe(stem@, tries as nat);
        }
    }
    name
}

proof fn lemma_try_name_safe(stem: Seq<char>, tries: nat)
    requires
        safe_name(stem),
    ensures
        safe_name(try_name(stem, tries)),
{
    reveal_strlit("_");
    reveal_strlit(".yaml");
    number::lemma_decimal_digits(tries);
    let s = try_name(stem, tries);
    let n = stem.len() as int;
    let d = number::decimal(tries);
    let m = d.len() as int;
    assert forall|i: int| 0 <= i < s.len() implies s[i] != '/' && s[i] != '\\' && s[i] != ':'
        && s[i] != ' ' by {
        if i < n {
            assert(s[i] == stem[i]);
        } else if tries == 0 {
            assert(s[i] == ".yaml"@[i - n]);
        } else if i == n {
            assert(s[i] == '_');
        } else if i < n + 1 + m {
            assert(s[i] == d[i - n - 1]);
        } else {
            assert(s[i] == ".yaml"@[i - n - 1 - m]);
        }
    }
}

/// The name of the log file of a call that is written at an instant, where
/// `tries` names are taken. It names a file in the directory itself.
pub fn log_file_name(at: &UtcInstant, model: &str, tries: usize) -> (r: String)
    ensures
        r@ == file_name(*at, model@, tries as nat),
        safe_name(r@),
{
    let stem = log_file_stem(at, model);
    next_file_name(stem.as_str(), tries)
}

// ---------------------------------------------------------------------------
// Pruning
// ---------------------------------------------------------------------------

/// The bytes of `.yaml`.
pub open spec fn yaml_suffix() -> Seq<u8> {
    seq!['.' as u8, 'y' as u8, 'a' as u8, 'm' as u8, 'l' as u8]
}

/// Whether a file is a log file: something stands before a `.yaml` at the end
/// of its name.
pub open spec fn is_log_file(name: Seq<u8>) -> bool {
    name.len() > 5 && name.skip(name.len() - 5) == yaml_suffix()
}

/// Whether the extension of a file name is `yaml`.
pub fn has_yaml_extension(name: &Vec<u8>) -> (r: bool)
    ensures
        r == is_log_file(name@),
{
    let n: usize = name.len();
    if n <= 5 {
        return false;
    }
    let r: bool = name[n - 5] == '.' as u8 && name[n - 4] == 'y' as u8 && name[n - 3] == 'a' as u8
        && name[n - 2] == 'm' as u8 && name[n - 1] == 'l' as u8;
    proof {
        let tail = name@.skip(n - 5);
        assert(tail[0] == name@[n - 5] && tail[1] == name@[n - 4] && tail[2] == name@[n - 3]
            && tail[3] == name@[n - 2] && tail[4] == name@[n - 1]);
        if r {
            assert(tail =~= yaml_suffix());
        }
    }
    r
}

/// The bytes of some names.
pub open spec fn name_bytes(names: Seq<Vec<u8>>) -> Seq<Seq<u8>> {
    names.map_values(|n: Vec<u8>| n@)
}

/// The places of the log files among some names.
pub open spec fn log_places(names: Seq<Seq<u8>>) -> Seq<int>
    decreases names.len(),
{
    if names.len() == 0 {
        Seq::empty()
    } else if is_log_file(names.last()) {
        log_places(names.drop_last()).push(names.len() - 1)
    } else {
        log_places(names.drop_last())
    }
}

/// Some places as mathematical integers.
pub open spec fn places(v: Seq<usize>) -> Seq<int> {
    v.map_values(|i: usize| i as int)
}

/// The places of the log files among the names in a directory.
pub fn log_files(names: &Vec<Vec<u8>>) -> (r: Vec<usize>)
    ensures
        places(r@) == log_places(name_bytes(names@)),
{
    let ghost all = name_bytes(names@);
    let mut found: Vec<usize> = Vec::new();
    let mut i: usize = 0;
    assert(all.take(0) =~= Seq::empty());
    assert(places(found@) =~= log_places(all.take(0)));
    while i < names.len()
        invariant
            all == name_bytes(names@),
            i <= names@.len(),
            places(found@) == log_places(all.take(i as int)),
        decreases names@.len() - i,
    {
        let ghost before = places(found@);
        proof {
            assert(all[i as int] == names@[i as int]@);
            assert(all.take(i + 1).drop_last() =~= all.take(i as int));
            assert(all.take(i + 1).last() == all[i as int]);
        }
        if has_yaml_extension(&names[i]) {
            found.push(i);
            assert(places(found@) =~= before.push(i as int));
        }
        i += 1;
    }
    assert(all.take(all.len() as int) =~= all);
    found
}

/// A log file and the time of its last change.
#[verifier::ext_equal]
pub struct DatedView {
    pub modified: int,
    pub place: int,
}

/// The order of log files: the oldest first, and those of one time in the order
/// of the directory.
pub open spec fn no_newer(a: DatedView, b: DatedView) -> bool {
    a.modified < b.modified || (a.modified == b.modified && a.place <= b.place)
}

/// The log files with their times. A file whose time is unknown counts as
/// changed at the start of 1970.
pub open spec fn dated(files: Seq<int>, modified: Seq<Option<i128>>) -> Seq<DatedView> {
    Seq::new(
        files.len(),
        |i: int|
            DatedView {
                modified: match modified[i] {
                    Some(t) => t as int,
                    None => 0,
                },
                place: files[i],
            },
    )
}

/// The log files from the oldest to the newest.
pub open spec fn by_age(files: Seq<int>, modified: Seq<Option<i128>>) -> Seq<DatedView> {
    dated(files, modified).sort_by(|a: DatedView, b: DatedView| no_newer(a, b))
}

/// The number of log files that are too many.
pub open spec fn excess(files: Seq<int>) -> int {
    if files.len() > MAX_LOG_FILES {
        files.len() - MAX_LOG_FILES
    } else {
        0
    }
}

/// The log files to remove: the oldest of those that are too many.
pub open spec fn to_remove(files: Seq<int>, modified: Seq<Option<i128>>) -> Seq<int> {
    by_age(files, modified).take(excess(files)).map_values(|d: DatedView| d.place)
}

struct Dated {
    modified: i128,
    place: usize,
}

impl View for Dated {
    type V = DatedView;

    closed spec fn view(&self) -> DatedView {
        DatedView { modified: self.modified as int, place: self.place as int }
    }
}

impl Ranked for Dated {
    closed spec fn at_most(self, other: Self) -> bool {
        no_newer(self@, other@)
    }

    proof fn rank_total(a: Self, b: Self) {
    }

    proof fn rank_transitive(a: Self, b: Self, c: Self) {
    }

    fn comes_first(&self, other: &Self) -> (r: bool) {
        self.modified < other.modified || (self.modified == other.modified && self.place
            <= other.place)
    }
}

/// The order of log files is total.
pub proof fn no_newer_is_total()
    ensures
        vstd::relations::total_ordering(|a: DatedView, b: DatedView| no_newer(a, b)),
{
    let leq = |a: DatedView, b: DatedView| no_newer(a, b);
    assert forall|a: DatedView, b: DatedView| #[trigger] leq(a, b) && #[trigger] leq(
        b,
        a,
    ) implies a == b by {
        assert(a =~= b);
    }
}

/// The log files to remove from a directory that holds too many: `files` are
/// their places in the directory, `modified` their times, in nanoseconds since
/// 1970.
pub fn prune_old_logs(files: &Vec<usize>, modified: &Vec<Option<i128>>) -> (r: Vec<usize>)
    requires
        modified@.len() == files@.len(),
    ensures
        places(r@) == to_remove(places(files@), modified@),
{
    let ghost leq = |a: DatedView, b: DatedView| no_newer(a, b);
    let ghost f = |d: Dated| d@;
    let ghost all = dated(places(files@), modified@);
    let mut items: Vec<Dated> = Vec::new();
    let mut i: usize = 0;
    while i < files.len()
        invariant
            modified@.len() == files@.len(),
            all == dated(places(files@), modified@),
            i <= files@.len(),
            items@.len() == i,
            forall|k: int| 0 <= k < i ==> (#[trigger] items@[k])@ == all[k],
        decreases files@.len() - i,
    {
        let t: i128 = match modified[i] {
            Some(t) => t,
            None => 0,
        };
        items.push(Dated { modified: t, place: files[i] });
        i += 1;
    }
    assert(items@.map_values(f) =~= all);
    let ghost unsorted = items@;
    let sorted = sort(items);
    proof {
        no_newer_is_total();
        order::lemma_same_values_map(sorted@, unsorted, f);
        all.lemma_sort_by_ensures(leq);
        assert forall|a: int, b: int| 0 <= a < b < sorted@.len() implies #[trigger] leq(
            sorted@.map_values(f)[a],
            sorted@.map_values(f)[b],
        ) by {
            assert(sorted@[a].at_most(sorted@[b]));
        }
        vstd::seq_lib::lemma_sorted_unique(sorted@.map_values(f), all.sort_by(leq), leq);
    }
    let mut removed: Vec<usize> = Vec::new();
    if files.len() <= MAX_LOG_FILES {
        assert(places(removed@) =~= to_remove(places(files@), modified@));
        return removed;
    }
    let n: usize = files.len() - MAX_LOG_FILES;
    let ghost ranked = by_age(places(files@), modified@);
    assert(ranked == sorted@.map_values(f));
    let mut j: usize = 0;
    while j < n
        invariant
            n <= sorted@.len(),
            ranked == sorted@.map_values(f),
            f == (|d: Dated| d@),
            j <= n,
            removed@.len() == j,
            forall|k: int| 0 <= k < j ==> (#[trigger] removed@[k]) == ranked[k].place,
        decreases n - j,
    {
        assert(ranked[j as int] == sorted@[j as int]@);
        removed.push(sorted[j].place);
        j += 1;
    }
    assert(places(removed@) =~= to_remove(places(files@), modified@));
    removed
}

// ---------------------------------------------------------------------------
// The course of a logged call
// ---------------------------------------------------------------------------

/// How far the logging of a call has come.
#[verifier::ext_equal]
pub enum StageView {
    /// The entry is being written as YAML.
    Serializing,
    /// The directory is being made.
    CreatingDir { yaml: Seq<char> },
    /// The file is being written, under a name that begins with `stem`, after
    /// `tries` such names were taken.
    Writing { stem: Seq<char>, yaml: Seq<char>, tries: nat },
    /// The directory is being listed.
    Listing,
    /// The times of the log files are being read.
    Dating { files: Seq<int> },
    /// Nothing is left to be done.
    Done,
}

/// What became of the last thing that was to be done.
#[verifier::ext_equal]
pub enum EventView {
    /// The entry as YAML, unless it could not be written so.
    Serialized(Option<Seq<char>>),
    /// Whether the directory is there.
    DirCreated(bool),
    /// There is a file of that name, and it was left as it is.
    NameTaken,
    /// Whether the file was written.
    Written(bool),
    /// The names in the directory, unless it could not be listed.
    Listed(Option<Seq<Seq<u8>>>),
    /// The time of each log file that was asked for, where it could be read.
    Dated(Seq<Option<i128>>),
}

/// What is to be done next.
#[verifier::ext_equal]
pub enum ActionView {
    /// Make the directory of the log.
    CreateDir,
    /// Write a new file in the directory, unless there is one of that name.
    Write { name: Seq<char>, yaml: Seq<char> },
    /// List the directory.
    List,
    /// Read the times of the files at these places of the list.
    Date { files: Seq<int> },
    /// Remove the files at these places of the list, and stop.
    Remove { files: Seq<int> },
    /// Stop.
    Stop,
}

/// What follows an event at an instant, in the logging of a call to a model:
/// the next stage and what is to be done. Where the name of the file is taken,
/// the next name is tried. Whatever fails ends the logging.
pub open spec fn next_step(
    model: Seq<char>,
    stage: StageView,
    event: EventView,
    at: UtcInstant,
) -> (StageView, ActionView) {
    match (stage, event) {
        (StageView::Serializing, EventView::Serialized(Some(yaml))) => (
            StageView::CreatingDir { yaml },
            ActionView::CreateDir,
        ),
        (StageView::CreatingDir { yaml }, EventView::DirCreated(true)) => (
            StageView::Writing { stem: file_stem(at, model), yaml, tries: 0 },
            ActionView::Write { name: file_name(at, model, 0), yaml },
        ),
        (StageView::Writing { stem, yaml, tries }, EventView::NameTaken) => if tries < usize::MAX {
            (
                StageView::Writing { stem, yaml, tries: tries + 1 },
                ActionView::Write { name: try_name(stem, tries + 1), yaml },
            )
        } else {
            (StageView::Done, ActionView::Stop)
        },
        (StageView::Writing { .. }, EventView::Written(true)) => (
            StageView::Listing,
            ActionView::List,
        ),
        (StageView::Listing, EventView::Listed(Some(names))) => {
            let files = log_places(names);
            if files.len() > MAX_LOG_FILES {
                (StageView::Dating { files }, ActionView::Date { files })
            } else {
                (StageView::Done, ActionView::Stop)
            }
        },
        (StageView::Dating { files }, EventView::Dated(times)) => if times.len() == files.len() {
            (StageView::Done, ActionView::Remove { files: to_remove(files, times) })
        } else {
            (StageView::Done, ActionView::Stop)
        },
        _ => (StageView::Done, ActionView::Stop),
    }
}

/// What became of the last thing that was to be done.
pub enum LogEvent {
    /// The entry as YAML, unless it could not be written so.
    Serialized(Option<String>),
    /// Whether the directory is there.
    DirCreated(bool),
    /// There is a file of that name, and it was left as it is.
    NameTaken,
    /// Whether the file was written.
    Written(bool),
    /// The names in the directory, unless it could not be listed.
    Listed(Option<Vec<Vec<u8>>>),
    /// The time of each log file that was asked for, in nanoseconds since 1970,
    /// where it could be read.
    Dated(Vec<Option<i128>>),
}

impl View for LogEvent {
    type V = EventView;

    open spec fn view(&self) -> EventView {
        match self {
            LogEvent::Serialized(yaml) => EventView::Serialized(text::opt_text(*yaml)),
            LogEvent::DirCreated(ok) => EventView::DirCreated(*ok),
            LogEvent::NameTaken => EventView::NameTaken,
            LogEvent::Written(ok) => EventView::Written(*ok),
            LogEvent::Listed(names) => EventView::Listed(
                match names {
                    Some(n) => Some(name_bytes(n@)),
                    None => None,
                },
            ),
            LogEvent::Dated(times) => EventView::Dated(times@),
        }
    }
}

/// What is to be done next.
pub enum LogAction {
    /// Make the directory of the log.
    CreateDir,
    /// Write a new file in the directory, unless there is one of that name.
    Write { name: String, yaml: String },
    /// List the directory.
    List,
    /// Read the times of the files at these places of the list.
    Date { files: Vec<usize> },
    /// Remove the files at these places of the list, and stop.
    Remove { files: Vec<usize> },
    /// Stop.
    Stop,
}

impl View for LogAction {
    type V = ActionView;

    open spec fn view(&self) -> ActionView {
        match self {
            LogAction::CreateDir => ActionView::CreateDir,
            LogAction::Write { name, yaml } => ActionView::Write { name: name@, yaml: yaml@ },
            LogAction::List => ActionView::List,
            LogAction::Date { files } => ActionView::Date { files: places(files@) },
            LogAction::Remove { files } => ActionView::Remove { files: places(files@) },
            LogAction::Stop => ActionView::Stop,
        }
    }
}

enum LogStage {
    Serializing,
    CreatingDir { yaml: String },
    Writing { stem: String, yaml: String, tries: usize },
    Listing,
    Dating { files: Vec<usize> },
    Done,
}

/// The logging of one call.
pub struct LogRun {
    model: String,
    stage: LogStage,
}

impl LogRun {
    /// The name of the model that was called.
    pub closed spec fn model(self) -> Seq<char> {
        self.model@
    }

    /// How far the logging has come.
    pub closed spec fn stage(self) -> StageView {
        match self.stage {
            LogStage::Serializing => StageView::Serializing,
            LogStage::CreatingDir { yaml } => StageView::CreatingDir { yaml: yaml@ },
            LogStage::Writing { stem, yaml, tries } => StageView::Writing {
                stem: stem@,
                yaml: yaml@,
                tries: tries as nat,
            },
            LogStage::Listing => StageView::Listing,
            LogStage::Dating { files } => StageView::Dating { files: places(files@) },
            LogStage::Done => StageView::Done,
        }
    }

    /// The logging of a call whose entry is to be written as YAML.
    pub fn start(model: &str) -> (r: LogRun)
        ensures
            r.model() == model@,
            r.stage() == StageView::Serializing,
    {
        LogRun { model: model.to_owned(), stage: LogStage::Serializing }
    }

    /// What is to be done after an event at an instant.
    pub fn step(&mut self, event: LogEvent, at: &UtcInstant) -> (r: LogAction)
        ensures
            final(self).model() == old(self).model(),
            (final(self).stage(), r@) == next_step(
                old(self).model(),
                old(self).stage(),
                event@,
                *at,
            ),
    {
        let mut stage = LogStage::Done;
        std::mem::swap(&mut stage, &mut self.stage);
        match (stage, event) {
            (LogStage::Serializing, LogEvent::Serialized(Some(yaml))) => {
                self.stage = LogStage::CreatingDir { yaml };
                LogAction::CreateDir
            },
            (LogStage::CreatingDir { yaml }, LogEvent::DirCreated(true)) => {
                let stem = log_file_stem(at, self.model.as_str());
                let name = next_file_name(stem.as_str(), 0);
                self.stage = LogStage::Writing { stem, yaml: yaml.clone(), tries: 0 };
                LogAction::Write { name, yaml }
            },
            (LogStage::Writing { stem, yaml, tries }, LogEvent::NameTaken) => {
                if tries < usize::MAX {
                    let name = next_file_name(stem.as_str(), tries + 1);
                    self.stage = LogStage::Writing { stem, yaml: yaml.clone(), tries: tries + 1 };
                    LogAction::Write { name, yaml }
                } else {
                    LogAction::Stop
                }
            },
            (LogStage::Writing { .. }, LogEvent::Written(true)) => {
                self.stage = LogStage::Listing;
                LogAction::List
            },
            (LogStage::Listing, LogEvent::Listed(Some(names))) => {
                let files = log_files(&names);
                assert(places(files@).len() == files@.len());
                if files.len() > MAX_LOG_FILES {
                    let asked = files.clone();
                    assert(places(asked@) =~= places(files@));
                    self.stage = LogStage::Dating { files };
                    LogAction::Date { files: asked }
                } else {
                    LogAction::Stop
                }
            },
            (LogStage::Dating { files }, LogEvent::Dated(times)) => {
                assert(places(files@).len() == files@.len());
                if times.len() == files.len() {
                    LogAction::Remove { files: prune_old_logs(&files, &times) }
                } else {
                    LogAction::Stop
                }
            },
            _ => LogAction::Stop,
        }
    }

    /// What is to be done after an event, at the current instant, which the
    /// clock of the machine decides.
    pub fn next(&mut self, event: LogEvent) -> (r: LogAction)
        ensures
            final(self).model() == old(self).model(),
            exists|at: UtcInstant|
                clock::in_calendar(at.secs(), at.nanos()) && (final(self).stage(), r@)
                    == #[trigger] next_step(old(self).model(), old(self).stage(), event@, at),
    {
        let at = UtcInstant::now();
        self.step(event, &at)
    }
}

// ---------------------------------------------------------------------------
// Laws
// ---------------------------------------------------------------------------

/// Setting the switch decides whether calls are logged, unless the environment
/// variable is set, which wins over the switch.
pub proof fn variable_wins_over_switch(
    variable: Option<Seq<char>>,
    a: LogSwitch,
    b: LogSwitch,
)
    ensures
        variable is Some ==> logs(variable, a) == logs(variable, b),
        variable is None ==> logs(variable, a) == a.enabled,
{
}

/// Pruning keeps the newest files: the files fall into those that are removed
/// and those that stay, at most `MAX_LOG_FILES` stay and no file is removed
/// while there are no more, and no file that is removed is newer than one that
/// stays.
pub proof fn pruning_keeps_the_newest(files: Seq<int>, modified: Seq<Option<i128>>) -> (kept: Seq<
    DatedView,
>)
    ensures
        ({
            let all = dated(files, modified);
            let removed = by_age(files, modified).take(excess(files));
            &&& to_remove(files, modified) == removed.map_values(|d: DatedView| d.place)
            &&& all.to_multiset() == removed.to_multiset().add(kept.to_multiset())
            &&& removed.len() + kept.len() == files.len()
            &&& files.len() > MAX_LOG_FILES ==> kept.len() == MAX_LOG_FILES
            &&& files.len() <= MAX_LOG_FILES ==> removed.len() == 0
            &&& forall|i: int, j: int|
                #![trigger removed[i], kept[j]]
                0 <= i < removed.len() && 0 <= j < kept.len() ==> removed[i].modified
                    <= kept[j].modified
        }),
{
    let leq = |a: DatedView, b: DatedView| no_newer(a, b);
    let all = dated(files, modified);
    let sorted = by_age(files, modified);
    let n = excess(files);
    no_newer_is_total();
    all.lemma_sort_by_ensures(leq);
    vstd::seq_lib::to_multiset_len(all);
    vstd::seq_lib::to_multiset_len(sorted);
    let (removed, kept) = (sorted.take(n), sorted.skip(n));
    assert(sorted =~= removed + kept);
    vstd::seq_lib::lemma_multiset_commutative(removed, kept);
    assert forall|i: int, j: int|
        #![trigger removed[i], kept[j]]
        0 <= i < removed.len() && 0 <= j < kept.len() implies removed[i].modified
        <= kept[j].modified by {
        assert(leq(sorted[i], sorted[n + j]));
    }
    kept
}

/// The file of a logged call counts as a log file, so that pruning sees it.
pub proof fn written_file_is_a_log_file(at: UtcInstant, model: Seq<char>, tries: nat)
    ensures
        is_log_file(vstd::utf8::encode_utf8(file_name(at, model, tries))),
{
    let stem = file_stem(at, model);
    let head = if tries == 0 {
        stem
    } else {
        stem + "_"@ + number::decimal(tries)
    };
    reveal_strlit("_");
    reveal_strlit(".yaml");
    text::encoding_adds_up(head, ".yaml"@);
    lemma_yaml_bytes();
    let bytes = vstd::utf8::encode_utf8(head);
    assert(stem.len() > 0);
    assert(head.len() > 0);
    assert(bytes.len() > 0);
    assert((bytes + yaml_suffix()).skip(bytes.len() as int) =~= yaml_suffix());
}

proof fn lemma_try_names(stem: Seq<char>, m: nat, n: nat)
    requires
        m != n,
    ensures
        try_name(stem, m) != try_name(stem, n),
{
    reveal_strlit("_");
    let k = stem.len() as int;
    let (a, b) = (try_name(stem, m), try_name(stem, n));
    let y = ".yaml"@.len() as int;
    number::lemma_decimal_digits(m);
    number::lemma_decimal_digits(n);
    assert(a.len() == k + y + if m == 0 {
        0
    } else {
        1 + number::decimal(m).len()
    });
    assert(b.len() == k + y + if n == 0 {
        0
    } else {
        1 + number::decimal(n).len()
    });
    if a == b && m > 0 && n > 0 {
        assert(a.subrange(k + 1, a.len() - y) =~= number::decimal(m));
        assert(b.subrange(k + 1, b.len() - y) =~= number::decimal(n));
        number::decimal_is_injective(m, n);
    }
}

/// Each try has a name of its own, so that a call whose name is taken comes to
/// a name that it has not tried.
pub proof fn tries_have_distinct_names(at: UtcInstant, model: Seq<char>, m: nat, n: nat)
    requires
        m != n,
    ensures
        file_name(at, model, m) != file_name(at, model, n),
{
    lemma_try_names(file_stem(at, model), m, n);
}

spec fn first_names(stem: Seq<char>, n: nat) -> Set<Seq<char>>
    decreases n,
{
    if n == 0 {
        Set::empty()
    } else {
        first_names(stem, (n - 1) as nat).insert(try_name(stem, (n - 1) as nat))
    }
}

proof fn lemma_first_names(stem: Seq<char>, n: nat)
    ensures
        first_names(stem, n).finite(),
        first_names(stem, n).len() == n,
        forall|x: Seq<char>|
            #![trigger first_names(stem, n).contains(x)]
            first_names(stem, n).contains(x) ==> exists|i: nat|
                i < n && x == #[trigger] try_name(stem, i),
    decreases n,
{
    if n > 0 {
        let m = (n - 1) as nat;
        lemma_first_names(stem, m);
        let last = try_name(stem, m);
        if first_names(stem, m).contains(last) {
            let i = choose|i: nat| i < m && last == #[trigger] try_name(stem, i);
            lemma_try_names(stem, m, i);
        }
        assert forall|x: Seq<char>|
            #![trigger first_names(stem, n).contains(x)]
            first_names(stem, n).contains(x) implies exists|i: nat|
            i < n && x == #[trigger] try_name(stem, i) by {
            if x != last {
                assert(first_names(stem, m).contains(x));
                let i = choose|i: nat| i < m && x == #[trigger] try_name(stem, i);
                assert(i < n && x == try_name(stem, i));
            }
        }
    }
}

/// Whether try `n` is the first whose name is free, where `taken` are the names
/// in the directory.
pub open spec fn is_first_free(stem: Seq<char>, taken: Set<Seq<char>>, n: nat) -> bool {
    &&& !taken.contains(try_name(stem, n))
    &&& forall|i: nat| i < n ==> taken.contains(#[trigger] try_name(stem, i))
}

proof fn lemma_first_free(stem: Seq<char>, taken: Set<Seq<char>>, n: nat)
    requires
        !taken.contains(try_name(stem, n)),
    ensures
        exists|k: nat| k <= n && #[trigger] is_first_free(stem, taken, k),
    decreases n,
{
    if !is_first_free(stem, taken, n) {
        let i = choose|i: nat| i < n && !taken.contains(#[trigger] try_name(stem, i));
        lemma_first_free(stem, taken, i);
        let k = choose|k: nat| k <= i && #[trigger] is_first_free(stem, taken, k);
        assert(k <= n);
    }
}

/// A call comes to a free name: each name in the directory rules out one try at
/// most.
pub proof fn a_free_name_is_found(stem: Seq<char>, taken: Set<Seq<char>>)
    requires
        taken.finite(),
    ensures
        exists|n: nat| n <= taken.len() && #[trigger] is_first_free(stem, taken, n),
{
    let n = taken.len() + 1;
    lemma_first_names(stem, n);
    if forall|i: nat| i <= taken.len() ==> taken.contains(#[trigger] try_name(stem, i)) {
        assert(first_names(stem, n).subset_of(taken)) by {
            assert forall|x: Seq<char>| first_names(stem, n).contains(x) implies taken.contains(
                x,
            ) by {
                let i = choose|i: nat| i < n && x == #[trigger] try_name(stem, i);
                assert(taken.contains(try_name(stem, i)));
            }
        }
        vstd::set_lib::lemma_len_subset(first_names(stem, n), taken);
    }
    let i = choose|i: nat| i <= taken.len() && !taken.contains(#[trigger] try_name(stem, i));
    lemma_first_free(stem, taken, i);
    let k = choose|k: nat| k <= i && #[trigger] is_first_free(stem, taken, k);
    assert(k <= taken.len());
}

/// The stage after `n` names were taken, one after the other.
pub open spec fn after_taken(
    model: Seq<char>,
    stage: StageView,
    n: nat,
    at: UtcInstant,
) -> StageView
    decreases n,
{
    if n == 0 {
        stage
    } else {
        next_step(
            model,
            after_taken(model, stage, (n - 1) as nat, at),
            EventView::NameTaken,
            at,
        ).0
    }
}

/// No record is replaced: where the first free name is that of try `n`, the
/// names before it are tried and found taken, and the text of the call is to be
/// written under the free name, beside everything in the directory. So two calls
/// to one model in one second leave two records.
pub proof fn records_are_not_replaced(
    model: Seq<char>,
    stem: Seq<char>,
    yaml: Seq<char>,
    at: UtcInstant,
    dir: Map<Seq<char>, Seq<char>>,
    n: nat,
)
    requires
        is_first_free(stem, dir.dom(), n),
        n <= usize::MAX,
    ensures
        ({
            let start = StageView::Writing { stem, yaml, tries: 0 };
            let name = try_name(stem, n);
            let after = dir.insert(name, yaml);
            &&& after_taken(model, start, n, at) == (StageView::Writing { stem, yaml, tries: n })
            &&& n > 0 ==> next_step(
                model,
                after_taken(model, start, (n - 1) as nat, at),
                EventView::NameTaken,
                at,
            ).1 == (ActionView::Write { name, yaml })
            &&& !dir.contains_key(name)
            &&& after[name] == yaml
            &&& forall|other: Seq<char>|
                #[trigger] dir.contains_key(other) ==> after.contains_key(other) && after[other]
                    == dir[other]
        }),
{
    lemma_after_taken(model, stem, yaml, at, n);
    if n > 0 {
        lemma_after_taken(model, stem, yaml, at, (n - 1) as nat);
    }
}

proof fn lemma_after_taken(
    model: Seq<char>,
    stem: Seq<char>,
    yaml: Seq<char>,
    at: UtcInstant,
    n: nat,
)
    requires
        n <= usize::MAX,
    ensures
        after_taken(model, StageView::Writing { stem, yaml, tries: 0 }, n, at)
            == (StageView::Writing { stem, yaml, tries: n }),
    decreases n,
{
    if n > 0 {
        lemma_after_taken(model, stem, yaml, at, (n - 1) as nat);
    }
}

proof fn lemma_ascii_first(s: Seq<char>)
    requires
        s.len() > 0,
        s[0] < '\u{80}',
    ensures
        vstd::utf8::encode_utf8(s) == seq![s[0] as u8] + vstd::utf8::encode_utf8(s.drop_first()),
{
    let c = s[0] as u32;
    vstd::utf8::char_u32_cast(s[0], c);
    assert(c < 128 ==> (c & 0x7F) as u8 == c as u8) by (bit_vector);
    assert(vstd::utf8::encode_scalar(c) =~= seq![s[0] as u8]);
}

proof fn lemma_yaml_bytes()
    ensures
        vstd::utf8::encode_utf8(".yaml"@) == yaml_suffix(),
{
    reveal_strlit(".yaml");
    let a = ".yaml"@;
    let b = a.drop_first();
    let c = b.drop_first();
    let d = c.drop_first();
    let e = d.drop_first();
    lemma_ascii_first(a);
    lemma_ascii_first(b);
    lemma_ascii_first(c);
    lemma_ascii_first(d);
    lemma_ascii_first(e);
    assert(vstd::utf8::encode_utf8(e.drop_first()) =~= Seq::<u8>::empty());
    assert(vstd::utf8::encode_utf8(a) =~= yaml_suffix());
}

/// The stages in the order in which a call goes through them.
pub open spec fn stage_rank(stage: StageView) -> nat {
    match stage {
        StageView::Serializing => 0,
        StageView::CreatingDir { .. } => 1,
        StageView::Writing { .. } => 2,
        StageView::Listing => 3,
        StageView::Dating { .. } => 4,
        StageView::Done => 5,
    }
}

/// The logging of a call ends: every event takes it to a later stage, or to the
/// end, where nothing more is done. Only a name that is taken leaves it at its
/// stage, with one more try, and the same text goes to the next name.
pub proof fn logging_ends(model: Seq<char>, stage: StageView, event: EventView, at: UtcInstant)
    ensures
        ({
            let (next, action) = next_step(model, stage, event, at);
            let retries = event is NameTaken && (stage matches StageView::Writing {
                stem,
                yaml,
                tries,
            } && tries < usize::MAX && next == (StageView::Writing {
                stem,
                yaml,
                tries: tries + 1,
            }) && action == (ActionView::Write { name: try_name(stem, tries + 1), yaml }));
            &&& stage_rank(stage) < stage_rank(next) || next == StageView::Done || retries
            &&& stage == StageView::Done ==> next == StageView::Done && action == ActionView::Stop
            &&& next == StageView::Done ==> action is Stop || action is Remove
        }),
{
}

/// Whatever fails ends the logging of the call, and nothing else is done.
pub proof fn failure_ends_logging(model: Seq<char>, stage: StageView, at: UtcInstant)
    ensures
        ({
            let end = (StageView::Done, ActionView::Stop);
            &&& next_step(model, stage, EventView::Serialized(None), at) == end
            &&& next_step(model, stage, EventView::DirCreated(false), at) == end
            &&& next_step(model, stage, EventView::Written(false), at) == end
            &&& next_step(model, stage, EventView::Listed(None), at) == end
        }),
{
}

/// The variable switches logging on exactly when it is `1`, `true`, `yes` or
/// `on`, in letters of any case and with white space around it. Without it the
/// switch decides.
pub proof fn four_words_switch_logging_on(value: Seq<char>, switch: LogSwitch)
    ensures
        ({
            let t = text::trim(value);
            logs(Some(value), switch) <==> {
                ||| t.len() == 1 && t[0] == '1'
                ||| t.len() == 4 && (t[0] == 't' || t[0] == 'T') && (t[1] == 'r' || t[1] == 'R') && (
                t[2] == 'u' || t[2] == 'U') && (t[3] == 'e' || t[3] == 'E')
                ||| t.len() == 3 && (t[0] == 'y' || t[0] == 'Y') && (t[1] == 'e' || t[1] == 'E') && (
                t[2] == 's' || t[2] == 'S')
                ||| t.len() == 2 && (t[0] == 'o' || t[0] == 'O') && (t[1] == 'n' || t[1] == 'N')
            }
        }),
        logs(None, switch) <==> switch.enabled,
{
    reveal_strlit("1");
    reveal_strlit("true");
    reveal_strlit("yes");
    reveal_strlit("on");
    let t = text::trim(value);
    let w = text::lowered(t);
    assert forall|i: int| 0 <= i < t.len() implies #[trigger] w[i] == text::lower_ascii(t[i]) by {}
    let (a, b, c, d) = ("1"@, "true"@, "yes"@, "on"@);
    assert(w.len() == t.len());
    assert(a.len() == 1 && b.len() == 4 && c.len() == 3 && d.len() == 2);
    assert(says_on(value) <==> w == a || w == b || w == c || w == d);
    if t.len() == 1 && w[0] == '1' {
        assert(w =~= a);
    }
    if t.len() == 4 && w[0] == 't' && w[1] == 'r' && w[2] == 'u' && w[3] == 'e' {
        assert(w =~= b);
    }
    if t.len() == 3 && w[0] == 'y' && w[1] == 'e' && w[2] == 's' {
        assert(w =~= c);
    }
    if t.len() == 2 && w[0] == 'o' && w[1] == 'n' {
        assert(w =~= d);
    }
    if says_on(value) {
        assert(w[0] == text::lower_ascii(t[0]));
        assert(t.len() > 1 ==> w[1] == text::lower_ascii(t[1]));
        assert(t.len() > 2 ==> w[2] == text::lower_ascii(t[2]));
        assert(t.len() > 3 ==> w[3] == text::lower_ascii(t[3]));
    }
}

/// The milliseconds of a time are the whole ones in it, of every length.
pub proof fn milliseconds_are_the_whole_ones(e: Elapsed)
    ensures
        millis(e) * 1_000_000 <= e.secs * 1_000_000_000 + e.nanos,
        e.secs * 1_000_000_000 + e.nanos < (millis(e) + 1) * 1_000_000,
{
}

/// An entry that records a call holds what the call was given, each thing in its
/// place, and a note exactly where there is no body of a response.
pub proof fn an_entry_holds_the_call(
    entry: ApiCallLog,
    at: UtcInstant,
    model: &str,
    endpoint: &str,
    request_body: serde_json::Value,
    response_status: u16,
    response_body: Option<&serde_json::Value>,
    duration: Elapsed,
)
    requires
        records(
            entry,
            at,
            model,
            endpoint,
            request_body,
            response_status,
            response_body,
            duration,
        ),
    ensures
        entry.timestamp@ == clock::rfc3339_text(at.secs(), at.nanos()),
        entry.model@ == model@,
        entry.endpoint@ == endpoint@,
        entry.duration_ms == (duration.secs * 1000 + duration.nanos / 1_000_000)
            % 0x1_0000_0000_0000_0000,
        *entry.request.body == request_body,
        entry.response.status == response_status,
        entry.response.body == response_body,
        entry.response.stream_note is Some <==> response_body is None,
        entry.response.stream_note matches Some(note) ==> note@ == STREAM_NOTE@,
{
}

/// The name of a log file is the time, the name of the model, with `_` for each
/// slash, backslash, colon and space, and the number of the try behind the first.
pub proof fn file_name_says_time_model_and_try(
    at: UtcInstant,
    model: Seq<char>,
    slugged: Seq<char>,
    tries: nat,
)
    requires
        slugged.len() == model.len(),
        forall|i: int|
            #![trigger slugged[i]]
            0 <= i < model.len() ==> slugged[i] == if model[i] == '/' || model[i] == '\\'
                || model[i] == ':' || model[i] == ' ' {
                '_'
            } else {
                model[i]
            },
    ensures
        ({
            let stem = clock::formatted_text(at.secs(), at.nanos(), clock::FILE_STAMP@) + "_"@
                + slugged;
            &&& file_stem(at, model) == stem
            &&& file_name(at, model, 0) == stem + ".yaml"@
            &&& tries > 0 ==> file_name(at, model, tries) == stem + "_"@ + number::decimal(tries)
                + ".yaml"@
        }),
{
    assert(slug(model) =~= slugged);
}

/// A safe name has no slash, backslash, colon or space in it.
pub proof fn safe_names_have_no_separator(s: Seq<char>)
    requires
        safe_name(s),
    ensures
        forall|i: int|
            0 <= i < s.len() ==> s[i] != '/' && s[i] != '\\' && s[i] != ':' && s[i] != ' ',
{
    assert forall|i: int| 0 <= i < s.len() implies s[i] != '/' && s[i] != '\\' && s[i] != ':'
        && s[i] != ' ' by {}
}

/// A log file is one whose name is something and then the five bytes of `.yaml`.
pub proof fn log_files_end_in_yaml(name: Seq<u8>)
    ensures
        ({
            let n = name.len() as int;
            is_log_file(name) <==> n > 5 && name[n - 5] == 46 && name[n - 4] == 121 && name[n - 3]
                == 97 && name[n - 2] == 109 && name[n - 1] == 108
        }),
{
    let n = name.len() as int;
    if n > 5 {
        let tail = name.skip(n - 5);
        assert(tail[0] == name[n - 5] && tail[1] == name[n - 4] && tail[2] == name[n - 3]
            && tail[3] == name[n - 2] && tail[4] == name[n - 1]);
        if tail[0] == 46 && tail[1] == 121 && tail[2] == 97 && tail[3] == 109 && tail[4] == 108 {
            assert(tail =~= yaml_suffix());
        }
    }
}

/// The places of the log files are those of the names that are log files, each
/// once and in the order of the directory.
pub proof fn every_log_file_is_found_once(names: Seq<Seq<u8>>)
    ensures
        forall|k: int|
            0 <= k < log_places(names).len() ==> {
                &&& 0 <= #[trigger] log_places(names)[k] < names.len()
                &&& is_log_file(names[log_places(names)[k]])
            },
        forall|k: int, l: int|
            #![trigger log_places(names)[k], log_places(names)[l]]
            0 <= k < l < log_places(names).len() ==> log_places(names)[k] < log_places(names)[l],
        forall|i: int|
            #![trigger names[i]]
            0 <= i < names.len() && is_log_file(names[i]) ==> log_places(names).contains(i),
    decreases names.len(),
{
    if names.len() > 0 {
        let fewer = names.drop_last();
        every_log_file_is_found_once(fewer);
        let (before, all) = (log_places(fewer), log_places(names));
        assert forall|k: int| 0 <= k < all.len() implies 0 <= #[trigger] all[k] < names.len()
            && is_log_file(names[all[k]]) by {
            if k < before.len() {
                assert(all[k] == before[k]);
                assert(fewer[before[k]] == names[before[k]]);
            }
        }
        assert forall|k: int, l: int|
            #![trigger all[k], all[l]]
            0 <= k < l < all.len() implies all[k] < all[l] by {
            assert(all[k] == before[k]);
            if l < before.len() {
                assert(all[l] == before[l]);
            }
        }
        assert forall|i: int|
            #![trigger names[i]]
            0 <= i < names.len() && is_log_file(names[i]) implies all.contains(i) by {
            if i < fewer.len() {
                assert(fewer[i] == names[i]);
                assert(before.contains(i));
                let k = choose|k: int| 0 <= k < before.len() && before[k] == i;
                assert(all[k] == i);
            } else {
                assert(all[all.len() - 1] == i);
            }
        }
    }
}

proof fn lemma_aged_file(files: Seq<int>, modified: Seq<Option<i128>>, i: int) -> (k: int)
    requires
        0 <= i < files.len(),
    ensures
        0 <= k < by_age(files, modified).len(),
        by_age(files, modified)[k] == dated(files, modified)[i],
{
    let leq = |a: DatedView, b: DatedView| no_newer(a, b);
    no_newer_is_total();
    dated(files, modified).lemma_sort_by_ensures(leq);
    order::lemma_value_of_same(dated(files, modified), by_age(files, modified), i);
    choose|k: int|
        0 <= k < by_age(files, modified).len() && by_age(files, modified)[k] == dated(
            files,
            modified,
        )[i]
}

proof fn lemma_removed_file(files: Seq<int>, modified: Seq<Option<i128>>, i: int) -> (k: int)
    requires
        files.no_duplicates(),
        0 <= i < files.len(),
        to_remove(files, modified).contains(files[i]),
    ensures
        0 <= k < excess(files),
        k < by_age(files, modified).len(),
        by_age(files, modified)[k] == dated(files, modified)[i],
        to_remove(files, modified)[k] == files[i],
{
    let leq = |a: DatedView, b: DatedView| no_newer(a, b);
    let (all, sorted) = (dated(files, modified), by_age(files, modified));
    let removed = to_remove(files, modified);
    no_newer_is_total();
    all.lemma_sort_by_ensures(leq);
    vstd::seq_lib::to_multiset_len(all);
    vstd::seq_lib::to_multiset_len(sorted);
    let k = choose|k: int| 0 <= k < removed.len() && removed[k] == files[i];
    order::lemma_value_of_same(sorted, all, k);
    let l = choose|l: int| 0 <= l < all.len() && all[l] == sorted[k];
    assert(files[l] == files[i]);
    k
}

/// Of two log files of which one is removed and the other stays, the time that
/// was given for the removed one is no later than that of the other, and at one
/// time it comes before it in the directory. An unknown time counts as the start
/// of 1970.
pub proof fn removed_files_are_no_newer(
    files: Seq<int>,
    modified: Seq<Option<i128>>,
    i: int,
    j: int,
)
    requires
        files.no_duplicates(),
        modified.len() == files.len(),
        0 <= i < files.len(),
        0 <= j < files.len(),
        to_remove(files, modified).contains(files[i]),
        !to_remove(files, modified).contains(files[j]),
    ensures
        modified[i] is Some && modified[j] is Some ==> modified[i]->0 <= modified[j]->0,
        modified[i] is Some && modified[j] is Some && modified[i]->0 == modified[j]->0 ==> files[i]
            < files[j],
        modified[i] is None && modified[j] is Some ==> 0 <= modified[j]->0,
        modified[i] is Some && modified[j] is None ==> modified[i]->0 <= 0,
        modified[i] is None && modified[j] is None ==> files[i] < files[j],
{
    let leq = |a: DatedView, b: DatedView| no_newer(a, b);
    let (all, sorted) = (dated(files, modified), by_age(files, modified));
    let removed = to_remove(files, modified);
    no_newer_is_total();
    all.lemma_sort_by_ensures(leq);
    let k = lemma_removed_file(files, modified, i);
    let l = lemma_aged_file(files, modified, j);
    vstd::seq_lib::to_multiset_len(all);
    vstd::seq_lib::to_multiset_len(sorted);
    if l < excess(files) {
        assert(removed[l] == files[j]);
    }
    assert(leq(sorted[k], sorted[l]));
    assert(files[i] != files[j]);
}

/// As many log files are removed as there are more than 200, each once, and the
/// older ones first.
pub proof fn as_many_are_removed_as_are_too_many(files: Seq<int>, modified: Seq<Option<i128>>)
    requires
        files.no_duplicates(),
        modified.len() == files.len(),
    ensures
        to_remove(files, modified).len() == if files.len() > 200 {
            files.len() - 200
        } else {
            0
        },
        to_remove(files, modified).no_duplicates(),
        forall|k: int|
            0 <= k < to_remove(files, modified).len() ==> files.contains(
                #[trigger] to_remove(files, modified)[k],
            ),
        forall|k: int, l: int, i: int, j: int|
            #![trigger to_remove(files, modified)[k], to_remove(files, modified)[l], modified[i],
                modified[j]]
            0 <= k < l < to_remove(files, modified).len() && 0 <= i < files.len() && 0 <= j
                < files.len() && to_remove(files, modified)[k] == files[i] && to_remove(
                files,
                modified,
            )[l] == files[j] && modified[i] is Some && modified[j] is Some ==> modified[i]->0
                <= modified[j]->0,
{
    let leq = |a: DatedView, b: DatedView| no_newer(a, b);
    let (all, sorted) = (dated(files, modified), by_age(files, modified));
    let removed = to_remove(files, modified);
    no_newer_is_total();
    all.lemma_sort_by_ensures(leq);
    vstd::seq_lib::to_multiset_len(all);
    vstd::seq_lib::to_multiset_len(sorted);
    assert forall|k: int| 0 <= k < removed.len() implies files.contains(#[trigger] removed[k]) by {
        order::lemma_value_of_same(sorted, all, k);
        let i = choose|i: int| 0 <= i < all.len() && all[i] == sorted[k];
        assert(files[i] == removed[k]);
    }
    assert(all.no_duplicates()) by {
        assert forall|a: int, b: int| 0 <= a < b < all.len() implies all[a] != all[b] by {
            assert(files[a] != files[b]);
        }
    }
    all.lemma_multiset_has_no_duplicates();
    sorted.lemma_multiset_has_no_duplicates_conv();
    assert forall|k: int, l: int| 0 <= k < removed.len() && 0 <= l < removed.len() && k
        != l implies removed[k] != removed[l] by {
        order::lemma_value_of_same(sorted, all, k);
        order::lemma_value_of_same(sorted, all, l);
        let i = choose|i: int| 0 <= i < all.len() && all[i] == sorted[k];
        let j = choose|j: int| 0 <= j < all.len() && all[j] == sorted[l];
        assert(sorted[k] != sorted[l]);
        assert(files[i] != files[j]);
    }
    assert forall|k: int, l: int, i: int, j: int|
        #![trigger removed[k], removed[l], modified[i], modified[j]]
        0 <= k < l < removed.len() && 0 <= i < files.len() && 0 <= j < files.len() && removed[k]
            == files[i] && removed[l] == files[j] && modified[i] is Some
            && modified[j] is Some implies modified[i]->0 <= modified[j]->0 by {
        let x = lemma_removed_file(files, modified, i);
        let y = lemma_removed_file(files, modified, j);
        assert(removed[x] == removed[k] && removed[y] == removed[l]);
        assert(x == k && y == l);
        assert(leq(sorted[k], sorted[l]));
    }
}

/// A call that meets no failure goes its way: the directory is made, the text is
/// written under the first free name, the directory is listed, and where it
/// holds more than 200 log files their times are read and the oldest removed.
pub proof fn logging_goes_its_way(
    model: Seq<char>,
    at: UtcInstant,
    yaml: Seq<char>,
    stem: Seq<char>,
    tries: nat,
    names: Seq<Seq<u8>>,
    files: Seq<int>,
    times: Seq<Option<i128>>,
)
    ensures
        next_step(model, StageView::Serializing, EventView::Serialized(Some(yaml)), at) == (
            StageView::CreatingDir { yaml },
            ActionView::CreateDir,
        ),
        next_step(model, StageView::CreatingDir { yaml }, EventView::DirCreated(true), at) == (
            StageView::Writing { stem: file_stem(at, model), yaml, tries: 0 },
            ActionView::Write { name: file_stem(at, model) + ".yaml"@, yaml },
        ),
        tries < usize::MAX ==> next_step(
            model,
            StageView::Writing { stem, yaml, tries },
            EventView::NameTaken,
            at,
        ) == (
            StageView::Writing { stem, yaml, tries: tries + 1 },
            ActionView::Write {
                name: stem + "_"@ + number::decimal(tries + 1) + ".yaml"@,
                yaml,
            },
        ),
        next_step(
            model,
            StageView::Writing { stem, yaml, tries },
            EventView::Written(true),
            at,
        ) == (StageView::Listing, ActionView::List),
        log_places(names).len() > 200 ==> next_step(
            model,
            StageView::Listing,
            EventView::Listed(Some(names)),
            at,
        ) == (
            StageView::Dating { files: log_places(names) },
            ActionView::Date { files: log_places(names) },
        ),
        log_places(names).len() <= 200 ==> next_step(
            model,
            StageView::Listing,
            EventView::Listed(Some(names)),
            at,
        ) == (StageView::Done, ActionView::Stop),
        times.len() == files.len() ==> next_step(
            model,
            StageView::Dating { files },
            EventView::Dated(times),
            at,
        ) == (StageView::Done, ActionView::Remove { files: to_remove(files, times) }),
{
}

/// The models of events and actions show all of them.
pub proof fn models_show_events_and_actions(
    text: String,
    ok: bool,
    names: Vec<Vec<u8>>,
    times: Vec<Option<i128>>,
    files: Vec<usize>,
    i: int,
)
    ensures
        LogEvent::Serialized(Some(text))@ == EventView::Serialized(Some(text@)),
        LogEvent::Serialized(None)@ == EventView::Serialized(None),
        LogEvent::DirCreated(ok)@ == EventView::DirCreated(ok),
        LogEvent::NameTaken@ == EventView::NameTaken,
        LogEvent::Written(ok)@ == EventView::Written(ok),
        LogEvent::Listed(Some(names))@ == EventView::Listed(Some(name_bytes(names@))),
        LogEvent::Listed(None)@ == EventView::Listed(None),
        LogEvent::Dated(times)@ == EventView::Dated(times@),
        LogAction::CreateDir@ == ActionView::CreateDir,
        (LogAction::Write { name: text, yaml: text })@ == (ActionView::Write {
            name: text@,
            yaml: text@,
        }),
        LogAction::List@ == ActionView::List,
        (LogAction::Date { files })@ == (ActionView::Date { files: places(files@) }),
        (LogAction::Remove { files })@ == (ActionView::Remove { files: places(files@) }),
        LogAction::Stop@ == ActionView::Stop,
        name_bytes(names@).len() == names@.len(),
        0 <= i < names@.len() ==> name_bytes(names@)[i] == names@[i]@,
        places(files@).len() == files@.len(),
        0 <= i < files@.len() ==> places(files@)[i] == files@[i],
{
}

} // verus!
