//! The log of API calls.

use deepseek_tui::api_log::{
    api_log_dir, has_yaml_extension, log_api_call, log_file_name, log_file_stem, log_files,
    make_entry, next_file_name, prune_old_logs, set_enabled, should_log, ApiCallLog, Elapsed, LogAction, LogBase, LogEvent,
    LogRun, LogSwitch, MAX_LOG_FILES, STREAM_NOTE,
};
use deepseek_tui::clock::UtcInstant;
use serde_json::Value;

fn json(text: &str) -> Value {
    serde_json::from_str(text).unwrap()
}

fn millis(ms: u64) -> Elapsed {
    Elapsed { secs: ms / 1000, nanos: (ms % 1000) as u32 * 1_000_000 }
}

fn at(secs: i64, nanos: u32) -> UtcInstant {
    UtcInstant::new(secs, nanos).unwrap()
}

/// An entry as YAML, with absent parts left out.
fn yaml(entry: &ApiCallLog) -> String {
    let mut request = serde_json::Map::new();
    request.insert("body".to_string(), entry.request.body.clone());
    let mut response = serde_json::Map::new();
    response.insert("status".to_string(), Value::from(entry.response.status));
    if let Some(body) = entry.response.body {
        response.insert("body".to_string(), body.clone());
    }
    if let Some(note) = entry.response.stream_note {
        response.insert("stream_note".to_string(), Value::from(note));
    }
    let mut all = serde_json::Map::new();
    all.insert("timestamp".to_string(), Value::from(entry.timestamp.as_str()));
    all.insert("model".to_string(), Value::from(entry.model));
    all.insert("endpoint".to_string(), Value::from(entry.endpoint));
    all.insert("duration_ms".to_string(), Value::from(entry.duration_ms));
    all.insert("request".to_string(), Value::Object(request));
    all.insert("response".to_string(), Value::Object(response));
    serde_saphyr::to_string(&Value::Object(all)).unwrap()
}

/// The files in the directory after the logging of a call, which held `files`.
fn written(entry: &ApiCallLog, files: &[&str]) -> Vec<(String, String)> {
    let dir = files.iter().map(|f| (f.to_string(), String::new())).collect();
    logged(entry, &UtcInstant::now(), dir)
}

/// The files in the directory after the logging of a call at an instant.
fn logged(
    entry: &ApiCallLog,
    at: &UtcInstant,
    mut dir: Vec<(String, String)>,
) -> Vec<(String, String)> {
    let mut run = LogRun::start(entry.model);
    let mut action = run.step(LogEvent::Serialized(Some(yaml(entry))), at);
    loop {
        let event = match action {
            LogAction::CreateDir => LogEvent::DirCreated(true),
            LogAction::Write { name, yaml } => {
                if dir.iter().any(|f| f.0 == name) {
                    LogEvent::NameTaken
                } else {
                    dir.push((name, yaml));
                    LogEvent::Written(true)
                }
            }
            LogAction::List => {
                LogEvent::Listed(Some(dir.iter().map(|f| f.0.clone().into_bytes()).collect()))
            }
            LogAction::Date { files } => {
                LogEvent::Dated(files.iter().map(|i| Some(*i as i128)).collect())
            }
            LogAction::Remove { files } => {
                let gone: Vec<String> = files.iter().map(|i| dir[*i].0.clone()).collect();
                dir.retain(|f| !gone.contains(&f.0));
                return dir;
            }
            LogAction::Stop => return dir,
        };
        action = run.step(event, at);
    }
}

fn count_yaml(files: &[(String, String)]) -> usize {
    files.iter().filter(|f| has_yaml_extension(&f.0.clone().into_bytes())).count()
}

#[test]
fn log_api_call_writes_yaml_file() {
    let mut switch = LogSwitch::off();
    set_enabled(&mut switch, true);
    let body = json(
        r#"{"model": "deepseek-v4-flash",
            "messages": [{"role": "user", "content": "hi"}],
            "max_tokens": 1024}"#,
    );
    let response = json(r#"{"id": "chatcmpl-123", "choices": []}"#);

    let entry = log_api_call(
        None,
        &switch,
        "deepseek-v4-flash",
        "chat/completions",
        &body,
        200,
        Some(&response),
        millis(1234),
    )
    .expect("the call is logged");

    let files = written(&entry, &[]);
    assert_eq!(count_yaml(&files), 1, "expected one log file");
    assert_eq!(files.len(), 1);

    let content = &files[0].1;
    assert!(content.contains("model: deepseek-v4-flash"));
    assert!(content.contains("duration_ms: 1234"));
    assert!(content.contains("status: 200"));
    assert!(content.contains("chatcmpl-123"));
}

#[test]
fn log_streaming_call_omits_response_body() {
    let mut switch = LogSwitch::off();
    set_enabled(&mut switch, true);
    let body = json(r#"{"model": "deepseek-v4-pro"}"#);
    let entry = log_api_call(
        None,
        &switch,
        "deepseek-v4-pro",
        "chat/completions",
        &body,
        200,
        None,
        millis(500),
    )
    .expect("the call is logged");

    let files = written(&entry, &[]);
    assert_eq!(count_yaml(&files), 1);

    let content = &files[0].1;
    assert!(content.contains("stream_note:"));
    assert!(content.contains("streaming"));
    assert!(entry.response.body.is_none());
}

#[test]
fn disabled_by_env_skips_write() {
    let mut switch = LogSwitch::off();
    set_enabled(&mut switch, true);
    let body = json(r#"{"model": "test"}"#);
    let entry = log_api_call(Some("0"), &switch, "test", "/", &body, 200, None, millis(1));
    let count = entry.map_or(0, |e| count_yaml(&written(&e, &[])));
    assert_eq!(count, 0);
}

#[test]
fn prune_removes_oldest_files() {
    let mut names: Vec<Vec<u8>> = Vec::new();
    let mut times: Vec<Option<i128>> = Vec::new();
    for i in 0..(MAX_LOG_FILES + 5) {
        names.push(format!("log_{i:05}.yaml").into_bytes());
        times.push(Some(1_000_000 * i as i128));
    }

    let files = log_files(&names);
    let count_before = files.len();
    assert_eq!(count_before, MAX_LOG_FILES + 5);

    let removed = prune_old_logs(&files, &times);
    let count_after = (0..names.len()).filter(|i| !removed.contains(i)).count();
    assert_eq!(count_after, MAX_LOG_FILES);
    assert_eq!(removed, [0, 1, 2, 3, 4]);
}

#[test]
fn the_variable_wins_over_the_switch() {
    let mut switch = LogSwitch::off();
    assert!(!should_log(None, &switch));
    set_enabled(&mut switch, true);
    assert!(should_log(None, &switch));
    for on in ["1", "true", "yes", "on", " TRUE\n", "Yes", "oN "] {
        set_enabled(&mut switch, false);
        assert!(should_log(Some(on), &switch), "{on}");
    }
    for off in ["0", "false", "no", "off", "", " ", "2", "truе", "t r u e", "1 1"] {
        set_enabled(&mut switch, true);
        assert!(!should_log(Some(off), &switch), "{off}");
    }
    set_enabled(&mut switch, false);
    assert!(!should_log(None, &switch));
}

#[test]
fn a_call_is_not_logged_by_default() {
    let body = json("{}");
    let switch = LogSwitch::off();
    assert!(log_api_call(None, &switch, "m", "/", &body, 200, None, millis(1)).is_none());
    assert!(log_api_call(Some("on"), &switch, "m", "/", &body, 200, None, millis(1)).is_some());
}

#[test]
fn the_directory_of_the_log() {
    let named = api_log_dir(Some("/var/log".to_string()), Some(7));
    assert!(matches!(&named.base, LogBase::Path(p) if p == "/var/log"));
    assert!(named.subdirs.is_empty());

    for unset in [None, Some(String::new())] {
        let home = api_log_dir(unset.clone(), Some(7));
        assert!(matches!(home.base, LogBase::Home(7)));
        assert_eq!(home.subdirs, [".deepseek", "api-logs"]);

        let homeless = api_log_dir(unset, None::<i32>);
        assert!(matches!(&homeless.base, LogBase::Path(p) if p == "."));
        assert_eq!(homeless.subdirs, [".deepseek", "api-logs"]);
    }
}

#[test]
fn an_entry_holds_the_call() {
    let request = json(r#"{"a": [1, 2]}"#);
    let response = json("null");
    let entry = make_entry(&at(0, 0), "m/1", "e", &request, 404, Some(&response), millis(7));
    assert_eq!(entry.timestamp, "1970-01-01T00:00:00+00:00");
    assert_eq!(entry.model, "m/1");
    assert_eq!(entry.endpoint, "e");
    assert_eq!(entry.duration_ms, 7);
    assert_eq!(entry.request.body, &request);
    assert_eq!(entry.response.status, 404);
    assert_eq!(entry.response.body, Some(&response));
    assert_eq!(entry.response.stream_note, None);

    let streamed = make_entry(&at(1_700_000_000, 5), "m", "e", &request, 200, None, millis(7));
    assert_eq!(streamed.timestamp, "2023-11-14T22:13:20.000000005+00:00");
    assert_eq!(streamed.response.stream_note, Some(STREAM_NOTE));
    assert_eq!(STREAM_NOTE, "streaming — response body consumed via SSE");
}

#[test]
fn milliseconds_of_a_time() {
    assert_eq!(Elapsed { secs: 0, nanos: 999_999 }.millis(), 0);
    assert_eq!(Elapsed { secs: 0, nanos: 1_000_000 }.millis(), 1);
    assert_eq!(Elapsed { secs: 12, nanos: 345_678_901 }.millis(), 12_345);
    for (secs, nanos) in [(u64::MAX, 999_999_999u32), (u64::MAX / 1000 + 1, 0), (3, 4)] {
        let same = std::time::Duration::new(secs, nanos).as_millis() as u64;
        assert_eq!(Elapsed { secs, nanos }.millis(), same);
    }
}

#[test]
fn names_of_log_files() {
    assert_eq!(log_file_name(&at(0, 0), "a/b", 0), "19700101T000000_a_b.yaml");
    assert_eq!(
        log_file_name(&at(1_700_000_000, 999_999_999), "x\\y:z w/é", 0),
        "20231114T221320_x_y_z_w_é.yaml"
    );
    assert_eq!(log_file_name(&at(0, 0), "", 0), "19700101T000000_.yaml");
    assert_eq!(log_file_name(&at(0, 0), "m", 1), "19700101T000000_m_1.yaml");
    assert_eq!(log_file_name(&at(0, 0), "m", 12), "19700101T000000_m_12.yaml");
    assert_eq!(log_file_stem(&at(0, 0), "m"), "19700101T000000_m");
    assert_eq!(next_file_name("x", 0), "x.yaml");
    assert_eq!(next_file_name("x", 3), "x_3.yaml");
}

#[test]
fn instants_of_the_calendar() {
    let first = at(-8_334_601_228_800, 0);
    let last = at(8_210_266_876_799, 999_999_999);
    assert_eq!(first.file_stamp(), "-2621430101T000000");
    assert_eq!(last.file_stamp(), "+2621421231T235959");
    assert!(first.to_rfc3339().starts_with("-262143-01-01T00:00:00"));
    assert!(last.to_rfc3339().starts_with("+262142-12-31T23:59:59.999999999"));
    assert!(UtcInstant::new(-8_334_601_228_801, 0).is_none());
    assert!(UtcInstant::new(8_210_266_876_800, 0).is_none());
    assert!(UtcInstant::new(0, 1_000_000_000).is_none());
    let stamp = UtcInstant::now().file_stamp();
    assert_eq!(stamp.len(), 15);
    assert_eq!(stamp.as_bytes()[8], 'T' as u8);
}

#[test]
fn log_files_are_those_with_the_extension() {
    let names = ["a.yaml", ".yaml", "yaml", "b.yml", "c.d.yaml", "e.YAML", "x.yaml.bak", "é.yaml"];
    let bytes: Vec<Vec<u8>> = names.iter().map(|n| n.as_bytes().to_vec()).collect();
    assert_eq!(log_files(&bytes), [0, 4, 7]);
    for name in names {
        let extension = std::path::Path::new(name).extension();
        assert_eq!(
            has_yaml_extension(&name.as_bytes().to_vec()),
            extension.map_or(false, |e| e == "yaml"),
            "{name}"
        );
    }
}

#[test]
fn pruning_keeps_the_newest_files() {
    let files: Vec<usize> = (0..MAX_LOG_FILES + 3).map(|i| 2 * i).collect();
    let mut times: Vec<Option<i128>> = vec![Some(50); files.len()];
    times[10] = Some(49);
    times[20] = None;
    times[30] = Some(-1);
    times[40] = Some(51);
    assert_eq!(prune_old_logs(&files, &times), [60, 40, 20]);

    times[20] = Some(50);
    assert_eq!(prune_old_logs(&files, &times), [60, 20, 0]);

    let few: Vec<usize> = (0..MAX_LOG_FILES).collect();
    assert!(prune_old_logs(&few, &vec![None; few.len()]).is_empty());
}

#[test]
fn the_written_file_counts_for_pruning() {
    let body = json("{}");
    let entry = make_entry(&at(0, 0), "m", "/", &body, 200, None, millis(1));
    let old: Vec<String> = (0..MAX_LOG_FILES).map(|i| format!("{i}.yaml")).collect();
    let mut names: Vec<&str> = old.iter().map(|n| n.as_str()).collect();
    names.push("notes.txt");
    let files = written(&entry, &names);
    assert_eq!(count_yaml(&files), MAX_LOG_FILES);
    assert_eq!(files.len(), MAX_LOG_FILES + 1);
    assert!(!files.iter().any(|f| f.0 == "0.yaml"));
    assert!(files.iter().any(|f| f.0 == "1.yaml"));
    assert!(files.last().unwrap().0.ends_with("_m.yaml"));
}

#[test]
fn calls_within_one_second_leave_a_record_each() {
    let bodies = [json("1"), json("2"), json("3")];
    let mut dir: Vec<(String, String)> = Vec::new();
    for body in &bodies {
        let entry = make_entry(&at(0, 0), "m", "/", body, 200, None, millis(1));
        dir = logged(&entry, &at(0, 5), dir);
    }
    let names: Vec<&str> = dir.iter().map(|f| f.0.as_str()).collect();
    assert_eq!(
        names,
        ["19700101T000000_m.yaml", "19700101T000000_m_1.yaml", "19700101T000000_m_2.yaml"]
    );
    for (i, body) in bodies.iter().enumerate() {
        assert!(dir[i].1.contains(&format!("body: {body}")), "{}", dir[i].1);
    }
}

#[test]
fn a_taken_name_is_followed_by_the_next() {
    let mut run = LogRun::start("m");
    let _ = run.step(LogEvent::Serialized(Some("y".to_string())), &at(0, 0));
    let _ = run.step(LogEvent::DirCreated(true), &at(0, 0));
    for tries in 1..30 {
        match run.step(LogEvent::NameTaken, &at(tries, 0)) {
            LogAction::Write { name, yaml } => {
                assert_eq!(name, format!("19700101T000000_m_{tries}.yaml"));
                assert_eq!(yaml, "y");
            }
            _ => panic!("nothing is written"),
        }
    }
    assert!(matches!(run.step(LogEvent::Written(true), &at(40, 0)), LogAction::List));
    assert!(matches!(run.step(LogEvent::NameTaken, &at(40, 0)), LogAction::Stop));
}

#[test]
fn a_failure_ends_the_logging() {
    let stops = |action: LogAction| matches!(action, LogAction::Stop);

    let mut run = LogRun::start("m");
    assert!(stops(run.next(LogEvent::Serialized(None))));
    assert!(stops(run.next(LogEvent::Serialized(Some("y".to_string())))));

    let mut run = LogRun::start("m");
    assert!(matches!(
        run.next(LogEvent::Serialized(Some("y".to_string()))),
        LogAction::CreateDir
    ));
    assert!(stops(run.next(LogEvent::DirCreated(false))));

    let mut run = LogRun::start("a b");
    let _ = run.step(LogEvent::Serialized(Some("y".to_string())), &at(0, 0));
    match run.step(LogEvent::DirCreated(true), &at(1, 0)) {
        LogAction::Write { name, yaml } => {
            assert_eq!(name, "19700101T000001_a_b.yaml");
            assert_eq!(yaml, "y");
        }
        _ => panic!("nothing is written"),
    }
    assert!(stops(run.step(LogEvent::Written(false), &at(2, 0))));
    assert!(stops(run.step(LogEvent::Listed(Some(Vec::new())), &at(2, 0))));

    let mut run = LogRun::start("m");
    let _ = run.next(LogEvent::Serialized(Some("y".to_string())));
    let _ = run.next(LogEvent::DirCreated(true));
    assert!(matches!(run.next(LogEvent::Written(true)), LogAction::List));
    assert!(stops(run.next(LogEvent::Listed(None))));
}

#[test]
fn few_files_are_not_dated() {
    let mut run = LogRun::start("m");
    let _ = run.next(LogEvent::Serialized(Some("y".to_string())));
    let _ = run.next(LogEvent::DirCreated(true));
    let _ = run.next(LogEvent::Written(true));
    let names: Vec<Vec<u8>> =
        (0..MAX_LOG_FILES).map(|i| format!("{i}.yaml").into_bytes()).collect();
    assert!(matches!(run.next(LogEvent::Listed(Some(names))), LogAction::Stop));
}
