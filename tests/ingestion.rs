use logsentry::dictionary::extract_unique_entries_from_logs;
use logsentry::ingestion::{IngestionState, WatchAction, WatchEvent};
use logsentry::scoring::Criticality;

fn strings(v: &[&str]) -> Vec<String> {
    v.iter().map(|s| s.to_string()).collect()
}

#[test]
fn watcher_reads_only_growth() {
    let state = IngestionState::new(strings(&["GET /a", "GET /b"]));
    assert_eq!(state.offset(), 2);
    assert_eq!(state.on_event(WatchEvent::Written { total_lines: 2 }), WatchAction::Idle);
    assert_eq!(state.on_event(WatchEvent::Written { total_lines: 1 }), WatchAction::Idle);
    assert_eq!(state.on_event(WatchEvent::Created), WatchAction::Idle);
    assert_eq!(state.on_event(WatchEvent::Other), WatchAction::Idle);
    assert_eq!(
        state.on_event(WatchEvent::Written { total_lines: 5 }),
        WatchAction::ReadNewLines { from: 2, to: 5 }
    );
}

#[test]
fn drain_cycles_score_each_new_line_once() {
    let d = strings(&["/", "?", "&", "="]);
    let dict = extract_unique_entries_from_logs(&strings(&["GET /api/user?id=5"]), &d);
    let mut state = IngestionState::new(strings(&["GET /api/user?id=5"]));
    let flagged = state.drain(&strings(&["POST /api/admin?id=999", "GET /api/user"]), &d, &dict);
    assert_eq!(flagged, strings(&["GET /api/user"]));
    assert_eq!(state.offset(), 3);
    assert_eq!(state.verdicts(), &vec![Criticality::Medium, Criticality::High]);
    let flagged = state.drain(&strings(&["GET /id=5"]), &d, &dict);
    assert_eq!(flagged, strings(&["GET /id=5"]));
    assert_eq!(state.offset(), 4);
    assert_eq!(state.logs().len(), 4);
    assert_eq!(state.verdicts().len(), 3);
    assert_eq!(state.on_event(WatchEvent::Written { total_lines: 4 }), WatchAction::Idle);
}

#[test]
fn ingest_cycles_follow_the_file() {
    let d = strings(&["/", "?", "&", "="]);
    let dict = extract_unique_entries_from_logs(&strings(&["GET /api/user?id=5"]), &d);
    let file = strings(&["GET /x", "GET /api/user", "POST /api/admin?id=999", "GET /id=5", "GET /q"]);
    let mut state = IngestionState::new(file[..1].to_vec());
    let flagged = state.ingest(WatchEvent::Written { total_lines: 3 }, &file[1..], &d, &dict);
    assert_eq!(flagged, strings(&["GET /api/user"]));
    assert_eq!(state.offset(), 3);
    let flagged = state.ingest(WatchEvent::Written { total_lines: 3 }, &file[3..], &d, &dict);
    assert!(flagged.is_empty());
    assert_eq!(state.offset(), 3);
    let flagged = state.ingest(WatchEvent::Created, &file[3..], &d, &dict);
    assert!(flagged.is_empty());
    let flagged = state.ingest(WatchEvent::Written { total_lines: 4 }, &file[3..], &d, &dict);
    assert_eq!(flagged, strings(&["GET /id=5"]));
    assert_eq!(state.offset(), 4);
    assert_eq!(state.logs(), &file[..4].to_vec());
    assert_eq!(state.verdicts(), &vec![Criticality::High, Criticality::Medium, Criticality::High]);
}
