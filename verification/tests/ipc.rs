use slimsync::ipc::client_outcome;
use slimsync::ipc::client_request;
use slimsync::ipc::answer_line;
use slimsync::ipc::dirs_data;
use slimsync::ipc::dispatch;
use slimsync::ipc::status_data;
use slimsync::ipc::ClientCommand;
use slimsync::ipc::ClientOutcome;
use slimsync::ipc::ClientResponse;
use slimsync::ipc::Connection;
use slimsync::ipc::ConnectionAction;
use slimsync::ipc::ConnectionEvent;
use slimsync::ipc::IpcAction;
use slimsync::ipc::IpcData;
use slimsync::ipc::IpcRequest;
use slimsync::ipc::LineRead;
use slimsync::ledger::LocalLedger;
use slimsync::tracker::WatchCommand;

fn request(cmd: &str, path: Option<&str>) -> IpcRequest {
    IpcRequest { cmd: cmd.to_string(), path: path.map(|p| p.to_string()) }
}

fn refusal(cmd: &str, path: Option<&str>) -> String {
    match dispatch(request(cmd, path)) {
        IpcAction::Respond(r) => {
            assert!(!r.ok && r.data.is_none());
            r.error.unwrap()
        }
        _ => panic!("not refused"),
    }
}

#[test]
fn directories_are_added_and_removed() {
    match dispatch(request("dir_add", Some("/a"))) {
        IpcAction::Watch(WatchCommand::AddDir(p), r) => {
            assert_eq!(p, "/a");
            assert!(r.ok && r.error.is_none());
            assert!(matches!(r.data, Some(IpcData::Path(p)) if p == "/a"));
        }
        _ => panic!("no change of the watch"),
    }
    assert!(matches!(
        dispatch(request("dir_remove", Some("/a"))),
        IpcAction::Watch(WatchCommand::RemoveDir(p), r) if p == "/a" && r.ok
    ));
}

#[test]
fn refused_requests() {
    assert_eq!(refusal("dir_add", None), "missing path");
    assert_eq!(refusal("dir_remove", None), "missing path");
    assert_eq!(refusal("explode", Some("/x")), "unknown cmd: explode");
    assert_eq!(refusal("", None), "unknown cmd: ");
    assert_eq!(refusal("Status", None), "unknown cmd: Status");
}

#[test]
fn lists_status_and_reload() {
    assert!(matches!(dispatch(request("dir_list", None)), IpcAction::ListDirs));
    assert!(matches!(dispatch(request("status", Some("ignored"))), IpcAction::Status));
    assert!(matches!(
        dispatch(request("reload", None)),
        IpcAction::Respond(r) if r.ok && r.data.is_none() && r.error.is_none()
    ));
}

#[test]
fn every_client_command_is_understood() {
    let p = || "/d".to_string();
    assert!(matches!(dispatch(client_request(ClientCommand::DirAdd(p()))), IpcAction::Watch(WatchCommand::AddDir(_), _)));
    assert!(matches!(dispatch(client_request(ClientCommand::DirRemove(p()))), IpcAction::Watch(WatchCommand::RemoveDir(_), _)));
    assert!(matches!(dispatch(client_request(ClientCommand::DirList)), IpcAction::ListDirs));
    assert!(matches!(dispatch(client_request(ClientCommand::Status)), IpcAction::Status));
    assert!(matches!(dispatch(client_request(ClientCommand::Reload)), IpcAction::Respond(r) if r.ok));
}

#[test]
fn gathered_data() {
    let d = dirs_data(Some(vec!["/a".to_string()]));
    assert!(matches!(d, IpcData::Dirs(d) if d == vec!["/a"]));
    assert!(matches!(dirs_data(None), IpcData::Dirs(d) if d.is_empty()));
    let mut l = LocalLedger::open(Vec::new(), Vec::new(), Vec::new(), Vec::new());
    l.watch_dir("/a", 1);
    l.watch_dir("/b", 1);
    assert!(matches!(
        status_data(12, "0.1.0".to_string(), &l, true),
        IpcData::Status { uptime_secs: 12, version, watched_dirs: 2, zenoh_online: true } if version == "0.1.0"
    ));
}

#[test]
fn failures_to_read() {
    let error = |line| match answer_line(line) {
        IpcAction::Respond(r) => {
            assert!(!r.ok && r.data.is_none());
            r.error.unwrap()
        }
        _ => panic!("not refused"),
    };
    assert_eq!(error(LineRead::ReadError("boom".to_string())), "read error: boom");
    assert_eq!(error(LineRead::NotJson("eof".to_string())), "invalid JSON: eof");
    assert_eq!(error(LineRead::Request(request("nope", None))), "unknown cmd: nope");
}

fn line(cmd: &str, path: Option<&str>) -> ConnectionEvent {
    ConnectionEvent::Line(LineRead::Request(request(cmd, path)))
}

fn not_json() -> ConnectionEvent {
    ConnectionEvent::Line(LineRead::NotJson("x".to_string()))
}

#[test]
fn each_line_gets_one_response() {
    let (mut c, first) = Connection::open();
    assert!(matches!(first, ConnectionAction::Read));
    let events = vec![
        line("dir_add", Some("/a")),
        ConnectionEvent::Written(true),
        not_json(),
        ConnectionEvent::Written(false),
        line("dir_list", None),
        ConnectionEvent::Data(dirs_data(None)),
        ConnectionEvent::Written(true),
        line("status", None),
        ConnectionEvent::Data(IpcData::Status {
            uptime_secs: 1,
            version: "v".to_string(),
            watched_dirs: 0,
            zenoh_online: false,
        }),
        ConnectionEvent::Written(true),
        line("dir_remove", None),
        ConnectionEvent::Written(true),
        ConnectionEvent::End,
    ];
    let mut seen: Vec<String> = Vec::new();
    for event in events {
        seen.push(match c.step(event) {
            ConnectionAction::Read => "read".to_string(),
            ConnectionAction::Answer(IpcAction::Respond(r)) => format!("respond {}", r.ok),
            ConnectionAction::Answer(IpcAction::Watch(_, r)) => format!("watch {}", r.ok),
            ConnectionAction::Answer(IpcAction::ListDirs) => "list".to_string(),
            ConnectionAction::Answer(IpcAction::Status) => "status".to_string(),
            ConnectionAction::Write(r) => format!("write {}", r.ok),
            ConnectionAction::Close => "close".to_string(),
        });
    }
    assert_eq!(
        seen,
        vec![
            "watch true", "read", "respond false", "read", "list", "write true", "read", "status",
            "write true", "read", "respond false", "read", "close"
        ]
    );
}

#[test]
fn connections_end() {
    let (mut c, _) = Connection::open();
    c.step(ConnectionEvent::Line(LineRead::ReadError("gone".to_string())));
    assert!(matches!(c.step(ConnectionEvent::Written(true)), ConnectionAction::Close));
    let (mut c, _) = Connection::open();
    c.step(line("reload", None));
    assert!(matches!(c.step(ConnectionEvent::Written(false)), ConnectionAction::Close));
    let (mut c, _) = Connection::open();
    assert!(matches!(c.step(ConnectionEvent::End), ConnectionAction::Close));
}

#[test]
fn outcomes_for_the_command_line() {
    let resp = |ok, data: Option<&str>, error: Option<&str>| {
        Some(ClientResponse { ok, data: data.map(|s| s.to_string()), error: error.map(|s| s.to_string()) })
    };
    assert!(matches!(client_outcome(None), ClientOutcome::Fail(s) if s == "error: invalid response from daemon"));
    assert!(matches!(client_outcome(resp(true, Some("{}"), None)), ClientOutcome::Print(s) if s == "{}"));
    assert!(matches!(client_outcome(resp(true, None, None)), ClientOutcome::Print(s) if s == "ok"));
    assert!(matches!(client_outcome(resp(false, None, Some("no"))), ClientOutcome::Fail(s) if s == "error: no"));
    assert!(matches!(client_outcome(resp(false, None, None)), ClientOutcome::Fail(s) if s == "error: unknown"));
}
