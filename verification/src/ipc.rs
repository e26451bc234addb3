//! The conversation between the command line and the running client.

use vstd::prelude::*;

use crate::ledger::LocalLedger;
use crate::text::same_text;
use crate::tracker::WatchCommand;

verus! {

use crate::text::texts;

/// A request to the running client.
pub struct IpcRequest {
    pub cmd: String,
    pub path: Option<String>,
}

/// What a response carries.
pub enum IpcData {
    /// The directory that was named.
    Path(String),
    /// The watched directories.
    Dirs(Vec<String>),
    /// How the client is.
    Status { uptime_secs: u64, version: String, watched_dirs: u64, zenoh_online: bool },
}

/// The response of the running client.
pub struct IpcResponse {
    pub ok: bool,
    pub data: Option<IpcData>,
    pub error: Option<String>,
}

/// What a request leads to.
pub enum IpcAction {
    /// Nothing but the response.
    Respond(IpcResponse),
    /// The watch has to change, whatever becomes of that the response stands.
    Watch(WatchCommand, IpcResponse),
    /// The watch has to be asked for its directories.
    ListDirs,
    /// The status has to be gathered.
    Status,
}

/// The response is a failure with this text.
pub open spec fn fails_with(r: IpcResponse, error: Seq<char>) -> bool {
    !r.ok && r.data is None && r.error is Some && r.error->0@ == error
}

/// The response is a success that carries this.
pub open spec fn succeeds_with(r: IpcResponse, data: Option<IpcData>) -> bool {
    r.ok && r.data == data && r.error is None
}

fn failure(error: String) -> (r: IpcResponse)
    ensures
        fails_with(r, error@),
{
    IpcResponse { ok: false, data: None, error: Some(error) }
}

fn success(data: Option<IpcData>) -> (r: IpcResponse)
    ensures
        succeeds_with(r, data),
{
    IpcResponse { ok: true, data, error: None }
}

/// A text in front of another.
fn prefixed(prefix: &str, rest: &str) -> (r: String)
    ensures
        r@ == prefix@ + rest@,
{
    let mut r: String = prefix.to_string();
    r.append(rest);
    r
}

/// The commands to the running client.
pub open spec fn is_known(cmd: Seq<char>) -> bool {
    ||| cmd == "dir_add"@
    ||| cmd == "dir_remove"@
    ||| cmd == "dir_list"@
    ||| cmd == "status"@
    ||| cmd == "reload"@
}

/// What a request leads to.
pub open spec fn answers(req: IpcRequest, action: IpcAction) -> bool {
    if req.cmd@ == "dir_add"@ || req.cmd@ == "dir_remove"@ {
        match req.path {
            None => action matches IpcAction::Respond(r) && fails_with(r, "missing path"@),
            Some(path) => {
                &&& action matches IpcAction::Watch(command, r)
                &&& succeeds_with(r, Some(IpcData::Path(path)))
                &&& command == if req.cmd@ == "dir_add"@ {
                    WatchCommand::AddDir(path)
                } else {
                    WatchCommand::RemoveDir(path)
                }
            },
        }
    } else if req.cmd@ == "dir_list"@ {
        action is ListDirs
    } else if req.cmd@ == "status"@ {
        action is Status
    } else if req.cmd@ == "reload"@ {
        action matches IpcAction::Respond(r) && succeeds_with(r, None)
    } else {
        action matches IpcAction::Respond(r) && fails_with(r, "unknown cmd: "@ + req.cmd@)
    }
}

/// Decides what a request leads to.
pub fn dispatch(req: IpcRequest) -> (r: IpcAction)
    ensures
        answers(req, r),
{
    let adds: bool = same_text(&req.cmd, "dir_add");
    if adds || same_text(&req.cmd, "dir_remove") {
        return match req.path {
            None => IpcAction::Respond(failure("missing path".to_string())),
            Some(path) => {
                let response = success(Some(IpcData::Path(path.clone())));
                if adds {
                    IpcAction::Watch(WatchCommand::AddDir(path), response)
                } else {
                    IpcAction::Watch(WatchCommand::RemoveDir(path), response)
                }
            },
        };
    }
    if same_text(&req.cmd, "dir_list") {
        IpcAction::ListDirs
    } else if same_text(&req.cmd, "status") {
        IpcAction::Status
    } else if same_text(&req.cmd, "reload") {
        IpcAction::Respond(success(None))
    } else {
        IpcAction::Respond(failure(prefixed("unknown cmd: ", &req.cmd)))
    }
}

/// The watched directories as data; without an answer from the watch there are none.
pub fn dirs_data(dirs: Option<Vec<String>>) -> (r: IpcData)
    ensures
        r matches IpcData::Dirs(list) && texts(list@) == (match dirs {
            Some(d) => texts(d@),
            None => Seq::empty(),
        }),
{
    match dirs {
        Some(d) => IpcData::Dirs(d),
        None => {
            let none: Vec<String> = Vec::new();
            assert(texts(none@) =~= Seq::<Seq<char>>::empty());
            IpcData::Dirs(none)
        },
    }
}

/// The status as data.
pub fn status_data(
    uptime_secs: u64,
    version: String,
    ledger: &LocalLedger,
    zenoh_online: bool,
) -> (r: IpcData)
    ensures
        r matches IpcData::Status { uptime_secs: u, version: v, watched_dirs: w, zenoh_online: z }
            && u == uptime_secs && v == version && w == ledger@.watched.len() && z == zenoh_online,
{
    let watched_dirs: u64 = ledger.watched_dirs().len() as u64;
    IpcData::Status { uptime_secs, version, watched_dirs, zenoh_online }
}

/// What came in where a line was to be read.
pub enum LineRead {
    /// A request.
    Request(IpcRequest),
    /// A line that is no request, and why it is none.
    NotJson(String),
    /// No line: it could not be read, for this reason.
    ReadError(String),
}

/// What a line leads to.
pub open spec fn answers_line(line: LineRead, action: IpcAction) -> bool {
    match line {
        LineRead::Request(req) => answers(req, action),
        LineRead::NotJson(reason) => action matches IpcAction::Respond(r) && fails_with(
            r,
            "invalid JSON: "@ + reason@,
        ),
        LineRead::ReadError(reason) => action matches IpcAction::Respond(r) && fails_with(
            r,
            "read error: "@ + reason@,
        ),
    }
}

/// Decides what a line leads to.
pub fn answer_line(line: LineRead) -> (r: IpcAction)
    ensures
        answers_line(line, r),
{
    match line {
        LineRead::Request(req) => dispatch(req),
        LineRead::NotJson(reason) => IpcAction::Respond(
            failure(prefixed("invalid JSON: ", &reason)),
        ),
        LineRead::ReadError(reason) => IpcAction::Respond(
            failure(prefixed("read error: ", &reason)),
        ),
    }
}

/// When a connection goes on after a response.
#[derive(Clone, Copy, Debug, PartialEq, Eq, Structural)]
pub enum GoesOn {
    Always,
    IfWritten,
    Never,
}

/// What a connection waits for.
#[derive(Clone, Copy, Debug, PartialEq, Eq, Structural)]
pub enum ConnectionPhase {
    /// A line.
    Reading,
    /// The watched directories.
    Listing,
    /// The status.
    Gathering,
    /// The response to be written.
    Writing(GoesOn),
    /// Nothing.
    Closed,
}

/// What happens on a connection.
pub enum ConnectionEvent {
    /// A line came in.
    Line(LineRead),
    /// No more lines will come.
    End,
    /// The data that were asked for.
    Data(IpcData),
    /// The response was written, or could not be.
    Written(bool),
}

/// What a connection asks for.
pub enum ConnectionAction {
    /// Read a line.
    Read,
    /// Do what a line leads to; a response that it has is written.
    Answer(IpcAction),
    /// Write the response.
    Write(IpcResponse),
    /// Close the connection.
    Close,
}

/// The event is of the kind that is waited for.
pub open spec fn awaits(phase: ConnectionPhase, event: ConnectionEvent) -> bool {
    match phase {
        ConnectionPhase::Reading => event is Line || event is End,
        ConnectionPhase::Listing => event matches ConnectionEvent::Data(data) && data is Dirs,
        ConnectionPhase::Gathering => event matches ConnectionEvent::Data(data) && data is Status,
        ConnectionPhase::Writing(_) => event is Written,
        ConnectionPhase::Closed => false,
    }
}

/// When a connection goes on after the response to a line: after a request if the response could be
/// written, after a line that is no request in any case, and not after a failure to read.
pub open spec fn goes_on_after(line: LineRead) -> GoesOn {
    match line {
        LineRead::Request(_) => GoesOn::IfWritten,
        LineRead::NotJson(_) => GoesOn::Always,
        LineRead::ReadError(_) => GoesOn::Never,
    }
}

/// What a connection waits for and asks for after an event.
pub open spec fn follows(
    phase: ConnectionPhase,
    event: ConnectionEvent,
    after: ConnectionPhase,
    action: ConnectionAction,
) -> bool {
    match (phase, event) {
        (ConnectionPhase::Reading, ConnectionEvent::Line(line)) => {
            &&& action matches ConnectionAction::Answer(answer)
            &&& answers_line(line, answer)
            &&& after == match answer {
                IpcAction::ListDirs => ConnectionPhase::Listing,
                IpcAction::Status => ConnectionPhase::Gathering,
                _ => ConnectionPhase::Writing(goes_on_after(line)),
            }
        },
        (ConnectionPhase::Listing, ConnectionEvent::Data(data)) => {
            &&& action matches ConnectionAction::Write(r)
            &&& succeeds_with(r, Some(data))
            &&& after == ConnectionPhase::Writing(GoesOn::IfWritten)
        },
        (ConnectionPhase::Gathering, ConnectionEvent::Data(data)) => {
            &&& action matches ConnectionAction::Write(r)
            &&& succeeds_with(r, Some(data))
            &&& after == ConnectionPhase::Writing(GoesOn::IfWritten)
        },
        (ConnectionPhase::Writing(goes_on), ConnectionEvent::Written(written)) => {
            if goes_on == GoesOn::Always || goes_on == GoesOn::IfWritten && written {
                action is Read && after is Reading
            } else {
                action is Close && after is Closed
            }
        },
        _ => action is Close && after is Closed,
    }
}

/// A connection of the command line to the running client.
pub struct Connection {
    phase: ConnectionPhase,
}

impl Connection {
    /// What the connection waits for.
    pub closed spec fn phase(&self) -> ConnectionPhase {
        self.phase
    }

    /// A new connection: a line is to be read.
    pub fn open() -> (r: (Self, ConnectionAction))
        ensures
            r.0.phase() is Reading,
            r.1 is Read,
    {
        (Connection { phase: ConnectionPhase::Reading }, ConnectionAction::Read)
    }

    /// Goes on after an event.
    pub fn step(&mut self, event: ConnectionEvent) -> (r: ConnectionAction)
        requires
            awaits(old(self).phase(), event),
        ensures
            follows(old(self).phase(), event, final(self).phase(), r),
    {
        let phase: ConnectionPhase = self.phase;
        self.phase = ConnectionPhase::Closed;
        match (phase, event) {
            (ConnectionPhase::Reading, ConnectionEvent::Line(line)) => {
                let goes_on: GoesOn = match &line {
                    LineRead::Request(_) => GoesOn::IfWritten,
                    LineRead::NotJson(_) => GoesOn::Always,
                    LineRead::ReadError(_) => GoesOn::Never,
                };
                let answer = answer_line(line);
                self.phase = match &answer {
                    IpcAction::ListDirs => ConnectionPhase::Listing,
                    IpcAction::Status => ConnectionPhase::Gathering,
                    _ => ConnectionPhase::Writing(goes_on),
                };
                ConnectionAction::Answer(answer)
            },
            (ConnectionPhase::Listing, ConnectionEvent::Data(data)) => {
                self.phase = ConnectionPhase::Writing(GoesOn::IfWritten);
                ConnectionAction::Write(success(Some(data)))
            },
            (ConnectionPhase::Gathering, ConnectionEvent::Data(data)) => {
                self.phase = ConnectionPhase::Writing(GoesOn::IfWritten);
                ConnectionAction::Write(success(Some(data)))
            },
            (ConnectionPhase::Writing(goes_on), ConnectionEvent::Written(written)) => {
                if goes_on == GoesOn::Always || goes_on == GoesOn::IfWritten && written {
                    self.phase = ConnectionPhase::Reading;
                    ConnectionAction::Read
                } else {
                    ConnectionAction::Close
                }
            },
            _ => ConnectionAction::Close,
        }
    }
}

/// A line that is carried out: a request with a known command, and a path where it needs one.
pub open spec fn is_accepted(line: LineRead) -> bool {
    &&& line matches LineRead::Request(req)
    &&& is_known(req.cmd@)
    &&& req.cmd@ == "dir_add"@ || req.cmd@ == "dir_remove"@ ==> req.path is Some
}

/// The response belongs to the line.
pub open spec fn responds(line: LineRead, r: IpcResponse) -> bool {
    &&& r.ok == is_accepted(line)
    &&& match line {
        LineRead::NotJson(reason) => fails_with(r, "invalid JSON: "@ + reason@),
        LineRead::ReadError(reason) => fails_with(r, "read error: "@ + reason@),
        LineRead::Request(req) => if req.cmd@ == "dir_add"@ || req.cmd@ == "dir_remove"@ {
            match req.path {
                Some(path) => succeeds_with(r, Some(IpcData::Path(path))),
                None => fails_with(r, "missing path"@),
            }
        } else if req.cmd@ == "dir_list"@ {
            r.data matches Some(data) && data is Dirs && r.error is None
        } else if req.cmd@ == "status"@ {
            r.data matches Some(data) && data is Status && r.error is None
        } else if req.cmd@ == "reload"@ {
            succeeds_with(r, None)
        } else {
            fails_with(r, "unknown cmd: "@ + req.cmd@)
        },
    }
}

/// The response that an action has written, if it has one.
pub open spec fn response_of(action: ConnectionAction) -> Option<IpcResponse> {
    match action {
        ConnectionAction::Answer(IpcAction::Respond(r)) => Some(r),
        ConnectionAction::Answer(IpcAction::Watch(_, r)) => Some(r),
        ConnectionAction::Write(r) => Some(r),
        _ => None,
    }
}

/// The lines that came in, in order.
pub open spec fn lines_of(events: Seq<ConnectionEvent>) -> Seq<LineRead>
    decreases events.len(),
{
    if events.len() == 0 {
        Seq::empty()
    } else {
        let front = lines_of(events.drop_last());
        match events.last() {
            ConnectionEvent::Line(line) => front.push(line),
            _ => front,
        }
    }
}

/// The responses that were written, in order.
pub open spec fn responses_of(actions: Seq<ConnectionAction>) -> Seq<IpcResponse>
    decreases actions.len(),
{
    if actions.len() == 0 {
        Seq::empty()
    } else {
        let front = responses_of(actions.drop_last());
        match response_of(actions.last()) {
            Some(r) => front.push(r),
            None => front,
        }
    }
}

/// What happened on a connection from its beginning: each event, what was asked for after it, and
/// what was waited for before the first and after each.
pub open spec fn is_conversation(
    phases: Seq<ConnectionPhase>,
    events: Seq<ConnectionEvent>,
    actions: Seq<ConnectionAction>,
) -> bool {
    &&& phases.len() == events.len() + 1
    &&& actions.len() == events.len()
    &&& phases[0] is Reading
    &&& forall|i: int|
        #![trigger events[i]]
        0 <= i < events.len() ==> awaits(phases[i], events[i]) && follows(
            phases[i],
            events[i],
            phases[i + 1],
            actions[i],
        )
}

/// Something was asked for that the response to the last line has to carry.
pub open spec fn is_gathering(phase: ConnectionPhase) -> bool {
    phase is Listing || phase is Gathering
}

/// Each line gets exactly one response, its own, in the order of the lines; only the last one may
/// still lack it, while what it asks for is gathered.
pub proof fn law_one_response_per_line(
    phases: Seq<ConnectionPhase>,
    events: Seq<ConnectionEvent>,
    actions: Seq<ConnectionAction>,
)
    requires
        is_conversation(phases, events, actions),
    ensures
        ({
            let lines = lines_of(events);
            let responses = responses_of(actions);
            &&& lines.len() == responses.len() + if is_gathering(phases.last()) {
                1int
            } else {
                0int
            }
            &&& forall|k: int|
                0 <= k < responses.len() ==> responds(lines[k], #[trigger] responses[k])
        }),
{
    lemma_conversation(phases, events, actions);
}

proof fn lemma_conversation(
    phases: Seq<ConnectionPhase>,
    events: Seq<ConnectionEvent>,
    actions: Seq<ConnectionAction>,
)
    requires
        is_conversation(phases, events, actions),
    ensures
        ({
            let lines = lines_of(events);
            let responses = responses_of(actions);
            &&& lines.len() == responses.len() + if is_gathering(phases.last()) {
                1int
            } else {
                0int
            }
            &&& forall|k: int|
                0 <= k < responses.len() ==> responds(lines[k], #[trigger] responses[k])
            &&& phases.last() is Listing ==> (lines.last() matches LineRead::Request(req)
                && req.cmd@ == "dir_list"@)
            &&& phases.last() is Gathering ==> (lines.last() matches LineRead::Request(req)
                && req.cmd@ == "status"@)
        }),
    decreases events.len(),
{
    if events.len() > 0 {
        let n = events.len() - 1;
        let p = phases.drop_last();
        let e = events.drop_last();
        let a = actions.drop_last();
        assert(is_conversation(p, e, a)) by {
            assert forall|i: int|
                #![trigger e[i]]
                0 <= i < e.len() implies awaits(p[i], e[i]) && follows(
                p[i],
                e[i],
                p[i + 1],
                a[i],
            ) by {
                assert(events[i] == e[i]);
            }
        }
        lemma_conversation(p, e, a);
        assert(awaits(phases[n], events[n]) && follows(
            phases[n],
            events[n],
            phases[n + 1],
            actions[n],
        ));
        lemma_commands_differ();
        let lines = lines_of(events);
        let responses = responses_of(actions);
        let before = responses_of(a);
        assert forall|k: int| 0 <= k < responses.len() implies responds(
            lines[k],
            #[trigger] responses[k],
        ) by {
            if k < before.len() {
                assert(responds(lines_of(e)[k], before[k]));
            }
        }
    }
}

proof fn lemma_commands_differ()
    ensures
        "dir_add"@ != "dir_remove"@,
        "dir_add"@ != "dir_list"@,
        "dir_add"@ != "status"@,
        "dir_add"@ != "reload"@,
        "dir_remove"@ != "dir_list"@,
        "dir_remove"@ != "status"@,
        "dir_remove"@ != "reload"@,
        "dir_list"@ != "status"@,
        "dir_list"@ != "reload"@,
        "status"@ != "reload"@,
{
    reveal_strlit("dir_add");
    reveal_strlit("dir_remove");
    reveal_strlit("dir_list");
    reveal_strlit("status");
    reveal_strlit("reload");
    assert("dir_add"@.len() == 7 && "dir_remove"@.len() == 10 && "dir_list"@.len() == 8);
    assert("status"@.len() == 6 && "reload"@.len() == 6);
    assert("status"@[0] == 's' && "reload"@[0] == 'r');
}

/// A line that is no request is refused and changes nothing, and the connection goes on with the
/// next line, whatever becomes of the response.
pub proof fn law_no_request_changes_nothing(
    reason: String,
    after: ConnectionPhase,
    action: ConnectionAction,
    written: bool,
    later: ConnectionPhase,
    next: ConnectionAction,
)
    requires
        follows(
            ConnectionPhase::Reading,
            ConnectionEvent::Line(LineRead::NotJson(reason)),
            after,
            action,
        ),
        follows(after, ConnectionEvent::Written(written), later, next),
    ensures
        action matches ConnectionAction::Answer(IpcAction::Respond(r)) && fails_with(
            r,
            "invalid JSON: "@ + reason@,
        ),
        later is Reading,
        next is Read,
{
}

/// The watch changes only on a request that adds or removes a directory, and as that request says;
/// its response is a success.
pub proof fn law_only_requests_change_the_watch(
    phase: ConnectionPhase,
    event: ConnectionEvent,
    after: ConnectionPhase,
    action: ConnectionAction,
    command: WatchCommand,
    response: IpcResponse,
)
    requires
        awaits(phase, event),
        follows(phase, event, after, action),
        action == ConnectionAction::Answer(IpcAction::Watch(command, response)),
    ensures
        response.ok,
        event matches ConnectionEvent::Line(LineRead::Request(req)) && {
            ||| req.cmd@ == "dir_add"@ && req.path is Some && command == WatchCommand::AddDir(
                req.path->0,
            )
            ||| req.cmd@ == "dir_remove"@ && req.path is Some && command
                == WatchCommand::RemoveDir(req.path->0)
        },
{
}

/// A connection is closed only when no more lines come, when a line could not be read, or when the
/// response to a request could not be written: as long as lines can be read and responses written,
/// it goes on.
pub proof fn law_connection_goes_on(
    phases: Seq<ConnectionPhase>,
    events: Seq<ConnectionEvent>,
    actions: Seq<ConnectionAction>,
)
    requires
        is_conversation(phases, events, actions),
        phases.last() is Closed,
    ensures
        events.len() > 0,
        ({
            ||| events.last() is End
            ||| lines_of(events).last() is ReadError
            ||| lines_of(events).last() is Request && events.last() == ConnectionEvent::Written(false)
        }),
{
    lemma_last_line(phases, events, actions);
}

proof fn lemma_last_line(
    phases: Seq<ConnectionPhase>,
    events: Seq<ConnectionEvent>,
    actions: Seq<ConnectionAction>,
)
    requires
        is_conversation(phases, events, actions),
    ensures
        phases.last() == ConnectionPhase::Writing(GoesOn::Never) ==> lines_of(
            events,
        ).last() is ReadError,
        is_gathering(phases.last()) || phases.last() == ConnectionPhase::Writing(GoesOn::IfWritten)
            ==> lines_of(events).last() is Request,
        phases.last() is Closed ==> events.len() > 0 && {
            ||| events.last() is End
            ||| lines_of(events).last() is ReadError
            ||| lines_of(events).last() is Request && events.last() == ConnectionEvent::Written(false)
        },
    decreases events.len(),
{
    if events.len() > 0 {
        let n = events.len() - 1;
        let p = phases.drop_last();
        let e = events.drop_last();
        let a = actions.drop_last();
        assert(is_conversation(p, e, a)) by {
            assert forall|i: int|
                #![trigger e[i]]
                0 <= i < e.len() implies awaits(p[i], e[i]) && follows(
                p[i],
                e[i],
                p[i + 1],
                a[i],
            ) by {
                assert(events[i] == e[i]);
            }
        }
        lemma_last_line(p, e, a);
        assert(awaits(phases[n], events[n]) && follows(
            phases[n],
            events[n],
            phases[n + 1],
            actions[n],
        ));
    }
}

/// A command of the command line to the running client.
pub enum ClientCommand {
    DirAdd(String),
    DirRemove(String),
    DirList,
    Status,
    Reload,
}

/// The request of a command.
pub open spec fn requests(cmd: ClientCommand, r: IpcRequest) -> bool {
    match cmd {
        ClientCommand::DirAdd(path) => r.cmd@ == "dir_add"@ && r.path == Some(path),
        ClientCommand::DirRemove(path) => r.cmd@ == "dir_remove"@ && r.path == Some(path),
        ClientCommand::DirList => r.cmd@ == "dir_list"@ && r.path is None,
        ClientCommand::Status => r.cmd@ == "status"@ && r.path is None,
        ClientCommand::Reload => r.cmd@ == "reload"@ && r.path is None,
    }
}

/// The request of a command.
pub fn client_request(cmd: ClientCommand) -> (r: IpcRequest)
    ensures
        requests(cmd, r),
{
    match cmd {
        ClientCommand::DirAdd(path) => IpcRequest { cmd: "dir_add".to_string(), path: Some(path) },
        ClientCommand::DirRemove(path) => IpcRequest {
            cmd: "dir_remove".to_string(),
            path: Some(path),
        },
        ClientCommand::DirList => IpcRequest { cmd: "dir_list".to_string(), path: None },
        ClientCommand::Status => IpcRequest { cmd: "status".to_string(), path: None },
        ClientCommand::Reload => IpcRequest { cmd: "reload".to_string(), path: None },
    }
}

/// Every command of the command line is understood: it leads to what it stands for, and to no
/// failure.
pub proof fn law_client_is_understood(cmd: ClientCommand, req: IpcRequest, action: IpcAction)
    requires
        requests(cmd, req),
        answers(req, action),
    ensures
        is_known(req.cmd@),
        match cmd {
            ClientCommand::DirAdd(path) => action matches IpcAction::Watch(c, r) && c
                == WatchCommand::AddDir(path) && r.ok,
            ClientCommand::DirRemove(path) => action matches IpcAction::Watch(c, r) && c
                == WatchCommand::RemoveDir(path) && r.ok,
            ClientCommand::DirList => action is ListDirs,
            ClientCommand::Status => action is Status,
            ClientCommand::Reload => action matches IpcAction::Respond(r) && r.ok,
        },
{
    lemma_commands_differ();
}

/// A request is refused exactly if its command is unknown or lacks the path that it needs, and no
/// refused request changes the watch.
pub proof fn law_refusals(req: IpcRequest, action: IpcAction)
    requires
        answers(req, action),
    ensures
        (action matches IpcAction::Respond(r) && !r.ok) <==> !is_known(req.cmd@) || ((req.cmd@
            == "dir_add"@ || req.cmd@ == "dir_remove"@) && req.path is None),
        action matches IpcAction::Watch(c, r) ==> r.ok,
{
}

/// A response as the command line gets it: the data as text.
pub struct ClientResponse {
    pub ok: bool,
    pub data: Option<String>,
    pub error: Option<String>,
}

/// What the command line does with a response.
pub enum ClientOutcome {
    /// Print the text.
    Print(String),
    /// Print the text as an error and fail.
    Fail(String),
}

/// What the command line does with a response, or with what is none.
pub fn client_outcome(response: Option<ClientResponse>) -> (r: ClientOutcome)
    ensures
        match response {
            None => r matches ClientOutcome::Fail(s) && s@ == "error: invalid response from daemon"@,
            Some(resp) => if resp.ok {
                r matches ClientOutcome::Print(s) && s@ == (match resp.data {
                    Some(data) => data@,
                    None => "ok"@,
                })
            } else {
                r matches ClientOutcome::Fail(s) && s@ == "error: "@ + (match resp.error {
                    Some(error) => error@,
                    None => "unknown"@,
                })
            },
        },
{
    match response {
        None => ClientOutcome::Fail("error: invalid response from daemon".to_string()),
        Some(resp) => {
            if resp.ok {
                match resp.data {
                    Some(data) => ClientOutcome::Print(data),
                    None => ClientOutcome::Print("ok".to_string()),
                }
            } else {
                match resp.error {
                    Some(error) => ClientOutcome::Fail(prefixed("error: ", &error)),
                    None => ClientOutcome::Fail(prefixed("error: ", "unknown")),
                }
            }
        },
    }
}

/// The response to a line says what became of it: a refusal says why and carries nothing, a success
/// carries what was asked for and no error.
pub proof fn law_responses_say_what_became(line: LineRead, action: IpcAction)
    requires
        answers_line(line, action),
    ensures
        line matches LineRead::NotJson(reason) ==> (action matches IpcAction::Respond(r) && !r.ok
            && r.data is None && r.error is Some && r.error->0@ == "invalid JSON: "@ + reason@),
        line matches LineRead::ReadError(reason) ==> (action matches IpcAction::Respond(r) && !r.ok
            && r.data is None && r.error is Some && r.error->0@ == "read error: "@ + reason@),
        line matches LineRead::Request(req) ==> {
            &&& req.cmd@ == "dir_add"@ ==> (req.path matches Some(path) ==> (action matches
                IpcAction::Watch(WatchCommand::AddDir(dir), r) && dir == path && r.ok && r.data
                == Some(IpcData::Path(path)) && r.error is None))
            &&& req.cmd@ == "dir_remove"@ ==> (req.path matches Some(path) ==> (action matches
                IpcAction::Watch(WatchCommand::RemoveDir(dir), r) && dir == path && r.ok && r.data
                == Some(IpcData::Path(path)) && r.error is None))
            &&& (req.cmd@ == "dir_add"@ || req.cmd@ == "dir_remove"@) && req.path is None ==> (
            action matches IpcAction::Respond(r) && !r.ok && r.data is None && r.error is Some
                && r.error->0@ == "missing path"@)
            &&& req.cmd@ == "dir_list"@ ==> action is ListDirs
            &&& req.cmd@ == "status"@ ==> action is Status
            &&& req.cmd@ == "reload"@ ==> (action matches IpcAction::Respond(r) && r.ok
                && r.data is None && r.error is None)
            &&& req.cmd@ != "dir_add"@ && req.cmd@ != "dir_remove"@ && req.cmd@ != "dir_list"@
                && req.cmd@ != "status"@ && req.cmd@ != "reload"@ ==> (action matches
                IpcAction::Respond(r) && !r.ok && r.data is None && r.error is Some
                && r.error->0@ == "unknown cmd: "@ + req.cmd@)
        },
{
    lemma_commands_differ();
}

/// After a request the connection goes on with the next line if the response could be written, and
/// is closed if not; the data that a request asks for are what its response carries.
pub proof fn law_next_line_is_read(
    req: IpcRequest,
    after: ConnectionPhase,
    action: ConnectionAction,
    data: IpcData,
    gathered: ConnectionPhase,
    write: ConnectionAction,
    written: bool,
    later: ConnectionPhase,
    next: ConnectionAction,
)
    requires
        follows(
            ConnectionPhase::Reading,
            ConnectionEvent::Line(LineRead::Request(req)),
            after,
            action,
        ),
        req.cmd@ == "dir_list"@ || req.cmd@ == "status"@ ==> follows(
            after,
            ConnectionEvent::Data(data),
            gathered,
            write,
        ) && follows(gathered, ConnectionEvent::Written(written), later, next),
        req.cmd@ != "dir_list"@ && req.cmd@ != "status"@ ==> follows(
            after,
            ConnectionEvent::Written(written),
            later,
            next,
        ),
    ensures
        written ==> later is Reading && next is Read,
        !written ==> later is Closed && next is Close,
        req.cmd@ == "dir_list"@ || req.cmd@ == "status"@ ==> (write matches ConnectionAction::Write(
            r,
        ) && r.ok && r.data == Some(data) && r.error is None),
        req.cmd@ == "dir_list"@ ==> after is Listing,
        req.cmd@ == "status"@ ==> after is Gathering,
{
    lemma_commands_differ();
}

/// A failure to read is answered and ends the connection, and so does the end of the lines.
pub proof fn law_connection_ends(
    reason: String,
    after: ConnectionPhase,
    action: ConnectionAction,
    written: bool,
    later: ConnectionPhase,
    next: ConnectionAction,
    ended: ConnectionPhase,
    last: ConnectionAction,
)
    requires
        follows(
            ConnectionPhase::Reading,
            ConnectionEvent::Line(LineRead::ReadError(reason)),
            after,
            action,
        ),
        follows(after, ConnectionEvent::Written(written), later, next),
        follows(ConnectionPhase::Reading, ConnectionEvent::End, ended, last),
    ensures
        later is Closed,
        next is Close,
        ended is Closed,
        last is Close,
{
}

} // verus!
