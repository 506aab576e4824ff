use ccdu::exec::{ExecEvent, Outcome, RunState};
use ccdu::export::native;
use ccdu::model::{Kind, Meta, Tree, ROOT};
use ccdu::plan::store::Store;
use ccdu::plan::{EntryKind, Ident, Op, Plan};
use ccdu::remote::agent::{
    applied, deliver, forward, identities, no_such_plan, no_such_root, plan_saved, progress,
    scan_options, Agent, Delivery, Duty,
};
use ccdu::remote::client::{
    apply_step, greeted, identified, ncdu_failed, plan_saved as hear_saved, scan_step, ApplyStep,
    Greeting, Heard, ScanStep, Target,
};
use ccdu::remote::protocol::{
    read_frame, read_header, write_frame, FrameError, Request, Response, MAX_FRAME, TAG_MESSAGE,
    TAG_TREE, VERSION,
};
use ccdu::scan::Progress;
use ccdu::stat::Stat;

fn target(host: &str, port: Option<u16>, path: &str) -> Option<Target> {
    Some(Target { host: host.to_string(), port, path: path.to_string() })
}

#[test]
fn ssh_urls_are_understood() {
    assert_eq!(Target::parse("ssh://server/var/log"), target("server", None, "/var/log"));
    assert_eq!(
        Target::parse("ssh://me@server:2222/data"),
        target("me@server", Some(2222), "/data")
    );
}

#[test]
fn the_scp_form_is_understood() {
    assert_eq!(Target::parse("server:/var/log"), target("server", None, "/var/log"));
    assert_eq!(Target::parse("me@server:data"), target("me@server", None, "data"));
}

#[test]
fn local_paths_are_not_mistaken_for_hosts() {
    // A colon is legal in a filename, and treating one as a hostname would send somebody's local
    // scan to a machine that does not exist.
    for local in ["/var/log", "./weird:name", "~/data", "relative/path", "plain"] {
        assert_eq!(Target::parse(local), None, "{local:?} was taken for a remote target");
    }
}

#[test]
fn malformed_urls_are_rejected() {
    for bad in ["ssh://", "ssh://host", "ssh:///path", "ssh://host/", "host:"] {
        assert_eq!(Target::parse(bad), None, "accepted {bad:?}");
    }
}

#[test]
fn an_ipv6_literal_is_not_read_as_a_port() {
    let target = Target::parse("ssh://[fe80::1]/data").unwrap();
    assert_eq!(target.port, None);
    assert_eq!(target.host, "[fe80::1]");
}

#[test]
fn the_commands_are_shaped_the_way_ssh_expects() {
    let target = Target::parse("ssh://me@server:2222/data").unwrap();
    assert_eq!(target.agent_command("ccdu"), ["-p", "2222", "me@server", "ccdu", "--agent"]);
    assert_eq!(
        target.ncdu_command(),
        ["-p", "2222", "me@server", "ncdu", "-o-", "-x", "/data"]
    );
    assert_eq!(ncdu_failed(&target, "exit status: 127"), "ncdu on me@server exited with exit status: 127");
}

// ---------------------------------------------------------------------------------------------
// Frames

#[test]
fn several_frames_come_back_in_order() {
    let mut buffer = Vec::new();
    write_frame(&mut buffer, TAG_MESSAGE, b"first").unwrap();
    write_frame(&mut buffer, TAG_MESSAGE, b"").unwrap();
    write_frame(&mut buffer, TAG_TREE, b"CCDU-ish bytes").unwrap();

    let first = read_frame(&buffer, 0).unwrap().unwrap();
    assert_eq!((first.tag, first.body), (TAG_MESSAGE, b"first".to_vec()));
    let second = read_frame(&buffer, first.next).unwrap().unwrap();
    assert_eq!((second.tag, second.body), (TAG_MESSAGE, Vec::new()));
    let third = read_frame(&buffer, second.next).unwrap().unwrap();
    assert_eq!((third.tag, third.body), (TAG_TREE, b"CCDU-ish bytes".to_vec()));
    assert!(read_frame(&buffer, third.next).unwrap().is_none(), "clean end of stream");
}

#[test]
fn a_truncated_frame_is_an_error_not_a_hang() {
    let mut buffer = Vec::new();
    write_frame(&mut buffer, TAG_MESSAGE, b"\"bye\"").unwrap();
    buffer.truncate(buffer.len() - 2);
    assert!(matches!(read_frame(&buffer, 0), Err(FrameError::Eof)));
}

#[test]
fn an_absurd_length_is_refused_before_allocating() {
    // Five bytes claiming a payload of nearly four gigabytes.
    let mut header = vec![TAG_TREE];
    header.extend_from_slice(&u32::MAX.to_le_bytes());

    let Err(FrameError::Invalid(err)) = read_frame(&header, 0) else { panic!("accepted") };
    assert!(err.contains("announced"), "{err}");
    assert!(matches!(read_header(&header), Err(FrameError::Invalid(_))));
    let mut largest = vec![TAG_TREE];
    largest.extend_from_slice(&MAX_FRAME.to_le_bytes());
    assert_eq!(read_header(&largest), Ok((TAG_TREE, MAX_FRAME)));
}

#[test]
fn an_empty_stream_ends_cleanly() {
    assert!(read_frame(&Vec::new(), 0).unwrap().is_none());
}

#[test]
fn a_stream_cut_inside_a_header_was_cut_off() {
    assert!(matches!(read_frame(&[0u8, 5, 0], 0), Err(FrameError::Eof)));
    let mut buffer = Vec::new();
    write_frame(&mut buffer, TAG_MESSAGE, b"\"bye\"").unwrap();
    let whole = buffer.len();
    buffer.extend_from_slice(&[TAG_MESSAGE]);
    let frame = read_frame(&buffer, 0).unwrap().unwrap();
    assert_eq!(frame.next, whole);
    assert!(matches!(read_frame(&buffer, frame.next), Err(FrameError::Eof)));
    assert!(read_frame(&buffer, buffer.len()).unwrap().is_none());
}

#[test]
fn a_garbled_message_body_is_reported() {
    let mut buffer = Vec::new();
    write_frame(&mut buffer, TAG_MESSAGE, b"{not json").unwrap();
    let frame = read_frame(&buffer, 0).unwrap().unwrap();
    assert!(serde_json::from_slice::<serde_json::Value>(&frame.body).is_err());
}

// ---------------------------------------------------------------------------------------------
// The agent

fn agent() -> Agent {
    Agent::new("0.1.0".to_string(), "server".to_string())
}

fn hello() -> Result<Request, String> {
    Ok(Request::Hello { version: VERSION })
}

fn scan(path: &str) -> Result<Request, String> {
    Ok(Request::Scan {
        path: path.to_string(),
        one_file_system: true,
        threads: 1,
        exclude: Vec::new(),
    })
}

/// What an agent says to some requests, until it hangs up. Work is asked for, not done.
fn exchange(requests: Vec<Result<Request, String>>) -> Vec<Duty> {
    let mut agent = agent();
    let mut duties = Vec::new();
    for request in requests {
        let duty = agent.serve(TAG_MESSAGE, request);
        let over = matches!(duty, Duty::Refuse(_) | Duty::Stop);
        duties.push(duty);
        if over {
            break;
        }
    }
    duties
}

#[test]
fn a_handshake_reports_the_version_and_host() {
    let replies = exchange(vec![hello(), Ok(Request::Bye)]);
    assert_eq!(replies.len(), 2);
    assert!(matches!(
        &replies[0],
        Duty::Reply(Response::Hello { version, ccdu, host })
            if *version == VERSION && ccdu == "0.1.0" && host == "server"
    ));
    assert!(matches!(replies[1], Duty::Stop));
}

#[test]
fn a_version_mismatch_is_refused_at_the_handshake() {
    let replies = exchange(vec![Ok(Request::Hello { version: VERSION + 1 }), scan("/")]);
    assert_eq!(replies.len(), 1, "nothing should run after a refused handshake");
    assert!(matches!(
        &replies[0],
        Duty::Refuse(Response::Error { message }) if message.contains("protocol")
    ));
}

#[test]
fn work_before_a_handshake_is_refused() {
    let replies = exchange(vec![scan("/")]);
    assert!(matches!(
        &replies[0],
        Duty::Refuse(Response::Error { message }) if message.contains("hello")
    ));
}

fn small_tree() -> Tree {
    let meta = |kind, disk| Meta { kind, apparent: disk, disk, mtime: 0, dev: 1, ino: 0, nlink: 1 };
    let mut t = Tree::new(b"/d".to_vec(), &meta(Kind::Dir, 0));
    let sub = t.push_child(ROOT, b"sub", &meta(Kind::Dir, 4096), 0, true);
    t.push_child(sub, b"file.bin", &meta(Kind::File, 20_000), 0, true);
    t.finish();
    t
}

#[test]
fn a_scan_comes_back_as_a_tree() {
    let duties = exchange(vec![hello(), scan("/d"), Ok(Request::Bye)]);
    assert!(matches!(&duties[1], Duty::Scan { path, .. } if path == "/d"));

    let Delivery::Tree(blob) = deliver(Ok(&small_tree())) else { panic!("no tree frame") };
    let tree = native::read(&blob).ok().unwrap();
    assert!(tree.node(ROOT).disk >= 20_000);
    assert_eq!(tree.node(ROOT).items, 2);
    let sub = tree.child_ids(ROOT)[0];
    assert_eq!(tree.path_of(tree.child_ids(sub)[0]), b"/d/sub/file.bin");
    let Delivery::Message(Response::Error { message }) = deliver(Err("no".to_string())) else {
        panic!("a scan that failed came back as a tree")
    };
    assert_eq!(message, "no");
}

#[test]
fn scanning_a_path_that_is_not_there_is_an_error_not_a_crash() {
    let duties = exchange(vec![hello(), scan("/definitely/not/here"), Ok(Request::Bye)]);
    let Duty::Scan { path, .. } = &duties[1] else { panic!("{duties:?}") };
    let Response::Error { message } = no_such_root(path, "No such file or directory") else {
        panic!("not an error")
    };
    assert!(message.contains("not/here"), "{message}");
    assert!(matches!(duties[2], Duty::Stop), "the session goes on");
}

#[test]
fn identities_come_back_in_the_order_they_were_asked_for() {
    let asked = vec!["/d/here".to_string(), "/definitely/not/here".to_string()];
    let duties = exchange(vec![hello(), Ok(Request::Identify { paths: asked.clone() })]);
    assert!(matches!(&duties[1], Duty::Identify { paths } if *paths == asked));

    let stat =
        Stat { dev: 1, ino: 2, size: 100, mtime: 5, mode: 0o100644, blocks: 8, nlink: 1 };
    let Response::Identities { idents } = identities(&vec![Some(stat), None]) else {
        panic!("not identities")
    };
    assert_eq!(idents.len(), 2, "one answer per question, in order");
    assert_eq!(idents[0].unwrap().size, 100);
    assert!(idents[1].is_none(), "a path that is not there has no identity");
}

#[test]
fn applying_a_plan_that_is_not_there_is_an_error() {
    let id = "20260101T000000-nosuchid".to_string();
    let duties = exchange(vec![hello(), Ok(Request::Apply { id: id.clone(), dry_run: false })]);
    assert!(matches!(&duties[1], Duty::Apply { id: asked, dry_run: false } if *asked == id));
    let Response::Error { message } = no_such_plan(&id, "No such file or directory") else {
        panic!("not an error")
    };
    assert!(message.contains("plan"), "{message}");
}

#[test]
fn a_garbled_request_does_not_end_the_session() {
    let garbage = Err("bad message: key must be a string".to_string());
    let replies = exchange(vec![hello(), garbage, Ok(Request::Bye)]);
    assert!(matches!(replies[0], Duty::Reply(Response::Hello { .. })));
    assert!(matches!(replies[1], Duty::Reply(Response::Error { .. })), "{replies:?}");
    assert!(matches!(replies[2], Duty::Stop));
    let mut agent = agent();
    assert!(matches!(
        agent.serve(TAG_TREE, hello()),
        Duty::Reply(Response::Error { message }) if message == "unexpected frame tag 1"
    ));
}

#[test]
fn a_remote_scan_is_bounded() {
    let opts = scan_options(true, 500, &vec![".git".to_string()]);
    assert_eq!(opts.threads, 32);
    assert!(opts.one_file_system);
    assert_eq!(opts.exclude_names, vec![b".git".to_vec()]);
    assert_eq!(scan_options(false, 0, &Vec::new()).threads, 1);
}

// ---------------------------------------------------------------------------------------------
// Both ends

#[test]
fn a_greeting_is_understood_or_explained() {
    let Greeting::Connected { host, version } = greeted(
        Some(Response::Hello {
            version: VERSION,
            ccdu: "0.1.0".to_string(),
            host: "server".to_string(),
        }),
        "",
    ) else {
        panic!("not connected")
    };
    assert_eq!((host.as_str(), version.as_str()), ("server", "0.1.0"));
    let newer = Response::Hello { version: VERSION + 1, ccdu: String::new(), host: String::new() };
    assert!(matches!(greeted(Some(newer), ""), Greeting::Failed(e) if e.contains("protocol")));
    assert!(matches!(greeted(None, ""), Greeting::Silent(e) if e.contains("said nothing")));
    assert!(matches!(
        greeted(Some(Response::Scanning), "Scanning"),
        Greeting::Failed(e) if e == "unexpected greeting: Scanning"
    ));
    let refused = Response::Error { message: "go away".to_string() };
    assert!(matches!(greeted(Some(refused), ""), Greeting::Failed(e) if e == "go away"));
}

fn tree_fixture() -> Tree {
    let meta = |kind, disk| Meta { kind, apparent: disk, disk, mtime: 0, dev: 1, ino: 0, nlink: 1 };
    let mut t = Tree::new(b"/d".to_vec(), &meta(Kind::Dir, 0));
    let logs = t.push_child(ROOT, b"logs", &meta(Kind::Dir, 0), 0, true);
    let year = t.push_child(logs, b"2026", &meta(Kind::Dir, 0), 0, true);
    t.push_child(year, b"a.log", &meta(Kind::File, 40_000), 0, true);
    t.push_child(year, b"b.log", &meta(Kind::File, 10_000), 0, true);
    t.push_child(ROOT, b"readme.txt", &meta(Kind::File, 500), 0, true);
    t.push_child(ROOT, b"pointer", &meta(Kind::Symlink, 10), 0, true);
    t.finish();
    t
}

/// A tree as it arrives at the other end.
fn across(tree: &Tree) -> Tree {
    let Delivery::Tree(blob) = deliver(Ok(tree)) else { panic!("no tree") };
    let mut wire = Vec::new();
    write_frame(&mut wire, TAG_TREE, &blob).unwrap();
    let frame = read_frame(&wire, 0).unwrap().unwrap();
    assert_eq!(frame.next, wire.len());
    let ScanStep::Tree(bytes) = scan_step(Heard::Tree(frame.body), "") else { panic!("no tree") };
    native::read(&bytes).ok().unwrap()
}

#[test]
fn one_connection_serves_several_scans() {
    let duties = exchange(vec![hello(), scan("/d"), scan("/d"), Ok(Request::Bye)]);
    assert!(matches!(&duties[1], Duty::Scan { path, .. } if path == "/d"));
    assert!(matches!(&duties[2], Duty::Scan { path, .. } if path == "/d"));
    let (first, second) = (across(&tree_fixture()), across(&tree_fixture()));
    assert_eq!(first.node(ROOT).items, second.node(ROOT).items);
    assert_eq!(first.node(ROOT).disk, second.node(ROOT).disk);
}

#[test]
fn a_missing_path_is_reported_and_the_connection_survives() {
    let requests = vec![hello(), scan("/definitely/not/here"), scan("/d"), Ok(Request::Bye)];
    let duties = exchange(requests);
    let Duty::Scan { path, .. } = &duties[1] else { panic!("{duties:?}") };
    let reply = no_such_root(path, "No such file or directory");
    let ScanStep::Failed(err) = scan_step(Heard::Message(reply), "") else { panic!("no error") };
    assert!(err.contains("not/here"), "{err}");

    // The session is still usable: one bad request should not cost the connection.
    assert!(matches!(&duties[2], Duty::Scan { path, .. } if path == "/d"));
    assert_eq!(across(&tree_fixture()).node(ROOT).items, 6);
}

#[test]
fn a_tree_scanned_by_the_agent_arrives_intact() {
    let Duty::Reply(reply) = agent().serve(TAG_MESSAGE, hello()) else { panic!("no greeting") };
    let Greeting::Connected { host, version } = greeted(Some(reply), "") else {
        panic!("not connected")
    };
    assert!(!host.is_empty(), "the agent should say which host it is");
    assert!(!version.is_empty());

    let sent = tree_fixture();
    let tree = across(&sent);

    assert_eq!(tree.node(ROOT).items, 6, "entries went missing in transit");
    assert!(tree.node(ROOT).disk >= 50_000);
    assert_eq!(tree.root_path(), sent.root_path());

    // Names and structure survive, not just totals.
    let names: Vec<String> = tree
        .child_ids(ROOT)
        .iter()
        .map(|&c| String::from_utf8_lossy(tree.name(c)).into_owned())
        .collect();
    assert!(names.contains(&"logs".to_string()), "{names:?}");
    assert!(names.contains(&"readme.txt".to_string()), "{names:?}");
}

#[test]
fn progress_of_a_remote_scan_is_passed_on() {
    let update = Progress { dirs: 1, entries: 2, disk: 3, current: b"/d/sub".to_vec() };
    let sent = progress(&update);
    assert!(matches!(sent, Response::Progress { dirs: 1, entries: 2, disk: 3 }));
    let ScanStep::Progress(p) = scan_step(Heard::Message(sent), "") else { panic!("lost") };
    assert_eq!((p.dirs, p.entries, p.disk), (1, 2, 3));
    assert!(matches!(scan_step(Heard::Message(Response::Scanning), ""), ScanStep::Wait));
    assert!(matches!(scan_step(Heard::Closed, ""), ScanStep::Failed(_)));
    assert!(matches!(scan_step(Heard::Garbled("bad".to_string()), ""), ScanStep::Failed(_)));
    let e = Response::Error { message: "/x: not/here".to_string() };
    assert!(matches!(
        scan_step(Heard::Message(e), ""),
        ScanStep::Failed(m) if m.contains("not/here")
    ));
}

fn some_plan() -> Plan {
    let mut plan = Plan::new(b"/d".to_vec());
    plan.ops.push(Op::Delete {
        path: b"/d/readme.txt".to_vec(),
        ident: Ident { dev: 1, ino: 2, size: 3, mtime: 4, kind: EntryKind::File },
        est_bytes: 4096,
    });
    plan
}

fn save(plan: &Plan) -> Result<Request, String> {
    Ok(Request::SavePlan { plan: plan.clone() })
}

#[test]
fn a_plan_can_be_stored_where_its_paths_mean_something() {
    let plan = some_plan();
    let Ok(Request::SavePlan { plan: sent }) = save(&plan) else { panic!("not a request") };
    assert_eq!(sent.ops.len(), 1);
    assert_eq!(sent, plan);

    // It goes to the remote's own store, ready to be applied over there.
    let store = Store::open_default(b"/remote/state");
    let (_, target) = store.save(&sent).unwrap();
    assert_eq!(store.load(&plan.id), Ok(target.clone()));
    let reply = plan_saved(&sent, Ok(target));
    let (id, path) = hear_saved(Some(reply), "").unwrap();
    assert_eq!(id, plan.id);
    assert!(path.ends_with("plan.json"), "{path}");
    assert!(path.starts_with("/remote/state/plans/"), "{path}");

    let failed = plan_saved(&plan, Err("disk full".to_string()));
    assert_eq!(hear_saved(Some(failed), ""), Err("disk full".to_string()));
    assert!(hear_saved(None, "").is_err());
}

#[test]
fn identities_are_heard_as_they_were_sent() {
    let idents = vec![Some(Ident { dev: 1, ino: 2, size: 3, mtime: 4, kind: EntryKind::Dir }), None];
    let sent = Response::Identities { idents: idents.clone() };
    assert_eq!(identified(Some(sent), ""), Ok(idents));
    assert!(identified(None, "").is_err());
    assert!(identified(Some(Response::Scanning), "Scanning").is_err());
}

#[test]
fn a_commit_on_another_machine_reports_back() {
    let event = forward(ExecEvent::Finished { index: 3, freed: 4096 });
    assert!(matches!(
        apply_step(Some(event), ""),
        ApplyStep::Event(ExecEvent::Finished { index: 3, freed: 4096 })
    ));
    let outcome = Outcome { done: 3, failed: 0, skipped: 0, freed: 12288, paused: false };
    let done = applied(Ok(outcome), Some(RunState::Finished));
    let ApplyStep::Done { outcome: heard, state } = apply_step(Some(done), "") else {
        panic!("not done")
    };
    assert_eq!(heard, outcome);
    assert_eq!(state, RunState::Finished);
    // A state that cannot be read is taken for an interruption.
    let done = applied(Ok(outcome), None);
    assert!(matches!(
        apply_step(Some(done), ""),
        ApplyStep::Done { state: RunState::Interrupted, .. }
    ));
    assert!(matches!(
        apply_step(Some(applied(Err("no".to_string()), None)), ""),
        ApplyStep::Failed(e) if e == "no"
    ));
    assert!(matches!(apply_step(None, ""), ApplyStep::Failed(_)));
}
