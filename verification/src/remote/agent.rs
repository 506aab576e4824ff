//! The remote end.
//!
//! Reads requests and writes responses, and nothing else: anything written that is not a frame
//! would corrupt the stream.

use vstd::prelude::*;

use crate::exec::{ExecEvent, Outcome, RunState};
use crate::export::native::{self, file_of, parts_of};
use crate::model::Tree;
use crate::plan::{Ident, Plan};
use crate::remote::protocol::{Request, Response, TAG_MESSAGE, VERSION};
use crate::scan::{Progress, ScanOptions};
use crate::stat::Stat;
use crate::text::{cat2, cat3, copy_bytes, dec, decimal, show, shown};

verus! {

/// What the agent has to do about a frame.
#[derive(Debug)]
pub enum Duty {
    /// Send this, and go on.
    Reply(Response),
    /// Send this, and hang up.
    Refuse(Response),
    Scan { path: String, one_file_system: bool, threads: usize, exclude: Vec<String> },
    SavePlan { plan: Plan },
    Identify { paths: Vec<String> },
    Apply { id: String, dry_run: bool },
    /// Hang up.
    Stop,
}

impl Duty {
    /// Whether this is more than an answer: something is read or changed on this host.
    pub open spec fn is_work(self) -> bool {
        self is Scan || self is SavePlan || self is Identify || self is Apply
    }

    pub open spec fn ends(self) -> bool {
        self is Refuse || self is Stop
    }

    pub open spec fn says(self, message: Seq<char>) -> bool {
        match self {
            Duty::Reply(Response::Error { message: m }) => m@ == message,
            Duty::Refuse(Response::Error { message: m }) => m@ == message,
            _ => false,
        }
    }
}

/// The agent's side of a session.
pub struct Agent {
    pub greeted: bool,
    /// The version of this program.
    pub version: String,
    /// The name of this host.
    pub host: String,
}

/// What is to be done about a request, by whether the caller has greeted.
pub open spec fn is_duty(agent: Agent, request: Request, duty: Duty) -> bool {
    match request {
        Request::Hello { version } => if version != VERSION {
            duty is Refuse && duty.says(
                "agent speaks protocol v1, caller speaks v"@ + dec(version as nat),
            )
        } else {
            duty matches Duty::Reply(Response::Hello { version: v, ccdu, host }) && v == VERSION
                && ccdu@ == agent.version@ && host@ == agent.host@
        },
        other => if !agent.greeted {
            duty is Refuse && duty.says("expected a hello first"@)
        } else {
            match other {
                Request::Scan { path, one_file_system, threads, exclude } => duty == (Duty::Scan {
                    path,
                    one_file_system,
                    threads,
                    exclude,
                }),
                Request::SavePlan { plan } => duty == (Duty::SavePlan { plan }),
                Request::Identify { paths } => duty == (Duty::Identify { paths }),
                Request::Apply { id, dry_run } => duty == (Duty::Apply { id, dry_run }),
                _ => duty is Stop,
            }
        },
    }
}

/// Whether the caller has greeted once this request is dealt with.
pub open spec fn greeted_after(greeted: bool, request: Request) -> bool {
    greeted || (request matches Request::Hello { version } && version == VERSION)
}

impl Agent {
    pub fn new(version: String, host: String) -> (r: Agent)
        ensures
            !r.greeted,
            r.version == version,
            r.host == host,
    {
        Agent { greeted: false, version, host }
    }

    /// Say what is to be done about a frame, given what its body was parsed into where it is a
    /// message. A garbled request does not end the session.
    ///
    /// Version is checked before anything else runs, so a mismatch is a refusal rather than a
    /// confusing failure part way through a scan.
    pub fn serve(&mut self, tag: u8, parsed: Result<Request, String>) -> (r: Duty)
        ensures
            final(self).version == old(self).version,
            final(self).host == old(self).host,
            if tag != TAG_MESSAGE {
                &&& r is Reply
                &&& r.says("unexpected frame tag "@ + dec(tag as nat))
                &&& final(self).greeted == old(self).greeted
            } else {
                match parsed {
                    Err(e) => r is Reply && r.says(e@) && final(self).greeted == old(self).greeted,
                    Ok(request) => is_duty(*old(self), request, r) && final(self).greeted
                        == greeted_after(old(self).greeted, request),
                }
            },
    {
        if tag != TAG_MESSAGE {
            let t = decimal(tag as u64);
            return Duty::Reply(
                Response::Error { message: cat2("unexpected frame tag ", t.as_str()) },
            );
        }
        let request = match parsed {
            Ok(request) => request,
            Err(message) => return Duty::Reply(Response::Error { message }),
        };
        match request {
            Request::Hello { version } => {
                if version != VERSION {
                    let v = decimal(version as u64);
                    return Duty::Refuse(
                        Response::Error {
                            message: cat2("agent speaks protocol v1, caller speaks v", v.as_str()),
                        },
                    );
                }
                self.greeted = true;
                Duty::Reply(
                    Response::Hello {
                        version: VERSION,
                        ccdu: self.version.clone(),
                        host: self.host.clone(),
                    },
                )
            },
            other => {
                if !self.greeted {
                    return Duty::Refuse(
                        Response::Error { message: String::from_str("expected a hello first") },
                    );
                }
                match other {
                    Request::Scan { path, one_file_system, threads, exclude } => Duty::Scan {
                        path,
                        one_file_system,
                        threads,
                        exclude,
                    },
                    Request::SavePlan { plan } => Duty::SavePlan { plan },
                    Request::Identify { paths } => Duty::Identify { paths },
                    Request::Apply { id, dry_run } => Duty::Apply { id, dry_run },
                    _ => Duty::Stop,
                }
            },
        }
    }
}

/// Nothing is read or changed before a greeting in the right version: until then the agent only
/// answers, and anything but a greeting ends the session.
pub proof fn law_work_before_a_handshake_is_refused(agent: Agent, request: Request, duty: Duty)
    requires
        !agent.greeted,
        is_duty(agent, request, duty),
    ensures
        !duty.is_work(),
        duty.ends() || (greeted_after(agent.greeted, request) && duty is Reply),
{
}

/// A caller that speaks another version is refused, whether or not it greeted before.
pub proof fn law_version_mismatch_is_refused(agent: Agent, version: u32, duty: Duty)
    requires
        version != VERSION,
        is_duty(agent, Request::Hello { version }, duty),
    ensures
        duty.ends(),
        !duty.is_work(),
{
}

/// How many threads a scan that was asked for from elsewhere may use.
pub open spec fn threads_allowed(threads: usize) -> usize {
    if threads < 1 {
        1
    } else if threads > 32 {
        32
    } else {
        threads
    }
}

/// The options of a scan that was asked for.
pub fn scan_options(one_file_system: bool, threads: usize, exclude: &Vec<String>) -> (r:
    ScanOptions)
    ensures
        r.one_file_system == one_file_system,
        r.threads == threads_allowed(threads),
        r.max_open_dirs == 256,
        r.exclude_names@.len() == exclude@.len(),
        forall|k: int|
            0 <= k < exclude@.len() ==> (#[trigger] r.exclude_names@[k])@
                == vstd::utf8::encode_utf8(exclude@[k]@),
{
    let mut exclude_names: Vec<Vec<u8>> = Vec::new();
    let mut i: usize = 0;
    while i < exclude.len()
        invariant
            i <= exclude@.len(),
            exclude_names@.len() == i,
            forall|k: int|
                0 <= k < i ==> (#[trigger] exclude_names@[k])@ == vstd::utf8::encode_utf8(
                    exclude@[k]@,
                ),
        decreases exclude.len() - i,
    {
        exclude_names.push(copy_bytes(exclude[i].as_str().as_bytes()));
        i += 1;
    }
    let threads: usize = if threads < 1 {
        1
    } else if threads > 32 {
        32
    } else {
        threads
    };
    ScanOptions { threads, one_file_system, exclude_names, max_open_dirs: 256 }
}

/// The answer to a scan of a path that cannot be resolved.
pub fn no_such_root(path: &str, e: &str) -> (r: Response)
    ensures
        r matches Response::Error { message } && message@ == path@ + ": "@ + e@,
{
    Response::Error { message: cat3(path, ": ", e) }
}

/// Progress of a scan, for the far end.
pub fn progress(update: &Progress) -> (r: Response)
    ensures
        r == (Response::Progress {
            dirs: update.dirs,
            entries: update.entries,
            disk: update.disk,
        }),
{
    Response::Progress { dirs: update.dirs, entries: update.entries, disk: update.disk }
}

/// What ends a scan: the tree, or why there is none.
#[derive(Debug)]
pub enum Delivery {
    /// The body of a frame that holds a tree.
    Tree(Vec<u8>),
    Message(Response),
}

/// The answer to a scan that ran.
pub fn deliver(scanned: Result<&Tree, String>) -> (r: Delivery)
    requires
        scanned matches Ok(t) ==> t.root().len() <= u32::MAX,
    ensures
        match scanned {
            Ok(t) => r matches Delivery::Tree(blob) && blob@ == file_of(parts_of(*t)),
            Err(e) => r == Delivery::Message(Response::Error { message: e }),
        },
{
    match scanned {
        Ok(t) => Delivery::Tree(native::write(t)),
        Err(message) => Delivery::Message(Response::Error { message }),
    }
}

/// The answer to a plan that was to be stored, given the path it went to or why it did not.
pub fn plan_saved(plan: &Plan, saved: Result<Vec<u8>, String>) -> (r: Response)
    ensures
        match saved {
            Ok(path) => r matches Response::PlanSaved { id, path: p } && id@ == plan.id@ && p@
                == shown(path@),
            Err(e) => r == (Response::Error { message: e }),
        },
{
    match saved {
        Ok(path) => Response::PlanSaved { id: plan.id.clone(), path: show(path.as_slice()) },
        Err(message) => Response::Error { message },
    }
}

/// The answer to some paths whose identities were asked for: one for each, in the same order.
pub fn identities(stats: &Vec<Option<Stat>>) -> (r: Response)
    ensures
        r matches Response::Identities { idents } && idents@ == stats@.map_values(
            |s: Option<Stat>|
                match s {
                    Some(stat) => Some(Ident::spec_of(stat)),
                    None => None::<Ident>,
                },
        ),
{
    let mut idents: Vec<Option<Ident>> = Vec::new();
    let mut i: usize = 0;
    while i < stats.len()
        invariant
            i <= stats@.len(),
            idents@.len() == i,
            forall|k: int|
                0 <= k < i ==> #[trigger] idents@[k] == (match stats@[k] {
                    Some(stat) => Some(Ident::spec_of(stat)),
                    None => None::<Ident>,
                }),
        decreases stats.len() - i,
    {
        match &stats[i] {
            Some(stat) => {
                idents.push(Some(Ident::of(stat)));
            },
            None => {
                idents.push(None);
            },
        }
        i += 1;
    }
    proof {
        assert(idents@ =~= stats@.map_values(
            |s: Option<Stat>|
                match s {
                    Some(stat) => Some(Ident::spec_of(stat)),
                    None => None::<Ident>,
                },
        ));
    }
    Response::Identities { idents }
}

/// The answer to a plan that was to be run and could not be loaded.
pub fn no_such_plan(id: &str, e: &str) -> (r: Response)
    ensures
        r matches Response::Error { message } && message@ == "plan "@ + id@ + ": "@ + e@,
{
    let mut message = cat3("plan ", id, ": ");
    message.append(e);
    Response::Error { message }
}

/// What happened to an operation, for the far end.
pub fn forward(event: ExecEvent) -> (r: Response)
    ensures
        r == (Response::Exec { event }),
{
    Response::Exec { event }
}

/// The answer to a plan that ran, given what its journal says now. One that cannot be read is
/// taken for that of a run that was interrupted.
pub fn applied(outcome: Result<Outcome, String>, state: Option<RunState>) -> (r: Response)
    ensures
        match outcome {
            Ok(o) => r == (Response::ExecDone {
                outcome: o,
                state: match state {
                    Some(s) => s,
                    None => RunState::Interrupted,
                },
            }),
            Err(e) => r == (Response::Error { message: e }),
        },
{
    match outcome {
        Ok(outcome) => Response::ExecDone {
            outcome,
            state: match state {
                Some(s) => s,
                None => RunState::Interrupted,
            },
        },
        Err(message) => Response::Error { message },
    }
}

/// A caller that has greeted gets what it asks for: exactly the scan, the plan, the paths or the run
/// that it named, and nothing else.
pub proof fn law_a_request_is_done_as_asked(agent: Agent, request: Request, duty: Duty)
    requires
        agent.greeted,
        is_duty(agent, request, duty),
    ensures
        request matches Request::Scan { path, one_file_system, threads, exclude } ==> duty == (
        Duty::Scan { path, one_file_system, threads, exclude }),
        request matches Request::SavePlan { plan } ==> duty == (Duty::SavePlan { plan }),
        request matches Request::Identify { paths } ==> duty == (Duty::Identify { paths }),
        request matches Request::Apply { id, dry_run } ==> duty == (Duty::Apply { id, dry_run }),
        duty is Apply ==> request is Apply,
        duty is SavePlan ==> request is SavePlan,
{
}

/// A greeting in the version that is spoken here is returned, and opens the session; one in another
/// does not.
pub proof fn law_a_greeting_opens_a_session(agent: Agent, version: u32, duty: Duty)
    requires
        is_duty(agent, Request::Hello { version }, duty),
    ensures
        version == 1 ==> (duty matches Duty::Reply(Response::Hello { version: v, host, .. }) && v
            == 1 && host@ == agent.host@) && greeted_after(
            agent.greeted,
            Request::Hello { version },
        ),
        version != 1 ==> duty is Refuse && greeted_after(agent.greeted, Request::Hello { version })
            == agent.greeted,
{
}

/// No request but a greeting opens a session, and none closes it.
pub proof fn law_only_a_greeting_opens_a_session(greeted: bool, request: Request)
    ensures
        !(request is Hello) ==> greeted_after(greeted, request) == greeted,
        greeted ==> greeted_after(greeted, request),
{
}

/// A scan for a caller uses the threads it asks for, but at least one and at most thirty-two.
pub proof fn law_how_many_threads_a_caller_gets(threads: usize)
    ensures
        1 <= threads <= 32 ==> threads_allowed(threads) == threads,
        threads == 0 ==> threads_allowed(threads) == 1,
        threads > 32 ==> threads_allowed(threads) == 32,
{
}

} // verus!
