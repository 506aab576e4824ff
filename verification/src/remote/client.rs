//! The local end: where to scan, how to start an agent there, and what to make of what it says.

use vstd::prelude::*;

use crate::exec::{ExecEvent, Outcome, RunState};
use crate::plan::Ident;
use crate::remote::protocol::{Response, VERSION};
use crate::scan::Progress;
use crate::text::{cat2, cat3, dec, decimal};

verus! {

/// Where to scan: a host and a path on it.
#[derive(Clone, Debug, PartialEq, Eq)]
pub struct Target {
    /// Everything ssh needs to reach the machine, `[user@]host`.
    pub host: String,
    pub port: Option<u16>,
    pub path: String,
}

/// A target in terms of its text.
pub struct Place {
    pub host: Seq<char>,
    pub port: Option<u16>,
    pub path: Seq<char>,
}

impl View for Target {
    type V = Place;

    open spec fn view(&self) -> Place {
        Place { host: self.host@, port: self.port, path: self.path@ }
    }
}

/// Where `c` first stands in `s` from `i` on, or the end.
pub open spec fn first_at(s: Seq<char>, c: char, i: int) -> int
    decreases s.len() - i,
{
    if i >= s.len() || s[i] == c {
        i
    } else {
        first_at(s, c, i + 1)
    }
}

/// Where `c` last stands in the first `n` of `s`, or before the start.
pub open spec fn last_at(s: Seq<char>, c: char, n: int) -> int
    decreases n,
{
    if n <= 0 || s[n - 1] == c {
        n - 1
    } else {
        last_at(s, c, n - 1)
    }
}

pub open spec fn is_digit(c: char) -> bool {
    '0' <= c <= '9'
}

/// The number that some digits stand for.
pub open spec fn number_of(s: Seq<char>) -> nat
    decreases s.len(),
{
    if s.len() == 0 {
        0
    } else {
        number_of(s.drop_last()) * 10 + (s.last() as nat - '0' as nat) as nat
    }
}

/// What a port is made of: digits, after a plus sign at most.
pub open spec fn port_digits(s: Seq<char>) -> Seq<char> {
    if s.len() > 0 && s[0] == '+' {
        s.skip(1)
    } else {
        s
    }
}

pub open spec fn port_of(s: Seq<char>) -> Option<u16> {
    let digits = port_digits(s);
    if digits.len() > 0 && (forall|i: int| 0 <= i < digits.len() ==> is_digit(#[trigger] digits[i]))
        && number_of(digits) <= u16::MAX {
        Some(number_of(digits) as u16)
    } else {
        None
    }
}

/// What comes before the last colon and the port after it. Where that is no port, the colon is
/// probably part of an IPv6 literal or a username.
pub open spec fn host_and_port(authority: Seq<char>) -> (Seq<char>, Option<u16>) {
    let at = last_at(authority, ':', authority.len() as int);
    if at < 0 {
        (authority, None)
    } else {
        match port_of(authority.skip(at + 1)) {
            Some(port) => (authority.take(at), Some(port)),
            None => (authority, None),
        }
    }
}

/// What `ssh://[user@]host[:port]/path` names, less its prefix.
pub open spec fn url_place(rest: Seq<char>) -> Option<Place> {
    let slash = first_at(rest, '/', 0);
    let (host, port) = host_and_port(rest.take(slash));
    if slash >= rest.len() || host.len() == 0 || slash + 1 >= rest.len() {
        None
    } else {
        Some(Place { host, port, path: rest.skip(slash) })
    }
}

/// What the scp-style `[user@]host:path` names.
pub open spec fn scp_place(s: Seq<char>) -> Option<Place> {
    let colon = first_at(s, ':', 0);
    let host = s.take(colon);
    if s.len() > 0 && (s[0] == '.' || s[0] == '/' || s[0] == '~') {
        None
    } else if colon >= s.len() || colon == 0 || colon + 1 >= s.len() || first_at(host, '/', 0)
        < host.len() {
        None
    } else {
        Some(Place { host, port: None, path: s.skip(colon + 1) })
    }
}

pub open spec fn is_url(s: Seq<char>) -> bool {
    s.len() >= 6 && s.take(6) == "ssh://"@
}

/// What a target names, if it is one. Anything that is an ordinary local path is not.
pub open spec fn place_of(s: Seq<char>) -> Option<Place> {
    if is_url(s) {
        url_place(s.skip(6))
    } else {
        scp_place(s)
    }
}

fn find_first(s: &str, c: char) -> (r: usize)
    ensures
        r == first_at(s@, c, 0),
        r <= s@.len(),
        r < s@.len() ==> s@[r as int] == c,
{
    let n: usize = s.unicode_len();
    let mut i: usize = 0;
    while i < n && s.get_char(i) != c
        invariant
            i <= n,
            n == s@.len(),
            first_at(s@, c, 0) == first_at(s@, c, i as int),
        decreases n - i,
    {
        i += 1;
    }
    i
}

fn find_last(s: &str, c: char) -> (r: Option<usize>)
    ensures
        match r {
            Some(i) => i == last_at(s@, c, s@.len() as int) && i < s@.len(),
            None => last_at(s@, c, s@.len() as int) == -1,
        },
{
    let mut n: usize = s.unicode_len();
    while n > 0
        invariant
            n <= s@.len(),
            last_at(s@, c, s@.len() as int) == last_at(s@, c, n as int),
        decreases n,
    {
        if s.get_char(n - 1) == c {
            return Some(n - 1);
        }
        n -= 1;
    }
    None
}

proof fn lemma_number_step(s: Seq<char>, i: int)
    requires
        0 <= i < s.len(),
    ensures
        number_of(s.take(i + 1)) == number_of(s.take(i)) * 10 + (s[i] as nat - '0' as nat) as nat,
{
    assert(s.take(i + 1).drop_last() =~= s.take(i));
}

proof fn lemma_number_grows(s: Seq<char>, i: int, j: int)
    requires
        0 <= i <= j <= s.len(),
    ensures
        number_of(s.take(i)) <= number_of(s.take(j)),
    decreases j - i,
{
    if i < j {
        lemma_number_grows(s, i, j - 1);
        lemma_number_step(s, j - 1);
    }
}

fn parse_port(s: &str) -> (r: Option<u16>)
    ensures
        r == port_of(s@),
{
    let n: usize = s.unicode_len();
    let from: usize = if n > 0 && s.get_char(0) == '+' {
        1
    } else {
        0
    };
    let ghost digits = port_digits(s@);
    proof {
        assert(digits =~= s@.skip(from as int));
    }
    if from == n {
        return None;
    }
    let mut value: u32 = 0;
    let mut i: usize = from;
    proof {
        assert(digits.take(0) =~= Seq::<char>::empty());
    }
    while i < n
        invariant
            from <= i <= n,
            n == s@.len(),
            digits == port_digits(s@),
            digits == s@.skip(from as int),
            value == number_of(digits.take(i - from)),
            value <= 65535,
            forall|k: int| 0 <= k < i - from ==> is_digit(#[trigger] digits[k]),
        decreases n - i,
    {
        let c = s.get_char(i);
        proof {
            assert(digits[i - from] == c);
            lemma_number_step(digits, i - from);
        }
        if !('0' <= c && c <= '9') {
            proof {
                assert(!is_digit(digits[i - from]));
            }
            return None;
        }
        value = value * 10 + (c as u32 - '0' as u32);
        if value > 65535 {
            proof {
                lemma_number_grows(digits, i - from + 1, digits.len() as int);
                assert(digits.take(digits.len() as int) =~= digits);
            }
            return None;
        }
        i += 1;
    }
    proof {
        assert(digits.take(i - from) =~= digits);
    }
    Some(value as u16)
}

fn split_port(authority: &str) -> (r: (String, Option<u16>))
    ensures
        r.0@ == host_and_port(authority@).0,
        r.1 == host_and_port(authority@).1,
{
    match find_last(authority, ':') {
        Some(at) => {
            let n: usize = authority.unicode_len();
            let tail = authority.substring_char(at + 1, n);
            proof {
                assert(tail@ =~= authority@.skip(at + 1));
            }
            match parse_port(tail) {
                Some(port) => {
                    let host = authority.substring_char(0, at);
                    proof {
                        assert(host@ =~= authority@.take(at as int));
                    }
                    (String::from_str(host), Some(port))
                },
                None => (String::from_str(authority), None),
            }
        },
        None => (String::from_str(authority), None),
    }
}

fn starts_url(s: &str) -> (r: bool)
    ensures
        r == is_url(s@),
{
    let n: usize = s.unicode_len();
    proof {
        reveal_strlit("ssh://");
    }
    if n < 6 {
        return false;
    }
    let r = s.get_char(0) == 's' && s.get_char(1) == 's' && s.get_char(2) == 'h' && s.get_char(3)
        == ':' && s.get_char(4) == '/' && s.get_char(5) == '/';
    proof {
        if r {
            assert(s@.take(6) =~= "ssh://"@);
        } else if s@.take(6) == "ssh://"@ {
            assert(s@[0] == s@.take(6)[0]);
            assert(s@[1] == s@.take(6)[1]);
            assert(s@[2] == s@.take(6)[2]);
            assert(s@[3] == s@.take(6)[3]);
            assert(s@[4] == s@.take(6)[4]);
            assert(s@[5] == s@.take(6)[5]);
        }
    }
    r
}

impl Target {
    /// Parse `ssh://[user@]host[:port]/path`, or the scp-style `[user@]host:path`.
    ///
    /// Returns `None` for anything that is an ordinary local path, so callers can simply try this
    /// first: a path with a colon in it is far more likely than a host called `./data`.
    pub fn parse(text: &str) -> (r: Option<Target>)
        ensures
            match r {
                Some(t) => place_of(text@) == Some(t@),
                None => place_of(text@) is None,
            },
    {
        let n: usize = text.unicode_len();
        if starts_url(text) {
            let rest = text.substring_char(6, n);
            proof {
                assert(rest@ =~= text@.skip(6));
            }
            let m: usize = rest.unicode_len();
            let slash = find_first(rest, '/');
            if slash >= m {
                return None;
            }
            let authority = rest.substring_char(0, slash);
            proof {
                assert(authority@ =~= rest@.take(slash as int));
            }
            let (host, port) = split_port(authority);
            if host.as_str().unicode_len() == 0 || slash + 1 >= m {
                return None;
            }
            let path = rest.substring_char(slash, m);
            proof {
                assert(path@ =~= rest@.skip(slash as int));
            }
            return Some(Target { host, port, path: String::from_str(path) });
        }
        if n > 0 {
            let c = text.get_char(0);
            if c == '.' || c == '/' || c == '~' {
                return None;
            }
        }
        let colon = find_first(text, ':');
        if colon >= n || colon == 0 || colon + 1 >= n {
            return None;
        }
        let host = text.substring_char(0, colon);
        proof {
            assert(host@ =~= text@.take(colon as int));
        }
        if find_first(host, '/') < host.unicode_len() {
            return None;
        }
        let path = text.substring_char(colon + 1, n);
        proof {
            assert(path@ =~= text@.skip(colon + 1));
        }
        Some(Target { host: String::from_str(host), port: None, path: String::from_str(path) })
    }

    /// What ssh is given to reach the host.
    pub open spec fn reach(&self) -> Seq<Seq<char>> {
        match self.port {
            Some(port) => seq!["-p"@, dec(port as nat), self.host@],
            None => seq![self.host@],
        }
    }

    fn reach_args(&self) -> (r: Vec<String>)
        ensures
            texts(r@) == self.reach(),
    {
        let mut args: Vec<String> = Vec::new();
        match self.port {
            Some(port) => {
                args.push(String::from_str("-p"));
                args.push(decimal(port as u64));
            },
            None => {},
        }
        args.push(self.host.clone());
        proof {
            assert(texts(args@) =~= self.reach());
        }
        args
    }

    /// What ssh is given to start an agent on the far side.
    pub fn agent_command(&self, remote_binary: &str) -> (r: Vec<String>)
        ensures
            texts(r@) == self.reach() + seq![remote_binary@, "--agent"@],
    {
        let mut args = self.reach_args();
        let ghost before = texts(args@);
        args.push(String::from_str(remote_binary));
        args.push(String::from_str("--agent"));
        proof {
            assert(texts(args@) =~= before + seq![remote_binary@, "--agent"@]);
        }
        args
    }

    /// The fallback for a host with no agent on it: what ssh is given to ask ncdu for a dump on
    /// standard output.
    pub fn ncdu_command(&self) -> (r: Vec<String>)
        ensures
            texts(r@) == self.reach() + seq!["ncdu"@, "-o-"@, "-x"@, self.path@],
    {
        let mut args = self.reach_args();
        let ghost before = texts(args@);
        args.push(String::from_str("ncdu"));
        args.push(String::from_str("-o-"));
        args.push(String::from_str("-x"));
        args.push(self.path.clone());
        proof {
            assert(texts(args@) =~= before + seq!["ncdu"@, "-o-"@, "-x"@, self.path@]);
        }
        args
    }
}

pub open spec fn texts(args: Seq<String>) -> Seq<Seq<char>> {
    args.map_values(|a: String| a@)
}

/// A path that starts like a local one is never taken for a remote target.
pub proof fn law_local_paths_are_not_hosts(s: Seq<char>)
    requires
        s.len() > 0,
        s[0] == '.' || s[0] == '/' || s[0] == '~',
    ensures
        place_of(s) is None,
{
    reveal_strlit("ssh://");
    if is_url(s) {
        assert(s.take(6)[0] == s[0]);
    }
}

/// What a greeting came to.
#[derive(Debug)]
pub enum Greeting {
    Connected { host: String, version: String },
    /// Probably there is no such program there.
    Silent(String),
    Failed(String),
}

/// What to make of the answer to a greeting. `shown` is that answer as text, for one that makes no
/// sense.
///
/// The end of the stream at the handshake almost always means the command was not found. Say that,
/// rather than report the absence of a reply as if it were a surprise.
pub fn greeted(reply: Option<Response>, shown: &str) -> (r: Greeting)
    ensures
        match reply {
            Some(Response::Hello { version, ccdu, host }) => if version != VERSION {
                r matches Greeting::Failed(e) && e@ == "remote speaks protocol v"@ + dec(
                    version as nat,
                ) + ", this build speaks v1"@
            } else {
                r == (Greeting::Connected { host, version: ccdu })
            },
            Some(Response::Error { message }) => r == Greeting::Failed(message),
            None => r matches Greeting::Silent(e) && e@
                == "the remote said nothing; ccdu may not be installed or on its PATH"@,
            _ => r matches Greeting::Failed(e) && e@ == "unexpected greeting: "@ + shown@,
        },
{
    match reply {
        Some(Response::Hello { version, ccdu, host }) => {
            if version != VERSION {
                let v = decimal(version as u64);
                Greeting::Failed(
                    cat3("remote speaks protocol v", v.as_str(), ", this build speaks v1"),
                )
            } else {
                Greeting::Connected { host, version: ccdu }
            }
        },
        Some(Response::Error { message }) => Greeting::Failed(message),
        None => Greeting::Silent(
            String::from_str("the remote said nothing; ccdu may not be installed or on its PATH"),
        ),
        _ => Greeting::Failed(cat2("unexpected greeting: ", shown)),
    }
}

/// What came in while something was being waited for.
#[derive(Debug)]
pub enum Heard {
    /// The body of a frame that holds a tree.
    Tree(Vec<u8>),
    Message(Response),
    /// A message that could not be parsed, and why.
    Garbled(String),
    /// The stream ended.
    Closed,
}

/// What a remote scan goes on with.
#[derive(Debug)]
pub enum ScanStep {
    /// The bytes of the tree.
    Tree(Vec<u8>),
    Progress(Progress),
    Wait,
    Failed(String),
}

/// What to make of what came in during a remote scan.
pub fn scan_step(heard: Heard, shown: &str) -> (r: ScanStep)
    ensures
        match heard {
            Heard::Closed => r matches ScanStep::Failed(e) && e@
                == "the remote closed the connection mid-scan"@,
            Heard::Tree(body) => r == ScanStep::Tree(body),
            Heard::Garbled(e) => r == ScanStep::Failed(e),
            Heard::Message(Response::Progress { dirs, entries, disk }) => r matches ScanStep::Progress(
                p,
            ) && p.dirs == dirs && p.entries == entries && p.disk == disk && p.current@.len() == 0,
            Heard::Message(Response::Scanning) => r is Wait,
            Heard::Message(Response::Error { message }) => r == ScanStep::Failed(message),
            _ => r matches ScanStep::Failed(e) && e@ == "unexpected reply: "@ + shown@,
        },
{
    match heard {
        Heard::Closed => ScanStep::Failed(
            String::from_str("the remote closed the connection mid-scan"),
        ),
        Heard::Tree(body) => ScanStep::Tree(body),
        Heard::Garbled(e) => ScanStep::Failed(e),
        Heard::Message(Response::Progress { dirs, entries, disk }) => ScanStep::Progress(
            Progress { dirs, entries, disk, current: Vec::new() },
        ),
        Heard::Message(Response::Scanning) => ScanStep::Wait,
        Heard::Message(Response::Error { message }) => ScanStep::Failed(message),
        _ => ScanStep::Failed(cat2("unexpected reply: ", shown)),
    }
}

/// What to make of the answer to a plan that was to be stored: its id, and the file it went to.
pub fn plan_saved(reply: Option<Response>, shown: &str) -> (r: Result<(String, String), String>)
    ensures
        match reply {
            Some(Response::PlanSaved { id, path }) => r == Ok::<(String, String), String>(
                (id, path),
            ),
            Some(Response::Error { message }) => r == Err::<(String, String), String>(message),
            _ => r matches Err(e) && e@ == "unexpected reply: "@ + shown@,
        },
{
    match reply {
        Some(Response::PlanSaved { id, path }) => Ok((id, path)),
        Some(Response::Error { message }) => Err(message),
        _ => Err(cat2("unexpected reply: ", shown)),
    }
}

/// What to make of the answer to paths whose identities were asked for.
pub fn identified(reply: Option<Response>, shown: &str) -> (r: Result<Vec<Option<Ident>>, String>)
    ensures
        match reply {
            Some(Response::Identities { idents }) => r == Ok::<Vec<Option<Ident>>, String>(idents),
            Some(Response::Error { message }) => r == Err::<Vec<Option<Ident>>, String>(message),
            _ => r matches Err(e) && e@ == "unexpected reply: "@ + shown@,
        },
{
    match reply {
        Some(Response::Identities { idents }) => Ok(idents),
        Some(Response::Error { message }) => Err(message),
        _ => Err(cat2("unexpected reply: ", shown)),
    }
}

/// What a remote run goes on with.
#[derive(Debug)]
pub enum ApplyStep {
    Event(ExecEvent),
    Done { outcome: Outcome, state: RunState },
    Failed(String),
}

/// What to make of what came in during a remote run.
pub fn apply_step(reply: Option<Response>, shown: &str) -> (r: ApplyStep)
    ensures
        match reply {
            Some(Response::Exec { event }) => r == ApplyStep::Event(event),
            Some(Response::ExecDone { outcome, state }) => r == (ApplyStep::Done {
                outcome,
                state,
            }),
            Some(Response::Error { message }) => r == ApplyStep::Failed(message),
            None => r matches ApplyStep::Failed(e) && e@
                == "the remote closed the connection mid-run"@,
            _ => r matches ApplyStep::Failed(e) && e@ == "unexpected reply: "@ + shown@,
        },
{
    match reply {
        Some(Response::Exec { event }) => ApplyStep::Event(event),
        Some(Response::ExecDone { outcome, state }) => ApplyStep::Done { outcome, state },
        Some(Response::Error { message }) => ApplyStep::Failed(message),
        None => ApplyStep::Failed(String::from_str("the remote closed the connection mid-run")),
        _ => ApplyStep::Failed(cat2("unexpected reply: ", shown)),
    }
}

/// Why a dump that ncdu was asked for did not come.
pub fn ncdu_failed(target: &Target, status: &str) -> (r: String)
    ensures
        r@ == "ncdu on "@ + target.host@ + " exited with "@ + status@,
{
    let mut text = cat3("ncdu on ", target.host.as_str(), " exited with ");
    text.append(status);
    text
}

proof fn lemma_first_at(s: Seq<char>, c: char, i: int, k: int)
    requires
        0 <= i <= k <= s.len(),
        forall|j: int| i <= j < k ==> s[j] != c,
        k < s.len() ==> s[k] == c,
    ensures
        first_at(s, c, i) == k,
    decreases k - i,
{
    if i < k {
        lemma_first_at(s, c, i + 1, k);
    }
}

proof fn lemma_last_at(s: Seq<char>, c: char, n: int, k: int)
    requires
        -1 <= k < n <= s.len() || (k == -1 && n == 0),
        forall|j: int| k < j < n ==> s[j] != c,
        k >= 0 ==> s[k] == c,
    ensures
        last_at(s, c, n) == k,
    decreases n,
{
    if n > 0 && k < n - 1 {
        lemma_last_at(s, c, n - 1, k);
    }
}

/// A host and a path with a colon between them name a place there, as they are.
pub proof fn law_a_host_and_a_path_name_a_place(host: Seq<char>, path: Seq<char>)
    requires
        host.len() > 0,
        host[0] != '.' && host[0] != '~',
        forall|k: int| 0 <= k < host.len() ==> host[k] != ':' && host[k] != '/',
        path.len() > 0,
        !(host == "ssh"@ && path.len() >= 2 && path[0] == '/' && path[1] == '/'),
    ensures
        place_of(host + seq![':'] + path) == Some(Place { host, port: None, path }),
{
    let s = host + seq![':'] + path;
    let n = host.len() as int;
    reveal_strlit("ssh://");
    reveal_strlit("ssh");
    assert(s[0] == host[0]);
    assert(s[n] == ':');
    assert forall|j: int| 0 <= j < n implies s[j] != ':' by {
        assert(s[j] == host[j]);
    }
    if is_url(s) {
        let t = s.take(6);
        assert(t[3] == ':' && s[3] == ':');
        assert(t[0] == s[0] && t[1] == s[1] && t[2] == s[2] && t[4] == s[4] && t[5] == s[5]);
        if n > 3 {
            assert(s[3] == host[3]);
        }
        if n < 3 {
            assert(s[n] == t[n]);
            assert(false);
        }
        assert(n == 3);
        assert(host[0] == 's' && host[1] == 's' && host[2] == 'h');
        assert(host =~= "ssh"@);
        assert(path[0] == s[4] && path[1] == s[5]);
        assert(false);
    }
    lemma_first_at(s, ':', 0, n);
    assert(s.take(n) =~= host);
    lemma_first_at(host, '/', 0, n);
    assert(s.skip(n + 1) =~= path);
}

/// An address names a place too, by its host and all that begins with the first slash behind it.
pub proof fn law_an_address_names_a_place(host: Seq<char>, path: Seq<char>)
    requires
        host.len() > 0,
        forall|k: int| 0 <= k < host.len() ==> host[k] != ':' && host[k] != '/',
        path.len() > 0,
    ensures
        place_of("ssh://"@ + host + seq!['/'] + path) == Some(
            Place { host, port: None, path: seq!['/'] + path },
        ),
{
    let s = "ssh://"@ + host + seq!['/'] + path;
    let rest = host + seq!['/'] + path;
    reveal_strlit("ssh://");
    assert(s.take(6) =~= "ssh://"@);
    assert(s.skip(6) =~= rest);
    let n = host.len() as int;
    assert forall|j: int| 0 <= j < n implies rest[j] != '/' by {
        assert(rest[j] == host[j]);
    }
    lemma_first_at(rest, '/', 0, n);
    assert(rest.take(n) =~= host);
    lemma_last_at(host, ':', n, -1);
    assert(rest.skip(n) =~= seq!['/'] + path);
}

/// An address may name a port, which is then the one to reach the host by.
pub proof fn law_an_address_may_name_a_port(host: Seq<char>, port: u16, path: Seq<char>)
    requires
        host.len() > 0,
        forall|k: int| 0 <= k < host.len() ==> host[k] != '/',
        path.len() > 0,
    ensures
        place_of("ssh://"@ + host + seq![':'] + dec(port as nat) + seq!['/'] + path) == Some(
            Place { host, port: Some(port), path: seq!['/'] + path },
        ),
{
    let digits = dec(port as nat);
    let authority = host + seq![':'] + digits;
    let s = "ssh://"@ + host + seq![':'] + digits + seq!['/'] + path;
    let rest = authority + seq!['/'] + path;
    reveal_strlit("ssh://");
    assert(s.take(6) =~= "ssh://"@);
    assert(s.skip(6) =~= rest);
    crate::text::lemma_dec_digits(port as nat);
    let n = authority.len() as int;
    let at = host.len() as int;
    assert forall|j: int| 0 <= j < n implies rest[j] != '/' by {
        if j < at {
            assert(rest[j] == host[j]);
        } else if j > at {
            assert(rest[j] == digits[j - at - 1]);
        }
    }
    lemma_first_at(rest, '/', 0, n);
    assert(rest.take(n) =~= authority);
    assert forall|j: int| at < j < n implies authority[j] != ':' by {
        assert(authority[j] == digits[j - at - 1]);
    }
    lemma_last_at(authority, ':', n, at);
    assert(authority.skip(at + 1) =~= digits);
    assert(authority.take(at) =~= host);
    assert('0' <= digits[0] <= '9');
    lemma_number_read(port as nat);
    assert(port_of(digits) == Some(port));
    assert(rest.skip(n) =~= seq!['/'] + path);
}

proof fn lemma_number_read(n: nat)
    ensures
        number_of(dec(n)) == n,
    decreases n,
{
    if n >= 10 {
        lemma_number_read(n / 10);
        assert(dec(n).drop_last() =~= dec(n / 10));
    } else {
        assert(dec(n).drop_last() =~= Seq::<char>::empty());
        assert(number_of(Seq::<char>::empty()) == 0);
    }
}

/// A host is reached by its name, and by its port where one was named.
pub proof fn law_how_a_host_is_reached(target: Target)
    ensures
        target.port is None ==> target.reach() == seq![target.host@],
        target.port matches Some(port) ==> target.reach() == seq![
            "-p"@,
            dec(port as nat),
            target.host@,
        ],
{
}

} // verus!
