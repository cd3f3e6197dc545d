//! Control of microVMs: what is asked of a Firecracker API socket, and what is
//! made of its answers.
use crate::chars::{spaced, split_spaces};
use crate::text::{
    dec, has_prefix, join_path, parse_unsigned, parsed_unsigned, path_join, push_dec, strip_prefix, strs,
};
use vstd::prelude::*;
use vstd::utf8::encode_utf8;

verus! {

/// A request to be put to a path.
pub struct Request {
    pub path: String,
    pub body: String,
}

#[verifier::ext_equal]
pub struct RequestView {
    pub path: Seq<char>,
    pub body: Seq<char>,
}

impl View for Request {
    type V = RequestView;

    open spec fn view(&self) -> RequestView {
        RequestView { path: self.path@, body: self.body@ }
    }
}

pub open spec fn request_views(v: Seq<Request>) -> Seq<RequestView> {
    Seq::new(v.len(), |i: int| v[i]@)
}

/// A request as it is sent; the length it names is that of its body.
pub open spec fn request_text(r: RequestView) -> Seq<char> {
    "PUT "@ + r.path
        + " HTTP/1.1\r\nHost: localhost\r\nContent-Type: application/json\r\nContent-Length: "@
        + dec(encode_utf8(r.body).len()) + "\r\nConnection: close\r\n\r\n"@ + r.body
}

/// The status in a response: its second word, or zero where that is none.
pub open spec fn status_of(resp: Seq<char>) -> u16 {
    let w = spaced(resp);
    if w.len() < 2 {
        0
    } else {
        match parsed_unsigned(w[1], u16::MAX as nat) {
            Some(n) => n as u16,
            None => 0,
        }
    }
}

/// What is reported of a response that failed.
pub open spec fn failure_text(path: Seq<char>, resp: Seq<char>) -> Seq<char> {
    "firecracker "@ + path + " -> "@ + dec(status_of(resp) as nat) + ": "@ + resp
}

impl Request {
    fn new(path: &str, body: &str) -> (r: Request)
        ensures
            r@ == (RequestView { path: path@, body: body@ }),
    {
        Request { path: path.to_owned(), body: body.to_owned() }
    }

    /// The request as it is sent.
    pub fn text(&self) -> (t: String)
        ensures
            t@ == request_text(self@),
    {
        let mut t: String = "PUT ".to_owned();
        t.append(self.path.as_str());
        t.append(
            " HTTP/1.1\r\nHost: localhost\r\nContent-Type: application/json\r\nContent-Length: ",
        );
        push_dec(&mut t, self.body.as_str().as_bytes().len() as u64);
        t.append("\r\nConnection: close\r\n\r\n");
        t.append(self.body.as_str());
        t
    }

    /// What the response comes to: its status, unless that is 300 or more.
    pub fn outcome(&self, resp: &str) -> (r: Result<u16, String>)
        ensures
            match r {
                Ok(code) => code == status_of(resp@) && code < 300,
                Err(m) => status_of(resp@) >= 300 && m@ == failure_text(self@.path, resp@),
            },
    {
        let w: Vec<String> = split_spaces(resp);
        let ghost words = strs(w@);
        assert(words.len() == w@.len());
        let code: u16 = if w.len() < 2 {
            0
        } else {
            assert(words[1] == w@[1]@);
            match parse_unsigned(w[1].as_str(), u16::MAX as u64) {
                Some(n) => n as u16,
                None => 0,
            }
        };
        if code >= 300 {
            let mut m: String = "firecracker ".to_owned();
            m.append(self.path.as_str());
            m.append(" -> ");
            push_dec(&mut m, code as u64);
            m.append(": ");
            m.append(resp);
            Err(m)
        } else {
            Ok(code)
        }
    }
}

/// The control of one VM.
pub struct Firecracker {
    pub api_sock: String,
}

/// `{"state":"..."}` for a VM.
pub open spec fn state_request(body: Seq<char>) -> RequestView {
    RequestView { path: "/vm"@, body }
}

pub open spec fn snapshot_request(vmstate: Seq<char>, mem: Seq<char>) -> RequestView {
    RequestView {
        path: "/snapshot/create"@,
        body: "{\"snapshot_type\":\"Full\",\"snapshot_path\":\""@ + vmstate
            + "\",\"mem_file_path\":\""@ + mem + "\"}"@,
    }
}

/// Where the memory of a snapshot comes from: a page server, or its file.
pub open spec fn backend_text(mem: Seq<char>, uffd: Option<Seq<char>>) -> Seq<char> {
    match uffd {
        Some(u) => "{\"backend_type\":\"Uffd\",\"backend_path\":\""@ + u + "\"}"@,
        None => "{\"backend_type\":\"File\",\"backend_path\":\""@ + mem + "\"}"@,
    }
}

pub open spec fn load_request(vmstate: Seq<char>, mem: Seq<char>, uffd: Option<Seq<char>>) -> RequestView {
    RequestView {
        path: "/snapshot/load"@,
        body: "{\"snapshot_path\":\""@ + vmstate + "\",\"mem_backend\":"@ + backend_text(mem, uffd)
            + ",\"resume_vm\":true}"@,
    }
}

/// The requests of a first boot, in order.
pub open spec fn boot_requests(
    kernel: Seq<char>,
    rootfs: Seq<char>,
    vcpus: u32,
    mem_mib: u32,
    boot_args: Seq<char>,
) -> Seq<RequestView> {
    seq![
        RequestView {
            path: "/boot-source"@,
            body: "{\"kernel_image_path\":\""@ + kernel + "\",\"boot_args\":\""@ + boot_args + "\"}"@,
        },
        RequestView {
            path: "/drives/rootfs"@,
            body: "{\"drive_id\":\"rootfs\",\"path_on_host\":\""@ + rootfs
                + "\",\"is_root_device\":true,\"is_read_only\":true}"@,
        },
        RequestView {
            path: "/machine-config"@,
            body: "{\"vcpu_count\":"@ + dec(vcpus as nat) + ",\"mem_size_mib\":"@ + dec(
                mem_mib as nat,
            ) + ",\"smt\":false}"@,
        },
        RequestView {
            path: "/vsock"@,
            body: "{\"guest_cid\":3,\"uds_path\":\"/tmp/blitz-vsock.sock\"}"@,
        },
        RequestView { path: "/actions"@, body: "{\"action_type\":\"InstanceStart\"}"@ },
    ]
}

impl Firecracker {
    pub fn connect(api_sock: &str) -> (f: Firecracker)
        ensures
            f.api_sock@ == api_sock@,
    {
        Firecracker { api_sock: api_sock.to_owned() }
    }

    /// Pauses the running VM.
    pub fn pause(&self) -> (r: Request)
        ensures
            r@ == state_request("{\"state\":\"Paused\"}"@),
    {
        Request::new("/vm", "{\"state\":\"Paused\"}")
    }

    pub fn resume(&self) -> (r: Request)
        ensures
            r@ == state_request("{\"state\":\"Resumed\"}"@),
    {
        Request::new("/vm", "{\"state\":\"Resumed\"}")
    }

    /// Takes a full snapshot of a paused VM.
    pub fn snapshot_create(&self, vmstate: &str, mem: &str) -> (r: Request)
        ensures
            r@ == snapshot_request(vmstate@, mem@),
    {
        let mut b: String = "{\"snapshot_type\":\"Full\",\"snapshot_path\":\"".to_owned();
        b.append(vmstate);
        b.append("\",\"mem_file_path\":\"");
        b.append(mem);
        b.append("\"}");
        Request::new("/snapshot/create", b.as_str())
    }

    /// Loads a snapshot and resumes it. With a page server its memory is
    /// loaded as it is used.
    pub fn snapshot_resume(&self, vmstate: &str, mem: &str, uffd_sock: Option<&str>) -> (r: Request)
        ensures
            r@ == load_request(
                vmstate@,
                mem@,
                match uffd_sock {
                    Some(u) => Some(u@),
                    None => None,
                },
            ),
    {
        let mut backend: String = match uffd_sock {
            Some(_) => "{\"backend_type\":\"Uffd\",\"backend_path\":\"".to_owned(),
            None => "{\"backend_type\":\"File\",\"backend_path\":\"".to_owned(),
        };
        match uffd_sock {
            Some(u) => backend.append(u),
            None => backend.append(mem),
        }
        backend.append("\"}");
        let mut b: String = "{\"snapshot_path\":\"".to_owned();
        b.append(vmstate);
        b.append("\",\"mem_backend\":");
        b.append(backend.as_str());
        b.append(",\"resume_vm\":true}");
        Request::new("/snapshot/load", b.as_str())
    }

    /// The requests that configure a VM and boot it, which is done once, to
    /// make the snapshot that queries resume. `Boot` puts them in order.
    pub fn configure_and_boot(
        &self,
        kernel: &str,
        rootfs: &str,
        vcpus: u32,
        mem_mib: u32,
        boot_args: &str,
    ) -> (v: Vec<Request>)
        ensures
            request_views(v@) == boot_requests(kernel@, rootfs@, vcpus, mem_mib, boot_args@),
    {
        let mut v: Vec<Request> = Vec::new();
        let mut a: String = "{\"kernel_image_path\":\"".to_owned();
        a.append(kernel);
        a.append("\",\"boot_args\":\"");
        a.append(boot_args);
        a.append("\"}");
        v.push(Request::new("/boot-source", a.as_str()));
        let mut b: String = "{\"drive_id\":\"rootfs\",\"path_on_host\":\"".to_owned();
        b.append(rootfs);
        b.append("\",\"is_root_device\":true,\"is_read_only\":true}");
        v.push(Request::new("/drives/rootfs", b.as_str()));
        let mut c: String = "{\"vcpu_count\":".to_owned();
        push_dec(&mut c, vcpus as u64);
        c.append(",\"mem_size_mib\":");
        push_dec(&mut c, mem_mib as u64);
        c.append(",\"smt\":false}");
        v.push(Request::new("/machine-config", c.as_str()));
        v.push(
            Request::new("/vsock", "{\"guest_cid\":3,\"uds_path\":\"/tmp/blitz-vsock.sock\"}"),
        );
        v.push(Request::new("/actions", "{\"action_type\":\"InstanceStart\"}"));
        assert(request_views(v@) =~= boot_requests(kernel@, rootfs@, vcpus, mem_mib, boot_args@));
        v
    }
}

/// Requests that go out one after another, each once the one before succeeded.
pub struct Boot {
    pub requests: Vec<Request>,
    pub sent: usize,
}

#[verifier::ext_equal]
pub struct BootView {
    pub requests: Seq<RequestView>,
    pub sent: int,
}

impl View for Boot {
    type V = BootView;

    open spec fn view(&self) -> BootView {
        BootView { requests: request_views(self.requests@), sent: self.sent as int }
    }
}

/// What is to be done next: put a request, nothing more, or give up.
pub enum BootStep {
    Send(Request),
    Done,
    Failed(String),
}

#[verifier::ext_equal]
pub enum BootStepView {
    Send(RequestView),
    Done,
    Failed(Seq<char>),
}

impl View for BootStep {
    type V = BootStepView;

    open spec fn view(&self) -> BootStepView {
        match self {
            BootStep::Send(r) => BootStepView::Send(r@),
            BootStep::Done => BootStepView::Done,
            BootStep::Failed(m) => BootStepView::Failed(m@),
        }
    }
}

/// What went wrong with a request, if anything did: no response came, or one
/// with a status of 300 or more.
pub open spec fn trouble(r: RequestView, reply: Result<Seq<char>, Seq<char>>) -> Option<Seq<char>> {
    match reply {
        Err(m) => Some(m),
        Ok(t) => if status_of(t) >= 300 {
            Some(failure_text(r.path, t))
        } else {
            None
        },
    }
}

/// The step once `sent` requests went out and all of them succeeded.
pub open spec fn goes_on(reqs: Seq<RequestView>, sent: int) -> BootStepView {
    if sent < reqs.len() {
        BootStepView::Send(reqs[sent])
    } else {
        BootStepView::Done
    }
}

pub open spec fn reply_view(r: Result<String, String>) -> Result<Seq<char>, Seq<char>> {
    match r {
        Ok(t) => Ok(t@),
        Err(m) => Err(m@),
    }
}

impl BootView {
    /// Once one more request went out, if there is one.
    pub open spec fn advanced(self) -> BootView {
        BootView {
            sent: if self.sent < self.requests.len() {
                self.sent + 1
            } else {
                self.sent
            },
            ..self
        }
    }
}

impl Boot {
    pub fn new(requests: Vec<Request>) -> (b: Boot)
        ensures
            b@ == (BootView { requests: request_views(requests@), sent: 0 }),
    {
        Boot { requests, sent: 0 }
    }

    /// The next request, if there is one.
    fn advance(&mut self) -> (r: BootStep)
        ensures
            r@ == goes_on(old(self)@.requests, old(self)@.sent),
            final(self)@ == old(self)@.advanced(),
    {
        if self.sent < self.requests.len() {
            let q: &Request = &self.requests[self.sent];
            let r: BootStep = BootStep::Send(Request::new(q.path.as_str(), q.body.as_str()));
            assert(r@ =~= BootStepView::Send(self@.requests[self.sent as int]));
            self.sent = self.sent + 1;
            r
        } else {
            BootStep::Done
        }
    }

    /// The first step.
    pub fn start(&mut self) -> (r: BootStep)
        requires
            old(self)@.sent == 0,
        ensures
            r@ == goes_on(old(self)@.requests, 0),
            final(self)@ == old(self)@.advanced(),
    {
        self.advance()
    }

    /// The step after the reply to the last request came, or why none did.
    pub fn next(&mut self, reply: Result<String, String>) -> (r: BootStep)
        requires
            0 < old(self)@.sent <= old(self)@.requests.len(),
        ensures
            match trouble(old(self)@.requests[old(self)@.sent - 1], reply_view(reply)) {
                Some(m) => r@ == BootStepView::Failed(m) && final(self)@ == old(self)@,
                None => r@ == goes_on(old(self)@.requests, old(self)@.sent) && final(self)@
                    == old(self)@.advanced(),
            },
    {
        match reply {
            Err(m) => BootStep::Failed(m),
            Ok(t) => match self.requests[self.sent - 1].outcome(t.as_str()) {
                Err(m) => BootStep::Failed(m),
                Ok(_) => self.advance(),
            },
        }
    }
}

/// The step after some replies, each to the request that was last sent.
pub open spec fn boot_after(
    reqs: Seq<RequestView>,
    replies: Seq<Result<Seq<char>, Seq<char>>>,
) -> BootStepView
    decreases replies.len(),
{
    if replies.len() == 0 {
        goes_on(reqs, 0)
    } else {
        match boot_after(reqs, replies.drop_last()) {
            BootStepView::Send(r) => match trouble(r, replies.last()) {
                Some(m) => BootStepView::Failed(m),
                None => goes_on(reqs, replies.len() as int),
            },
            ended => ended,
        }
    }
}

/// A request goes out only once all before it succeeded, all is done once all
/// have, and the first failure ends it.
pub proof fn boot_stops_at_first_failure(
    reqs: Seq<RequestView>,
    replies: Seq<Result<Seq<char>, Seq<char>>>,
)
    ensures
        match boot_after(reqs, replies) {
            BootStepView::Send(r) => replies.len() < reqs.len() && r == reqs[replies.len() as int]
                && forall|i: int|
                0 <= i < replies.len() ==> trouble(#[trigger] reqs[i], replies[i]) is None,
            BootStepView::Done => replies.len() >= reqs.len() && forall|i: int|
                0 <= i < reqs.len() ==> trouble(#[trigger] reqs[i], replies[i]) is None,
            BootStepView::Failed(m) => exists|k: int|
                0 <= k < replies.len() && k < reqs.len() && trouble(#[trigger] reqs[k], replies[k])
                    == Some(m) && forall|i: int|
                    0 <= i < k ==> trouble(#[trigger] reqs[i], replies[i]) is None,
        },
    decreases replies.len(),
{
    if replies.len() > 0 {
        let before = replies.drop_last();
        let n = before.len() as int;
        boot_stops_at_first_failure(reqs, before);
        match boot_after(reqs, before) {
            BootStepView::Send(r) => {
                assert(r == reqs[n]);
                if trouble(r, replies.last()) is None {
                    assert forall|i: int| 0 <= i < n + 1 implies trouble(
                        #[trigger] reqs[i],
                        replies[i],
                    ) is None by {
                        if i < n {
                            assert(before[i] == replies[i]);
                            assert(trouble(reqs[i], before[i]) is None);
                        }
                    }
                } else {
                    assert forall|i: int| 0 <= i < n implies trouble(
                        #[trigger] reqs[i],
                        replies[i],
                    ) is None by {
                        assert(trouble(reqs[i], before[i]) is None);
                    }
                    assert(trouble(reqs[n], replies[n]) is Some);
                }
            },
            BootStepView::Done => {
                assert forall|i: int| 0 <= i < reqs.len() implies trouble(
                    #[trigger] reqs[i],
                    replies[i],
                ) is None by {
                    assert(trouble(reqs[i], before[i]) is None);
                }
            },
            BootStepView::Failed(m) => {
                let k = choose|k: int|
                    0 <= k < before.len() && k < reqs.len() && trouble(
                        #[trigger] reqs[k],
                        before[k],
                    ) == Some(m) && forall|i: int|
                        0 <= i < k ==> trouble(#[trigger] reqs[i], before[i]) is None;
                assert forall|i: int| 0 <= i < k implies trouble(
                    #[trigger] reqs[i],
                    replies[i],
                ) is None by {
                    assert(trouble(reqs[i], before[i]) is None);
                }
                assert(trouble(reqs[k], replies[k]) == Some(m));
            },
        }
    }
}

/// The worker snapshots to resume.
pub struct RampPlan {
    pub workers: Vec<WorkerSlot>,
}

pub struct WorkerSlot {
    pub api_sock: String,
    pub vmstate: String,
    pub mem: String,
}

/// A file of a slot in a directory.
pub open spec fn slot_file(dir: Seq<char>, slot: Seq<char>, suffix: Seq<char>) -> Seq<char> {
    path_join(dir, slot + suffix)
}

pub open spec fn worker_name(i: nat) -> Seq<char> {
    "worker"@ + dec(i)
}

/// Whether a slot is that of a name in a directory.
pub open spec fn slot_of(s: WorkerSlot, dir: Seq<char>, name: Seq<char>) -> bool {
    &&& s.api_sock@ == slot_file(dir, name, ".sock"@)
    &&& s.vmstate@ == slot_file(dir, name, ".vmstate"@)
    &&& s.mem@ == slot_file(dir, name, ".mem"@)
}

impl WorkerSlot {
    /// The slot of a name in a directory.
    pub fn named(dir: &str, name: &str) -> (s: WorkerSlot)
        ensures
            slot_of(s, dir@, name@),
    {
        let mut a: String = name.to_owned();
        a.append(".sock");
        let mut b: String = name.to_owned();
        b.append(".vmstate");
        let mut c: String = name.to_owned();
        c.append(".mem");
        WorkerSlot {
            api_sock: join_path(dir, a.as_str()),
            vmstate: join_path(dir, b.as_str()),
            mem: join_path(dir, c.as_str()),
        }
    }
}

/// The plan that resumes so many workers from a directory.
pub fn ramp_plan(dir: &str, n: usize) -> (p: RampPlan)
    ensures
        p.workers@.len() == n,
        forall|i: int|
            0 <= i < n ==> slot_of(#[trigger] p.workers@[i], dir@, worker_name(i as nat)),
{
    let mut workers: Vec<WorkerSlot> = Vec::new();
    let mut i: usize = 0;
    while i < n
        invariant
            i <= n,
            workers@.len() == i,
            forall|k: int|
                0 <= k < i ==> slot_of(#[trigger] workers@[k], dir@, worker_name(k as nat)),
        decreases n - i,
    {
        let mut name: String = "worker".to_owned();
        push_dec(&mut name, i as u64);
        workers.push(WorkerSlot::named(dir, name.as_str()));
        i += 1;
    }
    RampPlan { workers }
}

/// The value of the first word that starts with a key and an equals sign, from
/// the word at `i` on.
pub open spec fn setting(words: Seq<Seq<char>>, key: Seq<char>, i: int) -> Option<Seq<char>>
    decreases words.len() - i,
{
    if i < 0 || i >= words.len() {
        None
    } else if has_prefix(words[i], key.push('=')) {
        Some(words[i].skip(key.len() as int + 1))
    } else {
        setting(words, key, i + 1)
    }
}

/// The value that a kernel command line gives a key.
pub fn cmdline_val(cmdline: &str, key: &str) -> (r: Option<String>)
    ensures
        match (r, setting(spaced(cmdline@), key@, 0)) {
            (Some(v), Some(w)) => v@ == w,
            (None, None) => true,
            _ => false,
        },
{
    let words: Vec<String> = split_spaces(cmdline);
    let ghost m = strs(words@);
    let mut start: String = key.to_owned();
    start.push('=');
    let mut i: usize = 0;
    while i < words.len()
        invariant
            i <= words@.len(),
            m == strs(words@),
            m == spaced(cmdline@),
            start@ == key@.push('='),
            setting(m, key@, i as int) == setting(m, key@, 0),
        decreases words@.len() - i,
    {
        assert(m[i as int] == words@[i as int]@);
        if let Some(v) = strip_prefix(words[i].as_str(), start.as_str()) {
            return Some(v);
        }
        i += 1;
    }
    None
}

} // verus!
