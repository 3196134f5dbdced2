//! The program's side: requests from the browser's helper, one line each.

use crate::foreign;
use crate::text;
use vstd::prelude::*;
use vstd::string::*;

verus! {

/// Where the program listens on this machine.
pub const PORT: u16 = 48666;

/// What a line asks for.
#[derive(Debug, Clone, Copy, PartialEq, Eq, Structural)]
pub enum Request {
    /// A download: the line is a job.
    Job,
    /// Everything that is paused or failed is to go on.
    ResumeAll,
    /// The settings that the browser needs.
    Config,
    /// Nothing known.
    Unknown,
}

/// What a line asks for: a job if it has a link, else what its command says.
pub open spec fn request_of(has_url: bool, cmd: Option<Seq<char>>) -> Request {
    if has_url {
        Request::Job
    } else if cmd == Some("resume_all"@) {
        Request::ResumeAll
    } else if cmd == Some("config"@) {
        Request::Config
    } else {
        Request::Unknown
    }
}

/// Tells what a line asks for, by whether it has a link and by its command.
pub fn classify(has_url: bool, cmd: Option<String>) -> (r: Request)
    ensures
        r == request_of(
            has_url,
            match cmd {
                Some(c) => Some(c@),
                None => None,
            },
        ),
{
    if has_url {
        return Request::Job;
    }
    match cmd {
        Some(c) => if text::same(c.as_str(), "resume_all") {
            Request::ResumeAll
        } else if text::same(c.as_str(), "config") {
            Request::Config
        } else {
            Request::Unknown
        },
        None => Request::Unknown,
    }
}

/// Reads a line: what it asks for.
pub fn parse_request(line: &Vec<u8>) -> (r: Request)
    ensures
        r == request_of(
            foreign::has_json(line@, "/url"@),
            foreign::text_in_json(line@, "/cmd"@),
        ),
{
    let has_url = foreign::json_has(line, "/url");
    let cmd = foreign::json_text(line, "/cmd");
    classify(has_url, cmd)
}

/// The answer to a request, with the line feed that ends it. `job_read` says
/// that the job of a [`Request::Job`] could be read; the size is the one from
/// which the browser is to hand a download over.
pub open spec fn reply_text(request: Request, job_read: bool, threshold_mb: u64) -> Seq<char> {
    match request {
        Request::Job => if job_read { "{\"ok\":true}\n"@ } else { "{\"ok\":false}\n"@ },
        Request::ResumeAll => "{\"ok\":true}\n"@,
        Request::Config => "{\"ok\":true,\"sizeThresholdMb\":"@ + text::decimal(threshold_mb as nat)
            + "}\n"@,
        Request::Unknown => "{\"ok\":false}\n"@,
    }
}

/// The answer to a request.
pub fn reply(request: Request, job_read: bool, threshold_mb: u64) -> (r: String)
    ensures
        r@ == reply_text(request, job_read, threshold_mb),
{
    match request {
        Request::Job => if job_read {
            text::owned("{\"ok\":true}\n")
        } else {
            text::owned("{\"ok\":false}\n")
        },
        Request::ResumeAll => text::owned("{\"ok\":true}\n"),
        Request::Config => {
            let mut r: String = text::join(
                "{\"ok\":true,\"sizeThresholdMb\":",
                text::number(threshold_mb).as_str(),
            );
            r.append("}\n");
            r
        },
        Request::Unknown => text::owned("{\"ok\":false}\n"),
    }
}

/// A line with a link is a job, whatever else it says. Of the others a known
/// command is what it says, and anything else is nothing known.
pub proof fn links_go_before_commands(cmd: Option<Seq<char>>)
    ensures
        request_of(true, cmd) is Job,
        !(request_of(false, cmd) is Job),
        request_of(false, Some("resume_all"@)) is ResumeAll,
        request_of(false, Some("config"@)) is Config,
        cmd is None ==> request_of(false, cmd) is Unknown,
        cmd != Some("resume_all"@) && cmd != Some("config"@) ==> request_of(
            false,
            cmd,
        ) is Unknown,
        PORT == 48666,
{
    reveal_strlit("resume_all");
    reveal_strlit("config");
    assert("resume_all"@.len() == 10 && "config"@.len() == 6);
}

/// Only a job that cannot be read, and what is not known, is refused. A
/// question about the settings is answered with the size itself, as a number
/// that can be read.
pub proof fn replies_say_what_became_of_it(request: Request, job_read: bool, mb: u64)
    ensures
        ({
            let r = reply_text(request, job_read, mb);
            let well = "{\"ok\":true}\n"@;
            let no = "{\"ok\":false}\n"@;
            &&& request is Job && job_read ==> r == well
            &&& request is Job && !job_read ==> r == no
            &&& request is ResumeAll ==> r == well
            &&& request is Unknown ==> r == no
            &&& request is Config ==> {
                let t = text::after_prefix(r, "{\"ok\":true,\"sizeThresholdMb\":"@);
                let u = text::before_suffix(t->0, "}\n"@);
                t is Some && u is Some && text::parsed(u->0, u64::MAX as nat) == Some(mb as nat)
            }
        }),
{
    let d = text::decimal(mb as nat);
    let head = "{\"ok\":true,\"sizeThresholdMb\":"@;
    let tail = "}\n"@;
    assert(head + d + tail =~= head + (d + tail));
    text::beginnings_and_ends_come_off(head, d + tail, d);
    text::beginnings_and_ends_come_off(tail, d, d);
    text::number_reads_back(mb as nat, u64::MAX as nat);
}

} // verus!
