//! The browser's side: messages with a length in front, and the answers.

use crate::server::{self, Request};
use crate::text::{self, Class};
use vstd::prelude::*;
use vstd::string::*;
use vstd::utf8::*;

verus! {

/// The longest message that is taken from the browser.
pub const MAX_MESSAGE: u32 = 1 << 20;

/// How often the program is looked for after it was started.
pub const CONNECT_TRIES: u32 = 50;

/// The number that four bytes stand for, the least significant first.
pub open spec fn little_endian(b: Seq<u8>) -> int {
    b[0] + b[1] * 0x100 + b[2] * 0x1_0000 + b[3] * 0x100_0000
}

/// The length of the message that follows, from the four bytes in front of
/// it: `None` if it is empty or too long, which ends the conversation.
pub fn message_len(head: [u8; 4]) -> (r: Option<u32>)
    ensures
        r == if 1 <= little_endian(head@) <= MAX_MESSAGE {
            Some(little_endian(head@) as u32)
        } else {
            None
        },
{
    let n: u32 = head[0] as u32 + head[1] as u32 * 0x100 + head[2] as u32 * 0x1_0000
        + head[3] as u32 * 0x100_0000;
    if n == 0 || n > MAX_MESSAGE { None } else { Some(n) }
}

/// The answer to a message, given why it could not be passed on, if so.
pub open spec fn answer_text(error: Option<Seq<char>>) -> Seq<char> {
    match error {
        None => "{\"ok\":true}"@,
        Some(e) => "{\"ok\":false,\"error\":\""@ + text::replaced(e, '"', '\'') + "\"}"@,
    }
}

/// The answer to a message. Quotes in the error become apostrophes, or the
/// answer would not be readable.
pub fn answer(error: Option<String>) -> (r: String)
    ensures
        r@ == answer_text(
            match error {
                Some(e) => Some(e@),
                None => None,
            },
        ),
{
    match error {
        None => text::owned("{\"ok\":true}"),
        Some(e) => {
            let mut r: String = text::join(
                "{\"ok\":false,\"error\":\"",
                text::replace(e.as_str(), '"', '\'').as_str(),
            );
            r.append("\"}");
            r
        },
    }
}

/// An answer with its length in front.
pub fn frame(reply: &str) -> (r: Vec<u8>)
    requires
        encode_utf8(reply@).len() <= u32::MAX,
    ensures
        r@.len() == 4 + encode_utf8(reply@).len(),
        little_endian(r@) == encode_utf8(reply@).len(),
        r@.skip(4) == encode_utf8(reply@),
{
    let b = reply.as_bytes();
    let n: u32 = b.len() as u32;
    let mut r: Vec<u8> = Vec::new();
    r.push((n % 0x100) as u8);
    r.push((n / 0x100 % 0x100) as u8);
    r.push((n / 0x1_0000 % 0x100) as u8);
    r.push((n / 0x100_0000) as u8);
    let mut i: usize = 0;
    let ghost head = r@;
    while i < b.len()
        invariant
            b@ == encode_utf8(reply@),
            head.len() == 4,
            i <= b@.len(),
            r@ == head + b@.take(i as int),
        decreases b@.len() - i,
    {
        r.push(b[i]);
        i = i + 1;
        assert(b@.take(i as int).drop_last() =~= b@.take(i - 1));
        assert(r@ =~= head + b@.take(i as int));
    }
    assert(r@.skip(4) =~= b@);
    r
}

/// What is framed can be read: the length in front of an answer is that of
/// the answer, and is taken if it is neither empty nor too long.
pub proof fn frames_announce_their_length(reply: Seq<char>, framed: Seq<u8>)
    requires
        1 <= encode_utf8(reply).len() <= MAX_MESSAGE,
        framed.len() == 4 + encode_utf8(reply).len(),
        little_endian(framed) == encode_utf8(reply).len(),
        framed.skip(4) == encode_utf8(reply),
    ensures
        1 <= little_endian(framed.take(4)) <= MAX_MESSAGE,
        framed.skip(4).len() == little_endian(framed.take(4)),
        decode_utf8(framed.skip(4)) == reply,
{
    encode_utf8_decode_utf8(reply);
}

/// Judges the program's answer to a message that was passed on: the error, if
/// it does not say that all is well.
pub fn judge_answer(line: &str) -> (r: Option<String>)
    ensures
        r is None <==> text::find_text(line@, "ok"@) is Some,
        r matches Some(e) ==> e@ == "risposta app inattesa: "@ + line@,
{
    if text::search(&text::to_chars(line), "ok").is_some() {
        None
    } else {
        Some(text::join("risposta app inattesa: ", line))
    }
}

/// What the browser is told of a message that was passed on, given what the
/// message asked for and the line that the program answered. A question about
/// the settings is answered with what the program said.
pub fn answer_to(request: Request, line: &str) -> (r: String)
    ensures
        r@ == if text::find_text(line@, "ok"@) is None {
            answer_text(Some("risposta app inattesa: "@ + line@))
        } else if request == Request::Config {
            text::trim(line@, Class::White)
        } else {
            answer_text(None)
        },
{
    match judge_answer(line) {
        Some(e) => answer(Some(e)),
        None => if request == Request::Config {
            text::from_chars(&text::strip(&text::to_chars(line), Class::White))
        } else {
            answer(None)
        },
    }
}

/// An argument says that the browser started the program.
pub open spec fn is_host_arg(a: Seq<char>) -> bool {
    text::after_prefix(a, "chrome-extension://"@) is Some || a == "--host"@
}

/// Whether the browser started the program, by its arguments: it passes the
/// origin of the extension.
pub fn is_host_call(args: &Vec<String>) -> (r: bool)
    ensures
        r == exists|i: int| 0 <= i < args@.len() && is_host_arg((#[trigger] args@[i])@),
{
    let mut i: usize = 0;
    while i < args.len()
        invariant
            i <= args@.len(),
            forall|j: int| 0 <= j < i ==> !is_host_arg((#[trigger] args@[j])@),
        decreases args@.len() - i,
    {
        let a = text::to_chars(args[i].as_str());
        if text::strip_prefix(&a, "chrome-extension://").is_some() || text::same(
            args[i].as_str(),
            "--host",
        ) {
            assert(is_host_arg(args@[i as int]@));
            return true;
        }
        i = i + 1;
    }
    false
}

/// Whether the program is to be started for a message if it does not run: not
/// for a question about its settings, which the browser asks again and again.
pub fn may_start_app(message: &Vec<u8>) -> (r: bool)
    ensures
        r == (server::request_of(
            crate::foreign::has_json(message@, "/url"@),
            crate::foreign::text_in_json(message@, "/cmd"@),
        ) != Request::Config),
{
    server::parse_request(message) != Request::Config
}

/// Four bytes stand for the number whose digits to the base 256 they are, the
/// last digit first.
pub proof fn lengths_are_read_byte_by_byte(b: Seq<u8>)
    requires
        b.len() >= 4,
    ensures
        little_endian(b) % 256 == b[0],
        little_endian(b) / 256 % 256 == b[1],
        little_endian(b) / 65_536 % 256 == b[2],
        little_endian(b) / 16_777_216 == b[3],
        MAX_MESSAGE == 1_048_576,
        CONNECT_TRIES == 50,
{
    assert(MAX_MESSAGE == 1_048_576) by {
        assert(1u32 << 20 == 1_048_576) by (bit_vector);
    }
}

/// An answer can be read: all is well, or the reason stands between the quotes
/// without a quote in it, and as it was if it had none.
pub proof fn answers_can_be_read(e: Seq<char>)
    ensures
        answer_text(None) == "{\"ok\":true}"@,
        ({
            let t = text::after_prefix(
                answer_text(Some(e)),
                "{\"ok\":false,\"error\":\""@,
            );
            let u = text::before_suffix(t->0, "\"}"@);
            &&& t is Some && u is Some
            &&& u->0.len() == e.len()
            &&& !u->0.contains('"')
            &&& !e.contains('"') ==> u->0 == e
            &&& forall|i: int|
                0 <= i < e.len() ==> #[trigger] u->0[i] == if e[i] == '"' { '\'' } else { e[i] }
        }),
{
    let r = text::replaced(e, '"', '\'');
    let head = "{\"ok\":false,\"error\":\""@;
    let tail = "\"}"@;
    assert(answer_text(Some(e)) =~= head + (r + tail));
    text::beginnings_and_ends_come_off(head, r + tail, r);
    text::beginnings_and_ends_come_off(tail, r, r);
    text::replacing_replaces_every_one(e, '"', '\'');
    if !e.contains('"') {
        assert forall|i: int| 0 <= i < e.len() implies e[i] != '"' by {
            assert(e.contains(e[i]));
        }
        assert(r =~= e);
    }
}

/// The browser is told by the origin of its extension, or by the option that
/// says so, and by nothing else.
pub proof fn browsers_tell_who_they_are(origin: Seq<char>, a: Seq<char>)
    ensures
        is_host_arg("--host"@),
        is_host_arg("chrome-extension://"@ + origin),
        is_host_arg(a) ==> a == "--host"@ || exists|o: Seq<char>|
            a == #[trigger] ("chrome-extension://"@ + o),
{
    text::beginnings_and_ends_come_off("chrome-extension://"@, origin, a);
}

} // verus!
