//! What is said to a news server, and what its answers mean.
use crate::text;
use crate::text::{cat2, cat3, cat4, decimal, starts_with, trimmed_end};
use vstd::prelude::*;

verus! {

/// Where a server is: its host and its port.
pub fn server_address(host: &str, port: u16) -> (r: String)
    ensures
        r@ == host@ + ":"@ + text::dec(port as nat),
{
    let p = decimal(port as u64);
    cat3(host, ":", p.as_str())
}

/// A line of a server's without its end.
pub fn response(line: &str) -> (r: String)
    ensures
        r@ == text::trim_end(line@),
{
    trimmed_end(line)
}

/// Whether a greeting says that the service is there.
pub open spec fn welcomes(response: Seq<char>) -> bool {
    text::has_prefix(response, "200"@) || text::has_prefix(response, "201"@)
}

/// Take in a server's greeting: posting may be allowed or prohibited, but
/// the service has to be available.
pub fn greeting(response: &str) -> (r: Result<(), String>)
    ensures
        match r {
            Ok(()) => welcomes(response@),
            Err(e) => !welcomes(response@) && e@ == "Unexpected NNTP greeting: "@ + response@,
        },
{
    if starts_with(response, "200") || starts_with(response, "201") {
        Ok(())
    } else {
        Err(cat2("Unexpected NNTP greeting: ", response))
    }
}

/// How far an authentication has come.
#[derive(Debug, Clone, Copy, PartialEq, Eq, Structural)]
pub enum AuthState {
    /// The user's name has been sent.
    UserSent,
    /// The password has been sent.
    PasswordSent,
    /// It succeeded.
    Done,
}

/// The command that names a user.
pub fn user_command(user: &str) -> (r: String)
    ensures
        r@ == "AUTHINFO USER "@ + user@,
{
    cat2("AUTHINFO USER ", user)
}

/// The command that gives a password.
pub fn password_command(pass: &str) -> (r: String)
    ensures
        r@ == "AUTHINFO PASS "@ + pass@,
{
    cat2("AUTHINFO PASS ", pass)
}

/// What an answer makes of an authentication: a server that wants a password
/// gets it, one that accepts is done, and any other answer is a failure.
pub open spec fn auth_spec(state: AuthState, response: Seq<char>) -> Result<AuthState, Seq<char>> {
    match state {
        AuthState::UserSent => if text::has_prefix(response, "381"@) {
            Ok(AuthState::PasswordSent)
        } else if text::has_prefix(response, "281"@) {
            Ok(AuthState::Done)
        } else {
            Err("NNTP Authentication failed (User stage): "@ + response)
        },
        AuthState::PasswordSent => if text::has_prefix(response, "281"@) {
            Ok(AuthState::Done)
        } else {
            Err("NNTP Authentication failed: "@ + response)
        },
        AuthState::Done => Ok(AuthState::Done),
    }
}

/// Take in an answer to the last command of an authentication.
pub fn authenticate(state: AuthState, response: &str) -> (r: Result<AuthState, String>)
    ensures
        match r {
            Ok(next) => auth_spec(state, response@) == Ok::<AuthState, Seq<char>>(next),
            Err(e) => auth_spec(state, response@) == Err::<AuthState, Seq<char>>(e@),
        },
{
    match state {
        AuthState::UserSent => {
            if starts_with(response, "381") {
                Ok(AuthState::PasswordSent)
            } else if starts_with(response, "281") {
                Ok(AuthState::Done)
            } else {
                Err(cat2("NNTP Authentication failed (User stage): ", response))
            }
        },
        AuthState::PasswordSent => {
            if starts_with(response, "281") {
                Ok(AuthState::Done)
            } else {
                Err(cat2("NNTP Authentication failed: ", response))
            }
        },
        AuthState::Done => Ok(AuthState::Done),
    }
}

/// A message id as a server wants it: between `<` and `>`.
pub open spec fn bracketed(id: Seq<char>) -> Seq<char> {
    if text::has_prefix(id, "<"@) {
        id
    } else {
        "<"@ + id + ">"@
    }
}

/// A message id as a server wants it.
pub fn message_id(id: &str) -> (r: String)
    ensures
        r@ == bracketed(id@),
{
    if starts_with(id, "<") {
        id.to_owned()
    } else {
        cat3("<", id, ">")
    }
}

/// The command that asks for the body of an article.
pub fn body_command(id: &str) -> (r: String)
    ensures
        r@ == "BODY "@ + bracketed(id@),
{
    let m = message_id(id);
    cat2("BODY ", m.as_str())
}

/// Take in the answer to it: a body follows, or there is none.
pub fn body_follows(id: &str, response: &str) -> (r: Result<(), String>)
    ensures
        match r {
            Ok(()) => text::has_prefix(response@, "222"@),
            Err(e) => !text::has_prefix(response@, "222"@) && e@ == "Failed to fetch body for "@
                + bracketed(id@) + ": "@ + response@,
        },
{
    if starts_with(response, "222") {
        Ok(())
    } else {
        let m = message_id(id);
        Err(cat4("Failed to fetch body for ", m.as_str(), ": ", response))
    }
}

/// Whether a line ends a body: a dot and nothing else.
pub open spec fn is_end(line: Seq<u8>) -> bool {
    line == seq![0x2eu8, 0x0d, 0x0a]
}

/// A line of a body without the dot that was put before one.
pub open spec fn unstuffed(line: Seq<u8>) -> Seq<u8> {
    if line.len() >= 2 && line[0] == 0x2e && line[1] == 0x2e {
        line.skip(1)
    } else {
        line
    }
}

/// What lines of an answer hold: everything before the line that ends the
/// body, or all of them where none does.
pub open spec fn body_spec(lines: Seq<Seq<u8>>) -> Seq<u8>
    decreases lines.len(),
{
    if lines.len() == 0 || is_end(lines[0]) {
        Seq::empty()
    } else {
        unstuffed(lines[0]) + body_spec(lines.skip(1))
    }
}

/// What a body holds once a line came in: the line that ends it adds
/// nothing.
pub open spec fn taken(body: Seq<u8>, line: Seq<u8>) -> Seq<u8> {
    if is_end(line) {
        body
    } else {
        body + unstuffed(line)
    }
}

/// What a body holds once lines came in one after the other, up to the one
/// that ended it.
pub open spec fn fed(body: Seq<u8>, lines: Seq<Seq<u8>>) -> Seq<u8>
    decreases lines.len(),
{
    if lines.len() == 0 || is_end(lines[0]) {
        body
    } else {
        fed(taken(body, lines[0]), lines.skip(1))
    }
}

/// A body as its lines come in.
#[derive(Debug)]
pub struct Body {
    bytes: Vec<u8>,
}

impl View for Body {
    type V = Seq<u8>;

    closed spec fn view(&self) -> Seq<u8> {
        self.bytes@
    }
}

impl Body {
    pub fn new() -> (b: Self)
        ensures
            b@ == Seq::<u8>::empty(),
    {
        Body { bytes: Vec::new() }
    }

    /// Take in a line of the answer. Whether it ended the body.
    pub fn line(&mut self, line: &[u8]) -> (ended: bool)
        ensures
            ended == is_end(line@),
            final(self)@ == taken(old(self)@, line@),
    {
        let n: usize = line.len();
        if n == 3 && line[0] == 0x2e && line[1] == 0x0d && line[2] == 0x0a {
            proof {
                assert(line@ =~= seq![0x2eu8, 0x0d, 0x0a]);
            }
            return true;
        }
        let from: usize = if n >= 2 && line[0] == 0x2e && line[1] == 0x2e {
            1
        } else {
            0
        };
        let ghost before = self.bytes@;
        proof {
            assert(line@.skip(0) =~= line@);
            assert(before + line@.subrange(from as int, from as int) =~= before);
        }
        let mut i: usize = from;
        while i < n
            invariant
                from <= i <= n,
                n == line@.len(),
                self.bytes@ == before + line@.subrange(from as int, i as int),
            decreases n - i,
        {
            self.bytes.push(line[i]);
            i += 1;
            proof {
                assert(self.bytes@ =~= before + line@.subrange(from as int, i as int));
            }
        }
        proof {
            assert(line@.subrange(from as int, n as int) =~= unstuffed(line@));
        }
        false
    }

    /// The bytes of the body.
    pub fn into_bytes(self) -> (r: Vec<u8>)
        ensures
            r@ == self@,
    {
        self.bytes
    }
}

/// A body that takes in lines, up to the one that ends it, adds to what it
/// held what the lines hold.
pub proof fn a_body_holds_what_its_lines_hold(body: Seq<u8>, lines: Seq<Seq<u8>>)
    ensures
        fed(body, lines) == body + body_spec(lines),
    decreases lines.len(),
{
    if lines.len() == 0 || is_end(lines[0]) {
        assert(body + Seq::<u8>::empty() =~= body);
    } else {
        a_body_holds_what_its_lines_hold(taken(body, lines[0]), lines.skip(1));
        assert(body + unstuffed(lines[0]) + body_spec(lines.skip(1)) =~= body + (unstuffed(
            lines[0],
        ) + body_spec(lines.skip(1))));
    }
}

/// How a line of a body is sent: with a dot before one that starts with a
/// dot.
pub open spec fn stuffed(line: Seq<u8>) -> Seq<u8> {
    if line.len() > 0 && line[0] == 0x2e {
        seq![0x2eu8] + line
    } else {
        line
    }
}

/// What a news server sends of a body.
pub open spec fn sent(lines: Seq<Seq<u8>>) -> Seq<Seq<u8>>
    decreases lines.len(),
{
    if lines.len() == 0 {
        seq![seq![0x2eu8, 0x0d, 0x0a]]
    } else {
        seq![stuffed(lines[0])] + sent(lines.skip(1))
    }
}

/// Lines one after the other.
pub open spec fn flat(lines: Seq<Seq<u8>>) -> Seq<u8>
    decreases lines.len(),
{
    if lines.len() == 0 {
        Seq::empty()
    } else {
        lines[0] + flat(lines.skip(1))
    }
}

/// A body comes through whole, whatever its lines start with, and whatever
/// the server says after it: a new body that takes in what is sent of some
/// lines holds these lines.
pub proof fn a_body_comes_through(lines: Seq<Seq<u8>>, after: Seq<Seq<u8>>)
    ensures
        body_spec(sent(lines) + after) == flat(lines),
        fed(Seq::empty(), sent(lines) + after) == flat(lines),
    decreases lines.len(),
{
    let s = sent(lines) + after;
    a_body_holds_what_its_lines_hold(Seq::empty(), s);
    assert(Seq::<u8>::empty() + body_spec(s) =~= body_spec(s));
    if lines.len() == 0 {
        assert(s[0] == seq![0x2eu8, 0x0d, 0x0a]);
    } else {
        let first = stuffed(lines[0]);
        assert(s[0] == first);
        assert(s.skip(1) =~= sent(lines.skip(1)) + after);
        assert(unstuffed(first) =~= lines[0]) by {
            if lines[0].len() > 0 && lines[0][0] == 0x2e {
                assert(first[1] == 0x2e);
                assert(first.skip(1) =~= lines[0]);
            }
        }
        assert(!is_end(first)) by {
            if is_end(first) {
                if lines[0].len() > 0 && lines[0][0] == 0x2e {
                    assert(first[1] == 0x2e);
                } else {
                    assert(first[0] == 0x2e);
                }
            }
        }
        a_body_comes_through(lines.skip(1), after);
    }
}

/// A line is a line of the body as it came, but for a dot that was doubled
/// and for the dot that ends the body.
pub proof fn only_a_doubled_dot_is_taken_off(body: Seq<u8>, line: Seq<u8>)
    ensures
        line == seq![0x2eu8, 0x0d, 0x0a] ==> taken(body, line) == body,
        line.len() > 1 && line[0] == 0x2e && line[1] == 0x2e ==> taken(body, line) == body
            + line.skip(1),
        line.len() > 0 && line[0] != 0x2e ==> taken(body, line) == body + line,
        line.len() > 1 && line[1] != 0x2e && line != seq![0x2eu8, 0x0d, 0x0a] ==> taken(body, line)
            == body + line,
        line.len() <= 1 ==> taken(body, line) == body + line,
{
    if line.len() > 1 && line[1] == 0x2e {
        assert(seq![0x2eu8, 0x0d, 0x0a][1] == 0x0d);
    }
}

} // verus!
