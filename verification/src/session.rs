//! The per-connection pieces that need no transport: the growable
//! buffer that accumulates characters until a complete value can be
//! decoded and is then compacted by the consumed prefix, and the
//! recognition of command names.

use vstd::prelude::*;
use vstd::slice::slice_subrange;
use vstd::slice::slice_to_vec;

use crate::errors::ProtocolError;
use crate::parser::parse_message;
use crate::parser::value_decode;
use crate::value::Value;

verus! {

/// A session's read buffer: characters arrive in chunks and leave one
/// decoded value at a time.
pub struct SessionBuffer {
    data: Vec<char>,
}

impl View for SessionBuffer {
    type V = Seq<char>;

    closed spec fn view(&self) -> Seq<char> {
        self.data@
    }
}

impl SessionBuffer {
    /// An empty buffer.
    pub fn new() -> (r: SessionBuffer)
        ensures
            r@ == Seq::<char>::empty(),
    {
        SessionBuffer { data: Vec::new() }
    }

    /// How many characters are waiting.
    pub fn len(&self) -> (r: usize)
        ensures
            r == self@.len(),
    {
        self.data.len()
    }

    /// Appends a chunk read from the transport.
    pub fn feed(&mut self, chunk: &[char])
        ensures
            final(self)@ == old(self)@ + chunk@,
    {
        let mut i: usize = 0;
        while i < chunk.len()
            invariant
                0 <= i <= chunk@.len(),
                self.data@ == old(self).data@ + chunk@.take(i as int),
            decreases chunk@.len() - i,
        {
            self.data.push(*vstd::slice::slice_index_get(chunk, i));
            proof {
                assert(self.data@ =~= old(self).data@ + chunk@.take(i + 1));
            }
            i += 1;
        }
        proof {
            assert(old(self).data@ + chunk@.take(chunk@.len() as int) =~= old(self).data@
                + chunk@);
        }
    }

    /// Tries to decode one value from the front of the buffer. A
    /// decoded value's characters are removed and trailing characters
    /// stay for the next call; an incomplete buffer is kept whole for
    /// more input; malformed input is fatal.
    pub fn try_read_value(&mut self) -> (r: Result<Option<Value>, ProtocolError>)
        ensures
            match (r, value_decode(old(self)@)) {
                (Ok(Some(v)), Ok((sv, n))) => v@ == sv && final(self)@ == old(self)@.skip(n)
                    && crate::value::spec_wf(v@),
                (Ok(None), Err(e)) => e == ProtocolError::Incomplete && final(self)@ == old(
                    self,
                )@,
                (Err(e1), Err(e2)) => e1 == e2 && e1 == ProtocolError::Malformed && final(self)@
                    == old(self)@,
                _ => false,
            },
    {
        proof {
            crate::laws::lemma_decode_wf(self.data@, self.data@.len() + 1);
        }
        let parsed = parse_message(self.data.as_slice());
        match parsed {
            Ok((value, consumed)) => {
                let len = self.data.len();
                let rest = slice_to_vec(slice_subrange(self.data.as_slice(), consumed, len));
                proof {
                    assert(rest@ =~= self.data@.skip(consumed as int));
                }
                self.data = rest;
                Ok(Some(value))
            },
            Err(ProtocolError::Incomplete) => Ok(None),
            Err(ProtocolError::Malformed) => Err(ProtocolError::Malformed),
        }
    }
}

/// The ASCII lower-case letters are the upper-case ones, offset.
pub open spec fn char_eq_ignore_ascii_case(a: char, b: char) -> bool {
    a == b || (97 <= a as u32 <= 122 && a as u32 - 32 == b as u32) || (65 <= a as u32 <= 90 && a
        as u32 + 32 == b as u32)
}

/// Two texts agree up to ASCII letter case.
pub open spec fn eq_ignore_ascii_case(s: Seq<char>, t: Seq<char>) -> bool {
    s.len() == t.len() && forall|i: int|
        0 <= i < s.len() ==> char_eq_ignore_ascii_case(#[trigger] s[i], #[trigger] t[i])
}

/// Whether two texts agree up to ASCII letter case.
pub fn str_eq_ignore_ascii_case(s: &str, t: &str) -> (r: bool)
    ensures
        r == eq_ignore_ascii_case(s@, t@),
{
    let ns = s.unicode_len();
    let nt = t.unicode_len();
    if ns != nt {
        return false;
    }
    let mut i: usize = 0;
    while i < ns
        invariant
            0 <= i <= ns,
            ns == s@.len() == t@.len(),
            forall|j: int|
                0 <= j < i ==> char_eq_ignore_ascii_case(#[trigger] s@[j], #[trigger] t@[j]),
        decreases ns - i,
    {
        let a = s.get_char(i);
        let b = t.get_char(i);
        let au = a as u32;
        let bu = b as u32;
        let same = a == b || (97 <= au && au <= 122 && au - 32 == bu) || (65 <= au && au <= 90 && au
            + 32 == bu);
        if !same {
            return false;
        }
        i += 1;
    }
    true
}

/// The commands a session understands.
#[derive(Debug, PartialEq, Eq, Structural)]
pub enum UserCommand {
    Ping,
    Echo,
    Get,
    Mget,
    SetCmd,
    Del,
    Expire,
    Quit,
    Invalid,
}

/// The command a name denotes, letter case ignored.
pub open spec fn command_of(name: Seq<char>) -> UserCommand {
    if eq_ignore_ascii_case(name, "PING"@) {
        UserCommand::Ping
    } else if eq_ignore_ascii_case(name, "ECHO"@) {
        UserCommand::Echo
    } else if eq_ignore_ascii_case(name, "GET"@) {
        UserCommand::Get
    } else if eq_ignore_ascii_case(name, "MGET"@) {
        UserCommand::Mget
    } else if eq_ignore_ascii_case(name, "SET"@) {
        UserCommand::SetCmd
    } else if eq_ignore_ascii_case(name, "DEL"@) {
        UserCommand::Del
    } else if eq_ignore_ascii_case(name, "EXPIRE"@) {
        UserCommand::Expire
    } else if eq_ignore_ascii_case(name, "QUIT"@) {
        UserCommand::Quit
    } else {
        UserCommand::Invalid
    }
}

impl UserCommand {
    /// Recognizes a command name, letter case ignored.
    pub fn from(command: String) -> (r: Self)
        ensures
            r == command_of(command@),
    {
        let s = command.as_str();
        if str_eq_ignore_ascii_case(s, "PING") {
            UserCommand::Ping
        } else if str_eq_ignore_ascii_case(s, "ECHO") {
            UserCommand::Echo
        } else if str_eq_ignore_ascii_case(s, "GET") {
            UserCommand::Get
        } else if str_eq_ignore_ascii_case(s, "MGET") {
            UserCommand::Mget
        } else if str_eq_ignore_ascii_case(s, "SET") {
            UserCommand::SetCmd
        } else if str_eq_ignore_ascii_case(s, "DEL") {
            UserCommand::Del
        } else if str_eq_ignore_ascii_case(s, "EXPIRE") {
            UserCommand::Expire
        } else if str_eq_ignore_ascii_case(s, "QUIT") {
            UserCommand::Quit
        } else {
            UserCommand::Invalid
        }
    }
}

} // verus!
