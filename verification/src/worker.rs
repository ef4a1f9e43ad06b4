//! The parts of the node that act over time: the timer, and the state
//! machines for bootstrap, refresh and lookup. None of them does any
//! input or output: each says what to send and is told what came back.

use vstd::prelude::*;
use crate::addr::SocketAddr;
use crate::message::codec::{encodable, encoded};
use crate::message::{Message, MessageView};
use crate::transaction::TransactionID;

pub mod bootstrap;
pub mod handler;
pub mod lookup;
pub mod refresh;
pub mod timer;

pub use crate::addr::IpVersion;

verus! {

/// What is known of a running node, for those who watch it.
#[derive(Copy, Clone, Debug)]
pub struct State {
    pub is_running: bool,
    pub bootstrapped: bool,
    pub good_node_count: usize,
    pub questionable_node_count: usize,
    pub bucket_count: usize,
}

/// What has timed out in the bootstrap.
#[derive(Copy, Clone, Debug)]
pub enum BootstrapTimeout {
    /// The answer to the query with this transaction id is overdue.
    Transaction(TransactionID),
    /// It is time to look at the bootstrap again.
    IdleWakeUp,
}

/// What the timer was asked to remind the node of.
#[derive(Copy, Clone, Debug)]
pub enum ScheduledTaskCheck {
    /// Go on with the refresh of the table.
    TableRefresh,
    /// Something timed out in the bootstrap.
    BootstrapTimeout(BootstrapTimeout),
    /// The user with this number has waited long enough for the bootstrap.
    UserBootstrappedTimeout(u64),
    /// The answer to the query of a lookup with this transaction id is
    /// overdue.
    LookupTimeout(TransactionID),
    /// The endgame of the lookup that this transaction id belongs to is
    /// over.
    LookupEndGame(TransactionID),
}

/// Whether an action goes on.
#[derive(Copy, Clone, Debug, PartialEq, Eq, Structural)]
pub enum ActionStatus {
    /// The action is in progress.
    Ongoing,
    /// The action is done.
    Completed,
}

/// Why the node did not take in a datagram or could not send one.
#[derive(Copy, Clone, Debug, PartialEq, Eq, Structural)]
pub enum WorkerError {
    /// The datagram is no well-formed message.
    InvalidBencodeDe,
    /// The message cannot be put on the wire.
    InvalidBencodeSer,
    /// The response answers no query that is waited for.
    UnsolicitedResponse,
    /// The transaction id has not the eight bytes of those handed out here.
    InvalidTransactionId,
    /// The socket failed.
    SocketError,
}

/// A message to send: to which address, and what.
#[derive(Clone, Debug, PartialEq, Eq)]
pub struct Outgoing {
    pub addr: SocketAddr,
    pub message: Message,
}

impl View for Outgoing {
    type V = (SocketAddr, MessageView);

    open spec fn view(&self) -> (SocketAddr, MessageView) {
        (self.addr, self.message@)
    }
}

/// The bytes of a message on the wire. Fails if the message cannot be put
/// on the wire: a response with a node in the list of the other address
/// family.
pub fn encode_message(message: &Message) -> (r: Result<Vec<u8>, WorkerError>)
    ensures
        match r {
            Ok(bytes) => encodable(message@) && bytes@ == encoded(message@),
            Err(e) => !encodable(message@) && e == WorkerError::InvalidBencodeSer,
        },
{
    if message.is_encodable() {
        Ok(message.encode())
    } else {
        Err(WorkerError::InvalidBencodeSer)
    }
}

/// Number of colons in a string.
pub open spec fn colon_count(s: Seq<char>) -> nat
    decreases s.len(),
{
    if s.len() == 0 {
        0
    } else if s.last() == ':' {
        colon_count(s.drop_last()) + 1
    } else {
        colon_count(s.drop_last())
    }
}

/// Index of the first colon of a string from `from` on, or its length if
/// there is none.
pub open spec fn first_colon(s: Seq<char>, from: int) -> int
    decreases s.len() - from,
{
    if from < 0 || from >= s.len() {
        s.len() as int
    } else if s[from] == ':' {
        from
    } else {
        first_colon(s, from + 1)
    }
}

/// Whether a character is a decimal digit.
pub open spec fn is_digit(c: char) -> bool {
    '0' <= c <= '9'
}

/// Whether a string is made of decimal digits.
pub open spec fn all_digits(s: Seq<char>) -> bool {
    forall|i: int| 0 <= i < s.len() ==> is_digit(#[trigger] s[i])
}

/// The number that a string of decimal digits spells.
pub open spec fn decimal(s: Seq<char>) -> nat
    decreases s.len(),
{
    if s.len() == 0 {
        0
    } else {
        (decimal(s.drop_last()) * 10 + (s.last() as int - '0' as int)) as nat
    }
}

/// The port that a string spells: the number of its decimal digits, which
/// a plus sign may precede, if there is a digit and the number is at most
/// 65535.
pub open spec fn parsed_port(s: Seq<char>) -> Option<u16> {
    let digits = if s.len() > 0 && s[0] == '+' {
        s.skip(1)
    } else {
        s
    };
    if digits.len() > 0 && all_digits(digits) && decimal(digits) <= u16::MAX {
        Some(decimal(digits) as u16)
    } else {
        None
    }
}

/// The host and the port that a string of the form `host:port` spells.
/// None if the string has no colon or more than one, or if what follows
/// the colon spells no port.
pub open spec fn address_port(s: Seq<char>) -> Option<(Seq<char>, u16)> {
    if colon_count(s) != 1 {
        None
    } else {
        match parsed_port(s.skip(first_colon(s, 0) + 1)) {
            Some(port) => Some((s.take(first_colon(s, 0)), port)),
            None => None,
        }
    }
}

/// The digits of the start of a string of digits spell no more than the
/// whole string.
pub proof fn lemma_decimal_monotone(s: Seq<char>, k: int)
    requires
        all_digits(s),
        0 <= k <= s.len(),
    ensures
        decimal(s.take(k)) <= decimal(s),
    decreases s.len() - k,
{
    if k < s.len() {
        lemma_decimal_monotone(s, k + 1);
        let next = s.take(k + 1);
        assert(next.drop_last() =~= s.take(k));
        assert(is_digit(s[k]));
        assert(next.last() == s[k]);
    } else {
        assert(s.take(k) =~= s);
    }
}

/// The host and the port of a string of the form `host:port`.
pub fn split_into_address_port(socket: &str) -> (r: Result<(String, u16), ()>)
    ensures
        match r {
            Ok((host, port)) => address_port(socket@) == Some((host@, port)),
            Err(_) => address_port(socket@) is None,
        },
{
    let len = socket.unicode_len();
    let ghost s = socket@;
    let mut colons: usize = 0;
    let mut first: usize = len;
    let mut i: usize = 0;
    assert(s.take(0) =~= Seq::<char>::empty());
    while i < len
        invariant
            i <= len,
            len == s.len(),
            s == socket@,
            colons == colon_count(s.take(i as int)),
            colons <= i,
            colons == 0 ==> first == len && first_colon(s, 0) == first_colon(s, i as int),
            colons > 0 ==> first < i && first == first_colon(s, 0),
        decreases len - i,
    {
        proof {
            let next = s.take(i as int + 1);
            assert(next.drop_last() =~= s.take(i as int));
            assert(next.last() == s[i as int]);
        }
        if socket.get_char(i) == ':' {
            if colons == 0 {
                first = i;
            }
            colons = colons + 1;
        }
        i += 1;
    }
    assert(s.take(len as int) =~= s);
    if colons != 1 {
        return Err(());
    }
    let ghost rest = s.skip(first as int + 1);
    let mut at: usize = first + 1;
    if at < len && socket.get_char(at) == '+' {
        assert(rest[0] == s[at as int]);
        at = at + 1;
    } else {
        proof {
            if at < len {
                assert(rest[0] == s[at as int]);
            }
        }
    }
    let ghost digits = s.skip(at as int);
    proof {
        if at == first + 1 {
            assert(digits =~= rest);
        } else {
            assert(digits =~= rest.skip(1));
        }
    }
    if at >= len {
        return Err(());
    }
    let mut value: u32 = 0;
    let mut k: usize = at;
    assert(digits.take(0) =~= Seq::<char>::empty());
    assert(parsed_port(rest) == if digits.len() > 0 && all_digits(digits) && decimal(digits)
        <= u16::MAX {
        Some(decimal(digits) as u16)
    } else {
        None
    });
    while k < len
        invariant
            at <= k <= len,
            len == s.len(),
            s == socket@,
            digits == s.skip(at as int),
            colon_count(s) == 1,
            first == first_colon(s, 0),
            rest == s.skip(first as int + 1),
            parsed_port(rest) == if digits.len() > 0 && all_digits(digits) && decimal(digits)
                <= u16::MAX {
                Some(decimal(digits) as u16)
            } else {
                None
            },
            value == decimal(digits.take(k - at)),
            value <= u16::MAX,
            all_digits(digits.take(k - at)),
        decreases len - k,
    {
        let c = socket.get_char(k);
        proof {
            let next = digits.take(k - at + 1);
            assert(next.drop_last() =~= digits.take(k - at));
            assert(next.last() == digits[k - at]);
            assert(digits[k - at] == c);
        }
        if !(c >= '0' && c <= '9') {
            assert(!is_digit(digits[k - at]));
            return Err(());
        }
        let digit: u32 = c as u32 - '0' as u32;
        let next_value: u32 = value * 10 + digit;
        if next_value > 65535 {
            proof {
                if all_digits(digits) {
                    lemma_decimal_monotone(digits, k - at + 1);
                }
            }
            return Err(());
        }
        proof {
            let next = digits.take(k - at + 1);
            assert forall|j: int| 0 <= j < next.len() implies is_digit(#[trigger] next[j]) by {
                if j < k - at {
                    assert(digits.take(k - at)[j] == next[j]);
                }
            }
        }
        value = next_value;
        k += 1;
    }
    assert(digits.take(len - at) =~= digits);
    let host = socket.substring_char(0, first);
    assert(host@ =~= s.take(first as int));
    Ok((host.to_owned(), value as u16))
}

} // verus!
