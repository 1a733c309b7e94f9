use vstd::prelude::*;

use crate::errors::TwinkleError;
use crate::store::Store;
use crate::types::{sub_bytes, Bytes, Packet, UUID, UUID_LEN};

verus! {

/// What a request asks of the store, over byte strings.
pub enum Command {
    Ping,
    Get(Seq<u8>),
    Put(Seq<u8>, Seq<u8>),
    Unset(Seq<u8>),
}

/// What the store answered, over byte strings.
pub enum Outcome {
    /// Success, with the value found where the request was a `Get`.
    Success(Option<Seq<u8>>),
    /// A `Get` of a key that the store does not hold.
    NotFound,
}

/// The request and the token that a datagram carries, or `None` where it
/// breaks the framing rules.
///
/// A datagram is a command byte, then the token, then, for every command but a
/// ping, a two-byte big-endian key length, the key, and the value as the rest.
pub open spec fn decode_datagram(d: Seq<u8>) -> Option<(Command, Seq<u8>)> {
    let u = UUID_LEN as int;
    if d.len() < u + 1 {
        None
    } else if d.len() == u + 1 {
        if d[0] == 1 {
            Some((Command::Ping, d.subrange(1, u + 1)))
        } else {
            None
        }
    } else if d.len() == u + 2 {
        None
    } else {
        let token = d.subrange(1, u + 1);
        let keylen = d[u + 1] as int * 256 + d[u + 2] as int;
        if u + 3 + keylen > d.len() {
            None
        } else {
            let key = d.subrange(u + 3, u + 3 + keylen);
            let value = d.subrange(u + 3 + keylen, d.len() as int);
            if d[0] == 2 {
                Some((Command::Get(key), token))
            } else if d[0] == 3 {
                Some((Command::Put(key, value), token))
            } else if d[0] == 4 {
                Some((Command::Unset(key), token))
            } else {
                None
            }
        }
    }
}

/// The request and token of a packet: those of the bytes it received, where
/// it holds as many as it says it received.
pub open spec fn packet_request(body: Seq<u8>, amt: nat) -> Option<(Command, Seq<u8>)> {
    if amt <= body.len() {
        decode_datagram(body.subrange(0, amt as int))
    } else {
        None
    }
}

/// The contents of the store after it carried out `c`.
pub open spec fn applied(m: Map<Seq<u8>, Seq<u8>>, c: Command) -> Map<Seq<u8>, Seq<u8>> {
    match c {
        Command::Put(k, v) => m.insert(k, v),
        Command::Unset(k) => m.remove(k),
        _ => m,
    }
}

/// What the store answers to `c` when it holds `m`.
pub open spec fn outcome(m: Map<Seq<u8>, Seq<u8>>, c: Command) -> Outcome {
    match c {
        Command::Get(k) => if m.contains_key(k) {
            Outcome::Success(Some(m[k]))
        } else {
            Outcome::NotFound
        },
        _ => Outcome::Success(None),
    }
}

/// The reply datagram: a status byte, the token, and the value found, if any.
pub open spec fn reply_bytes(o: Outcome, token: Seq<u8>) -> Seq<u8> {
    match o {
        Outcome::Success(None) => seq![1u8] + token,
        Outcome::Success(Some(v)) => seq![1u8] + token + v,
        Outcome::NotFound => seq![2u8] + token,
    }
}

/// A request of the wire protocol.
#[derive(Debug, PartialEq)]
pub enum Request {
    Ping,
    Get(Bytes),
    Put(Bytes, Bytes),
    Unset(Bytes),
}

impl View for Request {
    type V = Command;

    open spec fn view(&self) -> Command {
        match self {
            Request::Ping => Command::Ping,
            Request::Get(k) => Command::Get(k@),
            Request::Put(k, v) => Command::Put(k@, v@),
            Request::Unset(k) => Command::Unset(k@),
        }
    }
}

/// The store's answer to a request.
#[derive(Debug, PartialEq)]
pub enum Response {
    Success(Option<Bytes>),
    NotFound,
}

impl View for Response {
    type V = Outcome;

    open spec fn view(&self) -> Outcome {
        match self {
            Response::Success(Some(v)) => Outcome::Success(Some(v@)),
            Response::Success(None) => Outcome::Success(None),
            Response::NotFound => Outcome::NotFound,
        }
    }
}

impl Request {
    /// Carries the request out on the store and says what came of it.
    pub fn execute(self, store: &mut Store) -> (r: Response)
        requires
            old(store).wf(),
        ensures
            final(store).wf(),
            final(store)@ == applied(old(store)@, self@),
            r@ == outcome(old(store)@, self@),
    {
        match self {
            Request::Ping => Response::Success(None),
            Request::Get(k) => match store.get(&k) {
                Some(v) => Response::Success(Some(v)),
                None => Response::NotFound,
            },
            Request::Put(k, v) => {
                store.set(k, v);
                Response::Success(None)
            },
            Request::Unset(k) => {
                store.unset(&k);
                Response::Success(None)
            },
        }
    }
}

impl Response {
    /// The reply datagram: `0x01` for success and `0x02` for a miss, then the
    /// token, then the value that a `Get` found.
    pub fn encode(self, uuid: &UUID) -> (r: Bytes)
        ensures
            r@ == reply_bytes(self@, uuid@),
    {
        let status: u8 = match self {
            Response::NotFound => 2,
            Response::Success(_) => 1,
        };
        let mut r: Bytes = vec![status];
        let mut token = sub_bytes(uuid.as_slice(), 0, uuid.len());
        r.append(&mut token);
        match self {
            Response::Success(Some(mut v)) => {
                r.append(&mut v);
            },
            _ => {},
        }
        r
    }
}

/// A decoded request, with the token to echo and the address to reply to.
#[derive(Debug)]
pub struct Instruction<A> {
    pub req: Request,
    pub uuid: UUID,
    pub dest: A,
}

impl<A> Packet<A> {
    /// Decodes the bytes that the packet received. A packet that breaks the
    /// framing rules, or that says it received more bytes than it holds, is a
    /// `ParseError`; trailing bytes after the key of a `Get` or an `Unset` are
    /// ignored.
    pub fn parse(self) -> (r: Result<Instruction<A>, TwinkleError>)
        ensures
            match packet_request(self.body@, self.amt as nat) {
                Some((c, token)) => {
                    &&& r is Ok
                    &&& r->Ok_0.req@ == c
                    &&& r->Ok_0.uuid@ == token
                    &&& r->Ok_0.dest == self.dest
                },
                None => r is Err && r->Err_0 == TwinkleError::ParseError,
            },
            self.amt <= UUID_LEN ==> r is Err,
            self.amt == UUID_LEN + 1 && self.amt <= self.body@.len() && self.body@[0] == 1 ==> {
                &&& r is Ok
                &&& r->Ok_0.req@ == Command::Ping
                &&& r->Ok_0.uuid@ == self.body@.subrange(1, UUID_LEN + 1)
            },
            self.amt == UUID_LEN + 2 ==> r is Err,
            0 < self.amt <= self.body@.len() && !(1 <= self.body@[0] <= 4) ==> r is Err,
    {
        let Packet { dest, body, amt } = self;
        let ghost d = body@.subrange(0, amt as int);
        if amt > body.len() || amt < UUID_LEN + 1 {
            return Err(TwinkleError::ParseError);
        }
        assert(d[0] == body@[0]);
        if amt == UUID_LEN + 1 {
            if body[0] != 1 {
                return Err(TwinkleError::ParseError);
            }
            let uuid = sub_bytes(body.as_slice(), 1, UUID_LEN + 1);
            assert(d.subrange(1, UUID_LEN + 1) =~= uuid@);
            return Ok(Instruction { req: Request::Ping, uuid, dest });
        }
        if amt == UUID_LEN + 2 {
            return Err(TwinkleError::ParseError);
        }
        let cmd = body[0];
        let uuid = sub_bytes(body.as_slice(), 1, UUID_LEN + 1);
        let keylen = (body[UUID_LEN + 1] as usize) * 256 + (body[UUID_LEN + 2] as usize);
        assert(d[UUID_LEN + 1] == body@[UUID_LEN + 1] && d[UUID_LEN + 2] == body@[UUID_LEN + 2]);
        if keylen > amt - (UUID_LEN + 3) {
            return Err(TwinkleError::ParseError);
        }
        let key_end = UUID_LEN + 3 + keylen;
        let key = sub_bytes(body.as_slice(), UUID_LEN + 3, key_end);
        let val = sub_bytes(body.as_slice(), key_end, amt);
        assert(d.subrange(1, UUID_LEN + 1) =~= uuid@);
        assert(d.subrange(UUID_LEN + 3, key_end as int) =~= key@);
        assert(d.subrange(key_end as int, amt as int) =~= val@);
        let req = if cmd == 2 {
            Request::Get(key)
        } else if cmd == 3 {
            Request::Put(key, val)
        } else if cmd == 4 {
            Request::Unset(key)
        } else {
            return Err(TwinkleError::ParseError);
        };
        Ok(Instruction { req, uuid, dest })
    }
}

impl<A> Instruction<A> {
    /// Carries the request out on the store and builds the reply, to go back to
    /// `dest`.
    pub fn respond(self, store: &mut Store) -> (r: Result<(Bytes, A), TwinkleError>)
        requires
            old(store).wf(),
        ensures
            final(store).wf(),
            final(store)@ == applied(old(store)@, self.req@),
            r is Ok,
            r->Ok_0.0@ == reply_bytes(outcome(old(store)@, self.req@), self.uuid@),
            r->Ok_0.1 == self.dest,
            self.uuid@.len() == UUID_LEN ==> r->Ok_0.0@.subrange(1, UUID_LEN + 1) == self.uuid@,
    {
        let Instruction { req, uuid, dest } = self;
        let resp = req.execute(store);
        let bytes = resp.encode(&uuid);
        proof {
            if uuid@.len() == UUID_LEN {
                lemma_reply_token(outcome(old(store)@, self.req@), uuid@);
            }
        }
        Ok((bytes, dest))
    }
}

/// The whole of what the server does with one datagram: decode it, carry it
/// out on the store, and build the reply and where it goes. A datagram that
/// does not decode leaves the store as it was and yields the `ParseError`, for
/// the caller to report before it goes on with the next one.
pub fn dispatch<A>(packet: Packet<A>, store: &mut Store) -> (r: Result<(Bytes, A), TwinkleError>)
    requires
        old(store).wf(),
    ensures
        final(store).wf(),
        match packet_request(packet.body@, packet.amt as nat) {
            Some((c, token)) => {
                &&& final(store)@ == applied(old(store)@, c)
                &&& r is Ok
                &&& r->Ok_0.0@ == reply_bytes(outcome(old(store)@, c), token)
                &&& r->Ok_0.1 == packet.dest
            },
            None => {
                &&& final(store)@ == old(store)@
                &&& r is Err
                &&& r->Err_0 == TwinkleError::ParseError
            },
        },
{
    match packet.parse() {
        Ok(instruction) => instruction.respond(store),
        Err(e) => Err(e),
    }
}

/// The reply to any request carries its token at bytes 1 to 16.
proof fn lemma_reply_token(o: Outcome, token: Seq<u8>)
    requires
        token.len() == UUID_LEN,
    ensures
        reply_bytes(o, token).subrange(1, UUID_LEN + 1) == token,
{
    match o {
        Outcome::Success(Some(v)) => {
            assert(reply_bytes(o, token).subrange(1, UUID_LEN + 1) =~= token);
        },
        _ => {
            assert(reply_bytes(o, token).subrange(1, UUID_LEN + 1) =~= token);
        },
    }
}

/// A `Get` of a key that the store lacks answers `0x02` and the token; once a
/// `Set` has put a value under the key, a `Get` of it answers `0x01`, the
/// token and that value.
pub proof fn lemma_get_miss_then_hit(m: Map<Seq<u8>, Seq<u8>>, k: Seq<u8>, v: Seq<u8>, token: Seq<u8>)
    ensures
        !m.contains_key(k) ==> reply_bytes(outcome(m, Command::Get(k)), token) == seq![2u8] + token,
        reply_bytes(outcome(applied(m, Command::Put(k, v)), Command::Get(k)), token) == seq![1u8] + token + v,
{
}

/// An `Unset` of a key that the store lacks succeeds, answering `0x01` and the
/// token, and leaves the store as it was.
pub proof fn lemma_unset_absent(m: Map<Seq<u8>, Seq<u8>>, k: Seq<u8>, token: Seq<u8>)
    requires
        !m.contains_key(k),
    ensures
        applied(m, Command::Unset(k)) == m,
        reply_bytes(outcome(m, Command::Unset(k)), token) == seq![1u8] + token,
{
    assert(m.remove(k) =~= m);
}

/// Whatever the request and whatever the store holds, the reply to a datagram
/// carries at bytes 1 to 16 the token that the datagram carried there.
pub proof fn lemma_token_echo(d: Seq<u8>, m: Map<Seq<u8>, Seq<u8>>)
    requires
        decode_datagram(d) is Some,
    ensures
        decode_datagram(d)->Some_0.1 == d.subrange(1, UUID_LEN + 1),
        reply_bytes(outcome(m, decode_datagram(d)->Some_0.0), decode_datagram(d)->Some_0.1).subrange(
            1,
            UUID_LEN + 1,
        ) == d.subrange(1, UUID_LEN + 1),
{
    lemma_reply_token(outcome(m, decode_datagram(d)->Some_0.0), decode_datagram(d)->Some_0.1);
}

} // verus!
