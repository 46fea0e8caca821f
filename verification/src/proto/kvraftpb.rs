//! Messages of the key/value service.

use vstd::prelude::*;
use vstd::std_specs::convert::FromSpecImpl;

verus! {

/// The code of a put in a [`PutAppendRequest`].
pub const OP_PUT: i32 = 1;

/// The code of an append in a [`PutAppendRequest`].
pub const OP_APPEND: i32 = 2;

/// What a command does.
#[derive(PartialEq, Eq, Clone, Copy, Debug, Structural)]
pub enum OpType {
    /// Read the value of a key.
    Get,
    /// Bind a key to a value.
    Put,
    /// Extend the value of a key.
    Append,
}

/// What an [`Op`] is to the state machine.
pub struct OpView {
    pub op_type: OpType,
    pub key: Seq<char>,
    pub value: Seq<char>,
    pub name: Seq<char>,
    pub reqno: u64,
}

/// A command of the key/value service, as it goes into the log.
#[derive(PartialEq, Eq, Debug)]
pub struct Op {
    pub op_type: OpType,
    pub key: String,
    /// The value to put or append; empty for a get.
    pub value: String,
    /// The client's name.
    pub name: String,
    /// The client's number of the request.
    pub reqno: u64,
}

impl View for Op {
    type V = OpView;

    open spec fn view(&self) -> OpView {
        OpView {
            op_type: self.op_type,
            key: self.key@,
            value: self.value@,
            name: self.name@,
            reqno: self.reqno,
        }
    }
}

/// What an [`OpReply`] is to the state machine.
pub struct OpReplyView {
    pub wrong_leader: bool,
    pub err: Seq<char>,
    pub value: Seq<char>,
}

/// The outcome of a command, for the client that waits for it.
#[derive(PartialEq, Eq, Debug)]
pub struct OpReply {
    /// The client should turn to another peer.
    pub wrong_leader: bool,
    /// Why, in words; empty on success.
    pub err: String,
    /// The value read by a get.
    pub value: String,
}

impl View for OpReply {
    type V = OpReplyView;

    open spec fn view(&self) -> OpReplyView {
        OpReplyView { wrong_leader: self.wrong_leader, err: self.err@, value: self.value@ }
    }
}

/// A client asks for the value of a key.
#[derive(PartialEq, Eq, Debug)]
pub struct GetRequest {
    pub key: String,
    pub name: String,
    pub reqno: u64,
}

/// A client asks to put or append a value.
#[derive(PartialEq, Eq, Debug)]
pub struct PutAppendRequest {
    pub key: String,
    pub value: String,
    /// [`OP_PUT`] or [`OP_APPEND`].
    pub op: i32,
    pub name: String,
    pub reqno: u64,
}

/// The answer to a [`GetRequest`].
#[derive(PartialEq, Eq, Debug)]
pub struct GetReply {
    pub wrong_leader: bool,
    pub err: String,
    pub value: String,
}

/// The answer to a [`PutAppendRequest`].
#[derive(PartialEq, Eq, Debug)]
pub struct PutAppendReply {
    pub wrong_leader: bool,
    pub err: String,
}

impl Op {
    /// The command of a get request.
    pub fn from_get(value: GetRequest) -> (op: Op)
        ensures
            op@ == (OpView {
                op_type: OpType::Get,
                key: value.key@,
                value: Seq::<char>::empty(),
                name: value.name@,
                reqno: value.reqno,
            }),
    {
        Op {
            op_type: OpType::Get,
            key: value.key,
            value: String::new(),
            name: value.name,
            reqno: value.reqno,
        }
    }

    /// The command of a put or append request; none when the request's
    /// code is neither [`OP_PUT`] nor [`OP_APPEND`].
    pub fn from_put_append(value: PutAppendRequest) -> (op: Option<Op>)
        ensures
            op is Some <==> (value.op == OP_PUT || value.op == OP_APPEND),
            op matches Some(o) ==> o@ == (OpView {
                op_type: if value.op == OP_PUT {
                    OpType::Put
                } else {
                    OpType::Append
                },
                key: value.key@,
                value: value.value@,
                name: value.name@,
                reqno: value.reqno,
            }),
    {
        let op_type = if value.op == OP_PUT {
            OpType::Put
        } else if value.op == OP_APPEND {
            OpType::Append
        } else {
            return None;
        };
        Some(
            Op {
                op_type,
                key: value.key,
                value: value.value,
                name: value.name,
                reqno: value.reqno,
            },
        )
    }
}

impl From<OpReply> for GetReply {
    /// The answer to a get whose command had the outcome `reply`.
    fn from(reply: OpReply) -> (r: GetReply) {
        GetReply { wrong_leader: reply.wrong_leader, err: reply.err, value: reply.value }
    }
}

impl FromSpecImpl<OpReply> for GetReply {
    open spec fn obeys_from_spec() -> bool {
        true
    }

    open spec fn from_spec(reply: OpReply) -> GetReply {
        GetReply { wrong_leader: reply.wrong_leader, err: reply.err, value: reply.value }
    }
}

impl From<OpReply> for PutAppendReply {
    /// The answer to a put or append whose command had the outcome
    /// `reply`.
    fn from(reply: OpReply) -> (r: PutAppendReply) {
        PutAppendReply { wrong_leader: reply.wrong_leader, err: reply.err }
    }
}

impl FromSpecImpl<OpReply> for PutAppendReply {
    open spec fn obeys_from_spec() -> bool {
        true
    }

    open spec fn from_spec(reply: OpReply) -> PutAppendReply {
        PutAppendReply { wrong_leader: reply.wrong_leader, err: reply.err }
    }
}

} // verus!
