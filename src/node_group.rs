//! Node groups: a fixed base, a node identifier and a message identifier
//! packed into one 29-bit extended CAN identifier, the message identifier
//! being the position of the value's type in the group's list.
use crate::error::Error as CodecError;
use crate::frame::{from_frame, to_frame, Error as FrameError, Frame};
use crate::value::{decoding, encoding, Model, Shape, Value};
use vstd::bits::lemma_u32_pow2_no_overflow;
use vstd::arithmetic::power2::pow2;
use vstd::bits::lemma_u32_shl_is_mul;
use vstd::prelude::*;

verus! {

/// What can go wrong between a node group and a frame.
#[derive(Debug, PartialEq)]
pub enum Error {
    /// The node identifier does not fit its field: the identifier, the field's width.
    EncNodeIdOutOfRange(u32, usize),
    /// The composed identifier does not fit 29 bits.
    EncCanIdOutOfRange(u32),
    /// The frame's message identifier is not the one asked for: found, expected.
    DecMsgIdMismatch(u32, u32),
    /// The frame's identifier does not carry this group's base.
    DecNodeGroupMismatch,
    /// The frame could not be built or read.
    FrameErr(FrameError),
    /// The codec failed.
    SerdeErr(CodecError),
}

/// The low `m` bits.
pub open spec fn msg_mask(m: u32) -> u32 {
    !(0xffff_ffffu32 << m)
}

/// The `n` bits above the low `m` bits.
pub open spec fn node_mask(n: u32, m: u32) -> u32 {
    (!(0xffff_ffffu32 << n)) << m
}

/// The bits above the node and message fields.
pub open spec fn base_mask(n: u32, m: u32) -> u32 {
    !(msg_mask(m) | node_mask(n, m))
}

/// The identifier of message `msg` from node `node`.
pub open spec fn compose(base: u32, m: u32, node: u32, msg: u32) -> u32 {
    base | (node << m) | msg
}

/// The node and message identifiers in `raw`, if it carries `base`.
pub open spec fn extract(raw: u32, base: u32, n: u32, m: u32) -> Option<(u32, u32)> {
    if raw & base_mask(n, m) != base {
        None
    } else {
        Some(((raw & node_mask(n, m)) >> m, raw & msg_mask(m)))
    }
}

/// The position of `tag` in `s`, or -1 when it is not there.
pub open spec fn msg_index(s: Seq<u64>, tag: u64) -> int
    decreases s.len(),
{
    if s.len() == 0 {
        -1
    } else if s[0] == tag {
        0
    } else {
        let r = msg_index(s.skip(1), tag);
        if r >= 0 {
            r + 1
        } else {
            -1
        }
    }
}

pub proof fn lemma_msg_index(s: Seq<u64>, tag: u64)
    ensures
        msg_index(s, tag) < s.len(),
        msg_index(s, tag) == -1 <==> !s.contains(tag),
        msg_index(s, tag) >= 0 ==> s[msg_index(s, tag)] == tag,
        forall|j: int| 0 <= j < msg_index(s, tag) ==> s[j] != tag,
    decreases s.len(),
{
    if s.len() > 0 && s[0] != tag {
        let t = s.skip(1);
        lemma_msg_index(t, tag);
        if t.contains(tag) {
            let j = choose|j: int| 0 <= j < t.len() && t[j] == tag;
            assert(s[j + 1] == tag);
        }
        if s.contains(tag) {
            let j = choose|j: int| 0 <= j < s.len() && s[j] == tag;
            assert(j > 0 && t[j - 1] == tag);
        }
        assert forall|j: int| 0 <= j < msg_index(s, tag) implies s[j] != tag by {
            if j > 0 {
                assert(s[j] == t[j - 1]);
            }
        }
    } else if s.len() > 0 {
        assert(s.contains(tag));
    }
}

/// Relies on embedded_can::ExtendedId::new: it accepts exactly the values up to 0x1FFF_FFFF.
#[verifier::external_body]
fn fits_extended_id(raw: u32) -> (r: bool)
    ensures
        r == (raw <= 0x1fff_ffff),
{
    embedded_can::ExtendedId::new(raw).is_some()
}

/// A node group: a base, the widths of the node and message fields, and the
/// list of message types, each named by a token, in the order that gives
/// their identifiers.
pub struct NodeGroup {
    pub name: &'static str,
    base: u32,
    node_id_len: u32,
    msg_id_len: u32,
    msgs: Vec<u64>,
}

impl NodeGroup {
    pub closed spec fn base(&self) -> u32 {
        self.base
    }

    pub closed spec fn node_id_len(&self) -> u32 {
        self.node_id_len
    }

    pub closed spec fn msg_id_len(&self) -> u32 {
        self.msg_id_len
    }

    /// The message tokens, in list order.
    pub closed spec fn msg_list(&self) -> Seq<u64> {
        self.msgs@
    }

    pub open spec fn wf(&self) -> bool {
        &&& self.node_id_len() + self.msg_id_len() <= 29
        &&& self.msg_list().len() <= pow2(self.msg_id_len() as nat)
        &&& self.msg_list().no_duplicates()
    }

    /// The identifier of a message of type `tag` sent by node `node`.
    pub open spec fn can_id(&self, node: u32, tag: u64) -> u32 {
        compose(self.base(), self.msg_id_len(), node, msg_index(self.msg_list(), tag) as u32)
    }

    /// What encoding gives: the frame's identifier and payload, or the error.
    pub open spec fn encode_outcome(&self, node: u32, tag: u64, v: Model) -> Result<
        (u32, Seq<u8>),
        Error,
    > {
        if (node as nat) >= pow2(self.node_id_len() as nat) {
            Err(Error::EncNodeIdOutOfRange(node, self.node_id_len() as usize))
        } else if self.can_id(node, tag) > 0x1fff_ffff {
            Err(Error::EncCanIdOutOfRange(self.can_id(node, tag)))
        } else {
            match encoding(v) {
                Ok(b) => Ok((self.can_id(node, tag), b)),
                Err(e) => Err(Error::SerdeErr(e)),
            }
        }
    }

    /// What decoding a frame with identifier `id` and payload `data` as
    /// type `tag` of shape `sh` gives: the sender's node and the value, or the error.
    pub open spec fn decode_outcome(
        &self,
        remote: bool,
        id: u32,
        data: Seq<u8>,
        tag: u64,
        sh: Shape,
    ) -> Result<(u32, Model), Error> {
        if remote {
            Err(Error::FrameErr(FrameError::RemoteFrame))
        } else {
            match extract(id, self.base(), self.node_id_len(), self.msg_id_len()) {
                None => Err(Error::DecNodeGroupMismatch),
                Some((node, msg)) => if msg != msg_index(self.msg_list(), tag) as u32 {
                    Err(Error::DecMsgIdMismatch(msg, msg_index(self.msg_list(), tag) as u32))
                } else {
                    match decoding(sh, data) {
                        Ok(m) => Ok((node, m)),
                        Err(e) => Err(Error::SerdeErr(e)),
                    }
                },
            }
        }
    }

    /// The group's base leaves the node and message fields clear and fits 29 bits.
    pub open spec fn base_ok(&self) -> bool {
        &&& self.base() & (msg_mask(self.msg_id_len()) | node_mask(
            self.node_id_len(),
            self.msg_id_len(),
        )) == 0
        &&& self.base() & 0xe000_0000 == 0
    }

    /// A group; its parameters must meet the layout's constraints.
    pub fn new(
        name: &'static str,
        base: u32,
        node_id_len: usize,
        msg_id_len: usize,
        msgs: Vec<u64>,
    ) -> (r: Self)
        requires
            node_id_len + msg_id_len <= 29,
            base & (msg_mask(msg_id_len as u32) | node_mask(node_id_len as u32, msg_id_len as u32))
                == 0,
            msgs@.len() <= pow2(msg_id_len as nat),
            base & 0xe000_0000 == 0,
            msgs@.no_duplicates(),
        ensures
            r.wf(),
            r.base_ok(),
            r.base() == base,
            r.node_id_len() == node_id_len,
            r.msg_id_len() == msg_id_len,
            r.msg_list() == msgs@,
            r.msg_list().no_duplicates(),
    {
        NodeGroup {
            name,
            base,
            node_id_len: node_id_len as u32,
            msg_id_len: msg_id_len as u32,
            msgs,
        }
    }

    /// A group with the given layout whose base has not been checked: a base
    /// that overlaps the node and message fields, or passes 29 bits, makes
    /// frames that do not decode, or identifiers that `encode_ext` refuses.
    pub fn with_layout(
        name: &'static str,
        base: u32,
        node_id_len: usize,
        msg_id_len: usize,
        msgs: Vec<u64>,
    ) -> (r: Self)
        requires
            node_id_len + msg_id_len <= 29,
            msgs@.len() <= pow2(msg_id_len as nat),
            msgs@.no_duplicates(),
        ensures
            r.wf(),
            r.base() == base,
            r.node_id_len() == node_id_len,
            r.msg_id_len() == msg_id_len,
            r.msg_list() == msgs@,
    {
        NodeGroup {
            name,
            base,
            node_id_len: node_id_len as u32,
            msg_id_len: msg_id_len as u32,
            msgs,
        }
    }

    /// The message identifier of `tag`: its position in the list, or -1.
    pub fn msg_id(&self, tag: u64) -> (r: i32)
        requires
            self.wf(),
        ensures
            r == msg_index(self.msg_list(), tag),
    {
        proof {
            lemma_msg_index(self.msgs@, tag);
            vstd::arithmetic::power2::lemma2_to64();
            if self.msg_id_len < 29 {
                vstd::arithmetic::power2::lemma_pow2_strictly_increases(self.msg_id_len as nat, 29);
            }
            vstd::arithmetic::power2::lemma2_to64_rest();
        }
        let mut i: usize = 0;
        while i < self.msgs.len()
            invariant
                i <= self.msgs@.len(),
                self.msgs@.len() <= 0x2000_0000,
                forall|j: int| 0 <= j < i ==> self.msgs@[j] != tag,
                msg_index(self.msgs@, tag) < self.msgs@.len(),
                msg_index(self.msgs@, tag) == -1 <==> !self.msgs@.contains(tag),
                msg_index(self.msgs@, tag) >= 0 ==> self.msgs@[msg_index(self.msgs@, tag)] == tag,
                forall|j: int| 0 <= j < msg_index(self.msgs@, tag) ==> self.msgs@[j] != tag,
            decreases self.msgs@.len() - i,
        {
            if self.msgs[i] == tag {
                return i as i32;
            }
            i = i + 1;
        }
        proof {
            assert(!self.msgs@.contains(tag));
        }
        -1
    }

    /// Packs `v`, a message of type `tag`, into an extended frame sent by node `node_id`.
    pub fn encode_ext(&self, node_id: u32, tag: u64, v: &Value) -> (r: Result<Frame, Error>)
        requires
            self.wf(),
            self.msg_list().contains(tag),
        ensures
            match self.encode_outcome(node_id, tag, v@) {
                Ok((id, b)) => r matches Ok(f) && f.id == id && f.extended && !f.remote && f.data@
                    == b,
                Err(e) => r == Err::<Frame, Error>(e),
            },
    {
        let msg = self.msg_id(tag);
        proof {
            lemma_msg_index(self.msgs@, tag);
            lemma_u32_pow2_no_overflow(self.node_id_len as nat);
            lemma_u32_shl_is_mul(1, self.node_id_len);
        }
        if node_id >= (1u32 << self.node_id_len) {
            return Err(Error::EncNodeIdOutOfRange(node_id, self.node_id_len as usize));
        }
        let can_id = self.base | (node_id << self.msg_id_len) | (msg as u32);
        if !fits_extended_id(can_id) {
            return Err(Error::EncCanIdOutOfRange(can_id));
        }
        match to_frame(can_id, true, v) {
            Ok(f) => Ok(f),
            Err(FrameError::SerdeErr(e)) => Err(Error::SerdeErr(e)),
            Err(x) => Err(Error::FrameErr(x)),
        }
    }

    /// Unpacks a frame as a message of type `tag` and shape `sh`: the sender's
    /// node identifier and the value.
    pub fn decode(&self, f: &Frame, tag: u64, sh: &Shape) -> (r: Result<(u32, Value), Error>)
        requires
            self.wf(),
            self.msg_list().contains(tag),
        ensures
            match self.decode_outcome(f.remote, f.id, f.data@, tag, *sh) {
                Ok((node, m)) => r matches Ok((nd, v)) && nd == node && v@ == m,
                Err(e) => r == Err::<(u32, Value), Error>(e),
            },
    {
        if f.remote {
            return Err(Error::FrameErr(FrameError::RemoteFrame));
        }
        let m = self.msg_id_len;
        let n = self.node_id_len;
        let msg_mask: u32 = !(0xffff_ffffu32 << m);
        let node_mask: u32 = (!(0xffff_ffffu32 << n)) << m;
        let base_mask: u32 = !(msg_mask | node_mask);
        if f.id & base_mask != self.base {
            return Err(Error::DecNodeGroupMismatch);
        }
        let msg = f.id & msg_mask;
        let node = (f.id & node_mask) >> m;
        let expected = self.msg_id(tag) as u32;
        if msg != expected {
            return Err(Error::DecMsgIdMismatch(msg, expected));
        }
        match from_frame(sh, f) {
            Ok(v) => Ok((node, v)),
            Err(FrameError::SerdeErr(e)) => Err(Error::SerdeErr(e)),
            Err(x) => Err(Error::FrameErr(x)),
        }
    }
}

/// Each message type's identifier is its position in the group's list, it
/// fits the message field, and different positions give different identifiers.
pub proof fn lemma_msg_ids(g: NodeGroup, i: int, j: int)
    requires
        g.wf(),
        0 <= i < g.msg_list().len(),
        0 <= j < g.msg_list().len(),
    ensures
        msg_index(g.msg_list(), g.msg_list()[i]) == i,
        i < pow2(g.msg_id_len() as nat),
        i != j ==> msg_index(g.msg_list(), g.msg_list()[i]) != msg_index(
            g.msg_list(),
            g.msg_list()[j],
        ),
{
    let s = g.msg_list();
    lemma_msg_index(s, s[i]);
    lemma_msg_index(s, s[j]);
    assert(s.contains(s[i]));
    assert(s.contains(s[j]));
}

/// An identifier composed from a base that leaves the node and message fields
/// clear, and a node and message that fit their fields, splits back into the
/// node and the message; with a base below bit 29 it is an extended identifier.
pub proof fn lemma_extract_compose(base: u32, n: u32, m: u32, node: u32, msg: u32)
    requires
        n + m <= 29,
        base & (msg_mask(m) | node_mask(n, m)) == 0,
        (node as nat) < pow2(n as nat),
        (msg as nat) < pow2(m as nat),
    ensures
        extract(compose(base, m, node, msg), base, n, m) == Some((node, msg)),
        base & 0xe000_0000 == 0 ==> compose(base, m, node, msg) <= 0x1fff_ffff,
{
    lemma_u32_pow2_no_overflow(n as nat);
    lemma_u32_pow2_no_overflow(m as nat);
    lemma_u32_shl_is_mul(1, n);
    lemma_u32_shl_is_mul(1, m);
    assert({
        let c = base | (node << m) | msg;
        &&& c & !(!(0xffff_ffffu32 << m) | ((!(0xffff_ffffu32 << n)) << m)) == base
        &&& (c & ((!(0xffff_ffffu32 << n)) << m)) >> m == node
        &&& c & !(0xffff_ffffu32 << m) == msg
        &&& (base & 0xe000_0000 == 0 ==> c <= 0x1fff_ffff)
    }) by (bit_vector)
        requires
            n + m <= 29,
            base & (!(0xffff_ffffu32 << m) | ((!(0xffff_ffffu32 << n)) << m)) == 0,
            node < (1u32 << n),
            msg < (1u32 << m),
    ;
}

/// A frame that a well-formed group encodes for a node in range carries an
/// identifier that splits back into that node and the type's message identifier.
pub proof fn lemma_frame_id(g: NodeGroup, node: u32, tag: u64)
    requires
        g.wf(),
        g.base_ok(),
        g.msg_list().contains(tag),
        (node as nat) < pow2(g.node_id_len() as nat),
    ensures
        g.can_id(node, tag) <= 0x1fff_ffff,
        extract(g.can_id(node, tag), g.base(), g.node_id_len(), g.msg_id_len()) == Some(
            (node, msg_index(g.msg_list(), tag) as u32),
        ),
{
    let s = g.msg_list();
    lemma_msg_index(s, tag);
    lemma_u32_pow2_no_overflow(g.msg_id_len() as nat);
    lemma_extract_compose(
        g.base(),
        g.node_id_len(),
        g.msg_id_len(),
        node,
        msg_index(s, tag) as u32,
    );
}

} // verus!
