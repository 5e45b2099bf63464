use vstd::prelude::*;

use vstd::string::StrSliceExecFns;
use vstd::utf8::{decode_utf8, encode_utf8, valid_utf8};
use crate::key::{sha256_of, Key};
use crate::node::{addr_of, nv_wf, NodeV};
use crate::routing::NodeAndDistance;
use crate::KEY_LEN;

verus! {

/// A remote procedure call a peer may receive.
pub enum Request {
    Ping,
    Store(String, String),
    FindNode(Key),
    FindValue(String),
}

/// What a peer answers to each request.
pub enum Response {
    Ping,
    FindNode(Vec<NodeAndDistance>),
    FindValue(FindValueResult),
}

/// A value lookup either yields the value or the peers nearest to it.
pub enum FindValueResult {
    Value(String),
    Nodes(Vec<NodeAndDistance>),
}

pub enum Message {
    Request(Request),
    Response(Response),
}

/// One datagram on the wire: a correlation token, the two textual
/// addresses, and the payload.
pub struct RpcMessage {
    pub token: Key,
    pub src: String,
    pub dst: String,
    pub msg: Message,
}

/// An inbound request as handed to the protocol engine.
pub struct ReqWrapper {
    pub token: Key,
    pub src: String,
    pub payload: Request,
}

pub enum RequestV {
    Ping,
    Store(Seq<char>, Seq<char>),
    FindNode(Seq<u8>),
    FindValue(Seq<char>),
}

pub enum FindValueResultV {
    Value(Seq<char>),
    Nodes(Seq<(NodeV, Seq<u8>)>),
}

pub enum ResponseV {
    Ping,
    FindNode(Seq<(NodeV, Seq<u8>)>),
    FindValue(FindValueResultV),
}

pub enum MessageV {
    Request(RequestV),
    Response(ResponseV),
}

pub struct RpcMessageV {
    pub token: Seq<u8>,
    pub src: Seq<char>,
    pub dst: Seq<char>,
    pub msg: MessageV,
}

pub open spec fn entries_view(s: Seq<NodeAndDistance>) -> Seq<(NodeV, Seq<u8>)> {
    s.map_values(|e: NodeAndDistance| (e.0@, e.1@))
}

impl View for Request {
    type V = RequestV;

    open spec fn view(&self) -> RequestV {
        match self {
            Request::Ping => RequestV::Ping,
            Request::Store(k, v) => RequestV::Store(k@, v@),
            Request::FindNode(id) => RequestV::FindNode(id@),
            Request::FindValue(k) => RequestV::FindValue(k@),
        }
    }
}

impl View for FindValueResult {
    type V = FindValueResultV;

    open spec fn view(&self) -> FindValueResultV {
        match self {
            FindValueResult::Value(v) => FindValueResultV::Value(v@),
            FindValueResult::Nodes(es) => FindValueResultV::Nodes(entries_view(es@)),
        }
    }
}

impl View for Response {
    type V = ResponseV;

    open spec fn view(&self) -> ResponseV {
        match self {
            Response::Ping => ResponseV::Ping,
            Response::FindNode(es) => ResponseV::FindNode(entries_view(es@)),
            Response::FindValue(fv) => ResponseV::FindValue(fv@),
        }
    }
}

impl View for Message {
    type V = MessageV;

    open spec fn view(&self) -> MessageV {
        match self {
            Message::Request(r) => MessageV::Request(r@),
            Message::Response(r) => MessageV::Response(r@),
        }
    }
}

impl View for RpcMessage {
    type V = RpcMessageV;

    open spec fn view(&self) -> RpcMessageV {
        RpcMessageV { token: self.token@, src: self.src@, dst: self.dst@, msg: self.msg@ }
    }
}

// ---- the byte layout ----

pub open spec fn enc_u16(n: u16) -> Seq<u8> {
    seq![(n >> 8) as u8, n as u8]
}

pub open spec fn enc_u32(n: u32) -> Seq<u8> {
    seq![(n >> 24) as u8, (n >> 16) as u8, (n >> 8) as u8, n as u8]
}

pub open spec fn dec_u16v(b: Seq<u8>) -> u16 {
    ((b[0] as u16) << 8) | (b[1] as u16)
}

pub open spec fn dec_u32v(b: Seq<u8>) -> u32 {
    ((b[0] as u32) << 24) | ((b[1] as u32) << 16) | ((b[2] as u32) << 8) | (b[3] as u32)
}

/// A length-prefixed UTF-8 string.
pub open spec fn enc_str(s: Seq<char>) -> Seq<u8> {
    enc_u32(encode_utf8(s).len() as u32) + encode_utf8(s)
}

pub open spec fn str_ok(s: Seq<char>) -> bool {
    encode_utf8(s).len() < 0x1_0000_0000
}

/// A node on the wire: its address text; the identifier is recomputed by
/// the receiver.
pub open spec fn enc_node(n: NodeV) -> Seq<u8> {
    enc_str(n.ip) + enc_u16(n.port)
}

pub open spec fn enc_entry(e: (NodeV, Seq<u8>)) -> Seq<u8> {
    enc_node(e.0) + e.1
}

pub open spec fn enc_entry_list(s: Seq<(NodeV, Seq<u8>)>) -> Seq<u8>
    decreases s.len(),
{
    if s.len() == 0 {
        Seq::<u8>::empty()
    } else {
        enc_entry(s.first()) + enc_entry_list(s.drop_first())
    }
}

pub open spec fn enc_entries(s: Seq<(NodeV, Seq<u8>)>) -> Seq<u8> {
    enc_u32(s.len() as u32) + enc_entry_list(s)
}

pub open spec fn enc_req(r: RequestV) -> Seq<u8> {
    match r {
        RequestV::Ping => seq![0u8],
        RequestV::Store(k, v) => seq![1u8] + enc_str(k) + enc_str(v),
        RequestV::FindNode(id) => seq![2u8] + id,
        RequestV::FindValue(k) => seq![3u8] + enc_str(k),
    }
}

pub open spec fn enc_res(r: ResponseV) -> Seq<u8> {
    match r {
        ResponseV::Ping => seq![0u8],
        ResponseV::FindNode(es) => seq![1u8] + enc_entries(es),
        ResponseV::FindValue(fv) => match fv {
            FindValueResultV::Value(v) => seq![2u8, 0u8] + enc_str(v),
            FindValueResultV::Nodes(es) => seq![2u8, 1u8] + enc_entries(es),
        },
    }
}

pub open spec fn enc_msg(m: RpcMessageV) -> Seq<u8> {
    m.token + enc_str(m.src) + enc_str(m.dst) + (match m.msg {
        MessageV::Request(r) => seq![0u8] + enc_req(r),
        MessageV::Response(r) => seq![1u8] + enc_res(r),
    })
}

/// What the encoder can represent: fixed-size fields have their size and
/// every length fits its prefix.
pub open spec fn entry_wf(e: (NodeV, Seq<u8>)) -> bool {
    &&& nv_wf(e.0)
    &&& e.1.len() == KEY_LEN
    &&& str_ok(e.0.ip)
}

pub open spec fn entries_ok(s: Seq<(NodeV, Seq<u8>)>) -> bool {
    &&& s.len() < 0x1_0000_0000
    &&& forall|i: int| 0 <= i < s.len() ==> entry_wf(#[trigger] s[i])
}

pub open spec fn req_ok(r: RequestV) -> bool {
    match r {
        RequestV::Ping => true,
        RequestV::Store(k, v) => str_ok(k) && str_ok(v),
        RequestV::FindNode(id) => id.len() == KEY_LEN,
        RequestV::FindValue(k) => str_ok(k),
    }
}

pub open spec fn res_ok(r: ResponseV) -> bool {
    match r {
        ResponseV::Ping => true,
        ResponseV::FindNode(es) => entries_ok(es),
        ResponseV::FindValue(fv) => match fv {
            FindValueResultV::Value(v) => str_ok(v),
            FindValueResultV::Nodes(es) => entries_ok(es),
        },
    }
}

pub open spec fn msg_ok(m: RpcMessageV) -> bool {
    &&& m.token.len() == KEY_LEN
    &&& str_ok(m.src)
    &&& str_ok(m.dst)
    &&& match m.msg {
        MessageV::Request(r) => req_ok(r),
        MessageV::Response(r) => res_ok(r),
    }
}

// ---- the spec-level decoder ----

pub open spec fn dec_fixed(b: Seq<u8>, n: nat) -> Option<(Seq<u8>, Seq<u8>)> {
    if b.len() >= n {
        Some((b.take(n as int), b.skip(n as int)))
    } else {
        None
    }
}

pub open spec fn dec_u16s(b: Seq<u8>) -> Option<(u16, Seq<u8>)> {
    if b.len() >= 2 {
        Some((dec_u16v(b.take(2)), b.skip(2)))
    } else {
        None
    }
}

pub open spec fn dec_u32s(b: Seq<u8>) -> Option<(u32, Seq<u8>)> {
    if b.len() >= 4 {
        Some((dec_u32v(b.take(4)), b.skip(4)))
    } else {
        None
    }
}

pub open spec fn dec_strs(b: Seq<u8>) -> Option<(Seq<char>, Seq<u8>)> {
    match dec_u32s(b) {
        None => None,
        Some((n, r)) => if r.len() >= n && valid_utf8(r.take(n as int)) {
            Some((decode_utf8(r.take(n as int)), r.skip(n as int)))
        } else {
            None
        },
    }
}

pub open spec fn dec_nodes(b: Seq<u8>) -> Option<(NodeV, Seq<u8>)> {
    match dec_strs(b) {
        None => None,
        Some((ip, r)) => match dec_u16s(r) {
            None => None,
            Some((port, r2)) => Some(
                (NodeV { ip, port, id: sha256_of(addr_of(ip, port)) }, r2),
            ),
        },
    }
}

pub open spec fn dec_entry(b: Seq<u8>) -> Option<((NodeV, Seq<u8>), Seq<u8>)> {
    match dec_nodes(b) {
        None => None,
        Some((nv, r)) => match dec_fixed(r, KEY_LEN as nat) {
            None => None,
            Some((d, r2)) => Some(((nv, d), r2)),
        },
    }
}

pub open spec fn dec_entry_list(b: Seq<u8>, n: nat) -> Option<(Seq<(NodeV, Seq<u8>)>, Seq<u8>)>
    decreases n,
{
    if n == 0 {
        Some((Seq::empty(), b))
    } else {
        match dec_entry(b) {
            None => None,
            Some((e, r)) => match dec_entry_list(r, (n - 1) as nat) {
                None => None,
                Some((es, r2)) => Some((seq![e] + es, r2)),
            },
        }
    }
}

pub open spec fn dec_entries(b: Seq<u8>) -> Option<(Seq<(NodeV, Seq<u8>)>, Seq<u8>)> {
    match dec_u32s(b) {
        None => None,
        Some((n, r)) => dec_entry_list(r, n as nat),
    }
}

pub open spec fn dec_req(b: Seq<u8>) -> Option<(RequestV, Seq<u8>)> {
    if b.len() < 1 {
        None
    } else {
        let tag = b[0];
        let r = b.skip(1);
        if tag == 0 {
            Some((RequestV::Ping, r))
        } else if tag == 1 {
            match dec_strs(r) {
                None => None,
                Some((k, r2)) => match dec_strs(r2) {
                    None => None,
                    Some((v, r3)) => Some((RequestV::Store(k, v), r3)),
                },
            }
        } else if tag == 2 {
            match dec_fixed(r, KEY_LEN as nat) {
                None => None,
                Some((id, r2)) => Some((RequestV::FindNode(id), r2)),
            }
        } else if tag == 3 {
            match dec_strs(r) {
                None => None,
                Some((k, r2)) => Some((RequestV::FindValue(k), r2)),
            }
        } else {
            None
        }
    }
}

pub open spec fn dec_res(b: Seq<u8>) -> Option<(ResponseV, Seq<u8>)> {
    if b.len() < 1 {
        None
    } else {
        let tag = b[0];
        let r = b.skip(1);
        if tag == 0 {
            Some((ResponseV::Ping, r))
        } else if tag == 1 {
            match dec_entries(r) {
                None => None,
                Some((es, r2)) => Some((ResponseV::FindNode(es), r2)),
            }
        } else if tag == 2 {
            if r.len() < 1 {
                None
            } else {
                let tag2 = r[0];
                let r2 = r.skip(1);
                if tag2 == 0 {
                    match dec_strs(r2) {
                        None => None,
                        Some((v, r3)) => Some(
                            (ResponseV::FindValue(FindValueResultV::Value(v)), r3),
                        ),
                    }
                } else if tag2 == 1 {
                    match dec_entries(r2) {
                        None => None,
                        Some((es, r3)) => Some(
                            (ResponseV::FindValue(FindValueResultV::Nodes(es)), r3),
                        ),
                    }
                } else {
                    None
                }
            }
        } else {
            None
        }
    }
}

/// One whole datagram; trailing bytes make it malformed.
pub open spec fn dec_msg(b: Seq<u8>) -> Option<RpcMessageV> {
    match dec_fixed(b, KEY_LEN as nat) {
        None => None,
        Some((token, r)) => match dec_strs(r) {
            None => None,
            Some((src, r2)) => match dec_strs(r2) {
                None => None,
                Some((dst, r3)) => if r3.len() < 1 {
                    None
                } else {
                    let kind = r3[0];
                    let r4 = r3.skip(1);
                    if kind == 0 {
                        match dec_req(r4) {
                            None => None,
                            Some((req, r5)) => if r5.len() == 0 {
                                Some(
                                    RpcMessageV {
                                        token,
                                        src,
                                        dst,
                                        msg: MessageV::Request(req),
                                    },
                                )
                            } else {
                                None
                            },
                        }
                    } else if kind == 1 {
                        match dec_res(r4) {
                            None => None,
                            Some((res, r5)) => if r5.len() == 0 {
                                Some(
                                    RpcMessageV {
                                        token,
                                        src,
                                        dst,
                                        msg: MessageV::Response(res),
                                    },
                                )
                            } else {
                                None
                            },
                        }
                    } else {
                        None
                    }
                },
            },
        },
    }
}

// ---- executable encoder ----

fn push_u16(out: &mut Vec<u8>, n: u16)
    ensures
        final(out)@ == old(out)@ + enc_u16(n),
{
    out.push((n >> 8) as u8);
    out.push(n as u8);
    proof {
        assert(out@ =~= old(out)@ + enc_u16(n));
    }
}

fn push_u32(out: &mut Vec<u8>, n: u32)
    ensures
        final(out)@ == old(out)@ + enc_u32(n),
{
    out.push((n >> 24) as u8);
    out.push((n >> 16) as u8);
    out.push((n >> 8) as u8);
    out.push(n as u8);
    proof {
        assert(out@ =~= old(out)@ + enc_u32(n));
    }
}

fn push_bytes(out: &mut Vec<u8>, v: &Vec<u8>)
    ensures
        final(out)@ == old(out)@ + v@,
{
    let mut c = crate::key::clone_bytes(v);
    out.append(&mut c);
    proof {
        assert(out@ =~= old(out)@ + v@);
    }
}

fn push_str(out: &mut Vec<u8>, s: &String)
    requires
        str_ok(s@),
    ensures
        final(out)@ == old(out)@ + enc_str(s@),
{
    let mut b = s.as_str().as_bytes_vec();
    let n = b.len() as u32;
    push_u32(out, n);
    out.append(&mut b);
    proof {
        assert(out@ =~= old(out)@ + enc_str(s@));
    }
}

fn push_node(out: &mut Vec<u8>, n: &crate::node::Node)
    requires
        str_ok(n.ip@),
    ensures
        final(out)@ == old(out)@ + enc_node(n@),
{
    push_str(out, &n.ip);
    push_u16(out, n.port);
    proof {
        assert(out@ =~= old(out)@ + enc_node(n@));
    }
}

proof fn lemma_enc_entry_list_snoc(s: Seq<(NodeV, Seq<u8>)>, e: (NodeV, Seq<u8>))
    ensures
        enc_entry_list(s.push(e)) == enc_entry_list(s) + enc_entry(e),
    decreases s.len(),
{
    if s.len() == 0 {
        assert(s.push(e).first() == e);
        assert(s.push(e).drop_first() =~= Seq::<(NodeV, Seq<u8>)>::empty());
        assert(enc_entry_list(s.push(e)) == enc_entry(e) + enc_entry_list(
            Seq::<(NodeV, Seq<u8>)>::empty(),
        ));
        assert(enc_entry_list(Seq::<(NodeV, Seq<u8>)>::empty()) == Seq::<u8>::empty());
        assert(enc_entry(e) + Seq::<u8>::empty() =~= enc_entry(e));
        assert(enc_entry_list(s) == Seq::<u8>::empty());
        assert(Seq::<u8>::empty() + enc_entry(e) =~= enc_entry(e));
    } else {
        assert(s.push(e).first() == s.first());
        assert(s.push(e).drop_first() =~= s.drop_first().push(e));
        lemma_enc_entry_list_snoc(s.drop_first(), e);
        assert(enc_entry_list(s.push(e)) == enc_entry(s.first()) + enc_entry_list(
            s.drop_first().push(e),
        ));
        assert(enc_entry(s.first()) + (enc_entry_list(s.drop_first()) + enc_entry(e)) =~= (
        enc_entry(s.first()) + enc_entry_list(s.drop_first())) + enc_entry(e));
        assert(enc_entry_list(s) == enc_entry(s.first()) + enc_entry_list(s.drop_first()));
    }
}

fn push_entries(out: &mut Vec<u8>, es: &Vec<NodeAndDistance>)
    requires
        entries_ok(entries_view(es@)),
    ensures
        final(out)@ == old(out)@ + enc_entries(entries_view(es@)),
{
    let n = es.len() as u32;
    push_u32(out, n);
    let mut i: usize = 0;
    while i < es.len()
        invariant
            i <= es@.len(),
            entries_ok(entries_view(es@)),
            out@ == old(out)@ + enc_u32(es@.len() as u32) + enc_entry_list(
                entries_view(es@).take(i as int),
            ),
        decreases es@.len() - i,
    {
        let ghost before = entries_view(es@).take(i as int);
        proof {
            assert(entry_wf(entries_view(es@)[i as int]));
        }
        push_node(out, &es[i].0);
        push_bytes(out, &es[i].1.0);
        proof {
            lemma_enc_entry_list_snoc(before, entries_view(es@)[i as int]);
            assert(entries_view(es@).take(i + 1) =~= before.push(entries_view(es@)[i as int]));
            assert(out@ =~= old(out)@ + enc_u32(es@.len() as u32) + enc_entry_list(
                entries_view(es@).take(i + 1),
            ));
        }
        i = i + 1;
    }
    proof {
        assert(entries_view(es@).take(es@.len() as int) =~= entries_view(es@));
    }
}

impl RpcMessage {
    /// The message's datagram bytes, as laid out on the wire.
    pub fn serialize(&self) -> (r: Vec<u8>)
        requires
            msg_ok(self@),
        ensures
            r@ == enc_msg(self@),
    {
        let mut out: Vec<u8> = Vec::new();
        push_bytes(&mut out, &self.token.0);
        push_str(&mut out, &self.src);
        push_str(&mut out, &self.dst);
        match &self.msg {
            Message::Request(req) => {
                out.push(0u8);
                match req {
                    Request::Ping => {
                        out.push(0u8);
                    },
                    Request::Store(k, v) => {
                        out.push(1u8);
                        push_str(&mut out, k);
                        push_str(&mut out, v);
                    },
                    Request::FindNode(id) => {
                        out.push(2u8);
                        push_bytes(&mut out, &id.0);
                    },
                    Request::FindValue(k) => {
                        out.push(3u8);
                        push_str(&mut out, k);
                    },
                }
            },
            Message::Response(res) => {
                out.push(1u8);
                match res {
                    Response::Ping => {
                        out.push(0u8);
                    },
                    Response::FindNode(es) => {
                        out.push(1u8);
                        push_entries(&mut out, es);
                    },
                    Response::FindValue(fv) => {
                        out.push(2u8);
                        match fv {
                            FindValueResult::Value(v) => {
                                out.push(0u8);
                                push_str(&mut out, v);
                            },
                            FindValueResult::Nodes(es) => {
                                out.push(1u8);
                                push_entries(&mut out, es);
                            },
                        }
                    },
                }
            },
        }
        proof {
            assert(out@ =~= enc_msg(self@));
        }
        out
    }
}

// ---- executable decoder ----

/// Relies on String::from_utf8: it succeeds exactly on valid UTF-8 and
/// yields its decoding.
#[verifier::external_body]
fn string_from_utf8(v: Vec<u8>) -> (r: Option<String>)
    ensures
        r is Some <==> valid_utf8(v@),
        r matches Some(s) ==> s@ == decode_utf8(v@),
{
    String::from_utf8(v).ok()
}

fn read_fixed(b: Vec<u8>, n: usize) -> (r: Option<(Vec<u8>, Vec<u8>)>)
    ensures
        match r {
            Some(p) => dec_fixed(b@, n as nat) == Some((p.0@, p.1@)),
            None => dec_fixed(b@, n as nat) is None,
        },
{
    if b.len() >= n {
        let mut head = b;
        let rest = head.split_off(n);
        proof {
            assert(head@ =~= b@.take(n as int));
            assert(rest@ =~= b@.skip(n as int));
        }
        Some((head, rest))
    } else {
        None
    }
}

fn read_u16(b: Vec<u8>) -> (r: Option<(u16, Vec<u8>)>)
    ensures
        match r {
            Some(p) => dec_u16s(b@) == Some((p.0, p.1@)),
            None => dec_u16s(b@) is None,
        },
{
    if b.len() >= 2 {
        let v = ((b[0] as u16) << 8u16) | (b[1] as u16);
        let mut head = b;
        let rest = head.split_off(2);
        proof {
            assert(rest@ =~= b@.skip(2));
            assert(b@.take(2)[0] == b@[0] && b@.take(2)[1] == b@[1]);
        }
        Some((v, rest))
    } else {
        None
    }
}

fn read_u32(b: Vec<u8>) -> (r: Option<(u32, Vec<u8>)>)
    ensures
        match r {
            Some(p) => dec_u32s(b@) == Some((p.0, p.1@)),
            None => dec_u32s(b@) is None,
        },
{
    if b.len() >= 4 {
        let v = ((b[0] as u32) << 24u32) | ((b[1] as u32) << 16u32) | ((b[2] as u32) << 8u32) | (
        b[3] as u32);
        let mut head = b;
        let rest = head.split_off(4);
        proof {
            assert(rest@ =~= b@.skip(4));
            assert(b@.take(4)[0] == b@[0] && b@.take(4)[1] == b@[1] && b@.take(4)[2] == b@[2]
                && b@.take(4)[3] == b@[3]);
        }
        Some((v, rest))
    } else {
        None
    }
}

fn read_str(b: Vec<u8>) -> (r: Option<(String, Vec<u8>)>)
    ensures
        match r {
            Some(p) => dec_strs(b@) == Some((p.0@, p.1@)),
            None => dec_strs(b@) is None,
        },
{
    match read_u32(b) {
        None => None,
        Some((n, rem)) => {
            if (n as usize) <= rem.len() {
                let mut head = rem;
                let rest = head.split_off(n as usize);
                proof {
                    assert(head@ =~= rem@.take(n as int));
                    assert(rest@ =~= rem@.skip(n as int));
                }
                match string_from_utf8(head) {
                    Some(s) => Some((s, rest)),
                    None => None,
                }
            } else {
                None
            }
        },
    }
}

fn read_node(b: Vec<u8>) -> (r: Option<(crate::node::Node, Vec<u8>)>)
    ensures
        match r {
            Some(p) => dec_nodes(b@) == Some((p.0@, p.1@)) && p.0.wf(),
            None => dec_nodes(b@) is None,
        },
{
    match read_str(b) {
        None => None,
        Some((ip, rem)) => match read_u16(rem) {
            None => None,
            Some((port, rest)) => {
                let node = crate::node::Node::new(ip, port);
                Some((node, rest))
            },
        },
    }
}

fn read_entry(b: Vec<u8>) -> (r: Option<(NodeAndDistance, Vec<u8>)>)
    ensures
        match r {
            Some(p) => dec_entry(b@) == Some(((p.0.0@, p.0.1@), p.1@)) && p.0.0.wf(),
            None => dec_entry(b@) is None,
        },
{
    match read_node(b) {
        None => None,
        Some((node, rem)) => match read_fixed(rem, KEY_LEN) {
            None => None,
            Some((d, rest)) => Some((NodeAndDistance(node, crate::key::Distance(d)), rest)),
        },
    }
}

fn read_entries(b: Vec<u8>) -> (r: Option<(Vec<NodeAndDistance>, Vec<u8>)>)
    ensures
        match r {
            Some(p) => dec_entries(b@) == Some((entries_view(p.0@), p.1@)),
            None => dec_entries(b@) is None,
        },
{
    match read_u32(b) {
        None => None,
        Some((n, rem)) => {
            let ghost first_rem = rem@;
            proof {
                assert(dec_u32s(b@) == Some((n, first_rem)));
                assert(dec_entries(b@) == dec_entry_list(first_rem, n as nat));
            }
            let mut rem = rem;
            let mut acc: Vec<NodeAndDistance> = Vec::new();
            let mut i: u32 = 0;
            proof {
                assert(entries_view(acc@) =~= Seq::<(NodeV, Seq<u8>)>::empty());
            }
            while i < n
                invariant
                    i <= n,
                    dec_entries(b@) == dec_entry_list(first_rem, n as nat),
                    ({
                        let tail = dec_entry_list(rem@, (n - i) as nat);
                        dec_entry_list(first_rem, n as nat) == (match tail {
                            None => None::<(Seq<(NodeV, Seq<u8>)>, Seq<u8>)>,
                            Some((es, r2)) => Some((entries_view(acc@) + es, r2)),
                        })
                    }),
                decreases n - i,
            {
                let ghost pre_acc = acc@;
                let ghost pre_rem = rem@;
                match read_entry(rem) {
                    None => {
                        proof {
                            assert(dec_entry_list(pre_rem, (n - i) as nat) is None);
                            assert(dec_entry_list(first_rem, n as nat) is None);
                            assert(dec_entries(b@) is None);
                        }
                        return None;
                    },
                    Some((e, rest)) => {
                        acc.push(e);
                        rem = rest;
                        proof {
                            assert(entries_view(acc@) =~= entries_view(pre_acc).push(
                                (e.0@, e.1@),
                            ));
                            let tail = dec_entry_list(rem@, (n - i - 1) as nat);
                            match tail {
                                None => {},
                                Some((es, r2)) => {
                                    assert(dec_entry_list(pre_rem, (n - i) as nat) == Some(
                                        (seq![(e.0@, e.1@)] + es, r2),
                                    ));
                                    assert(entries_view(pre_acc) + (seq![(e.0@, e.1@)] + es)
                                        =~= entries_view(acc@) + es);
                                },
                            }
                        }
                        i = i + 1;
                    },
                }
            }
            proof {
                assert(dec_entry_list(rem@, 0) == Some(
                    (Seq::<(NodeV, Seq<u8>)>::empty(), rem@),
                ));
                assert(entries_view(acc@) + Seq::<(NodeV, Seq<u8>)>::empty() =~= entries_view(
                    acc@,
                ));
            }
            Some((acc, rem))
        },
    }
}

fn read_byte(b: Vec<u8>) -> (r: Option<(u8, Vec<u8>)>)
    ensures
        match r {
            Some(p) => b@.len() >= 1 && p.0 == b@[0] && p.1@ == b@.skip(1),
            None => b@.len() == 0,
        },
{
    if b.len() >= 1 {
        let v = b[0];
        let mut head = b;
        let rest = head.split_off(1);
        proof {
            assert(rest@ =~= b@.skip(1));
        }
        Some((v, rest))
    } else {
        None
    }
}

fn read_req(b: Vec<u8>) -> (r: Option<(Request, Vec<u8>)>)
    ensures
        match r {
            Some(p) => dec_req(b@) == Some((p.0@, p.1@)),
            None => dec_req(b@) is None,
        },
{
    match read_byte(b) {
        None => None,
        Some((tag, rem)) => {
            if tag == 0 {
                Some((Request::Ping, rem))
            } else if tag == 1 {
                match read_str(rem) {
                    None => None,
                    Some((k, rem2)) => match read_str(rem2) {
                        None => None,
                        Some((v, rem3)) => Some((Request::Store(k, v), rem3)),
                    },
                }
            } else if tag == 2 {
                match read_fixed(rem, KEY_LEN) {
                    None => None,
                    Some((id, rem2)) => Some((Request::FindNode(crate::key::Key(id)), rem2)),
                }
            } else if tag == 3 {
                match read_str(rem) {
                    None => None,
                    Some((k, rem2)) => Some((Request::FindValue(k), rem2)),
                }
            } else {
                None
            }
        },
    }
}

fn read_res(b: Vec<u8>) -> (r: Option<(Response, Vec<u8>)>)
    ensures
        match r {
            Some(p) => dec_res(b@) == Some((p.0@, p.1@)),
            None => dec_res(b@) is None,
        },
{
    match read_byte(b) {
        None => None,
        Some((tag, rem)) => {
            if tag == 0 {
                Some((Response::Ping, rem))
            } else if tag == 1 {
                match read_entries(rem) {
                    None => None,
                    Some((es, rem2)) => Some((Response::FindNode(es), rem2)),
                }
            } else if tag == 2 {
                match read_byte(rem) {
                    None => None,
                    Some((tag2, rem2)) => {
                        if tag2 == 0 {
                            match read_str(rem2) {
                                None => None,
                                Some((v, rem3)) => Some(
                                    (Response::FindValue(FindValueResult::Value(v)), rem3),
                                ),
                            }
                        } else if tag2 == 1 {
                            match read_entries(rem2) {
                                None => None,
                                Some((es, rem3)) => Some(
                                    (Response::FindValue(FindValueResult::Nodes(es)), rem3),
                                ),
                            }
                        } else {
                            None
                        }
                    },
                }
            } else {
                None
            }
        },
    }
}

impl RpcMessage {
    /// Reads one whole datagram back; anything malformed, truncated or
    /// trailing makes it fail.
    pub fn deserialize(buf: Vec<u8>) -> (r: Option<RpcMessage>)
        ensures
            match r {
                Some(m) => dec_msg(buf@) == Some(m@),
                None => dec_msg(buf@) is None,
            },
    {
        match read_fixed(buf, KEY_LEN) {
            None => None,
            Some((token, rem)) => match read_str(rem) {
                None => None,
                Some((src, rem2)) => match read_str(rem2) {
                    None => None,
                    Some((dst, rem3)) => match read_byte(rem3) {
                        None => None,
                        Some((kind, rem4)) => {
                            if kind == 0 {
                                match read_req(rem4) {
                                    None => None,
                                    Some((req, rem5)) => {
                                        if rem5.len() == 0 {
                                            Some(
                                                RpcMessage {
                                                    token: crate::key::Key(token),
                                                    src,
                                                    dst,
                                                    msg: Message::Request(req),
                                                },
                                            )
                                        } else {
                                            None
                                        }
                                    },
                                }
                            } else if kind == 1 {
                                match read_res(rem4) {
                                    None => None,
                                    Some((res, rem5)) => {
                                        if rem5.len() == 0 {
                                            Some(
                                                RpcMessage {
                                                    token: crate::key::Key(token),
                                                    src,
                                                    dst,
                                                    msg: Message::Response(res),
                                                },
                                            )
                                        } else {
                                            None
                                        }
                                    },
                                }
                            } else {
                                None
                            }
                        },
                    },
                },
            },
        }
    }
}

// ---- the decoder undoes the encoder ----

proof fn lemma_split(a: Seq<u8>, b: Seq<u8>)
    ensures
        (a + b).len() == a.len() + b.len(),
        (a + b).take(a.len() as int) == a,
        (a + b).skip(a.len() as int) == b,
{
    assert((a + b).take(a.len() as int) =~= a);
    assert((a + b).skip(a.len() as int) =~= b);
}

proof fn lemma_u16_bytes(n: u16)
    by (bit_vector)
    ensures
        (((n >> 8) as u8) as u16) << 8 | ((n as u8) as u16) == n,
{
}

proof fn lemma_u32_bytes(n: u32)
    by (bit_vector)
    ensures
        (((n >> 24) as u8) as u32) << 24 | (((n >> 16) as u8) as u32) << 16 | (((n >> 8) as u8)
            as u32) << 8 | ((n as u8) as u32) == n,
{
}

proof fn lemma_dec_u16(n: u16, rest: Seq<u8>)
    ensures
        dec_u16s(enc_u16(n) + rest) == Some((n, rest)),
{
    lemma_split(enc_u16(n), rest);
    lemma_u16_bytes(n);
    assert(dec_u16v((enc_u16(n) + rest).take(2)) == n);
}

proof fn lemma_dec_u32(n: u32, rest: Seq<u8>)
    ensures
        dec_u32s(enc_u32(n) + rest) == Some((n, rest)),
{
    lemma_split(enc_u32(n), rest);
    lemma_u32_bytes(n);
    assert(dec_u32v((enc_u32(n) + rest).take(4)) == n);
}

proof fn lemma_dec_str(s: Seq<char>, rest: Seq<u8>)
    requires
        str_ok(s),
    ensures
        dec_strs(enc_str(s) + rest) == Some((s, rest)),
{
    let u = encode_utf8(s);
    let n = u.len() as u32;
    assert(enc_str(s) + rest =~= enc_u32(n) + (u + rest));
    lemma_dec_u32(n, u + rest);
    lemma_split(u, rest);
    vstd::utf8::encode_utf8_valid_utf8(s);
    vstd::utf8::encode_utf8_decode_utf8(s);
}

proof fn lemma_dec_node(nv: NodeV, rest: Seq<u8>)
    requires
        nv_wf(nv),
        str_ok(nv.ip),
    ensures
        dec_nodes(enc_node(nv) + rest) == Some((nv, rest)),
{
    assert(enc_node(nv) + rest =~= enc_str(nv.ip) + (enc_u16(nv.port) + rest));
    lemma_dec_str(nv.ip, enc_u16(nv.port) + rest);
    lemma_dec_u16(nv.port, rest);
}

proof fn lemma_dec_entry(e: (NodeV, Seq<u8>), rest: Seq<u8>)
    requires
        entry_wf(e),
    ensures
        dec_entry(enc_entry(e) + rest) == Some((e, rest)),
{
    assert(enc_entry(e) + rest =~= enc_node(e.0) + (e.1 + rest));
    lemma_dec_node(e.0, e.1 + rest);
    lemma_split(e.1, rest);
}

proof fn lemma_dec_entry_list(s: Seq<(NodeV, Seq<u8>)>, rest: Seq<u8>)
    requires
        forall|i: int| 0 <= i < s.len() ==> entry_wf(#[trigger] s[i]),
    ensures
        dec_entry_list(enc_entry_list(s) + rest, s.len()) == Some((s, rest)),
    decreases s.len(),
{
    if s.len() == 0 {
        assert(enc_entry_list(s) + rest =~= rest);
        assert(dec_entry_list(rest, 0) == Some((Seq::<(NodeV, Seq<u8>)>::empty(), rest)));
        assert(s =~= Seq::<(NodeV, Seq<u8>)>::empty());
    } else {
        let tail = s.drop_first();
        assert(enc_entry_list(s) + rest =~= enc_entry(s.first()) + (enc_entry_list(tail) + rest));
        lemma_dec_entry(s.first(), enc_entry_list(tail) + rest);
        assert(forall|i: int| 0 <= i < tail.len() ==> entry_wf(#[trigger] tail[i]));
        lemma_dec_entry_list(tail, rest);
        assert(seq![s.first()] + tail =~= s);
    }
}

proof fn lemma_dec_entries(s: Seq<(NodeV, Seq<u8>)>, rest: Seq<u8>)
    requires
        entries_ok(s),
    ensures
        dec_entries(enc_entries(s) + rest) == Some((s, rest)),
{
    let n = s.len() as u32;
    assert(enc_entries(s) + rest =~= enc_u32(n) + (enc_entry_list(s) + rest));
    lemma_dec_u32(n, enc_entry_list(s) + rest);
    lemma_dec_entry_list(s, rest);
}

proof fn lemma_dec_req(r: RequestV, rest: Seq<u8>)
    requires
        req_ok(r),
    ensures
        dec_req(enc_req(r) + rest) == Some((r, rest)),
{
    let b = enc_req(r) + rest;
    match r {
        RequestV::Ping => {
            assert(b[0] == 0);
            assert(b.skip(1) =~= rest);
        },
        RequestV::Store(k, v) => {
            assert(b[0] == 1);
            assert(b.skip(1) =~= enc_str(k) + (enc_str(v) + rest));
            lemma_dec_str(k, enc_str(v) + rest);
            lemma_dec_str(v, rest);
        },
        RequestV::FindNode(id) => {
            assert(b[0] == 2);
            assert(b.skip(1) =~= id + rest);
            lemma_split(id, rest);
        },
        RequestV::FindValue(k) => {
            assert(b[0] == 3);
            assert(b.skip(1) =~= enc_str(k) + rest);
            lemma_dec_str(k, rest);
        },
    }
}

proof fn lemma_dec_res(r: ResponseV, rest: Seq<u8>)
    requires
        res_ok(r),
    ensures
        dec_res(enc_res(r) + rest) == Some((r, rest)),
{
    let b = enc_res(r) + rest;
    match r {
        ResponseV::Ping => {
            assert(b[0] == 0);
            assert(b.skip(1) =~= rest);
        },
        ResponseV::FindNode(es) => {
            assert(b[0] == 1);
            assert(b.skip(1) =~= enc_entries(es) + rest);
            lemma_dec_entries(es, rest);
        },
        ResponseV::FindValue(fv) => {
            assert(b[0] == 2);
            match fv {
                FindValueResultV::Value(v) => {
                    assert(b.skip(1)[0] == 0);
                    assert(b.skip(1).skip(1) =~= enc_str(v) + rest);
                    lemma_dec_str(v, rest);
                },
                FindValueResultV::Nodes(es) => {
                    assert(b.skip(1)[0] == 1);
                    assert(b.skip(1).skip(1) =~= enc_entries(es) + rest);
                    lemma_dec_entries(es, rest);
                },
            }
        },
    }
}

#[verifier::spinoff_prover]
proof fn lemma_dec_payload(m: RpcMessageV)
    requires
        msg_ok(m),
    ensures
        ({
            let pay = match m.msg {
                MessageV::Request(r) => seq![0u8] + enc_req(r),
                MessageV::Response(r) => seq![1u8] + enc_res(r),
            };
            match m.msg {
                MessageV::Request(r) => pay[0] == 0 && dec_req(pay.skip(1)) == Some(
                    (r, Seq::<u8>::empty()),
                ),
                MessageV::Response(r) => pay[0] == 1 && dec_res(pay.skip(1)) == Some(
                    (r, Seq::<u8>::empty()),
                ),
            }
        }),
{
    let e = Seq::<u8>::empty();
    match m.msg {
        MessageV::Request(r) => {
            let pay = seq![0u8] + enc_req(r);
            assert(pay[0] == 0);
            assert(pay.skip(1) =~= enc_req(r) + e);
            lemma_dec_req(r, e);
        },
        MessageV::Response(r) => {
            let pay = seq![1u8] + enc_res(r);
            assert(pay[0] == 1);
            assert(pay.skip(1) =~= enc_res(r) + e);
            lemma_dec_res(r, e);
        },
    }
}

/// Decoding undoes encoding: any representable message survives the wire
/// byte-for-byte.
#[verifier::rlimit(100)]
#[verifier::spinoff_prover]
pub proof fn lemma_codec_round_trip(m: RpcMessageV)
    requires
        msg_ok(m),
    ensures
        dec_msg(enc_msg(m)) == Some(m),
{
    let pay = match m.msg {
        MessageV::Request(r) => seq![0u8] + enc_req(r),
        MessageV::Response(r) => seq![1u8] + enc_res(r),
    };
    let b = enc_msg(m);
    let after_token = enc_str(m.src) + (enc_str(m.dst) + pay);
    assert(b =~= m.token + after_token);
    assert(dec_fixed(b, KEY_LEN as nat) == Some((m.token, after_token))) by {
        lemma_split(m.token, after_token);
    }
    assert(dec_strs(after_token) == Some((m.src, enc_str(m.dst) + pay))) by {
        lemma_dec_str(m.src, enc_str(m.dst) + pay);
    }
    assert(dec_strs(enc_str(m.dst) + pay) == Some((m.dst, pay))) by {
        lemma_dec_str(m.dst, pay);
    }
    lemma_dec_payload(m);
}

} // verus!
