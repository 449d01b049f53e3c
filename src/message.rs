//! KRPC messages: queries, responses and errors, their mapping onto bencode
//! dictionaries, and the schema checks on query arguments and response values.
use vstd::prelude::*;
use crate::transaction::Endpoint;
use crate::bencode::{
    compare_bytes, enc, view_dict, view_list, view_value, wf, Bv, DecodeError, Value,
    lemma_view_dict_step, lemma_view_list_index, lemma_view_dict_index, lemma_view_dict_push,
    lemma_wf_dict_index, lemma_wf_dict_push, keys_sorted, copy_bytes, copy_value,
    encode, decode, lemma_enc_prefix_free, lemma_wf_list_push, lemma_lex_single,
};

verus! {

pub open spec fn key_id() -> Seq<u8> {
    seq![105u8, 100u8]
}

pub open spec fn key_target() -> Seq<u8> {
    seq![116u8, 97u8, 114u8, 103u8, 101u8, 116u8]
}

pub open spec fn key_info_hash() -> Seq<u8> {
    seq![105u8, 110u8, 102u8, 111u8, 95u8, 104u8, 97u8, 115u8, 104u8]
}

pub open spec fn key_port() -> Seq<u8> {
    seq![112u8, 111u8, 114u8, 116u8]
}

pub open spec fn key_token() -> Seq<u8> {
    seq![116u8, 111u8, 107u8, 101u8, 110u8]
}

pub open spec fn key_implied_port() -> Seq<u8> {
    seq![105u8, 109u8, 112u8, 108u8, 105u8, 101u8, 100u8, 95u8, 112u8, 111u8, 114u8, 116u8]
}

pub open spec fn key_nodes() -> Seq<u8> {
    seq![110u8, 111u8, 100u8, 101u8, 115u8]
}

pub open spec fn key_values() -> Seq<u8> {
    seq![118u8, 97u8, 108u8, 117u8, 101u8, 115u8]
}

pub open spec fn name_ping() -> Seq<u8> {
    seq![112u8, 105u8, 110u8, 103u8]
}

pub open spec fn name_find_node() -> Seq<u8> {
    seq![102u8, 105u8, 110u8, 100u8, 95u8, 110u8, 111u8, 100u8, 101u8]
}

pub open spec fn name_get_peers() -> Seq<u8> {
    seq![103u8, 101u8, 116u8, 95u8, 112u8, 101u8, 101u8, 114u8, 115u8]
}

pub open spec fn name_announce_peer() -> Seq<u8> {
    seq![97u8, 110u8, 110u8, 111u8, 117u8, 110u8, 99u8, 101u8, 95u8, 112u8, 101u8, 101u8, 114u8]
}

/// The value stored under `k`, the last such entry if there are several.
pub open spec fn lookup(d: Seq<(Seq<u8>, Bv)>, k: Seq<u8>) -> Option<Bv>
    decreases d.len(),
{
    if d.len() == 0 {
        None
    } else if d[d.len() - 1].0 == k {
        Some(d[d.len() - 1].1)
    } else {
        lookup(d.subrange(0, d.len() - 1), k)
    }
}

/// Finds the entry stored under `k`.
pub fn dict_get<'a>(d: &'a Vec<(Vec<u8>, Value)>, k: &[u8]) -> (r: Option<&'a Value>)
    ensures
        r is Some == lookup(view_dict(d@), k@) is Some,
        r is Some ==> r->0@ == lookup(view_dict(d@), k@)->0,
{
    let mut i: usize = d.len();
    assert(d@.subrange(0, i as int) =~= d@);
    while i > 0
        invariant
            i <= d.len(),
            lookup(view_dict(d@), k@) == lookup(view_dict(d@.subrange(0, i as int)), k@),
        decreases i,
    {
        proof {
            lemma_view_dict_step(d@, i - 1);
            let t = view_dict(d@.subrange(0, i - 1)).push((d@[i - 1].0@, view_value(d@[i - 1].1)));
            assert(t.subrange(0, t.len() - 1) =~= view_dict(d@.subrange(0, i - 1)));
        }
        if compare_bytes(d[i - 1].0.as_slice(), k) == 0 {
            return Some(&d[i - 1].1);
        }
        i = i - 1;
    }
    None
}

/// A byte string of exactly `n` bytes.
pub open spec fn bytes_of_len(x: Option<Bv>, n: nat) -> bool {
    x is Some && x->0 is Bytes && x->0->Bytes_0.len() == n
}

/// An integer within `lo ..= hi`.
pub open spec fn int_in(x: Option<Bv>, lo: int, hi: int) -> bool {
    x is Some && x->0 is Int && lo <= x->0->Int_0 <= hi
}

/// The error owed for field `k`, which should hold exactly `n` bytes and
/// holds `x`: missing, of another type, or of another length.
pub open spec fn bytes_field_error(x: Option<Bv>, k: Seq<u8>, n: nat, e: DecodeError) -> bool {
    match x {
        None => e is MissingField && e->MissingField_0@ == k,
        Some(Bv::Bytes(b)) => e is LengthMismatch && e->LengthMismatch_0@ == k && e->LengthMismatch_1 == n
            && e->LengthMismatch_2 == b.len(),
        Some(_) => e is TypeMismatch && e->TypeMismatch_0@ == k,
    }
}

/// The error owed for field `k`, which holds `x` of the wrong kind or
/// range: missing if absent, a type mismatch otherwise.
pub open spec fn field_error(x: Option<Bv>, k: Seq<u8>, e: DecodeError) -> bool {
    match x {
        None => e is MissingField && e->MissingField_0@ == k,
        Some(_) => e is TypeMismatch && e->TypeMismatch_0@ == k,
    }
}

/// Checks that `k` holds a byte string of exactly `n` bytes.
fn check_bytes_len(d: &Vec<(Vec<u8>, Value)>, k: Vec<u8>, n: usize) -> (r: Result<(), DecodeError>)
    ensures
        r is Ok == bytes_of_len(lookup(view_dict(d@), k@), n as nat),
        r is Err ==> bytes_field_error(lookup(view_dict(d@), k@), k@, n as nat, r->Err_0),
{
    match dict_get(d, k.as_slice()) {
        None => Err(DecodeError::MissingField(k)),
        Some(Value::Bytes(b)) => {
            if b.len() == n {
                Ok(())
            } else {
                Err(DecodeError::LengthMismatch(k, n, b.len()))
            }
        },
        Some(_) => Err(DecodeError::TypeMismatch(k)),
    }
}

/// Checks that `k` holds an integer within `lo ..= hi`.
fn check_int_in(d: &Vec<(Vec<u8>, Value)>, k: Vec<u8>, lo: i64, hi: i64) -> (r: Result<(), DecodeError>)
    ensures
        r is Ok == int_in(lookup(view_dict(d@), k@), lo as int, hi as int),
        r is Err ==> field_error(lookup(view_dict(d@), k@), k@, r->Err_0),
{
    match dict_get(d, k.as_slice()) {
        None => Err(DecodeError::MissingField(k)),
        Some(Value::Int(n)) => {
            if lo <= *n && *n <= hi {
                Ok(())
            } else {
                Err(DecodeError::TypeMismatch(k))
            }
        },
        Some(_) => Err(DecodeError::TypeMismatch(k)),
    }
}


/// Some byte string.
pub open spec fn is_bytes(x: Option<Bv>) -> bool {
    x is Some && x->0 is Bytes
}

/// Absent, or compact node infos: a byte string whose length is a multiple of 26.
pub open spec fn nodes_ok(x: Option<Bv>) -> bool {
    x is Some ==> x->0 is Bytes && x->0->Bytes_0.len() % 26 == 0
}

/// Absent, or a list of compact peer infos of 6 bytes each.
pub open spec fn peers_ok(x: Option<Bv>) -> bool {
    x is Some ==> x->0 is List && forall|i: int|
        0 <= i < x->0->List_0.len() ==> #[trigger] x->0->List_0[i] is Bytes && x->0->List_0[i]->Bytes_0.len()
            == 6
}

/// The arguments `a` of a query named `name` meet the method's schema:
/// a dictionary with a 20-byte `id`, and for the known methods their
/// mandatory arguments.
pub open spec fn args_valid(name: Seq<u8>, a: Bv) -> bool {
    match a {
        Bv::Dict(d) => {
            &&& bytes_of_len(lookup(d, key_id()), 20)
            &&& name == name_find_node() ==> bytes_of_len(lookup(d, key_target()), 20)
            &&& name == name_get_peers() ==> bytes_of_len(lookup(d, key_info_hash()), 20)
            &&& name == name_announce_peer() ==> {
                &&& bytes_of_len(lookup(d, key_info_hash()), 20)
                &&& int_in(lookup(d, key_port()), 1, 65535)
                &&& is_bytes(lookup(d, key_token()))
                &&& lookup(d, key_implied_port()) is Some ==> int_in(lookup(d, key_implied_port()), 0, 1)
            }
        },
        _ => false,
    }
}

/// The values `r` of a response meet the schema: a dictionary with a
/// 20-byte `id`, well-sized `nodes` and `values` where present.
pub open spec fn values_valid(r: Bv) -> bool {
    match r {
        Bv::Dict(d) => {
            &&& bytes_of_len(lookup(d, key_id()), 20)
            &&& nodes_ok(lookup(d, key_nodes()))
            &&& peers_ok(lookup(d, key_values()))
        },
        _ => false,
    }
}

/// The values `r` answer a query named `name`: they meet the general
/// response schema, and a `find_node` answer carries `nodes`, a `get_peers`
/// answer a `token` and either `values` or `nodes`.
pub open spec fn response_valid_for(name: Seq<u8>, r: Bv) -> bool {
    &&& values_valid(r)
    &&& name == name_find_node() ==> lookup(r->Dict_0, key_nodes()) is Some
    &&& name == name_get_peers() ==> {
        &&& is_bytes(lookup(r->Dict_0, key_token()))
        &&& (lookup(r->Dict_0, key_values()) is Some || lookup(r->Dict_0, key_nodes()) is Some)
    }
}

/// Checks the values of a response against the schema of the query
/// method `name` that it answers.
pub fn check_response_for(name: &[u8], r: &Value) -> (res: Result<(), DecodeError>)
    ensures
        res is Ok == response_valid_for(name@, r@),
{
    check_values(r)?;
    let d = match r {
        Value::Dict(d) => d,
        _ => return Err(DecodeError::TypeMismatch(vec![114u8])),
    };
    let find_node: Vec<u8> = vec![102u8, 105u8, 110u8, 100u8, 95u8, 110u8, 111u8, 100u8, 101u8];
    let get_peers: Vec<u8> = vec![103u8, 101u8, 116u8, 95u8, 112u8, 101u8, 101u8, 114u8, 115u8];
    let nodes: Vec<u8> = vec![110u8, 111u8, 100u8, 101u8, 115u8];
    let values: Vec<u8> = vec![118u8, 97u8, 108u8, 117u8, 101u8, 115u8];
    assert(nodes@ =~= key_nodes());
    assert(values@ =~= key_values());
    assert(find_node@ =~= name_find_node());
    assert(get_peers@ =~= name_get_peers());
    if compare_bytes(name, find_node.as_slice()) == 0 {
        if dict_get(d, nodes.as_slice()).is_none() {
            return Err(DecodeError::MissingField(nodes));
        }
    } else if compare_bytes(name, get_peers.as_slice()) == 0 {
        check_bytes(d, vec![116u8, 111u8, 107u8, 101u8, 110u8])?;
        if dict_get(d, values.as_slice()).is_none() && dict_get(d, nodes.as_slice()).is_none() {
            return Err(DecodeError::MissingField(values));
        }
    }
    Ok(())
}

fn check_bytes(d: &Vec<(Vec<u8>, Value)>, k: Vec<u8>) -> (r: Result<(), DecodeError>)
    ensures
        r is Ok == is_bytes(lookup(view_dict(d@), k@)),
        r is Err ==> field_error(lookup(view_dict(d@), k@), k@, r->Err_0),
{
    match dict_get(d, k.as_slice()) {
        None => Err(DecodeError::MissingField(k)),
        Some(Value::Bytes(_)) => Ok(()),
        Some(_) => Err(DecodeError::TypeMismatch(k)),
    }
}

/// Checks the arguments of a query against its method's schema.
pub fn check_args(name: &[u8], a: &Value) -> (r: Result<(), DecodeError>)
    ensures
        r is Ok == args_valid(name@, a@),
        !(a@ is Dict) ==> r is Err && r->Err_0 is TypeMismatch,
        a@ is Dict && !bytes_of_len(lookup(a@->Dict_0, key_id()), 20) ==> r is Err && bytes_field_error(
            lookup(a@->Dict_0, key_id()),
            key_id(),
            20,
            r->Err_0,
        ),
        a@ is Dict && bytes_of_len(lookup(a@->Dict_0, key_id()), 20) && name@ == name_find_node()
            && !bytes_of_len(lookup(a@->Dict_0, key_target()), 20) ==> r is Err && bytes_field_error(
            lookup(a@->Dict_0, key_target()),
            key_target(),
            20,
            r->Err_0,
        ),
        a@ is Dict && bytes_of_len(lookup(a@->Dict_0, key_id()), 20) && (name@ == name_get_peers() || name@
            == name_announce_peer()) && !bytes_of_len(lookup(a@->Dict_0, key_info_hash()), 20) ==> r is Err
            && bytes_field_error(lookup(a@->Dict_0, key_info_hash()), key_info_hash(), 20, r->Err_0),
        a@ is Dict && bytes_of_len(lookup(a@->Dict_0, key_id()), 20) && name@ == name_announce_peer()
            && bytes_of_len(lookup(a@->Dict_0, key_info_hash()), 20) && !int_in(lookup(a@->Dict_0, key_port()), 1, 65535)
            ==> r is Err && field_error(lookup(a@->Dict_0, key_port()), key_port(), r->Err_0),
        a@ is Dict && bytes_of_len(lookup(a@->Dict_0, key_id()), 20) && name@ == name_announce_peer()
            && bytes_of_len(lookup(a@->Dict_0, key_info_hash()), 20) && int_in(lookup(a@->Dict_0, key_port()), 1, 65535)
            && !is_bytes(lookup(a@->Dict_0, key_token())) ==> r is Err && field_error(
            lookup(a@->Dict_0, key_token()),
            key_token(),
            r->Err_0,
        ),
        a@ is Dict && bytes_of_len(lookup(a@->Dict_0, key_id()), 20) && name@ == name_announce_peer()
            && bytes_of_len(lookup(a@->Dict_0, key_info_hash()), 20) && int_in(lookup(a@->Dict_0, key_port()), 1, 65535)
            && is_bytes(lookup(a@->Dict_0, key_token())) && lookup(a@->Dict_0, key_implied_port()) is Some && !int_in(
            lookup(a@->Dict_0, key_implied_port()),
            0,
            1,
        ) ==> r is Err && r->Err_0 is TypeMismatch && r->Err_0->TypeMismatch_0@ == key_implied_port(),
{
    let d = match a {
        Value::Dict(d) => d,
        _ => return Err(DecodeError::TypeMismatch(vec![97u8])),
    };
    check_bytes_len(d, vec![105u8, 100u8], 20)?;
    let find_node: Vec<u8> = vec![102u8, 105u8, 110u8, 100u8, 95u8, 110u8, 111u8, 100u8, 101u8];
    let get_peers: Vec<u8> = vec![103u8, 101u8, 116u8, 95u8, 112u8, 101u8, 101u8, 114u8, 115u8];
    let announce_peer: Vec<u8> = vec![97u8, 110u8, 110u8, 111u8, 117u8, 110u8, 99u8, 101u8, 95u8, 112u8, 101u8, 101u8, 114u8];
    if compare_bytes(name, find_node.as_slice()) == 0 {
        check_bytes_len(d, vec![116u8, 97u8, 114u8, 103u8, 101u8, 116u8], 20)?;
    } else if compare_bytes(name, get_peers.as_slice()) == 0 {
        check_bytes_len(d, vec![105u8, 110u8, 102u8, 111u8, 95u8, 104u8, 97u8, 115u8, 104u8], 20)?;
    } else if compare_bytes(name, announce_peer.as_slice()) == 0 {
        check_bytes_len(d, vec![105u8, 110u8, 102u8, 111u8, 95u8, 104u8, 97u8, 115u8, 104u8], 20)?;
        check_int_in(d, vec![112u8, 111u8, 114u8, 116u8], 1, 65535)?;
        check_bytes(d, vec![116u8, 111u8, 107u8, 101u8, 110u8])?;
        let implied: Vec<u8> = vec![105u8, 109u8, 112u8, 108u8, 105u8, 101u8, 100u8, 95u8, 112u8, 111u8, 114u8, 116u8];
        if dict_get(d, implied.as_slice()).is_some() {
            check_int_in(d, implied, 0, 1)?;
        }
    }
    Ok(())
}

/// Checks the values of a response against the schema.
pub fn check_values(r: &Value) -> (res: Result<(), DecodeError>)
    ensures
        res is Ok == values_valid(r@),
        !(r@ is Dict) ==> res is Err && res->Err_0 is TypeMismatch,
        r@ is Dict && !bytes_of_len(lookup(r@->Dict_0, key_id()), 20) ==> res is Err && bytes_field_error(
            lookup(r@->Dict_0, key_id()),
            key_id(),
            20,
            res->Err_0,
        ),
{
    let d = match r {
        Value::Dict(d) => d,
        _ => return Err(DecodeError::TypeMismatch(vec![114u8])),
    };
    check_bytes_len(d, vec![105u8, 100u8], 20)?;
    let nodes: Vec<u8> = vec![110u8, 111u8, 100u8, 101u8, 115u8];
    assert(nodes@ =~= key_nodes());
    match dict_get(d, nodes.as_slice()) {
        None => {},
        Some(Value::Bytes(b)) => {
            if b.len() % 26 != 0 {
                return Err(DecodeError::LengthMismatch(nodes, b.len() - b.len() % 26, b.len()));
            }
        },
        Some(_) => return Err(DecodeError::TypeMismatch(nodes)),
    }
    let values: Vec<u8> = vec![118u8, 97u8, 108u8, 117u8, 101u8, 115u8];
    assert(values@ =~= key_values());
    match dict_get(d, values.as_slice()) {
        None => {},
        Some(Value::List(l)) => {
            proof {
                lemma_view_list_index(l@);
            }
            let mut i: usize = 0;
            while i < l.len()
                invariant
                    i <= l.len(),
                    *r == Value::Dict(*d),
                    bytes_of_len(lookup(view_dict(d@), key_id()), 20),
                    values@ == key_values(),
                    lookup(view_dict(d@), values@) == Some(Bv::List(view_list(l@))),
                    view_list(l@).len() == l.len(),
                    forall|j: int| 0 <= j < l.len() ==> #[trigger] view_list(l@)[j] == view_value(l@[j]),
                    forall|j: int|
                        0 <= j < i ==> #[trigger] view_list(l@)[j] is Bytes && view_list(l@)[j]->Bytes_0.len() == 6,
                decreases l.len() - i,
            {
                assert(view_list(l@)[i as int] == view_value(l@[i as int]));
                assert(lookup(view_dict(d@), values@)->0->List_0[i as int] == view_list(l@)[i as int]);
                match &l[i] {
                    Value::Bytes(p) => {
                        if p.len() != 6 {
                            return Err(DecodeError::LengthMismatch(values, 6, p.len()));
                        }
                    },
                    _ => return Err(DecodeError::TypeMismatch(values)),
                }
                i = i + 1;
            }
        },
        Some(_) => return Err(DecodeError::TypeMismatch(values)),
    }
    Ok(())
}


/// The method of a query. Names other than the four known ones are kept
/// as they came.
#[derive(Debug, PartialEq, Eq)]
pub enum QueryMethod {
    Ping,
    FindNode,
    GetPeers,
    AnnouncePeer,
    Unknown(Vec<u8>),
}

/// The wire name of a method.
pub open spec fn method_name(m: QueryMethod) -> Seq<u8> {
    match m {
        QueryMethod::Ping => name_ping(),
        QueryMethod::FindNode => name_find_node(),
        QueryMethod::GetPeers => name_get_peers(),
        QueryMethod::AnnouncePeer => name_announce_peer(),
        QueryMethod::Unknown(n) => n@,
    }
}

pub open spec fn is_known_name(n: Seq<u8>) -> bool {
    n == name_ping() || n == name_find_node() || n == name_get_peers() || n == name_announce_peer()
}

impl QueryMethod {
    /// The method with wire name `n`.
    pub fn from_name(n: Vec<u8>) -> (r: QueryMethod)
        ensures
            method_name(r) == n@,
            r is Unknown <==> !is_known_name(n@),
    {
        let ping: Vec<u8> = vec![112u8, 105u8, 110u8, 103u8];
        let find_node: Vec<u8> = vec![102u8, 105u8, 110u8, 100u8, 95u8, 110u8, 111u8, 100u8, 101u8];
        let get_peers: Vec<u8> = vec![103u8, 101u8, 116u8, 95u8, 112u8, 101u8, 101u8, 114u8, 115u8];
        let announce_peer: Vec<u8> = vec![97u8, 110u8, 110u8, 111u8, 117u8, 110u8, 99u8, 101u8, 95u8, 112u8, 101u8, 101u8, 114u8];
        assert(ping@ =~= name_ping());
        assert(find_node@ =~= name_find_node());
        assert(get_peers@ =~= name_get_peers());
        assert(announce_peer@ =~= name_announce_peer());
        if compare_bytes(n.as_slice(), ping.as_slice()) == 0 {
            QueryMethod::Ping
        } else if compare_bytes(n.as_slice(), find_node.as_slice()) == 0 {
            QueryMethod::FindNode
        } else if compare_bytes(n.as_slice(), get_peers.as_slice()) == 0 {
            QueryMethod::GetPeers
        } else if compare_bytes(n.as_slice(), announce_peer.as_slice()) == 0 {
            QueryMethod::AnnouncePeer
        } else {
            QueryMethod::Unknown(n)
        }
    }

    /// The wire name of the method.
    pub fn name(&self) -> (r: Vec<u8>)
        ensures
            r@ == method_name(*self),
    {
        let r: Vec<u8> = match self {
            QueryMethod::Ping => vec![112u8, 105u8, 110u8, 103u8],
            QueryMethod::FindNode => vec![102u8, 105u8, 110u8, 100u8, 95u8, 110u8, 111u8, 100u8, 101u8],
            QueryMethod::GetPeers => vec![103u8, 101u8, 116u8, 95u8, 112u8, 101u8, 101u8, 114u8, 115u8],
            QueryMethod::AnnouncePeer => vec![97u8, 110u8, 110u8, 111u8, 117u8, 110u8, 99u8, 101u8, 95u8, 112u8, 101u8, 101u8, 114u8],
            QueryMethod::Unknown(n) => copy_bytes(n.as_slice()),
        };
        assert(r@ =~= method_name(*self));
        r
    }
}

/// Package payload in KRPC: a query (request), a response, or an error.
#[derive(Debug, PartialEq, Eq)]
pub enum PackagePayload {
    /// Request to a node: method and argument dictionary `a`.
    Query(QueryMethod, Value),
    /// Response to a request: the value dictionary `r`.
    Response(Value),
    /// Error: code and message.
    Error(i64, Vec<u8>),
}

/// KRPC package.
#[derive(Debug, PartialEq, Eq)]
pub struct Package {
    /// Transaction ID generated by the requester and echoed by the responder.
    pub transaction_id: Vec<u8>,
    /// Package payload.
    pub payload: PackagePayload,
    /// Optional version tag `v`, carried but not interpreted.
    pub version: Option<Vec<u8>>,
}

/// Model of a payload: the method is its wire name.
pub enum PayloadModel {
    Query(Seq<u8>, Bv),
    Response(Bv),
    Error(i64, Seq<u8>),
}

/// Model of a package.
pub struct PackageModel {
    pub transaction_id: Seq<u8>,
    pub payload: PayloadModel,
    pub version: Option<Seq<u8>>,
}

impl View for Package {
    type V = PackageModel;

    open spec fn view(&self) -> PackageModel {
        PackageModel {
            transaction_id: self.transaction_id@,
            payload: match self.payload {
                PackagePayload::Query(m, a) => PayloadModel::Query(method_name(m), a@),
                PackagePayload::Response(r) => PayloadModel::Response(r@),
                PackagePayload::Error(c, s) => PayloadModel::Error(c, s@),
            },
            version: match self.version {
                Some(v) => Some(v@),
                None => None,
            },
        }
    }
}

/// A package model that a sender may emit: a non-empty transaction ID, and
/// a payload whose dictionary meets its schema and is canonical.
pub open spec fn model_wf(m: PackageModel) -> bool {
    &&& m.transaction_id.len() > 0
    &&& match m.payload {
        PayloadModel::Query(n, a) => args_valid(n, a) && wf(a),
        PayloadModel::Response(r) => values_valid(r) && wf(r),
        PayloadModel::Error(_, _) => true,
    }
}

impl Package {
    /// Well-formed: the model is, and an unknown method does not carry the
    /// name of a known one.
    pub open spec fn wf(&self) -> bool {
        &&& model_wf(self@)
        &&& match self.payload {
            PackagePayload::Query(QueryMethod::Unknown(n), _) => !is_known_name(n@),
            _ => true,
        }
    }
}

/// The type tag `y` of a payload.
pub open spec fn kind_of(p: PayloadModel) -> u8 {
    match p {
        PayloadModel::Query(_, _) => 113u8,
        PayloadModel::Response(_) => 114u8,
        PayloadModel::Error(_, _) => 101u8,
    }
}

/// The entries that carry the payload itself.
pub open spec fn msg_head(p: PayloadModel) -> Seq<(Seq<u8>, Bv)> {
    match p {
        PayloadModel::Query(n, a) => seq![(seq![97u8], a), (seq![113u8], Bv::Bytes(n))],
        PayloadModel::Response(r) => seq![(seq![114u8], r)],
        PayloadModel::Error(c, s) => seq![(seq![101u8], Bv::List(seq![Bv::Int(c), Bv::Bytes(s)]))],
    }
}

/// Dictionary entries of a package, in key order `a e q r t v y`.
pub open spec fn msg_entries(m: PackageModel) -> Seq<(Seq<u8>, Bv)> {
    let ver = match m.version {
        Some(v) => seq![(seq![118u8], Bv::Bytes(v))],
        None => Seq::empty(),
    };
    msg_head(m.payload) + seq![(seq![116u8], Bv::Bytes(m.transaction_id))] + ver + seq![
        (seq![121u8], Bv::Bytes(seq![kind_of(m.payload)])),
    ]
}

/// The bencode dictionary that carries a package.
pub open spec fn msg_value(m: PackageModel) -> Bv {
    Bv::Dict(msg_entries(m))
}

/// What the decoder checks of a dictionary, entry by entry: the layout of
/// one of the three kinds, and the schema of its payload.
pub open spec fn shape_ok(s: Seq<(Seq<u8>, Bv)>) -> bool {
    let n = s.len();
    let kind = s[n - 1].1->Bytes_0[0];
    let has_v = s[n - 2].0 == seq![118u8];
    let base: int = if kind == 113u8 { 2 } else { 1 };
    &&& n >= 3
    &&& s[n - 1].0 == seq![121u8]
    &&& s[n - 1].1 is Bytes
    &&& s[n - 1].1->Bytes_0.len() == 1
    &&& (kind == 113u8 || kind == 114u8 || kind == 101u8)
    &&& n == base + 2 + if has_v { 1int } else { 0int }
    &&& has_v ==> s[n - 2].1 is Bytes
    &&& s[base].0 == seq![116u8]
    &&& s[base].1 is Bytes
    &&& s[base].1->Bytes_0.len() > 0
    &&& kind == 113u8 ==> {
        &&& s[0].0 == seq![97u8]
        &&& s[1].0 == seq![113u8]
        &&& s[1].1 is Bytes
        &&& args_valid(s[1].1->Bytes_0, s[0].1)
    }
    &&& kind == 114u8 ==> s[0].0 == seq![114u8] && values_valid(s[0].1)
    &&& kind == 101u8 ==> {
        &&& s[0].0 == seq![101u8]
        &&& s[0].1 is List
        &&& s[0].1->List_0.len() == 2
        &&& s[0].1->List_0[0] is Int
        &&& s[0].1->List_0[1] is Bytes
    }
}

/// Every well-formed package model lays out as the decoder expects.
pub proof fn lemma_msg_shape(m: PackageModel)
    requires
        model_wf(m),
    ensures
        shape_ok(msg_entries(m)),
{
    let s = msg_entries(m);
    let n = s.len();
    let t = (seq![116u8], Bv::Bytes(m.transaction_id));
    let y = (seq![121u8], Bv::Bytes(seq![kind_of(m.payload)]));
    let hv: int = if m.version is Some { 1 } else { 0 };
    let base: int = if m.payload is Query { 2 } else { 1 };
    assert(n == base + 2 + hv);
    assert(s[n - 1] == y);
    assert(s[base] == t);
    assert(seq![121u8] != seq![118u8]) by {
        assert(seq![121u8][0] != seq![118u8][0]);
    }
    assert(seq![116u8] != seq![118u8]) by {
        assert(seq![116u8][0] != seq![118u8][0]);
    }
    match m.version {
        Some(v) => {
            assert(s[n - 2] == (seq![118u8], Bv::Bytes(v)));
        },
        None => {
            assert(s[n - 2] == t);
        },
    }
}

/// Distinct package models are carried by distinct dictionaries: what the
/// decoder reads back from the dictionary of a package is that package.
pub proof fn lemma_msg_value_injective(m1: PackageModel, m2: PackageModel)
    requires
        msg_value(m1) == msg_value(m2),
    ensures
        m1 == m2,
{
    let s1 = msg_entries(m1);
    let s2 = msg_entries(m2);
    assert(s1 == s2);
    let n = s1.len();
    assert(s1[n - 1].1->Bytes_0[0] == kind_of(m1.payload));
    assert(s2[n - 1].1->Bytes_0[0] == kind_of(m2.payload));
    assert(seq![116u8] != seq![118u8]) by {
        assert(seq![116u8][0] != seq![118u8][0]);
    }
    let base: int = if m1.payload is Query { 2 } else { 1 };
    assert(m1.version is Some <==> s1[n - 2].0 == seq![118u8]);
    assert(m2.version is Some <==> s2[n - 2].0 == seq![118u8]);
    assert(s1[base] == s2[base]);
    match m1.version {
        Some(v) => {
            assert(s1[n - 2] == s2[n - 2]);
        },
        None => {},
    }
    match m1.payload {
        PayloadModel::Query(_, _) => {
            assert(s1[0] == s2[0]);
            assert(s1[1] == s2[1]);
        },
        PayloadModel::Response(_) => {
            assert(s1[0] == s2[0]);
        },
        PayloadModel::Error(_, _) => {
            assert(s1[0] == s2[0]);
            assert(s1[0].1->List_0[0] == s2[0].1->List_0[0]);
            assert(s1[0].1->List_0[1] == s2[0].1->List_0[1]);
        },
    }
}

/// Entry `i` of `d` has the one-byte key `c`.
fn key_is(d: &Vec<(Vec<u8>, Value)>, i: usize, c: u8) -> (r: bool)
    requires
        i < d.len(),
    ensures
        r == (d@[i as int].0@ == seq![c]),
{
    let r = d[i].0.len() == 1 && d[i].0[0] == c;
    proof {
        if d@[i as int].0@ == seq![c] {
            assert(d@[i as int].0@[0] == c);
        }
        if r {
            assert(d@[i as int].0@ =~= seq![c]);
        }
    }
    r
}


/// The payload's dictionary, if it has one, is canonical.
pub open spec fn payload_canonical(p: PayloadModel) -> bool {
    match p {
        PayloadModel::Query(_, a) => wf(a),
        PayloadModel::Response(r) => wf(r),
        PayloadModel::Error(_, _) => true,
    }
}

/// A package whose payload dictionary is canonical is carried by a
/// canonical dictionary: keys in strictly increasing byte order at every
/// depth.
pub proof fn lemma_msg_canonical(m: PackageModel)
    requires
        payload_canonical(m.payload),
    ensures
        wf(msg_value(m)),
{
    let s = msg_entries(m);
    let head = match m.payload {
        PayloadModel::Query(n, a) => seq![(seq![97u8], a), (seq![113u8], Bv::Bytes(n))],
        PayloadModel::Response(r) => seq![(seq![114u8], r)],
        PayloadModel::Error(c, e) => seq![(seq![101u8], Bv::List(seq![Bv::Int(c), Bv::Bytes(e)]))],
    };
    let t = (seq![116u8], Bv::Bytes(m.transaction_id));
    let y = (seq![121u8], Bv::Bytes(seq![kind_of(m.payload)]));
    match m.payload {
        PayloadModel::Query(n, a) => {
            lemma_wf_dict_push(Seq::empty(), head[0]);
            assert(Seq::<(Seq<u8>, Bv)>::empty().push(head[0]).push(head[1]) =~= head);
            lemma_wf_dict_push(Seq::empty().push(head[0]), head[1]);
        },
        PayloadModel::Response(r) => {
            lemma_wf_dict_push(Seq::empty(), head[0]);
            assert(Seq::<(Seq<u8>, Bv)>::empty().push(head[0]) =~= head);
        },
        PayloadModel::Error(c, e) => {
            lemma_wf_list_push(Seq::empty(), Bv::Int(c));
            lemma_wf_list_push(Seq::empty().push(Bv::Int(c)), Bv::Bytes(e));
            assert(Seq::<Bv>::empty().push(Bv::Int(c)).push(Bv::Bytes(e)) =~= seq![Bv::Int(c), Bv::Bytes(e)]);
            lemma_wf_dict_push(Seq::empty(), head[0]);
            assert(Seq::<(Seq<u8>, Bv)>::empty().push(head[0]) =~= head);
        },
    }
    lemma_wf_dict_push(head, t);
    let ver = match m.version {
        Some(v) => seq![(seq![118u8], Bv::Bytes(v))],
        None => Seq::empty(),
    };
    let ht = head.push(t);
    let htv = match m.version {
        Some(v) => ht.push((seq![118u8], Bv::Bytes(v))),
        None => ht,
    };
    match m.version {
        Some(v) => {
            lemma_wf_dict_push(ht, (seq![118u8], Bv::Bytes(v)));
        },
        None => {},
    }
    lemma_wf_dict_push(htv, y);
    assert(htv.push(y) =~= s);
    lemma_lex_single(97u8, 113u8);
    lemma_lex_single(113u8, 116u8);
    lemma_lex_single(114u8, 116u8);
    lemma_lex_single(101u8, 116u8);
    lemma_lex_single(116u8, 118u8);
    lemma_lex_single(118u8, 121u8);
    lemma_lex_single(116u8, 121u8);
    assert(keys_sorted(s));
}

/// Appends the entry `(k, v)` to a dictionary under construction.
fn push_entry(d: &mut Vec<(Vec<u8>, Value)>, k: Vec<u8>, v: Value)
    ensures
        view_dict(final(d)@) == view_dict(old(d)@).push((k@, v@)),
{
    proof {
        lemma_view_dict_push(d@, (k, v));
    }
    d.push((k, v));
}

impl Package {
    /// The bencode dictionary that carries this package.
    pub fn to_bencode(&self) -> (r: Value)
        requires
            payload_canonical(self@.payload),
        ensures
            r@ == msg_value(self@),
            wf(r@),
    {
        proof {
            lemma_msg_canonical(self@);
        }
        let mut d: Vec<(Vec<u8>, Value)> = Vec::new();
        assert(view_dict(d@) =~= Seq::empty());
        let kind: u8;
        match &self.payload {
            PackagePayload::Query(m, a) => {
                push_entry(&mut d, vec![97u8], copy_value(a));
                push_entry(&mut d, vec![113u8], Value::Bytes(m.name()));
                kind = 113u8;
                assert(kind == kind_of(self@.payload));
                assert(view_dict(d@) =~~= msg_head(self@.payload));
            },
            PackagePayload::Response(r) => {
                push_entry(&mut d, vec![114u8], copy_value(r));
                kind = 114u8;
                assert(kind == kind_of(self@.payload));
                assert(view_dict(d@) =~~= msg_head(self@.payload));
            },
            PackagePayload::Error(c, s) => {
                let l: Vec<Value> = vec![Value::Int(*c), Value::Bytes(copy_bytes(s.as_slice()))];
                proof {
                    lemma_view_list_index(l@);
                    assert(view_list(l@) =~= seq![Bv::Int(*c), Bv::Bytes(s@)]);
                }
                push_entry(&mut d, vec![101u8], Value::List(l));
                kind = 101u8;
                assert(kind == kind_of(self@.payload));
                assert(view_dict(d@) =~~= msg_head(self@.payload));
            },
        }
        let ghost head = view_dict(d@);
        push_entry(&mut d, vec![116u8], Value::Bytes(copy_bytes(self.transaction_id.as_slice())));
        let ghost ht = view_dict(d@);
        match &self.version {
            Some(v) => {
                push_entry(&mut d, vec![118u8], Value::Bytes(copy_bytes(v.as_slice())));
            },
            None => {},
        }
        let ghost htv = view_dict(d@);
        assert(ht =~~= head + seq![(seq![116u8], Bv::Bytes(self@.transaction_id))]);
        assert(htv =~~= ht + match self@.version {
            Some(v) => seq![(seq![118u8], Bv::Bytes(v))],
            None => Seq::empty(),
        });
        let tag: Vec<u8> = vec![kind];
        assert(tag@ =~= seq![kind_of(self@.payload)]);
        push_entry(&mut d, vec![121u8], Value::Bytes(tag));
        proof {
            assert(view_dict(d@) =~~= htv.push((seq![121u8], Bv::Bytes(seq![kind_of(self@.payload)]))));
            assert(view_dict(d@) =~~= msg_entries(self@));
        }
        Value::Dict(d)
    }

    /// The wire form of this well-formed package: all dictionary keys, at
    /// every depth, come out in strictly increasing byte order.
    pub fn encode(&self) -> (r: Vec<u8>)
        requires
            self.wf(),
        ensures
            r@ == enc(msg_value(self@)),
            wf(msg_value(self@)),
    {
        let v = self.to_bencode();
        encode(&v)
    }
}


/// One of the top-level keys `a e q r t v y`.
pub open spec fn top_level_key(k: Seq<u8>) -> bool {
    k.len() == 1 && (k[0] == 97u8 || k[0] == 101u8 || k[0] == 113u8 || k[0] == 114u8 || k[0] == 116u8
        || k[0] == 118u8 || k[0] == 121u8)
}

/// Whether every key of `d` is a top-level key.
fn known_keys(d: &Vec<(Vec<u8>, Value)>) -> (r: bool)
    ensures
        r == forall|i: int| 0 <= i < d.len() ==> top_level_key(#[trigger] d@[i].0@),
{
    let mut i: usize = 0;
    while i < d.len()
        invariant
            i <= d.len(),
            forall|j: int| 0 <= j < i ==> top_level_key(#[trigger] d@[j].0@),
        decreases d.len() - i,
    {
        let k = &d[i].0;
        if k.len() != 1 {
            return false;
        }
        let c = k[0];
        if c != 97u8 && c != 101u8 && c != 113u8 && c != 114u8 && c != 116u8 && c != 118u8 && c != 121u8 {
            return false;
        }
        i = i + 1;
    }
    true
}

pub proof fn lemma_lookup_present(d: Seq<(Seq<u8>, Bv)>, k: Seq<u8>, i: int)
    requires
        0 <= i < d.len(),
        d[i].0 == k,
    ensures
        lookup(d, k) is Some,
    decreases d.len(),
{
    if d[d.len() - 1].0 != k {
        let t = d.subrange(0, d.len() - 1);
        assert(t[i] == d[i]);
        lemma_lookup_present(t, k, i);
    }
}

/// Every key of `d` is a top-level key, and the mandatory field `k` is
/// absent.
pub open spec fn lacks_field(d: Seq<(Seq<u8>, Bv)>, k: Seq<u8>) -> bool {
    &&& forall|i: int| 0 <= i < d.len() ==> top_level_key(#[trigger] d[i].0)
    &&& lookup(d, k) is None
}

/// `e` reports the field `k` as missing.
pub open spec fn missing(e: DecodeError, k: Seq<u8>) -> bool {
    e is MissingField && e->MissingField_0@ == k
}

/// Names the first thing wrong with a dictionary that does not lay out as
/// a package: a foreign key, then a missing field, then a bad type tag.
fn diagnose(d: &Vec<(Vec<u8>, Value)>) -> DecodeError {
    let mut i: usize = 0;
    while i < d.len()
        invariant
            i <= d.len(),
        decreases d.len() - i,
    {
        let k = &d[i].0;
        if k.len() != 1 {
            return DecodeError::UnknownTopLevelKey;
        }
        let c = k[0];
        if c != 97u8 && c != 101u8 && c != 113u8 && c != 114u8 && c != 116u8 && c != 118u8 && c != 121u8 {
            return DecodeError::UnknownTopLevelKey;
        }
        i = i + 1;
    }
    let t: Vec<u8> = vec![116u8];
    if dict_get(d, t.as_slice()).is_none() {
        return DecodeError::MissingField(t);
    }
    let y: Vec<u8> = vec![121u8];
    let needed: Vec<u8> = match dict_get(d, y.as_slice()) {
        None => return DecodeError::MissingField(y),
        Some(Value::Bytes(b)) => {
            if b.len() != 1 {
                return DecodeError::TypeMismatch(y);
            }
            if b[0] == 113u8 {
                if dict_get(d, vec![113u8].as_slice()).is_none() {
                    return DecodeError::MissingField(vec![113u8]);
                }
                vec![97u8]
            } else if b[0] == 114u8 || b[0] == 101u8 {
                vec![b[0]]
            } else {
                return DecodeError::TypeMismatch(y);
            }
        },
        Some(_) => return DecodeError::TypeMismatch(y),
    };
    if dict_get(d, needed.as_slice()).is_none() {
        return DecodeError::MissingField(needed);
    }
    DecodeError::UnknownTopLevelKey
}

/// Reads a package out of a canonical bencode value. It succeeds exactly
/// when the value lays out as a package whose payload meets its schema, and
/// then the package is carried by that very value.
fn from_value(v: Value) -> (r: Result<Package, DecodeError>)
    requires
        wf(v@),
    ensures
        r is Ok ==> r->Ok_0.wf() && msg_value(r->Ok_0@) == v@,
        r is Ok <==> (v@ is Dict && shape_ok(v@->Dict_0)),
        !(v@ is Dict) ==> r is Err && r->Err_0 is TypeMismatch,
        v@ is Dict && !(forall|i: int| 0 <= i < v@->Dict_0.len() ==> top_level_key(#[trigger] v@->Dict_0[i].0))
            ==> r == Err::<Package, DecodeError>(DecodeError::UnknownTopLevelKey),
        v@ is Dict && lacks_field(v@->Dict_0, seq![116u8]) ==> r is Err && missing(r->Err_0, seq![116u8]),
        v@ is Dict && lookup(v@->Dict_0, seq![116u8]) is Some && lacks_field(v@->Dict_0, seq![121u8]) ==> r is Err
            && missing(r->Err_0, seq![121u8]),
{
    let ghost vv = v@;
    let mut d = match v {
        Value::Dict(d) => d,
        _ => return Err(DecodeError::TypeMismatch(Vec::new())),
    };
    let ghost d0 = d@;
    let ghost s = view_dict(d0);
    proof {
        lemma_view_dict_index(d0);
        lemma_wf_dict_index(s);
    }
    if !known_keys(&d) {
        proof {
            if lacks_field(s, seq![116u8]) || lacks_field(s, seq![121u8]) {
                assert forall|i: int| 0 <= i < d0.len() implies top_level_key(#[trigger] d0[i].0@) by {
                    assert(s[i].0 == d0[i].0@);
                }
            }
            assert forall|i: int| 0 <= i < s.len() implies s[i].0 == d0[i].0@ by {}
            if shape_ok(s) {
                let n = s.len();
                let kind = s[n - 1].1->Bytes_0[0];
                let has_v = s[n - 2].0 == seq![118u8];
                assert forall|i: int| 0 <= i < d0.len() implies top_level_key(#[trigger] d0[i].0@) by {
                    assert(s[i].0 == d0[i].0@);
                    if kind == 113u8 {
                        assert(i == 0 || i == 1 || i == 2 || i == n - 1 || (has_v && i == n - 2));
                    } else {
                        assert(i == 0 || i == 1 || i == n - 1 || (has_v && i == n - 2));
                    }
                }
            }
        }
        return Err(DecodeError::UnknownTopLevelKey);
    }
    proof {
        assert forall|i: int| 0 <= i < s.len() implies top_level_key(#[trigger] s[i].0) by {
            assert(s[i].0 == d0[i].0@);
        }
    }
    let kt: Vec<u8> = vec![116u8];
    let ky: Vec<u8> = vec![121u8];
    assert(kt@ =~= seq![116u8]);
    assert(ky@ =~= seq![121u8]);
    let t_absent = dict_get(&d, kt.as_slice()).is_none();
    if t_absent {
        proof {
            if shape_ok(s) {
                let n = s.len();
                let base: int = if s[n - 1].1->Bytes_0[0] == 113u8 { 2 } else { 1 };
                lemma_lookup_present(s, seq![116u8], base);
            }
        }
        return Err(DecodeError::MissingField(kt));
    }
    if dict_get(&d, ky.as_slice()).is_none() {
        proof {
            if shape_ok(s) {
                lemma_lookup_present(s, seq![121u8], s.len() - 1);
            }
        }
        return Err(DecodeError::MissingField(ky));
    }
    let n: usize = d.len();
    if n < 3 {
        return Err(diagnose(&d));
    }
    if !key_is(&d, n - 1, 121u8) {
        return Err(diagnose(&d));
    }
    let kind: u8 = match &d[n - 1].1 {
        Value::Bytes(b) => {
            if b.len() != 1 {
                return Err(DecodeError::TypeMismatch(vec![121u8]));
            }
            assert(b@ =~= seq![b@[0]]);
            b[0]
        },
        _ => return Err(DecodeError::TypeMismatch(vec![121u8])),
    };
    if kind != 113u8 && kind != 114u8 && kind != 101u8 {
        return Err(DecodeError::TypeMismatch(vec![121u8]));
    }
    let has_v = key_is(&d, n - 2, 118u8);
    let base: usize = if kind == 113u8 { 2 } else { 1 };
    let expect: usize = if has_v { base + 3 } else { base + 2 };
    if n != expect || !key_is(&d, base, 116u8) {
        return Err(diagnose(&d));
    }
    let head_ok = if kind == 113u8 {
        key_is(&d, 0, 97u8) && key_is(&d, 1, 113u8)
    } else {
        key_is(&d, 0, kind)
    };
    if !head_ok {
        return Err(diagnose(&d));
    }
    assert(s[n - 1] == (seq![121u8], Bv::Bytes(seq![kind])));
    let _ = d.pop();
    let version: Option<Vec<u8>> = if has_v {
        match d.pop() {
            Some((_, Value::Bytes(b))) => {
                assert(s[n - 2] == (seq![118u8], Bv::Bytes(b@)));
                Some(b)
            },
            _ => return Err(DecodeError::TypeMismatch(vec![118u8])),
        }
    } else {
        None
    };
    let tid: Vec<u8> = match d.pop() {
        Some((_, Value::Bytes(b))) => {
            if b.len() == 0 {
                return Err(DecodeError::LengthMismatch(vec![116u8], 1, 0));
            }
            assert(s[base as int] == (seq![116u8], Bv::Bytes(b@)));
            b
        },
        _ => return Err(DecodeError::TypeMismatch(vec![116u8])),
    };
    let payload: PackagePayload = if kind == 113u8 {
        let name: Vec<u8> = match d.pop() {
            Some((_, Value::Bytes(b))) => {
                assert(s[1] == (seq![113u8], Bv::Bytes(b@)));
                b
            },
            _ => return Err(DecodeError::TypeMismatch(vec![113u8])),
        };
        let args: Value = match d.pop() {
            Some((_, a)) => {
                assert(s[0] == (seq![97u8], a@));
                a
            },
            None => return Err(DecodeError::MissingField(vec![97u8])),
        };
        check_args(name.as_slice(), &args)?;
        PackagePayload::Query(QueryMethod::from_name(name), args)
    } else if kind == 114u8 {
        let vals: Value = match d.pop() {
            Some((_, r)) => {
                assert(s[0] == (seq![114u8], r@));
                r
            },
            None => return Err(DecodeError::MissingField(vec![114u8])),
        };
        check_values(&vals)?;
        PackagePayload::Response(vals)
    } else {
        let mut l: Vec<Value> = match d.pop() {
            Some((_, Value::List(l))) => {
                assert(s[0] == (seq![101u8], Bv::List(view_list(l@))));
                l
            },
            _ => return Err(DecodeError::TypeMismatch(vec![101u8])),
        };
        proof {
            lemma_view_list_index(l@);
        }
        if l.len() != 2 {
            return Err(DecodeError::TypeMismatch(vec![101u8]));
        }
        let ghost l0 = l@;
        let msg: Vec<u8> = match l.pop() {
            Some(Value::Bytes(b)) => b,
            _ => return Err(DecodeError::TypeMismatch(vec![101u8])),
        };
        let code: i64 = match l.pop() {
            Some(Value::Int(c)) => c,
            _ => return Err(DecodeError::TypeMismatch(vec![101u8])),
        };
        proof {
            assert(view_list(l0) =~= seq![Bv::Int(code), Bv::Bytes(msg@)]);
        }
        PackagePayload::Error(code, msg)
    };
    let p = Package { transaction_id: tid, payload, version };
    proof {
        assert(msg_entries(p@) =~~= s);
    }
    Ok(p)
}

impl Package {
    /// Decodes a datagram. It succeeds exactly on the encodings of
    /// well-formed packages, and then gives back the package encoded.
    pub fn decode(b: &[u8]) -> (r: Result<Package, DecodeError>)
        ensures
            r is Ok ==> r->Ok_0.wf() && enc(msg_value(r->Ok_0@)) == b@,
            forall|m: PackageModel| #[trigger] enc(msg_value(m)) == b@ && model_wf(m) ==> r is Ok && r->Ok_0@ == m,
            forall|v: Bv|
                #[trigger] enc(v) == b@ && wf(v) && v is Dict && !(forall|i: int|
                    0 <= i < v->Dict_0.len() ==> top_level_key(#[trigger] v->Dict_0[i].0)) ==> r
                    == Err::<Package, DecodeError>(DecodeError::UnknownTopLevelKey),
            forall|v: Bv|
                #[trigger] enc(v) == b@ && wf(v) && !(v is Dict) ==> r is Err && r->Err_0 is TypeMismatch,
            forall|v: Bv|
                #[trigger] enc(v) == b@ && wf(v) && v is Dict && lacks_field(v->Dict_0, seq![116u8]) ==> r is Err
                    && missing(r->Err_0, seq![116u8]),
            forall|v: Bv|
                #[trigger] enc(v) == b@ && wf(v) && v is Dict && lookup(v->Dict_0, seq![116u8]) is Some
                    && lacks_field(v->Dict_0, seq![121u8]) ==> r is Err && missing(r->Err_0, seq![121u8]),
    {
        let v = match decode(b) {
            Ok(v) => v,
            Err(e) => {
                proof {
                    assert forall|m: PackageModel| #[trigger] enc(msg_value(m)) == b@ && model_wf(m) implies false by {
                        lemma_msg_canonical(m);
                    }
                }
                return Err(e);
            },
        };
        proof {
            assert forall|m: PackageModel| #[trigger] enc(msg_value(m)) == b@ && model_wf(m) implies v@ == msg_value(m) && v@ is Dict && shape_ok(v@->Dict_0) by {
                lemma_msg_canonical(m);
                lemma_msg_shape(m);
            }
        }
        let r = from_value(v);
        proof {
            assert forall|m: PackageModel| #[trigger] enc(msg_value(m)) == b@ && model_wf(m) implies r is Ok && r->Ok_0@ == m by {
                lemma_msg_value_injective(r->Ok_0@, m);
            }
        }
        r
    }
}

/// Standard error codes.
pub const ERROR_GENERIC: i64 = 201;
pub const ERROR_SERVER: i64 = 202;
pub const ERROR_PROTOCOL: i64 = 203;
pub const ERROR_METHOD_UNKNOWN: i64 = 204;

pub open spec fn text_protocol_error() -> Seq<u8> {
    seq![80u8, 114u8, 111u8, 116u8, 111u8, 99u8, 111u8, 108u8, 32u8, 69u8, 114u8, 114u8, 111u8, 114u8]
}

pub open spec fn text_method_unknown() -> Seq<u8> {
    seq![77u8, 101u8, 116u8, 104u8, 111u8, 100u8, 32u8, 85u8, 110u8, 107u8, 110u8, 111u8, 119u8, 110u8]
}

/// `b` encodes `v`, a canonical dictionary with a non-empty byte-string
/// `t` and with `y` = `q`.
pub open spec fn query_value(v: Bv, b: Seq<u8>) -> bool {
    &&& wf(v)
    &&& enc(v) == b
    &&& v is Dict
    &&& lookup(v->Dict_0, seq![121u8]) == Some(Bv::Bytes(seq![113u8]))
    &&& is_bytes(lookup(v->Dict_0, seq![116u8]))
    &&& lookup(v->Dict_0, seq![116u8])->0->Bytes_0.len() > 0
}

/// The bytes carry a query that can be answered.
pub open spec fn answerable_query(b: Seq<u8>) -> bool {
    exists|v: Bv| #[trigger] query_value(v, b)
}

/// The transaction ID that an answerable query carries.
pub open spec fn query_tid(b: Seq<u8>) -> Seq<u8> {
    let v = choose|v: Bv| #[trigger] query_value(v, b);
    lookup(v->Dict_0, seq![116u8])->0->Bytes_0
}

/// `b` is the encoding of a well-formed package.
pub open spec fn encodes_package(b: Seq<u8>) -> bool {
    exists|m: PackageModel| #[trigger] enc(msg_value(m)) == b && model_wf(m)
}

/// Only the value that `b` encodes can be the query value of `b`.
pub proof fn lemma_query_value_unique(b: Seq<u8>, v: Bv)
    requires
        wf(v),
        enc(v) == b,
    ensures
        forall|w: Bv| #[trigger] query_value(w, b) ==> w == v,
{
    assert forall|w: Bv| #[trigger] query_value(w, b) implies w == v by {
        assert(enc(w) + Seq::<u8>::empty() =~= enc(v) + Seq::<u8>::empty());
        lemma_enc_prefix_free(w, v, Seq::<u8>::empty(), Seq::<u8>::empty());
    }
}

/// The reply owed to a datagram that fails to decode as a package: error
/// 203 with the query's transaction ID where the datagram is an answerable
/// query, and none otherwise.
pub fn protocol_error_reply(b: &[u8]) -> (r: Option<Package>)
    ensures
        r is Some <==> answerable_query(b@) && !encodes_package(b@),
        r is Some ==> r->0@ == (PackageModel {
            transaction_id: query_tid(b@),
            payload: PayloadModel::Error(ERROR_PROTOCOL, text_protocol_error()),
            version: None,
        }),
{
    match Package::decode(b) {
        Ok(p) => {
            assert(enc(msg_value(p@)) == b@ && model_wf(p@));
            return None;
        },
        Err(_) => {},
    }
    let v = match decode(b) {
        Ok(v) => v,
        Err(_) => return None,
    };
    proof {
        lemma_query_value_unique(b@, v@);
    }
    let d = match &v {
        Value::Dict(d) => d,
        _ => return None,
    };
    let ky: Vec<u8> = vec![121u8];
    let kt: Vec<u8> = vec![116u8];
    assert(ky@ =~= seq![121u8]);
    assert(kt@ =~= seq![116u8]);
    let tag_ok = match dict_get(d, ky.as_slice()) {
        Some(Value::Bytes(y)) => {
            proof {
                if y@ == seq![113u8] {
                    assert(y@.len() == 1 && y@[0] == 113u8);
                }
            }
            y.len() == 1 && y[0] == 113u8
        },
        _ => false,
    };
    if !tag_ok {
        return None;
    }
    let tid = match dict_get(d, kt.as_slice()) {
        Some(Value::Bytes(t)) => {
            if t.len() == 0 {
                return None;
            }
            copy_bytes(t.as_slice())
        },
        _ => {
            return None;
        },
    };
    let text: Vec<u8> = vec![80u8, 114u8, 111u8, 116u8, 111u8, 99u8, 111u8, 108u8, 32u8, 69u8, 114u8, 114u8, 111u8, 114u8];
    proof {
        assert(text@ =~= text_protocol_error());
        let yv = lookup(view_dict(d@), seq![121u8]);
        assert(yv->0->Bytes_0 =~= seq![113u8]);
        assert(query_value(v@, b@));
    }
    Some(Package { transaction_id: tid, payload: PackagePayload::Error(ERROR_PROTOCOL, text), version: None })
}

/// The reply owed to an inbound query whose method is unknown: error 204
/// with the query's transaction ID; none for any other package.
pub fn unknown_method_reply(p: &Package) -> (r: Option<Package>)
    ensures
        r is Some <==> (p.payload is Query && p.payload->Query_0 is Unknown),
        r is Some ==> r->0@ == (PackageModel {
            transaction_id: p.transaction_id@,
            payload: PayloadModel::Error(ERROR_METHOD_UNKNOWN, text_method_unknown()),
            version: None,
        }),
{
    match &p.payload {
        PackagePayload::Query(QueryMethod::Unknown(_), _) => {
            let text: Vec<u8> = vec![77u8, 101u8, 116u8, 104u8, 111u8, 100u8, 32u8, 85u8, 110u8, 107u8, 110u8, 111u8, 119u8, 110u8];
            assert(text@ =~= text_method_unknown());
            Some(
                Package {
                    transaction_id: copy_bytes(p.transaction_id.as_slice()),
                    payload: PackagePayload::Error(ERROR_METHOD_UNKNOWN, text),
                    version: None,
                },
            )
        },
        _ => None,
    }
}

/// Decoding what a well-formed package encodes to gives that package back:
/// its dictionary is canonical and lays out as the decoder expects, and no
/// other package has the same encoding.
pub proof fn lemma_package_round_trip(m: PackageModel, other: PackageModel)
    requires
        model_wf(m),
    ensures
        wf(msg_value(m)),
        shape_ok(msg_entries(m)),
        enc(msg_value(other)) == enc(msg_value(m)) ==> other == m,
{
    lemma_msg_canonical(m);
    lemma_msg_shape(m);
    if enc(msg_value(other)) == enc(msg_value(m)) {
        assert(enc(msg_value(other)) + Seq::<u8>::empty() =~= enc(msg_value(m)) + Seq::<u8>::empty());
        lemma_enc_prefix_free(msg_value(other), msg_value(m), Seq::<u8>::empty(), Seq::<u8>::empty());
        lemma_msg_value_injective(other, m);
    }
}

/// Big-endian value of the four bytes of `b` at `i`.
pub open spec fn be32(b: Seq<u8>, i: int) -> int {
    b[i] * 16777216 + b[i + 1] * 65536 + b[i + 2] * 256 + b[i + 3]
}

/// Big-endian value of the two bytes of `b` at `i`.
pub open spec fn be16(b: Seq<u8>, i: int) -> int {
    b[i] * 256 + b[i + 1]
}

/// A node as compact node info names it.
#[derive(Debug, PartialEq, Eq)]
pub struct NodeInfo {
    /// The 20-byte node ID.
    pub id: Vec<u8>,
    pub endpoint: Endpoint,
}

/// Reads the compact peer info (IPv4 address, then port, big-endian) at `i`.
pub fn parse_peer_at(b: &[u8], i: usize) -> (r: Endpoint)
    requires
        i + 6 <= b.len(),
    ensures
        r.ip == be32(b@, i as int),
        r.port == be16(b@, i + 4),
{
    let a0 = b[i] as u32;
    let a1 = b[i + 1] as u32;
    let a2 = b[i + 2] as u32;
    let a3 = b[i + 3] as u32;
    let p0 = b[i + 4] as u16;
    let p1 = b[i + 5] as u16;
    assert(a0 * 16777216 + a1 * 65536 + a2 * 256 + a3 <= u32::MAX) by (nonlinear_arith)
        requires
            a0 <= 255,
            a1 <= 255,
            a2 <= 255,
            a3 <= 255,
    ;
    assert(p0 * 256 + p1 <= u16::MAX) by (nonlinear_arith)
        requires
            p0 <= 255,
            p1 <= 255,
    ;
    Endpoint { ip: a0 * 16777216 + a1 * 65536 + a2 * 256 + a3, port: p0 * 256 + p1 }
}

/// Splits compact node infos (26 bytes each: node ID, address, port) into
/// nodes, in order. Refuses a length that is not a multiple of 26.
pub fn parse_nodes(b: &[u8]) -> (r: Option<Vec<NodeInfo>>)
    ensures
        r is Some <==> b.len() % 26 == 0,
        r is Some ==> {
            let v = r->0;
            &&& v.len() * 26 == b.len()
            &&& forall|k: int|
                0 <= k < v.len() ==> {
                    &&& (#[trigger] v@[k]).id@ == b@.subrange(26 * k, 26 * k + 20)
                    &&& v@[k].endpoint.ip == be32(b@, 26 * k + 20)
                    &&& v@[k].endpoint.port == be16(b@, 26 * k + 24)
                }
        },
{
    if b.len() % 26 != 0 {
        return None;
    }
    let mut out: Vec<NodeInfo> = Vec::new();
    let mut p: usize = 0;
    while p < b.len()
        invariant
            b.len() % 26 == 0,
            p <= b.len(),
            p == 26 * out.len(),
            forall|k: int|
                0 <= k < out.len() ==> {
                    &&& (#[trigger] out@[k]).id@ == b@.subrange(26 * k, 26 * k + 20)
                    &&& out@[k].endpoint.ip == be32(b@, 26 * k + 20)
                    &&& out@[k].endpoint.port == be16(b@, 26 * k + 24)
                },
        decreases b.len() - p,
    {
        let id = copy_bytes(vstd::slice::slice_subrange(b, p, p + 20));
        let endpoint = parse_peer_at(b, p + 20);
        out.push(NodeInfo { id, endpoint });
        p = p + 26;
    }
    Some(out)
}

} // verus!
