//! Bencode values, their canonical byte form, and a strict decoder that
//! accepts exactly the canonical encodings.
use vstd::prelude::*;

verus! {

/// Mathematical model of a bencode value.
pub enum Bv {
    Int(i64),
    Bytes(Seq<u8>),
    List(Seq<Bv>),
    Dict(Seq<(Seq<u8>, Bv)>),
}

/// A bencode value. Dictionary entries are held in the order in which they
/// are emitted; a well-formed value keeps them strictly sorted by key bytes.
#[derive(Debug, PartialEq, Eq)]
pub enum Value {
    Int(i64),
    Bytes(Vec<u8>),
    List(Vec<Value>),
    Dict(Vec<(Vec<u8>, Value)>),
}

pub open spec fn view_list(s: Seq<Value>) -> Seq<Bv>
    decreases s,
{
    if s.len() == 0 {
        Seq::empty()
    } else {
        view_list(s.subrange(0, s.len() - 1)).push(view_value(s[s.len() - 1]))
    }
}

pub open spec fn view_dict(s: Seq<(Vec<u8>, Value)>) -> Seq<(Seq<u8>, Bv)>
    decreases s,
{
    if s.len() == 0 {
        Seq::empty()
    } else {
        view_dict(s.subrange(0, s.len() - 1)).push((s[s.len() - 1].0@, view_value(s[s.len() - 1].1)))
    }
}

pub open spec fn view_value(v: Value) -> Bv
    decreases v,
{
    match v {
        Value::Int(n) => Bv::Int(n),
        Value::Bytes(b) => Bv::Bytes(b@),
        Value::List(l) => Bv::List(view_list(l@)),
        Value::Dict(d) => Bv::Dict(view_dict(d@)),
    }
}

impl View for Value {
    type V = Bv;

    open spec fn view(&self) -> Bv {
        view_value(*self)
    }
}

/// Strict lexicographic order on raw bytes.
pub open spec fn lex_lt(a: Seq<u8>, b: Seq<u8>) -> bool
    decreases a.len(),
{
    if b.len() == 0 {
        false
    } else if a.len() == 0 {
        true
    } else if a[0] != b[0] {
        a[0] < b[0]
    } else {
        lex_lt(a.drop_first(), b.drop_first())
    }
}

/// Decimal digits of a natural number, without leading zeros.
pub open spec fn dec_nat(n: nat) -> Seq<u8>
    decreases n,
{
    if n < 10 {
        seq![(n + 48) as u8]
    } else {
        dec_nat(n / 10).push((n % 10 + 48) as u8)
    }
}

/// Decimal form of an integer: an optional minus sign, then the digits.
pub open spec fn dec_int(n: int) -> Seq<u8> {
    if n < 0 {
        seq![45u8] + dec_nat((-n) as nat)
    } else {
        dec_nat(n as nat)
    }
}

/// `<len>:<bytes>`
pub open spec fn enc_bytes(b: Seq<u8>) -> Seq<u8> {
    dec_nat(b.len()) + seq![58u8] + b
}

pub open spec fn enc_list(s: Seq<Bv>) -> Seq<u8>
    decreases s,
{
    if s.len() == 0 {
        Seq::empty()
    } else {
        enc_list(s.subrange(0, s.len() - 1)) + enc(s[s.len() - 1])
    }
}

pub open spec fn enc_dict(s: Seq<(Seq<u8>, Bv)>) -> Seq<u8>
    decreases s,
{
    if s.len() == 0 {
        Seq::empty()
    } else {
        enc_dict(s.subrange(0, s.len() - 1)) + enc_bytes(s[s.len() - 1].0) + enc(s[s.len() - 1].1)
    }
}

/// The bencoding of a value: `i<n>e`, `<len>:<bytes>`, `l<items>e`,
/// `d<key><value>...e` with entries in their stored order.
pub open spec fn enc(v: Bv) -> Seq<u8>
    decreases v,
{
    match v {
        Bv::Int(n) => seq![105u8] + dec_int(n as int) + seq![101u8],
        Bv::Bytes(b) => enc_bytes(b),
        Bv::List(l) => seq![108u8] + enc_list(l) + seq![101u8],
        Bv::Dict(d) => seq![100u8] + enc_dict(d) + seq![101u8],
    }
}

/// Keys strictly increasing in raw byte order.
pub open spec fn keys_sorted(d: Seq<(Seq<u8>, Bv)>) -> bool {
    forall|i: int| 0 < i < d.len() ==> lex_lt(#[trigger] d[i - 1].0, d[i].0)
}

pub open spec fn wf_list(s: Seq<Bv>) -> bool
    decreases s,
{
    s.len() > 0 ==> wf_list(s.subrange(0, s.len() - 1)) && wf(s[s.len() - 1])
}

pub open spec fn wf_dict(s: Seq<(Seq<u8>, Bv)>) -> bool
    decreases s,
{
    s.len() > 0 ==> wf_dict(s.subrange(0, s.len() - 1)) && wf(s[s.len() - 1].1)
}

/// Well-formed: every dictionary, at any depth, has strictly sorted keys.
pub open spec fn wf(v: Bv) -> bool
    decreases v,
{
    match v {
        Bv::List(l) => wf_list(l),
        Bv::Dict(d) => keys_sorted(d) && wf_dict(d),
        _ => true,
    }
}


pub proof fn lemma_view_list_step(s: Seq<Value>, i: int)
    requires
        0 <= i < s.len(),
    ensures
        view_list(s.subrange(0, i + 1)) == view_list(s.subrange(0, i)).push(view_value(s[i])),
{
    let t = s.subrange(0, i + 1);
    assert(t.subrange(0, t.len() - 1) =~= s.subrange(0, i));
}

pub proof fn lemma_view_dict_step(s: Seq<(Vec<u8>, Value)>, i: int)
    requires
        0 <= i < s.len(),
    ensures
        view_dict(s.subrange(0, i + 1)) == view_dict(s.subrange(0, i)).push(
            (s[i].0@, view_value(s[i].1)),
        ),
{
    let t = s.subrange(0, i + 1);
    assert(t.subrange(0, t.len() - 1) =~= s.subrange(0, i));
}

pub proof fn lemma_enc_list_push(s: Seq<Bv>, x: Bv)
    ensures
        enc_list(s.push(x)) == enc_list(s) + enc(x),
{
    let t = s.push(x);
    assert(t.subrange(0, t.len() - 1) =~= s);
}

pub proof fn lemma_enc_dict_push(s: Seq<(Seq<u8>, Bv)>, k: Seq<u8>, x: Bv)
    ensures
        enc_dict(s.push((k, x))) == enc_dict(s) + enc_bytes(k) + enc(x),
{
    let t = s.push((k, x));
    assert(t.subrange(0, t.len() - 1) =~= s);
}

/// Appends the decimal digits of `n`.
fn write_nat(n: u64, out: &mut Vec<u8>)
    ensures
        final(out)@ == old(out)@ + dec_nat(n as nat),
    decreases n,
{
    if n >= 10 {
        write_nat(n / 10, out);
    }
    out.push((n % 10 + 48) as u8);
    assert(final(out)@ =~= old(out)@ + dec_nat(n as nat));
}

/// Appends `i<n>e`.
fn write_int(n: i64, out: &mut Vec<u8>)
    ensures
        final(out)@ == old(out)@ + enc(Bv::Int(n)),
{
    out.push(105u8);
    if n < 0 {
        out.push(45u8);
        let m: u64 = if n == i64::MIN {
            9223372036854775808u64
        } else {
            (-n) as u64
        };
        write_nat(m, out);
    } else {
        write_nat(n as u64, out);
    }
    out.push(101u8);
    assert(final(out)@ =~= old(out)@ + enc(Bv::Int(n)));
}

/// Appends `<len>:<bytes>`.
fn write_bytes(b: &[u8], out: &mut Vec<u8>)
    ensures
        final(out)@ == old(out)@ + enc_bytes(b@),
{
    write_nat(b.len() as u64, out);
    out.push(58u8);
    let mut i: usize = 0;
    let ghost mid = out@;
    while i < b.len()
        invariant
            i <= b.len(),
            out@ == mid + b@.subrange(0, i as int),
        decreases b.len() - i,
    {
        out.push(b[i]);
        i = i + 1;
        assert(out@ =~= mid + b@.subrange(0, i as int));
    }
    assert(b@.subrange(0, b.len() as int) =~= b@);
    assert(final(out)@ =~= old(out)@ + enc_bytes(b@));
}

/// Appends the bencoding of the canonical value `v`.
pub fn encode_into(v: &Value, out: &mut Vec<u8>)
    requires
        wf(v@),
    ensures
        final(out)@ == old(out)@ + enc(v@),
    decreases v,
{
    broadcast use vstd::std_specs::vec::group_vec_axioms;
    match v {
        Value::Int(n) => write_int(*n, out),
        Value::Bytes(b) => write_bytes(b.as_slice(), out),
        Value::List(l) => {
            out.push(108u8);
            let ghost pre = out@;
            let mut i: usize = 0;
            while i < l.len()
                invariant
                    i <= l.len(),
                    *v == Value::List(*l),
                    wf(v@),
                    out@ == pre + enc_list(view_list(l@.subrange(0, i as int))),
                decreases l.len() - i,
            {
                proof {
                    lemma_view_list_step(l@, i as int);
                    lemma_enc_list_push(view_list(l@.subrange(0, i as int)), view_value(l@[i as int]));
                    lemma_view_list_index(l@);
                    lemma_wf_list_index(view_list(l@));
                    assert(wf(view_list(l@)[i as int]));
                }
                proof {
                    assert(decreases_to!(*v => (*v)->List_0));
                    assert(decreases_to!(*v => *l));
                    assert(decreases_to!(*l => l@));
                    assert(decreases_to!(l@ => l@[i as int]));
                    assert(decreases_to!(*v => l@[i as int]));
                }
                encode_into(&l[i], out);
                i = i + 1;
                assert(out@ =~= pre + enc_list(view_list(l@.subrange(0, i as int))));
            }
            assert(l@.subrange(0, l.len() as int) =~= l@);
            out.push(101u8);
            assert(final(out)@ =~= old(out)@ + enc(v@));
        },
        Value::Dict(d) => {
            out.push(100u8);
            let ghost pre = out@;
            let mut i: usize = 0;
            while i < d.len()
                invariant
                    i <= d.len(),
                    *v == Value::Dict(*d),
                    wf(v@),
                    out@ == pre + enc_dict(view_dict(d@.subrange(0, i as int))),
                decreases d.len() - i,
            {
                proof {
                    lemma_view_dict_step(d@, i as int);
                    lemma_enc_dict_push(
                        view_dict(d@.subrange(0, i as int)),
                        d@[i as int].0@,
                        view_value(d@[i as int].1),
                    );
                    lemma_view_dict_index(d@);
                    lemma_wf_dict_index(view_dict(d@));
                    assert(wf(view_dict(d@)[i as int].1));
                }
                write_bytes(d[i].0.as_slice(), out);
                proof {
                    assert(decreases_to!(*v => (*v)->Dict_0));
                    assert(decreases_to!(*v => *d));
                    assert(decreases_to!(*d => d@));
                    assert(decreases_to!(d@ => d@[i as int]));
                    assert(decreases_to!(d@[i as int] => d@[i as int].1));
                    assert(decreases_to!(*v => d@[i as int].1));
                }
                encode_into(&d[i].1, out);
                i = i + 1;
                assert(out@ =~= pre + enc_dict(view_dict(d@.subrange(0, i as int))));
            }
            assert(d@.subrange(0, d.len() as int) =~= d@);
            out.push(101u8);
            assert(final(out)@ =~= old(out)@ + enc(v@));
        },
    }
}

pub proof fn lemma_view_list_index(s: Seq<Value>)
    ensures
        view_list(s).len() == s.len(),
        forall|i: int| 0 <= i < s.len() ==> #[trigger] view_list(s)[i] == view_value(s[i]),
    decreases s.len(),
{
    if s.len() > 0 {
        let t = s.subrange(0, s.len() - 1);
        lemma_view_list_index(t);
        assert forall|i: int| 0 <= i < s.len() implies #[trigger] view_list(s)[i] == view_value(s[i]) by {
            if i < s.len() - 1 {
                assert(view_list(s)[i] == view_list(t)[i]);
            }
        }
    }
}

pub proof fn lemma_view_dict_index(s: Seq<(Vec<u8>, Value)>)
    ensures
        view_dict(s).len() == s.len(),
        forall|i: int| 0 <= i < s.len() ==> #[trigger] view_dict(s)[i] == (s[i].0@, view_value(s[i].1)),
    decreases s.len(),
{
    if s.len() > 0 {
        let t = s.subrange(0, s.len() - 1);
        lemma_view_dict_index(t);
        assert forall|i: int| 0 <= i < s.len() implies #[trigger] view_dict(s)[i] == (s[i].0@, view_value(s[i].1)) by {
            if i < s.len() - 1 {
                assert(view_dict(s)[i] == view_dict(t)[i]);
            }
        }
    }
}

pub proof fn lemma_wf_dict_index(s: Seq<(Seq<u8>, Bv)>)
    requires
        wf_dict(s),
    ensures
        forall|i: int| 0 <= i < s.len() ==> wf(#[trigger] s[i].1),
    decreases s.len(),
{
    if s.len() > 0 {
        let t = s.subrange(0, s.len() - 1);
        lemma_wf_dict_index(t);
        assert forall|i: int| 0 <= i < s.len() implies wf(#[trigger] s[i].1) by {
            if i < s.len() - 1 {
                assert(s[i] == t[i]);
            }
        }
    }
}

pub proof fn lemma_wf_dict_push(s: Seq<(Seq<u8>, Bv)>, x: (Seq<u8>, Bv))
    ensures
        wf_dict(s.push(x)) == (wf_dict(s) && wf(x.1)),
{
    let t = s.push(x);
    assert(t.subrange(0, t.len() - 1) =~= s);
}

pub proof fn lemma_wf_list_push(s: Seq<Bv>, x: Bv)
    ensures
        wf_list(s.push(x)) == (wf_list(s) && wf(x)),
{
    let t = s.push(x);
    assert(t.subrange(0, t.len() - 1) =~= s);
}

pub proof fn lemma_lex_single(x: u8, y: u8)
    requires
        x < y,
    ensures
        lex_lt(seq![x], seq![y]),
{
}

/// A copy of a byte string.
pub fn copy_bytes(b: &[u8]) -> (r: Vec<u8>)
    ensures
        r@ == b@,
{
    let mut out: Vec<u8> = Vec::new();
    let mut i: usize = 0;
    while i < b.len()
        invariant
            i <= b.len(),
            out@ == b@.subrange(0, i as int),
        decreases b.len() - i,
    {
        out.push(b[i]);
        i = i + 1;
        assert(out@ =~= b@.subrange(0, i as int));
    }
    assert(b@.subrange(0, b.len() as int) =~= b@);
    out
}

/// A deep copy of a value.
pub fn copy_value(v: &Value) -> (r: Value)
    ensures
        r@ == v@,
    decreases v,
{
    match v {
        Value::Int(n) => Value::Int(*n),
        Value::Bytes(b) => Value::Bytes(copy_bytes(b.as_slice())),
        Value::List(l) => {
            let mut out: Vec<Value> = Vec::new();
            let mut i: usize = 0;
            while i < l.len()
                invariant
                    i <= l.len(),
                    *v == Value::List(*l),
                    view_list(out@) == view_list(l@.subrange(0, i as int)),
                decreases l.len() - i,
            {
                proof {
                    assert(decreases_to!(*v => (*v)->List_0));
                    assert(decreases_to!(*l => l@));
                    assert(decreases_to!(l@ => l@[i as int]));
                }
                let x = copy_value(&l[i]);
                proof {
                    lemma_view_list_step(l@, i as int);
                    lemma_view_list_push(out@, x);
                }
                out.push(x);
                i = i + 1;
            }
            assert(l@.subrange(0, l.len() as int) =~= l@);
            Value::List(out)
        },
        Value::Dict(d) => {
            let mut out: Vec<(Vec<u8>, Value)> = Vec::new();
            let mut i: usize = 0;
            while i < d.len()
                invariant
                    i <= d.len(),
                    *v == Value::Dict(*d),
                    view_dict(out@) == view_dict(d@.subrange(0, i as int)),
                decreases d.len() - i,
            {
                proof {
                    assert(decreases_to!(*v => (*v)->Dict_0));
                    assert(decreases_to!(*d => d@));
                    assert(decreases_to!(d@ => d@[i as int]));
                    assert(decreases_to!(d@[i as int] => d@[i as int].1));
                }
                let k = copy_bytes(d[i].0.as_slice());
                let x = copy_value(&d[i].1);
                proof {
                    lemma_view_dict_step(d@, i as int);
                    lemma_view_dict_push(out@, (k, x));
                }
                out.push((k, x));
                i = i + 1;
            }
            assert(d@.subrange(0, d.len() as int) =~= d@);
            Value::Dict(out)
        },
    }
}

/// `t` is `s` with the entry `(k, x)` put at index `i`, where every key
/// before `i` sorts before `k`: replacing the entry there if it has key `k`,
/// inserted before it otherwise.
pub open spec fn placed_at(s: Seq<(Seq<u8>, Bv)>, k: Seq<u8>, x: Bv, i: int, t: Seq<(Seq<u8>, Bv)>) -> bool {
    &&& 0 <= i <= s.len()
    &&& forall|j: int| 0 <= j < i ==> lex_lt(#[trigger] s[j].0, k)
    &&& if i < s.len() && s[i].0 == k {
        t == s.update(i, (k, x))
    } else {
        (i < s.len() ==> lex_lt(k, s[i].0)) && t == s.insert(i, (k, x))
    }
}

pub proof fn lemma_lex_irreflexive(a: Seq<u8>)
    ensures
        !lex_lt(a, a),
    decreases a.len(),
{
    if a.len() > 0 {
        lemma_lex_irreflexive(a.drop_first());
    }
}

pub proof fn lemma_lex_transitive(a: Seq<u8>, b: Seq<u8>, c: Seq<u8>)
    requires
        lex_lt(a, b),
        lex_lt(b, c),
    ensures
        lex_lt(a, c),
    decreases a.len(),
{
    if a.len() > 0 && a[0] == b[0] && b[0] == c[0] {
        lemma_lex_transitive(a.drop_first(), b.drop_first(), c.drop_first());
    }
}

pub proof fn lemma_lex_asymmetric(a: Seq<u8>, b: Seq<u8>)
    requires
        lex_lt(a, b),
    ensures
        !lex_lt(b, a),
    decreases a.len(),
{
    if a.len() > 0 && a[0] == b[0] {
        lemma_lex_asymmetric(a.drop_first(), b.drop_first());
    }
}

/// Keys of a key-sorted dictionary increase between any two positions.
pub proof fn lemma_keys_sorted_all(d: Seq<(Seq<u8>, Bv)>, i: int, j: int)
    requires
        keys_sorted(d),
        0 <= i < j < d.len(),
    ensures
        lex_lt(d[i].0, d[j].0),
    decreases j - i,
{
    let jj = j;
    assert(lex_lt(d[jj - 1].0, d[jj].0));
    if j > i + 1 {
        lemma_keys_sorted_all(d, i, j - 1);
        lemma_lex_transitive(d[i].0, d[j - 1].0, d[j].0);
    }
}

/// A canonical dictionary is fixed by its entries: two key-sorted
/// dictionaries holding the same entries are the same sequence, however
/// they were built, and so encode alike.
pub proof fn lemma_sorted_dicts_equal(s: Seq<(Seq<u8>, Bv)>, t: Seq<(Seq<u8>, Bv)>)
    requires
        keys_sorted(s),
        keys_sorted(t),
        forall|e: (Seq<u8>, Bv)| #[trigger] s.contains(e) <==> t.contains(e),
    ensures
        s == t,
        enc_dict(s) == enc_dict(t),
    decreases s.len() + t.len(),
{
    if s.len() == 0 || t.len() == 0 {
        if s.len() > 0 {
            assert(s.contains(s[0]));
            assert(t.contains(s[0]));
        }
        if t.len() > 0 {
            assert(t.contains(t[0]));
            assert(s.contains(t[0]));
        }
        assert(s =~= t);
    } else {
        let n = s.len() - 1;
        let m = t.len() - 1;
        assert(s.contains(s[n]));
        assert(t.contains(s[n]));
        assert(t.contains(t[m]));
        assert(s.contains(t[m]));
        let i = choose|i: int| 0 <= i < t.len() && t[i] == s[n];
        let j = choose|j: int| 0 <= j < s.len() && s[j] == t[m];
        if i < m {
            lemma_keys_sorted_all(t, i, m);
            if j < n {
                lemma_keys_sorted_all(s, j, n);
                lemma_lex_asymmetric(s[j].0, s[n].0);
            } else {
                lemma_lex_irreflexive(s[n].0);
            }
        }
        assert(t[m] == s[n]) by {
            if i < m {
            } else {
                assert(i == m);
            }
        }
        let s2 = s.subrange(0, n);
        let t2 = t.subrange(0, m);
        assert forall|e: (Seq<u8>, Bv)| #[trigger] s2.contains(e) <==> t2.contains(e) by {
            if s2.contains(e) {
                let a = choose|a: int| 0 <= a < s2.len() && s2[a] == e;
                assert(s2[a] == s[a]);
                assert(s.contains(e));
                assert(t.contains(e));
                let b = choose|b: int| 0 <= b < t.len() && t[b] == e;
                if b == m {
                    lemma_keys_sorted_all(s, a, n);
                    lemma_lex_irreflexive(e.0);
                }
                assert(t2[b] == e);
            }
            if t2.contains(e) {
                let b = choose|b: int| 0 <= b < t2.len() && t2[b] == e;
                assert(t2[b] == t[b]);
                assert(t.contains(e));
                assert(s.contains(e));
                let a = choose|a: int| 0 <= a < s.len() && s[a] == e;
                if a == n {
                    lemma_keys_sorted_all(t, b, m);
                    lemma_lex_irreflexive(e.0);
                }
                assert(s2[a] == e);
            }
        }
        assert(keys_sorted(s2));
        assert(keys_sorted(t2));
        lemma_sorted_dicts_equal(s2, t2);
        assert(s =~= s2.push(s[n]));
        assert(t =~= t2.push(t[m]));
    }
}

/// Where `k` goes among the entries of `d`, and whether it is there.
fn find_slot(d: &Vec<(Vec<u8>, Value)>, k: &[u8]) -> (r: (usize, bool))
    ensures
        r.0 <= d.len(),
        forall|j: int| 0 <= j < r.0 ==> lex_lt(#[trigger] d@[j].0@, k@),
        r.1 ==> r.0 < d.len() && d@[r.0 as int].0@ == k@,
        !r.1 && r.0 < d.len() ==> lex_lt(k@, d@[r.0 as int].0@),
{
    let mut i: usize = 0;
    while i < d.len()
        invariant
            i <= d.len(),
            forall|j: int| 0 <= j < i ==> lex_lt(#[trigger] d@[j].0@, k@),
        decreases d.len() - i,
    {
        let c = compare_bytes(d[i].0.as_slice(), k);
        if c == 0 {
            return (i, true);
        }
        if c > 0 {
            return (i, false);
        }
        i = i + 1;
    }
    (i, false)
}

/// Puts the entry `(k, x)` into a dictionary kept in canonical order: it
/// replaces the entry with key `k` if there is one, and otherwise goes in
/// where its key sorts.
pub fn dict_insert(d: &mut Vec<(Vec<u8>, Value)>, k: Vec<u8>, x: Value)
    requires
        keys_sorted(view_dict(old(d)@)),
    ensures
        keys_sorted(view_dict(final(d)@)),
        exists|i: int| placed_at(view_dict(old(d)@), k@, x@, i, #[trigger] view_dict(final(d)@)),
        inserted(view_dict(old(d)@), k@, x@, view_dict(final(d)@)),
{
    let ghost s0 = d@;
    let ghost s = view_dict(d@);
    let ghost e = (k@, x@);
    proof {
        lemma_view_dict_index(s0);
    }
    let (i, found) = find_slot(d, k.as_slice());
    if found {
        let _ = d.remove(i);
        d.insert(i, (k, x));
        proof {
            lemma_view_dict_index(d@);
            assert(view_dict(d@) =~= s.update(i as int, e));
        }
    } else {
        d.insert(i, (k, x));
        proof {
            lemma_view_dict_index(d@);
            assert(view_dict(d@) =~= s.insert(i as int, e));
        }
    }
    proof {
        let t = view_dict(d@);
        assert forall|j: int| 0 <= j < i implies lex_lt(#[trigger] s[j].0, k@) by {
            assert(s[j].0 == s0[j].0@);
        }
        if (i as int) < s.len() {
            assert(s[i as int].0 == s0[i as int].0@);
            lemma_lex_irreflexive(k@);
        }
        assert(placed_at(s, k@, x@, i as int, t));
        let ii = i as int;
        assert forall|f: (Seq<u8>, Bv)| #[trigger] t.contains(f) <==> (f == e || (s.contains(f) && f.0 != k@)) by {
            if t.contains(f) {
                let a = choose|a: int| 0 <= a < t.len() && t[a] == f;
                if a != ii {
                    if found {
                        assert(f == s[a]);
                        assert(s.contains(f));
                        lemma_lex_irreflexive(k@);
                        if a < ii {
                            lemma_keys_sorted_all(s, a, ii);
                        } else {
                            lemma_keys_sorted_all(s, ii, a);
                        }
                    } else if a < ii {
                        assert(f == s[a]);
                        assert(s.contains(f));
                        lemma_lex_irreflexive(k@);
                    } else {
                        assert(f == s[a - 1]);
                        assert(s.contains(f));
                        lemma_lex_irreflexive(k@);
                        if a - 1 > ii {
                            lemma_keys_sorted_all(s, ii, a - 1);
                            lemma_lex_transitive(k@, s[ii].0, s[a - 1].0);
                        }
                    }
                }
            }
            if f == e {
                assert(t[ii] == e);
            } else if s.contains(f) && f.0 != k@ {
                let a = choose|a: int| 0 <= a < s.len() && s[a] == f;
                if found {
                    assert(t[a] == f);
                } else if a < ii {
                    assert(t[a] == f);
                } else {
                    assert(t[a + 1] == f);
                }
            }
        }
        assert forall|j: int| 0 < j < t.len() implies lex_lt(#[trigger] t[j - 1].0, t[j].0) by {
            if found {
                if j - 1 == i {
                    assert(lex_lt(s[j - 1].0, s[j].0));
                } else if j == i {
                    assert(lex_lt(s[j - 1].0, s[j].0));
                } else {
                    assert(lex_lt(s[j - 1].0, s[j].0));
                }
            } else {
                if j < i {
                    assert(lex_lt(s[j - 1].0, s[j].0));
                } else if j == i {
                    assert(t[j - 1] == s[j - 1]);
                } else if j == i + 1 {
                    assert(t[j] == s[j - 1]);
                } else {
                    let jj = j - 1;
                    assert(t[j] == s[jj] && t[j - 1] == s[jj - 1]);
                    assert(lex_lt(s[jj - 1].0, s[jj].0));
                }
            }
        }
    }
}

pub proof fn lemma_wf_list_from_all(s: Seq<Bv>)
    requires
        forall|i: int| 0 <= i < s.len() ==> wf(#[trigger] s[i]),
    ensures
        wf_list(s),
    decreases s.len(),
{
    if s.len() > 0 {
        let t = s.subrange(0, s.len() - 1);
        assert forall|i: int| 0 <= i < t.len() implies wf(#[trigger] t[i]) by {
            assert(t[i] == s[i]);
        }
        lemma_wf_list_from_all(t);
    }
}

pub proof fn lemma_wf_dict_from_all(s: Seq<(Seq<u8>, Bv)>)
    requires
        forall|i: int| 0 <= i < s.len() ==> wf(#[trigger] s[i].1),
    ensures
        wf_dict(s),
    decreases s.len(),
{
    if s.len() > 0 {
        let t = s.subrange(0, s.len() - 1);
        assert forall|i: int| 0 <= i < t.len() implies wf(#[trigger] t[i].1) by {
            assert(t[i] == s[i]);
        }
        lemma_wf_dict_from_all(t);
    }
}

/// Whether `v` is canonical: every dictionary in it, at any depth, has its
/// keys in strictly increasing byte order.
pub fn is_canonical(v: &Value) -> (r: bool)
    ensures
        r == wf(v@),
    decreases v,
{
    match v {
        Value::Int(_) => true,
        Value::Bytes(_) => true,
        Value::List(l) => {
            proof {
                lemma_view_list_index(l@);
            }
            let mut i: usize = 0;
            while i < l.len()
                invariant
                    i <= l.len(),
                    *v == Value::List(*l),
                    view_list(l@).len() == l.len(),
                    forall|j: int| 0 <= j < l.len() ==> #[trigger] view_list(l@)[j] == view_value(l@[j]),
                    forall|j: int| 0 <= j < i ==> wf(#[trigger] view_list(l@)[j]),
                decreases l.len() - i,
            {
                proof {
                    assert(decreases_to!(*v => (*v)->List_0));
                    assert(decreases_to!(*l => l@));
                    assert(decreases_to!(l@ => l@[i as int]));
                }
                if !is_canonical(&l[i]) {
                    proof {
                        if wf_list(view_list(l@)) {
                            lemma_wf_list_index(view_list(l@));
                        }
                        assert(view_list(l@)[i as int] == view_value(l@[i as int]));
                    }
                    return false;
                }
                i = i + 1;
            }
            proof {
                lemma_wf_list_from_all(view_list(l@));
            }
            true
        },
        Value::Dict(d) => {
            proof {
                lemma_view_dict_index(d@);
            }
            let mut i: usize = 0;
            while i < d.len()
                invariant
                    i <= d.len(),
                    *v == Value::Dict(*d),
                    view_dict(d@).len() == d.len(),
                    forall|j: int| 0 <= j < d.len() ==> #[trigger] view_dict(d@)[j] == (d@[j].0@, view_value(d@[j].1)),
                    forall|j: int| 0 <= j < i ==> wf(#[trigger] view_dict(d@)[j].1),
                    forall|j: int| 0 < j < i ==> lex_lt(#[trigger] view_dict(d@)[j - 1].0, view_dict(d@)[j].0),
                decreases d.len() - i,
            {
                proof {
                    assert(decreases_to!(*v => (*v)->Dict_0));
                    assert(decreases_to!(*d => d@));
                    assert(decreases_to!(d@ => d@[i as int]));
                    assert(decreases_to!(d@[i as int] => d@[i as int].1));
                    assert(view_dict(d@)[i as int] == (d@[i as int].0@, view_value(d@[i as int].1)));
                }
                if i > 0 {
                    assert(view_dict(d@)[i - 1] == (d@[i - 1].0@, view_value(d@[i - 1].1)));
                    if compare_bytes(d[i - 1].0.as_slice(), d[i].0.as_slice()) >= 0 {
                        proof {
                            let ii = i as int;
                            assert(!lex_lt(view_dict(d@)[ii - 1].0, view_dict(d@)[ii].0));
                        }
                        return false;
                    }
                }
                if !is_canonical(&d[i].1) {
                    proof {
                        if wf_dict(view_dict(d@)) {
                            lemma_wf_dict_index(view_dict(d@));
                        }
                        assert(view_dict(d@)[i as int].1 == view_value(d@[i as int].1));
                    }
                    return false;
                }
                i = i + 1;
            }
            proof {
                lemma_wf_dict_from_all(view_dict(d@));
            }
            true
        },
    }
}

/// `t` is what `dict_insert` makes of `s` with the entry `(k, x)`: sorted,
/// holding `(k, x)` and every entry of `s` under another key.
pub open spec fn inserted(s: Seq<(Seq<u8>, Bv)>, k: Seq<u8>, x: Bv, t: Seq<(Seq<u8>, Bv)>) -> bool {
    &&& keys_sorted(t)
    &&& forall|e: (Seq<u8>, Bv)| #[trigger] t.contains(e) <==> (e == (k, x) || (s.contains(e) && e.0 != k))
}

/// Insertion order does not matter: putting two entries with different
/// keys into a dictionary in either order gives the same dictionary, and
/// so the same encoding.
pub proof fn lemma_insert_order(
    s: Seq<(Seq<u8>, Bv)>,
    k1: Seq<u8>,
    x1: Bv,
    k2: Seq<u8>,
    x2: Bv,
    t1: Seq<(Seq<u8>, Bv)>,
    t12: Seq<(Seq<u8>, Bv)>,
    u2: Seq<(Seq<u8>, Bv)>,
    u21: Seq<(Seq<u8>, Bv)>,
)
    requires
        k1 != k2,
        inserted(s, k1, x1, t1),
        inserted(t1, k2, x2, t12),
        inserted(s, k2, x2, u2),
        inserted(u2, k1, x1, u21),
    ensures
        t12 == u21,
        enc_dict(t12) == enc_dict(u21),
{
    assert forall|e: (Seq<u8>, Bv)| #[trigger] t12.contains(e) <==> u21.contains(e) by {
        if t12.contains(e) {
            assert(t1.contains(e) || e == (k2, x2));
            if t1.contains(e) {
                assert(e == (k1, x1) || s.contains(e));
            }
        }
        if u21.contains(e) {
            assert(u2.contains(e) || e == (k1, x1));
            if u2.contains(e) {
                assert(e == (k2, x2) || s.contains(e));
            }
        }
        if e == (k1, x1) {
            assert(t1.contains(e));
        }
        if e == (k2, x2) {
            assert(u2.contains(e));
        }
        if s.contains(e) && e.0 != k1 && e.0 != k2 {
            assert(t1.contains(e));
            assert(u2.contains(e));
        }
    }
    lemma_sorted_dicts_equal(t12, u21);
}

/// The bencoding of the canonical value `v`: dictionary entries, at every
/// depth, come out in strictly increasing key order.
pub fn encode(v: &Value) -> (r: Vec<u8>)
    requires
        wf(v@),
    ensures
        r@ == enc(v@),
{
    let mut out: Vec<u8> = Vec::new();
    encode_into(v, &mut out);
    assert(out@ =~= enc(v@));
    out
}


pub open spec fn is_digit_byte(c: u8) -> bool {
    48 <= c <= 57
}

pub proof fn lemma_dec_nat_shape(n: nat)
    ensures
        dec_nat(n).len() >= 1,
        n >= 10 ==> dec_nat(n).len() >= 2,
        n < 10 ==> dec_nat(n).len() == 1,
        forall|i: int| 0 <= i < dec_nat(n).len() ==> is_digit_byte(#[trigger] dec_nat(n)[i]),
    decreases n,
{
    if n >= 10 {
        lemma_dec_nat_shape(n / 10);
        let p = dec_nat(n / 10);
        assert forall|i: int| 0 <= i < dec_nat(n).len() implies is_digit_byte(#[trigger] dec_nat(n)[i]) by {
            if i < p.len() {
                assert(dec_nat(n)[i] == p[i]);
            }
        }
    }
}

pub proof fn lemma_dec_nat_injective(a: nat, b: nat)
    requires
        dec_nat(a) == dec_nat(b),
    ensures
        a == b,
    decreases a,
{
    lemma_dec_nat_shape(a);
    lemma_dec_nat_shape(b);
    if a >= 10 && b >= 10 {
        let da = dec_nat(a);
        assert(dec_nat(a / 10) =~= da.subrange(0, da.len() - 1));
        assert(dec_nat(b / 10) =~= da.subrange(0, da.len() - 1));
        lemma_dec_nat_injective(a / 10, b / 10);
        assert(da[da.len() - 1] == (a % 10 + 48) as u8);
        assert(da[da.len() - 1] == (b % 10 + 48) as u8);
        assert(a % 10 == b % 10);
        assert(a == (a / 10) * 10 + a % 10);
        assert(b == (b / 10) * 10 + b % 10);
    } else if a < 10 && b < 10 {
        assert(dec_nat(a)[0] == dec_nat(b)[0]);
        assert(dec_nat(a)[0] == (a + 48) as u8);
        assert(dec_nat(b)[0] == (b + 48) as u8);
    }
}

/// A rest that cannot continue a run of digits.
pub open spec fn stops_digits(r: Seq<u8>) -> bool {
    r.len() == 0 || !is_digit_byte(r[0])
}

pub proof fn lemma_dec_nat_prefix_free(a: nat, b: nat, r1: Seq<u8>, r2: Seq<u8>)
    requires
        dec_nat(a) + r1 == dec_nat(b) + r2,
        stops_digits(r1),
        stops_digits(r2),
    ensures
        a == b,
        r1 == r2,
{
    lemma_dec_nat_shape(a);
    lemma_dec_nat_shape(b);
    let x = dec_nat(a);
    let y = dec_nat(b);
    let w = x + r1;
    if x.len() < y.len() {
        assert(w[x.len() as int] == r1[0]);
        assert(w[x.len() as int] == y[x.len() as int]);
    } else if y.len() < x.len() {
        assert(w[y.len() as int] == x[y.len() as int]);
        assert((y + r2)[y.len() as int] == r2[0]);
    }
    assert(x =~= w.subrange(0, x.len() as int));
    assert(y =~= (y + r2).subrange(0, y.len() as int));
    lemma_dec_nat_injective(a, b);
    assert(r1 =~= w.subrange(x.len() as int, w.len() as int));
    assert(r2 =~= (y + r2).subrange(y.len() as int, w.len() as int));
}

pub proof fn lemma_enc_first_byte(v: Bv)
    ensures
        enc(v).len() >= 1,
        enc(v)[0] != 101u8,
{
    match v {
        Bv::Bytes(b) => {
            lemma_dec_nat_shape(b.len());
            assert(enc(v)[0] == dec_nat(b.len())[0]);
        },
        _ => {},
    }
}

pub proof fn lemma_enc_list_front(l: Seq<Bv>)
    requires
        l.len() > 0,
    ensures
        enc_list(l) == enc(l[0]) + enc_list(l.subrange(1, l.len() as int)),
    decreases l.len(),
{
    let n = l.len();
    let init = l.subrange(0, n - 1);
    let tail = l.subrange(1, n as int);
    if n == 1 {
        assert(init =~= Seq::<Bv>::empty());
        assert(tail =~= Seq::<Bv>::empty());
        assert(enc_list(l) =~= enc(l[0]) + enc_list(tail));
    } else {
        lemma_enc_list_front(init);
        assert(init.subrange(1, init.len() as int) =~= tail.subrange(0, tail.len() - 1));
        assert(enc_list(l) =~= enc(l[0]) + enc_list(tail));
    }
}

pub proof fn lemma_enc_dict_front(d: Seq<(Seq<u8>, Bv)>)
    requires
        d.len() > 0,
    ensures
        enc_dict(d) == enc_bytes(d[0].0) + enc(d[0].1) + enc_dict(d.subrange(1, d.len() as int)),
    decreases d.len(),
{
    let n = d.len();
    let init = d.subrange(0, n - 1);
    let tail = d.subrange(1, n as int);
    if n == 1 {
        assert(init =~= Seq::<(Seq<u8>, Bv)>::empty());
        assert(tail =~= Seq::<(Seq<u8>, Bv)>::empty());
        assert(enc_dict(d) =~= enc_bytes(d[0].0) + enc(d[0].1) + enc_dict(tail));
    } else {
        lemma_enc_dict_front(init);
        assert(init.subrange(1, init.len() as int) =~= tail.subrange(0, tail.len() - 1));
        assert(enc_dict(d) =~= enc_bytes(d[0].0) + enc(d[0].1) + enc_dict(tail));
    }
}

pub proof fn lemma_enc_bytes_prefix_free(k1: Seq<u8>, k2: Seq<u8>, r1: Seq<u8>, r2: Seq<u8>)
    requires
        enc_bytes(k1) + r1 == enc_bytes(k2) + r2,
    ensures
        k1 == k2,
        r1 == r2,
{
    let t1 = seq![58u8] + k1 + r1;
    let t2 = seq![58u8] + k2 + r2;
    assert(enc_bytes(k1) + r1 =~= dec_nat(k1.len()) + t1);
    assert(enc_bytes(k2) + r2 =~= dec_nat(k2.len()) + t2);
    lemma_dec_nat_prefix_free(k1.len(), k2.len(), t1, t2);
    assert(k1 =~= t1.subrange(1, k1.len() + 1int));
    assert(k2 =~= t2.subrange(1, k2.len() + 1int));
    assert(r1 =~= t1.subrange(k1.len() + 1int, t1.len() as int));
    assert(r2 =~= t2.subrange(k2.len() + 1int, t2.len() as int));
}

pub proof fn lemma_enc_int_prefix_free(n1: i64, n2: i64, r1: Seq<u8>, r2: Seq<u8>)
    requires
        enc(Bv::Int(n1)) + r1 == enc(Bv::Int(n2)) + r2,
    ensures
        n1 == n2,
        r1 == r2,
{
    let e1 = seq![101u8] + r1;
    let e2 = seq![101u8] + r2;
    let w1 = enc(Bv::Int(n1)) + r1;
    let w2 = enc(Bv::Int(n2)) + r2;
    let m1: nat = if n1 < 0 { (-n1) as nat } else { n1 as nat };
    let m2: nat = if n2 < 0 { (-n2) as nat } else { n2 as nat };
    lemma_dec_nat_shape(m1);
    lemma_dec_nat_shape(m2);
    if n1 < 0 {
        assert(w1 =~= seq![105u8, 45u8] + (dec_nat(m1) + e1));
    } else {
        assert(w1 =~= seq![105u8] + (dec_nat(m1) + e1));
    }
    if n2 < 0 {
        assert(w2 =~= seq![105u8, 45u8] + (dec_nat(m2) + e2));
    } else {
        assert(w2 =~= seq![105u8] + (dec_nat(m2) + e2));
    }
    assert((n1 < 0) == (n2 < 0)) by {
        if n1 < 0 && n2 >= 0 {
            assert(w1[1] == 45u8);
            assert(w2[1] == dec_nat(m2)[0]);
        }
        if n2 < 0 && n1 >= 0 {
            assert(w2[1] == 45u8);
            assert(w1[1] == dec_nat(m1)[0]);
        }
    }
    let skip: int = if n1 < 0 { 2 } else { 1 };
    assert(dec_nat(m1) + e1 =~= w1.subrange(skip, w1.len() as int));
    assert(dec_nat(m2) + e2 =~= w2.subrange(skip, w2.len() as int));
    lemma_dec_nat_prefix_free(m1, m2, e1, e2);
    assert(r1 =~= e1.subrange(1, e1.len() as int));
    assert(r2 =~= e2.subrange(1, e2.len() as int));
}

/// No encoding is a proper prefix of another, and the encoding of a value
/// determines the value: bytes that start with `enc(v1)` and with `enc(v2)`
/// have `v1 == v2`.
pub proof fn lemma_enc_prefix_free(v1: Bv, v2: Bv, r1: Seq<u8>, r2: Seq<u8>)
    requires
        enc(v1) + r1 == enc(v2) + r2,
    ensures
        v1 == v2,
        r1 == r2,
    decreases v1,
{
    let w = enc(v1) + r1;
    lemma_enc_first_byte(v1);
    lemma_enc_first_byte(v2);
    assert(w[0] == enc(v1)[0]);
    assert(w[0] == enc(v2)[0]);
    match v1 {
        Bv::Int(n1) => {
            if v2 is Bytes {
                lemma_dec_nat_shape(v2->Bytes_0.len());
                assert(enc(v2)[0] == dec_nat(v2->Bytes_0.len())[0]);
            }
            lemma_enc_int_prefix_free(n1, v2->Int_0, r1, r2);
        },
        Bv::Bytes(b1) => {
            lemma_dec_nat_shape(b1.len());
            assert(enc(v1)[0] == dec_nat(b1.len())[0]);
            lemma_enc_bytes_prefix_free(b1, v2->Bytes_0, r1, r2);
        },
        Bv::List(l1) => {
            if v2 is Bytes {
                lemma_dec_nat_shape(v2->Bytes_0.len());
                assert(enc(v2)[0] == dec_nat(v2->Bytes_0.len())[0]);
            }
            let l2 = v2->List_0;
            assert(w =~= seq![108u8] + (enc_list(l1) + (seq![101u8] + r1)));
            assert(enc(v2) + r2 =~= seq![108u8] + (enc_list(l2) + (seq![101u8] + r2)));
            assert(enc_list(l1) + (seq![101u8] + r1) =~= w.subrange(1, w.len() as int));
            assert(enc_list(l2) + (seq![101u8] + r2) =~= (enc(v2) + r2).subrange(1, w.len() as int));
            lemma_list_prefix_free(l1, l2, seq![101u8] + r1, seq![101u8] + r2);
            assert(r1 =~= (seq![101u8] + r1).subrange(1, r1.len() + 1int));
            assert(r2 =~= (seq![101u8] + r2).subrange(1, r2.len() + 1int));
        },
        Bv::Dict(d1) => {
            if v2 is Bytes {
                lemma_dec_nat_shape(v2->Bytes_0.len());
                assert(enc(v2)[0] == dec_nat(v2->Bytes_0.len())[0]);
            }
            let d2 = v2->Dict_0;
            assert(w =~= seq![100u8] + (enc_dict(d1) + (seq![101u8] + r1)));
            assert(enc(v2) + r2 =~= seq![100u8] + (enc_dict(d2) + (seq![101u8] + r2)));
            assert(enc_dict(d1) + (seq![101u8] + r1) =~= w.subrange(1, w.len() as int));
            assert(enc_dict(d2) + (seq![101u8] + r2) =~= (enc(v2) + r2).subrange(1, w.len() as int));
            lemma_dict_prefix_free(d1, d2, seq![101u8] + r1, seq![101u8] + r2);
            assert(r1 =~= (seq![101u8] + r1).subrange(1, r1.len() + 1int));
            assert(r2 =~= (seq![101u8] + r2).subrange(1, r2.len() + 1int));
        },
    }
}

pub proof fn lemma_list_prefix_free(l1: Seq<Bv>, l2: Seq<Bv>, r1: Seq<u8>, r2: Seq<u8>)
    requires
        enc_list(l1) + r1 == enc_list(l2) + r2,
        r1.len() > 0 && r1[0] == 101u8,
        r2.len() > 0 && r2[0] == 101u8,
    ensures
        l1 == l2,
        r1 == r2,
    decreases l1,
{
    if l1.len() == 0 && l2.len() == 0 {
        assert(enc_list(l1) =~= Seq::<u8>::empty());
        assert(enc_list(l2) =~= Seq::<u8>::empty());
        assert(l1 =~= l2);
        assert(r1 =~= enc_list(l1) + r1);
        assert(r2 =~= enc_list(l2) + r2);
    } else if l1.len() == 0 {
        lemma_enc_list_front(l2);
        lemma_enc_first_byte(l2[0]);
        assert(enc_list(l1) =~= Seq::<u8>::empty());
        assert((enc_list(l1) + r1)[0] == r1[0]);
        assert((enc_list(l2) + r2)[0] == enc(l2[0])[0]);
    } else if l2.len() == 0 {
        lemma_enc_list_front(l1);
        lemma_enc_first_byte(l1[0]);
        assert(enc_list(l2) =~= Seq::<u8>::empty());
        assert((enc_list(l2) + r2)[0] == r2[0]);
        assert((enc_list(l1) + r1)[0] == enc(l1[0])[0]);
    } else {
        lemma_enc_list_front(l1);
        lemma_enc_list_front(l2);
        let t1 = l1.subrange(1, l1.len() as int);
        let t2 = l2.subrange(1, l2.len() as int);
        assert(enc_list(l1) + r1 =~= enc(l1[0]) + (enc_list(t1) + r1));
        assert(enc_list(l2) + r2 =~= enc(l2[0]) + (enc_list(t2) + r2));
        lemma_enc_prefix_free(l1[0], l2[0], enc_list(t1) + r1, enc_list(t2) + r2);
        lemma_list_prefix_free(t1, t2, r1, r2);
        assert(l1 =~= seq![l1[0]] + t1);
        assert(l2 =~= seq![l2[0]] + t2);
    }
}

pub proof fn lemma_dict_prefix_free(d1: Seq<(Seq<u8>, Bv)>, d2: Seq<(Seq<u8>, Bv)>, r1: Seq<u8>, r2: Seq<u8>)
    requires
        enc_dict(d1) + r1 == enc_dict(d2) + r2,
        r1.len() > 0 && r1[0] == 101u8,
        r2.len() > 0 && r2[0] == 101u8,
    ensures
        d1 == d2,
        r1 == r2,
    decreases d1,
{
    if d1.len() == 0 && d2.len() == 0 {
        assert(enc_dict(d1) =~= Seq::<u8>::empty());
        assert(enc_dict(d2) =~= Seq::<u8>::empty());
        assert(d1 =~= d2);
        assert(r1 =~= enc_dict(d1) + r1);
        assert(r2 =~= enc_dict(d2) + r2);
    } else if d1.len() == 0 {
        lemma_enc_dict_front(d2);
        lemma_dec_nat_shape(d2[0].0.len());
        assert(enc_dict(d1) =~= Seq::<u8>::empty());
        assert((enc_dict(d1) + r1)[0] == r1[0]);
        assert((enc_dict(d2) + r2)[0] == dec_nat(d2[0].0.len())[0]);
    } else if d2.len() == 0 {
        lemma_enc_dict_front(d1);
        lemma_dec_nat_shape(d1[0].0.len());
        assert(enc_dict(d2) =~= Seq::<u8>::empty());
        assert((enc_dict(d2) + r2)[0] == r2[0]);
        assert((enc_dict(d1) + r1)[0] == dec_nat(d1[0].0.len())[0]);
    } else {
        lemma_enc_dict_front(d1);
        lemma_enc_dict_front(d2);
        let t1 = d1.subrange(1, d1.len() as int);
        let t2 = d2.subrange(1, d2.len() as int);
        let x1 = enc(d1[0].1) + (enc_dict(t1) + r1);
        let x2 = enc(d2[0].1) + (enc_dict(t2) + r2);
        assert(enc_dict(d1) + r1 =~= enc_bytes(d1[0].0) + x1);
        assert(enc_dict(d2) + r2 =~= enc_bytes(d2[0].0) + x2);
        lemma_enc_bytes_prefix_free(d1[0].0, d2[0].0, x1, x2);
        assert(decreases_to!(d1 => d1[0]));
        lemma_enc_prefix_free(d1[0].1, d2[0].1, enc_dict(t1) + r1, enc_dict(t2) + r2);
        lemma_dict_prefix_free(t1, t2, r1, r2);
        assert(d1 =~= seq![d1[0]] + t1);
        assert(d2 =~= seq![d2[0]] + t2);
    }
}

pub proof fn lemma_dec_nat_lead(n: nat)
    ensures
        dec_nat(n)[0] == 48u8 ==> n == 0,
    decreases n,
{
    if n >= 10 {
        lemma_dec_nat_lead(n / 10);
        lemma_dec_nat_shape(n / 10);
        assert(dec_nat(n)[0] == dec_nat(n / 10)[0]);
    }
}

/// A number whose digits begin the digits of `n` is at most `n`.
pub proof fn lemma_dec_nat_prefix_le(a: nat, n: nat, x: Seq<u8>)
    requires
        dec_nat(a) + x == dec_nat(n),
    ensures
        a <= n,
    decreases n,
{
    lemma_dec_nat_shape(a);
    lemma_dec_nat_shape(n);
    if x.len() == 0 {
        assert(dec_nat(a) =~= dec_nat(a) + x);
        lemma_dec_nat_injective(a, n);
    } else {
        let d = dec_nat(n);
        assert(n >= 10);
        assert(dec_nat(n / 10) =~= d.subrange(0, d.len() - 1));
        let x2 = x.subrange(0, x.len() - 1);
        assert(dec_nat(a) + x2 =~= d.subrange(0, d.len() - 1));
        lemma_dec_nat_prefix_le(a, n / 10, x2);
    }
}

/// Facts about bytes that start with the digits of `n` and then stop.
pub proof fn lemma_nat_target(bs: Seq<u8>, n: nat, rest: Seq<u8>)
    requires
        bs == dec_nat(n) + rest,
        stops_digits(rest),
    ensures
        bs.len() >= dec_nat(n).len() >= 1,
        is_digit_byte(bs[0]),
        bs[0] == 48u8 ==> n == 0,
        forall|k: int| 0 <= k < dec_nat(n).len() ==> is_digit_byte(#[trigger] bs[k]),
        dec_nat(n).len() < bs.len() ==> !is_digit_byte(bs[dec_nat(n).len() as int]),
{
    lemma_dec_nat_shape(n);
    lemma_dec_nat_lead(n);
    assert(bs[0] == dec_nat(n)[0]);
    assert forall|k: int| 0 <= k < dec_nat(n).len() implies is_digit_byte(#[trigger] bs[k]) by {
        assert(bs[k] == dec_nat(n)[k]);
    }
    if dec_nat(n).len() < bs.len() {
        assert(bs[dec_nat(n).len() as int] == rest[0]);
    }
}

pub proof fn lemma_wf_list_index(s: Seq<Bv>)
    requires
        wf_list(s),
    ensures
        forall|i: int| 0 <= i < s.len() ==> wf(#[trigger] s[i]),
    decreases s.len(),
{
    if s.len() > 0 {
        let t = s.subrange(0, s.len() - 1);
        lemma_wf_list_index(t);
        assert forall|i: int| 0 <= i < s.len() implies wf(#[trigger] s[i]) by {
            if i < s.len() - 1 {
                assert(s[i] == t[i]);
            }
        }
    }
}

/// Why bytes were refused, by the bencode reader or by the message schema.
#[derive(Debug, PartialEq, Eq)]
pub enum DecodeError {
    /// The input ended inside a value.
    Eof,
    /// A byte that cannot start or continue a value here.
    Syntax,
    /// An integer or length with a bad sign, a leading zero, or out of range.
    IntegerFormat,
    /// Dictionary keys out of order.
    NonCanonical,
    /// The same dictionary key twice.
    DuplicateKey,
    /// The named field has the wrong kind of value.
    TypeMismatch(Vec<u8>),
    /// The named field is absent.
    MissingField(Vec<u8>),
    /// The named field has a byte length other than the expected one:
    /// field, expected, actual.
    LengthMismatch(Vec<u8>, usize, usize),
    /// A top-level key outside `t y q a r e v`.
    UnknownTopLevelKey,
}

pub proof fn lemma_view_list_push(s: Seq<Value>, x: Value)
    ensures
        view_list(s.push(x)) == view_list(s).push(view_value(x)),
{
    let t = s.push(x);
    assert(t.subrange(0, t.len() - 1) =~= s);
}

pub proof fn lemma_view_dict_push(s: Seq<(Vec<u8>, Value)>, x: (Vec<u8>, Value))
    ensures
        view_dict(s.push(x)) == view_dict(s).push((x.0@, view_value(x.1))),
{
    let t = s.push(x);
    assert(t.subrange(0, t.len() - 1) =~= s);
}

pub proof fn lemma_dec_nat_step(m: nat, d: nat)
    requires
        m >= 1,
        d < 10,
    ensures
        dec_nat(m * 10 + d) == dec_nat(m).push((d + 48) as u8),
{
    let n = m * 10 + d;
    assert(n / 10 == m && n % 10 == d && n >= 10) by (nonlinear_arith)
        requires
            n == m * 10 + d,
            m >= 1,
            d < 10,
    ;
}

/// Compares two byte strings: negative when `a` sorts first, zero when they
/// are equal, positive when `b` sorts first.
pub fn compare_bytes(a: &[u8], b: &[u8]) -> (r: i8)
    ensures
        (r < 0) == lex_lt(a@, b@),
        (r == 0) == (a@ == b@),
        (r > 0) == lex_lt(b@, a@),
{
    let mut i: usize = 0;
    assert(a@.subrange(0, a.len() as int) =~= a@);
    assert(b@.subrange(0, b.len() as int) =~= b@);
    while i < a.len() && i < b.len() && a[i] == b[i]
        invariant
            i <= a.len(),
            i <= b.len(),
            a@.subrange(0, i as int) == b@.subrange(0, i as int),
            lex_lt(a@, b@) == lex_lt(a@.subrange(i as int, a.len() as int), b@.subrange(i as int, b.len() as int)),
            lex_lt(b@, a@) == lex_lt(b@.subrange(i as int, b.len() as int), a@.subrange(i as int, a.len() as int)),
        decreases a.len() - i,
    {
        proof {
            let sa = a@.subrange(i as int, a.len() as int);
            let sb = b@.subrange(i as int, b.len() as int);
            assert(sa.drop_first() =~= a@.subrange(i + 1, a.len() as int));
            assert(sb.drop_first() =~= b@.subrange(i + 1, b.len() as int));
            assert(a@.subrange(0, i + 1) =~= a@.subrange(0, i as int).push(a@[i as int]));
            assert(b@.subrange(0, i + 1) =~= b@.subrange(0, i as int).push(b@[i as int]));
        }
        i = i + 1;
    }
    let ghost sa = a@.subrange(i as int, a.len() as int);
    let ghost sb = b@.subrange(i as int, b.len() as int);
    if i < a.len() && i < b.len() {
        assert(sa[0] == a@[i as int] && sb[0] == b@[i as int]);
        if a[i] < b[i] {
            -1
        } else {
            proof {
                if a@ == b@ {
                    assert(a@[i as int] == b@[i as int]);
                }
            }
            1
        }
    } else if i < a.len() {
        proof {
            if a@ == b@ {
                assert(a.len() == b.len());
            }
        }
        1
    } else if i < b.len() {
        -1
    } else {
        assert(a@ =~= a@.subrange(0, i as int));
        assert(b@ =~= b@.subrange(0, i as int));
        0
    }
}

fn is_digit(c: u8) -> (r: bool)
    ensures
        r == (48 <= c <= 57),
{
    48 <= c && c <= 57
}

/// Reads the decimal digits at `pos`: a lone `0`, or digits without a
/// leading zero.
fn parse_nat(b: &[u8], pos: usize) -> (r: Result<(u64, usize), DecodeError>)
    ensures
        r is Ok ==> {
            let (n, e) = r->Ok_0;
            pos < e <= b.len() && b@.subrange(pos as int, e as int) == dec_nat(n as nat)
        },
        forall|n: nat, rest: Seq<u8>|
            #![trigger dec_nat(n) + rest]
            pos <= b.len() && n <= u64::MAX && stops_digits(rest) && b@.subrange(pos as int, b.len() as int)
                == dec_nat(n) + rest ==> r is Ok && r->Ok_0.0 == n && r->Ok_0.1 == pos + dec_nat(n).len(),
        pos < b.len() && b@[pos as int] == 48u8 ==> r == Ok::<(u64, usize), DecodeError>((0, (pos + 1) as usize)),
{
    let ghost bs = b@.subrange(pos as int, b.len() as int);
    if pos >= b.len() {
        proof {
            assert forall|n: nat, rest: Seq<u8>|
                #![trigger dec_nat(n) + rest]
                pos <= b.len() && n <= u64::MAX && stops_digits(rest) && bs == dec_nat(n) + rest implies false by {
                lemma_nat_target(bs, n, rest);
            }
        }
        return Err(DecodeError::Eof);
    }
    if !is_digit(b[pos]) {
        proof {
            assert forall|n: nat, rest: Seq<u8>|
                #![trigger dec_nat(n) + rest]
                n <= u64::MAX && stops_digits(rest) && bs == dec_nat(n) + rest implies false by {
                lemma_nat_target(bs, n, rest);
                assert(bs[0] == b@[pos as int]);
            }
        }
        return Err(DecodeError::Syntax);
    }
    let first: u64 = (b[pos] - 48) as u64;
    if first == 0 {
        assert(b@.subrange(pos as int, pos + 1) =~= dec_nat(0));
        proof {
            assert forall|n: nat, rest: Seq<u8>|
                #![trigger dec_nat(n) + rest]
                n <= u64::MAX && stops_digits(rest) && bs == dec_nat(n) + rest implies n == 0 && 1 == dec_nat(
                    n,
                ).len() by {
                lemma_nat_target(bs, n, rest);
                assert(bs[0] == b@[pos as int]);
            }
        }
        return Ok((0, pos + 1));
    }
    let mut m: u64 = first;
    let mut i: usize = pos + 1;
    assert(b@.subrange(pos as int, i as int) =~= dec_nat(m as nat));
    while i < b.len() && is_digit(b[i])
        invariant
            pos < i <= b.len(),
            m >= 1,
            b@[pos as int] != 48u8,
            bs == b@.subrange(pos as int, b.len() as int),
            b@.subrange(pos as int, i as int) == dec_nat(m as nat),
        decreases b.len() - i,
    {
        let d: u64 = (b[i] - 48) as u64;
        proof {
            lemma_dec_nat_step(m as nat, d as nat);
            assert(b@.subrange(pos as int, i + 1) =~= b@.subrange(pos as int, i as int).push(b@[i as int]));
        }
        if m > (u64::MAX - d) / 10 {
            proof {
                let big: nat = m as nat * 10 + d as nat;
                assert(big > u64::MAX) by (nonlinear_arith)
                    requires
                        m > (u64::MAX - d) / 10,
                        d < 10,
                        big == m * 10 + d,
                ;
                assert forall|n: nat, rest: Seq<u8>|
                    #![trigger dec_nat(n) + rest]
                    n <= u64::MAX && stops_digits(rest) && bs == dec_nat(n) + rest implies false by {
                    lemma_nat_target(bs, n, rest);
                    let k = (i - pos) as int;
                    lemma_dec_nat_shape(big);
                    assert(bs.subrange(0, k + 1) == dec_nat(big));
                    if k >= dec_nat(n).len() {
                        assert(bs[dec_nat(n).len() as int] == dec_nat(big)[dec_nat(n).len() as int]);
                    }
                    let x = dec_nat(n).subrange(k + 1, dec_nat(n).len() as int);
                    assert(dec_nat(big) + x =~= dec_nat(n));
                    lemma_dec_nat_prefix_le(big, n, x);
                }
            }
            return Err(DecodeError::IntegerFormat);
        }
        proof {
            assert(m * 10 + d <= u64::MAX) by (nonlinear_arith)
                requires
                    m <= (u64::MAX - d) / 10,
                    d < 10,
            ;
        }
        m = m * 10 + d;
        i = i + 1;
    }
    proof {
        let tail = b@.subrange(i as int, b.len() as int);
        assert(stops_digits(tail)) by {
            if tail.len() > 0 {
                assert(tail[0] == b@[i as int]);
            }
        }
        assert(bs =~= dec_nat(m as nat) + tail);
        assert forall|n: nat, rest: Seq<u8>|
            #![trigger dec_nat(n) + rest]
            n <= u64::MAX && stops_digits(rest) && bs == dec_nat(n) + rest implies n == m && i == pos
                + dec_nat(n).len() by {
            lemma_dec_nat_prefix_free(m as nat, n, tail, rest);
        }
    }
    Ok((m, i))
}

/// Reads `<len>:<bytes>` at `pos`.
fn parse_bytes(b: &[u8], pos: usize) -> (r: Result<(Vec<u8>, usize), DecodeError>)
    ensures
        r is Ok ==> {
            let (s, e) = r->Ok_0;
            pos < e <= b.len() && b@.subrange(pos as int, e as int) == enc_bytes(s@)
        },
        forall|k: Seq<u8>, rest: Seq<u8>|
            #![trigger enc_bytes(k) + rest]
            pos <= b.len() && b@.subrange(pos as int, b.len() as int) == enc_bytes(k) + rest ==> r is Ok
                && r->Ok_0.0@ == k && r->Ok_0.1 == pos + enc_bytes(k).len(),
{
    let ghost bs = b@.subrange(pos as int, b.len() as int);
    proof {
        assert forall|k: Seq<u8>, rest: Seq<u8>|
            #![trigger enc_bytes(k) + rest]
            pos <= b.len() && bs == enc_bytes(k) + rest implies k.len() <= u64::MAX && stops_digits(
                seq![58u8] + k + rest,
            ) && bs == dec_nat(k.len()) + (seq![58u8] + k + rest) by {
            assert((seq![58u8] + k + rest)[0] == 58u8);
            assert(enc_bytes(k) + rest =~= dec_nat(k.len()) + (seq![58u8] + k + rest));
        }
    }
    let (n, p) = match parse_nat(b, pos) {
        Ok(x) => x,
        Err(e) => {
            proof {
                assert forall|k: Seq<u8>, rest: Seq<u8>|
                    #![trigger enc_bytes(k) + rest]
                    pos <= b.len() && bs == enc_bytes(k) + rest implies false by {
                    assert(bs == dec_nat(k.len()) + (seq![58u8] + k + rest));
                }
            }
            return Err(e);
        },
    };
    proof {
        assert forall|k: Seq<u8>, rest: Seq<u8>|
            #![trigger enc_bytes(k) + rest]
            pos <= b.len() && bs == enc_bytes(k) + rest implies n == k.len() && p == pos + dec_nat(k.len()).len()
                && p < b.len() && b@[p as int] == 58u8 && k.len() <= b.len() - p - 1 && b@.subrange(
                p + 1,
                p + 1 + k.len(),
            ) == k by {
            let t = seq![58u8] + k + rest;
            assert(bs == dec_nat(k.len()) + t);
            let dl = dec_nat(k.len()).len() as int;
            assert(bs[dl] == t[0]);
            assert(b@.subrange(p + 1, p + 1 + k.len()) =~= bs.subrange(dl + 1, dl + 1 + k.len()));
            assert(bs.subrange(dl + 1, dl + 1 + k.len()) =~= k);
        }
    }
    if p >= b.len() {
        return Err(DecodeError::Eof);
    }
    if b[p] != 58u8 {
        return Err(DecodeError::Syntax);
    }
    let start: usize = p + 1;
    if n > (b.len() - start) as u64 {
        return Err(DecodeError::Eof);
    }
    let end: usize = start + n as usize;
    let mut out: Vec<u8> = Vec::new();
    let mut i: usize = start;
    while i < end
        invariant
            start <= i <= end <= b.len(),
            out@ == b@.subrange(start as int, i as int),
        decreases end - i,
    {
        out.push(b[i]);
        i = i + 1;
        assert(out@ =~= b@.subrange(start as int, i as int));
    }
    assert(b@.subrange(pos as int, end as int) =~= b@.subrange(pos as int, p as int) + seq![58u8]
        + b@.subrange(start as int, end as int));
    Ok((out, end))
}

/// Reads `<integer>e` at `pos`, just after the `i`.
/// The magnitude of an integer.
pub open spec fn mag(n: i64) -> nat {
    if n < 0 {
        (-n) as nat
    } else {
        n as nat
    }
}

fn parse_int_body(b: &[u8], pos: usize) -> (r: Result<(i64, usize), DecodeError>)
    ensures
        r is Ok ==> {
            let (n, e) = r->Ok_0;
            pos < e <= b.len() && b@.subrange(pos as int, e as int) == dec_int(n as int) + seq![101u8]
        },
        forall|n: i64, rest: Seq<u8>|
            #![trigger dec_int(n as int) + seq![101u8] + rest]
            pos <= b.len() && b@.subrange(pos as int, b.len() as int) == dec_int(n as int) + seq![101u8]
                + rest ==> r is Ok && r->Ok_0.0 == n && r->Ok_0.1 == pos + dec_int(n as int).len() + 1,
        pos + 2 < b.len() && b@[pos as int] == 45u8 && b@[pos + 1] == 48u8 ==> r == Err::<(i64, usize), DecodeError>(
            DecodeError::IntegerFormat,
        ),
        pos + 1 < b.len() && b@[pos as int] == 48u8 && is_digit_byte(b@[pos + 1]) ==> r == Err::<(i64, usize), DecodeError>(
            DecodeError::IntegerFormat,
        ),
{
    let ghost bs = b@.subrange(pos as int, b.len() as int);
    proof {
        assert forall|n: i64, rest: Seq<u8>|
            #![trigger dec_int(n as int) + seq![101u8] + rest]
            pos <= b.len() && bs == dec_int(n as int) + seq![101u8] + rest implies {
                let sk: int = if n < 0 { 1 } else { 0 };
                &&& bs.len() >= 1
                &&& (bs[0] == 45u8) == (n < 0)
                &&& b@.subrange(pos + sk, b.len() as int) == dec_nat(mag(n)) + (seq![101u8] + rest)
                &&& stops_digits(seq![101u8] + rest)
                &&& mag(n) <= u64::MAX
                &&& dec_int(n as int).len() == sk + dec_nat(mag(n)).len()
            } by {
            let sk: int = if n < 0 { 1 } else { 0 };
            lemma_dec_nat_shape(mag(n));
            assert((seq![101u8] + rest)[0] == 101u8);
            if n < 0 {
                assert(bs =~= seq![45u8] + (dec_nat(mag(n)) + (seq![101u8] + rest)));
                assert(b@.subrange(pos + sk, b.len() as int) =~= bs.subrange(1, bs.len() as int));
            } else {
                assert(bs =~= dec_nat(mag(n)) + (seq![101u8] + rest));
                assert(bs[0] == dec_nat(mag(n))[0]);
            }
        }
    }
    if pos >= b.len() {
        return Err(DecodeError::Eof);
    }
    let neg = b[pos] == 45u8;
    let digits: usize = if neg { pos + 1 } else { pos };
    let res = parse_nat(b, digits);
    proof {
        assert forall|n: i64, rest: Seq<u8>|
            #![trigger dec_int(n as int) + seq![101u8] + rest]
            pos <= b.len() && bs == dec_int(n as int) + seq![101u8] + rest implies (neg == (n < 0)) && res is Ok
                && res->Ok_0.0 == mag(n) && res->Ok_0.1 == digits + dec_nat(mag(n)).len() by {
            assert(bs[0] == b@[pos as int]);
            assert(b@.subrange(digits as int, b.len() as int) == dec_nat(mag(n)) + (seq![101u8] + rest));
        }
        assert forall|n: i64, rest: Seq<u8>|
            #![trigger dec_int(n as int) + seq![101u8] + rest]
            pos <= b.len() && bs == dec_int(n as int) + seq![101u8] + rest implies res->Ok_0.1 < b.len() && b@[res->Ok_0.1 as int] == 101u8 by {
            let dl = dec_nat(mag(n)).len() as int;
            let tail = b@.subrange(digits as int, b.len() as int);
            assert(tail == dec_nat(mag(n)) + (seq![101u8] + rest));
            assert(tail[dl] == 101u8);
        }
    }
    let (m, p) = match res {
        Ok(x) => x,
        Err(DecodeError::Syntax) => return Err(DecodeError::IntegerFormat),
        Err(e) => return Err(e),
    };
    if p >= b.len() {
        return Err(DecodeError::Eof);
    }
    if b[p] != 101u8 {
        return Err(DecodeError::IntegerFormat);
    }
    let n: i64 = if neg {
        if m == 0 || m > 9223372036854775808u64 {
            return Err(DecodeError::IntegerFormat);
        }
        if m == 9223372036854775808u64 {
            i64::MIN
        } else {
            -(m as i64)
        }
    } else {
        if m > 9223372036854775807u64 {
            return Err(DecodeError::IntegerFormat);
        }
        m as i64
    };
    proof {
        if neg {
            assert(b@.subrange(pos as int, p + 1) =~= seq![45u8] + b@.subrange(digits as int, p as int)
                + seq![101u8]);
        } else {
            assert(b@.subrange(pos as int, p + 1) =~= b@.subrange(digits as int, p as int) + seq![101u8]);
        }
    }
    Ok((n, p + 1))
}

/// `bs` starts with the encoding of the well-formed value `v`, and `rest`
/// follows it.
pub open spec fn value_at(bs: Seq<u8>, v: Bv, rest: Seq<u8>) -> bool {
    wf(v) && bs == enc(v) + rest
}

/// `bs` starts with the encoding of the well-formed value `v`.
pub open spec fn value_starts(bs: Seq<u8>, v: Bv) -> bool {
    exists|rest: Seq<u8>| #[trigger] value_at(bs, v, rest)
}

/// `bs` starts with the encoding of some well-formed value.
pub open spec fn has_value_at(bs: Seq<u8>) -> bool {
    exists|v: Bv| #[trigger] value_starts(bs, v)
}

/// The well-formed value whose encoding starts `bs`, if there is one.
pub open spec fn the_value_at(bs: Seq<u8>) -> Bv {
    choose|v: Bv| #[trigger] value_starts(bs, v)
}

pub proof fn lemma_value_at_unique(bs: Seq<u8>, v: Bv, rest: Seq<u8>)
    requires
        value_at(bs, v, rest),
    ensures
        has_value_at(bs),
        the_value_at(bs) == v,
{
    assert(value_starts(bs, v));
    let v2 = the_value_at(bs);
    let r2 = choose|r: Seq<u8>| #[trigger] value_at(bs, v2, r);
    lemma_enc_prefix_free(v, v2, rest, r2);
}

pub proof fn lemma_enc_first_kind(v: Bv)
    ensures
        enc(v).len() >= 1,
        v is Int <==> enc(v)[0] == 105u8,
        v is Bytes <==> is_digit_byte(enc(v)[0]),
        v is List <==> enc(v)[0] == 108u8,
        v is Dict <==> enc(v)[0] == 100u8,
{
    match v {
        Bv::Bytes(b) => {
            lemma_dec_nat_shape(b.len());
            assert(enc(v)[0] == dec_nat(b.len())[0]);
        },
        _ => {},
    }
}

/// `bs` starts with an integer that has a leading zero, or is minus zero.
pub open spec fn leading_zero_int(bs: Seq<u8>) -> bool {
    &&& bs.len() >= 3
    &&& bs[0] == 105u8
    &&& (bs.len() >= 4 && bs[1] == 45u8 && bs[2] == 48u8) || (bs[1] == 48u8 && is_digit_byte(bs[2]))
}

/// `bs` is a dictionary whose first entry `(k1, x1)` is canonical and
/// whose second key is `k2`: `d<k1><x1><k2>` and then `rest`.
pub open spec fn leading_keys(bs: Seq<u8>, k1: Seq<u8>, x1: Bv, k2: Seq<u8>, rest: Seq<u8>) -> bool {
    wf(x1) && bs == seq![100u8] + (enc_bytes(k1) + (enc(x1) + (enc_bytes(k2) + rest)))
}

/// The second key of such a dictionary repeats the first, or sorts before it.
pub open spec fn misordered_keys(bs: Seq<u8>) -> bool {
    exists|k1: Seq<u8>, x1: Bv, k2: Seq<u8>, rest: Seq<u8>|
        #[trigger] leading_keys(bs, k1, x1, k2, rest) && (k2 == k1 || lex_lt(k2, k1))
}

pub proof fn lemma_leading_keys_unique(
    bs: Seq<u8>,
    k1: Seq<u8>,
    x1: Bv,
    k2: Seq<u8>,
    rest: Seq<u8>,
    j1: Seq<u8>,
    y1: Bv,
    j2: Seq<u8>,
    rest2: Seq<u8>,
)
    requires
        leading_keys(bs, k1, x1, k2, rest),
        leading_keys(bs, j1, y1, j2, rest2),
    ensures
        k1 == j1 && x1 == y1 && k2 == j2 && rest == rest2,
{
    let t1 = enc_bytes(k1) + (enc(x1) + (enc_bytes(k2) + rest));
    let t2 = enc_bytes(j1) + (enc(y1) + (enc_bytes(j2) + rest2));
    assert(t1 =~= bs.subrange(1, bs.len() as int));
    assert(t2 =~= bs.subrange(1, bs.len() as int));
    lemma_enc_bytes_prefix_free(k1, j1, enc(x1) + (enc_bytes(k2) + rest), enc(y1) + (enc_bytes(j2) + rest2));
    lemma_enc_prefix_free(x1, y1, enc_bytes(k2) + rest, enc_bytes(j2) + rest2);
    lemma_enc_bytes_prefix_free(k2, j2, rest, rest2);
}

/// Reads one value starting at `pos`, and gives the position just past it.
/// Only canonical forms are accepted, so what is read encodes back to the
/// very bytes it was read from; and where the bytes at `pos` start with the
/// encoding of a well-formed value, that value is read.
#[verifier::rlimit(100)]
#[verifier::spinoff_prover]
pub fn parse_value(b: &[u8], pos: usize) -> (r: Result<(Value, usize), DecodeError>)
    ensures
        r is Ok ==> {
            let (v, e) = r->Ok_0;
            &&& pos < e <= b.len()
            &&& wf(v@)
            &&& b@.subrange(pos as int, e as int) == enc(v@)
        },
        pos <= b.len() && has_value_at(b@.subrange(pos as int, b.len() as int)) ==> {
            let tv = the_value_at(b@.subrange(pos as int, b.len() as int));
            r is Ok && r->Ok_0.0@ == tv && r->Ok_0.1 == pos + enc(tv).len()
        },
        pos >= b.len() ==> r == Err::<(Value, usize), DecodeError>(DecodeError::Eof),
        pos <= b.len() && leading_zero_int(b@.subrange(pos as int, b.len() as int)) ==> r == Err::<
            (Value, usize),
            DecodeError,
        >(DecodeError::IntegerFormat),
        forall|k1: Seq<u8>, x1: Bv, k2: Seq<u8>, rest: Seq<u8>|
            #![trigger leading_keys(b@.subrange(pos as int, b.len() as int), k1, x1, k2, rest)]
            pos <= b.len() && leading_keys(b@.subrange(pos as int, b.len() as int), k1, x1, k2, rest) ==> (k2
                == k1 ==> r == Err::<(Value, usize), DecodeError>(DecodeError::DuplicateKey)) && (lex_lt(k2, k1)
                ==> r == Err::<(Value, usize), DecodeError>(DecodeError::NonCanonical)),
    decreases b.len() - pos,
{
    let ghost bs = b@.subrange(pos as int, b.len() as int);
    let ghost has = pos <= b.len() && has_value_at(bs);
    let ghost tv = the_value_at(bs);
    let ghost tr = choose|r: Seq<u8>| #[trigger] value_at(bs, tv, r);
    let ghost bad = pos <= b.len() && misordered_keys(bs);
    let ghost (bk1, bx1, bk2, brest) = choose|k1: Seq<u8>, x1: Bv, k2: Seq<u8>, rest: Seq<u8>|
        #[trigger] leading_keys(bs, k1, x1, k2, rest) && (k2 == k1 || lex_lt(k2, k1));
    proof {
        assert forall|k1: Seq<u8>, x1: Bv, k2: Seq<u8>, rest: Seq<u8>|
            #![trigger leading_keys(bs, k1, x1, k2, rest)]
            pos <= b.len() && leading_keys(bs, k1, x1, k2, rest) && (k2 == k1 || lex_lt(k2, k1)) implies bad
                && k1 == bk1 && x1 == bx1 && k2 == bk2 && rest == brest by {
            lemma_leading_keys_unique(bs, k1, x1, k2, rest, bk1, bx1, bk2, brest);
        }
        assert forall|k1: Seq<u8>, x1: Bv, k2: Seq<u8>, rest: Seq<u8>|
            #![trigger leading_keys(bs, k1, x1, k2, rest)]
            leading_keys(bs, k1, x1, k2, rest) implies bs.len() >= 1 && bs[0] == 100u8 by {}
        if bad {
            assert(bs[0] == 100u8);
        }
    }
    proof {
        if has {
            let v0 = choose|v: Bv| #[trigger] value_starts(bs, v);
            let r0 = choose|r: Seq<u8>| #[trigger] value_at(bs, v0, r);
            lemma_value_at_unique(bs, v0, r0);
            assert(value_at(bs, tv, r0));
            assert(value_at(bs, tv, tr));
            lemma_enc_first_kind(tv);
            assert(bs.len() >= 1);
            assert(bs[0] == enc(tv)[0]);
        }
    }
    assert(has ==> value_at(bs, tv, tr) && bs.len() >= 1 && bs[0] == enc(tv)[0]);
    if pos >= b.len() {
        return Err(DecodeError::Eof);
    }
    let c = b[pos];
    assert(has ==> bs[0] == c);
    if c == 105u8 {
        proof {
            if has {
                let n = tv->Int_0;
                assert(bs =~= seq![105u8] + (dec_int(n as int) + seq![101u8] + tr));
                assert(b@.subrange(pos + 1, b.len() as int) =~= bs.subrange(1, bs.len() as int));
                assert(b@.subrange(pos + 1, b.len() as int) =~= dec_int(n as int) + seq![101u8] + tr);
            }
        }
        match parse_int_body(b, pos + 1) {
            Ok((n, e)) => {
                assert(b@.subrange(pos as int, e as int) =~= seq![105u8] + b@.subrange(pos + 1, e as int));
                assert(b@.subrange(pos as int, e as int) =~= enc(Value::Int(n)@));
                Ok((Value::Int(n), e))
            },
            Err(e) => Err(e),
        }
    } else if is_digit(c) {
        proof {
            if has {
                assert(bs == enc_bytes(tv->Bytes_0) + tr);
            }
        }
        match parse_bytes(b, pos) {
            Ok((s, e)) => Ok((Value::Bytes(s), e)),
            Err(e) => Err(e),
        }
    } else if c == 108u8 {
        let ghost tl = tv->List_0;
        proof {
            if has {
                lemma_wf_list_index(tl);
                assert(bs =~= seq![108u8] + (enc_list(tl) + seq![101u8] + tr));
                assert(tl.subrange(0, 0) =~= Seq::<Bv>::empty());
                assert(tl.subrange(0, tl.len() as int) =~= tl);
                assert(b@.subrange(pos + 1, b.len() as int) =~= bs.subrange(1, bs.len() as int));
                assert(b@.subrange(pos + 1, b.len() as int) =~= enc_list(tl.subrange(0, tl.len() as int))
                    + seq![101u8] + tr);
            }
        }
        let mut items: Vec<Value> = Vec::new();
        let mut p: usize = pos + 1;
        loop
            invariant
                pos < p <= b.len(),
                b@[pos as int] == 108u8,
                bs == b@.subrange(pos as int, b.len() as int),
                !leading_zero_int(bs),
                forall|k1: Seq<u8>, x1: Bv, k2: Seq<u8>, rest: Seq<u8>|
                    #![trigger leading_keys(bs, k1, x1, k2, rest)]
                    leading_keys(bs, k1, x1, k2, rest) ==> bs.len() >= 1 && bs[0] == 100u8,
                has == (pos <= b.len() && has_value_at(bs)),
                tv == the_value_at(bs),
                b@.subrange(pos + 1, p as int) == enc_list(view_list(items@)),
                wf_list(view_list(items@)),
                has ==> {
                    &&& tv is List
                    &&& tl == tv->List_0
                    &&& bs == enc(tv) + tr
                    &&& forall|i: int| 0 <= i < tl.len() ==> wf(#[trigger] tl[i])
                    &&& items.len() <= tl.len()
                    &&& view_list(items@) == tl.subrange(0, items.len() as int)
                    &&& b@.subrange(p as int, b.len() as int) == enc_list(
                        tl.subrange(items.len() as int, tl.len() as int),
                    ) + seq![101u8] + tr
                },
            decreases b.len() - p,
        {
            let ghost k = items.len() as int;
            let ghost bp = b@.subrange(p as int, b.len() as int);
            proof {
                if has && k < tl.len() {
                    let t = tl.subrange(k, tl.len() as int);
                    lemma_enc_list_front(t);
                    lemma_enc_first_kind(tl[k]);
                    assert(t.subrange(1, t.len() as int) =~= tl.subrange(k + 1, tl.len() as int));
                    assert(bp =~= enc(tl[k]) + (enc_list(tl.subrange(k + 1, tl.len() as int)) + seq![101u8]
                        + tr));
                    assert(bp[0] == enc(tl[k])[0]);
                    lemma_value_at_unique(bp, tl[k], enc_list(tl.subrange(k + 1, tl.len() as int)) + seq![101u8] + tr);
                }
                if has && k == tl.len() {
                    assert(tl.subrange(k, tl.len() as int) =~= Seq::<Bv>::empty());
                    assert(bp =~= seq![101u8] + tr);
                }
            }
            if p >= b.len() {
                assert(!has) by {
                    if has {
                        assert(bp.len() >= 1);
                    }
                }
                return Err(DecodeError::Eof);
            }
            if b[p] == 101u8 {
                let v = Value::List(items);
                assert(b@.subrange(pos as int, p + 1) =~= seq![108u8] + b@.subrange(pos + 1, p as int)
                    + seq![101u8]);
                proof {
                    if has {
                        assert(k == tl.len());
                        assert(tl.subrange(0, k) =~= tl);
                        assert(bs.len() == enc(tv).len() + tr.len());
                        assert(bp.len() == 1 + tr.len());
                        assert(v@ == tv);
                    }
                }
                return Ok((v, p + 1));
            }
            proof {
                if has {
                    assert(bp[0] == b@[p as int]);
                    assert(k < tl.len());
                    assert(has_value_at(bp));
                    assert(the_value_at(bp) == tl[k]);
                }
            }
            let (x, e) = match parse_value(b, p) {
                Ok(r) => r,
                Err(e) => return Err(e),
            };
            proof {
                lemma_view_list_push(items@, x);
                lemma_enc_list_push(view_list(items@), x@);
                assert(b@.subrange(pos + 1, e as int) =~= b@.subrange(pos + 1, p as int) + b@.subrange(
                    p as int,
                    e as int,
                ));
                let t = view_list(items@).push(x@);
                assert(t.subrange(0, t.len() - 1) =~= view_list(items@));
                if has {
                    assert(tl.subrange(0, k + 1) =~= tl.subrange(0, k).push(tl[k]));
                    let rest = enc_list(tl.subrange(k + 1, tl.len() as int)) + seq![101u8] + tr;
                    assert(bp =~= enc(tl[k]) + rest);
                    assert(b@.subrange(e as int, b.len() as int) =~= bp.subrange(
                        enc(tl[k]).len() as int,
                        bp.len() as int,
                    ));
                    assert(bp.subrange(enc(tl[k]).len() as int, bp.len() as int) =~= rest);
                }
            }
            items.push(x);
            p = e;
        }
    } else if c == 100u8 {
        let ghost td = tv->Dict_0;
        proof {
            if has {
                lemma_wf_dict_index(td);
                assert(bs =~= seq![100u8] + (enc_dict(td) + seq![101u8] + tr));
                assert(td.subrange(0, 0) =~= Seq::<(Seq<u8>, Bv)>::empty());
                assert(td.subrange(0, td.len() as int) =~= td);
                assert(b@.subrange(pos + 1, b.len() as int) =~= bs.subrange(1, bs.len() as int));
                assert(b@.subrange(pos + 1, b.len() as int) =~= enc_dict(td.subrange(0, td.len() as int))
                    + seq![101u8] + tr);
            }
        }
        proof {
            if bad {
                assert(b@.subrange(pos + 1, b.len() as int) =~= bs.subrange(1, bs.len() as int));
                assert(bs.subrange(1, bs.len() as int) =~= enc_bytes(bk1) + (enc(bx1) + (enc_bytes(bk2) + brest)));
            }
        }
        let mut items: Vec<(Vec<u8>, Value)> = Vec::new();
        let mut p: usize = pos + 1;
        loop
            invariant
                pos < p <= b.len(),
                b@[pos as int] == 100u8,
                bs == b@.subrange(pos as int, b.len() as int),
                !leading_zero_int(bs),
                has == (pos <= b.len() && has_value_at(bs)),
                tv == the_value_at(bs),
                b@.subrange(pos + 1, p as int) == enc_dict(view_dict(items@)),
                keys_sorted(view_dict(items@)),
                wf_dict(view_dict(items@)),
                has ==> {
                    &&& tv is Dict
                    &&& td == tv->Dict_0
                    &&& bs == enc(tv) + tr
                    &&& keys_sorted(td)
                    &&& forall|i: int| 0 <= i < td.len() ==> wf(#[trigger] td[i].1)
                    &&& items.len() <= td.len()
                    &&& view_dict(items@) == td.subrange(0, items.len() as int)
                    &&& b@.subrange(p as int, b.len() as int) == enc_dict(
                        td.subrange(items.len() as int, td.len() as int),
                    ) + seq![101u8] + tr
                },
                bad == (pos <= b.len() && misordered_keys(bs)),
                forall|k1: Seq<u8>, x1: Bv, k2: Seq<u8>, rest: Seq<u8>|
                    #![trigger leading_keys(bs, k1, x1, k2, rest)]
                    pos <= b.len() && leading_keys(bs, k1, x1, k2, rest) && (k2 == k1 || lex_lt(k2, k1)) ==> bad
                        && k1 == bk1 && x1 == bx1 && k2 == bk2 && rest == brest,
                bad ==> leading_keys(bs, bk1, bx1, bk2, brest) && (bk2 == bk1 || lex_lt(bk2, bk1)),
                bad ==> (items.len() == 0 && b@.subrange(p as int, b.len() as int) == enc_bytes(bk1) + (enc(bx1)
                    + (enc_bytes(bk2) + brest))) || (items.len() == 1 && items@[0].0@ == bk1
                    && b@.subrange(p as int, b.len() as int) == enc_bytes(bk2) + brest),
            decreases b.len() - p,
        {
            let ghost k = items.len() as int;
            let ghost bp = b@.subrange(p as int, b.len() as int);
            proof {
                if bad {
                    if items.len() == 0 {
                        lemma_dec_nat_shape(bk1.len());
                        assert(bp[0] == dec_nat(bk1.len())[0]);
                    } else {
                        lemma_dec_nat_shape(bk2.len());
                        assert(bp[0] == dec_nat(bk2.len())[0]);
                    }
                    assert(bp.len() >= 1);
                }
            }
            let ghost after_key = enc(td[k].1) + (enc_dict(td.subrange(k + 1, td.len() as int)) + seq![101u8] + tr);
            proof {
                if has && k < td.len() {
                    let t = td.subrange(k, td.len() as int);
                    lemma_enc_dict_front(t);
                    lemma_dec_nat_shape(td[k].0.len());
                    assert(t.subrange(1, t.len() as int) =~= td.subrange(k + 1, td.len() as int));
                    assert(bp =~= enc_bytes(td[k].0) + after_key);
                    assert(bp[0] == dec_nat(td[k].0.len())[0]);
                }
                if has && k == td.len() {
                    assert(td.subrange(k, td.len() as int) =~= Seq::<(Seq<u8>, Bv)>::empty());
                    assert(bp =~= seq![101u8] + tr);
                }
            }
            if p >= b.len() {
                assert(!has) by {
                    if has {
                        assert(bp.len() >= 1);
                    }
                }
                return Err(DecodeError::Eof);
            }
            if b[p] == 101u8 {
                let v = Value::Dict(items);
                assert(b@.subrange(pos as int, p + 1) =~= seq![100u8] + b@.subrange(pos + 1, p as int)
                    + seq![101u8]);
                proof {
                    if has {
                        assert(k == td.len());
                        assert(td.subrange(0, k) =~= td);
                        assert(bs.len() == enc(tv).len() + tr.len());
                        assert(bp.len() == 1 + tr.len());
                        assert(v@ == tv);
                    }
                }
                return Ok((v, p + 1));
            }
            proof {
                if has {
                    assert(bp[0] == b@[p as int]);
                    assert(k < td.len());
                }
            }
            if !is_digit(b[p]) {
                return Err(DecodeError::Syntax);
            }
            proof {
                if bad {
                    if items.len() == 0 {
                        assert(bp == enc_bytes(bk1) + (enc(bx1) + (enc_bytes(bk2) + brest)));
                    } else {
                        assert(bp == enc_bytes(bk2) + brest);
                    }
                }
            }
            let (key, q) = match parse_bytes(b, p) {
                Ok(r) => r,
                Err(e) => return Err(e),
            };
            proof {
                if bad {
                    if items.len() == 0 {
                        let kl = enc_bytes(bk1).len() as int;
                        assert(key@ == bk1);
                        assert(b@.subrange(q as int, b.len() as int) =~= bp.subrange(kl, bp.len() as int));
                        assert(bp.subrange(kl, bp.len() as int) =~= enc(bx1) + (enc_bytes(bk2) + brest));
                        lemma_value_at_unique(b@.subrange(q as int, b.len() as int), bx1, enc_bytes(bk2) + brest);
                    } else {
                        assert(key@ == bk2);
                        lemma_lex_irreflexive(bk1);
                    }
                }
            }
            proof {
                if has {
                    assert(key@ == td[k].0);
                    assert(b@.subrange(q as int, b.len() as int) =~= bp.subrange(
                        enc_bytes(td[k].0).len() as int,
                        bp.len() as int,
                    ));
                    assert(bp.subrange(enc_bytes(td[k].0).len() as int, bp.len() as int) =~= after_key);
                    lemma_value_at_unique(
                        b@.subrange(q as int, b.len() as int),
                        td[k].1,
                        enc_dict(td.subrange(k + 1, td.len() as int)) + seq![101u8] + tr,
                    );
                }
            }
            if items.len() > 0 {
                let last: usize = items.len() - 1;
                proof {
                    let s = items@;
                    assert(s.subrange(0, s.len() - 1).push(s[s.len() - 1]) =~= s);
                    lemma_view_dict_push(s.subrange(0, s.len() - 1), s[s.len() - 1]);
                    if has {
                        assert(view_dict(items@)[k - 1] == td[k - 1]);
                        assert(lex_lt(td[k - 1].0, td[k].0));
                    }
                }
                let o = compare_bytes(items[last].0.as_slice(), key.as_slice());
                if o == 0 {
                    return Err(DecodeError::DuplicateKey);
                } else if o > 0 {
                    return Err(DecodeError::NonCanonical);
                }
            }
            proof {
                if has {
                    assert(has_value_at(b@.subrange(q as int, b.len() as int)));
                    assert(the_value_at(b@.subrange(q as int, b.len() as int)) == td[k].1);
                }
            }
            let (x, e) = match parse_value(b, q) {
                Ok(r) => r,
                Err(e) => return Err(e),
            };
            proof {
                lemma_view_dict_push(items@, (key, x));
                lemma_enc_dict_push(view_dict(items@), key@, x@);
                assert(b@.subrange(pos + 1, e as int) =~= b@.subrange(pos + 1, p as int) + b@.subrange(
                    p as int,
                    q as int,
                ) + b@.subrange(q as int, e as int));
                let t = view_dict(items@).push((key@, x@));
                assert(t.subrange(0, t.len() - 1) =~= view_dict(items@));
                assert forall|i: int| 0 < i < t.len() implies lex_lt(#[trigger] t[i - 1].0, t[i].0) by {
                    if i < t.len() - 1 {
                        assert(t[i - 1] == view_dict(items@)[i - 1]);
                        assert(t[i] == view_dict(items@)[i]);
                    }
                }
                if bad {
                    let bq = b@.subrange(q as int, b.len() as int);
                    assert(bq =~= enc(bx1) + (enc_bytes(bk2) + brest));
                    assert(b@.subrange(e as int, b.len() as int) =~= bq.subrange(
                        enc(bx1).len() as int,
                        bq.len() as int,
                    ));
                    assert(bq.subrange(enc(bx1).len() as int, bq.len() as int) =~= enc_bytes(bk2) + brest);
                }
                if has {
                    assert(td.subrange(0, k + 1) =~= td.subrange(0, k).push(td[k]));
                    let rest = enc_dict(td.subrange(k + 1, td.len() as int)) + seq![101u8] + tr;
                    let bq = b@.subrange(q as int, b.len() as int);
                    assert(bq =~= enc(td[k].1) + rest);
                    assert(b@.subrange(e as int, b.len() as int) =~= bq.subrange(
                        enc(td[k].1).len() as int,
                        bq.len() as int,
                    ));
                    assert(bq.subrange(enc(td[k].1).len() as int, bq.len() as int) =~= rest);
                }
            }
            items.push((key, x));
            p = e;
        }
    } else {
        Err(DecodeError::Syntax)
    }
}

/// Decodes a complete buffer holding exactly one canonical value. It
/// succeeds exactly on the encodings of well-formed values, and then gives
/// back the value encoded. An empty buffer gives `Eof`; bytes after a
/// complete value give `Syntax`; a dictionary whose second key repeats its
/// first gives `DuplicateKey`, and one whose second key sorts before its
/// first gives `NonCanonical`.
pub fn decode(b: &[u8]) -> (r: Result<Value, DecodeError>)
    ensures
        r is Ok ==> wf(r->Ok_0@) && enc(r->Ok_0@) == b@,
        forall|v: Bv| #[trigger] enc(v) == b@ && wf(v) ==> r is Ok && r->Ok_0@ == v,
        b.len() == 0 ==> r == Err::<Value, DecodeError>(DecodeError::Eof),
        leading_zero_int(b@) ==> r == Err::<Value, DecodeError>(DecodeError::IntegerFormat),
        forall|v: Bv, rest: Seq<u8>|
            #![trigger enc(v) + rest]
            wf(v) && b@ == enc(v) + rest && rest.len() > 0 ==> r == Err::<Value, DecodeError>(
                DecodeError::Syntax,
            ),
        forall|k1: Seq<u8>, x1: Bv, k2: Seq<u8>, rest: Seq<u8>|
            #![trigger leading_keys(b@, k1, x1, k2, rest)]
            leading_keys(b@, k1, x1, k2, rest) ==> (k2 == k1 ==> r == Err::<Value, DecodeError>(
                DecodeError::DuplicateKey,
            )) && (lex_lt(k2, k1) ==> r == Err::<Value, DecodeError>(DecodeError::NonCanonical)),
{
    proof {
        assert forall|v: Bv, rest: Seq<u8>|
            #![trigger enc(v) + rest]
            wf(v) && b@ == enc(v) + rest implies has_value_at(b@) && the_value_at(b@) == v by {
            lemma_value_at_unique(b@, v, rest);
        }
    }
    proof {
        assert(b@.subrange(0, b.len() as int) =~= b@);
        assert forall|v: Bv| #[trigger] enc(v) == b@ && wf(v) implies has_value_at(b@) && the_value_at(b@) == v by {
            assert(b@ =~= enc(v) + Seq::<u8>::empty());
            lemma_value_at_unique(b@, v, Seq::<u8>::empty());
        }
    }
    match parse_value(b, 0) {
        Ok((v, e)) => {
            if e != b.len() {
                return Err(DecodeError::Syntax);
            }
            assert(b@.subrange(0, e as int) =~= b@);
            Ok(v)
        },
        Err(e) => Err(e),
    }
}

} // verus!
