//! The operation wire format between the manager and a remote agent: a
//! compact binary encoding of an operation request (operation, resource
//! kind, key-value arguments) and of its reply (a typed status, or an
//! error message). Lengths and counts travel as four little-endian
//! bytes; text as its length followed by its UTF-8 bytes.

use crate::remote::ocf;
use vstd::bytes::{spec_u32_from_le_bytes, spec_u32_to_le_bytes, u32_from_le_bytes, u32_to_le_bytes};
use vstd::prelude::*;
use vstd::string::StrSliceExecFns;
use vstd::utf8::{decode_utf8, encode_utf8, valid_utf8};

verus! {

/// Relies on `String::from_utf8` from std: it succeeds exactly on valid
/// UTF-8 input, and the returned string holds those bytes.
#[verifier::external_body]
fn utf8_to_string(v: Vec<u8>) -> (r: Option<String>)
    ensures
        match r {
            Some(s) => valid_utf8(v@) && s@ == decode_utf8(v@),
            None => !valid_utf8(v@),
        },
{
    match String::from_utf8(v) {
        Ok(s) => Some(s),
        Err(_) => None,
    }
}

/// A string is encodable when its byte form fits a four-byte length.
pub open spec fn str_fits(s: Seq<char>) -> bool {
    encode_utf8(s).len() <= u32::MAX
}

/// A parameter list is encodable when its size and every string fit.
pub open spec fn pairs_fit(ps: Seq<(Seq<char>, Seq<char>)>) -> bool {
    &&& ps.len() <= u32::MAX
    &&& forall|i: int|
        0 <= i < ps.len() ==> str_fits((#[trigger] ps[i]).0) && str_fits(ps[i].1)
}

/// Four little-endian bytes.
pub open spec fn enc_u32(n: u32) -> Seq<u8> {
    spec_u32_to_le_bytes(n)
}

/// A length, then the text's UTF-8 bytes.
pub open spec fn enc_str(s: Seq<char>) -> Seq<u8> {
    enc_u32(encode_utf8(s).len() as u32) + encode_utf8(s)
}

/// A count, then each pair's key and value.
pub open spec fn enc_pairs_from(ps: Seq<(Seq<char>, Seq<char>)>) -> Seq<u8>
    decreases ps.len(),
{
    if ps.len() == 0 {
        Seq::empty()
    } else {
        enc_str(ps[0].0) + enc_str(ps[0].1) + enc_pairs_from(ps.skip(1))
    }
}

pub open spec fn enc_pairs(ps: Seq<(Seq<char>, Seq<char>)>) -> Seq<u8> {
    enc_u32(ps.len() as u32) + enc_pairs_from(ps)
}

/// The tag byte of an operation.
pub open spec fn op_tag(op: ocf::Operation) -> u8 {
    match op {
        ocf::Operation::Start => 0u8,
        ocf::Operation::Stop => 1u8,
        ocf::Operation::Monitor => 2u8,
    }
}

/// An operation request: the operation's tag, the resource kind, the
/// arguments.
pub open spec fn enc_request(
    op: ocf::Operation,
    resource: Seq<char>,
    args: Seq<(Seq<char>, Seq<char>)>,
) -> Seq<u8> {
    seq![op_tag(op)] + enc_str(resource) + enc_pairs(args)
}

/// An operation reply: a zero tag and the status's code byte, or a one
/// tag and the error message.
pub open spec fn enc_reply(result: Result<ocf::Status, Seq<char>>) -> Seq<u8> {
    match result {
        Ok(st) => seq![0u8, ocf::code_of_status(st) as u8],
        Err(msg) => seq![1u8] + enc_str(msg),
    }
}

/// What reading four length bytes at `pos` yields.
pub open spec fn dec_u32(b: Seq<u8>, pos: int) -> Option<(u32, int)> {
    if 0 <= pos && pos + 4 <= b.len() {
        Some((spec_u32_from_le_bytes(b.subrange(pos, pos + 4)), pos + 4))
    } else {
        None
    }
}

/// What reading a string at `pos` yields.
pub open spec fn dec_str(b: Seq<u8>, pos: int) -> Option<(Seq<char>, int)> {
    match dec_u32(b, pos) {
        Some((n, p)) => if p + n <= b.len() && valid_utf8(b.subrange(p, p + n)) {
            Some((decode_utf8(b.subrange(p, p + n)), p + n))
        } else {
            None
        },
        None => None,
    }
}

/// What reading `n` pairs at `pos` yields.
pub open spec fn dec_pairs_from(b: Seq<u8>, pos: int, n: int) -> Option<
    (Seq<(Seq<char>, Seq<char>)>, int),
>
    decreases n,
{
    if n <= 0 {
        Some((Seq::empty(), pos))
    } else {
        match dec_str(b, pos) {
            Some((k, p1)) => match dec_str(b, p1) {
                Some((v, p2)) => match dec_pairs_from(b, p2, n - 1) {
                    Some((rest, p3)) => Some((seq![(k, v)] + rest, p3)),
                    None => None,
                },
                None => None,
            },
            None => None,
        }
    }
}

pub open spec fn dec_pairs(b: Seq<u8>, pos: int) -> Option<(Seq<(Seq<char>, Seq<char>)>, int)> {
    match dec_u32(b, pos) {
        Some((n, p)) => dec_pairs_from(b, p, n as int),
        None => None,
    }
}

/// What reading a whole request yields.
pub open spec fn dec_request(b: Seq<u8>) -> Option<
    (ocf::Operation, Seq<char>, Seq<(Seq<char>, Seq<char>)>),
> {
    if b.len() < 1 {
        None
    } else {
        let op = if b[0] == 0u8 {
            Some(ocf::Operation::Start)
        } else if b[0] == 1u8 {
            Some(ocf::Operation::Stop)
        } else if b[0] == 2u8 {
            Some(ocf::Operation::Monitor)
        } else {
            None
        };
        match op {
            Some(op) => match dec_str(b, 1) {
                Some((resource, p1)) => match dec_pairs(b, p1) {
                    Some((args, p2)) => if p2 == b.len() {
                        Some((op, resource, args))
                    } else {
                        None
                    },
                    None => None,
                },
                None => None,
            },
            None => None,
        }
    }
}

fn push_u32(out: &mut Vec<u8>, n: u32)
    ensures
        final(out)@ == old(out)@ + enc_u32(n),
{
    let mut b = u32_to_le_bytes(n);
    out.append(&mut b);
}

/// Append a string's encoding; a string too long for its length field is
/// refused with the output untouched.
fn push_str(out: &mut Vec<u8>, s: &str) -> (ok: bool)
    ensures
        ok ==> str_fits(s@) && final(out)@ == old(out)@ + enc_str(s@),
        !ok ==> !str_fits(s@) && final(out)@ == old(out)@,
{
    let mut b = s.as_bytes_vec();
    if b.len() as u64 > u32::MAX as u64 {
        return false;
    }
    push_u32(out, b.len() as u32);
    out.append(&mut b);
    proof {
        assert(final(out)@ == old(out)@ + enc_str(s@));
    }
    true
}

/// Encode an operation request. `None` exactly when the resource kind,
/// an argument string, or the argument count does not fit the format's
/// four-byte length fields.
pub fn encode_request(op: ocf::Operation, resource: &str, args: &Vec<(String, String)>) -> (r:
    Option<Vec<u8>>)
    ensures
        match r {
            Some(out) => str_fits(resource@) && pairs_fit(crate::resource::params_model(args@))
                && out@ == enc_request(op, resource@, crate::resource::params_model(args@)),
            None => !str_fits(resource@) || !pairs_fit(crate::resource::params_model(args@)),
        },
{
    let ghost pm = crate::resource::params_model(args@);
    let mut out: Vec<u8> = Vec::new();
    let tag: u8 = match op {
        ocf::Operation::Start => 0,
        ocf::Operation::Stop => 1,
        ocf::Operation::Monitor => 2,
    };
    out.push(tag);
    proof {
        assert(out@ =~= seq![op_tag(op)]);
    }
    if !push_str(&mut out, resource) {
        return None;
    }
    if args.len() as u64 > u32::MAX as u64 {
        proof {
            assert(pm.len() > u32::MAX);
        }
        return None;
    }
    push_u32(&mut out, args.len() as u32);
    let mut i: usize = 0;
    proof {
        assert(pm.skip(0) =~= pm);
        assert(out@ + enc_pairs_from(pm) =~= seq![op_tag(op)] + enc_str(resource@) + enc_u32(
            pm.len() as u32,
        ) + enc_pairs_from(pm));
    }
    while i < args.len()
        invariant
            0 <= i <= args@.len(),
            pm == crate::resource::params_model(args@),
            pm.len() == args@.len(),
            str_fits(resource@),
            forall|j: int| 0 <= j < i ==> str_fits((#[trigger] pm[j]).0) && str_fits(pm[j].1),
            out@ + enc_pairs_from(pm.skip(i as int)) == seq![op_tag(op)] + enc_str(resource@)
                + enc_u32(pm.len() as u32) + enc_pairs_from(pm),
        decreases args@.len() - i,
    {
        let ghost pre = out@;
        proof {
            assert(pm[i as int] == (args@[i as int].0@, args@[i as int].1@));
            assert(pm.skip(i as int)[0] == pm[i as int]);
            assert(pm.skip(i as int).skip(1) =~= pm.skip(i + 1));
        }
        if !push_str(&mut out, args[i].0.as_str()) {
            return None;
        }
        if !push_str(&mut out, args[i].1.as_str()) {
            return None;
        }
        proof {
            assert(enc_pairs_from(pm.skip(i as int)) == enc_str(pm[i as int].0) + enc_str(
                pm[i as int].1,
            ) + enc_pairs_from(pm.skip(i + 1)));
            assert(out@ + enc_pairs_from(pm.skip(i + 1)) =~= pre + enc_pairs_from(
                pm.skip(i as int),
            ));
        }
        i = i + 1;
    }
    proof {
        assert(pm.skip(pm.len() as int) =~= Seq::<(Seq<char>, Seq<char>)>::empty());
        assert(enc_pairs_from(Seq::empty()) == Seq::<u8>::empty());
        assert(out@ + Seq::<u8>::empty() =~= out@);
        assert(out@ =~= enc_request(op, resource@, pm));
    }
    Some(out)
}

/// Encode an operation reply. `None` exactly when an error message does
/// not fit the format's length field.
pub fn encode_reply(result: &Result<ocf::Status, String>) -> (r: Option<Vec<u8>>)
    ensures
        match r {
            Some(out) => match result {
                Ok(st) => out@ == enc_reply(Ok(*st)),
                Err(msg) => str_fits(msg@) && out@ == enc_reply(Err(msg@)),
            },
            None => result matches Err(msg) && !str_fits(msg@),
        },
{
    let mut out: Vec<u8> = Vec::new();
    match result {
        Ok(st) => {
            out.push(0u8);
            let code = st.code();
            proof {
                ocf::lemma_status_code_bijection();
            }
            out.push(code as u8);
            proof {
                assert(out@ =~= enc_reply(Ok(*st)));
            }
            Some(out)
        },
        Err(msg) => {
            out.push(1u8);
            if !push_str(&mut out, msg.as_str()) {
                return None;
            }
            proof {
                assert(out@ =~= enc_reply(Err(msg@)));
            }
            Some(out)
        },
    }
}

fn read_u32(buf: &Vec<u8>, pos: usize) -> (r: Option<(u32, usize)>)
    ensures
        match r {
            Some((n, p)) => dec_u32(buf@, pos as int) == Some((n, p as int)),
            None => dec_u32(buf@, pos as int) is None,
        },
{
    if buf.len() < 4 || pos > buf.len() - 4 {
        return None;
    }
    let s = vstd::slice::slice_subrange(buf.as_slice(), pos, pos + 4);
    let n = u32_from_le_bytes(s);
    Some((n, pos + 4))
}

fn read_string(buf: &Vec<u8>, pos: usize) -> (r: Option<(String, usize)>)
    ensures
        match r {
            Some((s, p)) => dec_str(buf@, pos as int) matches Some((sv, pv)) && s@ == sv && p as int
                == pv,
            None => dec_str(buf@, pos as int) is None,
        },
{
    let (n, p) = match read_u32(buf, pos) {
        Some(x) => x,
        None => {
            return None;
        },
    };
    let n = n as usize;
    if n > buf.len() - p {
        return None;
    }
    let s = vstd::slice::slice_subrange(buf.as_slice(), p, p + n);
    let bytes = vstd::slice::slice_to_vec(s);
    match utf8_to_string(bytes) {
        Some(s) => Some((s, p + n)),
        None => None,
    }
}

fn parse_pairs_from(buf: &Vec<u8>, pos: usize, n: u32) -> (r: Option<
    (Vec<(String, String)>, usize),
>)
    ensures
        match r {
            Some((ps, p)) => dec_pairs_from(buf@, pos as int, n as int) matches Some((pv, pp))
                && crate::resource::params_model(ps@) == pv && p as int == pp,
            None => dec_pairs_from(buf@, pos as int, n as int) is None,
        },
    decreases n,
{
    if n == 0 {
        let ps: Vec<(String, String)> = Vec::new();
        proof {
            assert(crate::resource::params_model(ps@) =~= Seq::<(Seq<char>, Seq<char>)>::empty());
        }
        return Some((ps, pos));
    }
    let (k, p1) = match read_string(buf, pos) {
        Some(x) => x,
        None => {
            return None;
        },
    };
    let (v, p2) = match read_string(buf, p1) {
        Some(x) => x,
        None => {
            return None;
        },
    };
    let (mut rest, p3) = match parse_pairs_from(buf, p2, n - 1) {
        Some(x) => x,
        None => {
            return None;
        },
    };
    let ghost rest_model = crate::resource::params_model(rest@);
    let ghost pre = rest@;
    let ghost kc = k@;
    let ghost vc = v@;
    let ghost kv = (k, v);
    rest.insert(0, (k, v));
    proof {
        assert(rest@ =~= seq![kv] + pre);
        assert forall|t: int|
            0 <= t < crate::resource::params_model(rest@).len() implies crate::resource::params_model(
            rest@,
        )[t] == (seq![(kc, vc)] + rest_model)[t] by {
            if t == 0 {
                assert(rest@[0] == kv);
            } else {
                assert(rest@[t] == pre[t - 1]);
            }
        }
        assert(crate::resource::params_model(rest@) =~= seq![(kc, vc)] + rest_model);
    }
    Some((rest, p3))
}

/// What reading a whole reply yields.
pub open spec fn dec_reply(b: Seq<u8>) -> Option<Result<ocf::Status, Seq<char>>> {
    if b.len() < 1 {
        None
    } else if b[0] == 0u8 {
        if b.len() == 2 {
            Some(Ok(ocf::status_of_code(b[1] as int)))
        } else {
            None
        }
    } else if b[0] == 1u8 {
        match dec_str(b, 1) {
            Some((msg, p)) => if p == b.len() {
                Some(Err(msg))
            } else {
                None
            },
            None => None,
        }
    } else {
        None
    }
}

/// Parse a whole operation request. `None` exactly when the bytes are
/// not one well-formed request.
pub fn parse_request(buf: &Vec<u8>) -> (r: Option<
    (ocf::Operation, String, Vec<(String, String)>),
>)
    ensures
        match r {
            Some((op, resource, args)) => dec_request(buf@) == Some(
                (op, resource@, crate::resource::params_model(args@)),
            ),
            None => dec_request(buf@) is None,
        },
{
    if buf.len() < 1 {
        return None;
    }
    let op = match buf[0] {
        0 => ocf::Operation::Start,
        1 => ocf::Operation::Stop,
        2 => ocf::Operation::Monitor,
        _ => {
            return None;
        },
    };
    let (resource, p1) = match read_string(buf, 1) {
        Some(x) => x,
        None => {
            return None;
        },
    };
    let (n, p2) = match read_u32(buf, p1) {
        Some(x) => x,
        None => {
            return None;
        },
    };
    let (args, p3) = match parse_pairs_from(buf, p2, n) {
        Some(x) => x,
        None => {
            return None;
        },
    };
    if p3 != buf.len() {
        return None;
    }
    Some((op, resource, args))
}

/// Parse a whole operation reply. `None` exactly when the bytes are not
/// one well-formed reply.
pub fn parse_reply(buf: &Vec<u8>) -> (r: Option<Result<ocf::Status, String>>)
    ensures
        match r {
            Some(result) => dec_reply(buf@) == Some(
                match result {
                    Ok(st) => Ok::<ocf::Status, Seq<char>>(st),
                    Err(msg) => Err::<ocf::Status, Seq<char>>(msg@),
                },
            ),
            None => dec_reply(buf@) is None,
        },
{
    if buf.len() < 1 {
        return None;
    }
    if buf[0] == 0 {
        if buf.len() != 2 {
            return None;
        }
        let st = ocf::Status::from_code(buf[1] as i32);
        return Some(Ok(st));
    }
    if buf[0] != 1 {
        return None;
    }
    let (msg, p) = match read_string(buf, 1) {
        Some(x) => x,
        None => {
            return None;
        },
    };
    if p != buf.len() {
        return None;
    }
    Some(Err(msg))
}

proof fn lemma_dec_enc_u32(b: Seq<u8>, pos: int, n: u32)
    requires
        0 <= pos,
        pos + 4 <= b.len(),
        b.subrange(pos, pos + 4) == enc_u32(n),
    ensures
        dec_u32(b, pos) == Some((n, pos + 4)),
{
    vstd::bytes::lemma_auto_spec_u32_to_from_le_bytes();
    assert(spec_u32_to_le_bytes(n).len() == 4);
    assert(spec_u32_from_le_bytes(spec_u32_to_le_bytes(n)) == n);
    assert(spec_u32_from_le_bytes(b.subrange(pos, pos + 4)) == n);
}

proof fn lemma_dec_enc_str(b: Seq<u8>, pos: int, s: Seq<char>)
    requires
        str_fits(s),
        0 <= pos,
        pos + enc_str(s).len() <= b.len(),
        b.subrange(pos, pos + enc_str(s).len()) == enc_str(s),
    ensures
        dec_str(b, pos) == Some((s, pos + enc_str(s).len())),
{
    broadcast use vstd::utf8::encode_utf8_valid_utf8;
    broadcast use vstd::utf8::encode_utf8_decode_utf8;

    let bytes = encode_utf8(s);
    let m = bytes.len() as u32;
    vstd::bytes::lemma_auto_spec_u32_to_from_le_bytes();
    assert(enc_u32(m).len() == 4);
    assert(b.subrange(pos, pos + 4) =~= enc_str(s).subrange(0, 4)) by {
        assert(forall|t: int|
            0 <= t < 4 ==> #[trigger] b.subrange(pos, pos + 4)[t] == b.subrange(
                pos,
                pos + enc_str(s).len(),
            )[t]);
    }
    assert(enc_str(s).subrange(0, 4) =~= enc_u32(m));
    lemma_dec_enc_u32(b, pos, m);
    assert(b.subrange(pos + 4, pos + 4 + m) =~= bytes) by {
        assert(forall|t: int|
            0 <= t < m ==> #[trigger] b.subrange(pos + 4, pos + 4 + m)[t] == b.subrange(
                pos,
                pos + enc_str(s).len(),
            )[t + 4]);
        assert(forall|t: int| 0 <= t < m ==> #[trigger] enc_str(s)[t + 4] == bytes[t]);
    }
    assert(valid_utf8(bytes));
    assert(decode_utf8(bytes) == s);
}

proof fn lemma_dec_enc_pairs_from(b: Seq<u8>, pos: int, ps: Seq<(Seq<char>, Seq<char>)>)
    requires
        pairs_fit(ps),
        0 <= pos,
        pos + enc_pairs_from(ps).len() <= b.len(),
        b.subrange(pos, pos + enc_pairs_from(ps).len()) == enc_pairs_from(ps),
    ensures
        dec_pairs_from(b, pos, ps.len() as int) == Some((ps, pos + enc_pairs_from(ps).len())),
    decreases ps.len(),
{
    if ps.len() == 0 {
        assert(dec_pairs_from(b, pos, 0) == Some((Seq::<(Seq<char>, Seq<char>)>::empty(), pos)));
        assert(ps =~= Seq::<(Seq<char>, Seq<char>)>::empty());
    } else {
        let k = ps[0].0;
        let v = ps[0].1;
        let ek = enc_str(k);
        let ev = enc_str(v);
        let rest = enc_pairs_from(ps.skip(1));
        assert(enc_pairs_from(ps) == ek + ev + rest);
        assert(b.subrange(pos, pos + ek.len()) =~= ek) by {
            assert(forall|t: int|
                0 <= t < ek.len() ==> #[trigger] b.subrange(
                    pos,
                    pos + enc_pairs_from(ps).len(),
                )[t] == (ek + ev + rest)[t]);
        }
        lemma_dec_enc_str(b, pos, k);
        let p1 = pos + ek.len();
        assert(b.subrange(p1, p1 + ev.len()) =~= ev) by {
            assert(forall|t: int|
                0 <= t < ev.len() ==> #[trigger] b.subrange(
                    pos,
                    pos + enc_pairs_from(ps).len(),
                )[t + ek.len()] == (ek + ev + rest)[t + ek.len()]);
            assert(forall|t: int|
                0 <= t < ev.len() ==> #[trigger] b.subrange(p1, p1 + ev.len())[t] == b.subrange(
                    pos,
                    pos + enc_pairs_from(ps).len(),
                )[t + ek.len()]);
        }
        lemma_dec_enc_str(b, p1, v);
        let p2 = p1 + ev.len();
        assert(pairs_fit(ps.skip(1))) by {
            assert(forall|t: int| 0 <= t < ps.len() - 1 ==> ps.skip(1)[t] == ps[t + 1]);
        }
        assert(b.subrange(p2, p2 + rest.len()) =~= rest) by {
            assert(forall|t: int|
                0 <= t < rest.len() ==> #[trigger] b.subrange(p2, p2 + rest.len())[t]
                    == b.subrange(
                    pos,
                    pos + enc_pairs_from(ps).len(),
                )[t + ek.len() + ev.len()]);
            assert(forall|t: int|
                0 <= t < rest.len() ==> #[trigger] (ek + ev + rest)[t + ek.len() + ev.len()]
                    == rest[t]);
        }
        lemma_dec_enc_pairs_from(b, p2, ps.skip(1));
        assert(seq![(k, v)] + ps.skip(1) =~= ps);
    }
}

/// An encoded request parses back to exactly the request it encodes.
pub proof fn lemma_request_round_trip(
    op: ocf::Operation,
    resource: Seq<char>,
    args: Seq<(Seq<char>, Seq<char>)>,
)
    requires
        str_fits(resource),
        pairs_fit(args),
    ensures
        dec_request(enc_request(op, resource, args)) == Some((op, resource, args)),
{
    let b = enc_request(op, resource, args);
    let er = enc_str(resource);
    let ec = enc_u32(args.len() as u32);
    let ep = enc_pairs_from(args);
    let erl = er.len() as int;
    let epl = ep.len() as int;
    assert(b =~= seq![op_tag(op)] + er + ec + ep);
    assert(b[0] == op_tag(op));
    assert(b.subrange(1, 1 + erl) =~= er) by {
        assert(forall|t: int| 0 <= t < erl ==> b[t + 1] == er[t]);
    }
    lemma_dec_enc_str(b, 1, resource);
    let p1 = 1 + erl;
    vstd::bytes::lemma_auto_spec_u32_to_from_le_bytes();
    assert(b.subrange(p1, p1 + 4) =~= ec) by {
        assert(forall|t: int| 0 <= t < 4 ==> b[p1 + t] == ec[t]);
    }
    lemma_dec_enc_u32(b, p1, args.len() as u32);
    let p2 = p1 + 4;
    assert(b.subrange(p2, p2 + epl) =~= ep) by {
        assert(forall|t: int| 0 <= t < epl ==> b[p2 + t] == ep[t]);
    }
    lemma_dec_enc_pairs_from(b, p2, args);
    assert(p2 + epl == b.len());
}

/// An encoded reply parses back to exactly the reply it encodes.
pub proof fn lemma_reply_round_trip(result: Result<ocf::Status, Seq<char>>)
    requires
        result matches Err(msg) ==> str_fits(msg),
    ensures
        dec_reply(enc_reply(result)) == Some(result),
{
    let b = enc_reply(result);
    match result {
        Ok(st) => {
            ocf::lemma_status_code_bijection();
            assert(b.len() == 2);
            assert(b[0] == 0u8);
            assert(b[1] == ocf::code_of_status(st) as u8);
            assert(ocf::status_of_code(b[1] as int) == st);
        },
        Err(msg) => {
            let em = enc_str(msg);
            let eml = em.len() as int;
            assert(b =~= seq![1u8] + em);
            assert(b.subrange(1, 1 + eml) =~= em) by {
                assert(forall|t: int| 0 <= t < eml ==> b[t + 1] == em[t]);
            }
            lemma_dec_enc_str(b, 1, msg);
            assert(1 + eml == b.len());
        },
    }
}

} // verus!
