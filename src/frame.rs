//! Control frames of the local socket protocol. A frame is one tag byte
//! followed by the request's fields as big-endian integers, in a fixed layout
//! per tag; an `Input` frame ends with its payload. Anything else is a
//! protocol error, which closes that connection alone.
use vstd::prelude::*;

use crate::hub::{ErrorKind, Reply, Request, RequestView};
use crate::supervisor::BackendState;

verus! {

pub const TAG_SPAWN: u8 = 1;
pub const TAG_ATTACH: u8 = 2;
pub const TAG_DETACH: u8 = 3;
pub const TAG_RESIZE: u8 = 4;
pub const TAG_INPUT: u8 = 5;
pub const TAG_KILL: u8 = 6;
pub const TAG_STATUS: u8 = 7;
pub const TAG_SPAWN_RESULT: u8 = 8;
pub const TAG_DONE: u8 = 9;
pub const TAG_ERROR: u8 = 10;
pub const TAG_STATUS_EVENT: u8 = 11;
pub const TAG_OUTPUT: u8 = 12;
pub const TAG_END_OF_STREAM: u8 = 13;

/// The unsigned number whose big-endian bytes are `s`.
pub open spec fn be(s: Seq<u8>) -> nat
    decreases s.len(),
{
    if s.len() == 0 {
        0
    } else {
        be(s.drop_last()) * 256 + s.last() as nat
    }
}

pub open spec fn pow256(n: nat) -> nat
    decreases n,
{
    if n == 0 {
        1
    } else {
        256 * pow256((n - 1) as nat)
    }
}

proof fn lemma_pow256_mono(a: nat, b: nat)
    requires
        a <= b,
    ensures
        pow256(a) <= pow256(b),
    decreases b,
{
    if a < b {
        lemma_pow256_mono(a, (b - 1) as nat);
    }
}

/// The number in the `n` bytes of `b` from `at`.
pub open spec fn field(b: Seq<u8>, at: int, n: int) -> nat {
    be(b.subrange(at, at + n))
}

pub(crate) fn read_be(b: &[u8], at: usize, n: usize) -> (r: u64)
    requires
        n <= 8,
        at + n <= b@.len(),
    ensures
        r == field(b@, at as int, n as int),
{
    let len = b.len();
    let mut acc: u64 = 0;
    let mut i: usize = 0;
    proof {
        assert(b@.subrange(at as int, at as int) =~= Seq::<u8>::empty());
        assert(pow256(8) == 18446744073709551616nat) by {
            reveal_with_fuel(pow256, 9);
        }
        lemma_pow256_mono(n as nat, 8);
    }
    while i < n
        invariant
            n <= 8,
            len == b@.len(),
            at + n <= len,
            i <= n,
            pow256(n as nat) <= 18446744073709551616nat,
            acc == be(b@.subrange(at as int, at + i)),
            acc < pow256(i as nat),
        decreases n - i,
    {
        proof {
            lemma_pow256_mono((i + 1) as nat, n as nat);
            let p = pow256(i as nat);
            let x = b@[at + i] as int;
            assert(acc * 256 + x < p * 256) by (nonlinear_arith)
                requires
                    acc < p,
                    0 <= x < 256,
            ;
            let s = b@.subrange(at as int, at + i + 1);
            assert(s.drop_last() =~= b@.subrange(at as int, at + i));
        }
        acc = acc * 256 + b[at + i] as u64;
        i = i + 1;
    }
    acc
}

/// A byte string at `at`: its length in four bytes, then its bytes; with the
/// offset just after it.
pub open spec fn blob_at(b: Seq<u8>, at: int) -> Option<(Seq<u8>, int)> {
    if 0 <= at && at + 4 <= b.len() && at + 4 + field(b, at, 4) <= b.len() {
        Some((b.subrange(at + 4, at + 4 + field(b, at, 4)), at + 4 + field(b, at, 4)))
    } else {
        None
    }
}

/// `count` byte strings one after another from `at`.
pub open spec fn blobs_at(b: Seq<u8>, at: int, count: nat) -> Option<(Seq<Seq<u8>>, int)>
    decreases count,
{
    if count == 0 {
        Some((Seq::empty(), at))
    } else {
        match blobs_at(b, at, (count - 1) as nat) {
            Some((xs, p)) => match blob_at(b, p) {
                Some((x, q)) => Some((xs.push(x), q)),
                None => None,
            },
            None => None,
        }
    }
}

/// A spawn frame: the tag, rows, cols and the argument count in two bytes
/// each, then the program, the directory and the arguments as byte strings,
/// and nothing after them.
pub open spec fn parse_spawn(b: Seq<u8>) -> Option<RequestView> {
    if b.len() < 7 {
        None
    } else {
        match blob_at(b, 7) {
            Some((program, p1)) => match blob_at(b, p1) {
                Some((cwd, p2)) => match blobs_at(b, p2, field(b, 5, 2)) {
                    Some((args, p3)) => if p3 == b.len() {
                        Some(
                            RequestView::Spawn {
                                rows: field(b, 1, 2) as u16,
                                cols: field(b, 3, 2) as u16,
                                program,
                                args,
                                cwd,
                            },
                        )
                    } else {
                        None
                    },
                    None => None,
                },
                None => None,
            },
            None => None,
        }
    }
}

proof fn lemma_blobs_none(b: Seq<u8>, at: int, k: nat, j: nat)
    requires
        blobs_at(b, at, k) is None,
        k <= j,
    ensures
        blobs_at(b, at, j) is None,
    decreases j,
{
    if k < j {
        lemma_blobs_none(b, at, k, (j - 1) as nat);
    }
}

fn copy_range(b: &[u8], from: usize, to: usize) -> (r: Vec<u8>)
    requires
        from <= to <= b@.len(),
    ensures
        r@ == b@.subrange(from as int, to as int),
{
    let mut r: Vec<u8> = Vec::new();
    let mut i: usize = from;
    while i < to
        invariant
            from <= i <= to <= b@.len(),
            r@ == b@.subrange(from as int, i as int),
        decreases to - i,
    {
        r.push(b[i]);
        assert(r@ =~= b@.subrange(from as int, i + 1));
        i = i + 1;
    }
    r
}

fn read_blob(b: &[u8], at: usize) -> (r: Option<(Vec<u8>, usize)>)
    requires
        at <= b@.len(),
    ensures
        match r {
            Some((v, p)) => blob_at(b@, at as int) == Some((v@, p as int)) && p <= b@.len(),
            None => blob_at(b@, at as int) is None,
        },
{
    let n = b.len();
    if n - at < 4 {
        return None;
    }
    let len = read_be(b, at, 4);
    if len > (n - at - 4) as u64 {
        return None;
    }
    let end = at + 4 + len as usize;
    Some((copy_range(b, at + 4, end), end))
}

fn decode_spawn(b: &[u8]) -> (r: Result<Request, ErrorKind>)
    ensures
        match r {
            Ok(q) => parse_spawn(b@) == Some(q.view()),
            Err(e) => e == ErrorKind::ProtocolError && parse_spawn(b@) is None,
        },
{
    let n = b.len();
    if n < 7 {
        return Err(ErrorKind::ProtocolError);
    }
    let rows = read_be(b, 1, 2) as u16;
    let cols = read_be(b, 3, 2) as u16;
    let argc = read_be(b, 5, 2);
    let (program, p1) = match read_blob(b, 7) {
        Some(x) => x,
        None => return Err(ErrorKind::ProtocolError),
    };
    let (cwd, p2) = match read_blob(b, p1) {
        Some(x) => x,
        None => return Err(ErrorKind::ProtocolError),
    };
    let mut args: Vec<Vec<u8>> = Vec::new();
    let mut pos: usize = p2;
    let mut i: u64 = 0;
    while i < argc
        invariant
            i <= argc,
            argc == field(b@, 5, 2),
            n == b@.len(),
            n >= 7,
            rows == field(b@, 1, 2) as u16,
            cols == field(b@, 3, 2) as u16,
            blob_at(b@, 7) == Some((program@, p1 as int)),
            blob_at(b@, p1 as int) == Some((cwd@, p2 as int)),
            pos <= b@.len(),
            blobs_at(b@, p2 as int, i as nat) == Some(
                (args@.map_values(|a: Vec<u8>| a@), pos as int),
            ),
        decreases argc - i,
    {
        match read_blob(b, pos) {
            Some((x, q)) => {
                let ghost before = args@;
                args.push(x);
                proof {
                    assert(args@.map_values(|a: Vec<u8>| a@) =~= before.map_values(
                        |a: Vec<u8>| a@,
                    ).push(x@));
                }
                pos = q;
            },
            None => {
                proof {
                    assert(blobs_at(b@, p2 as int, (i + 1) as nat) is None);
                    lemma_blobs_none(b@, p2 as int, (i + 1) as nat, argc as nat);
                    assert(blob_at(b@, 7) == Some((program@, p1 as int)));
                    assert(blob_at(b@, p1 as int) == Some((cwd@, p2 as int)));
                }
                return Err(ErrorKind::ProtocolError);
            },
        }
        i = i + 1;
    }
    if pos != n {
        return Err(ErrorKind::ProtocolError);
    }
    Ok(Request::Spawn { rows, cols, program, args, cwd })
}

/// The request that frame `b` holds, if it is well formed.
pub open spec fn parse_request(b: Seq<u8>) -> Option<RequestView> {
    if b.len() == 0 {
        None
    } else if b[0] == TAG_SPAWN {
        parse_spawn(b)
    } else if b[0] == TAG_ATTACH || b[0] == TAG_DETACH {
        if b.len() == 17 {
            let session = field(b, 1, 8) as u64;
            let link = field(b, 9, 8) as u64;
            if b[0] == TAG_ATTACH {
                Some(RequestView::Attach { session, link })
            } else {
                Some(RequestView::Detach { session, link })
            }
        } else {
            None
        }
    } else if b[0] == TAG_RESIZE {
        if b.len() == 13 {
            Some(
                RequestView::Resize {
                    session: field(b, 1, 8) as u64,
                    rows: field(b, 9, 2) as u16,
                    cols: field(b, 11, 2) as u16,
                },
            )
        } else {
            None
        }
    } else if b[0] == TAG_INPUT {
        if b.len() >= 21 {
            Some(
                RequestView::Input {
                    session: field(b, 1, 8) as u64,
                    link: field(b, 9, 8) as u64,
                    seq: field(b, 17, 4) as u32,
                    data: b.subrange(21, b.len() as int),
                },
            )
        } else {
            None
        }
    } else if b[0] == TAG_KILL {
        if b.len() == 9 {
            Some(RequestView::Kill { session: field(b, 1, 8) as u64 })
        } else {
            None
        }
    } else if b[0] == TAG_STATUS {
        if b.len() == 9 {
            Some(RequestView::StatusSubscribe { link: field(b, 1, 8) as u64 })
        } else {
            None
        }
    } else {
        None
    }
}

fn copy_tail(b: &[u8], at: usize) -> (r: Vec<u8>)
    requires
        at <= b@.len(),
    ensures
        r@ == b@.subrange(at as int, b@.len() as int),
{
    let mut r: Vec<u8> = Vec::new();
    let mut i: usize = at;
    while i < b.len()
        invariant
            at <= i <= b@.len(),
            r@ == b@.subrange(at as int, i as int),
        decreases b@.len() - i,
    {
        r.push(b[i]);
        assert(r@ =~= b@.subrange(at as int, i + 1));
        i = i + 1;
    }
    r
}

/// Reads one control frame; a frame that is empty, has an unknown tag or the
/// wrong length for its tag is a protocol error.
pub fn decode_request(b: &[u8]) -> (r: Result<Request, ErrorKind>)
    ensures
        match r {
            Ok(q) => parse_request(b@) == Some(q.view()),
            Err(e) => e == ErrorKind::ProtocolError && parse_request(b@) is None,
        },
{
    let n = b.len();
    if n == 0 {
        return Err(ErrorKind::ProtocolError);
    }
    let tag = b[0];
    if tag == TAG_SPAWN {
        decode_spawn(b)
    } else if tag == TAG_ATTACH && n == 17 {
        Ok(Request::Attach { session: read_be(b, 1, 8), link: read_be(b, 9, 8) })
    } else if tag == TAG_DETACH && n == 17 {
        Ok(Request::Detach { session: read_be(b, 1, 8), link: read_be(b, 9, 8) })
    } else if tag == TAG_RESIZE && n == 13 {
        Ok(
            Request::Resize {
                session: read_be(b, 1, 8),
                rows: read_be(b, 9, 2) as u16,
                cols: read_be(b, 11, 2) as u16,
            },
        )
    } else if tag == TAG_INPUT && n >= 21 {
        Ok(
            Request::Input {
                session: read_be(b, 1, 8),
                link: read_be(b, 9, 8),
                seq: read_be(b, 17, 4) as u32,
                data: copy_tail(b, 21),
            },
        )
    } else if tag == TAG_KILL && n == 9 {
        Ok(Request::Kill { session: read_be(b, 1, 8) })
    } else if tag == TAG_STATUS && n == 9 {
        Ok(Request::StatusSubscribe { link: read_be(b, 1, 8) })
    } else {
        Err(ErrorKind::ProtocolError)
    }
}

/// The `n` big-endian bytes of `x`.
pub open spec fn be_bytes(x: nat, n: nat) -> Seq<u8>
    decreases n,
{
    if n == 0 {
        Seq::empty()
    } else {
        be_bytes(x / 256, (n - 1) as nat).push((x % 256) as u8)
    }
}

proof fn lemma_be_bytes(x: nat, n: nat)
    requires
        x < pow256(n),
    ensures
        be_bytes(x, n).len() == n,
        be(be_bytes(x, n)) == x,
    decreases n,
{
    if n > 0 {
        let p = pow256((n - 1) as nat);
        assert(x / 256 < p) by (nonlinear_arith)
            requires
                x < 256 * p,
        ;
        lemma_be_bytes(x / 256, (n - 1) as nat);
        assert(be_bytes(x, n).drop_last() =~= be_bytes(x / 256, (n - 1) as nat));
        assert((x / 256) * 256 + x % 256 == x) by (nonlinear_arith);
    }
}

fn push_be(v: &mut Vec<u8>, x: u64, n: usize)
    requires
        n <= 8,
    ensures
        final(v)@ == old(v)@ + be_bytes(x as nat, n as nat),
    decreases n,
{
    if n > 0 {
        push_be(v, x / 256, n - 1);
        v.push((x % 256) as u8);
        assert(final(v)@ =~= old(v)@ + be_bytes(x as nat, n as nat));
    }
}

/// A field of `n` bytes holding `x`, at offset `at` of `pre + be_bytes(x, n) + post`, reads back as `x`.
proof fn lemma_field_at(pre: Seq<u8>, x: nat, n: nat, post: Seq<u8>)
    requires
        x < pow256(n),
    ensures
        field(pre + be_bytes(x, n) + post, pre.len() as int, n as int) == x,
{
    lemma_be_bytes(x, n);
    assert((pre + be_bytes(x, n) + post).subrange(pre.len() as int, (pre.len() + n) as int) =~= be_bytes(x, n));
}

proof fn lemma_pow_facts()
    ensures
        pow256(2) == 65536,
        pow256(4) == 4294967296nat,
        pow256(8) == 18446744073709551616nat,
{
    reveal_with_fuel(pow256, 9);
}

/// The encoding of byte string `x`: its length in four bytes, then `x`.
pub open spec fn blob_bytes(x: Seq<u8>) -> Seq<u8> {
    be_bytes(x.len(), 4) + x
}

pub open spec fn blobs_bytes(xs: Seq<Seq<u8>>) -> Seq<u8>
    decreases xs.len(),
{
    if xs.len() == 0 {
        Seq::empty()
    } else {
        blobs_bytes(xs.drop_last()) + blob_bytes(xs.last())
    }
}

/// Whether `q` fits the frame layout: byte strings under 2^32 bytes and
/// fewer than 2^16 arguments.
pub open spec fn encodable(q: RequestView) -> bool {
    match q {
        RequestView::Spawn { program, args, cwd, .. } => program.len() < 4294967296nat && cwd.len()
            < 4294967296nat && args.len() < 65536 && forall|i: int|
            0 <= i < args.len() ==> (#[trigger] args[i]).len() < 4294967296nat,
        _ => true,
    }
}

proof fn lemma_blob_at(pre: Seq<u8>, x: Seq<u8>, post: Seq<u8>)
    requires
        x.len() < 4294967296nat,
    ensures
        blob_at(pre + blob_bytes(x) + post, pre.len() as int) == Some(
            (x, (pre.len() + 4 + x.len()) as int),
        ),
{
    lemma_pow_facts();
    let b = pre + blob_bytes(x) + post;
    assert(b =~= pre + be_bytes(x.len(), 4) + (x + post));
    lemma_field_at(pre, x.len(), 4, x + post);
    lemma_be_bytes(x.len(), 4);
    assert(b.subrange((pre.len() + 4) as int, (pre.len() + 4 + x.len()) as int) =~= x);
}

proof fn lemma_blobs_at(pre: Seq<u8>, xs: Seq<Seq<u8>>, post: Seq<u8>)
    requires
        forall|i: int| 0 <= i < xs.len() ==> (#[trigger] xs[i]).len() < 4294967296nat,
    ensures
        blobs_at(pre + blobs_bytes(xs) + post, pre.len() as int, xs.len()) == Some(
            (xs, (pre.len() + blobs_bytes(xs).len()) as int),
        ),
    decreases xs.len(),
{
    lemma_pow_facts();
    if xs.len() > 0 {
        let ys = xs.drop_last();
        let x = xs.last();
        assert(x == xs[xs.len() - 1]);
        assert forall|i: int| 0 <= i < ys.len() implies (#[trigger] ys[i]).len() < 4294967296nat by {
            assert(ys[i] == xs[i]);
        }
        lemma_blobs_at(pre, ys, blob_bytes(x) + post);
        let b = pre + blobs_bytes(xs) + post;
        assert(b =~= pre + blobs_bytes(ys) + (blob_bytes(x) + post));
        lemma_blob_at(pre + blobs_bytes(ys), x, post);
        assert(b =~= pre + blobs_bytes(ys) + blob_bytes(x) + post);
        lemma_be_bytes(x.len(), 4);
        assert(ys.push(x) =~= xs);
    }
}

fn push_blob(v: &mut Vec<u8>, x: &Vec<u8>)
    requires
        x@.len() < 4294967296nat,
    ensures
        final(v)@ == old(v)@ + blob_bytes(x@),
{
    push_be(v, x.len() as u64, 4);
    let ghost c = v@;
    let mut i: usize = 0;
    while i < x.len()
        invariant
            i <= x@.len(),
            v@ == c + x@.subrange(0, i as int),
        decreases x@.len() - i,
    {
        v.push(x[i]);
        assert(v@ =~= c + x@.subrange(0, i + 1));
        i = i + 1;
    }
    assert(v@ =~= old(v)@ + blob_bytes(x@));
}

fn encode_spawn(rows: u16, cols: u16, program: &Vec<u8>, args: &Vec<Vec<u8>>, cwd: &Vec<u8>) -> (r: Vec<u8>)
    requires
        program@.len() < 4294967296nat,
        cwd@.len() < 4294967296nat,
        args@.len() < 65536,
        forall|i: int| 0 <= i < args@.len() ==> (#[trigger] args@[i])@.len() < 4294967296nat,
    ensures
        parse_spawn(r@) == Some(
            RequestView::Spawn {
                rows,
                cols,
                program: program@,
                args: args@.map_values(|a: Vec<u8>| a@),
                cwd: cwd@,
            },
        ),
        r@.len() > 0 && r@[0] == TAG_SPAWN,
{
    proof {
        lemma_pow_facts();
    }
    let ghost xs = args@.map_values(|a: Vec<u8>| a@);
    let mut v: Vec<u8> = Vec::new();
    v.push(TAG_SPAWN);
    push_be(&mut v, rows as u64, 2);
    push_be(&mut v, cols as u64, 2);
    push_be(&mut v, args.len() as u64, 2);
    let ghost head = v@;
    push_blob(&mut v, program);
    push_blob(&mut v, cwd);
    let ghost mid = v@;
    let mut i: usize = 0;
    assert(xs.subrange(0, 0) =~= Seq::<Seq<u8>>::empty());
    while i < args.len()
        invariant
            i <= args@.len(),
            xs == args@.map_values(|a: Vec<u8>| a@),
            v@ == mid + blobs_bytes(xs.subrange(0, i as int)),
            forall|k: int| 0 <= k < args@.len() ==> (#[trigger] args@[k])@.len() < 4294967296nat,
        decreases args@.len() - i,
    {
        let ghost before = v@;
        push_blob(&mut v, &args[i]);
        proof {
            let t = xs.subrange(0, i + 1);
            assert(t.drop_last() =~= xs.subrange(0, i as int));
            assert(t.last() == args@[i as int]@);
            assert(v@ =~= mid + blobs_bytes(t));
        }
        i = i + 1;
    }
    proof {
        assert(xs.subrange(0, xs.len() as int) =~= xs);
        let rb = be_bytes(rows as nat, 2);
        let cb = be_bytes(cols as nat, 2);
        let ab = be_bytes(args@.len() as nat, 2);
        let pb = blob_bytes(program@);
        let wb = blob_bytes(cwd@);
        let sb = blobs_bytes(xs);
        lemma_be_bytes(rows as nat, 2);
        lemma_be_bytes(cols as nat, 2);
        lemma_be_bytes(args@.len() as nat, 2);
        let t = seq![TAG_SPAWN];
        assert(v@ =~= t + rb + (cb + ab + pb + wb + sb));
        lemma_field_at(t, rows as nat, 2, cb + ab + pb + wb + sb);
        assert(v@ =~= (t + rb) + cb + (ab + pb + wb + sb));
        lemma_field_at(t + rb, cols as nat, 2, ab + pb + wb + sb);
        assert(v@ =~= (t + rb + cb) + ab + (pb + wb + sb));
        lemma_field_at(t + rb + cb, args@.len() as nat, 2, pb + wb + sb);
        assert(v@ =~= head + pb + (wb + sb));
        lemma_blob_at(head, program@, wb + sb);
        assert(v@ =~= (head + pb) + wb + sb);
        lemma_blob_at(head + pb, cwd@, sb);
        assert forall|k: int| 0 <= k < xs.len() implies (#[trigger] xs[k]).len() < 4294967296nat by {
            assert(xs[k] == args@[k]@);
        }
        lemma_blobs_at(head + pb + wb, xs, Seq::empty());
        assert(v@ =~= (head + pb + wb) + sb + Seq::<u8>::empty());
        lemma_be_bytes(program@.len(), 4);
        lemma_be_bytes(cwd@.len(), 4);
    }
    v
}

/// The frame that carries `q`; reading it back gives `q`.
pub fn encode_request(q: &Request) -> (r: Vec<u8>)
    requires
        encodable(q.view()),
    ensures
        parse_request(r@) == Some(q.view()),
{
    proof {
        lemma_pow_facts();
    }
    let mut v: Vec<u8> = Vec::new();
    match q {
        Request::Spawn { rows, cols, program, args, cwd } => {
            proof {
                let xs = args@.map_values(|a: Vec<u8>| a@);
                assert forall|i: int| 0 <= i < args@.len() implies (#[trigger] args@[i])@.len()
                    < 4294967296nat by {
                    assert(xs[i] == args@[i]@);
                }
            }
            return encode_spawn(*rows, *cols, program, args, cwd);
        },
        Request::Attach { session, link } | Request::Detach { session, link } => {
            let tag = if matches!(q, Request::Attach { .. }) {
                TAG_ATTACH
            } else {
                TAG_DETACH
            };
            v.push(tag);
            let ghost a = v@;
            push_be(&mut v, *session, 8);
            let ghost b = v@;
            push_be(&mut v, *link, 8);
            proof {
                lemma_field_at(a, *session as nat, 8, be_bytes(*link as nat, 8));
                lemma_field_at(b, *link as nat, 8, Seq::empty());
                lemma_be_bytes(*session as nat, 8);
                lemma_be_bytes(*link as nat, 8);
                assert(v@ =~= a + be_bytes(*session as nat, 8) + be_bytes(*link as nat, 8));
                assert(v@ =~= b + be_bytes(*link as nat, 8) + Seq::empty());
            }
        },
        Request::Resize { session, rows, cols } => {
            v.push(TAG_RESIZE);
            let ghost a = v@;
            push_be(&mut v, *session, 8);
            let ghost b = v@;
            push_be(&mut v, *rows as u64, 2);
            let ghost c = v@;
            push_be(&mut v, *cols as u64, 2);
            proof {
                let sb = be_bytes(*session as nat, 8);
                let rb = be_bytes(*rows as nat, 2);
                let cb = be_bytes(*cols as nat, 2);
                lemma_field_at(a, *session as nat, 8, rb + cb);
                lemma_field_at(b, *rows as nat, 2, cb);
                lemma_field_at(c, *cols as nat, 2, Seq::empty());
                lemma_be_bytes(*session as nat, 8);
                lemma_be_bytes(*rows as nat, 2);
                lemma_be_bytes(*cols as nat, 2);
                assert(v@ =~= a + sb + (rb + cb));
                assert(v@ =~= b + rb + cb);
                assert(v@ =~= c + cb + Seq::empty());
            }
        },
        Request::Input { session, link, seq, data } => {
            v.push(TAG_INPUT);
            let ghost a = v@;
            push_be(&mut v, *session, 8);
            let ghost b = v@;
            push_be(&mut v, *link, 8);
            let ghost d = v@;
            push_be(&mut v, *seq as u64, 4);
            let ghost c = v@;
            let mut i: usize = 0;
            while i < data.len()
                invariant
                    i <= data@.len(),
                    v@ == c + data@.subrange(0, i as int),
                decreases data@.len() - i,
            {
                v.push(data[i]);
                assert(v@ =~= c + data@.subrange(0, i + 1));
                i = i + 1;
            }
            proof {
                let sb = be_bytes(*session as nat, 8);
                let lb = be_bytes(*link as nat, 8);
                let qb = be_bytes(*seq as nat, 4);
                lemma_field_at(a, *session as nat, 8, lb + qb + data@);
                lemma_field_at(b, *link as nat, 8, qb + data@);
                lemma_field_at(d, *seq as nat, 4, data@);
                lemma_be_bytes(*session as nat, 8);
                lemma_be_bytes(*link as nat, 8);
                lemma_be_bytes(*seq as nat, 4);
                assert(v@ =~= a + sb + (lb + qb + data@));
                assert(v@ =~= b + lb + (qb + data@));
                assert(v@ =~= d + qb + data@);
                assert(v@.subrange(21, v@.len() as int) =~= data@);
            }
        },
        Request::Kill { session } => {
            v.push(TAG_KILL);
            let ghost a = v@;
            push_be(&mut v, *session, 8);
            proof {
                lemma_field_at(a, *session as nat, 8, Seq::empty());
                lemma_be_bytes(*session as nat, 8);
                assert(v@ =~= a + be_bytes(*session as nat, 8) + Seq::empty());
            }
        },
        Request::StatusSubscribe { link } => {
            v.push(TAG_STATUS);
            let ghost a = v@;
            push_be(&mut v, *link, 8);
            proof {
                lemma_field_at(a, *link as nat, 8, Seq::empty());
                lemma_be_bytes(*link as nat, 8);
                assert(v@ =~= a + be_bytes(*link as nat, 8) + Seq::empty());
            }
        },
    }
    v
}

pub open spec fn error_code(e: ErrorKind) -> u8 {
    match e {
        ErrorKind::PortExhausted => 1,
        ErrorKind::BackendUnhealthy => 2,
        ErrorKind::BackendFatal => 3,
        ErrorKind::SessionNotFound => 4,
        ErrorKind::SpawnFailed => 5,
        ErrorKind::ProtocolError => 6,
        ErrorKind::LinkIOError => 7,
    }
}

pub open spec fn state_code(s: BackendState) -> u8 {
    match s {
        BackendState::Starting => 1,
        BackendState::Healthy => 2,
        BackendState::Unhealthy => 3,
        BackendState::Restarting => 4,
        BackendState::Stopped => 5,
    }
}

/// The frame that carries reply `r`.
pub open spec fn reply_frame(r: Reply) -> Seq<u8> {
    match r {
        Reply::SpawnResult(id) => seq![TAG_SPAWN_RESULT] + be_bytes(id as nat, 8),
        Reply::Done => seq![TAG_DONE],
        Reply::Error(e) => seq![TAG_ERROR, error_code(e)],
        Reply::StatusEvent(s, n) => seq![TAG_STATUS_EVENT, state_code(s)] + be_bytes(n as nat, 4),
    }
}

/// Writes reply `r` as a frame.
pub fn encode_reply(r: Reply) -> (v: Vec<u8>)
    ensures
        v@ == reply_frame(r),
{
    let mut v: Vec<u8> = Vec::new();
    match r {
        Reply::SpawnResult(id) => {
            v.push(TAG_SPAWN_RESULT);
            push_be(&mut v, id, 8);
        },
        Reply::Done => {
            v.push(TAG_DONE);
        },
        Reply::Error(e) => {
            v.push(TAG_ERROR);
            let code: u8 = match e {
                ErrorKind::PortExhausted => 1,
                ErrorKind::BackendUnhealthy => 2,
                ErrorKind::BackendFatal => 3,
                ErrorKind::SessionNotFound => 4,
                ErrorKind::SpawnFailed => 5,
                ErrorKind::ProtocolError => 6,
                ErrorKind::LinkIOError => 7,
            };
            v.push(code);
        },
        Reply::StatusEvent(s, n) => {
            v.push(TAG_STATUS_EVENT);
            let code: u8 = match s {
                BackendState::Starting => 1,
                BackendState::Healthy => 2,
                BackendState::Unhealthy => 3,
                BackendState::Restarting => 4,
                BackendState::Stopped => 5,
            };
            v.push(code);
            push_be(&mut v, n as u64, 4);
        },
    }
    assert(v@ =~= reply_frame(r));
    v
}

/// An output frame: the session, the chunk's sequence number, then the bytes.
pub open spec fn output_frame(session: u64, seq: u32, data: Seq<u8>) -> Seq<u8> {
    seq![TAG_OUTPUT] + be_bytes(session as nat, 8) + be_bytes(seq as nat, 4) + data
}

/// Writes a chunk of session output for one link.
pub fn encode_output(session: u64, seq: u32, data: &[u8]) -> (v: Vec<u8>)
    ensures
        v@ == output_frame(session, seq, data@),
{
    let mut v: Vec<u8> = Vec::new();
    v.push(TAG_OUTPUT);
    push_be(&mut v, session, 8);
    push_be(&mut v, seq as u64, 4);
    let ghost c = v@;
    let mut i: usize = 0;
    while i < data.len()
        invariant
            i <= data@.len(),
            v@ == c + data@.subrange(0, i as int),
        decreases data@.len() - i,
    {
        v.push(data[i]);
        assert(v@ =~= c + data@.subrange(0, i + 1));
        i = i + 1;
    }
    assert(v@ =~= output_frame(session, seq, data@));
    v
}

/// Writes the end-of-stream marker of a session.
pub fn encode_end_of_stream(session: u64) -> (v: Vec<u8>)
    ensures
        v@ == seq![TAG_END_OF_STREAM] + be_bytes(session as nat, 8),
{
    let mut v: Vec<u8> = Vec::new();
    v.push(TAG_END_OF_STREAM);
    push_be(&mut v, session, 8);
    assert(v@ =~= seq![TAG_END_OF_STREAM] + be_bytes(session as nat, 8));
    v
}

} // verus!
