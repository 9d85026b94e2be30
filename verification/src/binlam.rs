//! The binary encoding of terms, its decoder, and the Krivine and SECD
//! machines that run directly on an encoded term.

use vstd::prelude::*;

use crate::term::LamTerm;
use crate::machine::{Clo, KHeap, KState, Step, Run, kinit, climb, climb_exact, kparents};

verus! {

/// Instruction code of a variable node: `[VAR_CODE, v, k]`.
pub const VAR_CODE: usize = 0;

/// Instruction code of an application node: `[APP_CODE, ls, le, rs, re]`,
/// where `[ls, le)` and `[rs, re)` are the header ranges of the two parts.
pub const APP_CODE: usize = 1;

/// Instruction code of an abstraction node: `[ABS_CODE, n, bs, be]`,
/// where `[bs, be)` is the header range of the body.
pub const ABS_CODE: usize = 2;

/// Number of cells of the header of a node.
pub open spec fn header_len(t: LamTerm) -> nat {
    match t {
        LamTerm::Abstraction(..) => 4,
        LamTerm::Application(..) => 5,
        LamTerm::Var(..) => 3,
    }
}

/// Number of cells of the whole encoding of a term.
pub open spec fn enc_len(t: LamTerm) -> nat
    decreases t,
{
    match t {
        LamTerm::Abstraction(_, body) => 4 + enc_len(*body),
        LamTerm::Application(left, right) => 5 + enc_len(*left) + enc_len(*right),
        LamTerm::Var(..) => 3,
    }
}

/// The cells that encode `t` when its header starts at position `base` of the
/// buffer: the header first, then the encodings of the parts, left before
/// right, each header range given by absolute positions.
pub open spec fn encode(t: LamTerm, base: int) -> Seq<usize>
    decreases t,
{
    match t {
        LamTerm::Abstraction(n, body) => {
            let bs = base + 4;
            seq![ABS_CODE, n, bs as usize, (bs + header_len(*body)) as usize] + encode(*body, bs)
        },
        LamTerm::Application(left, right) => {
            let ls = base + 5;
            let rs = ls + enc_len(*left);
            seq![
                APP_CODE,
                ls as usize,
                (ls + header_len(*left)) as usize,
                rs as usize,
                (rs + header_len(*right)) as usize,
            ] + encode(*left, ls) + encode(*right, rs)
        },
        LamTerm::Var(v, k) => seq![VAR_CODE, v, k],
    }
}

/// The encoding has `enc_len` cells, of which the header is a prefix.
pub proof fn lemma_encode_len(t: LamTerm, base: int)
    ensures
        encode(t, base).len() == enc_len(t),
        header_len(t) <= enc_len(t),
    decreases t,
{
    match t {
        LamTerm::Abstraction(_, body) => lemma_encode_len(*body, base + 4),
        LamTerm::Application(left, right) => {
            lemma_encode_len(*left, base + 5);
            lemma_encode_len(*right, base + 5 + enc_len(*left));
        },
        LamTerm::Var(..) => {},
    }
}

/// Appends the encoding of `term` to `buffer` and returns the range of its
/// header.
pub fn lam_term_to_bin(term: &LamTerm, buffer: &mut Vec<usize>) -> (r: (usize, usize))
    requires
        old(buffer)@.len() + enc_len(*term) <= usize::MAX,
    ensures
        final(buffer)@ == old(buffer)@ + encode(*term, old(buffer)@.len() as int),
        r.0 == old(buffer)@.len(),
        r.1 == old(buffer)@.len() + header_len(*term),
    decreases term,
{
    proof {
        lemma_encode_len(*term, old(buffer)@.len() as int);
    }
    match term {
        LamTerm::Abstraction(varcount, body) => {
            let start = buffer.len();
            buffer.push(ABS_CODE);
            buffer.push(*varcount);
            let pos = buffer.len();
            buffer.push(0);
            buffer.push(0);
            let (startbody, endbody) = lam_term_to_bin(body, buffer);
            buffer.set(pos, startbody);
            buffer.set(pos + 1, endbody);
            assert(buffer@ =~= old(buffer)@ + encode(*term, start as int));
            (start, pos + 2)
        },
        LamTerm::Application(left, right) => {
            let start = buffer.len();
            buffer.push(APP_CODE);
            let pos = buffer.len();
            buffer.push(0);
            buffer.push(0);
            buffer.push(0);
            buffer.push(0);
            proof {
                lemma_encode_len(**left, (start + 5) as int);
                lemma_encode_len(**right, start + 5 + enc_len(**left));
            }
            let (lstart, lend) = lam_term_to_bin(left, buffer);
            buffer.set(pos, lstart);
            buffer.set(pos + 1, lend);
            let (rstart, rend) = lam_term_to_bin(right, buffer);
            buffer.set(pos + 2, rstart);
            buffer.set(pos + 3, rend);
            assert(buffer@ =~= old(buffer)@ + encode(*term, start as int));
            (start, pos + 4)
        },
        LamTerm::Var(v, k) => {
            let start = buffer.len();
            buffer.push(VAR_CODE);
            buffer.push(*v);
            buffer.push(*k);
            assert(buffer@ =~= old(buffer)@ + encode(*term, start as int));
            (start, start + 3)
        },
    }
}


/// One decoding step budget: the outcome of decoding the node whose header
/// starts `node`, looking up parts in `buf`, when at most `fuel` nested nodes
/// may be visited. `None` stands for a decoding that does not finish within
/// the budget or that would index out of range; `Some(Err(()))` for a node
/// with an unknown instruction code, reached before any such failure.
pub open spec fn decode(node: Seq<usize>, buf: Seq<usize>, fuel: nat) -> Option<Result<LamTerm, ()>>
    decreases fuel,
{
    if fuel == 0 || node.len() == 0 {
        None
    } else if node[0] == APP_CODE {
        if node.len() < 3 || !(node[1] <= node[2] <= buf.len()) {
            None
        } else {
            match decode(buf.subrange(node[1] as int, node[2] as int), buf, (fuel - 1) as nat) {
                Some(Ok(left)) => {
                    if node.len() < 5 || !(node[3] <= node[4] <= buf.len()) {
                        None
                    } else {
                        match decode(
                            buf.subrange(node[3] as int, node[4] as int),
                            buf,
                            (fuel - 1) as nat,
                        ) {
                            Some(Ok(right)) => Some(
                                Ok(LamTerm::Application(Box::new(left), Box::new(right))),
                            ),
                            other => other,
                        }
                    }
                },
                other => other,
            }
        }
    } else if node[0] == ABS_CODE {
        if node.len() < 4 || !(node[2] <= node[3] <= buf.len()) {
            None
        } else {
            match decode(buf.subrange(node[2] as int, node[3] as int), buf, (fuel - 1) as nat) {
                Some(Ok(body)) => Some(Ok(LamTerm::Abstraction(node[1], Box::new(body)))),
                other => other,
            }
        }
    } else if node[0] == VAR_CODE {
        if node.len() < 3 {
            None
        } else {
            Some(Ok(LamTerm::Var(node[1], node[2])))
        }
    } else {
        Some(Err(()))
    }
}

/// Decoding `node` in `buf` finishes without indexing out of range.
pub open spec fn decodes(node: Seq<usize>, buf: Seq<usize>) -> bool {
    exists|fuel: nat| #[trigger] decode(node, buf, fuel) is Some
}

/// The outcome of decoding `node` in `buf`, where `decodes(node, buf)`.
pub open spec fn decoded(node: Seq<usize>, buf: Seq<usize>) -> Result<LamTerm, ()> {
    decode(node, buf, choose|fuel: nat| #[trigger] decode(node, buf, fuel) is Some).unwrap()
}

/// A larger budget does not change a finished decoding.
pub proof fn lemma_decode_fuel(node: Seq<usize>, buf: Seq<usize>, f: nat, g: nat)
    requires
        decode(node, buf, f) is Some,
        f <= g,
    ensures
        decode(node, buf, g) == decode(node, buf, f),
    decreases f,
{
    if node.len() > 0 && f > 0 {
        if node[0] == APP_CODE && node.len() >= 3 && node[1] <= node[2] <= buf.len() {
            lemma_decode_fuel(
                buf.subrange(node[1] as int, node[2] as int),
                buf,
                (f - 1) as nat,
                (g - 1) as nat,
            );
            if decode(buf.subrange(node[1] as int, node[2] as int), buf, (f - 1) as nat) is Some
                && decode(buf.subrange(node[1] as int, node[2] as int), buf, (f - 1) as nat).unwrap() is Ok
                && node.len() >= 5 && node[3] <= node[4] <= buf.len() {
                lemma_decode_fuel(
                    buf.subrange(node[3] as int, node[4] as int),
                    buf,
                    (f - 1) as nat,
                    (g - 1) as nat,
                );
            }
        } else if node[0] == ABS_CODE && node.len() >= 4 && node[2] <= node[3] <= buf.len() {
            lemma_decode_fuel(
                buf.subrange(node[2] as int, node[3] as int),
                buf,
                (f - 1) as nat,
                (g - 1) as nat,
            );
        }
    }
}

/// Any finishing budget gives the outcome `decoded` names.
pub proof fn lemma_decoded(node: Seq<usize>, buf: Seq<usize>, f: nat)
    requires
        decode(node, buf, f) is Some,
    ensures
        decodes(node, buf),
        decode(node, buf, f) == Some(decoded(node, buf)),
{
    let g = choose|fuel: nat| #[trigger] decode(node, buf, fuel) is Some;
    if f <= g {
        lemma_decode_fuel(node, buf, f, g);
    } else {
        lemma_decode_fuel(node, buf, g, f);
    }
}

fn decode_within<'a>(term: &[usize], termbuffer: &[usize], Ghost(fuel): Ghost<nat>) -> (r: Result<Box<LamTerm>, &'a str>)
    requires
        decode(term@, termbuffer@, fuel) is Some,
    ensures
        match r {
            Ok(t) => decode(term@, termbuffer@, fuel) == Some(Ok::<LamTerm, ()>(*t)),
            Err(e) => decode(term@, termbuffer@, fuel) == Some(Err::<LamTerm, ()>(()))
                && e@ == "Error translating binary term"@,
        },
    decreases fuel,
{
    let code = term[0];
    if code == APP_CODE {
        let left = decode_within(
            vstd::slice::slice_subrange(termbuffer, term[1], term[2]),
            termbuffer,
            Ghost((fuel - 1) as nat),
        );
        match left {
            Err(e) => Err(e),
            Ok(left) => {
                let right = decode_within(
                    vstd::slice::slice_subrange(termbuffer, term[3], term[4]),
                    termbuffer,
                    Ghost((fuel - 1) as nat),
                );
                match right {
                    Err(e) => Err(e),
                    Ok(right) => Ok(Box::new(LamTerm::Application(left, right))),
                }
            },
        }
    } else if code == ABS_CODE {
        let varcount = term[1];
        let body = decode_within(
            vstd::slice::slice_subrange(termbuffer, term[2], term[3]),
            termbuffer,
            Ghost((fuel - 1) as nat),
        );
        match body {
            Err(e) => Err(e),
            Ok(body) => Ok(Box::new(LamTerm::Abstraction(varcount, body))),
        }
    } else if code == VAR_CODE {
        Ok(Box::new(LamTerm::Var(term[1], term[2])))
    } else {
        Err("Error translating binary term")
    }
}

/// Decodes the node whose header starts `term`, with its parts looked up in
/// `termbuffer`. An unknown instruction code gives an error.
pub fn bin_term_to_lam<'a>(term: &[usize], termbuffer: &[usize]) -> (r: Result<Box<LamTerm>, &'a str>)
    requires
        decodes(term@, termbuffer@),
    ensures
        match decoded(term@, termbuffer@) {
            Ok(t) => r matches Ok(b) && *b == t,
            Err(_) => r matches Err(e) && e@ == "Error translating binary term"@,
        },
{
    let ghost fuel = choose|fuel: nat| #[trigger] decode(term@, termbuffer@, fuel) is Some;
    decode_within(term, termbuffer, Ghost(fuel))
}


/// `buf` holds the encoding of `t` with its header at position `p`.
pub open spec fn encodes_at(buf: Seq<usize>, p: int, t: LamTerm) -> bool {
    &&& 0 <= p
    &&& p + enc_len(t) <= buf.len()
    &&& buf.subrange(p, p + enc_len(t)) == encode(t, p)
}

/// `node` starts with the header of the node at position `p` of `buf`.
pub open spec fn starts_with_header(node: Seq<usize>, buf: Seq<usize>, p: int, t: LamTerm) -> bool {
    &&& node.len() >= header_len(t)
    &&& forall|i: int| 0 <= i < header_len(t) ==> #[trigger] node[i] == buf[p + i]
}

/// Facts about the header of a node that encodes `u`.
pub proof fn lemma_node_fields(buf: Seq<usize>, s: Seq<usize>, u: LamTerm, p: int)
    requires
        buf.len() <= usize::MAX,
        encodes_at(buf, p, u),
        starts_with_header(s, buf, p, u),
    ensures
        match u {
            LamTerm::Application(l, r) => {
                &&& s[0] == APP_CODE
                &&& s.len() >= 5
                &&& range_ok(s[1], s[2], buf.len())
                &&& range_ok(s[3], s[4], buf.len())
                &&& encodes_at(buf, s[1] as int, *l)
                &&& starts_with_header(buf.subrange(s[1] as int, s[2] as int), buf, s[1] as int, *l)
                &&& encodes_at(buf, s[3] as int, *r)
                &&& starts_with_header(buf.subrange(s[3] as int, s[4] as int), buf, s[3] as int, *r)
            },
            LamTerm::Abstraction(n, b) => {
                &&& s[0] == ABS_CODE
                &&& s.len() >= 4
                &&& s[1] == n
                &&& range_ok(s[2], s[3], buf.len())
                &&& encodes_at(buf, s[2] as int, *b)
                &&& starts_with_header(buf.subrange(s[2] as int, s[3] as int), buf, s[2] as int, *b)
            },
            LamTerm::Var(v, k) => {
                &&& s[0] == VAR_CODE
                &&& s.len() >= 3
                &&& s[1] == v
                &&& s[2] == k
            },
        },
{
    lemma_encode_len(u, p);
    let e = encode(u, p);
    assert(forall|i: int| 0 <= i < enc_len(u) ==> #[trigger] buf[p + i] == e[i]) by {
        assert forall|i: int| 0 <= i < enc_len(u) implies #[trigger] buf[p + i] == e[i] by {
            assert(buf.subrange(p, p + enc_len(u))[i] == buf[p + i]);
        }
    }
    match u {
        LamTerm::Abstraction(n, body) => {
            let bs = p + 4;
            lemma_encode_len(*body, bs);
            assert(s[0] == buf[p + 0]);
            assert(s[1] == buf[p + 1]);
            assert(s[2] == buf[p + 2]);
            assert(s[3] == buf[p + 3]);
            assert(buf.subrange(bs, bs + enc_len(*body)) =~= encode(*body, bs)) by {
                assert forall|i: int| 0 <= i < enc_len(*body) implies buf.subrange(bs, bs + enc_len(*body))[i] == encode(*body, bs)[i] by {
                    assert(buf[p + (4 + i)] == e[4 + i]);
                }
            }
        },
        LamTerm::Application(left, right) => {
            let ls = p + 5;
            let rs = ls + enc_len(*left);
            lemma_encode_len(*left, ls);
            lemma_encode_len(*right, rs);
            assert(s[0] == buf[p + 0]);
            assert(s[1] == buf[p + 1]);
            assert(s[2] == buf[p + 2]);
            assert(s[3] == buf[p + 3]);
            assert(s[4] == buf[p + 4]);
            assert(buf.subrange(ls, ls + enc_len(*left)) =~= encode(*left, ls)) by {
                assert forall|i: int| 0 <= i < enc_len(*left) implies buf.subrange(ls, ls + enc_len(*left))[i] == encode(*left, ls)[i] by {
                    assert(buf[p + (5 + i)] == e[5 + i]);
                }
            }
            assert(buf.subrange(rs, rs + enc_len(*right)) =~= encode(*right, rs)) by {
                assert forall|i: int| 0 <= i < enc_len(*right) implies buf.subrange(rs, rs + enc_len(*right))[i] == encode(*right, rs)[i] by {
                    assert(buf[p + (5 + enc_len(*left) + i)] == e[5 + enc_len(*left) + i]);
                }
            }
        },
        LamTerm::Var(v, k) => {
            assert(s[0] == buf[p + 0]);
            assert(s[1] == buf[p + 1]);
            assert(s[2] == buf[p + 2]);
        },
    }
}

proof fn lemma_decode_encoded(t: LamTerm, buf: Seq<usize>, p: int, node: Seq<usize>)
    requires
        buf.len() <= usize::MAX,
        encodes_at(buf, p, t),
        starts_with_header(node, buf, p, t),
    ensures
        decode(node, buf, enc_len(t)) == Some(Ok::<LamTerm, ()>(t)),
    decreases t,
{
    lemma_node_fields(buf, node, t, p);
    match t {
        LamTerm::Abstraction(n, body) => {
            let sub = buf.subrange(node[2] as int, node[3] as int);
            lemma_decode_encoded(*body, buf, node[2] as int, sub);
            lemma_decode_fuel(sub, buf, enc_len(*body), (enc_len(t) - 1) as nat);
        },
        LamTerm::Application(left, right) => {
            let lsub = buf.subrange(node[1] as int, node[2] as int);
            let rsub = buf.subrange(node[3] as int, node[4] as int);
            lemma_decode_encoded(*left, buf, node[1] as int, lsub);
            lemma_decode_encoded(*right, buf, node[3] as int, rsub);
            lemma_decode_fuel(lsub, buf, enc_len(*left), (enc_len(t) - 1) as nat);
            lemma_decode_fuel(rsub, buf, enc_len(*right), (enc_len(t) - 1) as nat);
        },
        LamTerm::Var(..) => {},
    }
}

/// Decoding inverts encoding: wherever a buffer holds the encoding of `t`
/// (as `lam_term_to_bin` leaves it), decoding from the header of that node,
/// or from any longer slice that starts there, gives back `t`.
pub proof fn law_decode_of_encode(t: LamTerm, prefix: Seq<usize>, suffix: Seq<usize>, end: int)
    requires
        prefix.len() + enc_len(t) + suffix.len() <= usize::MAX,
        prefix.len() + header_len(t) <= end <= prefix.len() + enc_len(t) + suffix.len(),
    ensures
        ({
            let buf = prefix + encode(t, prefix.len() as int) + suffix;
            let node = buf.subrange(prefix.len() as int, end);
            decodes(node, buf) && decoded(node, buf) == Ok::<LamTerm, ()>(t)
        }),
{
    let p = prefix.len() as int;
    lemma_encode_len(t, p);
    let buf = prefix + encode(t, p) + suffix;
    let node = buf.subrange(p, end);
    assert(buf.subrange(p, p + enc_len(t)) =~= encode(t, p));
    lemma_decode_encoded(t, buf, p, node);
    lemma_decoded(node, buf, enc_len(t));
}


/// The numbers of abstractions, applications and variables in `t`.
pub open spec fn node_counts(t: LamTerm) -> (nat, nat, nat)
    decreases t,
{
    match t {
        LamTerm::Abstraction(_, body) => {
            let c = node_counts(*body);
            (c.0 + 1, c.1, c.2)
        },
        LamTerm::Application(left, right) => {
            let l = node_counts(*left);
            let r = node_counts(*right);
            (l.0 + r.0, l.1 + r.1 + 1, l.2 + r.2)
        },
        LamTerm::Var(..) => (0, 0, 1),
    }
}

/// The encoding of a term is the headers of its nodes, nothing more: four
/// cells per abstraction, five per application and three per variable.
pub proof fn law_encoding_length(t: LamTerm, base: int)
    ensures
        encode(t, base).len() == 4 * node_counts(t).0 + 5 * node_counts(t).1 + 3 * node_counts(t).2,
    decreases t,
{
    lemma_encode_len(t, base);
    match t {
        LamTerm::Abstraction(_, body) => law_encoding_length(*body, base + 4),
        LamTerm::Application(left, right) => {
            law_encoding_length(*left, base + 5);
            law_encoding_length(*right, base + 5 + enc_len(*left));
        },
        LamTerm::Var(..) => {},
    }
}

/// The first cell of an encoding names the kind of its root, and the header
/// is four cells after an abstraction code, five after an application code and
/// three after a variable code.
pub proof fn law_header_follows_code(t: LamTerm, base: int)
    ensures
        encode(t, base).len() >= header_len(t),
        encode(t, base)[0] == ABS_CODE ==> t is Abstraction && header_len(t) == 4,
        encode(t, base)[0] == APP_CODE ==> t is Application && header_len(t) == 5,
        encode(t, base)[0] == VAR_CODE ==> t is Var && header_len(t) == 3,
{
    lemma_encode_len(t, base);
}

/// A code that names a node: variable, application or abstraction.
pub open spec fn known_code(c: usize) -> bool {
    c == VAR_CODE || c == APP_CODE || c == ABS_CODE
}

/// Decoding reports an error only because some node it reaches holds an
/// unknown code: the node it starts from, or one whose header starts at a cell
/// of the buffer. A node that holds an unknown code always decodes to an
/// error.
pub proof fn law_decode_error_on_unknown_code(node: Seq<usize>, buf: Seq<usize>, fuel: nat)
    ensures
        fuel > 0 && node.len() > 0 && !known_code(node[0]) ==> decode(node, buf, fuel) == Some(
            Err::<LamTerm, ()>(()),
        ),
        decode(node, buf, fuel) == Some(Err::<LamTerm, ()>(())) ==> (node.len() > 0 && !known_code(
            node[0],
        )) || exists|a: int| 0 <= a < buf.len() && !known_code(#[trigger] buf[a]),
    decreases fuel,
{
    if fuel > 0 && node.len() > 0 && known_code(node[0]) {
        if node[0] == APP_CODE && node.len() >= 3 && node[1] <= node[2] <= buf.len() {
            let l = buf.subrange(node[1] as int, node[2] as int);
            law_decode_error_on_unknown_code(l, buf, (fuel - 1) as nat);
            if l.len() > 0 {
                assert(l[0] == buf[node[1] as int]);
            }
            if node.len() >= 5 && node[3] <= node[4] <= buf.len() {
                let r = buf.subrange(node[3] as int, node[4] as int);
                law_decode_error_on_unknown_code(r, buf, (fuel - 1) as nat);
                if r.len() > 0 {
                    assert(r[0] == buf[node[3] as int]);
                }
            }
        } else if node[0] == ABS_CODE && node.len() >= 4 && node[2] <= node[3] <= buf.len() {
            let b = buf.subrange(node[2] as int, node[3] as int);
            law_decode_error_on_unknown_code(b, buf, (fuel - 1) as nat);
            if b.len() > 0 {
                assert(b[0] == buf[node[2] as int]);
            }
        }
    }
}

/// The binary Krivine machine reports an error exactly when its current node
/// holds an unknown code.
pub proof fn law_krivine_error_on_unknown_code(term: Seq<usize>, s: KState<Seq<usize>>)
    ensures
        kb_step(term, s) is Error <==> (s.cur.len() > 0 && !known_code(s.cur[0])),
{
}

// ---------------------------------------------------------------------------
// Krivine machine on the binary encoding
// ---------------------------------------------------------------------------

/// `[lo, hi)` is a range of a buffer of length `len`.
pub open spec fn range_ok(lo: usize, hi: usize, len: nat) -> bool {
    lo <= hi && hi <= len
}

/// One transition of the Krivine machine that runs on the encoding `term`;
/// the current term is the slice that starts with the header of a node.
pub open spec fn kb_step(term: Seq<usize>, s: KState<Seq<usize>>) -> Step<KState<Seq<usize>>> {
    let cur = s.cur;
    if cur.len() == 0 {
        Step::Crash
    } else if cur[0] == APP_CODE {
        if cur.len() < 5 || !range_ok(cur[3], cur[4], term.len()) || !range_ok(
            cur[1],
            cur[2],
            term.len(),
        ) {
            Step::Crash
        } else {
            Step::Next(
                KState {
                    cur: term.subrange(cur[1] as int, cur[2] as int),
                    env: s.env,
                    stack: s.stack.push((term.subrange(cur[3] as int, cur[4] as int), s.env)),
                    heap: s.heap,
                },
            )
        }
    } else if cur[0] == ABS_CODE {
        if cur.len() < 2 {
            Step::Crash
        } else if s.stack.len() < cur[1] {
            Step::Stop(s)
        } else if cur.len() < 4 || !range_ok(cur[2], cur[3], term.len()) {
            Step::Crash
        } else {
            let at = s.stack.len() - cur[1];
            Step::Next(
                KState {
                    cur: term.subrange(cur[2] as int, cur[3] as int),
                    env: s.heap.len() as isize,
                    stack: s.stack.take(at),
                    heap: s.heap.push((s.env, s.stack.skip(at))),
                },
            )
        }
    } else if cur[0] == VAR_CODE {
        if cur.len() < 3 {
            Step::Crash
        } else {
            match climb(s.heap, s.env, cur[1] as nat) {
                None => Step::Crash,
                Some(e) => {
                    if e < 0 {
                        Step::Stop(KState { cur: s.cur, env: e, stack: s.stack, heap: s.heap })
                    } else if e >= s.heap.len() {
                        Step::Crash
                    } else {
                        let apps = s.heap[e as int].1;
                        let k = cur[2];
                        if k == 0 || k > apps.len() {
                            Step::Crash
                        } else {
                            let c = apps[apps.len() - k];
                            Step::Next(KState { cur: c.0, env: c.1, stack: s.stack, heap: s.heap })
                        }
                    }
                },
            }
        }
    } else {
        Step::Error("Error Computing Term"@)
    }
}

/// Runs the binary Krivine machine for at most `fuel` transitions.
pub open spec fn kb_run(term: Seq<usize>, s: KState<Seq<usize>>, fuel: nat) -> Run<KState<Seq<usize>>>
    decreases fuel,
{
    if fuel == 0 {
        Run::OutOfFuel
    } else {
        match kb_step(term, s) {
            Step::Next(next) => kb_run(term, next, (fuel - 1) as nat).after(1),
            Step::Stop(last) => Run::Halted(last, 1),
            Step::Error(msg) => Run::Errored(msg),
            Step::Crash => Run::Crashed,
        }
    }
}

/// A larger budget does not change a finished run.
pub proof fn lemma_kb_run_fuel(term: Seq<usize>, s: KState<Seq<usize>>, f: nat, g: nat)
    requires
        kb_run(term, s, f).finished(),
        f <= g,
    ensures
        kb_run(term, s, g) == kb_run(term, s, f),
    decreases f,
{
    if f > 0 {
        if let Step::Next(next) = kb_step(term, s) {
            lemma_kb_run_fuel(term, next, (f - 1) as nat, (g - 1) as nat);
        }
    }
}

/// The binary Krivine machine started on the whole of `term` halts or reports
/// an error, without crashing, within a number of transitions a `usize` counts.
pub open spec fn kb_returns(term: Seq<usize>) -> bool {
    exists|f: nat| f <= usize::MAX && #[trigger] kb_run(term, kinit(term), f).returned()
}

/// The outcome of the binary Krivine machine started on the whole of `term`.
pub open spec fn kb_outcome(term: Seq<usize>) -> Run<KState<Seq<usize>>> {
    kb_run(
        term,
        kinit(term),
        choose|f: nat| f <= usize::MAX && #[trigger] kb_run(term, kinit(term), f).returned(),
    )
}

/// The spec view of closures held in memory.
pub open spec fn clos_view<'a>(s: Seq<(&'a [usize], isize)>) -> Seq<Clo<Seq<usize>>> {
    s.map_values(|c: (&'a [usize], isize)| (c.0@, c.1))
}

/// The spec view of a heap held in memory.
pub open spec fn heap_view<'a>(h: Seq<(isize, Vec<(&'a [usize], isize)>)>) -> KHeap<Seq<usize>> {
    h.map_values(|frame: (isize, Vec<(&'a [usize], isize)>)| (frame.0, clos_view(frame.1@)))
}

/// Runs the Krivine machine on the encoding `term`, starting with its header
/// at the front, until it halts: on an abstraction with fewer closures on the
/// stack than it binds, or on a variable that climbs out of the environments.
/// Returns the final closure, the heap and the number of transitions.
/// Reports an error on an unknown instruction code.
pub fn kirvine_compute<'a>(term: &'a Vec<usize>) -> (r: Result<
    (((&'a [usize], isize), Vec<(isize, Vec<(&'a [usize], isize)>)>), usize),
    &'a str,
>)
    requires
        kb_returns(term@),
    ensures
        match kb_outcome(term@) {
            Run::Halted(fin, n) => r matches Ok((((cur, env), heap), steps)) && cur@ == fin.cur
                && env == fin.env && heap_view(heap@) == fin.heap && steps == n,
            Run::Errored(msg) => r matches Err(e) && e@ == msg,
            _ => false,
        },
{
    let mut heap: Vec<(isize, Vec<(&'a [usize], isize)>)> = Vec::new();
    let mut curenviron: isize = -1;
    let mut stack: Vec<(&'a [usize], isize)> = Vec::new();
    let mut curterm: &'a [usize] = term.as_slice();
    let mut steps: usize = 0;
    let ghost f0 = choose|f: nat| f <= usize::MAX && #[trigger] kb_run(term@, kinit(term@), f).returned();
    let ghost mut fl: nat = f0;
    proof {
        assert(clos_view(stack@) =~= Seq::<Clo<Seq<usize>>>::empty());
        assert(heap_view(heap@) =~= Seq::<(isize, Seq<Clo<Seq<usize>>>)>::empty());
    }
    loop
        invariant
            kb_run(
                term@,
                KState { cur: curterm@, env: curenviron, stack: clos_view(stack@), heap: heap_view(heap@) },
                fl,
            ).returned(),
            kb_outcome(term@) == kb_run(
                term@,
                KState { cur: curterm@, env: curenviron, stack: clos_view(stack@), heap: heap_view(heap@) },
                fl,
            ).after(steps as nat),
            steps + fl <= usize::MAX,
        decreases fl,
    {
        let ghost s = KState { cur: curterm@, env: curenviron, stack: clos_view(stack@), heap: heap_view(heap@) };
        assert(fl > 0);
        steps += 1;
        let code = curterm[0];
        if code == APP_CODE {
            let right = vstd::slice::slice_subrange(term.as_slice(), curterm[3], curterm[4]);
            stack.push((right, curenviron));
            curterm = vstd::slice::slice_subrange(term.as_slice(), curterm[1], curterm[2]);
            proof {
                fl = (fl - 1) as nat;
                assert(clos_view(stack@) =~= s.stack.push((right@, s.env)));
            }
        } else if code == ABS_CODE {
            let varcount = curterm[1];
            if stack.len() < varcount {
                return Ok((((curterm, curenviron), heap), steps));
            }
            let ghost old_stack = stack@;
            let ghost old_heap = heap@;
            let at = stack.len() - varcount;
            let frame = stack.split_off(at);
            heap.push((curenviron, frame));
            curenviron = #[verifier::truncate] ((heap.len() - 1) as isize);
            curterm = vstd::slice::slice_subrange(term.as_slice(), curterm[2], curterm[3]);
            proof {
                fl = (fl - 1) as nat;
                assert(clos_view(stack@) =~= s.stack.take(at as int));
                assert(clos_view(frame@) =~= s.stack.skip(at as int));
                assert(heap_view(heap@) =~= s.heap.push((s.env, s.stack.skip(at as int))));
            }
        } else if code == VAR_CODE {
            let v = curterm[1];
            let k = curterm[2];
            let ghost e = climb(s.heap, s.env, v as nat).unwrap();
            if v != 0 {
                let mut i: usize = 0;
                while i < v && curenviron >= 0
                    invariant
                        0 <= i <= v,
                        climb(s.heap, curenviron, (v - i) as nat) == Some(e),
                        s.heap == heap_view(heap@),
                    decreases v - i,
                {
                    curenviron = heap[curenviron as usize].0;
                    i += 1;
                }
            }
            if curenviron >= 0 {
                let apps = &heap[curenviron as usize].1;
                let clos = &apps[apps.len() - k];
                curterm = clos.0;
                curenviron = clos.1;
                proof {
                    fl = (fl - 1) as nat;
                }
            } else {
                return Ok((((curterm, curenviron), heap), steps));
            }
        } else {
            return Err("Error Computing Term");
        }
    }
}


/// Reads back the closure `(cur, env)` of a halted binary Krivine machine as a
/// term, at binder depth `level`: a variable bound outside the current `level`
/// binders is replaced by the term its environment gives it, read back at depth
/// zero. `None` when an index falls out of range, the depth overflows, or the
/// read-back does not finish within `fuel` nested steps.
pub open spec fn kb_read(
    term: Seq<usize>,
    heap: KHeap<Seq<usize>>,
    cur: Seq<usize>,
    env: isize,
    level: usize,
    fuel: nat,
) -> Option<LamTerm>
    decreases fuel,
{
    if fuel == 0 || cur.len() == 0 {
        None
    } else if cur[0] == ABS_CODE {
        if cur.len() < 4 || !range_ok(cur[2], cur[3], term.len()) || level == usize::MAX {
            None
        } else {
            match kb_read(
                term,
                heap,
                term.subrange(cur[2] as int, cur[3] as int),
                env,
                (level + 1) as usize,
                (fuel - 1) as nat,
            ) {
                Some(body) => Some(LamTerm::Abstraction(cur[1], Box::new(body))),
                None => None,
            }
        }
    } else if cur[0] == APP_CODE {
        if cur.len() < 5 || !range_ok(cur[1], cur[2], term.len()) || !range_ok(
            cur[3],
            cur[4],
            term.len(),
        ) {
            None
        } else {
            match (
                kb_read(
                    term,
                    heap,
                    term.subrange(cur[1] as int, cur[2] as int),
                    env,
                    level,
                    (fuel - 1) as nat,
                ),
                kb_read(
                    term,
                    heap,
                    term.subrange(cur[3] as int, cur[4] as int),
                    env,
                    level,
                    (fuel - 1) as nat,
                ),
            ) {
                (Some(left), Some(right)) => Some(
                    LamTerm::Application(Box::new(left), Box::new(right)),
                ),
                _ => None,
            }
        }
    } else if cur[0] == VAR_CODE {
        if cur.len() < 3 {
            None
        } else if cur[1] >= level {
            match climb_exact(kparents(heap), env, (cur[1] - level) as nat) {
                None => None,
                Some(e) => {
                    if e < 0 || e >= heap.len() {
                        None
                    } else {
                        let apps = heap[e as int].1;
                        let k = cur[2];
                        if k == 0 || k - 1 >= apps.len() {
                            None
                        } else {
                            let c = apps[k - 1];
                            kb_read(term, heap, c.0, c.1, 0, (fuel - 1) as nat)
                        }
                    }
                },
            }
        } else {
            Some(LamTerm::Var(cur[1], cur[2]))
        }
    } else {
        None
    }
}

/// A larger budget does not change a finished read-back.
pub proof fn lemma_kb_read_fuel(
    term: Seq<usize>,
    heap: KHeap<Seq<usize>>,
    cur: Seq<usize>,
    env: isize,
    level: usize,
    f: nat,
    g: nat,
)
    requires
        kb_read(term, heap, cur, env, level, f) is Some,
        f <= g,
    ensures
        kb_read(term, heap, cur, env, level, g) == kb_read(term, heap, cur, env, level, f),
    decreases f,
{
    if cur[0] == ABS_CODE {
        lemma_kb_read_fuel(
            term,
            heap,
            term.subrange(cur[2] as int, cur[3] as int),
            env,
            (level + 1) as usize,
            (f - 1) as nat,
            (g - 1) as nat,
        );
    } else if cur[0] == APP_CODE {
        lemma_kb_read_fuel(
            term,
            heap,
            term.subrange(cur[1] as int, cur[2] as int),
            env,
            level,
            (f - 1) as nat,
            (g - 1) as nat,
        );
        lemma_kb_read_fuel(
            term,
            heap,
            term.subrange(cur[3] as int, cur[4] as int),
            env,
            level,
            (f - 1) as nat,
            (g - 1) as nat,
        );
    } else if cur[0] == VAR_CODE && cur[1] >= level {
        let e = climb_exact(kparents(heap), env, (cur[1] - level) as nat).unwrap();
        let c = heap[e as int].1[cur[2] - 1];
        lemma_kb_read_fuel(term, heap, c.0, c.1, 0, (f - 1) as nat, (g - 1) as nat);
    }
}

/// The final closure of a halted binary Krivine machine reads back.
pub open spec fn kb_reads_back(term: Seq<usize>, fin: KState<Seq<usize>>) -> bool {
    exists|f: nat| #[trigger] kb_read(term, fin.heap, fin.cur, fin.env, 0, f) is Some
}

/// The term the final closure of a halted binary Krivine machine reads back to.
pub open spec fn kb_readback(term: Seq<usize>, fin: KState<Seq<usize>>) -> LamTerm {
    kb_read(
        term,
        fin.heap,
        fin.cur,
        fin.env,
        0,
        choose|f: nat| #[trigger] kb_read(term, fin.heap, fin.cur, fin.env, 0, f) is Some,
    ).unwrap()
}

proof fn lemma_kb_readback(term: Seq<usize>, fin: KState<Seq<usize>>, f: nat)
    requires
        kb_read(term, fin.heap, fin.cur, fin.env, 0, f) is Some,
    ensures
        kb_reads_back(term, fin),
        kb_read(term, fin.heap, fin.cur, fin.env, 0, f) == Some(kb_readback(term, fin)),
{
    let g = choose|f: nat| #[trigger] kb_read(term, fin.heap, fin.cur, fin.env, 0, f) is Some;
    if f <= g {
        lemma_kb_read_fuel(term, fin.heap, fin.cur, fin.env, 0, f, g);
    } else {
        lemma_kb_read_fuel(term, fin.heap, fin.cur, fin.env, 0, g, f);
    }
}

/// The binary Krivine machine returns on `term`, and when it halts its final
/// closure reads back to a term whose encoding fits a buffer.
pub open spec fn kb_runs_to_term(term: Seq<usize>) -> bool {
    &&& kb_returns(term)
    &&& kb_outcome(term) matches Run::Halted(fin, _) ==> {
        &&& kb_reads_back(term, fin)
        &&& enc_len(kb_readback(term, fin)) <= usize::MAX
    }
}

#[verifier::rlimit(40)]
fn krivine_closure_to_closed_term<'a>(
    clos: (&'a [usize], isize),
    heap: &Vec<(isize, Vec<(&'a [usize], isize)>)>,
    termbuffer: &'a Vec<usize>,
    buffer: &mut Vec<usize>,
    level: usize,
    Ghost(fuel): Ghost<nat>,
) -> (r: (usize, usize))
    requires
        kb_read(termbuffer@, heap_view(heap@), clos.0@, clos.1, level, fuel) is Some,
        old(buffer)@.len() + enc_len(
            kb_read(termbuffer@, heap_view(heap@), clos.0@, clos.1, level, fuel).unwrap(),
        ) <= usize::MAX,
    ensures
        ({
            let t = kb_read(termbuffer@, heap_view(heap@), clos.0@, clos.1, level, fuel).unwrap();
            &&& final(buffer)@ == old(buffer)@ + encode(t, old(buffer)@.len() as int)
            &&& r.0 == old(buffer)@.len()
            &&& r.1 == old(buffer)@.len() + header_len(t)
        }),
    decreases fuel,
{
    let ghost t = kb_read(termbuffer@, heap_view(heap@), clos.0@, clos.1, level, fuel).unwrap();
    proof {
        lemma_encode_len(t, old(buffer)@.len() as int);
    }
    let code = clos.0[0];
    if code == ABS_CODE {
        let start = buffer.len();
        buffer.push(ABS_CODE);
        buffer.push(clos.0[1]);
        let pos = buffer.len();
        buffer.push(0);
        buffer.push(0);
        let body = vstd::slice::slice_subrange(termbuffer.as_slice(), clos.0[2], clos.0[3]);
        let (startbody, endbody) = krivine_closure_to_closed_term(
            (body, clos.1),
            heap,
            termbuffer,
            buffer,
            level + 1,
            Ghost((fuel - 1) as nat),
        );
        buffer.set(pos, startbody);
        buffer.set(pos + 1, endbody);
        assert(buffer@ =~= old(buffer)@ + encode(t, start as int));
        (start, pos + 2)
    } else if code == APP_CODE {
        let start = buffer.len();
        buffer.push(APP_CODE);
        let pos = buffer.len();
        buffer.push(0);
        buffer.push(0);
        buffer.push(0);
        buffer.push(0);
        let left = vstd::slice::slice_subrange(termbuffer.as_slice(), clos.0[1], clos.0[2]);
        let ghost lt = kb_read(termbuffer@, heap_view(heap@), left@, clos.1, level, (fuel - 1) as nat).unwrap();
        let ghost rt = kb_read(
            termbuffer@,
            heap_view(heap@),
            termbuffer@.subrange(clos.0[3] as int, clos.0[4] as int),
            clos.1,
            level,
            (fuel - 1) as nat,
        ).unwrap();
        proof {
            lemma_encode_len(lt, (start + 5) as int);
            lemma_encode_len(rt, start + 5 + enc_len(lt));
        }
        let (lstart, lend) = krivine_closure_to_closed_term(
            (left, clos.1),
            heap,
            termbuffer,
            buffer,
            level,
            Ghost((fuel - 1) as nat),
        );
        buffer.set(pos, lstart);
        buffer.set(pos + 1, lend);
        let right = vstd::slice::slice_subrange(termbuffer.as_slice(), clos.0[3], clos.0[4]);
        let (rstart, rend) = krivine_closure_to_closed_term(
            (right, clos.1),
            heap,
            termbuffer,
            buffer,
            level,
            Ghost((fuel - 1) as nat),
        );
        buffer.set(pos + 2, rstart);
        buffer.set(pos + 3, rend);
        assert(buffer@ =~= old(buffer)@ + encode(t, start as int));
        (start, pos + 4)
    } else {
        let v = clos.0[1];
        let k = clos.0[2];
        if v >= level {
            let ghost parents = kparents(heap_view(heap@));
            let ghost e = climb_exact(parents, clos.1, (v - level) as nat).unwrap();
            let mut env = clos.1;
            let mut i = level;
            while i < v
                invariant
                    level <= i <= v,
                    climb_exact(parents, env, (v - i) as nat) == Some(e),
                    parents == kparents(heap_view(heap@)),
                decreases v - i,
            {
                assert(parents[env as int] == heap@[env as int].0);
                env = heap[env as usize].0;
                i += 1;
            }
            let c = heap[env as usize].1[k - 1];
            krivine_closure_to_closed_term(c, heap, termbuffer, buffer, 0, Ghost((fuel - 1) as nat))
        } else {
            let start = buffer.len();
            buffer.push(VAR_CODE);
            buffer.push(v);
            buffer.push(k);
            assert(buffer@ =~= old(buffer)@ + encode(t, start as int));
            (start, start + 3)
        }
    }
}

/// Runs the Krivine machine on the encoded term `term` and reads the final
/// closure back into a fresh buffer, as an encoding whose root header starts
/// at position zero. Returns that buffer and the number of transitions, or the
/// machine's error.
pub fn run_kirvine<'a>(term: &'a Vec<usize>) -> (r: Result<(Vec<usize>, usize), &'a str>)
    requires
        kb_runs_to_term(term@),
    ensures
        match kb_outcome(term@) {
            Run::Halted(fin, n) => r matches Ok((buffer, steps)) && buffer@ == encode(
                kb_readback(term@, fin),
                0,
            ) && steps == n,
            Run::Errored(msg) => r matches Err(e) && e@ == msg,
            _ => false,
        },
{
    match kirvine_compute(term) {
        Err(e) => Err(e),
        Ok(((clos, heap), steps)) => {
            let ghost fin = kb_outcome(term@)->Halted_0;
            let ghost f = choose|f: nat| #[trigger] kb_read(term@, fin.heap, fin.cur, fin.env, 0, f) is Some;
            proof {
                lemma_kb_readback(term@, fin, f);
            }
            let mut buffer: Vec<usize> = Vec::new();
            krivine_closure_to_closed_term(clos, &heap, term, &mut buffer, 0, Ghost(f));
            assert(buffer@ =~= encode(kb_readback(term@, fin), 0));
            Ok((buffer, steps))
        },
    }
}


// ---------------------------------------------------------------------------
// SECD machine on the binary encoding
// ---------------------------------------------------------------------------

/// The control list of the term whose header starts at position `start` of
/// `buf`: for an application, the marker `-1` followed by the lists of its two
/// parts; for any other node, its position. `None` when an index falls out of
/// range or the walk does not finish within `fuel` nested steps.
pub open spec fn bseq(buf: Seq<usize>, start: usize, fuel: nat) -> Option<Seq<isize>>
    decreases fuel,
{
    if fuel == 0 || start >= buf.len() {
        None
    } else if buf[start as int] == APP_CODE {
        if start + 1 >= buf.len() {
            None
        } else {
            match bseq(buf, buf[start + 1], (fuel - 1) as nat) {
                None => None,
                Some(left) => {
                    if start + 3 >= buf.len() {
                        None
                    } else {
                        match bseq(buf, buf[start + 3], (fuel - 1) as nat) {
                            None => None,
                            Some(right) => Some(seq![-1isize] + left + right),
                        }
                    }
                },
            }
        }
    } else {
        Some(seq![start as isize])
    }
}

/// A larger budget does not change a finished outcome.
pub proof fn lemma_bseq_fuel(buf: Seq<usize>, start: usize, f: nat, g: nat)
    requires
        bseq(buf, start, f) is Some,
        f <= g,
    ensures
        bseq(buf, start, g) == bseq(buf, start, f),
    decreases f,
{
    if buf[start as int] == APP_CODE {
        lemma_bseq_fuel(buf, buf[start + 1], (f - 1) as nat, (g - 1) as nat);
        lemma_bseq_fuel(buf, buf[start + 3], (f - 1) as nat, (g - 1) as nat);
    }
}

/// The control list of the node at `start` is defined.
pub open spec fn bseq_ok(buf: Seq<usize>, start: usize) -> bool {
    exists|f: nat| #[trigger] bseq(buf, start, f) is Some
}

/// The control list of the node at `start`, where `bseq_ok(buf, start)`.
pub open spec fn bseq_of(buf: Seq<usize>, start: usize) -> Seq<isize> {
    bseq(buf, start, choose|f: nat| #[trigger] bseq(buf, start, f) is Some).unwrap()
}

proof fn lemma_bseq_of(buf: Seq<usize>, start: usize, f: nat)
    requires
        bseq(buf, start, f) is Some,
    ensures
        bseq_ok(buf, start),
        bseq(buf, start, f) == Some(bseq_of(buf, start)),
{
    let g = choose|f: nat| #[trigger] bseq(buf, start, f) is Some;
    if f <= g {
        lemma_bseq_fuel(buf, start, f, g);
    } else {
        lemma_bseq_fuel(buf, start, g, f);
    }
}

fn termseq(termstart: usize, termbuffer: &[usize], Ghost(fuel): Ghost<nat>) -> (seq: Vec<isize>)
    requires
        bseq(termbuffer@, termstart, fuel) is Some,
    ensures
        seq@ == bseq(termbuffer@, termstart, fuel).unwrap(),
    decreases fuel,
{
    let mut seq: Vec<isize> = Vec::new();
    if termbuffer[termstart] == APP_CODE {
        seq.push(-1);
        let mut left = termseq(termbuffer[termstart + 1], termbuffer, Ghost((fuel - 1) as nat));
        seq.append(&mut left);
        let mut right = termseq(termbuffer[termstart + 3], termbuffer, Ghost((fuel - 1) as nat));
        seq.append(&mut right);
    } else {
        seq.push(termstart as isize);
    }
    seq
}

/// State of the SECD machine on the binary encoding: the value stack (indices
/// of closures in `vals`), the closures made so far (position of an
/// abstraction's header and environment), the heap of environment frames
/// (parent frame and the index of the bound closure), the current environment,
/// the control list and the dump of suspended (stack, environment, control).
pub struct BsState {
    pub stack: Seq<usize>,
    pub vals: Seq<(usize, isize)>,
    pub heap: Seq<(isize, usize)>,
    pub env: isize,
    pub control: Seq<isize>,
    pub dump: Seq<(Seq<usize>, isize, Seq<isize>)>,
}

/// The parent links of an SECD heap.
pub open spec fn sparents(heap: Seq<(isize, usize)>) -> Seq<isize> {
    heap.map_values(|frame: (isize, usize)| frame.0)
}

/// One transition of the binary SECD machine.
pub open spec fn bs_step(term: Seq<usize>, s: BsState) -> Step<BsState> {
    if s.control.len() == 0 {
        if s.stack.len() == 0 {
            Step::Crash
        } else if s.dump.len() == 0 {
            Step::Stop(s)
        } else {
            let d = s.dump.last();
            Step::Next(
                BsState {
                    stack: d.0.push(s.stack.last()),
                    vals: s.vals,
                    heap: s.heap,
                    env: d.1,
                    control: d.2,
                    dump: s.dump.drop_last(),
                },
            )
        }
    } else {
        let top = s.control.last();
        let control = s.control.drop_last();
        if top == -1 {
            if s.stack.len() < 1 || s.stack.last() >= s.vals.len() || s.stack.len() < 2 {
                Step::Crash
            } else {
                let left = s.vals[s.stack.last() as int];
                let rightpos = s.stack[s.stack.len() - 2];
                let stack = s.stack.take(s.stack.len() - 2);
                let heap = s.heap.push((left.1, rightpos));
                let c = heap.len() as isize;
                if c - 1 < isize::MIN || left.0 >= term.len() {
                    Step::Crash
                } else if term[left.0 as int] != ABS_CODE {
                    Step::Error("Only closed terms allowed"@)
                } else if left.0 + 2 >= term.len() || term[left.0 + 2] >= term.len() {
                    Step::Crash
                } else {
                    let env = (c - 1) as isize;
                    let body = term[left.0 + 2];
                    if term[body as int] == APP_CODE {
                        if !bseq_ok(term, body) {
                            Step::Crash
                        } else {
                            Step::Next(
                                BsState {
                                    stack: Seq::empty(),
                                    vals: s.vals,
                                    heap,
                                    env,
                                    control: bseq_of(term, body),
                                    dump: s.dump.push((stack, env, control)),
                                },
                            )
                        }
                    } else if term[body as int] == ABS_CODE {
                        Step::Next(
                            BsState {
                                stack: stack.push(s.vals.len() as usize),
                                vals: s.vals.push((body, env)),
                                heap,
                                env,
                                control,
                                dump: s.dump,
                            },
                        )
                    } else if term[body as int] == VAR_CODE {
                        Step::Next(
                            BsState {
                                stack,
                                vals: s.vals,
                                heap,
                                env,
                                control: control.push(body as isize),
                                dump: s.dump,
                            },
                        )
                    } else {
                        Step::Error("Error computing term"@)
                    }
                }
            }
        } else {
            let loc = top as usize;
            if loc >= term.len() {
                Step::Crash
            } else if term[loc as int] == ABS_CODE {
                Step::Next(
                    BsState {
                        stack: s.stack.push(s.vals.len() as usize),
                        vals: s.vals.push((loc, s.env)),
                        heap: s.heap,
                        env: s.env,
                        control,
                        dump: s.dump,
                    },
                )
            } else if term[loc as int] == VAR_CODE {
                if loc + 1 >= term.len() {
                    Step::Crash
                } else {
                    match climb_exact(sparents(s.heap), s.env, term[loc + 1] as nat) {
                        Some(e) => {
                            if e < 0 || e >= s.heap.len() {
                                Step::Crash
                            } else {
                                Step::Next(
                                    BsState {
                                        stack: s.stack.push(s.heap[e as int].1),
                                        vals: s.vals,
                                        heap: s.heap,
                                        env: e,
                                        control,
                                        dump: s.dump,
                                    },
                                )
                            }
                        },
                        None => Step::Crash,
                    }
                }
            } else {
                Step::Error("Abstractions do not exist"@)
            }
        }
    }
}

/// Runs the binary SECD machine for at most `fuel` transitions.
pub open spec fn bs_run(term: Seq<usize>, s: BsState, fuel: nat) -> Run<BsState>
    decreases fuel,
{
    if fuel == 0 {
        Run::OutOfFuel
    } else {
        match bs_step(term, s) {
            Step::Next(next) => bs_run(term, next, (fuel - 1) as nat).after(1),
            Step::Stop(last) => Run::Halted(last, 1),
            Step::Error(msg) => Run::Errored(msg),
            Step::Crash => Run::Crashed,
        }
    }
}

/// A larger budget does not change a finished outcome.
pub proof fn lemma_bs_run_fuel(term: Seq<usize>, s: BsState, f: nat, g: nat)
    requires
        bs_run(term, s, f).finished(),
        f <= g,
    ensures
        bs_run(term, s, g) == bs_run(term, s, f),
    decreases f,
{
    if f > 0 {
        if let Step::Next(next) = bs_step(term, s) {
            lemma_bs_run_fuel(term, next, (f - 1) as nat, (g - 1) as nat);
        }
    }
}

/// The initial SECD state for the encoding `term`: the control list of the
/// node at position zero, everything else empty.
pub open spec fn bs_init(term: Seq<usize>) -> BsState {
    BsState {
        stack: Seq::empty(),
        vals: Seq::empty(),
        heap: Seq::empty(),
        env: -1isize,
        control: bseq_of(term, 0),
        dump: Seq::empty(),
    }
}

/// The binary SECD machine can start on `term` and then halts or reports an
/// error, without crashing, within a number of transitions a `usize` counts.
pub open spec fn bs_returns(term: Seq<usize>) -> bool {
    &&& bseq_ok(term, 0)
    &&& exists|f: nat| f <= usize::MAX && #[trigger] bs_run(term, bs_init(term), f).returned()
}

/// The outcome of the binary SECD machine on `term`.
pub open spec fn bs_outcome(term: Seq<usize>) -> Run<BsState> {
    bs_run(
        term,
        bs_init(term),
        choose|f: nat| f <= usize::MAX && #[trigger] bs_run(term, bs_init(term), f).returned(),
    )
}

/// The spec view of the dump held in memory.
pub open spec fn dump_view(d: Seq<(Vec<usize>, isize, Vec<isize>)>) -> Seq<(Seq<usize>, isize, Seq<isize>)> {
    d.map_values(|e: (Vec<usize>, isize, Vec<isize>)| (e.0@, e.1, e.2@))
}

/// Runs the SECD machine on the encoded term `term` (root header at position
/// zero) until its control and dump are empty. Returns the index of the
/// resulting closure in the closure list, the heap, the closure list and the
/// number of transitions. Reports an error when an applied value is not an
/// abstraction or a control position does not hold an abstraction or a
/// variable.
pub fn secd_compute<'a>(term: &'a Vec<usize>) -> (r: Result<
    ((usize, Vec<(isize, usize)>, Vec<(usize, isize)>), usize),
    &'a str,
>)
    requires
        bs_returns(term@),
    ensures
        match bs_outcome(term@) {
            Run::Halted(fin, n) => r matches Ok(((res, heap, vals), steps)) && res
                == fin.stack.last() && heap@ == fin.heap && vals@ == fin.vals && steps == n,
            Run::Errored(msg) => r matches Err(e) && e@ == msg,
            _ => false,
        },
{
    let term_len = term.len();
    let mut stack: Vec<usize> = Vec::new();
    let mut vals: Vec<(usize, isize)> = Vec::new();
    let mut heap: Vec<(isize, usize)> = Vec::new();
    let mut curenviron: isize = -1;
    let ghost f_init = choose|f: nat| #[trigger] bseq(term@, 0, f) is Some;
    proof {
        lemma_bseq_of(term@, 0, f_init);
    }
    let mut curtermlocs: Vec<isize> = termseq(0, term.as_slice(), Ghost(f_init));
    let mut dump: Vec<(Vec<usize>, isize, Vec<isize>)> = Vec::new();
    let mut steps: usize = 0;
    let ghost f0 = choose|f: nat| f <= usize::MAX && #[trigger] bs_run(term@, bs_init(term@), f).returned();
    let ghost mut fl: nat = f0;
    proof {
        assert(dump_view(dump@) =~= Seq::<(Seq<usize>, isize, Seq<isize>)>::empty());
        assert(BsState {
            stack: stack@,
            vals: vals@,
            heap: heap@,
            env: curenviron,
            control: curtermlocs@,
            dump: dump_view(dump@),
        } == bs_init(term@));
    }
    loop
        invariant
            bs_run(
                term@,
                BsState {
                    stack: stack@,
                    vals: vals@,
                    heap: heap@,
                    env: curenviron,
                    control: curtermlocs@,
                    dump: dump_view(dump@),
                },
                fl,
            ).returned(),
            bs_outcome(term@) == bs_run(
                term@,
                BsState {
                    stack: stack@,
                    vals: vals@,
                    heap: heap@,
                    env: curenviron,
                    control: curtermlocs@,
                    dump: dump_view(dump@),
                },
                fl,
            ).after(steps as nat),
            steps + fl <= usize::MAX,
            term_len == term@.len(),
        decreases fl,
    {
        let ghost s = BsState {
            stack: stack@,
            vals: vals@,
            heap: heap@,
            env: curenviron,
            control: curtermlocs@,
            dump: dump_view(dump@),
        };
        assert(fl > 0);
        steps += 1;
        if curtermlocs.len() == 0 {
            let res = stack.pop().unwrap();
            if dump.len() == 0 {
                return Ok(((res, heap, vals), steps));
            }
            let sec = dump.pop().unwrap();
            stack = sec.0;
            curenviron = sec.1;
            curtermlocs = sec.2;
            stack.push(res);
            proof {
                fl = (fl - 1) as nat;
                assert(dump_view(dump@) =~= s.dump.drop_last());
            }
            continue;
        }
        let toptermloc = curtermlocs.pop().unwrap();
        if toptermloc == -1 {
            let left = vals[stack.pop().unwrap()];
            let rightpos = stack.pop().unwrap();
            assert(stack@ =~= s.stack.take(s.stack.len() - 2));
            assert(curtermlocs@ =~= s.control.drop_last());
            curenviron = left.1;
            heap.push((curenviron, rightpos));
            curenviron = (#[verifier::truncate] (heap.len() as isize)) - 1;
            if term[left.0] == ABS_CODE {
                let body = term[term[left.0 + 2]];
                if body == APP_CODE {
                    let ghost f = choose|f: nat| #[trigger] bseq(term@, term@[left.0 + 2], f) is Some;
                    proof {
                        lemma_bseq_of(term@, term@[left.0 + 2], f);
                    }
                    dump.push((stack, curenviron, curtermlocs));
                    stack = Vec::new();
                    curtermlocs = termseq(term[left.0 + 2], term.as_slice(), Ghost(f));
                    proof {
                        fl = (fl - 1) as nat;
                        assert(dump_view(dump@) =~= s.dump.push(
                            (s.stack.take(s.stack.len() - 2), curenviron, s.control.drop_last()),
                        ));
                    }
                } else if body == ABS_CODE {
                    vals.push((term[left.0 + 2], curenviron));
                    stack.push(vals.len() - 1);
                    proof {
                        fl = (fl - 1) as nat;
                    }
                } else if body == VAR_CODE {
                    curtermlocs.push(#[verifier::truncate] (term[left.0 + 2] as isize));
                    proof {
                        fl = (fl - 1) as nat;
                    }
                } else {
                    return Err("Error computing term");
                }
            } else {
                return Err("Only closed terms allowed");
            }
        } else {
            let loc = #[verifier::truncate] (toptermloc as usize);
            let code = term[loc];
            if code == ABS_CODE {
                vals.push((loc, curenviron));
                stack.push(vals.len() - 1);
                proof {
                    fl = (fl - 1) as nat;
                }
            } else if code == VAR_CODE {
                let n = term[loc + 1];
                let ghost parents = sparents(heap@);
                let ghost e = climb_exact(parents, curenviron, n as nat).unwrap();
                let mut i: usize = 0;
                while i < n
                    invariant
                        0 <= i <= n,
                        climb_exact(parents, curenviron, (n - i) as nat) == Some(e),
                        parents == sparents(heap@),
                    decreases n - i,
                {
                    assert(parents[curenviron as int] == heap@[curenviron as int].0);
                    curenviron = heap[curenviron as usize].0;
                    i += 1;
                }
                stack.push(heap[curenviron as usize].1);
                proof {
                    fl = (fl - 1) as nat;
                }
            } else {
                return Err("Abstractions do not exist");
            }
        }
    }
}

} // verus!
