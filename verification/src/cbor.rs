//! The CBOR subset that the MineChat wire format is written in.
//!
//! Packets are CBOR maps with integer keys. This module holds the byte-level
//! codec: data item heads, canonical (shortest form) integers, UTF-8 text,
//! and a well-formedness check that walks any definite-length data item.
//!
//! The item walker and the readers here take definite lengths. Input with
//! indefinite-length strings, arrays or maps is first given its
//! definite-length form by `definite_lengths` (chunks joined, members
//! counted); packets are read through it. The writer only writes definite
//! lengths.
use vstd::prelude::*;
use vstd::utf8::*;

verus! {

broadcast use vstd::seq::group_seq_axioms;

/// Nesting budget for arrays, maps and tags: a data item may sit inside at
/// most this many containers, the outermost one included.
pub const MAX_NESTING: u32 = 127;

// ---------------------------------------------------------------------------
// Big-endian numbers
// ---------------------------------------------------------------------------

/// 256 to the power `n`.
pub open spec fn pow256(n: nat) -> nat
    decreases n,
{
    if n == 0 {
        1
    } else {
        256 * pow256((n - 1) as nat)
    }
}

/// The unsigned number that the bytes `s` spell in big-endian order.
pub open spec fn spec_be(s: Seq<u8>) -> nat
    decreases s.len(),
{
    if s.len() == 0 {
        0
    } else {
        spec_be(s.drop_last()) * 256 + s.last() as nat
    }
}

/// The `n` low-order bytes of `v`, most significant first.
pub open spec fn be_bytes(v: nat, n: nat) -> Seq<u8>
    decreases n,
{
    if n == 0 {
        seq![]
    } else {
        be_bytes(v / 256, (n - 1) as nat).push((v % 256) as u8)
    }
}

pub proof fn lemma_pow256_pos(n: nat)
    ensures
        pow256(n) >= 1,
    decreases n,
{
    if n > 0 {
        lemma_pow256_pos((n - 1) as nat);
    }
}

pub proof fn lemma_pow256_values()
    ensures
        pow256(1) == 0x100,
        pow256(2) == 0x10000,
        pow256(4) == 0x1_0000_0000,
        pow256(8) == 0x1_0000_0000_0000_0000,
{
    reveal_with_fuel(pow256, 9);
}

pub proof fn lemma_be_bound(s: Seq<u8>)
    ensures
        spec_be(s) < pow256(s.len()),
    decreases s.len(),
{
    if s.len() > 0 {
        lemma_be_bound(s.drop_last());
        let a = spec_be(s.drop_last());
        let p = pow256((s.len() - 1) as nat);
        assert(a * 256 + s.last() < p * 256) by (nonlinear_arith)
            requires
                a < p,
                s.last() < 256,
        ;
    }
}

pub proof fn lemma_be_bytes_len(v: nat, n: nat)
    ensures
        be_bytes(v, n).len() == n,
    decreases n,
{
    if n > 0 {
        lemma_be_bytes_len(v / 256, (n - 1) as nat);
    }
}

/// Reading back `n` big-endian bytes gives the number they were written from.
pub proof fn lemma_be_roundtrip(v: nat, n: nat)
    requires
        v < pow256(n),
    ensures
        spec_be(be_bytes(v, n)) == v,
        be_bytes(v, n).len() == n,
    decreases n,
{
    lemma_be_bytes_len(v, n);
    if n > 0 {
        let p = pow256((n - 1) as nat);
        assert(v / 256 < p) by (nonlinear_arith)
            requires
                v < 256 * p,
        ;
        lemma_be_roundtrip(v / 256, (n - 1) as nat);
        let b = be_bytes(v, n);
        assert(b.drop_last() =~= be_bytes(v / 256, (n - 1) as nat));
    }
}

// ---------------------------------------------------------------------------
// Data item heads
// ---------------------------------------------------------------------------

/// How many bytes follow the initial byte for additional information `ai`
/// (one of 24, 25, 26, 27).
pub open spec fn arg_width(ai: u8) -> nat {
    if ai == 24 {
        1
    } else if ai == 25 {
        2
    } else if ai == 26 {
        4
    } else {
        8
    }
}

/// The head of the data item at `pos`: major type, additional information,
/// argument, and the position just past the head. `None` where no head with
/// a definite argument starts there.
pub open spec fn spec_head(s: Seq<u8>, pos: int) -> Option<(u8, u8, nat, int)> {
    if 0 <= pos < s.len() {
        let b = s[pos];
        let major = (b / 32) as u8;
        let ai = (b % 32) as u8;
        if ai < 24 {
            Some((major, ai, ai as nat, pos + 1))
        } else if ai < 28 {
            let w = arg_width(ai);
            if pos + 1 + w <= s.len() {
                Some((major, ai, spec_be(s.subrange(pos + 1, pos + 1 + w)), pos + 1 + w))
            } else {
                None
            }
        } else {
            None
        }
    } else {
        None
    }
}

/// The additional information that the shortest head for `arg` carries.
pub open spec fn short_ai(arg: nat) -> u8 {
    if arg < 24 {
        arg as u8
    } else if arg < 0x100 {
        24
    } else if arg < 0x10000 {
        25
    } else if arg < 0x1_0000_0000 {
        26
    } else {
        27
    }
}

/// The shortest head with major type `major` and argument `arg`.
pub open spec fn head_bytes(major: u8, arg: nat) -> Seq<u8> {
    let first = (major * 32 + short_ai(arg)) as u8;
    if arg < 24 {
        seq![first]
    } else {
        seq![first] + be_bytes(arg, arg_width(short_ai(arg)))
    }
}

/// Whether `b` occurs in `s` at `pos`.
pub open spec fn occurs_at(s: Seq<u8>, pos: int, b: Seq<u8>) -> bool {
    &&& 0 <= pos
    &&& pos + b.len() <= s.len()
    &&& s.subrange(pos, pos + b.len()) == b
}

pub proof fn lemma_head_bytes_len(major: u8, arg: nat)
    requires
        arg < 0x1_0000_0000_0000_0000,
    ensures
        head_bytes(major, arg).len() == if arg < 24 {
            1
        } else {
            1 + arg_width(short_ai(arg))
        },
{
    if arg >= 24 {
        lemma_be_bytes_len(arg, arg_width(short_ai(arg)));
    }
}

/// A head written by `head_bytes` reads back as the same major type and argument.
pub proof fn lemma_head_roundtrip(s: Seq<u8>, pos: int, major: u8, arg: nat)
    requires
        major < 8,
        arg < 0x1_0000_0000_0000_0000,
        occurs_at(s, pos, head_bytes(major, arg)),
    ensures
        spec_head(s, pos) == Some((major, short_ai(arg), arg, pos + head_bytes(major, arg).len())),
{
    lemma_head_bytes_len(major, arg);
    let hb = head_bytes(major, arg);
    assert(s[pos] == hb[0]);
    if arg >= 24 {
        let w = arg_width(short_ai(arg));
        lemma_pow256_values();
        lemma_be_roundtrip(arg, w);
        assert(s.subrange(pos + 1, pos + 1 + w) =~= be_bytes(arg, w)) by {
            assert forall|i: int| 0 <= i < w implies s.subrange(pos + 1, pos + 1 + w)[i] == be_bytes(
                arg,
                w,
            )[i] by {
                assert(s.subrange(pos, pos + hb.len())[i + 1] == hb[i + 1]);
            }
        }
    }
}

/// Big-endian bytes at `start..start + w` of `s`.
pub(crate) fn read_be(s: &[u8], start: usize, w: usize) -> (v: u64)
    requires
        w <= 8,
        start + w <= s@.len(),
    ensures
        v as nat == spec_be(s@.subrange(start as int, start + w)),
{
    let mut v: u64 = 0;
    let mut i: usize = 0;
    let len = s.len();
    proof {
        lemma_pow256_values();
    }
    while i < w
        invariant
            w <= 8,
            start + w <= s@.len(),
            len == s@.len(),
            i <= w,
            v as nat == spec_be(s@.subrange(start as int, start + i)),
            pow256(8) == 0x1_0000_0000_0000_0000,
        decreases w - i,
    {
        proof {
            lemma_be_bound(s@.subrange(start as int, start + i));
            lemma_pow_mono(i as nat, 7);
            assert(v * 256 + 255 < 0x1_0000_0000_0000_0000) by (nonlinear_arith)
                requires
                    v < pow256(i as nat),
                    pow256(i as nat) <= pow256(7),
                    256 * pow256(7) == 0x1_0000_0000_0000_0000,
            ;
            assert(s@.subrange(start as int, start + i + 1).drop_last() =~= s@.subrange(
                start as int,
                start + i,
            ));
        }
        v = v * 256 + s[start + i] as u64;
        i = i + 1;
    }
    v
}

pub proof fn lemma_pow_mono(a: nat, b: nat)
    requires
        a <= b,
    ensures
        pow256(a) <= pow256(b),
    decreases b,
{
    if a < b {
        lemma_pow_mono(a, (b - 1) as nat);
        lemma_pow256_pos((b - 1) as nat);
    }
}

/// Reads the head of the data item at `pos`.
pub fn parse_head(s: &[u8], pos: usize) -> (r: Option<(u8, u8, u64, usize)>)
    ensures
        match r {
            Some((m, ai, arg, end)) => spec_head(s@, pos as int) == Some(
                (m, ai, arg as nat, end as int),
            ),
            None => spec_head(s@, pos as int) is None,
        },
{
    if pos >= s.len() {
        return None;
    }
    let b = s[pos];
    let major = b / 32;
    let ai = b % 32;
    if ai < 24 {
        Some((major, ai, ai as u64, pos + 1))
    } else if ai < 28 {
        let w: usize = if ai == 24 {
            1
        } else if ai == 25 {
            2
        } else if ai == 26 {
            4
        } else {
            8
        };
        if w <= s.len() - pos - 1 {
            let v = read_be(s, pos + 1, w);
            Some((major, ai, v, pos + 1 + w))
        } else {
            None
        }
    } else {
        None
    }
}

/// Appends the `n` low-order bytes of `v`, most significant first.
fn push_be(buf: &mut Vec<u8>, v: u64, n: usize)
    requires
        n <= 8,
    ensures
        final(buf)@ == old(buf)@ + be_bytes(v as nat, n as nat),
    decreases n,
{
    if n > 0 {
        push_be(buf, v / 256, n - 1);
        buf.push((v % 256) as u8);
    }
}

/// Appends the shortest head with major type `major` and argument `arg`.
pub fn encode_head(buf: &mut Vec<u8>, major: u8, arg: u64)
    requires
        major < 8,
    ensures
        final(buf)@ == old(buf)@ + head_bytes(major, arg as nat),
{
    let base: u8 = major * 32;
    if arg < 24 {
        buf.push(base + arg as u8);
        assert(final(buf)@ =~= old(buf)@ + head_bytes(major, arg as nat));
    } else if arg < 0x100 {
        buf.push(base + 24);
        push_be(buf, arg, 1);
    } else if arg < 0x10000 {
        buf.push(base + 25);
        push_be(buf, arg, 2);
    } else if arg < 0x1_0000_0000 {
        buf.push(base + 26);
        push_be(buf, arg, 4);
    } else {
        buf.push(base + 27);
        push_be(buf, arg, 8);
    }
    assert(buf@ =~= old(buf)@ + head_bytes(major, arg as nat));
}


// ---------------------------------------------------------------------------
// Well-formed data items
// ---------------------------------------------------------------------------

/// Whether the major-type-7 additional information `ai` is accepted:
/// false, true, null, undefined, and half, single and double floats.
pub open spec fn simple_ok(ai: u8) -> bool {
    (20 <= ai <= 23) || (25 <= ai <= 27)
}

/// The position just past the well-formed data item that starts at `pos`,
/// where the item may open at most `depth` nested containers (arrays, maps,
/// tags). Text strings must be valid UTF-8; lengths must be definite.
pub open spec fn item_end(s: Seq<u8>, pos: int, depth: nat) -> Option<int>
    decreases s.len() - pos, 0int,
{
    match spec_head(s, pos) {
        None => None,
        Some((major, ai, arg, h)) => if !(pos < h <= s.len()) {
            None
        } else if major <= 1 {
            Some(h)
        } else if major == 2 {
            if h + arg <= s.len() {
                Some(h + arg)
            } else {
                None
            }
        } else if major == 3 {
            if h + arg <= s.len() && valid_utf8(s.subrange(h, h + arg)) {
                Some(h + arg)
            } else {
                None
            }
        } else if major == 4 || major == 5 {
            if depth == 0 {
                None
            } else {
                items_end(s, h, if major == 4 { arg } else { 2 * arg }, (depth - 1) as nat)
            }
        } else if major == 6 {
            if depth == 0 {
                None
            } else {
                item_end(s, h, (depth - 1) as nat)
            }
        } else if simple_ok(ai) {
            Some(h)
        } else {
            None
        },
    }
}

/// The position just past `count` consecutive well-formed data items that
/// start at `pos`.
pub open spec fn items_end(s: Seq<u8>, pos: int, count: nat, depth: nat) -> Option<int>
    decreases s.len() - pos, 1int,
{
    if count == 0 {
        Some(pos)
    } else if !(0 <= pos <= s.len()) {
        None
    } else {
        match item_end(s, pos, depth) {
            None => None,
            Some(e) => if pos < e <= s.len() {
                items_end(s, e, (count - 1) as nat, depth)
            } else {
                None
            },
        }
    }
}

pub proof fn lemma_item_end_range(s: Seq<u8>, pos: int, depth: nat)
    ensures
        item_end(s, pos, depth) matches Some(e) ==> pos < e <= s.len(),
    decreases s.len() - pos, 0int,
{
    if let Some((major, ai, arg, h)) = spec_head(s, pos) {
        if pos < h <= s.len() && depth > 0 {
            if major == 4 || major == 5 {
                lemma_item_end_range_head(s, pos);
                lemma_items_end_range(
                    s,
                    h,
                    if major == 4 { arg } else { 2 * arg },
                    (depth - 1) as nat,
                );
            } else if major == 6 {
                lemma_item_end_range(s, h, (depth - 1) as nat);
            }
        }
    }
}

pub proof fn lemma_item_end_range_head(s: Seq<u8>, pos: int)
    ensures
        spec_head(s, pos) matches Some((m, ai, arg, h)) ==> pos < h <= s.len(),
{
}

pub proof fn lemma_items_end_range(s: Seq<u8>, pos: int, count: nat, depth: nat)
    requires
        0 <= pos <= s.len(),
    ensures
        items_end(s, pos, count, depth) matches Some(e) ==> pos <= e <= s.len() && (count > 0
            ==> pos < e),
    decreases s.len() - pos, 1int,
{
    if count > 0 {
        lemma_item_end_range(s, pos, depth);
        if let Some(e) = item_end(s, pos, depth) {
            if pos < e <= s.len() {
                lemma_items_end_range(s, e, (count - 1) as nat, depth);
            }
        }
    }
}

/// `std::str::from_utf8`: succeeds exactly on valid UTF-8, and then the text
/// is the decoding of the bytes.
#[verifier::external_body]
pub fn utf8_text(b: &[u8]) -> (r: Option<String>)
    ensures
        r is Some <==> valid_utf8(b@),
        r matches Some(t) ==> t@ == decode_utf8(b@),
{
    match std::str::from_utf8(b) {
        Ok(t) => Some(t.to_string()),
        Err(_) => None,
    }
}

/// Walks the data item at `pos` and returns the position just past it.
pub fn skip_item(s: &[u8], pos: usize, depth: u32) -> (r: Option<usize>)
    ensures
        match r {
            Some(e) => item_end(s@, pos as int, depth as nat) == Some(e as int),
            None => item_end(s@, pos as int, depth as nat) is None,
        },
    decreases s@.len() - pos,
{
    let len = s.len();
    let (major, ai, arg, h) = match parse_head(s, pos) {
        Some(x) => x,
        None => return None,
    };
    if major <= 1 {
        Some(h)
    } else if major == 2 || major == 3 {
        if arg > (len - h) as u64 {
            return None;
        }
        let e = h + arg as usize;
        if major == 3 {
            match utf8_text(&s[h..e]) {
                Some(_) => {},
                None => return None,
            }
        }
        Some(e)
    } else if major == 4 || major == 5 {
        if depth == 0 {
            return None;
        }
        let d = depth - 1;
        let ghost total: nat = if major == 4 { arg as nat } else { 2 * arg as nat };
        let mut p = h;
        let mut i: u64 = 0;
        while i < arg
            invariant
                len == s@.len(),
                pos < h <= p <= len,
                i <= arg,
                major == 4 || major == 5,
                depth > 0,
                d == depth - 1,
                item_end(s@, pos as int, depth as nat) == items_end(s@, h as int, total, d as nat),
                total == if major == 4 { arg as nat } else { 2 * arg as nat },
                items_end(s@, h as int, total, d as nat) == items_end(
                    s@,
                    p as int,
                    (total - (if major == 4 { i as nat } else { 2 * i as nat })) as nat,
                    d as nat,
                ),
            decreases arg - i,
        {
            let ghost rem: nat = (total - (if major == 4 { i as nat } else { 2 * i as nat })) as nat;
            match skip_item(s, p, d) {
                Some(e) => {
                    proof {
                        lemma_item_end_range(s@, p as int, d as nat);
                        assert(items_end(s@, p as int, rem, d as nat) == items_end(
                            s@,
                            e as int,
                            (rem - 1) as nat,
                            d as nat,
                        ));
                    }
                    p = e;
                },
                None => return None,
            }
            if major == 5 {
                match skip_item(s, p, d) {
                    Some(e) => {
                        proof {
                            lemma_item_end_range(s@, p as int, d as nat);
                            assert(items_end(s@, p as int, (rem - 1) as nat, d as nat) == items_end(
                                s@,
                                e as int,
                                (rem - 2) as nat,
                                d as nat,
                            ));
                        }
                        p = e;
                    },
                    None => {
                        return None;
                    },
                }
            }
            i = i + 1;
        }
        Some(p)
    } else if major == 6 {
        if depth == 0 {
            return None;
        }
        skip_item(s, h, depth - 1)
    } else if (20 <= ai && ai <= 23) || (25 <= ai && ai <= 27) {
        Some(h)
    } else {
        None
    }
}


// ---------------------------------------------------------------------------
// Scalar values
// ---------------------------------------------------------------------------

/// Canonical encoding of an integer (major type 0 or 1, shortest head).
pub open spec fn int_bytes(v: int) -> Seq<u8> {
    if v >= 0 {
        head_bytes(0, v as nat)
    } else {
        head_bytes(1, (-1 - v) as nat)
    }
}

/// Encoding of a text string: a major type 3 head with the UTF-8 length,
/// then the UTF-8 bytes.
pub open spec fn text_bytes(t: Seq<char>) -> Seq<u8> {
    head_bytes(3, encode_utf8(t).len()) + encode_utf8(t)
}

/// Encoding of null (simple value 22).
pub open spec fn null_bytes() -> Seq<u8> {
    seq![0xf6u8]
}

/// The integer at `pos` and the position past it.
pub open spec fn int_at(s: Seq<u8>, pos: int) -> Option<(int, int)> {
    match spec_head(s, pos) {
        Some((major, ai, arg, h)) => if major == 0 {
            Some((arg as int, h))
        } else if major == 1 {
            Some((-1 - arg, h))
        } else {
            None
        },
        None => None,
    }
}

/// The text string at `pos` and the position past it.
pub open spec fn text_at(s: Seq<u8>, pos: int) -> Option<(Seq<char>, int)> {
    match spec_head(s, pos) {
        Some((major, ai, arg, h)) => if major == 3 && h + arg <= s.len() && valid_utf8(
            s.subrange(h, h + arg),
        ) {
            Some((decode_utf8(s.subrange(h, h + arg)), h + arg))
        } else {
            None
        },
        None => None,
    }
}

/// Whether the item at `pos` is null or undefined.
pub open spec fn null_at(s: Seq<u8>, pos: int) -> bool {
    0 <= pos < s.len() && (s[pos] == 0xf6 || s[pos] == 0xf7)
}

pub proof fn lemma_occurs_split(s: Seq<u8>, pos: int, a: Seq<u8>, b: Seq<u8>)
    requires
        occurs_at(s, pos, a + b),
    ensures
        occurs_at(s, pos, a),
        occurs_at(s, pos + a.len(), b),
{
    assert(s.subrange(pos, pos + a.len()) =~= a) by {
        assert(s.subrange(pos, pos + (a + b).len()) == a + b);
        assert forall|i: int| 0 <= i < a.len() implies s.subrange(pos, pos + a.len())[i] == (a
            + b)[i] by {
            assert(s.subrange(pos, pos + (a + b).len())[i] == (a + b)[i]);
        }
    }
    assert(s.subrange(pos + a.len(), pos + a.len() + b.len()) =~= b) by {
        assert forall|i: int| 0 <= i < b.len() implies s.subrange(
            pos + a.len(),
            pos + a.len() + b.len(),
        )[i] == b[i] by {
            assert(s.subrange(pos, pos + (a + b).len())[a.len() + i] == (a + b)[a.len() + i]);
        }
    }
}

pub proof fn lemma_int_item(s: Seq<u8>, pos: int, v: int, depth: nat)
    requires
        -0x1_0000_0000_0000_0000 <= v < 0x1_0000_0000_0000_0000,
        occurs_at(s, pos, int_bytes(v)),
    ensures
        item_end(s, pos, depth) == Some(pos + int_bytes(v).len()),
        int_at(s, pos) == Some((v, pos + int_bytes(v).len())),
{
    if v >= 0 {
        lemma_head_roundtrip(s, pos, 0, v as nat);
    } else {
        lemma_head_roundtrip(s, pos, 1, (-1 - v) as nat);
    }
}

pub proof fn lemma_text_item(s: Seq<u8>, pos: int, t: Seq<char>, depth: nat)
    requires
        encode_utf8(t).len() < 0x1_0000_0000_0000_0000,
        occurs_at(s, pos, text_bytes(t)),
    ensures
        item_end(s, pos, depth) == Some(pos + text_bytes(t).len()),
        text_at(s, pos) == Some((t, pos + text_bytes(t).len())),
{
    let u = encode_utf8(t);
    let hb = head_bytes(3, u.len());
    lemma_occurs_split(s, pos, hb, u);
    lemma_head_roundtrip(s, pos, 3, u.len());
    vstd::utf8::encode_utf8_valid_utf8(t);
    vstd::utf8::encode_utf8_decode_utf8(t);
    assert(s.subrange(pos + hb.len(), pos + hb.len() + u.len()) == u);
}

pub proof fn lemma_null_item(s: Seq<u8>, pos: int, depth: nat)
    requires
        occurs_at(s, pos, null_bytes()),
    ensures
        item_end(s, pos, depth) == Some(pos + 1),
        null_at(s, pos),
{
    assert(s[pos] == s.subrange(pos, pos + 1)[0]);
}

/// Appends the bytes of `b`.
pub fn push_bytes(buf: &mut Vec<u8>, b: &[u8])
    ensures
        final(buf)@ == old(buf)@ + b@,
{
    let mut i: usize = 0;
    let n = b.len();
    while i < n
        invariant
            n == b@.len(),
            i <= n,
            buf@ == old(buf)@ + b@.subrange(0, i as int),
        decreases n - i,
    {
        buf.push(b[i]);
        i = i + 1;
        assert(buf@ =~= old(buf)@ + b@.subrange(0, i as int));
    }
    assert(b@.subrange(0, n as int) =~= b@);
}

/// Appends the canonical encoding of `v`.
pub fn encode_int(buf: &mut Vec<u8>, v: i64)
    ensures
        final(buf)@ == old(buf)@ + int_bytes(v as int),
{
    if v >= 0 {
        encode_head(buf, 0, v as u64);
    } else {
        let a: i64 = -1 - v;
        encode_head(buf, 1, a as u64);
    }
}

/// Appends the encoding of the text `t`.
pub fn encode_text(buf: &mut Vec<u8>, t: &str)
    ensures
        final(buf)@ == old(buf)@ + text_bytes(t@),
        encode_utf8(t@).len() <= usize::MAX,
{
    let b = t.as_bytes();
    encode_head(buf, 3, b.len() as u64);
    push_bytes(buf, b);
    assert(buf@ =~= old(buf)@ + text_bytes(t@));
}

/// Appends the encoding of null.
pub fn encode_null(buf: &mut Vec<u8>)
    ensures
        final(buf)@ == old(buf)@ + null_bytes(),
{
    buf.push(0xf6);
    assert(buf@ =~= old(buf)@ + null_bytes());
}

/// Reads the integer at `pos`: whether it is negative, its argument, and the
/// position past it. A negative integer has the value `-1 - argument`.
pub fn parse_int(s: &[u8], pos: usize) -> (r: Option<(bool, u64, usize)>)
    ensures
        match r {
            Some((neg, arg, end)) => int_at(s@, pos as int) == Some(
                (if neg { -1 - arg } else { arg as int }, end as int),
            ),
            None => int_at(s@, pos as int) is None,
        },
{
    match parse_head(s, pos) {
        Some((major, _ai, arg, h)) => {
            if major == 0 {
                Some((false, arg, h))
            } else if major == 1 {
                Some((true, arg, h))
            } else {
                None
            }
        },
        None => None,
    }
}

/// Reads the text string at `pos` and the position past it.
pub fn parse_text(s: &[u8], pos: usize) -> (r: Option<(String, usize)>)
    ensures
        match r {
            Some((t, end)) => text_at(s@, pos as int) == Some((t@, end as int)),
            None => text_at(s@, pos as int) is None,
        },
{
    let len = s.len();
    match parse_head(s, pos) {
        Some((major, _ai, arg, h)) => {
            if major != 3 || arg > (len - h) as u64 {
                return None;
            }
            let e = h + arg as usize;
            match utf8_text(&s[h..e]) {
                Some(t) => Some((t, e)),
                None => None,
            }
        },
        None => None,
    }
}

/// Whether the item at `pos` is null or undefined.
pub fn parse_null(s: &[u8], pos: usize) -> (r: bool)
    ensures
        r == null_at(s@, pos as int),
{
    pos < s.len() && (s[pos] == 0xf6 || s[pos] == 0xf7)
}


// ---------------------------------------------------------------------------
// Arrays and maps
// ---------------------------------------------------------------------------

/// The items of `items`, one after another.
pub open spec fn concat_all(items: Seq<Seq<u8>>) -> Seq<u8>
    decreases items.len(),
{
    if items.len() == 0 {
        seq![]
    } else {
        items[0] + concat_all(items.drop_first())
    }
}

/// Map entries with unsigned integer keys: each key's canonical encoding
/// followed by the encoded value.
pub open spec fn entries_bytes(entries: Seq<(nat, Seq<u8>)>) -> Seq<u8>
    decreases entries.len(),
{
    if entries.len() == 0 {
        seq![]
    } else {
        int_bytes(entries[0].0 as int) + entries[0].1 + entries_bytes(entries.drop_first())
    }
}

/// A definite-length map with the given entries.
pub open spec fn map_bytes(entries: Seq<(nat, Seq<u8>)>) -> Seq<u8> {
    head_bytes(5, entries.len()) + entries_bytes(entries)
}

/// A definite-length array with the given items.
pub open spec fn array_bytes(items: Seq<Seq<u8>>) -> Seq<u8> {
    head_bytes(4, items.len()) + concat_all(items)
}

/// `b` is one well-formed data item wherever it occurs in `s`.
pub open spec fn item_everywhere(s: Seq<u8>, b: Seq<u8>, depth: nat) -> bool {
    &&& b.len() > 0
    &&& forall|q: int| #[trigger]
        occurs_at(s, q, b) ==> item_end(s, q, depth) == Some(q + b.len())
}

pub proof fn lemma_text_everywhere(s: Seq<u8>, t: Seq<char>, depth: nat)
    requires
        encode_utf8(t).len() < 0x1_0000_0000_0000_0000,
    ensures
        item_everywhere(s, text_bytes(t), depth),
{
    lemma_head_bytes_len(3, encode_utf8(t).len());
    assert forall|q: int| #[trigger] occurs_at(s, q, text_bytes(t)) implies item_end(s, q, depth)
        == Some(q + text_bytes(t).len()) by {
        lemma_text_item(s, q, t, depth);
    }
}

pub proof fn lemma_int_everywhere(s: Seq<u8>, v: int, depth: nat)
    requires
        -0x1_0000_0000_0000_0000 <= v < 0x1_0000_0000_0000_0000,
    ensures
        item_everywhere(s, int_bytes(v), depth),
{
    if v >= 0 {
        lemma_head_bytes_len(0, v as nat);
    } else {
        lemma_head_bytes_len(1, (-1 - v) as nat);
    }
    assert forall|q: int| #[trigger] occurs_at(s, q, int_bytes(v)) implies item_end(s, q, depth)
        == Some(q + int_bytes(v).len()) by {
        lemma_int_item(s, q, v, depth);
    }
}

pub proof fn lemma_null_everywhere(s: Seq<u8>, depth: nat)
    ensures
        item_everywhere(s, null_bytes(), depth),
{
    assert forall|q: int| #[trigger] occurs_at(s, q, null_bytes()) implies item_end(s, q, depth)
        == Some(q + 1) by {
        lemma_null_item(s, q, depth);
    }
}

/// Consecutive well-formed items are walked one by one.
pub proof fn lemma_items_concat(s: Seq<u8>, pos: int, items: Seq<Seq<u8>>, depth: nat)
    requires
        occurs_at(s, pos, concat_all(items)),
        forall|i: int| 0 <= i < items.len() ==> item_everywhere(s, #[trigger] items[i], depth),
    ensures
        items_end(s, pos, items.len(), depth) == Some(pos + concat_all(items).len()),
    decreases items.len(),
{
    if items.len() > 0 {
        let first = items[0];
        let rest = items.drop_first();
        lemma_occurs_split(s, pos, first, concat_all(rest));
        assert(item_everywhere(s, items[0], depth));
        assert(item_end(s, pos, depth) == Some(pos + first.len()));
        assert forall|i: int| 0 <= i < rest.len() implies item_everywhere(
            s,
            #[trigger] rest[i],
            depth,
        ) by {
            assert(rest[i] == items[i + 1]);
        }
        lemma_items_concat(s, pos + first.len(), rest, depth);
    }
}

/// Map entries are walked key by value.
pub proof fn lemma_entries_items(
    s: Seq<u8>,
    pos: int,
    entries: Seq<(nat, Seq<u8>)>,
    depth: nat,
)
    requires
        occurs_at(s, pos, entries_bytes(entries)),
        forall|i: int|
            0 <= i < entries.len() ==> (#[trigger] entries[i]).0 < 0x1_0000_0000_0000_0000
                && item_everywhere(s, entries[i].1, depth),
    ensures
        items_end(s, pos, 2 * entries.len(), depth) == Some(pos + entries_bytes(entries).len()),
    decreases entries.len(),
{
    if entries.len() > 0 {
        let k = entries[0].0;
        let v = entries[0].1;
        let rest = entries.drop_first();
        assert(entries_bytes(entries) == int_bytes(k as int) + v + entries_bytes(rest));
        assert(int_bytes(k as int) + v + entries_bytes(rest) == int_bytes(k as int) + (v
            + entries_bytes(rest)));
        lemma_occurs_split(s, pos, int_bytes(k as int), v + entries_bytes(rest));
        let p1 = pos + int_bytes(k as int).len();
        lemma_occurs_split(s, p1, v, entries_bytes(rest));
        lemma_int_everywhere(s, k as int, depth);
        assert(item_everywhere(s, entries[0].1, depth));
        let p2 = p1 + v.len();
        assert(item_end(s, pos, depth) == Some(p1));
        assert(item_end(s, p1, depth) == Some(p2));
        assert forall|i: int| 0 <= i < rest.len() implies (#[trigger] rest[i]).0
            < 0x1_0000_0000_0000_0000 && item_everywhere(s, rest[i].1, depth) by {
            assert(rest[i] == entries[i + 1]);
        }
        lemma_entries_items(s, p2, rest, depth);
        assert(items_end(s, p1, (2 * entries.len() - 1) as nat, depth) == items_end(
            s,
            p2,
            (2 * entries.len() - 2) as nat,
            depth,
        ));
    }
}

/// A map of well-formed entries is a well-formed item one level up.
pub proof fn lemma_map_item(s: Seq<u8>, pos: int, entries: Seq<(nat, Seq<u8>)>, depth: nat)
    requires
        entries.len() < 0x1_0000_0000_0000_0000,
        occurs_at(s, pos, map_bytes(entries)),
        forall|i: int|
            0 <= i < entries.len() ==> (#[trigger] entries[i]).0 < 0x1_0000_0000_0000_0000
                && item_everywhere(s, entries[i].1, depth),
    ensures
        item_end(s, pos, depth + 1) == Some(pos + map_bytes(entries).len()),
{
    let hb = head_bytes(5, entries.len());
    lemma_occurs_split(s, pos, hb, entries_bytes(entries));
    lemma_head_roundtrip(s, pos, 5, entries.len());
    lemma_entries_items(s, pos + hb.len(), entries, depth);
}

/// An array of well-formed items is a well-formed item one level up.
pub proof fn lemma_array_item(s: Seq<u8>, pos: int, items: Seq<Seq<u8>>, depth: nat)
    requires
        items.len() < 0x1_0000_0000_0000_0000,
        occurs_at(s, pos, array_bytes(items)),
        forall|i: int| 0 <= i < items.len() ==> item_everywhere(s, #[trigger] items[i], depth),
    ensures
        item_end(s, pos, depth + 1) == Some(pos + array_bytes(items).len()),
{
    let hb = head_bytes(4, items.len());
    lemma_occurs_split(s, pos, hb, concat_all(items));
    lemma_head_roundtrip(s, pos, 4, items.len());
    lemma_items_concat(s, pos + hb.len(), items, depth);
}


// ---------------------------------------------------------------------------
// Struct fields from an integer-keyed map
// ---------------------------------------------------------------------------

/// How a map key names a struct field: by index (an unsigned integer), or by
/// name (a text or byte string holding the field name's UTF-8). Other
/// unsigned integers and names are unknown fields, which are skipped; keys
/// of any other type are refused.
#[derive(Debug, Clone, Copy, PartialEq, Eq)]
pub enum FieldKey {
    Field(usize),
    Ignored,
    Invalid,
}

/// The views of a list of field names.
pub open spec fn name_views(names: Seq<&str>) -> Seq<Seq<char>> {
    names.map_values(|n: &str| n@)
}

/// The first index at or after `j` whose name has UTF-8 bytes `key`.
pub open spec fn name_index(names: Seq<Seq<char>>, key: Seq<u8>, j: int) -> Option<int>
    decreases names.len() - j,
{
    if j < 0 || j >= names.len() {
        None
    } else if encode_utf8(names[j]) == key {
        Some(j)
    } else {
        name_index(names, key, j + 1)
    }
}

pub proof fn lemma_name_index_range(names: Seq<Seq<char>>, key: Seq<u8>, j: int)
    ensures
        name_index(names, key, j) matches Some(i) ==> 0 <= i < names.len(),
    decreases names.len() - j,
{
    if 0 <= j < names.len() && encode_utf8(names[j]) != key {
        lemma_name_index_range(names, key, j + 1);
    }
}

/// Which field of `names` the key at `pos` names.
pub open spec fn field_key(s: Seq<u8>, pos: int, names: Seq<Seq<char>>) -> FieldKey {
    match spec_head(s, pos) {
        Some((major, ai, arg, h)) => if major == 0 {
            if arg < names.len() {
                FieldKey::Field(arg as usize)
            } else {
                FieldKey::Ignored
            }
        } else if (major == 2 || major == 3) && h + arg <= s.len() {
            match name_index(names, s.subrange(h, h + arg), 0) {
                Some(j) => FieldKey::Field(j as usize),
                None => FieldKey::Ignored,
            }
        } else {
            FieldKey::Invalid
        },
        None => FieldKey::Invalid,
    }
}

/// The message for a data item that is not well formed.
pub open spec fn malformed_msg() -> Seq<char> {
    "malformed CBOR data item"@
}

/// The message for a field named twice.
pub open spec fn duplicate_msg(name: Seq<char>) -> Seq<char> {
    "duplicate field `"@ + name + "`"@
}

/// Reads `n` map entries from `pos`, recording in `acc` where the value of
/// each named field lies. Returns the spans and the position past the
/// entries, or the message of the first error.
pub open spec fn fields_from(
    s: Seq<u8>,
    pos: int,
    n: nat,
    names: Seq<Seq<char>>,
    acc: Seq<Option<(int, int)>>,
    depth: nat,
) -> Result<(Seq<Option<(int, int)>>, int), Seq<char>>
    decreases n,
{
    if n == 0 {
        Ok((acc, pos))
    } else {
        match item_end(s, pos, depth) {
            None => Err(malformed_msg()),
            Some(ke) => match item_end(s, ke, depth) {
                None => Err(malformed_msg()),
                Some(ve) => match field_key(s, pos, names) {
                    FieldKey::Invalid => Err("invalid field key"@),
                    FieldKey::Ignored => fields_from(s, ve, (n - 1) as nat, names, acc, depth),
                    FieldKey::Field(i) => if 0 <= i < acc.len() && acc[i as int] is None {
                        fields_from(
                            s,
                            ve,
                            (n - 1) as nat,
                            names,
                            acc.update(i as int, Some((ke, ve))),
                            depth,
                        )
                    } else {
                        Err(duplicate_msg(names[i as int]))
                    },
                },
            },
        }
    }
}

/// No field seen yet.
pub open spec fn no_fields(k: nat) -> Seq<Option<(int, int)>> {
    Seq::new(k, |i: int| None)
}

/// The spans of a field table, as positions.
pub open spec fn spans_view(v: Seq<Option<(usize, usize)>>) -> Seq<Option<(int, int)>> {
    v.map_values(
        |o: Option<(usize, usize)>|
            match o {
                Some((a, b)) => Some((a as int, b as int)),
                None => None,
            },
    )
}

/// Whether two byte strings are equal.
pub fn bytes_eq(a: &[u8], b: &[u8]) -> (r: bool)
    ensures
        r == (a@ == b@),
{
    if a.len() != b.len() {
        return false;
    }
    let n = a.len();
    let mut i: usize = 0;
    while i < n
        invariant
            n == a@.len(),
            n == b@.len(),
            i <= n,
            forall|j: int| 0 <= j < i ==> a@[j] == b@[j],
        decreases n - i,
    {
        if a[i] != b[i] {
            return false;
        }
        i = i + 1;
    }
    assert(a@ =~= b@);
    true
}

/// `prefix`, then `name`, then `suffix`.
pub fn join3(prefix: &str, name: &str, suffix: &str) -> (r: String)
    ensures
        r@ == prefix@ + name@ + suffix@,
{
    let mut r = String::from_str(prefix);
    r.append(name);
    r.append(suffix);
    r
}

/// Which field of `names` the key at `pos` names.
pub fn classify_key(s: &[u8], pos: usize, names: &[&str]) -> (r: FieldKey)
    ensures
        r == field_key(s@, pos as int, name_views(names@)),
        r matches FieldKey::Field(j) ==> j < names@.len(),
{
    let ghost nv = name_views(names@);
    let len = s.len();
    match parse_head(s, pos) {
        Some((major, ai, arg, h)) => {
            if major == 0 {
                if arg < names.len() as u64 {
                    FieldKey::Field(arg as usize)
                } else {
                    FieldKey::Ignored
                }
            } else if (major == 2 || major == 3) && arg <= (len - h) as u64 {
                let key = &s[h..h + arg as usize];
                let ghost hd = spec_head(s@, pos as int);
                let mut j: usize = 0;
                while j < names.len()
                    invariant
                        j <= names@.len(),
                        nv == name_views(names@),
                        hd == spec_head(s@, pos as int),
                        hd == Some((major, ai, arg as nat, h as int)),
                        major == 2 || major == 3,
                        h + arg <= s@.len(),
                        key@ == s@.subrange(h as int, h + arg),
                        name_index(nv, key@, 0) == name_index(nv, key@, j as int),
                    decreases names@.len() - j,
                {
                    assert(nv[j as int] == names@[j as int]@);
                    if bytes_eq(names[j].as_bytes(), key) {
                        proof {
                            assert(nv[j as int] == names@[j as int]@);
                            assert(encode_utf8(nv[j as int]) == key@);
                            assert(name_index(nv, key@, j as int) == Some(j as int));
                            lemma_name_index_range(nv, key@, 0);
                        }
                        return FieldKey::Field(j);
                    }
                    j = j + 1;
                }
                proof {
                    lemma_name_index_range(nv, key@, 0);
                }
                FieldKey::Ignored
            } else {
                FieldKey::Invalid
            }
        },
        None => FieldKey::Invalid,
    }
}

/// Reads `n` map entries from `pos` into a table of value spans, one slot
/// per name of `names`.
pub fn collect_fields(s: &[u8], pos: usize, n: u64, names: &[&str], depth: u32) -> (r: Result<
    (Vec<Option<(usize, usize)>>, usize),
    String,
>)
    ensures
        match r {
            Ok((acc, e)) => fields_from(
                s@,
                pos as int,
                n as nat,
                name_views(names@),
                no_fields(names@.len()),
                depth as nat,
            ) == Ok::<_, Seq<char>>((spans_view(acc@), e as int)),
            Err(m) => fields_from(
                s@,
                pos as int,
                n as nat,
                name_views(names@),
                no_fields(names@.len()),
                depth as nat,
            ) == Err::<(Seq<Option<(int, int)>>, int), _>(m@),
        },
{
    let ghost nv = name_views(names@);
    let mut acc: Vec<Option<(usize, usize)>> = Vec::new();
    let k = names.len();
    while acc.len() < k
        invariant
            k == names@.len(),
            acc@.len() <= k,
            forall|j: int| 0 <= j < acc@.len() ==> acc@[j] is None,
        decreases k - acc@.len(),
    {
        acc.push(None);
    }
    assert(spans_view(acc@) =~= no_fields(names@.len()));
    let mut p = pos;
    let mut i: u64 = 0;
    while i < n
        invariant
            nv == name_views(names@),
            k == names@.len(),
            acc@.len() == k,
            i <= n,
            fields_from(s@, pos as int, n as nat, nv, no_fields(names@.len()), depth as nat)
                == fields_from(s@, p as int, (n - i) as nat, nv, spans_view(acc@), depth as nat),
        decreases n - i,
    {
        let ke = match skip_item(s, p, depth) {
            Some(e) => e,
            None => return Err(String::from_str("malformed CBOR data item")),
        };
        let ve = match skip_item(s, ke, depth) {
            Some(e) => e,
            None => return Err(String::from_str("malformed CBOR data item")),
        };
        match classify_key(s, p, names) {
            FieldKey::Invalid => {
                return Err(String::from_str("invalid field key"));
            },
            FieldKey::Ignored => {},
            FieldKey::Field(f) => {
                if f < k && acc[f].is_none() {
                    proof {
                        assert(spans_view(acc@).update(f as int, Some((ke as int, ve as int)))
                            =~= spans_view(acc@.update(f as int, Some((ke, ve)))));
                    }
                    acc.set(f, Some((ke, ve)));
                } else {
                    assert(nv[f as int] == names@[f as int]@);
                    return Err(join3("duplicate field `", names[f], "`"));
                }
            },
        }
        p = ve;
        i = i + 1;
    }
    Ok((acc, p))
}


/// Keys of `entries` in strictly increasing order, each naming a field.
pub open spec fn keys_ok(entries: Seq<(nat, Seq<u8>)>, k: nat) -> bool {
    &&& forall|i: int| 0 <= i < entries.len() ==> (#[trigger] entries[i]).0 < k
    &&& forall|i: int, j: int|
        0 <= i < j < entries.len() ==> (#[trigger] entries[i]).0 < (#[trigger] entries[j]).0
}

/// Reading an encoded map's entries records, for each key, where its value
/// lies, and leaves the other slots as they were.
pub proof fn lemma_fields_encoded(
    s: Seq<u8>,
    pos: int,
    entries: Seq<(nat, Seq<u8>)>,
    names: Seq<Seq<char>>,
    acc: Seq<Option<(int, int)>>,
    depth: nat,
)
    requires
        occurs_at(s, pos, entries_bytes(entries)),
        acc.len() == names.len(),
        names.len() <= usize::MAX,
        keys_ok(entries, names.len()),
        forall|i: int| 0 <= i < entries.len() ==> item_everywhere(s, (#[trigger] entries[i]).1, depth),
        forall|i: int| 0 <= i < entries.len() ==> acc[(#[trigger] entries[i]).0 as int] is None,
    ensures
        fields_from(s, pos, entries.len(), names, acc, depth) matches Ok((res, e)) && {
            &&& e == pos + entries_bytes(entries).len()
            &&& res.len() == acc.len()
            &&& forall|i: int|
                0 <= i < entries.len() ==> (res[(#[trigger] entries[i]).0 as int] matches Some((a, b))
                    && occurs_at(s, a, entries[i].1) && b == a + entries[i].1.len())
            &&& forall|k: int|
                0 <= k < acc.len() && (forall|i: int|
                    0 <= i < entries.len() ==> (#[trigger] entries[i]).0 != k) ==> res[k] == acc[k]
        },
    decreases entries.len(),
{
    if entries.len() > 0 {
        let k = entries[0].0;
        let v = entries[0].1;
        let rest = entries.drop_first();
        assert(int_bytes(k as int) + v + entries_bytes(rest) == int_bytes(k as int) + (v
            + entries_bytes(rest)));
        lemma_occurs_split(s, pos, int_bytes(k as int), v + entries_bytes(rest));
        let p1 = pos + int_bytes(k as int).len();
        lemma_occurs_split(s, p1, v, entries_bytes(rest));
        let p2 = p1 + v.len();
        lemma_int_item(s, pos, k as int, depth);
        lemma_head_roundtrip(s, pos, 0, k);
        assert(item_everywhere(s, entries[0].1, depth));
        assert(item_end(s, p1, depth) == Some(p2));
        assert(field_key(s, pos, names) == FieldKey::Field(k as usize));
        let acc2 = acc.update(k as int, Some((p1, p2)));
        assert forall|i: int| 0 <= i < rest.len() implies item_everywhere(
            s,
            (#[trigger] rest[i]).1,
            depth,
        ) && acc2[rest[i].0 as int] is None by {
            assert(rest[i] == entries[i + 1]);
            assert(entries[0].0 < entries[i + 1].0);
        }
        assert(keys_ok(rest, names.len())) by {
            assert forall|i: int| 0 <= i < rest.len() implies (#[trigger] rest[i]).0
                < names.len() by {
                assert(rest[i] == entries[i + 1]);
            }
            assert forall|i: int, j: int| 0 <= i < j < rest.len() implies (
            #[trigger] rest[i]).0 < (#[trigger] rest[j]).0 by {
                assert(rest[i] == entries[i + 1]);
                assert(rest[j] == entries[j + 1]);
            }
        }
        lemma_fields_encoded(s, p2, rest, names, acc2, depth);
        let (res, e) = fields_from(s, p2, rest.len(), names, acc2, depth)->Ok_0;
        assert(fields_from(s, pos, entries.len(), names, acc, depth) == fields_from(
            s,
            p2,
            rest.len(),
            names,
            acc2,
            depth,
        ));
        assert forall|i: int| 0 <= i < entries.len() implies (res[(
        #[trigger] entries[i]).0 as int] matches Some((a, b)) && occurs_at(s, a, entries[i].1) && b
            == a + entries[i].1.len()) by {
            if i > 0 {
                assert(rest[i - 1] == entries[i]);
            } else {
                assert forall|j: int| 0 <= j < rest.len() implies (#[trigger] rest[j]).0 != k by {
                    assert(rest[j] == entries[j + 1]);
                }
            }
        }
        assert forall|kk: int|
            0 <= kk < acc.len() && (forall|i: int|
                0 <= i < entries.len() ==> (#[trigger] entries[i]).0 != kk) implies res[kk]
            == acc[kk] by {
            assert(entries[0].0 != kk);
            assert forall|j: int| 0 <= j < rest.len() implies (#[trigger] rest[j]).0 != kk by {
                assert(rest[j] == entries[j + 1]);
            }
        }
    }
}


// ---------------------------------------------------------------------------
// Typed field values
// ---------------------------------------------------------------------------

/// The message for a required field that is absent.
pub open spec fn missing_msg(name: Seq<char>) -> Seq<char> {
    "missing field `"@ + name + "`"@
}

/// The message for a field whose value has the wrong type or range.
pub open spec fn type_msg(name: Seq<char>) -> Seq<char> {
    "invalid type for field `"@ + name + "`"@
}

/// A required text field.
pub open spec fn field_text(s: Seq<u8>, span: Option<(int, int)>, name: Seq<char>) -> Result<
    Seq<char>,
    Seq<char>,
> {
    match span {
        None => Err(missing_msg(name)),
        Some((a, b)) => match text_at(s, a) {
            Some((t, e)) => Ok(t),
            None => Err(type_msg(name)),
        },
    }
}

/// An optional text field: absent, null and undefined read as `None`.
pub open spec fn field_opt_text(s: Seq<u8>, span: Option<(int, int)>, name: Seq<char>) -> Result<
    Option<Seq<char>>,
    Seq<char>,
> {
    match span {
        None => Ok(None),
        Some((a, b)) => if null_at(s, a) {
            Ok(None)
        } else {
            match text_at(s, a) {
                Some((t, e)) => Ok(Some(t)),
                None => Err(type_msg(name)),
            }
        },
    }
}

/// A required integer field whose value must lie in `lo..=hi`.
pub open spec fn field_int(
    s: Seq<u8>,
    span: Option<(int, int)>,
    name: Seq<char>,
    lo: int,
    hi: int,
) -> Result<int, Seq<char>> {
    match span {
        None => Err(missing_msg(name)),
        Some((a, b)) => match int_at(s, a) {
            Some((v, e)) => if lo <= v <= hi {
                Ok(v)
            } else {
                Err(type_msg(name))
            },
            None => Err(type_msg(name)),
        },
    }
}

/// An optional integer field whose value must lie in `lo..=hi`.
pub open spec fn field_opt_int(
    s: Seq<u8>,
    span: Option<(int, int)>,
    name: Seq<char>,
    lo: int,
    hi: int,
) -> Result<Option<int>, Seq<char>> {
    match span {
        None => Ok(None),
        Some((a, b)) => if null_at(s, a) {
            Ok(None)
        } else {
            match field_int(s, span, name, lo, hi) {
                Ok(v) => Ok(Some(v)),
                Err(m) => Err(m),
            }
        },
    }
}

/// `n` consecutive text strings from `pos`.
pub open spec fn texts_from(s: Seq<u8>, pos: int, n: nat) -> Option<Seq<Seq<char>>>
    decreases n,
{
    if n == 0 {
        Some(seq![])
    } else {
        match text_at(s, pos) {
            Some((t, e)) => match texts_from(s, e, (n - 1) as nat) {
                Some(rest) => Some(seq![t] + rest),
                None => None,
            },
            None => None,
        }
    }
}

/// A required field holding an array of text strings.
pub open spec fn field_text_array(
    s: Seq<u8>,
    span: Option<(int, int)>,
    name: Seq<char>,
) -> Result<Seq<Seq<char>>, Seq<char>> {
    match span {
        None => Err(missing_msg(name)),
        Some((a, b)) => match spec_head(s, a) {
            Some((major, ai, n, h)) => if major == 4 {
                match texts_from(s, h, n) {
                    Some(ts) => Ok(ts),
                    None => Err(type_msg(name)),
                }
            } else {
                Err(type_msg(name))
            },
            None => Err(type_msg(name)),
        },
    }
}

/// The view of the span recorded for field `i`.
pub open spec fn span_of(acc: Seq<Option<(usize, usize)>>, i: int) -> Option<(int, int)> {
    spans_view(acc)[i]
}

fn missing_field(name: &str) -> (r: String)
    ensures
        r@ == missing_msg(name@),
{
    join3("missing field `", name, "`")
}

fn wrong_type(name: &str) -> (r: String)
    ensures
        r@ == type_msg(name@),
{
    join3("invalid type for field `", name, "`")
}

/// Reads required text field `i`.
pub fn read_text_field(s: &[u8], acc: &Vec<Option<(usize, usize)>>, i: usize, name: &str) -> (r:
    Result<String, String>)
    requires
        i < acc@.len(),
    ensures
        match r {
            Ok(t) => field_text(s@, span_of(acc@, i as int), name@) == Ok::<_, Seq<char>>(t@),
            Err(m) => field_text(s@, span_of(acc@, i as int), name@) == Err::<Seq<char>, _>(m@),
        },
{
    match acc[i] {
        None => Err(missing_field(name)),
        Some((a, _b)) => match parse_text(s, a) {
            Some((t, _e)) => Ok(t),
            None => Err(wrong_type(name)),
        },
    }
}

/// Reads optional text field `i`.
pub fn read_opt_text_field(
    s: &[u8],
    acc: &Vec<Option<(usize, usize)>>,
    i: usize,
    name: &str,
) -> (r: Result<Option<String>, String>)
    requires
        i < acc@.len(),
    ensures
        match r {
            Ok(o) => field_opt_text(s@, span_of(acc@, i as int), name@) == Ok::<_, Seq<char>>(
                match o {
                    Some(t) => Some(t@),
                    None => None,
                },
            ),
            Err(m) => field_opt_text(s@, span_of(acc@, i as int), name@) == Err::<
                Option<Seq<char>>,
                _,
            >(m@),
        },
{
    match acc[i] {
        None => Ok(None),
        Some((a, _b)) => {
            if parse_null(s, a) {
                Ok(None)
            } else {
                match parse_text(s, a) {
                    Some((t, _e)) => Ok(Some(t)),
                    None => Err(wrong_type(name)),
                }
            }
        },
    }
}

/// Reads required integer field `i`, which must lie in `lo..=hi`.
pub fn read_int_field(
    s: &[u8],
    acc: &Vec<Option<(usize, usize)>>,
    i: usize,
    name: &str,
    lo: i64,
    hi: i64,
) -> (r: Result<i64, String>)
    requires
        i < acc@.len(),
    ensures
        match r {
            Ok(v) => field_int(s@, span_of(acc@, i as int), name@, lo as int, hi as int) == Ok::<
                _,
                Seq<char>,
            >(v as int),
            Err(m) => field_int(s@, span_of(acc@, i as int), name@, lo as int, hi as int) == Err::<
                int,
                _,
            >(m@),
        },
{
    match acc[i] {
        None => Err(missing_field(name)),
        Some((a, _b)) => match parse_int(s, a) {
            Some((neg, arg, _e)) => {
                if !neg {
                    if hi >= 0 && arg <= hi as u64 && (lo <= 0 || arg >= lo as u64) {
                        Ok(arg as i64)
                    } else {
                        Err(wrong_type(name))
                    }
                } else {
                    // the value is -1 - arg
                    if lo < 0 && arg <= (-1 - lo) as u64 && (hi >= 0 || arg >= (-1 - hi) as u64) {
                        Ok(-1 - arg as i64)
                    } else {
                        Err(wrong_type(name))
                    }
                }
            },
            None => Err(wrong_type(name)),
        },
    }
}

/// Reads optional integer field `i`, which must lie in `lo..=hi`.
pub fn read_opt_int_field(
    s: &[u8],
    acc: &Vec<Option<(usize, usize)>>,
    i: usize,
    name: &str,
    lo: i64,
    hi: i64,
) -> (r: Result<Option<i64>, String>)
    requires
        i < acc@.len(),
    ensures
        match r {
            Ok(o) => field_opt_int(s@, span_of(acc@, i as int), name@, lo as int, hi as int)
                == Ok::<_, Seq<char>>(
                match o {
                    Some(v) => Some(v as int),
                    None => None,
                },
            ),
            Err(m) => field_opt_int(s@, span_of(acc@, i as int), name@, lo as int, hi as int)
                == Err::<Option<int>, _>(m@),
        },
{
    match acc[i] {
        None => Ok(None),
        Some((a, _b)) => {
            if parse_null(s, a) {
                Ok(None)
            } else {
                match read_int_field(s, acc, i, name, lo, hi) {
                    Ok(v) => Ok(Some(v)),
                    Err(m) => Err(m),
                }
            }
        },
    }
}

/// The views of a list of strings.
pub open spec fn string_views(v: Seq<String>) -> Seq<Seq<char>> {
    v.map_values(|t: String| t@)
}

/// Reads required field `i` holding an array of text strings.
pub fn read_text_array_field(
    s: &[u8],
    acc: &Vec<Option<(usize, usize)>>,
    i: usize,
    name: &str,
) -> (r: Result<Vec<String>, String>)
    requires
        i < acc@.len(),
    ensures
        match r {
            Ok(v) => field_text_array(s@, span_of(acc@, i as int), name@) == Ok::<_, Seq<char>>(
                string_views(v@),
            ),
            Err(m) => field_text_array(s@, span_of(acc@, i as int), name@) == Err::<
                Seq<Seq<char>>,
                _,
            >(m@),
        },
{
    match acc[i] {
        None => Err(missing_field(name)),
        Some((a, b)) => match parse_head(s, a) {
            Some((major, ai, n, h)) => {
                if major != 4 {
                    return Err(wrong_type(name));
                }
                let mut out: Vec<String> = Vec::new();
                let mut p = h;
                let mut k: u64 = 0;
                while k < n
                    invariant
                        i < acc@.len(),
                        span_of(acc@, i as int) == Some((a as int, b as int)),
                        spec_head(s@, a as int) == Some((4u8, ai, n as nat, h as int)),
                        k <= n,
                        out@.len() == k,
                        texts_from(s@, h as int, n as nat) == match texts_from(
                            s@,
                            p as int,
                            (n - k) as nat,
                        ) {
                            Some(rest) => Some(string_views(out@) + rest),
                            None => None::<Seq<Seq<char>>>,
                        },
                    decreases n - k,
                {
                    match parse_text(s, p) {
                        Some((t, e)) => {
                            proof {
                                assert(string_views(out@.push(t)) =~= string_views(out@) + seq![
                                    t@,
                                ]);
                                match texts_from(s@, e as int, (n - k - 1) as nat) {
                                    Some(rest) => {
                                        assert(string_views(out@) + (seq![t@] + rest)
                                            =~= string_views(out@.push(t)) + rest);
                                    },
                                    None => {},
                                }
                            }
                            out.push(t);
                            p = e;
                        },
                        None => {
                            return Err(wrong_type(name));
                        },
                    }
                    k = k + 1;
                }
                assert(string_views(out@) + seq![] =~= string_views(out@));
                Ok(out)
            },
            None => Err(wrong_type(name)),
        },
    }
}

/// The encodings of a list of texts.
pub open spec fn text_items(ts: Seq<Seq<char>>) -> Seq<Seq<u8>> {
    ts.map_values(|t: Seq<char>| text_bytes(t))
}

/// Every text of `ts` has a UTF-8 length that a head can carry.
pub open spec fn texts_fit(ts: Seq<Seq<char>>) -> bool {
    forall|i: int| 0 <= i < ts.len() ==> encode_utf8(#[trigger] ts[i]).len() < 0x1_0000_0000_0000_0000
}

/// Consecutive encoded texts read back as the same texts.
pub proof fn lemma_texts_from(s: Seq<u8>, pos: int, ts: Seq<Seq<char>>)
    requires
        texts_fit(ts),
        occurs_at(s, pos, concat_all(text_items(ts))),
    ensures
        texts_from(s, pos, ts.len()) == Some(ts),
    decreases ts.len(),
{
    if ts.len() > 0 {
        let items = text_items(ts);
        assert(items[0] == text_bytes(ts[0]));
        assert(items.drop_first() =~= text_items(ts.drop_first()));
        lemma_occurs_split(s, pos, items[0], concat_all(items.drop_first()));
        lemma_text_item(s, pos, ts[0], 0);
        lemma_texts_from(s, pos + items[0].len(), ts.drop_first());
        assert(seq![ts[0]] + ts.drop_first() =~= ts);
    }
}

/// An encoded array of texts reads back as the same texts, and is a
/// well-formed item at any positive depth.
pub proof fn lemma_text_array(s: Seq<u8>, pos: int, ts: Seq<Seq<char>>, depth: nat)
    requires
        texts_fit(ts),
        ts.len() < 0x1_0000_0000_0000_0000,
        occurs_at(s, pos, array_bytes(text_items(ts))),
    ensures
        item_end(s, pos, depth + 1) == Some(pos + array_bytes(text_items(ts)).len()),
        spec_head(s, pos) matches Some((major, ai, n, h)) && major == 4 && n == ts.len()
            && texts_from(s, h, n) == Some(ts),
{
    let items = text_items(ts);
    let hb = head_bytes(4, items.len());
    assert forall|i: int| 0 <= i < items.len() implies item_everywhere(s, #[trigger] items[i], depth) by {
        lemma_text_everywhere(s, ts[i], depth);
    }
    lemma_array_item(s, pos, items, depth);
    lemma_occurs_split(s, pos, hb, concat_all(items));
    lemma_head_roundtrip(s, pos, 4, items.len());
    lemma_texts_from(s, pos + hb.len(), ts);
}


// ---------------------------------------------------------------------------
// The packet envelope
// ---------------------------------------------------------------------------

/// Why an envelope could not be read: the bytes are not one well-formed
/// data item (`Serde`), or the item is not a packet envelope (`Custom`).
#[derive(Debug, Clone, PartialEq, Eq)]
pub enum CborError {
    Serde(String),
    Custom(String),
}

/// The view of a `CborError`.
pub enum CborErrorView {
    Serde(Seq<char>),
    Custom(Seq<char>),
}

impl CborError {
    pub open spec fn view(&self) -> CborErrorView {
        match self {
            CborError::Serde(m) => CborErrorView::Serde(m@),
            CborError::Custom(m) => CborErrorView::Custom(m@),
        }
    }

    /// The text of the error.
    pub open spec fn spec_message(&self) -> Seq<char> {
        match self {
            CborError::Serde(m) => "CBOR error: "@ + m@,
            CborError::Custom(m) => m@,
        }
    }

    /// The text of the error.
    pub fn to_string(&self) -> (r: String)
        ensures
            r@ == self.spec_message(),
    {
        match self {
            CborError::Serde(m) => {
                let mut r = String::from_str("CBOR error: ");
                r.append(m.as_str());
                r
            },
            CborError::Custom(m) => m.clone(),
        }
    }
}

/// An envelope key: 0 for the packet type, 1 for the payload, written as
/// an unsigned integer or as the decimal text.
pub enum EnvelopeKey {
    IntKey(nat),
    TextKey(nat),
    Other,
}

/// The envelope key at `pos`.
pub open spec fn envelope_key(s: Seq<u8>, pos: int) -> EnvelopeKey {
    match spec_head(s, pos) {
        Some((major, ai, arg, h)) => if major == 0 && arg <= 1 {
            EnvelopeKey::IntKey(arg)
        } else if major == 3 && arg == 1 && h < s.len() && (s[h] == 0x30 || s[h] == 0x31) {
            EnvelopeKey::TextKey((s[h] - 0x30) as nat)
        } else {
            EnvelopeKey::Other
        },
        None => EnvelopeKey::Other,
    }
}

/// Where the value for key `k` sits, given the two entries of an envelope
/// (key position, value position): the integer key wins over the text key.
pub open spec fn envelope_value(
    s: Seq<u8>,
    k: nat,
    k1: int,
    v1: int,
    k2: int,
    v2: int,
) -> Option<int> {
    if envelope_key(s, k1) == EnvelopeKey::IntKey(k) {
        Some(v1)
    } else if envelope_key(s, k2) == EnvelopeKey::IntKey(k) {
        Some(v2)
    } else if envelope_key(s, k1) == EnvelopeKey::TextKey(k) {
        Some(v1)
    } else if envelope_key(s, k2) == EnvelopeKey::TextKey(k) {
        Some(v2)
    } else {
        None
    }
}

/// The low 32 bits of a CBOR integer (`-1 - arg` when `neg`), as an `i32`.
pub open spec fn wrap_i32(neg: bool, arg: u64) -> i32 {
    if neg {
        ((0xFFFF_FFFF_FFFF_FFFFu64 - arg) as u32) as i32
    } else {
        (arg as u32) as i32
    }
}

/// Reads a packet envelope `{ 0: packet_type, 1: payload }`: the whole input
/// must be one well-formed data item; it must be a map of two entries; the
/// packet type must be an integer (kept to its low 32 bits). Returns the
/// packet type and the span of the payload item.
pub open spec fn spec_envelope(s: Seq<u8>) -> Result<(i32, int, int), CborErrorView> {
    if item_end(s, 0, MAX_NESTING as nat) != Some(s.len() as int) {
        Err(CborErrorView::Serde(malformed_msg()))
    } else {
        match spec_head(s, 0) {
            Some((major, ai, arg, h)) => if major != 5 {
                Err(CborErrorView::Custom("expected map envelope"@))
            } else if arg != 2 {
                Err(CborErrorView::Custom("envelope must have exactly two entries"@))
            } else {
                let d = (MAX_NESTING - 1) as nat;
                let v1 = item_end(s, h, d)->Some_0;
                let k2 = item_end(s, v1, d)->Some_0;
                let v2 = item_end(s, k2, d)->Some_0;
                let e2 = item_end(s, v2, d)->Some_0;
                match envelope_value(s, 0, h, v1, k2, v2) {
                    None => Err(CborErrorView::Custom("missing packet_type"@)),
                    Some(tp) => match spec_head(s, tp) {
                        Some((tm, tai, targ, th)) => if tm > 1 {
                            Err(CborErrorView::Custom("packet_type is not an integer"@))
                        } else {
                            match envelope_value(s, 1, h, v1, k2, v2) {
                                None => Err(CborErrorView::Custom("missing payload"@)),
                                Some(pp) => Ok(
                                    (
                                        wrap_i32(tm == 1, targ as u64),
                                        pp,
                                        if pp == v1 {
                                            k2
                                        } else {
                                            e2
                                        },
                                    ),
                                ),
                            }
                        },
                        None => Err(CborErrorView::Custom("packet_type is not an integer"@)),
                    },
                }
            },
            None => Err(CborErrorView::Serde(malformed_msg())),
        }
    }
}

/// The envelope key at `pos`.
fn read_envelope_key(s: &[u8], pos: usize) -> (r: (bool, u64))
    ensures
        envelope_key(s@, pos as int) == if r.0 {
            EnvelopeKey::IntKey(r.1 as nat)
        } else if r.1 <= 1 {
            EnvelopeKey::TextKey(r.1 as nat)
        } else {
            EnvelopeKey::Other
        },
{
    match parse_head(s, pos) {
        Some((major, _ai, arg, h)) => {
            if major == 0 && arg <= 1 {
                (true, arg)
            } else if major == 3 && arg == 1 && h < s.len() && (s[h] == 0x30 || s[h] == 0x31) {
                (false, (s[h] - 0x30) as u64)
            } else {
                (false, 2)
            }
        },
        None => (false, 2),
    }
}

/// Which of the two entries holds key `k` (1 or 2), or 0 for neither.
fn pick_entry(key1: (bool, u64), key2: (bool, u64), k: u64) -> (r: u8)
    ensures
        r <= 2,
        r == if key1.0 && key1.1 == k {
            1u8
        } else if key2.0 && key2.1 == k {
            2u8
        } else if !key1.0 && key1.1 == k {
            1u8
        } else if !key2.0 && key2.1 == k {
            2u8
        } else {
            0u8
        },
{
    if key1.0 && key1.1 == k {
        1
    } else if key2.0 && key2.1 == k {
        2
    } else if !key1.0 && key1.1 == k {
        1
    } else if !key2.0 && key2.1 == k {
        2
    } else {
        0
    }
}

/// Reads a packet envelope: the packet type and the span of the payload.
///
/// The spans are positions in `data`, so `data` must have definite lengths;
/// input with indefinite lengths is read after `definite_lengths`, as
/// `MineChatPacket::from_bytes` does.
pub fn deserialize_envelope(data: &[u8]) -> (r: Result<(i32, usize, usize), CborError>)
    ensures
        match r {
            Ok((t, a, b)) => spec_envelope(data@) == Ok::<_, CborErrorView>((t, a as int, b as int)),
            Err(e) => spec_envelope(data@) == Err::<(i32, int, int), _>(e.view()),
        },
{
    match skip_item(data, 0, MAX_NESTING) {
        Some(e) => {
            if e != data.len() {
                return Err(CborError::Serde(String::from_str("malformed CBOR data item")));
            }
        },
        None => return Err(CborError::Serde(String::from_str("malformed CBOR data item"))),
    }
    let (major, _ai, arg, h) = match parse_head(data, 0) {
        Some(x) => x,
        None => return Err(CborError::Serde(String::from_str("malformed CBOR data item"))),
    };
    if major != 5 {
        return Err(CborError::Custom(String::from_str("expected map envelope")));
    }
    if arg != 2 {
        return Err(CborError::Custom(String::from_str("envelope must have exactly two entries")));
    }
    let d = MAX_NESTING - 1;
    proof {
        lemma_item_end_range(data@, 0, MAX_NESTING as nat);
        lemma_item_end_range_head(data@, 0);
        assert(items_end(data@, h as int, 4, d as nat) == Some(data@.len() as int));
    }
    // the whole map is well formed, so each of its four items is
    let v1 = match skip_item(data, h, d) {
        Some(x) => x,
        None => return Err(CborError::Serde(String::from_str("malformed CBOR data item"))),
    };
    proof {
        lemma_item_end_range(data@, h as int, d as nat);
        assert(items_end(data@, v1 as int, 3, d as nat) == Some(data@.len() as int));
    }
    let k2 = match skip_item(data, v1, d) {
        Some(x) => x,
        None => return Err(CborError::Serde(String::from_str("malformed CBOR data item"))),
    };
    proof {
        lemma_item_end_range(data@, v1 as int, d as nat);
        assert(items_end(data@, k2 as int, 2, d as nat) == Some(data@.len() as int));
    }
    let v2 = match skip_item(data, k2, d) {
        Some(x) => x,
        None => return Err(CborError::Serde(String::from_str("malformed CBOR data item"))),
    };
    proof {
        lemma_item_end_range(data@, k2 as int, d as nat);
        assert(items_end(data@, v2 as int, 1, d as nat) == Some(data@.len() as int));
    }
    let e2 = match skip_item(data, v2, d) {
        Some(x) => x,
        None => return Err(CborError::Serde(String::from_str("malformed CBOR data item"))),
    };
    let key1 = read_envelope_key(data, h);
    let key2 = read_envelope_key(data, k2);
    let tp = match pick_entry(key1, key2, 0) {
        1 => v1,
        2 => v2,
        _ => return Err(CborError::Custom(String::from_str("missing packet_type"))),
    };
    let (tm, _tai, targ, _th) = match parse_head(data, tp) {
        Some(x) => x,
        None => return Err(CborError::Custom(String::from_str("packet_type is not an integer"))),
    };
    if tm > 1 {
        return Err(CborError::Custom(String::from_str("packet_type is not an integer")));
    }
    let t: i32 = if tm == 1 {
        (#[verifier::truncate] ((#[verifier::truncate] ((0xFFFF_FFFF_FFFF_FFFFu64 - targ) as u32)) as i32))
    } else {
        (#[verifier::truncate] ((#[verifier::truncate] (targ as u32)) as i32))
    };
    match pick_entry(key1, key2, 1) {
        1 => Ok((t, v1, k2)),
        2 => Ok((t, v2, e2)),
        _ => Err(CborError::Custom(String::from_str("missing payload"))),
    }
}


/// The bytes of an envelope `{ 0: packet_type, 1: payload }`, the payload
/// being the bytes of one encoded item.
pub open spec fn envelope_bytes(packet_type: i32, payload: Seq<u8>) -> Seq<u8> {
    map_bytes(seq![(0nat, int_bytes(packet_type as int)), (1nat, payload)])
}

/// `p` is one well-formed data item, within the nesting budget `depth`,
/// wherever it stands.
pub open spec fn is_item(p: Seq<u8>, depth: nat) -> bool {
    &&& p.len() > 0
    &&& forall|s: Seq<u8>, q: int| #[trigger]
        occurs_at(s, q, p) ==> item_end(s, q, depth) == Some(q + p.len())
}

/// Writes an envelope `{ 0: packet_type, 1: payload }` with integer keys,
/// `payload` being the CBOR bytes of the payload.
pub fn serialize_envelope(packet_type: i32, payload: &[u8]) -> (r: Result<Vec<u8>, CborError>)
    ensures
        r matches Ok(b) && b@ == envelope_bytes(packet_type, payload@),
{
    let mut buf: Vec<u8> = Vec::new();
    buf.push(0xa2);
    buf.push(0x00);
    encode_int(&mut buf, packet_type as i64);
    buf.push(0x01);
    push_bytes(&mut buf, payload);
    proof {
        let tb = int_bytes(packet_type as int);
        crate::payloads::lemma_entries_two((0nat, tb), (1nat, payload@));
        assert(int_bytes(0) =~= seq![0u8]);
        assert(int_bytes(1) =~= seq![1u8]);
        assert(head_bytes(5, 2) =~= seq![0xa2u8]);
        assert(buf@ =~= envelope_bytes(packet_type, payload@));
    }
    Ok(buf)
}

/// Reading an envelope gives back the packet type it was written with and
/// the span of its payload: for every packet type, and every payload that
/// is one well-formed data item.
pub proof fn lemma_envelope_roundtrip(packet_type: i32, payload: Seq<u8>)
    requires
        is_item(payload, (MAX_NESTING - 1) as nat),
    ensures
        spec_envelope(envelope_bytes(packet_type, payload)) == Ok::<_, CborErrorView>(
            (
                packet_type,
                3 + int_bytes(packet_type as int).len() as int,
                envelope_bytes(packet_type, payload).len() as int,
            ),
        ),
{
    let t = packet_type;
    let p = payload;
    let s = envelope_bytes(t, p);
    let tb = int_bytes(t as int);
    let d = (MAX_NESTING - 1) as nat;
    let env = seq![(0nat, tb), (1nat, p)];
    crate::payloads::lemma_entries_two(env[0], env[1]);
    assert(int_bytes(0) =~= seq![0u8]);
    assert(int_bytes(1) =~= seq![1u8]);
    assert(head_bytes(5, 2) =~= seq![0xa2u8]);
    assert(s =~= seq![0xa2u8] + (seq![0x00u8] + (tb + (seq![0x01u8] + p))));
    assert(s.subrange(0, s.len() as int) =~= s);
    // the whole input is one well-formed item
    lemma_int_everywhere(s, t as int, d);
    assert(item_everywhere(s, p, d));
    assert(env[0].1 == tb && env[1].1 == p);
    lemma_map_item(s, 0, env, d);
    // its head, keys and values
    lemma_occurs_split(s, 0, seq![0xa2u8], seq![0x00u8] + (tb + (seq![0x01u8] + p)));
    lemma_occurs_split(s, 1, seq![0x00u8], tb + (seq![0x01u8] + p));
    lemma_occurs_split(s, 2, tb, seq![0x01u8] + p);
    let k2: int = 2 + tb.len() as int;
    lemma_occurs_split(s, k2, seq![0x01u8], p);
    lemma_head_roundtrip(s, 0, 5, 2);
    lemma_int_item(s, 1, 0, d);
    lemma_int_item(s, 2, t as int, d);
    lemma_int_item(s, k2, 1, d);
    lemma_head_roundtrip(s, 1, 0, 0);
    lemma_head_roundtrip(s, k2, 0, 1);
    assert(item_end(s, k2 + 1, d) == Some(s.len() as int));
    assert(envelope_key(s, 1) == EnvelopeKey::IntKey(0));
    assert(envelope_key(s, k2) == EnvelopeKey::IntKey(1));
    if t >= 0 {
        lemma_head_roundtrip(s, 2, 0, t as nat);
        let a = t as u64;
        assert(wrap_i32(false, a) == t) by {
            assert(((a as u32) as i32) == t) by (bit_vector)
                requires
                    a == t as u64,
                    t >= 0,
            ;
        }
    } else {
        lemma_head_roundtrip(s, 2, 1, (-1 - t) as nat);
        let a = (-1 - t) as u64;
        assert(wrap_i32(true, a) == t) by {
            assert((((0xFFFF_FFFF_FFFF_FFFFu64 - a) as u32) as i32) == t) by (bit_vector)
                requires
                    a == (-1 - t) as u64,
                    t < 0,
            ;
        }
    }
}


/// An envelope whose payload is one well-formed item is one well-formed
/// item.
pub proof fn lemma_envelope_item(packet_type: i32, payload: Seq<u8>)
    requires
        is_item(payload, (MAX_NESTING - 1) as nat),
    ensures
        item_end(envelope_bytes(packet_type, payload), 0, MAX_NESTING as nat) == Some(
            envelope_bytes(packet_type, payload).len() as int,
        ),
{
    let s = envelope_bytes(packet_type, payload);
    let tb = int_bytes(packet_type as int);
    let d = (MAX_NESTING - 1) as nat;
    let env = seq![(0nat, tb), (1nat, payload)];
    assert(s.subrange(0, s.len() as int) =~= s);
    lemma_int_everywhere(s, packet_type as int, d);
    assert(item_everywhere(s, payload, d));
    assert(env[0].1 == tb && env[1].1 == payload);
    lemma_map_item(s, 0, env, d);
}

/// The empty definite-length map is one well-formed item.
pub proof fn lemma_empty_map_item(depth: nat)
    ensures
        is_item(map_bytes(Seq::<(nat, Seq<u8>)>::empty()), depth + 1),
{
    let m = map_bytes(Seq::<(nat, Seq<u8>)>::empty());
    lemma_head_bytes_len(5, 0);
    assert forall|s: Seq<u8>, q: int| #[trigger] occurs_at(s, q, m) implies item_end(
        s,
        q,
        depth + 1,
    ) == Some(q + m.len()) by {
        lemma_map_item(s, q, Seq::<(nat, Seq<u8>)>::empty(), depth);
    }
}

/// The envelope is read by key, not by position: with its two entries
/// written the other way round, `{ 1: payload, 0: packet_type }`, it still
/// gives the packet type under key 0 and the span of the payload under key
/// 1, for every packet type and every payload that is one well-formed data
/// item.
pub proof fn lemma_envelope_either_order(packet_type: i32, payload: Seq<u8>)
    requires
        is_item(payload, (MAX_NESTING - 1) as nat),
    ensures
        spec_envelope(map_bytes(seq![(1nat, payload), (0nat, int_bytes(packet_type as int))]))
            == Ok::<_, CborErrorView>((packet_type, 2int, 2 + payload.len() as int)),
{
    let t = packet_type;
    let p = payload;
    let tb = int_bytes(t as int);
    let env = seq![(1nat, p), (0nat, tb)];
    let s = map_bytes(env);
    let d = (MAX_NESTING - 1) as nat;
    crate::payloads::lemma_entries_two(env[0], env[1]);
    assert(int_bytes(0) =~= seq![0u8]);
    assert(int_bytes(1) =~= seq![1u8]);
    assert(head_bytes(5, 2) =~= seq![0xa2u8]);
    assert(s =~= seq![0xa2u8] + (seq![0x01u8] + (p + (seq![0x00u8] + tb))));
    assert(s.subrange(0, s.len() as int) =~= s);
    lemma_int_everywhere(s, t as int, d);
    assert(item_everywhere(s, p, d));
    assert(env[0].1 == p && env[1].1 == tb);
    lemma_map_item(s, 0, env, d);
    lemma_occurs_split(s, 0, seq![0xa2u8], seq![0x01u8] + (p + (seq![0x00u8] + tb)));
    lemma_occurs_split(s, 1, seq![0x01u8], p + (seq![0x00u8] + tb));
    lemma_occurs_split(s, 2, p, seq![0x00u8] + tb);
    let k2: int = 2 + p.len() as int;
    lemma_occurs_split(s, k2, seq![0x00u8], tb);
    lemma_head_roundtrip(s, 0, 5, 2);
    lemma_int_item(s, 1, 1, d);
    lemma_int_item(s, k2, 0, d);
    lemma_int_item(s, k2 + 1, t as int, d);
    lemma_head_roundtrip(s, 1, 0, 1);
    lemma_head_roundtrip(s, k2, 0, 0);
    assert(item_end(s, 2, d) == Some(k2));
    assert(envelope_key(s, 1) == EnvelopeKey::IntKey(1));
    assert(envelope_key(s, k2) == EnvelopeKey::IntKey(0));
    if t >= 0 {
        lemma_head_roundtrip(s, k2 + 1, 0, t as nat);
        let a = t as u64;
        assert(wrap_i32(false, a) == t) by {
            assert(((a as u32) as i32) == t) by (bit_vector)
                requires
                    a == t as u64,
                    t >= 0,
            ;
        }
    } else {
        lemma_head_roundtrip(s, k2 + 1, 1, (-1 - t) as nat);
        let a = (-1 - t) as u64;
        assert(wrap_i32(true, a) == t) by {
            assert((((0xFFFF_FFFF_FFFF_FFFFu64 - a) as u32) as i32) == t) by (bit_vector)
                requires
                    a == (-1 - t) as u64,
                    t < 0,
            ;
        }
    }
}

// ---------------------------------------------------------------------------
// Indefinite lengths
// ---------------------------------------------------------------------------

/// The contents of the string chunks of an indefinite-length string of
/// major type `major` that start at `pos`, up to and past its "break": each
/// chunk a definite-length string of the same major type. Text chunks are
/// not checked one by one; the joined text is.
pub open spec fn chunks_content(s: Seq<u8>, pos: int, major: u8) -> Option<(Seq<u8>, int)>
    decreases s.len() - pos,
{
    if !(0 <= pos < s.len()) {
        None
    } else if s[pos] == 0xff {
        Some((Seq::empty(), pos + 1))
    } else {
        match spec_head(s, pos) {
            Some((m, ai, arg, h)) => if m == major && pos < h && h + arg <= s.len() {
                match chunks_content(s, h + arg, major) {
                    Some((c, e)) => Some((s.subrange(h, h + arg) + c, e)),
                    None => None,
                }
            } else {
                None
            },
            None => None,
        }
    }
}

/// The data item at `pos` with every indefinite length made definite: an
/// indefinite-length string becomes one definite string of its joined
/// chunks; an indefinite-length array or map becomes a definite one with the
/// same members. Everything else is kept byte for byte. Gives the new bytes
/// and the position past the item, or `None` where the item is not well
/// formed within the nesting budget `depth`.
pub open spec fn definite_item(s: Seq<u8>, pos: int, depth: nat) -> Option<(Seq<u8>, int)>
    decreases s.len() - pos, 0int,
{
    if !(0 <= pos < s.len()) {
        None
    } else if s[pos] % 32 == 31 {
        let major = s[pos] / 32;
        if major == 2 || major == 3 {
            match chunks_content(s, pos + 1, major) {
                Some((c, e)) => Some((head_bytes(major, c.len()) + c, e)),
                None => None,
            }
        } else if (major == 4 || major == 5) && depth > 0 {
            match definite_until_break(s, pos + 1, (depth - 1) as nat) {
                Some((b, n, e)) => if major == 4 {
                    Some((head_bytes(4, n) + b, e))
                } else if n % 2 == 0 {
                    Some((head_bytes(5, n / 2) + b, e))
                } else {
                    None
                },
                None => None,
            }
        } else {
            None
        }
    } else {
        match spec_head(s, pos) {
            None => None,
            Some((major, ai, arg, h)) => if !(pos < h <= s.len()) {
                None
            } else if major == 4 || major == 5 {
                if depth == 0 {
                    None
                } else {
                    match definite_items(
                        s,
                        h,
                        if major == 4 { arg } else { 2 * arg },
                        (depth - 1) as nat,
                    ) {
                        Some((b, e)) => Some((s.subrange(pos, h) + b, e)),
                        None => None,
                    }
                }
            } else if major == 6 {
                if depth == 0 {
                    None
                } else {
                    match definite_item(s, h, (depth - 1) as nat) {
                        Some((b, e)) => if h < e {
                            Some((s.subrange(pos, h) + b, e))
                        } else {
                            None
                        },
                        None => None,
                    }
                }
            } else {
                match item_end(s, pos, 0) {
                    Some(e) => Some((s.subrange(pos, e), e)),
                    None => None,
                }
            },
        }
    }
}

/// `count` consecutive items from `pos`, each made definite.
pub open spec fn definite_items(s: Seq<u8>, pos: int, count: nat, depth: nat) -> Option<
    (Seq<u8>, int),
>
    decreases s.len() - pos, 1int,
{
    if count == 0 {
        Some((Seq::empty(), pos))
    } else if !(0 <= pos < s.len()) {
        None
    } else {
        match definite_item(s, pos, depth) {
            Some((b, e)) => if pos < e <= s.len() {
                match definite_items(s, e, (count - 1) as nat, depth) {
                    Some((r, f)) => Some((b + r, f)),
                    None => None,
                }
            } else {
                None
            },
            None => None,
        }
    }
}

/// The items from `pos` up to a "break", each made definite, with their
/// number and the position past the break.
pub open spec fn definite_until_break(s: Seq<u8>, pos: int, depth: nat) -> Option<
    (Seq<u8>, nat, int),
>
    decreases s.len() - pos, 1int,
{
    if !(0 <= pos < s.len()) {
        None
    } else if s[pos] == 0xff {
        Some((Seq::empty(), 0, pos + 1))
    } else {
        match definite_item(s, pos, depth) {
            Some((b, e)) => if pos < e <= s.len() {
                match definite_until_break(s, e, depth) {
                    Some((r, n, f)) => Some((b + r, n + 1, f)),
                    None => None,
                }
            } else {
                None
            },
            None => None,
        }
    }
}

/// The input with every indefinite length made definite, where the whole
/// input is one item that is well formed with them.
pub open spec fn definite_bytes(s: Seq<u8>) -> Option<Seq<u8>> {
    match definite_item(s, 0, MAX_NESTING as nat) {
        Some((b, e)) => if e == s.len() {
            Some(b)
        } else {
            None
        },
        None => None,
    }
}

/// `p` is one data item that, wherever it stands, is made definite as `b`
/// (within the nesting budget `depth`).
pub open spec fn made_definite(p: Seq<u8>, b: Seq<u8>, depth: nat) -> bool {
    &&& p.len() > 0
    &&& forall|s: Seq<u8>, q: int| #[trigger]
        occurs_at(s, q, p) ==> definite_item(s, q, depth) == Some((b, q + p.len()))
}

/// Items followed by a "break" are made definite item by item.
proof fn lemma_until_break_made_definite(
    s: Seq<u8>,
    pos: int,
    ps: Seq<Seq<u8>>,
    bs: Seq<Seq<u8>>,
    depth: nat,
)
    requires
        ps.len() == bs.len(),
        forall|i: int| 0 <= i < ps.len() ==> made_definite(#[trigger] ps[i], bs[i], depth),
        occurs_at(s, pos, concat_all(ps) + seq![0xffu8]),
    ensures
        definite_until_break(s, pos, depth) == Some(
            (concat_all(bs), ps.len(), pos + concat_all(ps).len() + 1),
        ),
    decreases ps.len(),
{
    if ps.len() == 0 {
        assert(concat_all(ps) + seq![0xffu8] =~= seq![0xffu8]);
        assert(s[pos] == s.subrange(pos, pos + 1)[0]);
    } else {
        let p0 = ps[0];
        let rest = ps.drop_first();
        let brest = bs.drop_first();
        assert(concat_all(ps) + seq![0xffu8] =~= p0 + (concat_all(rest) + seq![0xffu8]));
        lemma_occurs_split(s, pos, p0, concat_all(rest) + seq![0xffu8]);
        assert(made_definite(ps[0], bs[0], depth));
        assert(definite_item(s, pos, depth) == Some((bs[0], pos + p0.len())));
        if s[pos] == 0xff {
            assert(s[pos] % 32 == 31 && s[pos] / 32 == 7);
            assert(definite_item(s, pos, depth) is None);
        }
        assert forall|i: int| 0 <= i < rest.len() implies made_definite(
            #[trigger] rest[i],
            brest[i],
            depth,
        ) by {
            assert(rest[i] == ps[i + 1] && brest[i] == bs[i + 1]);
        }
        lemma_until_break_made_definite(s, pos + p0.len(), rest, brest, depth);
        assert(concat_all(bs) == bs[0] + concat_all(brest));
    }
}

/// An indefinite-length array, `0x9f`, its members, then the "break"
/// `0xff`, is made the definite-length array of its members made definite:
/// for any number of members, none included, and whatever they are.
pub proof fn lemma_indefinite_array_made_definite(ps: Seq<Seq<u8>>, bs: Seq<Seq<u8>>, depth: nat)
    requires
        ps.len() == bs.len(),
        forall|i: int| 0 <= i < ps.len() ==> made_definite(#[trigger] ps[i], bs[i], depth),
    ensures
        made_definite(
            seq![0x9fu8] + concat_all(ps) + seq![0xffu8],
            head_bytes(4, ps.len()) + concat_all(bs),
            depth + 1,
        ),
{
    let p = seq![0x9fu8] + concat_all(ps) + seq![0xffu8];
    assert forall|s: Seq<u8>, q: int| #[trigger] occurs_at(s, q, p) implies definite_item(
        s,
        q,
        depth + 1,
    ) == Some((head_bytes(4, ps.len()) + concat_all(bs), q + p.len())) by {
        assert(p =~= seq![0x9fu8] + (concat_all(ps) + seq![0xffu8]));
        lemma_occurs_split(s, q, seq![0x9fu8], concat_all(ps) + seq![0xffu8]);
        assert(s[q] == s.subrange(q, q + 1)[0]);
        assert(0x9fu8 % 32 == 31 && 0x9fu8 / 32 == 4);
        lemma_until_break_made_definite(s, q + 1, ps, bs, depth);
    }
}

/// An indefinite-length map, `0xbf`, its keys and values one after another,
/// then the "break" `0xff`, is made the definite-length map of its keys and
/// values made definite: for any number of entries, none included.
pub proof fn lemma_indefinite_map_made_definite(ps: Seq<Seq<u8>>, bs: Seq<Seq<u8>>, depth: nat)
    requires
        ps.len() == bs.len(),
        ps.len() % 2 == 0,
        forall|i: int| 0 <= i < ps.len() ==> made_definite(#[trigger] ps[i], bs[i], depth),
    ensures
        made_definite(
            seq![0xbfu8] + concat_all(ps) + seq![0xffu8],
            head_bytes(5, ps.len() / 2) + concat_all(bs),
            depth + 1,
        ),
{
    let p = seq![0xbfu8] + concat_all(ps) + seq![0xffu8];
    assert forall|s: Seq<u8>, q: int| #[trigger] occurs_at(s, q, p) implies definite_item(
        s,
        q,
        depth + 1,
    ) == Some((head_bytes(5, ps.len() / 2) + concat_all(bs), q + p.len())) by {
        assert(p =~= seq![0xbfu8] + (concat_all(ps) + seq![0xffu8]));
        lemma_occurs_split(s, q, seq![0xbfu8], concat_all(ps) + seq![0xffu8]);
        assert(s[q] == s.subrange(q, q + 1)[0]);
        assert(0xbfu8 % 32 == 31 && 0xbfu8 / 32 == 5);
        lemma_until_break_made_definite(s, q + 1, ps, bs, depth);
    }
}

/// The chunks `cs` of an indefinite-length string of major type `major`,
/// each written as a definite-length string.
pub open spec fn string_chunks(major: u8, cs: Seq<Seq<u8>>) -> Seq<u8>
    decreases cs.len(),
{
    if cs.len() == 0 {
        Seq::empty()
    } else {
        head_bytes(major, cs[0].len()) + cs[0] + string_chunks(major, cs.drop_first())
    }
}

proof fn lemma_chunks_joined(s: Seq<u8>, pos: int, major: u8, cs: Seq<Seq<u8>>)
    requires
        major == 2 || major == 3,
        forall|i: int| 0 <= i < cs.len() ==> (#[trigger] cs[i]).len() < 0x1_0000_0000_0000_0000,
        occurs_at(s, pos, string_chunks(major, cs) + seq![0xffu8]),
    ensures
        chunks_content(s, pos, major) == Some(
            (concat_all(cs), pos + string_chunks(major, cs).len() + 1),
        ),
    decreases cs.len(),
{
    if cs.len() == 0 {
        assert(string_chunks(major, cs) + seq![0xffu8] =~= seq![0xffu8]);
        assert(s[pos] == s.subrange(pos, pos + 1)[0]);
    } else {
        let c = cs[0];
        let rest = cs.drop_first();
        let hb = head_bytes(major, c.len());
        assert(string_chunks(major, cs) + seq![0xffu8] =~= hb + (c + (string_chunks(major, rest)
            + seq![0xffu8])));
        lemma_occurs_split(s, pos, hb, c + (string_chunks(major, rest) + seq![0xffu8]));
        lemma_occurs_split(s, pos + hb.len(), c, string_chunks(major, rest) + seq![0xffu8]);
        lemma_head_roundtrip(s, pos, major, c.len());
        lemma_head_bytes_len(major, c.len());
        if s[pos] == 0xff {
            assert(spec_head(s, pos) is None);
        }
        let h = pos + hb.len();
        assert(s.subrange(h, h + c.len()) == c);
        assert forall|i: int| 0 <= i < rest.len() implies (#[trigger] rest[i]).len()
            < 0x1_0000_0000_0000_0000 by {
            assert(rest[i] == cs[i + 1]);
        }
        lemma_chunks_joined(s, h + c.len(), major, rest);
        assert(concat_all(cs) == c + concat_all(rest));
    }
}

/// An indefinite-length byte or text string, its first byte, its chunks
/// each a definite-length string of the same type, then the "break" `0xff`,
/// is made the definite-length string of its chunks joined: for any number
/// of chunks, none included.
pub proof fn lemma_indefinite_string_made_definite(major: u8, cs: Seq<Seq<u8>>, depth: nat)
    requires
        major == 2 || major == 3,
        forall|i: int| 0 <= i < cs.len() ==> (#[trigger] cs[i]).len() < 0x1_0000_0000_0000_0000,
    ensures
        made_definite(
            seq![(major * 32 + 31) as u8] + string_chunks(major, cs) + seq![0xffu8],
            head_bytes(major, concat_all(cs).len()) + concat_all(cs),
            depth,
        ),
{
    let first = (major * 32 + 31) as u8;
    let p = seq![first] + string_chunks(major, cs) + seq![0xffu8];
    assert(first % 32 == 31 && first / 32 == major) by {
        if major == 2 {
            assert(first == 0x5f);
        } else {
            assert(first == 0x7f);
        }
    }
    assert forall|s: Seq<u8>, q: int| #[trigger] occurs_at(s, q, p) implies definite_item(
        s,
        q,
        depth,
    ) == Some((head_bytes(major, concat_all(cs).len()) + concat_all(cs), q + p.len())) by {
        assert(p =~= seq![first] + (string_chunks(major, cs) + seq![0xffu8]));
        lemma_occurs_split(s, q, seq![first], string_chunks(major, cs) + seq![0xffu8]);
        assert(s[q] == s.subrange(q, q + 1)[0]);
        lemma_chunks_joined(s, q + 1, major, cs);
    }
}

/// A one-byte unsigned integer (below 24) is kept as it is.
pub proof fn lemma_small_int_made_definite(v: u8, depth: nat)
    requires
        v < 24,
    ensures
        made_definite(seq![v], seq![v], depth),
{
    assert forall|s: Seq<u8>, q: int| #[trigger] occurs_at(s, q, seq![v]) implies definite_item(
        s,
        q,
        depth,
    ) == Some((seq![v], q + 1)) by {
        assert(s[q] == s.subrange(q, q + 1)[0]);
        assert(s.subrange(q, q + 1) =~= seq![v]);
    }
}

/// A whole input that is one item made definite as `b` has `b` as its
/// definite-length form.
pub proof fn lemma_made_definite_bytes(p: Seq<u8>, b: Seq<u8>)
    requires
        made_definite(p, b, MAX_NESTING as nat),
    ensures
        definite_bytes(p) == Some(b),
{
    assert(p.subrange(0, p.len() as int) =~= p);
    assert(occurs_at(p, 0, p));
}

/// Empty indefinite-length arrays and maps, alone or nested, are made the
/// empty definite ones: `9f ff` is `80`, `bf ff` is `a0`, and `9f bf ff ff`
/// is `81 a0`.
pub proof fn lemma_empty_indefinite_made_definite()
    ensures
        definite_bytes(seq![0x9fu8, 0xffu8]) == Some(seq![0x80u8]),
        definite_bytes(seq![0xbfu8, 0xffu8]) == Some(seq![0xa0u8]),
        definite_bytes(seq![0x9fu8, 0xbfu8, 0xffu8, 0xffu8]) == Some(seq![0x81u8, 0xa0u8]),
{
    let none = Seq::<Seq<u8>>::empty();
    let m = MAX_NESTING as nat;
    assert(concat_all(none) =~= Seq::<u8>::empty());
    lemma_indefinite_array_made_definite(none, none, (m - 1) as nat);
    lemma_indefinite_map_made_definite(none, none, (m - 1) as nat);
    assert(seq![0x9fu8] + concat_all(none) + seq![0xffu8] =~= seq![0x9fu8, 0xffu8]);
    assert(seq![0xbfu8] + concat_all(none) + seq![0xffu8] =~= seq![0xbfu8, 0xffu8]);
    assert(head_bytes(4, 0) =~= seq![0x80u8]);
    assert(head_bytes(5, 0) =~= seq![0xa0u8]);
    assert(head_bytes(4, 0) + concat_all(none) =~= seq![0x80u8]);
    assert(head_bytes(5, 0) + concat_all(none) =~= seq![0xa0u8]);
    lemma_made_definite_bytes(seq![0x9fu8, 0xffu8], seq![0x80u8]);
    lemma_made_definite_bytes(seq![0xbfu8, 0xffu8], seq![0xa0u8]);
    // nested: the empty map inside an array
    lemma_indefinite_map_made_definite(none, none, (m - 2) as nat);
    let inner = seq![seq![0xbfu8, 0xffu8]];
    let binner = seq![seq![0xa0u8]];
    assert(inner[0] =~= seq![0xbfu8] + concat_all(none) + seq![0xffu8]);
    assert(binner[0] =~= head_bytes(5, 0) + concat_all(none));
    assert(made_definite(inner[0], binner[0], (m - 1) as nat));
    lemma_indefinite_array_made_definite(inner, binner, (m - 1) as nat);
    assert(concat_all(inner.drop_first()) =~= Seq::<u8>::empty());
    assert(concat_all(inner) =~= seq![0xbfu8, 0xffu8]);
    assert(concat_all(binner.drop_first()) =~= Seq::<u8>::empty());
    assert(concat_all(binner) =~= seq![0xa0u8]);
    assert(head_bytes(4, 1) =~= seq![0x81u8]);
    assert(seq![0x9fu8] + concat_all(inner) + seq![0xffu8] =~= seq![0x9fu8, 0xbfu8, 0xffu8, 0xffu8]);
    assert(head_bytes(4, 1) + concat_all(binner) =~= seq![0x81u8, 0xa0u8]);
    lemma_made_definite_bytes(seq![0x9fu8, 0xbfu8, 0xffu8, 0xffu8], seq![0x81u8, 0xa0u8]);
}

pub proof fn lemma_chunks_range(s: Seq<u8>, pos: int, major: u8)
    ensures
        chunks_content(s, pos, major) matches Some((c, e)) ==> pos < e <= s.len() && c.len()
            < e - pos,
    decreases s.len() - pos,
{
    if 0 <= pos < s.len() && s[pos] != 0xff {
        if let Some((m, ai, arg, h)) = spec_head(s, pos) {
            if m == major && pos < h && h + arg <= s.len() {
                lemma_chunks_range(s, h + arg, major);
            }
        }
    }
}

pub proof fn lemma_definite_item_range(s: Seq<u8>, pos: int, depth: nat)
    ensures
        definite_item(s, pos, depth) matches Some((b, e)) ==> pos < e <= s.len(),
    decreases s.len() - pos, 0int,
{
    if 0 <= pos < s.len() {
        if s[pos] % 32 == 31 {
            let major = s[pos] / 32;
            lemma_chunks_range(s, pos + 1, major);
            if depth > 0 {
                lemma_until_break_range(s, pos + 1, (depth - 1) as nat);
            }
        } else if let Some((major, ai, arg, h)) = spec_head(s, pos) {
            if pos < h <= s.len() && depth > 0 {
                if major == 4 || major == 5 {
                    lemma_definite_items_range(
                        s,
                        h,
                        if major == 4 { arg } else { 2 * arg },
                        (depth - 1) as nat,
                    );
                } else if major == 6 {
                    lemma_definite_item_range(s, h, (depth - 1) as nat);
                }
            }
            lemma_item_end_range(s, pos, 0);
        }
    }
}

pub proof fn lemma_definite_items_range(s: Seq<u8>, pos: int, count: nat, depth: nat)
    ensures
        definite_items(s, pos, count, depth) matches Some((b, e)) ==> pos <= e && (count > 0
            ==> e <= s.len()),
    decreases s.len() - pos, 1int,
{
    if count > 0 && 0 <= pos < s.len() {
        lemma_definite_item_range(s, pos, depth);
        if let Some((b, e)) = definite_item(s, pos, depth) {
            if pos < e <= s.len() {
                lemma_definite_items_range(s, e, (count - 1) as nat, depth);
            }
        }
    }
}

pub proof fn lemma_until_break_range(s: Seq<u8>, pos: int, depth: nat)
    ensures
        definite_until_break(s, pos, depth) matches Some((b, n, e)) ==> pos < e <= s.len() && n
            < e - pos,
    decreases s.len() - pos, 1int,
{
    if 0 <= pos < s.len() && s[pos] != 0xff {
        lemma_definite_item_range(s, pos, depth);
        if let Some((b, e)) = definite_item(s, pos, depth) {
            if pos < e <= s.len() {
                lemma_until_break_range(s, e, depth);
            }
        }
    }
}

/// Appends the contents of the chunks of an indefinite-length string.
fn push_chunks(s: &[u8], pos: usize, major: u8, out: &mut Vec<u8>) -> (r: Option<usize>)
    ensures
        match chunks_content(s@, pos as int, major) {
            Some((c, e)) => r == Some(e as usize) && final(out)@ == old(out)@ + c,
            None => r is None,
        },
    decreases s@.len() - pos,
{
    proof {
        lemma_chunks_range(s@, pos as int, major);
    }
    if pos >= s.len() {
        return None;
    }
    if s[pos] == 0xff {
        assert(out@ =~= old(out)@ + Seq::<u8>::empty());
        return Some(pos + 1);
    }
    let (m, _ai, arg, h) = match parse_head(s, pos) {
        Some(x) => x,
        None => return None,
    };
    if !(m == major && pos < h && h <= s.len() && arg <= (s.len() - h) as u64) {
        return None;
    }
    let end = h + arg as usize;
    push_bytes(out, slice_range(s, h, end));
    let r = push_chunks(s, end, major, out);
    proof {
        if let Some((c, e)) = chunks_content(s@, end as int, major) {
            assert(out@ =~= old(out)@ + (s@.subrange(h as int, end as int) + c));
        }
    }
    r
}

/// The bytes of `s` from `start` up to `end`.
pub(crate) fn slice_range(s: &[u8], start: usize, end: usize) -> (r: &[u8])
    requires
        start <= end <= s@.len(),
    ensures
        r@ == s@.subrange(start as int, end as int),
{
    vstd::slice::slice_subrange(s, start, end)
}

/// Appends the item at `pos` with every indefinite length made definite.
#[verifier::spinoff_prover]
#[verifier::rlimit(60)]
fn push_definite_item(s: &[u8], pos: usize, depth: u32, out: &mut Vec<u8>) -> (r: Option<usize>)
    ensures
        match definite_item(s@, pos as int, depth as nat) {
            Some((b, e)) => r == Some(e as usize) && final(out)@ == old(out)@ + b,
            None => r is None,
        },
    decreases s@.len() - pos, 0int,
{
    proof {
        lemma_definite_item_range(s@, pos as int, depth as nat);
    }
    if pos >= s.len() {
        return None;
    }
    let first = s[pos];
    if first % 32 == 31 {
        let major = first / 32;
        proof {
            lemma_chunks_range(s@, pos + 1, major);
            if depth > 0 {
                lemma_until_break_range(s@, pos + 1, (depth - 1) as nat);
            }
        }
        if major == 2 || major == 3 {
            let mut content: Vec<u8> = Vec::new();
            let e = match push_chunks(s, pos + 1, major, &mut content) {
                Some(e) => e,
                None => return None,
            };
            let ghost before = out@;
            encode_head(out, major, content.len() as u64);
            push_bytes(out, content.as_slice());
            proof {
                assert(content@ =~= Seq::<u8>::empty() + content@);
                assert(out@ =~= before + (head_bytes(major, content@.len()) + content@));
            }
            return Some(e);
        } else if (major == 4 || major == 5) && depth > 0 {
            let mut items: Vec<u8> = Vec::new();
            let (e, n) = match push_until_break(s, pos + 1, depth - 1, &mut items) {
                Some(x) => x,
                None => return None,
            };
            assert(items@ =~= Seq::<u8>::empty() + items@);
            let ghost before = out@;
            if major == 4 {
                encode_head(out, 4, n);
            } else if n % 2 == 0 {
                encode_head(out, 5, n / 2);
            } else {
                return None;
            }
            let ghost mid = out@;
            push_bytes(out, items.as_slice());
            proof {
                assert(out@ =~= before + (mid.subrange(before.len() as int, mid.len() as int)
                    + items@));
            }
            return Some(e);
        } else {
            return None;
        }
    }
    let (major, _ai, arg, h) = match parse_head(s, pos) {
        Some(x) => x,
        None => return None,
    };
    if !(pos < h && h <= s.len()) {
        return None;
    }
    if major == 4 || major == 5 {
        if depth == 0 {
            return None;
        }
        if major == 5 && arg > 0x7fff_ffff_ffff_ffff {
            // more entries than any input holds
            proof {
                lemma_definite_items_bound(s@, h as int, 2 * arg as nat, (depth - 1) as nat);
            }
            return None;
        }
        let count: u64 = if major == 4 { arg } else { 2 * arg };
        proof {
            lemma_definite_items_range(s@, h as int, count as nat, (depth - 1) as nat);
        }
        let mut items: Vec<u8> = Vec::new();
        let e = match push_definite_items(s, h, count, depth - 1, &mut items) {
            Some(e) => e,
            None => return None,
        };
        push_bytes(out, slice_range(s, pos, h));
        push_bytes(out, items.as_slice());
        proof {
            assert(items@ =~= Seq::<u8>::empty() + items@);
            assert(out@ =~= old(out)@ + (s@.subrange(pos as int, h as int) + items@));
        }
        Some(e)
    } else if major == 6 {
        if depth == 0 {
            return None;
        }
        let mut inner: Vec<u8> = Vec::new();
        proof {
            lemma_definite_item_range(s@, h as int, (depth - 1) as nat);
        }
        let e = match push_definite_item(s, h, depth - 1, &mut inner) {
            Some(e) => e,
            None => return None,
        };
        if !(h < e) {
            return None;
        }
        push_bytes(out, slice_range(s, pos, h));
        push_bytes(out, inner.as_slice());
        proof {
            assert(inner@ =~= Seq::<u8>::empty() + inner@);
            assert(out@ =~= old(out)@ + (s@.subrange(pos as int, h as int) + inner@));
        }
        Some(e)
    } else {
        match skip_item(s, pos, 0) {
            Some(e) => {
                proof {
                    lemma_item_end_range(s@, pos as int, 0);
                        }
                push_bytes(out, slice_range(s, pos, e));
                Some(e)
            },
            None => None,
        }
    }
}

/// Where `count` items are made definite, the input holds at least that many
/// bytes.
proof fn lemma_definite_items_bound(s: Seq<u8>, pos: int, count: nat, depth: nat)
    ensures
        definite_items(s, pos, count, depth) is Some && count > 0 ==> pos + count <= s.len(),
    decreases count,
{
    if count > 0 {
        if let Some((b, e)) = definite_item(s, pos, depth) {
            if 0 <= pos < s.len() && pos < e <= s.len() {
                lemma_definite_items_bound(s, e, (count - 1) as nat, depth);
            }
        }
    }
}

/// Appends `count` consecutive items from `pos`, each made definite.
fn push_definite_items(s: &[u8], pos: usize, count: u64, depth: u32, out: &mut Vec<u8>) -> (r:
    Option<usize>)
    ensures
        match definite_items(s@, pos as int, count as nat, depth as nat) {
            Some((b, e)) => r == Some(e as usize) && final(out)@ == old(out)@ + b,
            None => r is None,
        },
    decreases s@.len() - pos, 1int,
{
    proof {
        lemma_definite_items_range(s@, pos as int, count as nat, depth as nat);
        lemma_definite_item_range(s@, pos as int, depth as nat);
    }
    if count == 0 {
        assert(out@ =~= old(out)@ + Seq::<u8>::empty());
        return Some(pos);
    }
    if pos >= s.len() {
        return None;
    }
    let e = match push_definite_item(s, pos, depth, out) {
        Some(e) => e,
        None => return None,
    };
    if !(pos < e && e <= s.len()) {
        return None;
    }
    let ghost mid = out@;
    let r = push_definite_items(s, e, count - 1, depth, out);
    proof {
        lemma_definite_items_range(s@, e as int, (count - 1) as nat, depth as nat);
        if let Some((b, f)) = definite_item(s@, pos as int, depth as nat) {
            if let Some((rest, g)) = definite_items(s@, e as int, (count - 1) as nat, depth as nat) {
                assert(out@ =~= old(out)@ + (b + rest));
            }
        }
    }
    r
}

/// Appends the items from `pos` up to a "break", each made definite, and
/// gives the position past the break and their number.
fn push_until_break(s: &[u8], pos: usize, depth: u32, out: &mut Vec<u8>) -> (r: Option<
    (usize, u64),
>)
    ensures
        match definite_until_break(s@, pos as int, depth as nat) {
            Some((b, n, e)) => r == Some((e as usize, n as u64)) && final(out)@ == old(out)@ + b,
            None => r is None,
        },
    decreases s@.len() - pos, 1int,
{
    proof {
        lemma_until_break_range(s@, pos as int, depth as nat);
        lemma_definite_item_range(s@, pos as int, depth as nat);
    }
    if pos >= s.len() {
        return None;
    }
    if s[pos] == 0xff {
        assert(out@ =~= old(out)@ + Seq::<u8>::empty());
        return Some((pos + 1, 0));
    }
    let e = match push_definite_item(s, pos, depth, out) {
        Some(e) => e,
        None => return None,
    };
    if !(pos < e && e <= s.len()) {
        return None;
    }
    let r = push_until_break(s, e, depth, out);
    proof {
        lemma_until_break_range(s@, e as int, depth as nat);
        if let Some((b, f)) = definite_item(s@, pos as int, depth as nat) {
            if let Some((rest, n, g)) = definite_until_break(s@, e as int, depth as nat) {
                assert(out@ =~= old(out)@ + (b + rest));
            }
        }
    }
    match r {
        Some((f, n)) => Some((f, n + 1)),
        None => None,
    }
}

/// The input with every indefinite length made definite, where the whole
/// input is one item that is well formed with them; `None` otherwise.
pub fn definite_lengths(data: &[u8]) -> (r: Option<Vec<u8>>)
    ensures
        match definite_bytes(data@) {
            Some(b) => r matches Some(v) && v@ == b,
            None => r is None,
        },
{
    let mut out: Vec<u8> = Vec::new();
    proof {
        lemma_definite_item_range(data@, 0, MAX_NESTING as nat);
    }
    match push_definite_item(data, 0, MAX_NESTING, &mut out) {
        Some(e) => {
            if e == data.len() {
                assert(out@ =~= Seq::<u8>::empty() + out@);
                Some(out)
            } else {
                None
            }
        },
        None => None,
    }
}


// ---------------------------------------------------------------------------
// Structs
// ---------------------------------------------------------------------------

/// The message for a payload that is not a map.
pub open spec fn not_map_msg() -> Seq<char> {
    "invalid type: expected a map"@
}

/// The field table of the struct encoded as a map at `pos`, with one slot
/// per name of `names`.
pub open spec fn struct_fields(s: Seq<u8>, pos: int, names: Seq<Seq<char>>) -> Result<
    Seq<Option<(int, int)>>,
    Seq<char>,
> {
    match spec_head(s, pos) {
        Some((major, ai, n, h)) => if major == 5 {
            match fields_from(s, h, n, names, no_fields(names.len()), MAX_NESTING as nat) {
                Ok((acc, e)) => Ok(acc),
                Err(m) => Err(m),
            }
        } else {
            Err(not_map_msg())
        },
        None => Err(not_map_msg()),
    }
}

/// Reads the field table of the struct encoded as a map at `pos`.
pub fn read_struct(s: &[u8], pos: usize, names: &[&str]) -> (r: Result<
    Vec<Option<(usize, usize)>>,
    String,
>)
    ensures
        match r {
            Ok(acc) => struct_fields(s@, pos as int, name_views(names@)) == Ok::<_, Seq<char>>(
                spans_view(acc@),
            ) && acc@.len() == names@.len(),
            Err(m) => struct_fields(s@, pos as int, name_views(names@)) == Err::<
                Seq<Option<(int, int)>>,
                _,
            >(m@),
        },
{
    match parse_head(s, pos) {
        Some((major, _ai, n, h)) => {
            if major != 5 {
                return Err(String::from_str("invalid type: expected a map"));
            }
            match collect_fields(s, h, n, names, MAX_NESTING) {
                Ok((acc, _e)) => {
                    proof {
                        lemma_fields_len(
                            s@,
                            h as int,
                            n as nat,
                            name_views(names@),
                            no_fields(names@.len()),
                            MAX_NESTING as nat,
                        );
                    }
                    Ok(acc)
                },
                Err(m) => Err(m),
            }
        },
        None => Err(String::from_str("invalid type: expected a map")),
    }
}

pub proof fn lemma_fields_len(
    s: Seq<u8>,
    pos: int,
    n: nat,
    names: Seq<Seq<char>>,
    acc: Seq<Option<(int, int)>>,
    depth: nat,
)
    ensures
        fields_from(s, pos, n, names, acc, depth) matches Ok((res, e)) ==> res.len() == acc.len(),
    decreases n,
{
    if n > 0 {
        if let Some(ke) = item_end(s, pos, depth) {
            if let Some(ve) = item_end(s, ke, depth) {
                match field_key(s, pos, names) {
                    FieldKey::Invalid => {},
                    FieldKey::Ignored => {
                        lemma_fields_len(s, ve, (n - 1) as nat, names, acc, depth);
                    },
                    FieldKey::Field(i) => {
                        if 0 <= i < acc.len() && acc[i as int] is None {
                            lemma_fields_len(
                                s,
                                ve,
                                (n - 1) as nat,
                                names,
                                acc.update(i as int, Some((ke, ve))),
                                depth,
                            );
                        }
                    },
                }
            }
        }
    }
}


/// An encoded struct reads back into a field table that holds, for each
/// entry's key, the span of that entry's value, and nothing else.
pub proof fn lemma_struct_encoded(
    s: Seq<u8>,
    pos: int,
    entries: Seq<(nat, Seq<u8>)>,
    names: Seq<Seq<char>>,
)
    requires
        occurs_at(s, pos, map_bytes(entries)),
        entries.len() < 0x1_0000_0000_0000_0000,
        names.len() <= usize::MAX,
        keys_ok(entries, names.len()),
        forall|i: int|
            0 <= i < entries.len() ==> item_everywhere(
                s,
                (#[trigger] entries[i]).1,
                MAX_NESTING as nat,
            ),
    ensures
        struct_fields(s, pos, names) matches Ok(acc) && {
            &&& acc.len() == names.len()
            &&& forall|i: int|
                0 <= i < entries.len() ==> (acc[(#[trigger] entries[i]).0 as int] matches Some(
                    (a, b),
                ) && occurs_at(s, a, entries[i].1) && b == a + entries[i].1.len())
            &&& forall|k: int|
                0 <= k < names.len() && (forall|i: int|
                    0 <= i < entries.len() ==> (#[trigger] entries[i]).0 != k) ==> acc[k] is None
        },
{
    let hb = head_bytes(5, entries.len());
    lemma_occurs_split(s, pos, hb, entries_bytes(entries));
    lemma_head_roundtrip(s, pos, 5, entries.len());
    let acc0 = no_fields(names.len());
    assert forall|i: int| 0 <= i < entries.len() implies acc0[(#[trigger] entries[i]).0 as int] is None by {
    }
    lemma_fields_encoded(s, pos + hb.len(), entries, names, acc0, MAX_NESTING as nat);
}

/// An encoded array of texts is a well-formed item wherever it occurs, one
/// level up.
pub proof fn lemma_text_array_everywhere(s: Seq<u8>, ts: Seq<Seq<char>>, depth: nat)
    requires
        texts_fit(ts),
        ts.len() < 0x1_0000_0000_0000_0000,
    ensures
        item_everywhere(s, array_bytes(text_items(ts)), depth + 1),
{
    lemma_head_bytes_len(4, ts.len());
    assert forall|q: int| #[trigger] occurs_at(s, q, array_bytes(text_items(ts))) implies item_end(
        s,
        q,
        depth + 1,
    ) == Some(q + array_bytes(text_items(ts)).len()) by {
        lemma_text_array(s, q, ts, depth);
    }
}

} // verus!
