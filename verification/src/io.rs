//! Turning values into bytes and back, for saving and loading a graph.
use crate::scalar::Scalar;
use vstd::prelude::*;

pub mod decimal;
pub mod frames;
use vstd::utf8::{
    decode_utf8, decode_utf8_encode_utf8, encode_utf8, encode_utf8_decode_utf8,
    encode_utf8_valid_utf8, valid_utf8,
};

verus! {

/// The `width` bytes that stand for `v`, most significant byte first.
pub open spec fn be_bytes(v: nat, width: nat) -> Seq<u8>
    decreases width,
{
    if width == 0 {
        Seq::empty()
    } else {
        be_bytes(v / 256, (width - 1) as nat).push((v % 256) as u8)
    }
}

/// The number that `bytes` stand for, most significant byte first.
pub open spec fn be_value(bytes: Seq<u8>) -> nat
    decreases bytes.len(),
{
    if bytes.len() == 0 {
        0
    } else {
        be_value(bytes.drop_last()) * 256 + bytes.last() as nat
    }
}

/// How many numbers `width` bytes can stand for.
pub open spec fn span(width: nat) -> nat
    decreases width,
{
    if width == 0 {
        1
    } else {
        256 * span((width - 1) as nat)
    }
}

/// The spans of the widths of the machine integers.
pub proof fn lemma_spans()
    ensures
        span(1) == 0x100,
        span(2) == 0x1_0000,
        span(4) == 0x1_0000_0000,
        span(8) == 0x1_0000_0000_0000_0000,
        span(16) == 0x1_0000_0000_0000_0000_0000_0000_0000_0000,
{
    assert(span(0) == 1);
    assert(span(1) == 256 * span(0));
    assert(span(2) == 256 * span(1));
    assert(span(3) == 256 * span(2));
    assert(span(4) == 256 * span(3));
    assert(span(5) == 256 * span(4));
    assert(span(6) == 256 * span(5));
    assert(span(7) == 256 * span(6));
    assert(span(8) == 256 * span(7));
    assert(span(9) == 256 * span(8));
    assert(span(10) == 256 * span(9));
    assert(span(11) == 256 * span(10));
    assert(span(12) == 256 * span(11));
    assert(span(13) == 256 * span(12));
    assert(span(14) == 256 * span(13));
    assert(span(15) == 256 * span(14));
    assert(span(16) == 256 * span(15));
}

/// A wider span is no smaller.
pub proof fn lemma_span_grows(a: nat, b: nat)
    requires
        a <= b,
    ensures
        span(a) <= span(b),
        1 <= span(a),
    decreases b,
{
    if a < b {
        lemma_span_grows(a, (b - 1) as nat);
    } else if a > 0 {
        lemma_span_grows((a - 1) as nat, (a - 1) as nat);
    }
}

/// `width` bytes are `width` bytes.
pub proof fn lemma_be_len(v: nat, width: nat)
    ensures
        be_bytes(v, width).len() == width,
    decreases width,
{
    if width > 0 {
        lemma_be_len(v / 256, (width - 1) as nat);
    }
}

/// Bytes stand for a number within their span.
pub proof fn lemma_be_bound(bytes: Seq<u8>)
    ensures
        be_value(bytes) < span(bytes.len()),
    decreases bytes.len(),
{
    if bytes.len() > 0 {
        lemma_be_bound(bytes.drop_last());
    }
}

/// The bytes of a number within the span stand for the number.
pub proof fn lemma_be_round(v: nat, width: nat)
    requires
        v < span(width),
    ensures
        be_value(be_bytes(v, width)) == v,
    decreases width,
{
    if width > 0 {
        let rest = be_bytes(v / 256, (width - 1) as nat);
        let all = be_bytes(v, width);
        assert(all.drop_last() =~= rest);
        lemma_be_round(v / 256, (width - 1) as nat);
    }
}

/// The number that bytes stand for has these bytes.
pub proof fn lemma_be_back(bytes: Seq<u8>)
    ensures
        be_bytes(be_value(bytes), bytes.len()) == bytes,
    decreases bytes.len(),
{
    if bytes.len() > 0 {
        let v = be_value(bytes);
        let head = be_value(bytes.drop_last());
        lemma_be_back(bytes.drop_last());
        assert(v / 256 == head);
        assert(v % 256 == bytes.last() as nat);
        assert(be_bytes(v, bytes.len()) =~= bytes);
    } else {
        assert(be_bytes(0, 0) =~= bytes);
    }
}

/// Appends the `width` bytes that stand for `v`, most significant byte first.
pub fn put_be(v: u128, width: usize, out: &mut Vec<u8>)
    ensures
        final(out)@ == old(out)@ + be_bytes(v as nat, width as nat),
    decreases width,
{
    if width > 0 {
        put_be(v / 256, width - 1, out);
        out.push((v % 256) as u8);
        proof {
            assert(out@ =~= old(out)@ + be_bytes(v as nat, width as nat));
        }
    } else {
        proof {
            assert(out@ =~= old(out)@ + be_bytes(v as nat, width as nat));
        }
    }
}

/// The number that the `width` bytes of `a` from `start` on stand for.
pub fn get_be(a: &[u8], start: usize, width: usize) -> (v: u128)
    requires
        width <= 16,
        start + width <= a@.len(),
    ensures
        v == be_value(a@.subrange(start as int, start + width)),
{
    let mut v: u128 = 0;
    let mut i: usize = 0;
    let n = a.len();
    proof {
        lemma_spans();
    }
    while i < width
        invariant
            0 <= i <= width <= 16,
            start + width <= n,
            n == a@.len(),
            v == be_value(a@.subrange(start as int, start + i)),
            span(16) == 0x1_0000_0000_0000_0000_0000_0000_0000_0000,
        decreases width - i,
    {
        proof {
            let before = a@.subrange(start as int, start + i);
            let after = a@.subrange(start as int, start + i + 1);
            assert(after.drop_last() =~= before);
            lemma_be_bound(before);
            lemma_span_grows(i as nat, 15);
            assert(span(16) == 256 * span(15));
        }
        v = v * 256 + a[start + i] as u128;
        i = i + 1;
    }
    v
}

/// A value that can be turned into bytes and back.
///
/// Bytes start with the bytes of at most one value, up to what its bytes
/// are: `try_from_bit` finds it, and `from_bit` reads it where there is one.
pub trait BitIO: Sized {
    /// The bytes that stand for this value.
    spec fn bits(&self) -> Seq<u8>;

    /// The bytes that stand for this value.
    fn to_bit(&self) -> (r: Vec<u8>)
        ensures
            r@ == self.bits(),
    ;

    /// The value whose bytes `a` starts with; nothing where `a` starts with
    /// the bytes of no value.
    fn try_from_bit(a: &[u8]) -> (r: Option<Self>)
        ensures
            r matches Some(v) ==> starts(a@, v.bits()),
            forall|x: Self|
                starts(a@, #[trigger] x.bits()) ==> (r matches Some(v) && v.bits() == x.bits()),
    ;

    /// The value whose bytes `a` starts with.  There must be one.
    fn from_bit(a: &[u8]) -> (r: Self)
        requires
            exists|x: Self| starts(a@, #[trigger] x.bits()),
        ensures
            starts(a@, r.bits()),
            forall|x: Self| starts(a@, #[trigger] x.bits()) ==> r.bits() == x.bits(),
    {
        match Self::try_from_bit(a) {
            Some(v) => v,
            None => vstd::pervasive::unreached(),
        }
    }
}

impl BitIO for u8 {
    open spec fn bits(&self) -> Seq<u8> {
        be_bytes(*self as nat, 1)
    }

    fn to_bit(&self) -> (r: Vec<u8>) {
        let mut out: Vec<u8> = Vec::new();
        put_be(*self as u128, 1, &mut out);
        out
    }

    fn try_from_bit(a: &[u8]) -> (r: Option<Self>) {
        if a.len() < 1 {
            proof {
                assert forall|x: Self| starts(a@, #[trigger] x.bits()) implies false by {
                    lemma_be_len(x as nat, 1);
                }
            }
            None
        } else {
            let v = get_be(a, 0, 1);
            proof {
                let head = a@.subrange(0, 1);
                lemma_spans();
                lemma_be_bound(head);
                lemma_be_back(head);
                lemma_be_len(v as nat, 1);
                assert forall|x: Self| starts(a@, #[trigger] x.bits()) implies head == x.bits() by {
                    lemma_be_len(x as nat, 1);
                }
            }
            Some(v as u8)
        }
    }
}

impl BitIO for u16 {
    open spec fn bits(&self) -> Seq<u8> {
        be_bytes(*self as nat, 2)
    }

    fn to_bit(&self) -> (r: Vec<u8>) {
        let mut out: Vec<u8> = Vec::new();
        put_be(*self as u128, 2, &mut out);
        out
    }

    fn try_from_bit(a: &[u8]) -> (r: Option<Self>) {
        if a.len() < 2 {
            proof {
                assert forall|x: Self| starts(a@, #[trigger] x.bits()) implies false by {
                    lemma_be_len(x as nat, 2);
                }
            }
            None
        } else {
            let v = get_be(a, 0, 2);
            proof {
                let head = a@.subrange(0, 2);
                lemma_spans();
                lemma_be_bound(head);
                lemma_be_back(head);
                lemma_be_len(v as nat, 2);
                assert forall|x: Self| starts(a@, #[trigger] x.bits()) implies head == x.bits() by {
                    lemma_be_len(x as nat, 2);
                }
            }
            Some(v as u16)
        }
    }
}

impl BitIO for u32 {
    open spec fn bits(&self) -> Seq<u8> {
        be_bytes(*self as nat, 4)
    }

    fn to_bit(&self) -> (r: Vec<u8>) {
        let mut out: Vec<u8> = Vec::new();
        put_be(*self as u128, 4, &mut out);
        out
    }

    fn try_from_bit(a: &[u8]) -> (r: Option<Self>) {
        if a.len() < 4 {
            proof {
                assert forall|x: Self| starts(a@, #[trigger] x.bits()) implies false by {
                    lemma_be_len(x as nat, 4);
                }
            }
            None
        } else {
            let v = get_be(a, 0, 4);
            proof {
                let head = a@.subrange(0, 4);
                lemma_spans();
                lemma_be_bound(head);
                lemma_be_back(head);
                lemma_be_len(v as nat, 4);
                assert forall|x: Self| starts(a@, #[trigger] x.bits()) implies head == x.bits() by {
                    lemma_be_len(x as nat, 4);
                }
            }
            Some(v as u32)
        }
    }
}

impl BitIO for u64 {
    open spec fn bits(&self) -> Seq<u8> {
        be_bytes(*self as nat, 8)
    }

    fn to_bit(&self) -> (r: Vec<u8>) {
        let mut out: Vec<u8> = Vec::new();
        put_be(*self as u128, 8, &mut out);
        out
    }

    fn try_from_bit(a: &[u8]) -> (r: Option<Self>) {
        if a.len() < 8 {
            proof {
                assert forall|x: Self| starts(a@, #[trigger] x.bits()) implies false by {
                    lemma_be_len(x as nat, 8);
                }
            }
            None
        } else {
            let v = get_be(a, 0, 8);
            proof {
                let head = a@.subrange(0, 8);
                lemma_spans();
                lemma_be_bound(head);
                lemma_be_back(head);
                lemma_be_len(v as nat, 8);
                assert forall|x: Self| starts(a@, #[trigger] x.bits()) implies head == x.bits() by {
                    lemma_be_len(x as nat, 8);
                }
            }
            Some(v as u64)
        }
    }
}

impl BitIO for u128 {
    open spec fn bits(&self) -> Seq<u8> {
        be_bytes(*self as nat, 16)
    }

    fn to_bit(&self) -> (r: Vec<u8>) {
        let mut out: Vec<u8> = Vec::new();
        put_be(*self as u128, 16, &mut out);
        out
    }

    fn try_from_bit(a: &[u8]) -> (r: Option<Self>) {
        if a.len() < 16 {
            proof {
                assert forall|x: Self| starts(a@, #[trigger] x.bits()) implies false by {
                    lemma_be_len(x as nat, 16);
                }
            }
            None
        } else {
            let v = get_be(a, 0, 16);
            proof {
                let head = a@.subrange(0, 16);
                lemma_spans();
                lemma_be_bound(head);
                lemma_be_back(head);
                lemma_be_len(v as nat, 16);
                assert forall|x: Self| starts(a@, #[trigger] x.bits()) implies head == x.bits() by {
                    lemma_be_len(x as nat, 16);
                }
            }
            Some(v)
        }
    }
}

impl BitIO for i8 {
    open spec fn bits(&self) -> Seq<u8> {
        be_bytes((*self as u8) as nat, 1)
    }

    fn to_bit(&self) -> (r: Vec<u8>) {
        let mut out: Vec<u8> = Vec::new();
        put_be((*self as u8) as u128, 1, &mut out);
        out
    }

    fn try_from_bit(a: &[u8]) -> (r: Option<Self>) {
        if a.len() < 1 {
            proof {
                assert forall|x: Self| starts(a@, #[trigger] x.bits()) implies false by {
                    lemma_be_len((x as u8) as nat, 1);
                }
            }
            None
        } else {
            let v = get_be(a, 0, 1);
            proof {
                let head = a@.subrange(0, 1);
                lemma_spans();
                lemma_be_bound(head);
                lemma_be_back(head);
                lemma_be_len(v as nat, 1);
                assert forall|x: Self| starts(a@, #[trigger] x.bits()) implies head == x.bits() by {
                    lemma_be_len((x as u8) as nat, 1);
                }
            }
            let w: u8 = v as u8;
            let r = w as i8;
            proof {
                assert(r as u8 == w) by (bit_vector)
                    requires
                        r == w as i8,
                ;
            }
            Some(r)
        }
    }
}

impl BitIO for i16 {
    open spec fn bits(&self) -> Seq<u8> {
        be_bytes((*self as u16) as nat, 2)
    }

    fn to_bit(&self) -> (r: Vec<u8>) {
        let mut out: Vec<u8> = Vec::new();
        put_be((*self as u16) as u128, 2, &mut out);
        out
    }

    fn try_from_bit(a: &[u8]) -> (r: Option<Self>) {
        if a.len() < 2 {
            proof {
                assert forall|x: Self| starts(a@, #[trigger] x.bits()) implies false by {
                    lemma_be_len((x as u16) as nat, 2);
                }
            }
            None
        } else {
            let v = get_be(a, 0, 2);
            proof {
                let head = a@.subrange(0, 2);
                lemma_spans();
                lemma_be_bound(head);
                lemma_be_back(head);
                lemma_be_len(v as nat, 2);
                assert forall|x: Self| starts(a@, #[trigger] x.bits()) implies head == x.bits() by {
                    lemma_be_len((x as u16) as nat, 2);
                }
            }
            let w: u16 = v as u16;
            let r = w as i16;
            proof {
                assert(r as u16 == w) by (bit_vector)
                    requires
                        r == w as i16,
                ;
            }
            Some(r)
        }
    }
}

impl BitIO for i32 {
    open spec fn bits(&self) -> Seq<u8> {
        be_bytes((*self as u32) as nat, 4)
    }

    fn to_bit(&self) -> (r: Vec<u8>) {
        let mut out: Vec<u8> = Vec::new();
        put_be((*self as u32) as u128, 4, &mut out);
        out
    }

    fn try_from_bit(a: &[u8]) -> (r: Option<Self>) {
        if a.len() < 4 {
            proof {
                assert forall|x: Self| starts(a@, #[trigger] x.bits()) implies false by {
                    lemma_be_len((x as u32) as nat, 4);
                }
            }
            None
        } else {
            let v = get_be(a, 0, 4);
            proof {
                let head = a@.subrange(0, 4);
                lemma_spans();
                lemma_be_bound(head);
                lemma_be_back(head);
                lemma_be_len(v as nat, 4);
                assert forall|x: Self| starts(a@, #[trigger] x.bits()) implies head == x.bits() by {
                    lemma_be_len((x as u32) as nat, 4);
                }
            }
            let w: u32 = v as u32;
            let r = w as i32;
            proof {
                assert(r as u32 == w) by (bit_vector)
                    requires
                        r == w as i32,
                ;
            }
            Some(r)
        }
    }
}

impl BitIO for i64 {
    open spec fn bits(&self) -> Seq<u8> {
        be_bytes((*self as u64) as nat, 8)
    }

    fn to_bit(&self) -> (r: Vec<u8>) {
        let mut out: Vec<u8> = Vec::new();
        put_be((*self as u64) as u128, 8, &mut out);
        out
    }

    fn try_from_bit(a: &[u8]) -> (r: Option<Self>) {
        if a.len() < 8 {
            proof {
                assert forall|x: Self| starts(a@, #[trigger] x.bits()) implies false by {
                    lemma_be_len((x as u64) as nat, 8);
                }
            }
            None
        } else {
            let v = get_be(a, 0, 8);
            proof {
                let head = a@.subrange(0, 8);
                lemma_spans();
                lemma_be_bound(head);
                lemma_be_back(head);
                lemma_be_len(v as nat, 8);
                assert forall|x: Self| starts(a@, #[trigger] x.bits()) implies head == x.bits() by {
                    lemma_be_len((x as u64) as nat, 8);
                }
            }
            let w: u64 = v as u64;
            let r = w as i64;
            proof {
                assert(r as u64 == w) by (bit_vector)
                    requires
                        r == w as i64,
                ;
            }
            Some(r)
        }
    }
}

impl BitIO for i128 {
    open spec fn bits(&self) -> Seq<u8> {
        be_bytes((*self as u128) as nat, 16)
    }

    fn to_bit(&self) -> (r: Vec<u8>) {
        let mut out: Vec<u8> = Vec::new();
        put_be((*self as u128) as u128, 16, &mut out);
        out
    }

    fn try_from_bit(a: &[u8]) -> (r: Option<Self>) {
        if a.len() < 16 {
            proof {
                assert forall|x: Self| starts(a@, #[trigger] x.bits()) implies false by {
                    lemma_be_len((x as u128) as nat, 16);
                }
            }
            None
        } else {
            let v = get_be(a, 0, 16);
            proof {
                let head = a@.subrange(0, 16);
                lemma_spans();
                lemma_be_bound(head);
                lemma_be_back(head);
                lemma_be_len(v as nat, 16);
                assert forall|x: Self| starts(a@, #[trigger] x.bits()) implies head == x.bits() by {
                    lemma_be_len((x as u128) as nat, 16);
                }
            }
            let w: u128 = v;
            let r = w as i128;
            proof {
                assert(r as u128 == w) by (bit_vector)
                    requires
                        r == w as i128,
                ;
            }
            Some(r)
        }
    }
}

/// A `usize` is written as eight bytes, whatever the machine.
impl BitIO for usize {
    open spec fn bits(&self) -> Seq<u8> {
        be_bytes(*self as nat, 8)
    }

    fn to_bit(&self) -> (r: Vec<u8>) {
        let mut out: Vec<u8> = Vec::new();
        put_be(*self as u128, 8, &mut out);
        out
    }

    fn try_from_bit(a: &[u8]) -> (r: Option<Self>) {
        if a.len() < 8 {
            proof {
                assert forall|x: Self| starts(a@, #[trigger] x.bits()) implies false by {
                    lemma_be_len(x as nat, 8);
                }
            }
            None
        } else {
            let v = get_be(a, 0, 8);
            proof {
                let head = a@.subrange(0, 8);
                lemma_spans();
                lemma_be_bound(head);
                lemma_be_back(head);
                lemma_be_len(v as nat, 8);
                assert forall|x: Self| starts(a@, #[trigger] x.bits()) implies head == x.bits() && x == v by {
                    lemma_be_len(x as nat, 8);
                    lemma_be_round(x as nat, 8);
                }
            }
            if v > usize::MAX as u128 {
                None
            } else {
                Some(v as usize)
            }
        }
    }
}

/// An `isize` is written as eight bytes, whatever the machine.
impl BitIO for isize {
    open spec fn bits(&self) -> Seq<u8> {
        be_bytes(((*self as i64) as u64) as nat, 8)
    }

    fn to_bit(&self) -> (r: Vec<u8>) {
        let mut out: Vec<u8> = Vec::new();
        put_be(((*self as i64) as u64) as u128, 8, &mut out);
        out
    }

    fn try_from_bit(a: &[u8]) -> (r: Option<Self>) {
        if a.len() < 8 {
            proof {
                assert forall|x: Self| starts(a@, #[trigger] x.bits()) implies false by {
                    lemma_be_len(((x as i64) as u64) as nat, 8);
                }
            }
            None
        } else {
            let v = get_be(a, 0, 8);
            let w: u64 = v as u64;
            let r = w as i64;
            proof {
                let head = a@.subrange(0, 8);
                lemma_spans();
                lemma_be_bound(head);
                lemma_be_back(head);
                lemma_be_len(v as nat, 8);
                assert(r as u64 == w) by (bit_vector)
                    requires
                        r == w as i64,
                ;
                assert forall|x: Self| starts(a@, #[trigger] x.bits()) implies head == x.bits() && x as i64
                    == r by {
                    let y = x as i64;
                    let z = y as u64;
                    lemma_be_len(z as nat, 8);
                    lemma_be_round(z as nat, 8);
                    assert(z == w);
                    assert(y == r) by (bit_vector)
                        requires
                            y as u64 == w,
                            r == w as i64,
                    ;
                }
            }
            if r < isize::MIN as i64 || r > isize::MAX as i64 {
                None
            } else {
                Some(r as isize)
            }
        }
    }
}

/// Whether `s` starts with `p`.
pub open spec fn starts(s: Seq<u8>, p: Seq<u8>) -> bool {
    p.len() <= s.len() && s.subrange(0, p.len() as int) == p
}

/// The eight bytes that stand for the length `v`.
pub open spec fn word(v: nat) -> Seq<u8> {
    be_bytes(v, 8)
}

/// The bytes `b` behind the eight bytes of their number.
pub open spec fn blob(b: Seq<u8>) -> Seq<u8> {
    word(b.len()) + b
}

/// Appends the eight bytes that stand for `v`.
pub fn put_word(v: usize, out: &mut Vec<u8>)
    ensures
        final(out)@ == old(out)@ + word(v as nat),
{
    put_be(v as u128, 8, out);
}

/// Appends `b` behind the eight bytes of its length.
pub fn put_blob(b: &[u8], out: &mut Vec<u8>)
    ensures
        final(out)@ == old(out)@ + blob(b@),
{
    let n = b.len();
    put_word(n, out);
    let ghost start = out@;
    let mut i: usize = 0;
    while i < n
        invariant
            0 <= i <= n,
            n == b@.len(),
            out@ == start + b@.subrange(0, i as int),
        decreases n - i,
    {
        out.push(b[i]);
        proof {
            assert(out@ =~= start + b@.subrange(0, i + 1));
        }
        i = i + 1;
    }
    proof {
        assert(b@.subrange(0, n as int) =~= b@);
        assert(out@ =~= old(out)@ + blob(b@));
    }
}

/// The eight bytes of `a` from `pos` on as a length, if `a` has them and
/// the machine can hold the length.
pub fn get_word(a: &[u8], pos: usize) -> (r: Option<usize>)
    requires
        pos <= a@.len(),
    ensures
        match r {
            Some(v) => pos + 8 <= a@.len() && a@.subrange(pos as int, pos + 8) == word(v as nat),
            None => forall|v: usize| !starts(a@.subrange(pos as int, a@.len() as int), #[trigger] word(v as nat)),
        },
{
    let ghost rest = a@.subrange(pos as int, a@.len() as int);
    if a.len() - pos < 8 {
        proof {
            assert forall|v: usize| !starts(rest, #[trigger] word(v as nat)) by {
                lemma_be_len(v as nat, 8);
            }
        }
        return None;
    }
    let v = get_be(a, pos, 8);
    proof {
        let head = a@.subrange(pos as int, pos + 8);
        lemma_spans();
        lemma_be_bound(head);
        lemma_be_back(head);
        assert forall|x: usize| starts(rest, #[trigger] word(x as nat)) implies x == v by {
            lemma_be_len(x as nat, 8);
            assert(rest.subrange(0, 8) =~= head);
            lemma_be_round(x as nat, 8);
        }
    }
    if v > usize::MAX as u128 {
        None
    } else {
        Some(v as usize)
    }
}

/// The bytes of `a` from `pos` on that follow the eight bytes of their
/// number, with the place behind them, if `a` holds that many.
pub fn get_blob(a: &[u8], pos: usize) -> (r: Option<(Vec<u8>, usize)>)
    requires
        pos <= a@.len(),
    ensures
        match r {
            Some((b, next)) => pos <= next <= a@.len() && b@.len() <= usize::MAX && a@.subrange(
                pos as int,
                next as int,
            ) == blob(b@),
            None => forall|b: Seq<u8>|
                b.len() <= usize::MAX ==> !starts(
                    a@.subrange(pos as int, a@.len() as int),
                    #[trigger] blob(b),
                ),
        },
{
    let ghost rest = a@.subrange(pos as int, a@.len() as int);
    match get_word(a, pos) {
        None => {
            proof {
                assert forall|b: Seq<u8>| b.len() <= usize::MAX implies !starts(
                    rest,
                    #[trigger] blob(b),
                ) by {
                    if starts(rest, blob(b)) {
                        lemma_be_len(b.len(), 8);
                        assert(rest.subrange(0, 8) =~= blob(b).subrange(0, 8));
                        assert(blob(b).subrange(0, 8) =~= word(b.len()));
                        assert(starts(rest, word((b.len() as usize) as nat)));
                    }
                }
            }
            None
        },
        Some(n) => {
            proof {
                lemma_be_len(n as nat, 8);
                lemma_spans();
                assert forall|b: Seq<u8>|
                    b.len() <= usize::MAX && starts(rest, #[trigger] blob(b)) implies b.len()
                    == n by {
                    lemma_be_len(b.len(), 8);
                    assert(rest.subrange(0, 8) =~= blob(b).subrange(0, 8));
                    assert(blob(b).subrange(0, 8) =~= word(b.len()));
                    assert(rest.subrange(0, 8) =~= a@.subrange(pos as int, pos + 8));
                    lemma_be_round(b.len(), 8);
                    lemma_be_round(n as nat, 8);
                }
            }
            if a.len() - pos - 8 < n {
                return None;
            }
            let mut b: Vec<u8> = Vec::new();
            let start = pos + 8;
            let total = a.len();
            let mut i: usize = 0;
            while i < n
                invariant
                    0 <= i <= n,
                    start + n <= total,
                    total == a@.len(),
                    b@ == a@.subrange(start as int, start + i),
                decreases n - i,
            {
                b.push(a[start + i]);
                proof {
                    assert(b@ =~= a@.subrange(start as int, start + i + 1));
                }
                i = i + 1;
            }
            proof {
                assert(a@.subrange(pos as int, start + n) =~= blob(b@));
            }
            Some((b, start + n))
        },
    }
}

/// `String::from_utf8` of std: the string that `bytes` are the UTF-8
/// encoding of, and nothing where they are the encoding of none.
#[verifier::external_body]
fn string_from_utf8(bytes: Vec<u8>) -> (r: Option<String>)
    ensures
        r is Some <==> valid_utf8(bytes@),
        r matches Some(s) ==> s@ == decode_utf8(bytes@),
{
    match String::from_utf8(bytes) {
        Ok(s) => Some(s),
        Err(_) => None,
    }
}

/// A string is written as its UTF-8 encoding behind the number of its bytes.
impl BitIO for String {
    open spec fn bits(&self) -> Seq<u8> {
        blob(encode_utf8(self@))
    }

    fn to_bit(&self) -> (r: Vec<u8>) {
        let mut out: Vec<u8> = Vec::new();
        put_blob(self.as_str().as_bytes(), &mut out);
        out
    }

    fn try_from_bit(a: &[u8]) -> (r: Option<Self>) {
        let total = a.len();
        proof {
            lemma_spans();
            assert(a@.subrange(0, a@.len() as int) =~= a@);
            assert forall|x: Self| starts(a@, #[trigger] x.bits()) implies encode_utf8(x@).len()
                <= usize::MAX by {
                lemma_be_len(encode_utf8(x@).len(), 8);
            }
        }
        match get_blob(a, 0) {
            None => None,
            Some((body, next)) => {
                let ghost bytes = body@;
                proof {
                    lemma_be_len(bytes.len(), 8);
                    assert(a@.subrange(0, next as int).len() == next);
                    assert(bytes.len() <= total);
                    assert forall|x: Self| starts(a@, #[trigger] x.bits()) implies encode_utf8(x@)
                        == bytes by {
                        assert(a@.subrange(0, blob(bytes).len() as int) == blob(bytes));
                        lemma_blob_unique(a@, encode_utf8(x@), bytes);
                    }
                }
                match string_from_utf8(body) {
                    None => {
                        proof {
                            assert forall|x: Self| starts(a@, #[trigger] x.bits()) implies false by {
                                encode_utf8_valid_utf8(x@);
                            }
                        }
                        None
                    },
                    Some(s) => {
                        proof {
                            decode_utf8_encode_utf8(bytes);
                            assert(s.bits() == blob(bytes));
                            assert(a@.subrange(0, next as int) == blob(bytes));
                        }
                        Some(s)
                    },
                }
            },
        }
    }
}

/// Bytes start with at most one blob.
pub proof fn lemma_blob_unique(s: Seq<u8>, b: Seq<u8>, c: Seq<u8>)
    requires
        starts(s, blob(b)),
        starts(s, blob(c)),
        b.len() < span(8),
        c.len() < span(8),
    ensures
        b == c,
{
    lemma_be_len(b.len(), 8);
    lemma_be_len(c.len(), 8);
    assert(s.subrange(0, 8) =~= blob(b).subrange(0, 8));
    assert(s.subrange(0, 8) =~= blob(c).subrange(0, 8));
    assert(blob(b).subrange(0, 8) =~= word(b.len()));
    assert(blob(c).subrange(0, 8) =~= word(c.len()));
    lemma_be_round(b.len(), 8);
    lemma_be_round(c.len(), 8);
    let bl = b.len() as int;
    let cl = c.len() as int;
    assert(b =~= blob(b).subrange(8, 8 + bl));
    assert(c =~= blob(c).subrange(8, 8 + cl));
    assert(blob(b).subrange(8, 8 + bl) =~= s.subrange(8, 8 + bl));
    assert(blob(c).subrange(8, 8 + cl) =~= s.subrange(8, 8 + cl));
}

/// Strings with the same bytes are the same text.
pub proof fn lemma_string_bits(x: String, y: String)
    requires
        x.bits() == y.bits(),
    ensures
        x@ == y@,
{
    let b = encode_utf8(x@);
    let c = encode_utf8(y@);
    lemma_be_len(b.len(), 8);
    lemma_be_len(c.len(), 8);
    assert(blob(b).len() == blob(c).len());
    assert(b =~= blob(b).subrange(8, 8 + b.len() as int));
    assert(c =~= blob(c).subrange(8, 8 + c.len() as int));
    encode_utf8_decode_utf8(x@);
    encode_utf8_decode_utf8(y@);
}

/// Whether values of `S` with the same bytes stand for the same integer.
pub open spec fn faithful<S: Scalar + BitIO>() -> bool {
    forall|x: S, y: S| #[trigger] x.bits() == #[trigger] y.bits() ==> x.value() == y.value()
}

/// Different `u8` have different bytes.
pub proof fn lemma_faithful_u8()
    ensures
        faithful::<u8>(),
{
    lemma_spans();
    assert forall|x: u8, y: u8| #[trigger] x.bits() == #[trigger] y.bits() implies x.value()
        == y.value() by {
        lemma_be_round(x as nat, 1);
        lemma_be_round(y as nat, 1);
    }
}

/// Different `u16` have different bytes.
pub proof fn lemma_faithful_u16()
    ensures
        faithful::<u16>(),
{
    lemma_spans();
    assert forall|x: u16, y: u16| #[trigger] x.bits() == #[trigger] y.bits() implies x.value()
        == y.value() by {
        lemma_be_round(x as nat, 2);
        lemma_be_round(y as nat, 2);
    }
}

/// Different `u32` have different bytes.
pub proof fn lemma_faithful_u32()
    ensures
        faithful::<u32>(),
{
    lemma_spans();
    assert forall|x: u32, y: u32| #[trigger] x.bits() == #[trigger] y.bits() implies x.value()
        == y.value() by {
        lemma_be_round(x as nat, 4);
        lemma_be_round(y as nat, 4);
    }
}

/// Different `u64` have different bytes.
pub proof fn lemma_faithful_u64()
    ensures
        faithful::<u64>(),
{
    lemma_spans();
    assert forall|x: u64, y: u64| #[trigger] x.bits() == #[trigger] y.bits() implies x.value()
        == y.value() by {
        lemma_be_round(x as nat, 8);
        lemma_be_round(y as nat, 8);
    }
}

/// Different `u128` have different bytes.
pub proof fn lemma_faithful_u128()
    ensures
        faithful::<u128>(),
{
    lemma_spans();
    assert forall|x: u128, y: u128| #[trigger] x.bits() == #[trigger] y.bits() implies x.value()
        == y.value() by {
        lemma_be_round(x as nat, 16);
        lemma_be_round(y as nat, 16);
    }
}

/// Different `usize` have different bytes.
pub proof fn lemma_faithful_usize()
    ensures
        faithful::<usize>(),
{
    lemma_spans();
    assert forall|x: usize, y: usize| #[trigger] x.bits() == #[trigger] y.bits() implies x.value()
        == y.value() by {
        lemma_be_round(x as nat, 8);
        lemma_be_round(y as nat, 8);
    }
}

/// Different `i8` have different bytes.
pub proof fn lemma_faithful_i8()
    ensures
        faithful::<i8>(),
{
    lemma_spans();
    assert forall|x: i8, y: i8| #[trigger] x.bits() == #[trigger] y.bits() implies x.value()
        == y.value() by {
        lemma_be_round((x as u8) as nat, 1);
        lemma_be_round((y as u8) as nat, 1);
        assert(x == y) by (bit_vector)
            requires
                x as u8 == y as u8,
        ;
    }
}

/// Different `i16` have different bytes.
pub proof fn lemma_faithful_i16()
    ensures
        faithful::<i16>(),
{
    lemma_spans();
    assert forall|x: i16, y: i16| #[trigger] x.bits() == #[trigger] y.bits() implies x.value()
        == y.value() by {
        lemma_be_round((x as u16) as nat, 2);
        lemma_be_round((y as u16) as nat, 2);
        assert(x == y) by (bit_vector)
            requires
                x as u16 == y as u16,
        ;
    }
}

/// Different `i32` have different bytes.
pub proof fn lemma_faithful_i32()
    ensures
        faithful::<i32>(),
{
    lemma_spans();
    assert forall|x: i32, y: i32| #[trigger] x.bits() == #[trigger] y.bits() implies x.value()
        == y.value() by {
        lemma_be_round((x as u32) as nat, 4);
        lemma_be_round((y as u32) as nat, 4);
        assert(x == y) by (bit_vector)
            requires
                x as u32 == y as u32,
        ;
    }
}

/// Different `i64` have different bytes.
pub proof fn lemma_faithful_i64()
    ensures
        faithful::<i64>(),
{
    lemma_spans();
    assert forall|x: i64, y: i64| #[trigger] x.bits() == #[trigger] y.bits() implies x.value()
        == y.value() by {
        lemma_be_round((x as u64) as nat, 8);
        lemma_be_round((y as u64) as nat, 8);
        assert(x == y) by (bit_vector)
            requires
                x as u64 == y as u64,
        ;
    }
}

/// Different `i128` have different bytes.
pub proof fn lemma_faithful_i128()
    ensures
        faithful::<i128>(),
{
    lemma_spans();
    assert forall|x: i128, y: i128| #[trigger] x.bits() == #[trigger] y.bits() implies x.value()
        == y.value() by {
        lemma_be_round((x as u128) as nat, 16);
        lemma_be_round((y as u128) as nat, 16);
        assert(x == y) by (bit_vector)
            requires
                x as u128 == y as u128,
        ;
    }
}

/// Different `isize` have different bytes.
pub proof fn lemma_faithful_isize()
    ensures
        faithful::<isize>(),
{
    lemma_spans();
    assert forall|x: isize, y: isize| #[trigger] x.bits() == #[trigger] y.bits() implies x.value()
        == y.value() by {
        let p = x as i64;
        let q = y as i64;
        lemma_be_round((p as u64) as nat, 8);
        lemma_be_round((q as u64) as nat, 8);
        assert(p == q) by (bit_vector)
            requires
                p as u64 == q as u64,
        ;
    }
}

/// The characters that the bytes of plain text stand for, one for each.
pub open spec fn plain_chars(bytes: Seq<u8>) -> Seq<char> {
    Seq::new(bytes.len(), |i: int| bytes[i] as char)
}

/// Whether every byte is below 128.
pub open spec fn is_plain(bytes: Seq<u8>) -> bool {
    forall|i: int| 0 <= i < bytes.len() ==> (#[trigger] bytes[i]) < 128
}

/// Bytes below 128 are the UTF-8 encoding of their characters.
pub proof fn lemma_plain(bytes: Seq<u8>)
    requires
        is_plain(bytes),
    ensures
        encode_utf8(plain_chars(bytes)) == bytes,
        valid_utf8(bytes),
        decode_utf8(bytes) == plain_chars(bytes),
{
    let chars = plain_chars(bytes);
    assert(vstd::utf8::is_ascii_chars(chars)) by {
        assert forall|i: int| 0 <= i < chars.len() implies '\0' <= #[trigger] chars[i]
            <= '\u{7f}' by {
            assert(bytes[i] < 128);
        }
    }
    vstd::utf8::is_ascii_chars_encode_utf8(chars);
    assert(encode_utf8(chars) =~= bytes) by {
        assert forall|i: int| 0 <= i < bytes.len() implies encode_utf8(chars)[i] == bytes[i] by {
            assert(chars[i] as u8 == encode_utf8(chars)[i]);
            assert(bytes[i] < 128);
        }
    }
    encode_utf8_valid_utf8(chars);
    encode_utf8_decode_utf8(chars);
}

/// The string of plain text.
pub fn plain_string(bytes: Vec<u8>) -> (r: String)
    requires
        is_plain(bytes@),
    ensures
        r@ == plain_chars(bytes@),
        encode_utf8(r@) == bytes@,
{
    proof {
        lemma_plain(bytes@);
    }
    match string_from_utf8(bytes) {
        Some(s) => s,
        None => String::new(),
    }
}

/// A value that can be written as text and read from it.
///
/// Whatever `to_str` gives, `from_str` turns into a value with the same
/// text; what `from_str` and `try_from_str` return has the text that they
/// were given.
pub trait StrIO: Sized {
    /// The text that stands for this value.
    spec fn text(&self) -> Seq<char>;

    /// The text that stands for this value.
    fn to_str(&self) -> (r: String)
        ensures
            r@ == self.text(),
    ;

    /// The value that has the text `s`; nothing where no value has it.
    fn try_from_str(s: &str) -> (r: Option<Self>)
        ensures
            r matches Some(v) ==> v.text() == s@,
            forall|x: Self| #[trigger] x.text() == s@ ==> r is Some,
    ;

    /// The value that has the text `s`.  There must be one.
    fn from_str(s: &str) -> (r: Self)
        requires
            exists|x: Self| #[trigger] x.text() == s@,
        ensures
            r.text() == s@,
    {
        match Self::try_from_str(s) {
            Some(v) => v,
            None => vstd::pervasive::unreached(),
        }
    }
}

/// A string is its own text.
impl StrIO for String {
    open spec fn text(&self) -> Seq<char> {
        self@
    }

    fn to_str(&self) -> (r: String) {
        self.clone()
    }

    fn try_from_str(s: &str) -> (r: Option<Self>) {
        Some(s.to_owned())
    }
}

/// Decimal digits and the minus sign are plain text.
pub proof fn lemma_decimal_plain(v: int)
    ensures
        is_plain(decimal::decimal(v)),
{
    decimal::lemma_digits(decimal::magnitude(v));
    let d = decimal::digits(decimal::magnitude(v));
    assert forall|i: int| 0 <= i < decimal::decimal(v).len() implies (
    #[trigger] decimal::decimal(v)[i]) < 128 by {
        if v < 0 {
            if i > 0 {
                assert(decimal::decimal(v)[i] == d[i - 1]);
                assert(decimal::is_digit(d[i - 1]));
            }
        } else {
            assert(decimal::is_digit(d[i]));
        }
    }
}

/// A number is written in decimal.
impl<S: Scalar> StrIO for S {
    open spec fn text(&self) -> Seq<char> {
        plain_chars(decimal::decimal(self.value()))
    }

    fn to_str(&self) -> (r: String) {
        let mut out: Vec<u8> = Vec::new();
        decimal::put_decimal(self, &mut out);
        proof {
            lemma_decimal_plain(self.value());
            assert(out@ =~= decimal::decimal(self.value()));
        }
        plain_string(out)
    }

    fn try_from_str(s: &str) -> (r: Option<Self>) {
        let a = s.as_bytes();
        let total = a.len();
        proof {
            encode_utf8_decode_utf8(s@);
            assert forall|x: Self| #[trigger] x.text() == s@ implies decimal::decimal_at(
                a@,
                0,
                x.value(),
                a@.len() as int,
            ) by {
                lemma_decimal_plain(x.value());
                lemma_plain(decimal::decimal(x.value()));
                decimal::lemma_digits(decimal::magnitude(x.value()));
                assert(a@.subrange(0, a@.len() as int) =~= a@);
            }
        }
        match decimal::get_decimal::<S>(a, 0) {
            None => None,
            Some((x, end)) => {
                proof {
                    assert forall|y: Self| #[trigger] y.text() == s@ implies end == total by {
                        decimal::lemma_decimal_unique(
                            a@,
                            0,
                            x.value(),
                            end as int,
                            y.value(),
                            total as int,
                        );
                    }
                }
                if end != total {
                    return None;
                }
                proof {
                    lemma_decimal_plain(x.value());
                    lemma_plain(decimal::decimal(x.value()));
                    assert(a@.subrange(0, total as int) =~= a@);
                }
                Some(x)
            },
        }
    }
}

} // verus!
