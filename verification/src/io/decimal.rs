//! Numbers as decimal text.
use crate::scalar::{fits, signed, try_join, Scalar};
use vstd::prelude::*;

verus! {

/// Whether `b` is a decimal digit.
pub open spec fn is_digit(b: u8) -> bool {
    48 <= b <= 57
}

/// The decimal digits of `v`, without leading zeros.
pub open spec fn digits(v: nat) -> Seq<u8>
    decreases v,
{
    if v < 10 {
        seq![(48 + v) as u8]
    } else {
        digits(v / 10).push((48 + v % 10) as u8)
    }
}

/// The decimal text of `v`: a minus sign where `v` is negative, and the digits.
pub open spec fn decimal(v: int) -> Seq<u8> {
    if v < 0 {
        seq![45u8] + digits((-v) as nat)
    } else {
        digits(v as nat)
    }
}

/// The number that a run of digits stands for.
pub open spec fn digits_value(s: Seq<u8>) -> nat
    decreases s.len(),
{
    if s.len() == 0 {
        0
    } else {
        digits_value(s.drop_last()) * 10 + (s.last() - 48) as nat
    }
}

/// The digits of a number are digits, start with no zero unless the number
/// is zero, and stand for the number.
pub proof fn lemma_digits(v: nat)
    ensures
        digits(v).len() >= 1,
        forall|i: int| 0 <= i < digits(v).len() ==> is_digit(#[trigger] digits(v)[i]),
        digits(v).len() > 1 ==> digits(v)[0] != 48,
        digits(v).len() == 1 <==> v < 10,
        digits_value(digits(v)) == v,
    decreases v,
{
    if v < 10 {
        let d = digits(v);
        assert(d.drop_last() =~= Seq::<u8>::empty());
        assert(digits_value(d.drop_last()) == 0);
    } else {
        lemma_digits(v / 10);
        let d = digits(v);
        assert(d.drop_last() =~= digits(v / 10));
        assert(d[0] == digits(v / 10)[0]);
        if digits(v / 10).len() == 1 {
            assert(v / 10 >= 1);
        }
    }
}

/// A run of digits that starts with no zero, unless it is a single digit,
/// is the digits of the number it stands for.
pub proof fn lemma_digits_back(s: Seq<u8>)
    requires
        s.len() >= 1,
        forall|i: int| 0 <= i < s.len() ==> is_digit(#[trigger] s[i]),
        s.len() > 1 ==> s[0] != 48,
    ensures
        digits(digits_value(s)) == s,
        s.len() > 1 ==> digits_value(s) >= 10,
    decreases s.len(),
{
    let v = digits_value(s);
    if s.len() == 1 {
        assert(s.drop_last() =~= Seq::<u8>::empty());
        assert(digits_value(s.drop_last()) == 0);
        assert(digits(v) =~= s);
    } else {
        let head = s.drop_last();
        assert(head[0] == s[0]);
        lemma_digits_back(head);
        let h = digits_value(head);
        assert(h >= 1) by {
            if head.len() == 1 {
                assert(head.drop_last() =~= Seq::<u8>::empty());
                assert(digits_value(head.drop_last()) == 0);
            }
        }
        assert(v / 10 == h);
        assert(v % 10 == (s.last() - 48) as nat);
        assert(digits(v) =~= s);
    }
}

/// Appends the decimal digits of `v`.
pub fn put_digits(v: u128, out: &mut Vec<u8>)
    ensures
        final(out)@ == old(out)@ + digits(v as nat),
    decreases v,
{
    if v < 10 {
        out.push(48 + v as u8);
        proof {
            assert(out@ =~= old(out)@ + digits(v as nat));
        }
    } else {
        put_digits(v / 10, out);
        out.push(48 + (v % 10) as u8);
        proof {
            assert(out@ =~= old(out)@ + digits(v as nat));
        }
    }
}

/// Appends the decimal text of `x`.
pub fn put_decimal<S: Scalar>(x: &S, out: &mut Vec<u8>)
    ensures
        final(out)@ == old(out)@ + decimal(x.value()),
{
    let (negative, magnitude) = x.split();
    if negative {
        out.push(45);
    }
    put_digits(magnitude, out);
    proof {
        assert(out@ =~= old(out)@ + decimal(x.value()));
    }
}

/// A run of digits stands for no less than any of its beginnings.
pub proof fn lemma_value_prefix(s: Seq<u8>, k: int)
    requires
        0 <= k <= s.len(),
        forall|i: int| 0 <= i < s.len() ==> is_digit(#[trigger] s[i]),
    ensures
        digits_value(s.subrange(0, k)) <= digits_value(s),
    decreases s.len() - k,
{
    if k < s.len() {
        let longer = s.subrange(0, k + 1);
        assert(longer.drop_last() =~= s.subrange(0, k));
        assert(is_digit(s[k]));
        lemma_value_prefix(s, k + 1);
    } else {
        assert(s.subrange(0, k) =~= s);
    }
}

/// Whether `a` holds the digits of `v` from `pos` to `end`, where the text
/// ends or a byte follows that is no digit.
pub open spec fn digits_at(a: Seq<u8>, pos: int, v: nat, end: int) -> bool {
    &&& pos < end <= a.len()
    &&& a.subrange(pos, end) == digits(v)
    &&& end < a.len() ==> !is_digit(a[end])
}

/// Whether `a` holds the decimal text of `v` from `pos` to `end`, where the
/// text ends or a byte follows that is no digit.
pub open spec fn decimal_at(a: Seq<u8>, pos: int, v: int, end: int) -> bool {
    &&& pos < end <= a.len()
    &&& a.subrange(pos, end) == decimal(v)
    &&& end < a.len() ==> !is_digit(a[end])
}

/// Whether the bytes of `a` from `pos` to `end` are a run of digits that
/// no digit follows.
pub open spec fn run_at(a: Seq<u8>, pos: int, end: int) -> bool {
    &&& pos <= end <= a.len()
    &&& forall|i: int| pos <= i < end ==> is_digit(#[trigger] a[i])
    &&& end < a.len() ==> !is_digit(a[end])
}

/// The digits of a number at `pos` are the run of digits at `pos`.
pub proof fn lemma_run_unique(a: Seq<u8>, pos: int, end: int, v: nat, e: int)
    requires
        0 <= pos,
        run_at(a, pos, end),
        digits_at(a, pos, v, e),
    ensures
        e == end,
        a.subrange(pos, end) == digits(v),
        digits_value(a.subrange(pos, end)) == v,
        end - pos > 1 ==> a[pos] != 48,
{
    lemma_digits(v);
    let d = digits(v);
    if e < end {
        assert(is_digit(a[e]));
    }
    if end < e {
        assert(d[end - pos] == a[end]);
        assert(is_digit(d[end - pos]));
    }
    assert(d[0] == a[pos]);
}

/// Where the run of digits in `a` from `pos` on ends.
fn digits_end(a: &[u8], pos: usize) -> (end: usize)
    requires
        pos <= a@.len(),
    ensures
        run_at(a@, pos as int, end as int),
{
    let mut end = pos;
    while end < a.len() && a[end] >= 48 && a[end] <= 57
        invariant
            pos <= end <= a@.len(),
            forall|i: int| pos <= i < end ==> is_digit(#[trigger] a@[i]),
        decreases a@.len() - end,
    {
        end = end + 1;
    }
    end
}

/// The number whose digits `a` holds from `pos` on, up to the first byte
/// that is no digit, and the place of that byte: if there are digits, they
/// start with no needless zero, and a `u128` can hold the number.
pub fn get_digits(a: &[u8], pos: usize) -> (r: Option<(u128, usize)>)
    requires
        pos <= a@.len(),
    ensures
        match r {
            Some((v, end)) => digits_at(a@, pos as int, v as nat, end as int),
            None => forall|v: u128, end: int| !#[trigger] digits_at(a@, pos as int, v as nat, end),
        },
{
    let end = digits_end(a, pos);
    if end == pos || (end - pos > 1 && a[pos] == 48) {
        proof {
            assert forall|v: u128, e: int| !#[trigger] digits_at(a@, pos as int, v as nat, e) by {
                if digits_at(a@, pos as int, v as nat, e) {
                    lemma_run_unique(a@, pos as int, end as int, v as nat, e);
                }
            }
        }
        return None;
    }
    let mut v: u128 = 0;
    let mut i: usize = pos;
    proof {
        assert(a@.subrange(pos as int, pos as int) =~= Seq::<u8>::empty());
    }
    while i < end
        invariant
            pos <= i <= end <= a@.len(),
            pos < end,
            run_at(a@, pos as int, end as int),
            v == digits_value(a@.subrange(pos as int, i as int)),
        decreases end - i,
    {
        let d = (a[i] - 48) as u128;
        let ghost after = a@.subrange(pos as int, i + 1);
        proof {
            assert(after.drop_last() =~= a@.subrange(pos as int, i as int));
            assert(after.last() == a@[i as int]);
        }
        if v > (u128::MAX - d) / 10 {
            proof {
                assert forall|w: u128, e: int| !#[trigger] digits_at(a@, pos as int, w as nat, e) by {
                    if digits_at(a@, pos as int, w as nat, e) {
                        lemma_run_unique(a@, pos as int, end as int, w as nat, e);
                        let run = a@.subrange(pos as int, end as int);
                        assert forall|j: int| 0 <= j < run.len() implies is_digit(
                            #[trigger] run[j],
                        ) by {
                            assert(run[j] == a@[pos + j]);
                        }
                        lemma_value_prefix(run, i + 1 - pos);
                        assert(run.subrange(0, i + 1 - pos) =~= after);
                    }
                }
            }
            return None;
        }
        v = v * 10 + d;
        i = i + 1;
    }
    proof {
        let run = a@.subrange(pos as int, end as int);
        assert(run[0] == a@[pos as int]);
        assert forall|j: int| 0 <= j < run.len() implies is_digit(#[trigger] run[j]) by {
            assert(run[j] == a@[pos + j]);
        }
        lemma_digits_back(run);
    }
    Some((v, end))
}

/// The magnitude of an integer.
pub open spec fn magnitude(v: int) -> nat {
    if v < 0 {
        (-v) as nat
    } else {
        v as nat
    }
}

/// The decimal text of a number at `pos` is, behind its sign, the digits
/// of its magnitude.
pub proof fn lemma_decimal_parts(a: Seq<u8>, pos: int, v: int, end: int)
    requires
        0 <= pos,
        decimal_at(a, pos, v, end),
    ensures
        (v < 0) == (a[pos] == 45),
        digits_at(
            a,
            if v < 0 {
                pos + 1
            } else {
                pos
            },
            magnitude(v),
            end,
        ),
{
    let t = decimal(v);
    let m = magnitude(v);
    lemma_digits(m);
    assert(t[0] == a[pos]);
    if v < 0 {
        assert(a.subrange(pos + 1, end) =~= t.subrange(1, t.len() as int));
        assert(t.subrange(1, t.len() as int) =~= digits(m));
    } else {
        assert(is_digit(digits(m)[0]));
    }
}

/// The number of type `S` whose decimal text `a` holds from `pos` on, up
/// to the first byte that is no digit, and the place of that byte: if the
/// text is the decimal text of a number that `S` can hold.
pub fn get_decimal<S: Scalar>(a: &[u8], pos: usize) -> (r: Option<(S, usize)>)
    requires
        pos <= a@.len(),
    ensures
        match r {
            Some((x, end)) => decimal_at(a@, pos as int, x.value(), end as int),
            None => forall|x: S, end: int| !#[trigger] decimal_at(a@, pos as int, x.value(), end),
        },
{
    let negative = pos < a.len() && a[pos] == 45;
    let start = if negative {
        pos + 1
    } else {
        pos
    };
    let (wide, end) = match get_digits(a, start) {
        Some(pair) => pair,
        None => {
            proof {
                assert forall|x: S, e: int| !#[trigger] decimal_at(a@, pos as int, x.value(), e) by {
                    if decimal_at(a@, pos as int, x.value(), e) {
                        lemma_decimal_parts(a@, pos as int, x.value(), e);
                        x.lemma_wide();
                        assert(digits_at(
                            a@,
                            start as int,
                            (magnitude(x.value()) as u128) as nat,
                            e,
                        ));
                    }
                }
            }
            return None;
        },
    };
    proof {
        lemma_digits(wide as nat);
        assert forall|x: S, e: int| #[trigger]
            decimal_at(a@, pos as int, x.value(), e) implies e == end && x.value() == signed(
            negative,
            wide,
        ) && (x.value() < 0) == negative && fits::<S>(x.value()) by {
            x.lemma_bounds();
            lemma_decimal_parts(a@, pos as int, x.value(), e);
            let d = digits(wide as nat);
            assert forall|i: int| start <= i < end implies is_digit(#[trigger] a@[i]) by {
                assert(d[i - start] == a@[i]);
            }
            lemma_run_unique(a@, start as int, end as int, magnitude(x.value()), e);
            lemma_run_unique(a@, start as int, end as int, wide as nat, end as int);
        }
    }
    if negative && wide == 0 {
        return None;
    }
    match try_join::<S>(negative, wide) {
        None => None,
        Some(x) => {
            proof {
                assert(a@.subrange(pos as int, end as int) =~= decimal(x.value()));
            }
            Some((x, end))
        },
    }
}

/// Text holds the decimal text of at most one number at a place.
pub proof fn lemma_decimal_unique(a: Seq<u8>, pos: int, v: int, end: int, w: int, e: int)
    requires
        0 <= pos,
        decimal_at(a, pos, v, end),
        decimal_at(a, pos, w, e),
    ensures
        v == w,
        end == e,
{
    lemma_decimal_parts(a, pos, v, end);
    lemma_decimal_parts(a, pos, w, e);
    let start = if v < 0 {
        pos + 1
    } else {
        pos
    };
    lemma_digits(magnitude(v));
    let d = digits(magnitude(v));
    assert(run_at(a, start, end)) by {
        assert forall|i: int| start <= i < end implies is_digit(#[trigger] a[i]) by {
            assert(d[i - start] == a[i]);
        }
    }
    lemma_run_unique(a, start, end, magnitude(v), end);
    lemma_run_unique(a, start, end, magnitude(w), e);
}

} // verus!
