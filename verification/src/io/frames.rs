//! Lists of byte strings, each behind its length.
use crate::io::{
    blob, get_blob, get_word, lemma_be_len, lemma_be_round, lemma_blob_unique, lemma_spans,
    put_blob, put_word, span, starts, word, BitIO,
};
use vstd::prelude::*;

verus! {

/// The bytes of a list of byte strings, each behind its length.
pub open spec fn enc_blobs(s: Seq<Seq<u8>>) -> Seq<u8>
    decreases s.len(),
{
    if s.len() == 0 {
        Seq::empty()
    } else {
        blob(s[0]) + enc_blobs(s.drop_first())
    }
}

/// Splitting bytes that start with `p + q`: they start with `p`, and behind
/// `p` they start with `q`.
pub proof fn lemma_starts_split(s: Seq<u8>, p: Seq<u8>, q: Seq<u8>)
    requires
        starts(s, p + q),
    ensures
        starts(s, p),
        starts(s.subrange(p.len() as int, s.len() as int), q),
{
    let pl = p.len() as int;
    let ql = q.len() as int;
    assert(s.subrange(0, pl) =~= (p + q).subrange(0, pl));
    assert((p + q).subrange(0, pl) =~= p);
    assert(s.subrange(pl, s.len() as int).subrange(0, ql) =~= s.subrange(0, pl + ql).subrange(
        pl,
        pl + ql,
    ));
    assert((p + q).subrange(pl, pl + ql) =~= q);
}

/// Bytes start with at most one word.
pub proof fn lemma_word_unique(s: Seq<u8>, u: nat, v: nat)
    requires
        starts(s, word(u)),
        starts(s, word(v)),
        u < span(8),
        v < span(8),
    ensures
        u == v,
{
    lemma_be_len(u, 8);
    lemma_be_len(v, 8);
    lemma_be_round(u, 8);
    lemma_be_round(v, 8);
}

/// The bytes of a list with one more entry are the bytes of the list and
/// then those of the entry.
pub proof fn lemma_blobs_push(s: Seq<Seq<u8>>, b: Seq<u8>)
    ensures
        enc_blobs(s.push(b)) == enc_blobs(s) + blob(b),
    decreases s.len(),
{
    let t = s.push(b);
    if s.len() == 0 {
        assert(t.drop_first() =~= Seq::<Seq<u8>>::empty());
        assert(enc_blobs(t.drop_first()) =~= Seq::<u8>::empty());
        assert(enc_blobs(t) =~= enc_blobs(s) + blob(b));
    } else {
        assert(t.drop_first() =~= s.drop_first().push(b));
        lemma_blobs_push(s.drop_first(), b);
        assert(enc_blobs(t) =~= enc_blobs(s) + blob(b));
    }
}

/// Bytes start with at most one list of byte strings of a given length.
pub proof fn lemma_blobs_unique(s: Seq<u8>, x: Seq<Seq<u8>>, y: Seq<Seq<u8>>)
    requires
        starts(s, enc_blobs(x)),
        starts(s, enc_blobs(y)),
        x.len() == y.len(),
        forall|i: int| 0 <= i < x.len() ==> (#[trigger] x[i]).len() <= usize::MAX,
        forall|i: int| 0 <= i < y.len() ==> (#[trigger] y[i]).len() <= usize::MAX,
    ensures
        x == y,
    decreases x.len(),
{
    if x.len() > 0 {
        lemma_spans();
        lemma_starts_split(s, blob(x[0]), enc_blobs(x.drop_first()));
        lemma_starts_split(s, blob(y[0]), enc_blobs(y.drop_first()));
        lemma_blob_unique(s, x[0], y[0]);
        let rest = s.subrange(blob(x[0]).len() as int, s.len() as int);
        assert forall|i: int| 0 <= i < x.drop_first().len() implies (#[trigger] x.drop_first()[i]).len()
            <= usize::MAX by {
            assert(x.drop_first()[i] == x[i + 1]);
        }
        assert forall|i: int| 0 <= i < y.drop_first().len() implies (#[trigger] y.drop_first()[i]).len()
            <= usize::MAX by {
            assert(y.drop_first()[i] == y[i + 1]);
        }
        lemma_blobs_unique(rest, x.drop_first(), y.drop_first());
        assert(x =~= seq![x[0]] + x.drop_first());
        assert(y =~= seq![y[0]] + y.drop_first());
    } else {
        assert(x =~= y);
    }
}

/// What a list of byte strings holds.
pub open spec fn blobs_view(v: Seq<Vec<u8>>) -> Seq<Seq<u8>> {
    Seq::new(v.len(), |i: int| v[i]@)
}

/// The `count` byte strings that the bytes of `a` from `pos` on start with,
/// and the place behind them.  Where they start with the byte strings `w`,
/// these are found.
pub(crate) fn get_blobs(a: &[u8], pos: usize, count: usize, Ghost(w): Ghost<Seq<Seq<u8>>>) -> (r: Option<
    (Vec<Vec<u8>>, usize),
>)
    requires
        pos <= a@.len(),
    ensures
        r matches Some((v, next)) ==> pos <= next <= a@.len() && v@.len() == count && a@.subrange(
            pos as int,
            next as int,
        ) == enc_blobs(blobs_view(v@)) && (forall|i: int|
            0 <= i < v@.len() ==> (#[trigger] blobs_view(v@)[i]).len() <= usize::MAX),
        w.len() == count && (forall|i: int| 0 <= i < w.len() ==> (#[trigger] w[i]).len()
            <= usize::MAX) && starts(a@.subrange(pos as int, a@.len() as int), enc_blobs(w)) ==> (
        r matches Some((v, next)) && blobs_view(v@) == w),
{
    let total = a.len();
    let ghost found = w.len() == count && (forall|i: int|
        0 <= i < w.len() ==> (#[trigger] w[i]).len() <= usize::MAX) && starts(
        a@.subrange(pos as int, a@.len() as int),
        enc_blobs(w),
    );
    let mut v: Vec<Vec<u8>> = Vec::new();
    let mut at: usize = pos;
    let mut i: usize = 0;
    proof {
        lemma_spans();
        assert(a@.subrange(pos as int, pos as int) =~= enc_blobs(blobs_view(v@)));
        assert(w.skip(0) =~= w);
        assert(blobs_view(v@) =~= w.take(0));
    }
    while i < count
        invariant
            0 <= i <= count,
            pos <= at <= total,
            total == a@.len(),
            v@.len() == i,
            span(8) == 0x1_0000_0000_0000_0000,
            forall|j: int| 0 <= j < v@.len() ==> (#[trigger] blobs_view(v@)[j]).len() <= usize::MAX,
            a@.subrange(pos as int, at as int) == enc_blobs(blobs_view(v@)),
            found == (w.len() == count && (forall|i: int|
                0 <= i < w.len() ==> (#[trigger] w[i]).len() <= usize::MAX) && starts(
                a@.subrange(pos as int, a@.len() as int),
                enc_blobs(w),
            )),
            found ==> w.len() == count && (forall|j: int|
                0 <= j < w.len() ==> (#[trigger] w[j]).len() <= usize::MAX),
            found ==> blobs_view(v@) == w.take(i as int),
            found ==> starts(a@.subrange(at as int, total as int), enc_blobs(w.skip(i as int))),
        decreases count - i,
    {
        let ghost rest = a@.subrange(at as int, total as int);
        proof {
            if found {
                let tail = w.skip(i as int);
                assert(tail[0] == w[i as int]);
                assert(w[i as int].len() <= usize::MAX);
                assert(tail.drop_first() =~= w.skip(i + 1));
                lemma_starts_split(rest, blob(tail[0]), enc_blobs(tail.drop_first()));
                assert(starts(rest, blob(w[i as int])));
            }
        }
        match get_blob(a, at) {
            None => {
                return None;
            },
            Some((b, next)) => {
                proof {
                    let before = blobs_view(v@);
                    lemma_blobs_push(before, b@);
                    assert(blobs_view(v@.push(b)) =~= before.push(b@));
                    assert(a@.subrange(pos as int, next as int) =~= a@.subrange(
                        pos as int,
                        at as int,
                    ) + a@.subrange(at as int, next as int));
                    if found {
                        lemma_be_len(b@.len(), 8);
                        assert(rest.subrange(0, blob(b@).len() as int) =~= a@.subrange(
                            at as int,
                            next as int,
                        ));
                        lemma_blob_unique(rest, w[i as int], b@);
                        assert(w.take(i + 1) =~= w.take(i as int).push(w[i as int]));
                        assert(rest.subrange(blob(b@).len() as int, rest.len() as int)
                            =~= a@.subrange(next as int, total as int));
                    }
                }
                v.push(b);
                at = next;
            },
        }
        i = i + 1;
    }
    proof {
        if found {
            assert(w.take(count as int) =~= w);
        }
    }
    Some((v, at))
}

/// The bytes of a list of byte strings are at least eight for each of
/// them, and eight more than any of them.
pub proof fn lemma_blobs_len(s: Seq<Seq<u8>>)
    ensures
        8 * s.len() <= enc_blobs(s).len(),
        forall|i: int| 0 <= i < s.len() ==> (#[trigger] s[i]).len() + 8 <= enc_blobs(s).len(),
    decreases s.len(),
{
    if s.len() > 0 {
        lemma_blobs_len(s.drop_first());
        lemma_be_len(s[0].len(), 8);
        assert forall|i: int| 0 <= i < s.len() implies (#[trigger] s[i]).len() + 8 <= enc_blobs(
            s,
        ).len() by {
            if i > 0 {
                assert(s[i] == s.drop_first()[i - 1]);
            }
        }
    }
}

/// The bytes of the values of a list.
pub open spec fn bits_of<T: BitIO>(s: Seq<T>) -> Seq<Seq<u8>> {
    Seq::new(s.len(), |i: int| s[i].bits())
}

/// A list is written as the number of its entries and then the bytes of
/// every entry behind their length.
impl<T: BitIO> BitIO for Vec<T> {
    open spec fn bits(&self) -> Seq<u8> {
        word(self@.len()) + enc_blobs(bits_of(self@))
    }

    fn to_bit(&self) -> (r: Vec<u8>) {
        let mut out: Vec<u8> = Vec::new();
        put_word(self.len(), &mut out);
        let ghost start = out@;
        let ghost all = bits_of(self@);
        let mut i: usize = 0;
        proof {
            assert(all.take(0) =~= Seq::<Seq<u8>>::empty());
            assert(out@ =~= start + enc_blobs(all.take(0)));
        }
        while i < self.len()
            invariant
                0 <= i <= self@.len(),
                all == bits_of(self@),
                out@ == start + enc_blobs(all.take(i as int)),
            decreases self@.len() - i,
        {
            let bytes = self[i].to_bit();
            put_blob(bytes.as_slice(), &mut out);
            proof {
                lemma_blobs_push(all.take(i as int), all[i as int]);
                assert(all.take(i + 1) =~= all.take(i as int).push(all[i as int]));
                assert(out@ =~= start + enc_blobs(all.take(i + 1)));
            }
            i = i + 1;
        }
        proof {
            assert(all.take(all.len() as int) =~= all);
        }
        out
    }

    fn try_from_bit(a: &[u8]) -> (r: Option<Self>) {
        let total = a.len();
        let ghost known = exists|x: Self| starts(a@, #[trigger] x.bits());
        let ghost witness = choose|x: Self| starts(a@, #[trigger] x.bits());
        let ghost want = bits_of(witness@);
        proof {
            lemma_spans();
            lemma_be_len(witness@.len(), 8);
            assert(a@.subrange(0, a@.len() as int) =~= a@);
            if known {
                lemma_blobs_len(want);
                lemma_starts_split(a@, word(witness@.len()), enc_blobs(want));
                lemma_be_round(witness@.len(), 8);
            }
        }
        let n = match get_word(a, 0) {
            Some(n) => n,
            None => {
                proof {
                    if known {
                        assert(starts(a@, word((witness@.len() as usize) as nat)));
                    }
                }
                return None;
            },
        };
        proof {
            lemma_be_len(n as nat, 8);
            lemma_be_round(n as nat, 8);
            if known {
                assert(a@.subrange(0, 8) == word(witness@.len()));
                assert(a@.subrange(8, total as int) =~= a@.subrange(8, a@.len() as int));
            }
        }
        let (blobs, next) = match get_blobs(a, 8, n, Ghost(want)) {
            Some(found) => found,
            None => {
                return None;
            },
        };
        let mut v: Vec<T> = Vec::new();
        let mut i: usize = 0;
        while i < n
            invariant
                0 <= i <= n,
                n == blobs@.len(),
                v@.len() == i,
                forall|j: int| 0 <= j < i ==> (#[trigger] v@[j]).bits() == blobs@[j]@,
                known == (exists|x: Self| starts(a@, #[trigger] x.bits())),
                known ==> blobs_view(blobs@) == bits_of(witness@),
            decreases n - i,
        {
            proof {
                if known {
                    let b = blobs@[i as int]@;
                    assert(blobs_view(blobs@)[i as int] == bits_of(witness@)[i as int]);
                    assert(witness@[i as int].bits() == b);
                    assert(b.subrange(0, b.len() as int) =~= b);
                    assert(starts(b, witness@[i as int].bits()));
                }
            }
            let x = match T::try_from_bit(blobs[i].as_slice()) {
                Some(x) => x,
                None => {
                    return None;
                },
            };
            if x.to_bit().len() != blobs[i].len() {
                return None;
            }
            proof {
                assert(x.bits() =~= blobs@[i as int]@);
            }
            v.push(x);
            i = i + 1;
        }
        proof {
            assert(bits_of(v@) =~= blobs_view(blobs@));
            assert(v.bits() =~= a@.subrange(0, 8) + a@.subrange(8, next as int));
            assert(a@.subrange(0, 8) + a@.subrange(8, next as int) =~= a@.subrange(0, next as int));
            assert forall|x: Self| starts(a@, #[trigger] x.bits()) implies v.bits() == x.bits() by {
                lemma_list_unique(a@, v@, x@);
            }
        }
        Some(v)
    }
}

/// Bytes start with the bytes of at most one list, up to what its bytes
/// are.
pub proof fn lemma_list_unique<T: BitIO>(s: Seq<u8>, x: Seq<T>, y: Seq<T>)
    requires
        s.len() <= usize::MAX,
        starts(s, word(x.len()) + enc_blobs(bits_of(x))),
        starts(s, word(y.len()) + enc_blobs(bits_of(y))),
    ensures
        word(x.len()) + enc_blobs(bits_of(x)) == word(y.len()) + enc_blobs(bits_of(y)),
{
    lemma_spans();
    lemma_be_len(x.len(), 8);
    lemma_be_len(y.len(), 8);
    lemma_blobs_len(bits_of(x));
    lemma_blobs_len(bits_of(y));
    lemma_starts_split(s, word(x.len()), enc_blobs(bits_of(x)));
    lemma_starts_split(s, word(y.len()), enc_blobs(bits_of(y)));
    lemma_word_unique(s, x.len(), y.len());
    lemma_blobs_unique(s.subrange(8, s.len() as int), bits_of(x), bits_of(y));
}

} // verus!
