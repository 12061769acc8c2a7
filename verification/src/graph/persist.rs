//! Saving a graph as bytes and loading it again.
use crate::costtype::MulTE;
use crate::graph::edge::Edge;
use crate::graph::Graph;
use crate::io::frames::{
    blobs_view, enc_blobs, get_blobs, lemma_blobs_push, lemma_blobs_unique, lemma_starts_split,
    lemma_word_unique,
};
use crate::io::{
    blob, faithful, get_blob, get_word, lemma_be_len, lemma_be_round, lemma_blob_unique,
    lemma_spans, put_blob, put_word, starts, word, BitIO,
};
use crate::network::{last_from, mate};
use crate::scalar::{checked_plus, Scalar};
use std::marker::PhantomData;
use vstd::prelude::*;

verus! {

/// A stored arc as it is written: its links, and its capacity and cost as bytes.
pub struct Record {
    pub from: usize,
    pub to: usize,
    pub next: usize,
    pub opp: usize,
    pub reversed: bool,
    pub weight: Vec<u8>,
    pub cost: Vec<u8>,
}

/// What a record holds.
pub struct RecordModel {
    pub from: nat,
    pub to: nat,
    pub next: nat,
    pub opp: nat,
    pub reversed: bool,
    pub weight: Seq<u8>,
    pub cost: Seq<u8>,
}

impl Record {
    /// What this record holds.
    pub open spec fn view(&self) -> RecordModel {
        RecordModel {
            from: self.from as nat,
            to: self.to as nat,
            next: self.next as nat,
            opp: self.opp as nat,
            reversed: self.reversed,
            weight: self.weight@,
            cost: self.cost@,
        }
    }
}

/// A graph as it is written: the labels as bytes, the arcs and the heads.
pub struct Image {
    pub labels: Vec<Vec<u8>>,
    pub edges: Vec<Record>,
    pub first: Vec<Record>,
}

/// What an image holds.
pub struct ImageModel {
    pub labels: Seq<Seq<u8>>,
    pub edges: Seq<RecordModel>,
    pub first: Seq<RecordModel>,
}

impl Image {
    /// What this image holds.
    pub open spec fn view(&self) -> ImageModel {
        ImageModel {
            labels: Seq::new(self.labels@.len(), |i: int| self.labels@[i]@),
            edges: Seq::new(self.edges@.len(), |i: int| self.edges@[i]@),
            first: Seq::new(self.first@.len(), |i: int| self.first@[i]@),
        }
    }
}

/// The byte that stands for a flag.
pub open spec fn flag(b: bool) -> u8 {
    if b {
        1
    } else {
        0
    }
}

/// The bytes of a record: four links of eight bytes each, the flag, and the
/// capacity and the cost, each behind its length.
pub open spec fn enc_record(r: RecordModel) -> Seq<u8> {
    word(r.from) + word(r.to) + word(r.next) + word(r.opp) + seq![flag(r.reversed)] + blob(
        r.weight,
    ) + blob(r.cost)
}

/// The bytes of a list of records.
pub open spec fn enc_records(s: Seq<RecordModel>) -> Seq<u8>
    decreases s.len(),
{
    if s.len() == 0 {
        Seq::empty()
    } else {
        enc_record(s[0]) + enc_records(s.drop_first())
    }
}

/// The bytes of an image: the labels, the arcs and the heads, each list
/// behind the number of its entries.
pub open spec fn enc_image(m: ImageModel) -> Seq<u8> {
    word(m.labels.len()) + enc_blobs(m.labels) + (word(m.edges.len()) + enc_records(m.edges) + (
    word(m.first.len()) + enc_records(m.first)))
}

/// Whether a machine can hold the record: its links and the lengths of its
/// byte strings are within `usize`.
pub open spec fn record_sized(r: RecordModel) -> bool {
    &&& r.from <= usize::MAX
    &&& r.to <= usize::MAX
    &&& r.next <= usize::MAX
    &&& r.opp <= usize::MAX
    &&& r.weight.len() <= usize::MAX
    &&& r.cost.len() <= usize::MAX
}

/// Whether a machine can hold the image.
pub open spec fn sized(m: ImageModel) -> bool {
    &&& m.labels.len() <= usize::MAX
    &&& m.edges.len() <= usize::MAX
    &&& m.first.len() <= usize::MAX
    &&& forall|i: int| 0 <= i < m.labels.len() ==> (#[trigger] m.labels[i]).len() <= usize::MAX
    &&& forall|i: int| 0 <= i < m.edges.len() ==> record_sized(#[trigger] m.edges[i])
    &&& forall|i: int| 0 <= i < m.first.len() ==> record_sized(#[trigger] m.first[i])
}

/// The bytes of a list with one more record are the bytes of the list and
/// then those of the record.
pub proof fn lemma_records_push(s: Seq<RecordModel>, r: RecordModel)
    ensures
        enc_records(s.push(r)) == enc_records(s) + enc_record(r),
    decreases s.len(),
{
    let t = s.push(r);
    if s.len() == 0 {
        assert(t.drop_first() =~= Seq::<RecordModel>::empty());
        assert(enc_records(t.drop_first()) =~= Seq::<u8>::empty());
        assert(enc_records(t) =~= enc_records(s) + enc_record(r));
    } else {
        assert(t.drop_first() =~= s.drop_first().push(r));
        lemma_records_push(s.drop_first(), r);
        assert(enc_records(t) =~= enc_records(s) + enc_record(r));
    }
}

/// The parts that bytes start with when they start with a record.
pub open spec fn record_parts(s: Seq<u8>, r: RecordModel) -> bool {
    let after_links = s.subrange(33, s.len() as int);
    let weight_end = blob(r.weight).len() as int;
    &&& s.len() >= 33
    &&& s.subrange(0, 8) == word(r.from)
    &&& s.subrange(8, 16) == word(r.to)
    &&& s.subrange(16, 24) == word(r.next)
    &&& s.subrange(24, 32) == word(r.opp)
    &&& s[32] == flag(r.reversed)
    &&& starts(after_links, blob(r.weight))
    &&& starts(after_links.subrange(weight_end, after_links.len() as int), blob(r.cost))
}

/// Bytes that start with a record start with its parts, and the other way
/// round; the record has as many bytes as its parts.
#[verifier::rlimit(30)]
pub proof fn lemma_record_parts(s: Seq<u8>, r: RecordModel)
    ensures
        starts(s, enc_record(r)) <==> record_parts(s, r),
        enc_record(r).len() == 33 + blob(r.weight).len() + blob(r.cost).len(),
{
    lemma_be_len(r.from, 8);
    lemma_be_len(r.to, 8);
    lemma_be_len(r.next, 8);
    lemma_be_len(r.opp, 8);
    let e = enc_record(r);
    let w = blob(r.weight);
    let c = blob(r.cost);
    let wl = w.len() as int;
    let cl = c.len() as int;
    assert(e.len() == 33 + wl + cl);
    assert(e.subrange(0, 8) =~= word(r.from));
    assert(e.subrange(8, 16) =~= word(r.to));
    assert(e.subrange(16, 24) =~= word(r.next));
    assert(e.subrange(24, 32) =~= word(r.opp));
    assert(e[32] == flag(r.reversed));
    assert(e.subrange(33, 33 + wl) =~= w);
    assert(e.subrange(33 + wl, 33 + wl + cl) =~= c);
    let after_links = s.subrange(33, s.len() as int);
    if starts(s, e) {
        let head = s.subrange(0, e.len() as int);
        assert(head == e);
        assert(s.subrange(0, 8) =~= head.subrange(0, 8));
        assert(s.subrange(8, 16) =~= head.subrange(8, 16));
        assert(s.subrange(16, 24) =~= head.subrange(16, 24));
        assert(s.subrange(24, 32) =~= head.subrange(24, 32));
        assert(s[32] == head[32]);
        assert(after_links.subrange(0, wl) =~= head.subrange(33, 33 + wl));
        assert(after_links.subrange(wl, after_links.len() as int).subrange(0, cl)
            =~= head.subrange(33 + wl, 33 + wl + cl));
    }
    if record_parts(s, r) {
        assert(after_links.subrange(0, wl) =~= s.subrange(33, 33 + wl));
        assert(after_links.subrange(wl, after_links.len() as int).subrange(0, cl) =~= s.subrange(
            33 + wl,
            33 + wl + cl,
        ));
        assert(s.subrange(0, e.len() as int) =~= e) by {
            let head = s.subrange(0, e.len() as int);
            assert forall|i: int| 0 <= i < e.len() implies head[i] == e[i] by {
                if i < 8 {
                    assert(s.subrange(0, 8)[i] == s[i]);
                } else if i < 16 {
                    assert(s.subrange(8, 16)[i - 8] == s[i]);
                } else if i < 24 {
                    assert(s.subrange(16, 24)[i - 16] == s[i]);
                } else if i < 32 {
                    assert(s.subrange(24, 32)[i - 24] == s[i]);
                } else if i == 32 {
                } else if i < 33 + wl {
                    assert(s.subrange(33, 33 + wl)[i - 33] == s[i]);
                } else {
                    assert(s.subrange(33 + wl, 33 + wl + cl)[i - 33 - wl] == s[i]);
                }
            }
        }
    }
}

/// Bytes start with at most one record.
pub proof fn lemma_record_unique(s: Seq<u8>, p: RecordModel, q: RecordModel)
    requires
        starts(s, enc_record(p)),
        starts(s, enc_record(q)),
        record_sized(p),
        record_sized(q),
    ensures
        p == q,
{
    lemma_spans();
    lemma_record_parts(s, p);
    lemma_record_parts(s, q);
    lemma_be_round(p.from, 8);
    lemma_be_round(q.from, 8);
    lemma_be_round(p.to, 8);
    lemma_be_round(q.to, 8);
    lemma_be_round(p.next, 8);
    lemma_be_round(q.next, 8);
    lemma_be_round(p.opp, 8);
    lemma_be_round(q.opp, 8);
    let after_links = s.subrange(33, s.len() as int);
    lemma_blob_unique(after_links, p.weight, q.weight);
    let wl = blob(p.weight).len() as int;
    lemma_blob_unique(after_links.subrange(wl, after_links.len() as int), p.cost, q.cost);
    assert(p.weight =~= q.weight);
    assert(p.cost =~= q.cost);
}

/// Bytes start with at most one list of records of a given length.
pub proof fn lemma_records_unique(s: Seq<u8>, x: Seq<RecordModel>, y: Seq<RecordModel>)
    requires
        starts(s, enc_records(x)),
        starts(s, enc_records(y)),
        x.len() == y.len(),
        forall|i: int| 0 <= i < x.len() ==> record_sized(#[trigger] x[i]),
        forall|i: int| 0 <= i < y.len() ==> record_sized(#[trigger] y[i]),
    ensures
        x == y,
    decreases x.len(),
{
    if x.len() > 0 {
        lemma_starts_split(s, enc_record(x[0]), enc_records(x.drop_first()));
        lemma_starts_split(s, enc_record(y[0]), enc_records(y.drop_first()));
        lemma_record_unique(s, x[0], y[0]);
        let rest = s.subrange(enc_record(x[0]).len() as int, s.len() as int);
        assert forall|i: int| 0 <= i < x.drop_first().len() implies record_sized(
            #[trigger] x.drop_first()[i],
        ) by {
            assert(x.drop_first()[i] == x[i + 1]);
        }
        assert forall|i: int| 0 <= i < y.drop_first().len() implies record_sized(
            #[trigger] y.drop_first()[i],
        ) by {
            assert(y.drop_first()[i] == y[i + 1]);
        }
        lemma_records_unique(rest, x.drop_first(), y.drop_first());
        assert(x =~= seq![x[0]] + x.drop_first());
        assert(y =~= seq![y[0]] + y.drop_first());
    } else {
        assert(x =~= y);
    }
}

/// Different images have different bytes.
pub proof fn lemma_image_unique(p: ImageModel, q: ImageModel)
    requires
        sized(p),
        sized(q),
        enc_image(p) == enc_image(q),
    ensures
        p == q,
{
    let s = enc_image(p);
    assert(starts(s, s)) by {
        assert(s.subrange(0, s.len() as int) =~= s);
    }
    lemma_image_first(s, p, q);
}

/// Bytes start with the bytes of at most one image.
pub proof fn lemma_image_first(s: Seq<u8>, p: ImageModel, q: ImageModel)
    requires
        sized(p),
        sized(q),
        starts(s, enc_image(p)),
        starts(s, enc_image(q)),
    ensures
        p == q,
{
    lemma_spans();
    // the labels
    let after_labels = word(p.edges.len()) + enc_records(p.edges) + (word(p.first.len()) + enc_records(
        p.first,
    ));
    let other_labels = word(q.edges.len()) + enc_records(q.edges) + (word(q.first.len()) + enc_records(
        q.first,
    ));
    assert(enc_image(p) == (word(p.labels.len()) + enc_blobs(p.labels)) + after_labels);
    assert(enc_image(q) == (word(q.labels.len()) + enc_blobs(q.labels)) + other_labels);
    lemma_starts_split(s, word(p.labels.len()) + enc_blobs(p.labels), after_labels);
    lemma_starts_split(s, word(q.labels.len()) + enc_blobs(q.labels), other_labels);
    lemma_starts_split(s, word(p.labels.len()), enc_blobs(p.labels));
    lemma_starts_split(s, word(q.labels.len()), enc_blobs(q.labels));
    lemma_word_unique(s, p.labels.len(), q.labels.len());
    lemma_be_len(p.labels.len(), 8);
    let s0 = s.subrange(8, s.len() as int);
    lemma_blobs_unique(s0, p.labels, q.labels);
    // the arcs
    let l1 = (word(p.labels.len()) + enc_blobs(p.labels)).len() as int;
    let s1 = s.subrange(l1, s.len() as int);
    let after_arcs = word(p.first.len()) + enc_records(p.first);
    let other_arcs = word(q.first.len()) + enc_records(q.first);
    assert(after_labels == (word(p.edges.len()) + enc_records(p.edges)) + after_arcs);
    assert(other_labels == (word(q.edges.len()) + enc_records(q.edges)) + other_arcs);
    lemma_starts_split(s1, word(p.edges.len()) + enc_records(p.edges), after_arcs);
    lemma_starts_split(s1, word(q.edges.len()) + enc_records(q.edges), other_arcs);
    lemma_starts_split(s1, word(p.edges.len()), enc_records(p.edges));
    lemma_starts_split(s1, word(q.edges.len()), enc_records(q.edges));
    lemma_word_unique(s1, p.edges.len(), q.edges.len());
    lemma_be_len(p.edges.len(), 8);
    lemma_records_unique(s1.subrange(8, s1.len() as int), p.edges, q.edges);
    // the heads
    let l2 = (word(p.edges.len()) + enc_records(p.edges)).len() as int;
    let s2 = s1.subrange(l2, s1.len() as int);
    lemma_starts_split(s2, word(p.first.len()), enc_records(p.first));
    lemma_starts_split(s2, word(q.first.len()), enc_records(q.first));
    lemma_word_unique(s2, p.first.len(), q.first.len());
    lemma_be_len(p.first.len(), 8);
    lemma_records_unique(s2.subrange(8, s2.len() as int), p.first, q.first);
}

/// What a list of records holds.
pub open spec fn records_view(v: Seq<Record>) -> Seq<RecordModel> {
    Seq::new(v.len(), |i: int| v[i]@)
}

/// Appends the bytes of a record.
pub fn put_record(r: &Record, out: &mut Vec<u8>)
    ensures
        final(out)@ == old(out)@ + enc_record(r@),
{
    put_word(r.from, out);
    put_word(r.to, out);
    put_word(r.next, out);
    put_word(r.opp, out);
    out.push(if r.reversed {
        1
    } else {
        0
    });
    put_blob(r.weight.as_slice(), out);
    put_blob(r.cost.as_slice(), out);
    proof {
        assert(out@ =~= old(out)@ + enc_record(r@));
    }
}

/// Appends the bytes of a list of records.
pub fn put_records(v: &Vec<Record>, out: &mut Vec<u8>)
    ensures
        final(out)@ == old(out)@ + enc_records(records_view(v@)),
{
    let mut i: usize = 0;
    proof {
        assert(records_view(v@).take(0) =~= Seq::<RecordModel>::empty());
        assert(out@ =~= old(out)@ + enc_records(records_view(v@).take(0)));
    }
    while i < v.len()
        invariant
            0 <= i <= v@.len(),
            out@ == old(out)@ + enc_records(records_view(v@).take(i as int)),
        decreases v@.len() - i,
    {
        let ghost before = out@;
        put_record(&v[i], out);
        proof {
            let all = records_view(v@);
            lemma_records_push(all.take(i as int), all[i as int]);
            assert(all.take(i + 1) =~= all.take(i as int).push(all[i as int]));
            assert(out@ =~= old(out)@ + enc_records(all.take(i + 1)));
        }
        i = i + 1;
    }
    proof {
        assert(records_view(v@).take(v@.len() as int) =~= records_view(v@));
    }
}

/// The bytes of an image.
pub fn write_image(img: &Image) -> (out: Vec<u8>)
    ensures
        out@ == enc_image(img@),
{
    let mut out: Vec<u8> = Vec::new();
    put_word(img.labels.len(), &mut out);
    let ghost start = out@;
    let ghost labels = img@.labels;
    let mut i: usize = 0;
    proof {
        assert(labels.take(0) =~= Seq::<Seq<u8>>::empty());
        assert(out@ =~= start + enc_blobs(labels.take(0)));
    }
    while i < img.labels.len()
        invariant
            0 <= i <= img.labels@.len(),
            labels == img@.labels,
            out@ == start + enc_blobs(labels.take(i as int)),
        decreases img.labels@.len() - i,
    {
        put_blob(img.labels[i].as_slice(), &mut out);
        proof {
            lemma_blobs_push(labels.take(i as int), labels[i as int]);
            assert(labels.take(i + 1) =~= labels.take(i as int).push(labels[i as int]));
            assert(out@ =~= start + enc_blobs(labels.take(i + 1)));
        }
        i = i + 1;
    }
    proof {
        assert(labels.take(labels.len() as int) =~= labels);
    }
    put_word(img.edges.len(), &mut out);
    put_records(&img.edges, &mut out);
    put_word(img.first.len(), &mut out);
    put_records(&img.first, &mut out);
    proof {
        assert(records_view(img.edges@) =~= img@.edges);
        assert(records_view(img.first@) =~= img@.first);
        assert(out@ =~= enc_image(img@));
    }
    out
}

/// The record that the bytes of `a` from `pos` on start with, and the place
/// behind it.  Where they start with the record `w`, it is found.
#[verifier::rlimit(50)]
fn get_record(a: &[u8], pos: usize, Ghost(w): Ghost<RecordModel>) -> (r: Option<(Record, usize)>)
    requires
        pos <= a@.len(),
    ensures
        r matches Some((rec, next)) ==> pos <= next <= a@.len() && record_sized(rec@) && a@.subrange(
            pos as int,
            next as int,
        ) == enc_record(rec@),
        record_sized(w) && starts(a@.subrange(pos as int, a@.len() as int), enc_record(w)) ==> (
        r matches Some((rec, next)) && rec@ == w),
{
    let ghost rest = a@.subrange(pos as int, a@.len() as int);
    let ghost found = record_sized(w) && starts(rest, enc_record(w));
    let total = a.len();
    proof {
        lemma_spans();
        lemma_record_parts(rest, w);
        lemma_be_len(w.from, 8);
        lemma_be_len(w.to, 8);
        lemma_be_len(w.next, 8);
        lemma_be_len(w.opp, 8);
        if found {
            lemma_be_round(w.from, 8);
            lemma_be_round(w.to, 8);
            lemma_be_round(w.next, 8);
            lemma_be_round(w.opp, 8);
            assert(rest.subrange(0, 8) =~= a@.subrange(pos as int, pos + 8));
            assert(rest.subrange(8, 16) =~= a@.subrange(pos + 8, pos + 16));
            assert(rest.subrange(16, 24) =~= a@.subrange(pos + 16, pos + 24));
            assert(rest.subrange(24, 32) =~= a@.subrange(pos + 24, pos + 32));
            assert(rest[32] == a@[pos + 32]);
            assert(a@.subrange(pos as int, total as int).subrange(0, 8) =~= rest.subrange(0, 8));
            assert(a@.subrange(pos + 8, total as int).subrange(0, 8) =~= rest.subrange(8, 16));
            assert(a@.subrange(pos + 16, total as int).subrange(0, 8) =~= rest.subrange(16, 24));
            assert(a@.subrange(pos + 24, total as int).subrange(0, 8) =~= rest.subrange(24, 32));
            assert(rest.subrange(33, rest.len() as int) =~= a@.subrange(pos + 33, total as int));
        }
    }
    if total - pos < 33 {
        return None;
    }
    let from = match get_word(a, pos) {
        Some(v) => v,
        None => {
            proof {
                if found {
                    assert(starts(rest, word((w.from as usize) as nat)));
                }
            }
            return None;
        },
    };
    let to = match get_word(a, pos + 8) {
        Some(v) => v,
        None => {
            proof {
                if found {
                    assert(starts(a@.subrange(pos + 8, total as int), word((w.to as usize) as nat)));
                }
            }
            return None;
        },
    };
    let next = match get_word(a, pos + 16) {
        Some(v) => v,
        None => {
            proof {
                if found {
                    assert(starts(
                        a@.subrange(pos + 16, total as int),
                        word((w.next as usize) as nat),
                    ));
                }
            }
            return None;
        },
    };
    let opp = match get_word(a, pos + 24) {
        Some(v) => v,
        None => {
            proof {
                if found {
                    assert(starts(
                        a@.subrange(pos + 24, total as int),
                        word((w.opp as usize) as nat),
                    ));
                }
            }
            return None;
        },
    };
    let mark = a[pos + 32];
    if mark > 1 {
        return None;
    }
    let reversed = mark == 1;
    let (weight, behind) = match get_blob(a, pos + 33) {
        Some(found_blob) => found_blob,
        None => {
            return None;
        },
    };
    let (cost, end) = match get_blob(a, behind) {
        Some(found_blob) => found_blob,
        None => {
            proof {
                if found {
                    let after_links = rest.subrange(33, rest.len() as int);
                    lemma_be_len(weight@.len(), 8);
                    assert(starts(after_links, blob(weight@))) by {
                        assert(after_links.subrange(0, blob(weight@).len() as int)
                            =~= a@.subrange(pos + 33, behind as int));
                    }
                    lemma_blob_unique(after_links, w.weight, weight@);
                    assert(after_links.subrange(
                        blob(w.weight).len() as int,
                        after_links.len() as int,
                    ) =~= a@.subrange(behind as int, total as int));
                }
            }
            return None;
        },
    };
    let rec = Record { from, to, next, opp, reversed, weight, cost };
    proof {
        let e = enc_record(rec@);
        let got = a@.subrange(pos as int, end as int);
        lemma_be_len(from as nat, 8);
        lemma_be_len(to as nat, 8);
        lemma_be_len(next as nat, 8);
        lemma_be_len(opp as nat, 8);
        lemma_be_len(rec@.weight.len(), 8);
        lemma_be_len(rec@.cost.len(), 8);
        lemma_be_round(from as nat, 8);
        lemma_be_round(to as nat, 8);
        lemma_be_round(next as nat, 8);
        lemma_be_round(opp as nat, 8);
        assert(got =~= a@.subrange(pos as int, pos + 8) + a@.subrange(pos + 8, pos + 16)
            + a@.subrange(pos + 16, pos + 24) + a@.subrange(pos + 24, pos + 32) + seq![mark]
            + a@.subrange(pos + 33, behind as int) + a@.subrange(behind as int, end as int));
        if found {
            let after_links = rest.subrange(33, rest.len() as int);
            assert(starts(after_links, blob(weight@))) by {
                assert(after_links.subrange(0, blob(weight@).len() as int) =~= a@.subrange(
                    pos + 33,
                    behind as int,
                ));
            }
            lemma_blob_unique(after_links, w.weight, weight@);
            let tail = after_links.subrange(blob(w.weight).len() as int, after_links.len() as int);
            assert(tail =~= a@.subrange(behind as int, total as int));
            assert(starts(tail, blob(cost@))) by {
                assert(tail.subrange(0, blob(cost@).len() as int) =~= a@.subrange(
                    behind as int,
                    end as int,
                ));
            }
            lemma_blob_unique(tail, w.cost, cost@);
            assert(rec@.weight =~= w.weight);
            assert(rec@.cost =~= w.cost);
        }
    }
    Some((rec, end))
}

/// The `count` records that the bytes of `a` from `pos` on start with, and
/// the place behind them.  Where they start with the records `w`, these are found.
fn get_records(a: &[u8], pos: usize, count: usize, Ghost(w): Ghost<Seq<RecordModel>>) -> (r:
    Option<(Vec<Record>, usize)>)
    requires
        pos <= a@.len(),
    ensures
        r matches Some((v, next)) ==> pos <= next <= a@.len() && v@.len() == count && a@.subrange(
            pos as int,
            next as int,
        ) == enc_records(records_view(v@)) && (forall|i: int|
            0 <= i < v@.len() ==> record_sized(#[trigger] records_view(v@)[i])),
        w.len() == count && (forall|i: int| 0 <= i < w.len() ==> record_sized(#[trigger] w[i]))
            && starts(a@.subrange(pos as int, a@.len() as int), enc_records(w)) ==> (
        r matches Some((v, next)) && records_view(v@) == w),
{
    let total = a.len();
    let ghost found = w.len() == count && (forall|i: int|
        0 <= i < w.len() ==> record_sized(#[trigger] w[i])) && starts(
        a@.subrange(pos as int, a@.len() as int),
        enc_records(w),
    );
    let mut v: Vec<Record> = Vec::new();
    let mut at: usize = pos;
    let mut i: usize = 0;
    proof {
        assert(a@.subrange(pos as int, pos as int) =~= enc_records(records_view(v@)));
        assert(w.skip(0) =~= w);
        assert(records_view(v@) =~= w.take(0));
    }
    while i < count
        invariant
            0 <= i <= count,
            pos <= at <= total,
            total == a@.len(),
            v@.len() == i,
            forall|j: int| 0 <= j < v@.len() ==> record_sized(#[trigger] records_view(v@)[j]),
            a@.subrange(pos as int, at as int) == enc_records(records_view(v@)),
            found == (w.len() == count && (forall|i: int|
                0 <= i < w.len() ==> record_sized(#[trigger] w[i])) && starts(
                a@.subrange(pos as int, a@.len() as int),
                enc_records(w),
            )),
            found ==> w.len() == count && (forall|j: int|
                0 <= j < w.len() ==> record_sized(#[trigger] w[j])),
            found ==> records_view(v@) == w.take(i as int),
            found ==> starts(a@.subrange(at as int, total as int), enc_records(w.skip(i as int))),
        decreases count - i,
    {
        let ghost expected = if found {
            w[i as int]
        } else {
            arbitrary()
        };
        let ghost rest = a@.subrange(at as int, total as int);
        proof {
            if found {
                let tail = w.skip(i as int);
                assert(tail[0] == w[i as int]);
                assert(record_sized(w[i as int]));
                assert(tail.drop_first() =~= w.skip(i + 1));
                lemma_starts_split(rest, enc_record(tail[0]), enc_records(tail.drop_first()));
            }
        }
        match get_record(a, at, Ghost(expected)) {
            None => {
                return None;
            },
            Some((rec, next)) => {
                proof {
                    let before = records_view(v@);
                    lemma_records_push(before, rec@);
                    assert(records_view(v@.push(rec)) =~= before.push(rec@));
                    assert(a@.subrange(pos as int, next as int) =~= a@.subrange(
                        pos as int,
                        at as int,
                    ) + a@.subrange(at as int, next as int));
                    if found {
                        assert(w.take(i + 1) =~= w.take(i as int).push(w[i as int]));
                        assert(rest.subrange(enc_record(rec@).len() as int, rest.len() as int)
                            =~= a@.subrange(next as int, total as int));
                    }
                }
                v.push(rec);
                at = next;
            },
        }
        i = i + 1;
    }
    proof {
        if found {
            assert(w.take(count as int) =~= w);
        }
    }
    Some((v, at))
}

/// The image whose bytes `a` starts with.  Where it starts with the bytes
/// of the image `m`, it is found.
fn read_image(a: &[u8], Ghost(m): Ghost<ImageModel>) -> (r: Option<Image>)
    ensures
        r matches Some(img) ==> starts(a@, enc_image(img@)) && sized(img@),
        sized(m) && starts(a@, enc_image(m)) ==> (r matches Some(img) && img@ == m),
{
    let total = a.len();
    let ghost found = sized(m) && starts(a@, enc_image(m));
    let ghost s = a@;
    let ghost after_labels = word(m.edges.len()) + enc_records(m.edges) + (word(m.first.len()) + enc_records(
        m.first,
    ));
    let ghost after_arcs = word(m.first.len()) + enc_records(m.first);
    proof {
        lemma_spans();
        assert(s.subrange(0, s.len() as int) =~= s);
        lemma_be_len(m.labels.len(), 8);
        lemma_be_len(m.edges.len(), 8);
        lemma_be_len(m.first.len(), 8);
        if found {
            assert(enc_image(m) == (word(m.labels.len()) + enc_blobs(m.labels)) + after_labels);
            lemma_starts_split(s, word(m.labels.len()) + enc_blobs(m.labels), after_labels);
            lemma_starts_split(s, word(m.labels.len()), enc_blobs(m.labels));
            lemma_be_round(m.labels.len(), 8);
        }
    }
    let n = match get_word(a, 0) {
        Some(v) => v,
        None => {
            proof {
                if found {
                    assert(starts(s, word((m.labels.len() as usize) as nat)));
                }
            }
            return None;
        },
    };
    proof {
        lemma_be_len(n as nat, 8);
        lemma_be_round(n as nat, 8);
        if found {
            assert(s.subrange(0, 8) == word(m.labels.len()));
            assert(n == m.labels.len());
            assert(a@.subrange(8, total as int) =~= s.subrange(8, s.len() as int));
        }
    }
    let (labels, at1) = match get_blobs(a, 8, n, Ghost(m.labels)) {
        Some(found_list) => found_list,
        None => {
            return None;
        },
    };
    proof {
        if found {
            let l1 = (word(m.labels.len()) + enc_blobs(m.labels)).len() as int;
            assert(l1 == at1) by {
                assert(a@.subrange(8, at1 as int).len() == enc_blobs(m.labels).len());
            }
            let s1 = s.subrange(l1, s.len() as int);
            assert(after_labels == (word(m.edges.len()) + enc_records(m.edges)) + after_arcs);
            lemma_starts_split(s1, word(m.edges.len()) + enc_records(m.edges), after_arcs);
            lemma_starts_split(s1, word(m.edges.len()), enc_records(m.edges));
            lemma_be_round(m.edges.len(), 8);
            assert(s1 =~= a@.subrange(at1 as int, total as int));
        }
    }
    let k = match get_word(a, at1) {
        Some(v) => v,
        None => {
            proof {
                if found {
                    assert(starts(
                        a@.subrange(at1 as int, total as int),
                        word((m.edges.len() as usize) as nat),
                    ));
                }
            }
            return None;
        },
    };
    proof {
        lemma_be_len(k as nat, 8);
        lemma_be_round(k as nat, 8);
        if found {
            let s1 = a@.subrange(at1 as int, total as int);
            assert(s1.subrange(0, 8) =~= a@.subrange(at1 as int, at1 + 8));
            assert(k == m.edges.len());
            assert(s1.subrange(8, s1.len() as int) =~= a@.subrange(at1 + 8, total as int));
        }
    }
    let (edges, at2) = match get_records(a, at1 + 8, k, Ghost(m.edges)) {
        Some(found_list) => found_list,
        None => {
            return None;
        },
    };
    proof {
        if found {
            let s1 = a@.subrange(at1 as int, total as int);
            let l2 = (word(m.edges.len()) + enc_records(m.edges)).len() as int;
            assert(at1 + l2 == at2) by {
                assert(a@.subrange(at1 + 8, at2 as int).len() == enc_records(m.edges).len());
            }
            let s2 = s1.subrange(l2, s1.len() as int);
            assert(s2 =~= a@.subrange(at2 as int, total as int));
            lemma_starts_split(s2, word(m.first.len()), enc_records(m.first));
            lemma_be_round(m.first.len(), 8);
        }
    }
    let j = match get_word(a, at2) {
        Some(v) => v,
        None => {
            proof {
                if found {
                    assert(starts(
                        a@.subrange(at2 as int, total as int),
                        word((m.first.len() as usize) as nat),
                    ));
                }
            }
            return None;
        },
    };
    proof {
        lemma_be_len(j as nat, 8);
        lemma_be_round(j as nat, 8);
        if found {
            let s2 = a@.subrange(at2 as int, total as int);
            assert(s2.subrange(0, 8) =~= a@.subrange(at2 as int, at2 + 8));
            assert(j == m.first.len());
            assert(s2.subrange(8, s2.len() as int) =~= a@.subrange(at2 + 8, total as int));
        }
    }
    let (first, at3) = match get_records(a, at2 + 8, j, Ghost(m.first)) {
        Some(found_list) => found_list,
        None => {
            return None;
        },
    };
    let img = Image { labels, edges, first };
    proof {
        assert(img@.labels =~= blobs_view(labels@));
        assert(img@.edges =~= records_view(edges@));
        assert(img@.first =~= records_view(first@));
        assert(a@.subrange(0, at3 as int) =~= a@.subrange(0, 8) + a@.subrange(8, at1 as int) + (a@.subrange(
            at1 as int,
            at1 + 8,
        ) + a@.subrange(at1 + 8, at2 as int) + (a@.subrange(at2 as int, at2 + 8) + a@.subrange(
            at2 + 8,
            at3 as int,
        ))));
        if found {
            assert(img@.labels =~= m.labels);
            assert(img@.edges =~= m.edges);
            assert(img@.first =~= m.first);
        }
    }
    Some(img)
}

/// What is written of a stored arc.
pub open(crate) spec fn record_of<T: Scalar + BitIO, E: Scalar + BitIO>(
    e: Edge<T, E>,
) -> RecordModel {
    RecordModel {
        from: e.from as nat,
        to: e.to as nat,
        next: e.next_edge as nat,
        opp: e.opp_edge as nat,
        reversed: e.reversed,
        weight: e.weight.bits(),
        cost: e.cost.bits(),
    }
}

/// The bytes of a list of records are at least thirty-three for each of
/// them, and more than the capacity and the cost of any of them have.
pub proof fn lemma_records_len(s: Seq<RecordModel>)
    ensures
        33 * s.len() <= enc_records(s).len(),
        forall|i: int|
            0 <= i < s.len() ==> (#[trigger] s[i]).weight.len() + s[i].cost.len() + 33
                <= enc_records(s).len(),
    decreases s.len(),
{
    if s.len() > 0 {
        lemma_records_len(s.drop_first());
        lemma_record_parts(enc_record(s[0]), s[0]);
        lemma_be_len(s[0].weight.len(), 8);
        lemma_be_len(s[0].cost.len(), 8);
        assert forall|i: int| 0 <= i < s.len() implies (#[trigger] s[i]).weight.len()
            + s[i].cost.len() + 33 <= enc_records(s).len() by {
            if i > 0 {
                assert(s[i] == s.drop_first()[i - 1]);
            }
        }
    }
}

/// What is written of a list of stored arcs.
pub open(crate) spec fn records_of<T: Scalar + BitIO, E: Scalar + BitIO>(
    w: Seq<Edge<T, E>>,
) -> Seq<RecordModel> {
    Seq::new(w.len(), |i: int| record_of(w[i]))
}

impl<L, T: Scalar, E: Scalar, M: MulTE<T, E>> Graph<L, T, E, M> {
    /// Whether the graph is well-formed.
    pub fn is_wf(&self) -> (r: bool)
        ensures
            r == self.wf(),
    {
        let n = self.first.len();
        let m = self.edges.len();
        let ghost net = self@;
        let ghost limit = T::max_value();
        if self.labels.len() != n || m % 2 != 0 {
            return false;
        }
        let nothing = T::zero();
        let free = E::zero();
        let mut last: Vec<usize> = Vec::new();
        while last.len() < n
            invariant
                last@.len() <= n,
                forall|v: int| 0 <= v < last@.len() ==> (#[trigger] last@[v]) == usize::MAX,
            decreases n - last@.len(),
        {
            last.push(usize::MAX);
        }
        let mut e: usize = 0;
        while e < m
            invariant
                net == self@,
                limit == T::max_value(),
                n == net.n(),
                m == net.m(),
                m % 2 == 0,
                e % 2 == 0,
                0 <= e <= m,
                last@.len() == n,
                nothing.value() == 0,
                forall|v: int| 0 <= v < n ==> (#[trigger] last@[v]) as int == last_from(
                    net.arcs,
                    v,
                    e as int,
                ),
                forall|j: int| 0 <= j < e ==> #[trigger] net.arc_ok(j, limit),
            ensures
                e == m,
                last@.len() == n,
                forall|v: int| 0 <= v < n ==> (#[trigger] last@[v]) as int == last_from(
                    net.arcs,
                    v,
                    m as int,
                ),
                forall|j: int| 0 <= j < m ==> #[trigger] net.arc_ok(j, limit),
            decreases m - e,
        {
            let a = &self.edges[e];
            let b = &self.edges[e + 1];
            proof {
                assert(a@ == net.arcs[e as int]);
                assert(b@ == net.arcs[e + 1]);
                assert(mate(e as int) == e + 1);
                assert(mate(e + 1) == e as int);
                if self.wf() {
                    assert(net.arc_ok(e as int, limit));
                    assert(net.arc_ok(e + 1, limit));
                }
                a.weight.lemma_bounds();
            }
            if a.from >= n || a.to >= n || a.opp_edge != e + 1 || a.reversed || a.next_edge
                != last[a.from] {
                return false;
            }
            if b.from != a.to || b.to != a.from || b.opp_edge != e || !b.reversed {
                return false;
            }
            let ghost older = last@;
            last.set(a.from, e);
            if b.next_edge != last[b.from] {
                return false;
            }
            last.set(b.from, e + 1);
            if !b.cost.same(&a.cost) || a.weight.less(&nothing) || b.weight.less(&nothing) {
                return false;
            }
            match checked_plus(&a.weight, &b.weight) {
                None => {
                    return false;
                },
                Some(both) => {
                    proof {
                        both.lemma_bounds();
                    }
                },
            }
            proof {
                assert forall|v: int| 0 <= v < n implies (#[trigger] last@[v]) as int == last_from(
                    net.arcs,
                    v,
                    e + 2,
                ) by {
                    assert(older[v] as int == last_from(net.arcs, v, e as int));
                    assert(last_from(net.arcs, v, e + 1) == if net.arcs[e as int].from == v {
                        e as int
                    } else {
                        last_from(net.arcs, v, e as int)
                    });
                    assert(last_from(net.arcs, v, e + 2) == if net.arcs[e + 1].from == v {
                        e + 1
                    } else {
                        last_from(net.arcs, v, e + 1)
                    });
                }
                assert(net.arc_ok(e as int, limit));
                assert(net.arc_ok(e + 1, limit));
            }
            e = e + 2;
        }
        let mut v: usize = 0;
        while v < n
            invariant
                net == self@,
                n == net.n(),
                m == net.m(),
                0 <= v <= n,
                last@.len() == n,
                nothing.value() == 0,
                free.value() == 0,
                forall|u: int| 0 <= u < n ==> (#[trigger] last@[u]) as int == last_from(
                    net.arcs,
                    u,
                    m as int,
                ),
                forall|u: int| 0 <= u < v ==> #[trigger] net.head_ok(u),
            decreases n - v,
        {
            let h = &self.first[v];
            proof {
                assert(h@ == net.heads[v as int]);
                if self.wf() {
                    assert(net.head_ok(v as int));
                }
            }
            if h.from != v || h.to != v || h.next_edge != last[v] || h.opp_edge != usize::MAX
                || h.reversed || !h.weight.same(&nothing) || !h.cost.same(&free) {
                return false;
            }
            v = v + 1;
        }
        true
    }
}

impl<L: BitIO, T: Scalar + BitIO, E: Scalar + BitIO, M: MulTE<T, E>> Graph<L, T, E, M> {
    /// What is written of the graph.
    pub open(crate) spec fn image(&self) -> ImageModel {
        ImageModel {
            labels: Seq::new(self.labels@.len(), |i: int| self.labels@[i].bits()),
            edges: records_of(self.edges@),
            first: records_of(self.first@),
        }
    }

    /// The bytes that the graph is saved as.
    pub open(crate) spec fn encoding(&self) -> Seq<u8> {
        enc_image(self.image())
    }

    /// The records of a list of arcs.
    fn records(list: &Vec<Edge<T, E>>) -> (r: Vec<Record>)
        ensures
            records_view(r@) == records_of(list@),
    {
        let mut r: Vec<Record> = Vec::new();
        let mut i: usize = 0;
        while i < list.len()
            invariant
                0 <= i <= list@.len(),
                r@.len() == i,
                forall|j: int| 0 <= j < i ==> (#[trigger] r@[j])@ == record_of(list@[j]),
            decreases list@.len() - i,
        {
            let e = &list[i];
            r.push(
                Record {
                    from: e.from,
                    to: e.to,
                    next: e.next_edge,
                    opp: e.opp_edge,
                    reversed: e.reversed,
                    weight: e.weight.to_bit(),
                    cost: e.cost.to_bit(),
                },
            );
            i = i + 1;
        }
        proof {
            assert(records_view(r@) =~= records_of(list@));
        }
        r
    }

    /// The bytes that the graph is saved as: the labels, the arcs and the
    /// heads, each list behind the number of its entries, every number as
    /// eight bytes and every label, capacity and cost behind its length.
    pub fn to_bytes(&self) -> (out: Vec<u8>)
        ensures
            out@ == self.encoding(),
    {
        let mut labels: Vec<Vec<u8>> = Vec::new();
        let mut i: usize = 0;
        while i < self.labels.len()
            invariant
                0 <= i <= self.labels@.len(),
                labels@.len() == i,
                forall|j: int| 0 <= j < i ==> (#[trigger] labels@[j])@ == self.labels@[j].bits(),
            decreases self.labels@.len() - i,
        {
            labels.push(self.labels[i].to_bit());
            i = i + 1;
        }
        let img = Image {
            labels,
            edges: Self::records(&self.edges),
            first: Self::records(&self.first),
        };
        proof {
            assert(img@.labels =~= self.image().labels);
            assert(img@.edges =~= records_view(img.edges@));
            assert(img@.first =~= records_view(img.first@));
        }
        write_image(&img)
    }

    /// The arcs that a list of records stands for, if every capacity and
    /// cost is the bytes of a value.
    fn arcs_of(list: &Vec<Record>) -> (r: Option<Vec<Edge<T, E>>>)
        ensures
            r matches Some(v) ==> records_of(v@) == records_view(
                list@,
            ),
            forall|w: Seq<Edge<T, E>>|
                #[trigger] records_of(w) == records_view(list@) ==> (
                r matches Some(v) && v@.len() == w.len()),
    {
        let mut v: Vec<Edge<T, E>> = Vec::new();
        let mut i: usize = 0;
        while i < list.len()
            invariant
                0 <= i <= list@.len(),
                v@.len() == i,
                forall|j: int| 0 <= j < i ==> record_of(#[trigger] v@[j]) == list@[j]@,
            decreases list@.len() - i,
        {
            let rec = &list[i];
            proof {
                assert forall|w: Seq<Edge<T, E>>|
                    #[trigger] records_of(w) == records_view(
                        list@,
                    ) implies w.len() == list@.len() && starts(
                    rec.weight@,
                    w[i as int].weight.bits(),
                ) && starts(rec.cost@, w[i as int].cost.bits()) && w[i as int].weight.bits()
                    == rec.weight@ && w[i as int].cost.bits() == rec.cost@ by {
                    let s = records_of(w);
                    assert(s.len() == records_view(list@).len());
                    assert(s[i as int] == records_view(list@)[i as int]);
                    assert(rec.weight@.subrange(0, rec.weight@.len() as int) =~= rec.weight@);
                    assert(rec.cost@.subrange(0, rec.cost@.len() as int) =~= rec.cost@);
                }
            }
            let weight = match T::try_from_bit(rec.weight.as_slice()) {
                Some(x) => x,
                None => {
                    return None;
                },
            };
            let cost = match E::try_from_bit(rec.cost.as_slice()) {
                Some(x) => x,
                None => {
                    return None;
                },
            };
            if weight.to_bit().len() != rec.weight.len() || cost.to_bit().len() != rec.cost.len() {
                return None;
            }
            proof {
                assert(weight.bits() =~= rec.weight@);
                assert(cost.bits() =~= rec.cost@);
            }
            v.push(
                Edge {
                    from: rec.from,
                    to: rec.to,
                    next_edge: rec.next,
                    opp_edge: rec.opp,
                    weight,
                    cost,
                    reversed: rec.reversed,
                },
            );
            i = i + 1;
        }
        proof {
            assert(records_of(v@) =~= records_view(list@));
            assert forall|w: Seq<Edge<T, E>>|
                #[trigger] records_of(w) == records_view(
                    list@,
                ) implies v@.len() == w.len() by {
                let s = records_of(w);
                assert(s.len() == records_view(list@).len());
            }
        }
        Some(v)
    }

    /// The graph whose bytes `a` starts with: it holds the network of every
    /// graph with whose bytes `a` starts, and its labels have the bytes of
    /// the labels of such a graph.  What follows the bytes of the graph is
    /// not read.  There must be such a graph, and capacities with the same
    /// bytes must be equal, and costs too.
    pub fn from_bytes(a: &[u8]) -> (r: Self)
        requires
            faithful::<T>(),
            faithful::<E>(),
            exists|g: Self| g.wf() && starts(a@, #[trigger] g.encoding()),
        ensures
            r.wf(),
            starts(a@, r.encoding()),
            forall|g: Self|
                starts(a@, #[trigger] g.encoding()) ==> r@ == g@ && Self::same_labels(
                    r.labels(),
                    g.labels(),
                ),
    {
        let total = a.len();
        match Self::try_from_bytes(a) {
            Some(h) => {
                proof {
                    assert forall|g: Self| starts(a@, #[trigger] g.encoding()) implies h@ == g@
                        && Self::same_labels(h.labels(), g.labels()) by {
                        Self::lemma_same_start(a@, h, g);
                    }
                }
                h
            },
            None => vstd::pervasive::unreached(),
        }
    }

    /// Whether two lists of labels are as long and have the same bytes,
    /// label by label.
    pub open spec fn same_labels(a: Seq<L>, b: Seq<L>) -> bool {
        &&& a.len() == b.len()
        &&& forall|i: int| 0 <= i < a.len() ==> (#[trigger] a[i]).bits() == b[i].bits()
    }

    /// The graph whose bytes `a` starts with; nothing where `a` starts with
    /// the bytes of none.  What follows the bytes of the graph is not read.
    ///
    /// What is returned is a well-formed graph with whose bytes `a` starts.
    /// Where `a` starts with the bytes of a well-formed graph, a graph is
    /// returned, provided that capacities with the same bytes are equal, and
    /// costs too.
    pub fn try_from_bytes(a: &[u8]) -> (r: Option<Self>)
        ensures
            r matches Some(g) ==> g.wf() && starts(a@, g.encoding()),
            faithful::<T>() && faithful::<E>() && (exists|g: Self|
                g.wf() && starts(a@, #[trigger] g.encoding())) ==> r is Some,
    {
        let ghost known = exists|g: Self| g.wf() && starts(a@, #[trigger] g.encoding());
        let ghost witness = choose|g: Self| g.wf() && starts(a@, #[trigger] g.encoding());
        // the three lists are at least the numbers of their entries
        if a.len() < 24 {
            proof {
                let m = witness.image();
                lemma_be_len(m.labels.len(), 8);
                lemma_be_len(m.edges.len(), 8);
                lemma_be_len(m.first.len(), 8);
            }
            return None;
        }
        proof {
            if known {
                Self::lemma_sized(witness);
            }
        }
        let ghost found = known && faithful::<T>() && faithful::<E>();
        let img = match read_image(a, Ghost(witness.image())) {
            Some(img) => img,
            None => {
                return None;
            },
        };
        let mut labels: Vec<L> = Vec::new();
        let mut i: usize = 0;
        while i < img.labels.len()
            invariant
                0 <= i <= img.labels@.len(),
                labels@.len() == i,
                forall|j: int| 0 <= j < i ==> (#[trigger] labels@[j]).bits() == img.labels@[j]@,
                known == (exists|g: Self| g.wf() && starts(a@, #[trigger] g.encoding())),
                known ==> img@ == witness.image(),
            decreases img.labels@.len() - i,
        {
            proof {
                if known {
                    assert(witness.image().labels.len() == img@.labels.len());
                    assert(witness.image().labels[i as int] == img@.labels[i as int]);
                    assert(img@.labels[i as int] == img.labels@[i as int]@);
                    let b = img.labels@[i as int]@;
                    assert(witness.labels@[i as int].bits() == b);
                    assert(b.subrange(0, b.len() as int) =~= b);
                    assert(starts(b, witness.labels@[i as int].bits()));
                }
            }
            let label = match L::try_from_bit(img.labels[i].as_slice()) {
                Some(x) => x,
                None => {
                    return None;
                },
            };
            if label.to_bit().len() != img.labels[i].len() {
                return None;
            }
            proof {
                assert(label.bits() =~= img.labels@[i as int]@);
            }
            labels.push(label);
            i = i + 1;
        }
        proof {
            if known {
                assert(records_of(witness.edges@)
                    == witness.image().edges);
                assert(witness.image().edges =~= records_view(img.edges@));
                assert(records_of(witness.first@)
                    == witness.image().first);
                assert(witness.image().first =~= records_view(img.first@));
            }
        }
        let edges = match Self::arcs_of(&img.edges) {
            Some(v) => v,
            None => {
                return None;
            },
        };
        let first = match Self::arcs_of(&img.first) {
            Some(v) => v,
            None => {
                return None;
            },
        };
        let g = Self { labels, edges, first, m: PhantomData };
        proof {
            assert(g.image().labels =~= img@.labels);
            assert(g.image().edges =~= img@.edges);
            assert(g.image().first =~= img@.first);
            assert(g.image() == img@);
            if found {
                Self::lemma_same_image(g, witness);
            }
        }
        if g.is_wf() {
            Some(g)
        } else {
            None
        }
    }

    /// A machine can hold what is written of a graph if it can hold the
    /// bytes of the graph.
    pub proof fn lemma_sized(g: Self)
        requires
            g.encoding().len() <= usize::MAX,
        ensures
            sized(g.image()),
    {
        let m = g.image();
        lemma_be_len(m.labels.len(), 8);
        lemma_be_len(m.edges.len(), 8);
        lemma_be_len(m.first.len(), 8);
        crate::io::frames::lemma_blobs_len(m.labels);
        lemma_records_len(m.edges);
        lemma_records_len(m.first);
        assert forall|i: int| 0 <= i < m.edges.len() implies record_sized(#[trigger] m.edges[i]) by {
            assert(m.edges[i] == record_of(g.edges@[i]));
        }
        assert forall|i: int| 0 <= i < m.first.len() implies record_sized(#[trigger] m.first[i]) by {
            assert(m.first[i] == record_of(g.first@[i]));
        }
    }

    /// Graphs of which the same is written hold the same network, provided
    /// that capacities with the same bytes are equal, and costs too; and
    /// their labels have the same bytes.
    pub proof fn lemma_same_image(g: Self, h: Self)
        requires
            g.image() == h.image(),
            faithful::<T>(),
            faithful::<E>(),
        ensures
            g@ == h@,
            g.labels().len() == h.labels().len(),
            forall|i: int|
                0 <= i < g.labels().len() ==> (#[trigger] g.labels()[i]).bits() == h.labels()[i].bits(),
            g.wf() == h.wf(),
    {
        let p = g.image();
        let q = h.image();
        assert(p.labels.len() == q.labels.len());
        assert(p.edges.len() == q.edges.len());
        assert(p.first.len() == q.first.len());
        assert forall|i: int| 0 <= i < g.labels().len() implies (#[trigger] g.labels()[i]).bits()
            == h.labels()[i].bits() by {
            assert(p.labels[i] == q.labels[i]);
        }
        assert forall|i: int| 0 <= i < g.edges@.len() implies (#[trigger] g.edges@[i])@
            == h.edges@[i]@ by {
            assert(p.edges[i] == q.edges[i]);
            let x = g.edges@[i];
            let y = h.edges@[i];
            assert(x.weight.bits() == y.weight.bits());
            assert(x.cost.bits() == y.cost.bits());
        }
        assert forall|i: int| 0 <= i < g.first@.len() implies (#[trigger] g.first@[i])@
            == h.first@[i]@ by {
            assert(p.first[i] == q.first[i]);
            let x = g.first@[i];
            let y = h.first@[i];
            assert(x.weight.bits() == y.weight.bits());
            assert(x.cost.bits() == y.cost.bits());
        }
        assert(g@.arcs =~= h@.arcs);
        assert(g@.heads =~= h@.heads);
    }

    /// Graphs with whose bytes the same bytes start hold the same network,
    /// provided that capacities with the same bytes are equal, and costs
    /// too; and their labels have the same bytes.
    pub proof fn lemma_same_start(s: Seq<u8>, g: Self, h: Self)
        requires
            s.len() <= usize::MAX,
            starts(s, g.encoding()),
            starts(s, h.encoding()),
            faithful::<T>(),
            faithful::<E>(),
        ensures
            g.encoding() == h.encoding(),
            g@ == h@,
            Self::same_labels(g.labels(), h.labels()),
            g.wf() == h.wf(),
    {
        Self::lemma_sized(g);
        Self::lemma_sized(h);
        lemma_image_first(s, g.image(), h.image());
        Self::lemma_round_trip(g, h);
    }

    /// The bytes of a graph start with the bytes of no other graph: bytes
    /// that are cut short start with the bytes of no graph.
    pub proof fn lemma_cut_short(g: Self, h: Self)
        requires
            g.encoding().len() <= usize::MAX,
            starts(g.encoding(), h.encoding()),
        ensures
            h.encoding() == g.encoding(),
    {
        let s = g.encoding();
        assert(starts(s, s)) by {
            assert(s.subrange(0, s.len() as int) =~= s);
        }
        Self::lemma_sized(g);
        Self::lemma_sized(h);
        lemma_image_first(s, g.image(), h.image());
    }

    /// Round trip: a graph that has the bytes of a well-formed graph holds
    /// the same network, provided that capacities with the same bytes are
    /// equal, and costs too; and its labels have the same bytes.  So a graph
    /// that is saved and loaded again behaves as the graph that was saved.
    pub proof fn lemma_round_trip(g: Self, h: Self)
        requires
            g.encoding() == h.encoding(),
            g.encoding().len() <= usize::MAX,
            faithful::<T>(),
            faithful::<E>(),
        ensures
            g@ == h@,
            g.labels().len() == h.labels().len(),
            forall|i: int|
                0 <= i < g.labels().len() ==> (#[trigger] g.labels()[i]).bits() == h.labels()[i].bits(),
            g.wf() == h.wf(),
    {
        Self::lemma_sized(g);
        Self::lemma_sized(h);
        lemma_image_unique(g.image(), h.image());
        Self::lemma_same_image(g, h);
    }
}

} // verus!
