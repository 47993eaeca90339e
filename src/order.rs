use vstd::prelude::*;
use vstd::utf8::{encode_utf8, encode_utf8_decode_utf8};
use crate::geometry::Rect;
use crate::index::ItemRecord;
use crate::model::{records, unique_ids};

verus! {

/// Lexicographic order on byte strings: a proper prefix comes first.
pub open spec fn bytes_lt(a: Seq<u8>, b: Seq<u8>) -> bool
    decreases a.len(),
{
    if a.len() == 0 {
        b.len() > 0
    } else if b.len() == 0 {
        false
    } else if a[0] != b[0] {
        a[0] < b[0]
    } else {
        bytes_lt(a.drop_first(), b.drop_first())
    }
}

/// Identifiers are ordered by their UTF-8 bytes, as `String`s compare.
pub open spec fn id_before(a: Seq<char>, b: Seq<char>) -> bool {
    bytes_lt(encode_utf8(a), encode_utf8(b))
}

/// Records in strictly increasing order of identifier.
pub open spec fn sorted_by_id(s: Seq<(Seq<char>, Rect)>) -> bool {
    forall|i: int, j: int| 0 <= i < j < s.len() ==> id_before(#[trigger] s[i].0, #[trigger] s[j].0)
}

proof fn lemma_bytes_lt_asymmetric(a: Seq<u8>, b: Seq<u8>)
    ensures
        !(bytes_lt(a, b) && bytes_lt(b, a)),
    decreases a.len(),
{
    if a.len() > 0 && b.len() > 0 && a[0] == b[0] {
        lemma_bytes_lt_asymmetric(a.drop_first(), b.drop_first());
    }
}

proof fn lemma_bytes_lt_total(a: Seq<u8>, b: Seq<u8>)
    requires
        a != b,
    ensures
        bytes_lt(a, b) || bytes_lt(b, a),
    decreases a.len(),
{
    if a.len() > 0 && b.len() > 0 && a[0] == b[0] {
        if a.drop_first() == b.drop_first() {
            assert(a =~= seq![a[0]] + a.drop_first());
            assert(b =~= seq![b[0]] + b.drop_first());
        }
        lemma_bytes_lt_total(a.drop_first(), b.drop_first());
    }
    if a.len() == 0 && b.len() == 0 {
        assert(a =~= b);
    }
}

proof fn lemma_bytes_lt_transitive(a: Seq<u8>, b: Seq<u8>, c: Seq<u8>)
    requires
        bytes_lt(a, b),
        bytes_lt(b, c),
    ensures
        bytes_lt(a, c),
    decreases a.len(),
{
    if a.len() > 0 && b.len() > 0 && c.len() > 0 && a[0] == b[0] && b[0] == c[0] {
        lemma_bytes_lt_transitive(a.drop_first(), b.drop_first(), c.drop_first());
    }
}

/// Distinct identifiers are ordered one way or the other.
proof fn lemma_id_total(a: Seq<char>, b: Seq<char>)
    requires
        a != b,
    ensures
        id_before(a, b) || id_before(b, a),
{
    encode_utf8_decode_utf8(a);
    encode_utf8_decode_utf8(b);
    lemma_bytes_lt_total(encode_utf8(a), encode_utf8(b));
}

fn bytes_less(a: &[u8], b: &[u8]) -> (r: bool)
    ensures
        r == bytes_lt(a@, b@),
{
    let mut i: usize = 0;
    assert(a@.subrange(0, a@.len() as int) =~= a@);
    assert(b@.subrange(0, b@.len() as int) =~= b@);
    while i < a.len() && i < b.len()
        invariant
            i <= a@.len(),
            i <= b@.len(),
            bytes_lt(a@, b@) == bytes_lt(a@.subrange(i as int, a@.len() as int), b@.subrange(i as int, b@.len() as int)),
        decreases a.len() - i,
    {
        let ghost sa = a@.subrange(i as int, a@.len() as int);
        let ghost sb = b@.subrange(i as int, b@.len() as int);
        assert(sa[0] == a@[i as int] && sb[0] == b@[i as int]);
        if a[i] != b[i] {
            return a[i] < b[i];
        }
        assert(sa.drop_first() =~= a@.subrange(i + 1, a@.len() as int));
        assert(sb.drop_first() =~= b@.subrange(i + 1, b@.len() as int));
        i += 1;
    }
    i == a.len() && i < b.len()
}

/// Whether `a`'s identifier comes before `b`'s.
pub fn id_less(a: &ItemRecord, b: &ItemRecord) -> (r: bool)
    ensures
        r == id_before(a.id@, b.id@),
{
    bytes_less(a.id.as_str().as_bytes(), b.id.as_str().as_bytes())
}

/// The records of `v`, each once, in increasing order of identifier.
pub fn sort_by_id(v: Vec<ItemRecord>) -> (out: Vec<ItemRecord>)
    requires
        unique_ids(records(v@)),
    ensures
        unique_ids(records(out@)),
        sorted_by_id(records(out@)),
        forall|e: (Seq<char>, Rect)| #[trigger] records(out@).contains(e) <==> records(v@).contains(e),
{
    let ghost orig = records(v@);
    let mut src = v;
    let mut out: Vec<ItemRecord> = Vec::new();
    while src.len() > 0
        invariant
            unique_ids(records(out@)),
            unique_ids(records(src@)),
            forall|i: int, j: int|
                0 <= i < out@.len() && 0 <= j < src@.len() ==> id_before(
                    #[trigger] records(out@)[i].0,
                    #[trigger] records(src@)[j].0,
                ),
            sorted_by_id(records(out@)),
            forall|e: (Seq<char>, Rect)|
                #[trigger] orig.contains(e) <==> (records(out@).contains(e) || records(src@).contains(e)),
        decreases src@.len(),
    {
        let ghost s = records(src@);
        let mut mi: usize = 0;
        let mut k: usize = 1;
        while k < src.len()
            invariant
                s == records(src@),
                unique_ids(s),
                0 <= mi < k <= src@.len(),
                forall|t: int| 0 <= t < k && t != mi ==> id_before(s[mi as int].0, #[trigger] s[t].0),
            decreases src.len() - k,
        {
            if id_less(&src[k], &src[mi]) {
                proof {
                    assert forall|t: int| 0 <= t < k + 1 && t != k implies id_before(s[k as int].0, #[trigger] s[t].0) by {
                        if t != mi {
                            lemma_bytes_lt_transitive(encode_utf8(s[k as int].0), encode_utf8(s[mi as int].0), encode_utf8(s[t].0));
                        }
                    }
                }
                mi = k;
            } else {
                proof {
                    assert(s[k as int].0 != s[mi as int].0);
                    lemma_id_total(s[k as int].0, s[mi as int].0);
                }
            }
            k += 1;
        }
        let ghost o = records(out@);
        let m = src.remove(mi);
        let ghost me = m@;
        assert(me == s[mi as int]);
        out.push(m);
        proof {
            let o2 = records(out@);
            let s2 = records(src@);
            assert(o2 =~= o.push(me));
            assert(s2 =~= s.remove(mi as int));
            assert forall|a: int, b: int| 0 <= a < o2.len() && 0 <= b < o2.len() && a != b implies o2[a].0 != o2[b].0 by {
                if a < o.len() && b < o.len() {
                    assert(o2[a] == o[a] && o2[b] == o[b]);
                } else if a < o.len() {
                    assert(o2[a] == o[a]);
                    assert(id_before(o[a].0, s[mi as int].0));
                    lemma_bytes_lt_asymmetric(encode_utf8(o[a].0), encode_utf8(o[a].0));
                } else if b < o.len() {
                    assert(o2[b] == o[b]);
                    assert(id_before(o[b].0, s[mi as int].0));
                    lemma_bytes_lt_asymmetric(encode_utf8(o[b].0), encode_utf8(o[b].0));
                }
            }
            assert forall|a: int, b: int| 0 <= a < s2.len() && 0 <= b < s2.len() && a != b implies s2[a].0 != s2[b].0 by {
                let a2 = if a < mi { a } else { a + 1 };
                let b2 = if b < mi { b } else { b + 1 };
                assert(s2[a] == s[a2] && s2[b] == s[b2]);
            }
            assert forall|i: int, j: int| 0 <= i < o2.len() && 0 <= j < s2.len() implies id_before(
                #[trigger] o2[i].0,
                #[trigger] s2[j].0,
            ) by {
                let j2 = if j < mi { j } else { j + 1 };
                assert(s2[j] == s[j2]);
                if i < o.len() {
                    assert(o2[i] == o[i]);
                } else {
                    assert(o2[i] == me);
                }
            }
            assert forall|i: int, j: int| 0 <= i < j < o2.len() implies id_before(#[trigger] o2[i].0, #[trigger] o2[j].0) by {
                assert(o2[i] == o[i]);
                if j < o.len() {
                    assert(o2[j] == o[j]);
                } else {
                    assert(o2[j] == me);
                }
            }
            assert forall|e: (Seq<char>, Rect)| #[trigger] orig.contains(e) <==> (o2.contains(e) || s2.contains(e)) by {
                if o.contains(e) {
                    let i = choose|i: int| 0 <= i < o.len() && o[i] == e;
                    assert(o2[i] == e);
                }
                if s.contains(e) {
                    let j = choose|j: int| 0 <= j < s.len() && s[j] == e;
                    if j == mi {
                        assert(o2[o.len() as int] == e);
                    } else if j < mi {
                        assert(s2[j] == e);
                    } else {
                        assert(s2[j - 1] == e);
                    }
                }
                if o2.contains(e) {
                    let i = choose|i: int| 0 <= i < o2.len() && o2[i] == e;
                    if i < o.len() {
                        assert(o[i] == e);
                    } else {
                        assert(s[mi as int] == e);
                    }
                }
                if s2.contains(e) {
                    let j = choose|j: int| 0 <= j < s2.len() && s2[j] == e;
                    let j2 = if j < mi { j } else { j + 1 };
                    assert(s[j2] == e);
                }
            }
        }
    }
    proof {
        assert forall|e: (Seq<char>, Rect)| #[trigger] records(out@).contains(e) <==> orig.contains(e) by {
            if records(src@).contains(e) {
                let j = choose|j: int| 0 <= j < records(src@).len() && records(src@)[j] == e;
            }
        }
    }
    out
}

} // verus!
