//! Byte-wise lexicographic order (the order of `str` and `String`), and
//! sorting of line-numbered rows with duplicates removed.

use vstd::prelude::*;
use vstd::utf8::{decode_utf8, encode_utf8, encode_utf8_decode_utf8};

verus! {

/// Lexicographic order on byte strings: a proper prefix comes first.
pub open spec fn bytes_lt(a: Seq<u8>, b: Seq<u8>) -> bool
    decreases a.len(),
{
    if a.len() == 0 {
        b.len() > 0
    } else if b.len() == 0 {
        false
    } else if a[0] < b[0] {
        true
    } else if a[0] > b[0] {
        false
    } else {
        bytes_lt(a.drop_first(), b.drop_first())
    }
}

pub proof fn lemma_bytes_lt_irreflexive(a: Seq<u8>)
    ensures
        !bytes_lt(a, a),
    decreases a.len(),
{
    if a.len() > 0 {
        lemma_bytes_lt_irreflexive(a.drop_first());
    }
}

pub proof fn lemma_bytes_lt_asymmetric(a: Seq<u8>, b: Seq<u8>)
    ensures
        !(bytes_lt(a, b) && bytes_lt(b, a)),
    decreases a.len(),
{
    if a.len() > 0 && b.len() > 0 && a[0] == b[0] {
        lemma_bytes_lt_asymmetric(a.drop_first(), b.drop_first());
    }
}

pub proof fn lemma_bytes_lt_transitive(a: Seq<u8>, b: Seq<u8>, c: Seq<u8>)
    requires
        bytes_lt(a, b),
        bytes_lt(b, c),
    ensures
        bytes_lt(a, c),
    decreases a.len(),
{
    if a.len() > 0 && b.len() > 0 && c.len() > 0 && a[0] == b[0] && b[0] == c[0] {
        lemma_bytes_lt_transitive(a.drop_first(), b.drop_first(), c.drop_first());
    }
}

pub proof fn lemma_bytes_lt_total(a: Seq<u8>, b: Seq<u8>)
    requires
        a != b,
    ensures
        bytes_lt(a, b) || bytes_lt(b, a),
    decreases a.len(),
{
    if a.len() > 0 && b.len() > 0 && a[0] == b[0] {
        if a.drop_first() == b.drop_first() {
            assert(a =~= seq![a[0]] + a.drop_first());
            assert(b =~= seq![b[0]] + b.drop_first());
        }
        lemma_bytes_lt_total(a.drop_first(), b.drop_first());
    } else if a.len() == 0 && b.len() == 0 {
        assert(a =~= b);
    }
}

/// Byte-wise comparison of two strings: whether `a` sorts before `b`.
pub fn str_lt(a: &str, b: &str) -> (r: bool)
    ensures
        r == bytes_lt(encode_utf8(a@), encode_utf8(b@)),
{
    let x = a.as_bytes();
    let y = b.as_bytes();
    let ghost xs = x@;
    let ghost ys = y@;
    assert(xs == encode_utf8(a@));
    assert(ys == encode_utf8(b@));
    assert(xs.skip(0) =~= xs);
    assert(ys.skip(0) =~= ys);
    let mut i: usize = 0;
    while i < x.len() && i < y.len()
        invariant
            i <= x@.len(),
            i <= y@.len(),
            xs == x@,
            ys == y@,
            xs == encode_utf8(a@),
            ys == encode_utf8(b@),
            bytes_lt(xs, ys) == bytes_lt(xs.skip(i as int), ys.skip(i as int)),
        decreases x@.len() - i,
    {
        let ghost xi = xs.skip(i as int);
        let ghost yi = ys.skip(i as int);
        assert(xi.len() > 0 && yi.len() > 0);
        assert(xi[0] == xs[i as int]);
        assert(yi[0] == ys[i as int]);
        if x[i] < y[i] {
            assert(bytes_lt(xi, yi));
            return true;
        }
        if x[i] > y[i] {
            assert(!bytes_lt(xi, yi));
            return false;
        }
        assert(xi.drop_first() =~= xs.skip(i + 1));
        assert(yi.drop_first() =~= ys.skip(i + 1));
        i = i + 1;
    }
    let ghost xi = xs.skip(i as int);
    let ghost yi = ys.skip(i as int);
    assert(xi.len() == 0 || yi.len() == 0);
    i < y.len()
}

/// A row of rendered output with the line it sorts by.
pub type Row = (u32, String);

/// The order of rows: by line, then by text.
pub open spec fn row_lt(a: (u32, Seq<char>), b: (u32, Seq<char>)) -> bool {
    a.0 < b.0 || (a.0 == b.0 && bytes_lt(encode_utf8(a.1), encode_utf8(b.1)))
}

/// Strictly increasing rows: sorted with no row repeated.
pub open spec fn strictly_increasing(s: Seq<(u32, Seq<char>)>) -> bool {
    forall|i: int, j: int| 0 <= i < j < s.len() ==> row_lt(#[trigger] s[i], #[trigger] s[j])
}

/// The distinct rows of `rows` in increasing order.
pub open spec fn sorted_unique(rows: Seq<(u32, Seq<char>)>) -> Seq<(u32, Seq<char>)> {
    choose|out: Seq<(u32, Seq<char>)>| strictly_increasing(out) && out.to_set() == rows.to_set()
}

pub open spec fn rows_view(v: Seq<Row>) -> Seq<(u32, Seq<char>)> {
    v.map_values(|r: Row| (r.0, r.1@))
}

pub proof fn lemma_row_lt_total(a: (u32, Seq<char>), b: (u32, Seq<char>))
    requires
        a != b,
    ensures
        row_lt(a, b) || row_lt(b, a),
{
    if a.0 == b.0 {
        assert(a.1 != b.1);
        if encode_utf8(a.1) == encode_utf8(b.1) {
            encode_utf8_decode_utf8(a.1);
            encode_utf8_decode_utf8(b.1);
        }
        lemma_bytes_lt_total(encode_utf8(a.1), encode_utf8(b.1));
    }
}

pub proof fn lemma_row_lt_irreflexive(a: (u32, Seq<char>))
    ensures
        !row_lt(a, a),
{
    lemma_bytes_lt_irreflexive(encode_utf8(a.1));
}

pub proof fn lemma_row_lt_transitive(a: (u32, Seq<char>), b: (u32, Seq<char>), c: (u32, Seq<char>))
    requires
        row_lt(a, b),
        row_lt(b, c),
    ensures
        row_lt(a, c),
{
    if a.0 == b.0 && b.0 == c.0 {
        lemma_bytes_lt_transitive(encode_utf8(a.1), encode_utf8(b.1), encode_utf8(c.1));
    }
}

/// `lt` is a strict total order.
pub open spec fn strict_total<T>(lt: spec_fn(T, T) -> bool) -> bool {
    &&& forall|a: T| !#[trigger] lt(a, a)
    &&& forall|a: T, b: T, c: T| #[trigger] lt(a, b) && #[trigger] lt(b, c) ==> lt(a, c)
    &&& forall|a: T, b: T| a != b ==> #[trigger] lt(a, b) || #[trigger] lt(b, a)
}

/// Every element is below every later one.
pub open spec fn increasing_by<T>(s: Seq<T>, lt: spec_fn(T, T) -> bool) -> bool {
    forall|i: int, j: int| 0 <= i < j < s.len() ==> lt(#[trigger] s[i], #[trigger] s[j])
}

pub proof fn lemma_row_lt_strict_total()
    ensures
        strict_total(|a: (u32, Seq<char>), b: (u32, Seq<char>)| row_lt(a, b)),
{
    let lt = |a: (u32, Seq<char>), b: (u32, Seq<char>)| row_lt(a, b);
    assert forall|a: (u32, Seq<char>)| !#[trigger] lt(a, a) by {
        lemma_row_lt_irreflexive(a);
    }
    assert forall|a: (u32, Seq<char>), b: (u32, Seq<char>), c: (u32, Seq<char>)| #[trigger] lt(a, b) && #[trigger] lt(b, c) implies lt(a, c) by {
        lemma_row_lt_transitive(a, b, c);
    }
    assert forall|a: (u32, Seq<char>), b: (u32, Seq<char>)| a != b implies #[trigger] lt(a, b) || #[trigger] lt(b, a) by {
        lemma_row_lt_total(a, b);
    }
}

/// Two sequences increasing in a strict total order, with the same elements, are equal.
pub proof fn lemma_increasing_unique<T>(s: Seq<T>, t: Seq<T>, lt: spec_fn(T, T) -> bool)
    requires
        strict_total(lt),
        increasing_by(s, lt),
        increasing_by(t, lt),
        s.to_set() == t.to_set(),
    ensures
        s == t,
    decreases s.len(),
{
    if s.len() == 0 {
        if t.len() > 0 {
            assert(t.to_set().contains(t[0]));
        }
        assert(s =~= t);
    } else {
        assert(s.to_set().contains(s[0]));
        if t.len() == 0 {
            assert(false);
        }
        assert(t.to_set().contains(t[0]));
        let i = choose|i: int| 0 <= i < t.len() && t[i] == s[0];
        let j = choose|j: int| 0 <= j < s.len() && s[j] == t[0];
        if s[0] != t[0] {
            assert(i > 0 && j > 0);
            assert(lt(t[0], t[i]));
            assert(lt(s[0], s[j]));
            assert(lt(s[0], s[0]));
        }
        let s1 = s.drop_first();
        let t1 = t.drop_first();
        assert(increasing_by(s1, lt)) by {
            assert forall|a: int, b: int| 0 <= a < b < s1.len() implies lt(#[trigger] s1[a], #[trigger] s1[b]) by {
                assert(s1[a] == s[a + 1] && s1[b] == s[b + 1]);
            }
        }
        assert(increasing_by(t1, lt)) by {
            assert forall|a: int, b: int| 0 <= a < b < t1.len() implies lt(#[trigger] t1[a], #[trigger] t1[b]) by {
                assert(t1[a] == t[a + 1] && t1[b] == t[b + 1]);
            }
        }
        assert(s1.to_set() =~= t1.to_set()) by {
            assert forall|x: T| s1.to_set().contains(x) implies t1.to_set().contains(x) by {
                let a = choose|a: int| 0 <= a < s1.len() && s1[a] == x;
                assert(s[a + 1] == x);
                assert(lt(s[0], s[a + 1]));
                assert(s.to_set().contains(x));
                let b = choose|b: int| 0 <= b < t.len() && t[b] == x;
                if b == 0 {
                    assert(lt(x, x));
                }
                assert(t1[b - 1] == x);
            }
            assert forall|x: T| t1.to_set().contains(x) implies s1.to_set().contains(x) by {
                let a = choose|a: int| 0 <= a < t1.len() && t1[a] == x;
                assert(t[a + 1] == x);
                assert(lt(t[0], t[a + 1]));
                assert(t.to_set().contains(x));
                let b = choose|b: int| 0 <= b < s.len() && s[b] == x;
                if b == 0 {
                    assert(lt(x, x));
                }
                assert(s1[b - 1] == x);
            }
        }
        lemma_increasing_unique(s1, t1, lt);
        assert(s =~= seq![s[0]] + s1);
        assert(t =~= seq![t[0]] + t1);
    }
}

fn row_less(a: &Row, b: &Row) -> (r: bool)
    ensures
        r == row_lt((a.0, a.1@), (b.0, b.1@)),
{
    a.0 < b.0 || (a.0 == b.0 && str_lt(a.1.as_str(), b.1.as_str()))
}

/// The rows sorted by line and then text, each distinct row once.
pub fn sort_unique_rows(rows: Vec<Row>) -> (r: Vec<Row>)
    ensures
        rows_view(r@) == sorted_unique(rows_view(rows@)),
{
    let ghost rv = rows_view(rows@);
    let mut out: Vec<Row> = Vec::new();
    let mut rows = rows;
    let ghost orig = rows@;
    let mut k: usize = 0;
    while k < rows.len()
        invariant
            rows@ == orig,
            rv == rows_view(orig),
            k <= rows@.len(),
            strictly_increasing(rows_view(out@)),
            rows_view(out@).to_set() == rv.take(k as int).to_set(),
        decreases rows@.len() - k,
    {
        let row = (rows[k].0, rows[k].1.clone());
        let ghost x = (row.0, row.1@);
        assert(rv[k as int] == x);
        let ghost ov = rows_view(out@);
        // Find the first position whose row is not below the new one.
        let mut p: usize = 0;
        while p < out.len()
            invariant
                p <= out@.len(),
                ov == rows_view(out@),
                x == (row.0, row.1@),
                forall|q: int| 0 <= q < p ==> row_lt(#[trigger] ov[q], x),
            ensures
                p <= out@.len(),
                forall|q: int| 0 <= q < p ==> row_lt(#[trigger] ov[q], x),
                p < out@.len() ==> !row_lt(ov[p as int], x),
            decreases out@.len() - p,
        {
            assert(ov[p as int] == (out@[p as int].0, out@[p as int].1@));
            if !row_less(&out[p], &row) {
                break;
            }
            p = p + 1;
        }
        let duplicate = p < out.len() && out[p].0 == row.0 && out[p].1 == row.1;
        proof {
            assert(rv.take(k + 1) =~= rv.take(k as int).push(x));
            assert(rv.take(k + 1).to_set() =~= rv.take(k as int).to_set().insert(x)) by {
                let t = rv.take(k as int);
                let t1 = rv.take(k + 1);
                assert forall|y: (u32, Seq<char>)| t1.to_set().contains(y) implies t.to_set().insert(x).contains(y) by {
                    let a = choose|a: int| 0 <= a < t1.len() && t1[a] == y;
                    if a < k {
                        assert(t[a] == y);
                    }
                }
                assert forall|y: (u32, Seq<char>)| t.to_set().insert(x).contains(y) implies t1.to_set().contains(y) by {
                    if y == x {
                        assert(t1[k as int] == x);
                    } else {
                        let a = choose|a: int| 0 <= a < t.len() && t[a] == y;
                        assert(t1[a] == y);
                    }
                }
            }
        }
        if duplicate {
            assert(ov[p as int] == x);
            assert(ov.to_set().contains(x));
            assert(ov.to_set().insert(x) =~= ov.to_set());
        } else {
            out.insert(p, row);
            proof {
                let nv = rows_view(out@);
                assert(nv =~= ov.insert(p as int, x));
                if p < ov.len() {
                    // The row at p is above x (not below, not equal).
                    if ov[p as int] != x {
                        lemma_row_lt_total(ov[p as int], x);
                    }
                }
                assert forall|a: int, b: int| 0 <= a < b < nv.len() implies row_lt(#[trigger] nv[a], #[trigger] nv[b]) by {
                    if b < p {
                        assert(nv[a] == ov[a] && nv[b] == ov[b]);
                    } else if b == p {
                        assert(nv[a] == ov[a]);
                    } else if a < p {
                        assert(nv[a] == ov[a] && nv[b] == ov[b - 1]);
                        if b - 1 > p {
                            assert(row_lt(ov[p as int], ov[b - 1]));
                        }
                        lemma_row_lt_transitive(ov[a], x, ov[p as int]);
                        if b - 1 > p {
                            lemma_row_lt_transitive(ov[a], ov[p as int], ov[b - 1]);
                        }
                    } else if a == p {
                        assert(nv[b] == ov[b - 1]);
                        if b - 1 > p {
                            lemma_row_lt_transitive(x, ov[p as int], ov[b - 1]);
                        }
                    } else {
                        assert(nv[a] == ov[a - 1] && nv[b] == ov[b - 1]);
                    }
                }
                assert(nv.to_set() =~= ov.to_set().insert(x)) by {
                    assert forall|y: (u32, Seq<char>)| nv.to_set().contains(y) implies ov.to_set().insert(x).contains(y) by {
                        let a = choose|a: int| 0 <= a < nv.len() && nv[a] == y;
                        if a < p {
                            assert(ov[a] == y);
                        } else if a > p {
                            assert(ov[a - 1] == y);
                        }
                    }
                    assert forall|y: (u32, Seq<char>)| ov.to_set().insert(x).contains(y) implies nv.to_set().contains(y) by {
                        if y == x {
                            assert(nv[p as int] == x);
                        } else {
                            let a = choose|a: int| 0 <= a < ov.len() && ov[a] == y;
                            if a < p {
                                assert(nv[a] == y);
                            } else {
                                assert(nv[a + 1] == y);
                            }
                        }
                    }
                }
            }
        }
        k = k + 1;
    }
    proof {
        assert(rv.take(rv.len() as int) =~= rv);
        let c = choose|o: Seq<(u32, Seq<char>)>| strictly_increasing(o) && o.to_set() == rv.to_set();
        lemma_row_lt_strict_total();
        let lt = |a: (u32, Seq<char>), b: (u32, Seq<char>)| row_lt(a, b);
        assert(increasing_by(rows_view(out@), lt));
        assert(increasing_by(c, lt));
        lemma_increasing_unique(rows_view(out@), c, lt);
    }
    out
}

} // verus!
