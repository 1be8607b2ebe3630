//! In-toto attestation of index snapshots.
//!
//! A statement's subjects are the store's artifact files with their BLAKE3
//! digests, so any later modification of a stored artifact is detectable by
//! verifying the statement against the store.

use vstd::prelude::*;
use vstd::utf8::{encode_utf8, encode_utf8_decode_utf8};

use crate::identity::{address_of, blake3_digest};
use crate::order::{
    bytes_lt, increasing_by, lemma_bytes_lt_irreflexive, lemma_bytes_lt_total, lemma_bytes_lt_transitive,
    lemma_increasing_unique, str_lt, strict_total,
};
use crate::text::hex_lower;

verus! {

pub const STATEMENT_TYPE: &'static str = "https://in-toto.io/Statement/v1";

pub const PREDICATE_TYPE: &'static str = "urn:codegenome:attestation:index-snapshot:v1";

/// A store artifact: its file name and its bytes.
pub type Artifact = (String, Vec<u8>);

/// A statement subject: an artifact's name and the hex BLAKE3 digest of its bytes.
#[derive(Debug)]
pub struct Subject {
    pub name: String,
    pub digest: String,
}

/// The index metadata recorded in the predicate.
#[derive(Debug, Clone, Copy)]
pub struct IndexSummary {
    pub timestamp: u64,
    pub file_count: u64,
    pub node_count: u64,
    pub edge_count: u64,
}

/// An in-toto statement over a store snapshot.
#[derive(Debug)]
pub struct Statement {
    /// The statement's `_type`.
    pub statement_type: &'static str,
    /// The statement's `predicateType`.
    pub predicate_type: &'static str,
    pub subjects: Vec<Subject>,
    pub store_dir: String,
    pub index: Option<IndexSummary>,
}

/// The lowercase hex BLAKE3 digest of a byte string.
pub open spec fn digest_hex(bytes: Seq<u8>) -> Seq<char> {
    hex_lower(blake3_digest(bytes))
}

/// The subject that attests an artifact.
pub open spec fn subject_of(a: (Seq<char>, Seq<u8>)) -> (Seq<char>, Seq<char>) {
    (a.0, digest_hex(a.1))
}

/// Subjects in the order of their names' bytes (then digests).
pub open spec fn subject_lt(a: (Seq<char>, Seq<char>), b: (Seq<char>, Seq<char>)) -> bool {
    bytes_lt(encode_utf8(a.0), encode_utf8(b.0)) || (a.0 == b.0 && bytes_lt(encode_utf8(a.1), encode_utf8(b.1)))
}

pub open spec fn artifacts_view(v: Seq<Artifact>) -> Seq<(Seq<char>, Seq<u8>)> {
    v.map_values(|a: Artifact| (a.0@, a.1@))
}

pub open spec fn subjects_view(v: Seq<Subject>) -> Seq<(Seq<char>, Seq<char>)> {
    v.map_values(|s: Subject| (s.name@, s.digest@))
}

/// Subjects in increasing order of name.
pub open spec fn subjects_increasing(s: Seq<(Seq<char>, Seq<char>)>) -> bool {
    increasing_by(s, |a: (Seq<char>, Seq<char>), b: (Seq<char>, Seq<char>)| subject_lt(a, b))
}

/// The subjects of the artifacts, sorted by name.
pub open spec fn store_subjects(artifacts: Seq<(Seq<char>, Seq<u8>)>) -> Seq<(Seq<char>, Seq<char>)> {
    choose|s: Seq<(Seq<char>, Seq<char>)>|
        #[trigger] subjects_increasing(s)
        && s.to_set() == artifacts.map_values(|a: (Seq<char>, Seq<u8>)| subject_of(a)).to_set()
}

/// No two artifacts share a name (as in a directory).
pub open spec fn names_distinct(artifacts: Seq<(Seq<char>, Seq<u8>)>) -> bool {
    forall|i: int, j: int| 0 <= i < j < artifacts.len() ==> (#[trigger] artifacts[i]).0 != (#[trigger] artifacts[j]).0
}

pub proof fn lemma_subject_lt_strict_total()
    ensures
        strict_total(|a: (Seq<char>, Seq<char>), b: (Seq<char>, Seq<char>)| subject_lt(a, b)),
{
    let lt = |a: (Seq<char>, Seq<char>), b: (Seq<char>, Seq<char>)| subject_lt(a, b);
    assert forall|a: (Seq<char>, Seq<char>)| !#[trigger] lt(a, a) by {
        lemma_bytes_lt_irreflexive(encode_utf8(a.0));
        lemma_bytes_lt_irreflexive(encode_utf8(a.1));
    }
    assert forall|a: (Seq<char>, Seq<char>), b: (Seq<char>, Seq<char>), c: (Seq<char>, Seq<char>)|
        #[trigger] lt(a, b) && #[trigger] lt(b, c) implies lt(a, c) by {
        let (ea, eb, ec) = (encode_utf8(a.0), encode_utf8(b.0), encode_utf8(c.0));
        if bytes_lt(ea, eb) && bytes_lt(eb, ec) {
            lemma_bytes_lt_transitive(ea, eb, ec);
        } else if a.0 == b.0 && b.0 == c.0 {
            lemma_bytes_lt_transitive(encode_utf8(a.1), encode_utf8(b.1), encode_utf8(c.1));
        }
    }
    assert forall|a: (Seq<char>, Seq<char>), b: (Seq<char>, Seq<char>)| a != b implies #[trigger] lt(a, b) || #[trigger] lt(b, a) by {
        encode_utf8_decode_utf8(a.0);
        encode_utf8_decode_utf8(b.0);
        encode_utf8_decode_utf8(a.1);
        encode_utf8_decode_utf8(b.1);
        if a.0 != b.0 {
            lemma_bytes_lt_total(encode_utf8(a.0), encode_utf8(b.0));
        } else {
            lemma_bytes_lt_total(encode_utf8(a.1), encode_utf8(b.1));
        }
    }
}

/// The lowercase hex BLAKE3 digest of a byte string.
pub fn digest_of(bytes: &[u8]) -> (r: String)
    ensures
        r@ == digest_hex(bytes@),
{
    address_of(bytes).to_hex()
}

fn subject_less(a: &Subject, b: &Subject) -> (r: bool)
    ensures
        r == subject_lt((a.name@, a.digest@), (b.name@, b.digest@)),
{
    str_lt(a.name.as_str(), b.name.as_str()) || (a.name == b.name && str_lt(a.digest.as_str(), b.digest.as_str()))
}

/// The subjects attesting the artifacts, sorted by name.
pub fn subjects_for(artifacts: &[Artifact]) -> (r: Vec<Subject>)
    requires
        names_distinct(artifacts_view(artifacts@)),
    ensures
        subjects_view(r@) == store_subjects(artifacts_view(artifacts@)),
        subjects_increasing(subjects_view(r@)),
        subjects_view(r@).to_set() == artifacts_view(artifacts@).map_values(|a: (Seq<char>, Seq<u8>)| subject_of(a)).to_set(),
        r@.len() == artifacts@.len(),
{
    let ghost av = artifacts_view(artifacts@);
    let ghost all = av.map_values(|a: (Seq<char>, Seq<u8>)| subject_of(a));
    let ghost lt = |a: (Seq<char>, Seq<char>), b: (Seq<char>, Seq<char>)| subject_lt(a, b);
    let mut out: Vec<Subject> = Vec::new();
    let mut k: usize = 0;
    while k < artifacts.len()
        invariant
            k <= artifacts@.len(),
            av == artifacts_view(artifacts@),
            all == av.map_values(|a: (Seq<char>, Seq<u8>)| subject_of(a)),
            names_distinct(av),
            lt == |a: (Seq<char>, Seq<char>), b: (Seq<char>, Seq<char>)| subject_lt(a, b),
            increasing_by(subjects_view(out@), lt),
            subjects_view(out@).to_set() == all.take(k as int).to_set(),
            out@.len() == k,
            forall|i: int| 0 <= i < out@.len() ==> exists|j: int| 0 <= j < k && (#[trigger] out@[i]).name@ == av[j].0,
        decreases artifacts@.len() - k,
    {
        let a = &artifacts[k];
        let subject = Subject { name: a.0.clone(), digest: digest_of(a.1.as_slice()) };
        let ghost x = (subject.name@, subject.digest@);
        assert(av[k as int] == (a.0@, a.1@));
        assert(all[k as int] == x);
        let ghost ov = subjects_view(out@);
        let mut p: usize = 0;
        while p < out.len()
            invariant
                p <= out@.len(),
                ov == subjects_view(out@),
                x == (subject.name@, subject.digest@),
                forall|q: int| 0 <= q < p ==> subject_lt(#[trigger] ov[q], x),
            ensures
                p <= out@.len(),
                forall|q: int| 0 <= q < p ==> subject_lt(#[trigger] ov[q], x),
                p < out@.len() ==> !subject_lt(ov[p as int], x),
            decreases out@.len() - p,
        {
            assert(ov[p as int] == (out@[p as int].name@, out@[p as int].digest@));
            if !subject_less(&out[p], &subject) {
                break;
            }
            p = p + 1;
        }
        proof {
            lemma_subject_lt_strict_total();
            // The new name differs from every name already placed.
            assert forall|q: int| 0 <= q < ov.len() implies (#[trigger] ov[q]) != x by {
                let o = out@[q];
                assert(exists|j: int| 0 <= j < k && o.name@ == av[j].0);
                let j = choose|j: int| 0 <= j < k && o.name@ == av[j].0;
                assert(ov[q].0 == out@[q].name@);
                assert(av[j].0 != av[k as int].0);
            }
        }
        let ghost old_out = out@;
        out.insert(p, subject);
        proof {
            let nv = subjects_view(out@);
            assert(nv =~= ov.insert(p as int, x));
            if p < ov.len() {
                assert(ov[p as int] != x);
                assert(lt(ov[p as int], x) || lt(x, ov[p as int]));
            }
            assert forall|a: int, b: int| 0 <= a < b < nv.len() implies lt(#[trigger] nv[a], #[trigger] nv[b]) by {
                if b < p {
                    assert(nv[a] == ov[a] && nv[b] == ov[b]);
                } else if b == p {
                    assert(nv[a] == ov[a]);
                } else if a < p {
                    assert(nv[a] == ov[a] && nv[b] == ov[b - 1]);
                    assert(lt(ov[a], x));
                    assert(lt(x, ov[p as int]));
                    if b - 1 > p {
                        assert(lt(ov[p as int], ov[b - 1]));
                    }
                } else if a == p {
                    assert(nv[b] == ov[b - 1]);
                    assert(lt(x, ov[p as int]));
                    if b - 1 > p {
                        assert(lt(ov[p as int], ov[b - 1]));
                    }
                } else {
                    assert(nv[a] == ov[a - 1] && nv[b] == ov[b - 1]);
                }
            }
            assert(all.take(k + 1) =~= all.take(k as int).push(x));
            assert(nv.to_set() =~= all.take(k + 1).to_set()) by {
                let t = all.take(k as int);
                let t1 = all.take(k + 1);
                assert forall|y: (Seq<char>, Seq<char>)| nv.to_set().contains(y) implies t1.to_set().contains(y) by {
                    let a = choose|a: int| 0 <= a < nv.len() && nv[a] == y;
                    if a == p {
                        assert(t1[k as int] == x);
                    } else {
                        let b = if a < p { a } else { a - 1 };
                        assert(ov[b] == y);
                        assert(ov.to_set().contains(y));
                        let c = choose|c: int| 0 <= c < t.len() && t[c] == y;
                        assert(t1[c] == y);
                    }
                }
                assert forall|y: (Seq<char>, Seq<char>)| t1.to_set().contains(y) implies nv.to_set().contains(y) by {
                    let c = choose|c: int| 0 <= c < t1.len() && t1[c] == y;
                    if c == k {
                        assert(nv[p as int] == x);
                    } else {
                        assert(t[c] == y);
                        assert(t.to_set().contains(y));
                        let a = choose|a: int| 0 <= a < ov.len() && ov[a] == y;
                        if a < p {
                            assert(nv[a] == y);
                        } else {
                            assert(nv[a + 1] == y);
                        }
                    }
                }
            }
            assert forall|i: int| 0 <= i < out@.len() implies exists|j: int| 0 <= j < k + 1 && (#[trigger] out@[i]).name@ == av[j].0 by {
                if i == p {
                    assert(out@[i].name@ == av[k as int].0);
                } else {
                    let b = if i < p { i } else { i - 1 };
                    assert(out@[i] == old_out[b]);
                    let j = choose|j: int| 0 <= j < k && (#[trigger] old_out[b]).name@ == av[j].0;
                    assert(out@[i].name@ == av[j].0);

                }
            }
        }
        k = k + 1;
    }
    proof {
        assert(all.take(all.len() as int) =~= all);
        lemma_subject_lt_strict_total();
        let c = store_subjects(av);
        assert(subjects_increasing(subjects_view(out@)));
        assert(subjects_view(out@).to_set() == all.to_set());
        assert(subjects_increasing(c) && c.to_set() == all.to_set());
        lemma_increasing_unique(subjects_view(out@), c, lt);
    }
    out
}

/// Build an in-toto statement over the store's artifacts; an empty store
/// cannot be attested.
pub fn attest_store(store_dir: &str, artifacts: &[Artifact], index: Option<IndexSummary>) -> (r: Result<Statement, String>)
    requires
        names_distinct(artifacts_view(artifacts@)),
    ensures
        r is Err <==> artifacts@.len() == 0,
        r matches Err(e) ==> e@ == "no store artifacts found in "@ + store_dir@,
        r matches Ok(st) ==> {
            &&& subjects_view(st.subjects@) == store_subjects(artifacts_view(artifacts@))
            &&& subjects_increasing(subjects_view(st.subjects@))
            &&& subjects_view(st.subjects@).to_set() == artifacts_view(artifacts@).map_values(|a: (Seq<char>, Seq<u8>)| subject_of(a)).to_set()
            &&& st.store_dir@ == store_dir@
            &&& st.index == index
            &&& st.statement_type@ == STATEMENT_TYPE@
            &&& st.predicate_type@ == PREDICATE_TYPE@
        },
{
    let subjects = subjects_for(artifacts);
    if subjects.len() == 0 {
        let mut e = String::from_str("no store artifacts found in ");
        e.append(store_dir);
        return Err(e);
    }
    Ok(Statement {
        statement_type: STATEMENT_TYPE,
        predicate_type: PREDICATE_TYPE,
        subjects,
        store_dir: store_dir.to_owned(),
        index,
    })
}

/// The failures that verification reports, subject by subject: a missing
/// artifact, or one whose digest differs from the attested one.
pub open spec fn verification_failures(subjects: Seq<(Seq<char>, Seq<char>)>, contents: Seq<Option<Seq<u8>>>) -> Seq<Seq<char>>
    decreases subjects.len(),
{
    if subjects.len() == 0 || contents.len() != subjects.len() {
        Seq::empty()
    } else {
        let rest = verification_failures(subjects.drop_last(), contents.drop_last());
        let name = subjects.last().0;
        match contents.last() {
            Some(b) => if digest_hex(b) != subjects.last().1 {
                rest.push(name + ": digest mismatch"@)
            } else {
                rest
            },
            None => rest.push(name + ": missing"@),
        }
    }
}

pub open spec fn contents_view(v: Seq<Option<Vec<u8>>>) -> Seq<Option<Seq<u8>>> {
    v.map_values(|c: Option<Vec<u8>>| match c {
        Some(b) => Some(b@),
        None => None,
    })
}

/// Verify a statement's subjects against the store: `contents[k]` holds the
/// bytes of the artifact that subject `k` names, or `None` when it is absent.
/// Returns the mismatched or missing subjects (empty = verified).
pub fn verify_statement(subjects: &[Subject], contents: &[Option<Vec<u8>>]) -> (r: Vec<String>)
    requires
        subjects@.len() == contents@.len(),
    ensures
        r@.map_values(|s: String| s@) == verification_failures(subjects_view(subjects@), contents_view(contents@)),
{
    let ghost sv = subjects_view(subjects@);
    let ghost cv = contents_view(contents@);
    let mut failures: Vec<String> = Vec::new();
    let mut k: usize = 0;
    while k < subjects.len()
        invariant
            k <= subjects@.len(),
            subjects@.len() == contents@.len(),
            sv == subjects_view(subjects@),
            cv == contents_view(contents@),
            failures@.map_values(|s: String| s@) == verification_failures(sv.take(k as int), cv.take(k as int)),
        decreases subjects@.len() - k,
    {
        let subject = &subjects[k];
        assert(sv[k as int] == (subject.name@, subject.digest@));
        assert(sv.take(k + 1).drop_last() =~= sv.take(k as int));
        assert(cv.take(k + 1).drop_last() =~= cv.take(k as int));
        assert(sv.take(k + 1).last() == sv[k as int]);
        assert(cv.take(k + 1).last() == cv[k as int]);
        let ghost before = failures@;
        match &contents[k] {
            Some(bytes) => {
                let actual = digest_of(bytes.as_slice());
                if !(actual == subject.digest) {
                    let mut f = subject.name.clone();
                    f.append(": digest mismatch");
                    failures.push(f);
                    assert(failures@.map_values(|s: String| s@) =~= before.map_values(|s: String| s@).push(subject.name@ + ": digest mismatch"@));
                }
            },
            None => {
                let mut f = subject.name.clone();
                f.append(": missing");
                failures.push(f);
                assert(failures@.map_values(|s: String| s@) =~= before.map_values(|s: String| s@).push(subject.name@ + ": missing"@));
            },
        }
        k = k + 1;
    }
    assert(sv.take(sv.len() as int) =~= sv);
    assert(cv.take(cv.len() as int) =~= cv);
    failures
}

/// The bytes of the artifact named `name`.
pub open spec fn artifact_bytes(artifacts: Seq<(Seq<char>, Seq<u8>)>, name: Seq<char>) -> Seq<u8> {
    artifacts[choose|i: int| 0 <= i < artifacts.len() && (#[trigger] artifacts[i]).0 == name].1
}

proof fn lemma_subject_digest_matches(
    artifacts: Seq<(Seq<char>, Seq<u8>)>,
    subjects: Seq<(Seq<char>, Seq<char>)>,
    k: int,
)
    requires
        names_distinct(artifacts),
        subjects.to_set() == artifacts.map_values(|a: (Seq<char>, Seq<u8>)| subject_of(a)).to_set(),
        0 <= k < subjects.len(),
    ensures
        digest_hex(artifact_bytes(artifacts, subjects[k].0)) == subjects[k].1,
{
    let all = artifacts.map_values(|a: (Seq<char>, Seq<u8>)| subject_of(a));
    assert(subjects.to_set().contains(subjects[k]));
    let i = choose|i: int| 0 <= i < all.len() && all[i] == subjects[k];
    assert(all[i] == subject_of(artifacts[i]));
    assert(artifacts[i].0 == subjects[k].0);
    let j = choose|j: int| 0 <= j < artifacts.len() && (#[trigger] artifacts[j]).0 == subjects[k].0;
    if i < j {
        assert(artifacts[i].0 != artifacts[j].0);
    } else if j < i {
        assert(artifacts[j].0 != artifacts[i].0);
    }
}

proof fn lemma_prefix_verifies(
    artifacts: Seq<(Seq<char>, Seq<u8>)>,
    subjects: Seq<(Seq<char>, Seq<char>)>,
    contents: Seq<Option<Seq<u8>>>,
    n: int,
)
    requires
        names_distinct(artifacts),
        subjects.to_set() == artifacts.map_values(|a: (Seq<char>, Seq<u8>)| subject_of(a)).to_set(),
        contents.len() == subjects.len(),
        0 <= n <= subjects.len(),
        forall|k: int| 0 <= k < subjects.len() ==> #[trigger] contents[k] == Some(artifact_bytes(artifacts, subjects[k].0)),
    ensures
        verification_failures(subjects.take(n), contents.take(n)) == Seq::<Seq<char>>::empty(),
    decreases n,
{
    if n > 0 {
        lemma_prefix_verifies(artifacts, subjects, contents, n - 1);
        assert(subjects.take(n).drop_last() =~= subjects.take(n - 1));
        assert(contents.take(n).drop_last() =~= contents.take(n - 1));
        assert(contents.take(n).last() == contents[n - 1]);
        assert(subjects.take(n).last() == subjects[n - 1]);
        lemma_subject_digest_matches(artifacts, subjects, n - 1);
    }
}

/// An untouched store verifies: when every attested subject is checked
/// against the bytes it was attested from, no failure is reported.
pub proof fn lemma_untouched_store_verifies(
    artifacts: Seq<(Seq<char>, Seq<u8>)>,
    subjects: Seq<(Seq<char>, Seq<char>)>,
    contents: Seq<Option<Seq<u8>>>,
)
    requires
        names_distinct(artifacts),
        subjects.to_set() == artifacts.map_values(|a: (Seq<char>, Seq<u8>)| subject_of(a)).to_set(),
        contents.len() == subjects.len(),
        forall|k: int| 0 <= k < subjects.len() ==> #[trigger] contents[k] == Some(artifact_bytes(artifacts, subjects[k].0)),
    ensures
        verification_failures(subjects, contents) == Seq::<Seq<char>>::empty(),
{
    lemma_prefix_verifies(artifacts, subjects, contents, subjects.len() as int);
    assert(subjects.take(subjects.len() as int) =~= subjects);
    assert(contents.take(contents.len() as int) =~= contents);
}

/// Tampering is detected: a subject whose bytes are gone is reported as
/// missing, and one whose bytes no longer have the attested digest is reported
/// as a digest mismatch.
pub proof fn lemma_tampering_is_reported(
    subjects: Seq<(Seq<char>, Seq<char>)>,
    contents: Seq<Option<Seq<u8>>>,
    k: int,
)
    requires
        contents.len() == subjects.len(),
        0 <= k < subjects.len(),
    ensures
        contents[k] is None ==> verification_failures(subjects, contents).contains(subjects[k].0 + ": missing"@),
        contents[k] is Some && digest_hex(contents[k]->0) != subjects[k].1 ==> verification_failures(
            subjects,
            contents,
        ).contains(subjects[k].0 + ": digest mismatch"@),
    decreases subjects.len(),
{
    let n = subjects.len() as int;
    let r = verification_failures(subjects, contents);
    let rest = verification_failures(subjects.drop_last(), contents.drop_last());
    if k < n - 1 {
        lemma_tampering_is_reported(subjects.drop_last(), contents.drop_last(), k);
        assert(subjects.drop_last()[k] == subjects[k]);
        assert(contents.drop_last()[k] == contents[k]);
        assert forall|y: Seq<char>| rest.contains(y) implies r.contains(y) by {
            let i = choose|i: int| 0 <= i < rest.len() && rest[i] == y;
            assert(r[i] == y);
        }
    } else {
        assert(r.len() > 0 ==> r[r.len() - 1] == r.last());
    }
}

} // verus!
