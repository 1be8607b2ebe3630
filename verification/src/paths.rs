//! Paths compared as `Path` compares them: by their components, so repeated
//! separators, `.` components after the first and a trailing `/` make no
//! difference (Unix separators).

use vstd::prelude::*;

use crate::text::{chars_equal, chars_of};

verus! {

/// The pieces of `p` between `/` separators, empty ones included (as
/// `str::split('/')` gives them).
pub open spec fn segments(p: Seq<char>) -> Seq<Seq<char>>
    decreases p.len(),
{
    if p.len() == 0 {
        seq![Seq::<char>::empty()]
    } else if p.last() == '/' {
        segments(p.drop_last()).push(Seq::empty())
    } else {
        let s = segments(p.drop_last());
        s.update(s.len() - 1, s.last().push(p.last()))
    }
}

/// Whether a segment is a normal component: neither empty nor `.`.
pub open spec fn is_normal(seg: Seq<char>) -> bool {
    seg.len() > 0 && seg != seq!['.']
}

/// The normal components among `segs`, in order.
pub open spec fn normal_segments(segs: Seq<Seq<char>>) -> Seq<Seq<char>>
    decreases segs.len(),
{
    if segs.len() == 0 {
        Seq::empty()
    } else if is_normal(segs.last()) {
        normal_segments(segs.drop_last()).push(segs.last())
    } else {
        normal_segments(segs.drop_last())
    }
}

/// Whether the path starts at the root.
pub open spec fn is_rooted(p: Seq<char>) -> bool {
    p.len() > 0 && p[0] == '/'
}

/// Whether a relative path starts with a `.` component.
pub open spec fn starts_at_current_dir(p: Seq<char>) -> bool {
    p == seq!['.'] || (p.len() >= 2 && p[0] == '.' && p[1] == '/')
}

/// The components of a path: `/` for the root, `.` for a leading current
/// directory, then the normal components.
pub open spec fn path_components(p: Seq<char>) -> Seq<Seq<char>> {
    (if is_rooted(p) { seq![seq!['/']] } else { Seq::empty() })
        + (if starts_at_current_dir(p) { seq![seq!['.']] } else { Seq::empty() })
        + normal_segments(segments(p))
}

/// Whether two paths name the same file as `Path` equality decides.
pub open spec fn same_path(a: Seq<char>, b: Seq<char>) -> bool {
    path_components(a) == path_components(b)
}

/// The views of a list of character vectors.
pub open spec fn pieces_view(v: Seq<Vec<char>>) -> Seq<Seq<char>> {
    v.map_values(|x: Vec<char>| x@)
}

fn is_dot(v: &Vec<char>) -> (r: bool)
    ensures
        r == (v@ == seq!['.']),
{
    let r = v.len() == 1 && v[0] == '.';
    proof {
        if v@.len() == 1 && v@[0] == '.' {
            assert(v@ =~= seq!['.']);
        }
    }
    r
}

/// The components of a path.
pub fn components_of(path: &str) -> (r: Vec<Vec<char>>)
    ensures
        pieces_view(r@) == path_components(path@),
{
    let p = chars_of(path);
    let mut r: Vec<Vec<char>> = Vec::new();
    let n = p.len();
    let rooted = n > 0 && p[0] == '/';
    assert(rooted == is_rooted(path@));
    if rooted {
        let root: Vec<char> = vec!['/'];
        assert(root@ =~= seq!['/']);
        r.push(root);
    }
    assert(pieces_view(r@) =~= (if is_rooted(path@) { seq![seq!['/']] } else { Seq::empty() }));
    let ghost first = pieces_view(r@);
    let dot_start = (n == 1 && p[0] == '.') || (n >= 2 && p[0] == '.' && p[1] == '/');
    proof {
        if n == 1 && p@[0] == '.' {
            assert(p@ =~= seq!['.']);
        }
        if p@ == seq!['.'] {
            assert(p@[0] == '.');
        }
    }
    assert(dot_start == starts_at_current_dir(path@));
    if dot_start {
        let dot: Vec<char> = vec!['.'];
        assert(dot@ =~= seq!['.']);
        r.push(dot);
        assert(pieces_view(r@) =~= first.push(seq!['.']));
    }
    let ghost head = pieces_view(r@);
    assert(head =~= (if is_rooted(path@) { seq![seq!['/']] } else { Seq::empty() })
        + (if starts_at_current_dir(path@) { seq![seq!['.']] } else { Seq::empty() }));
    let mut cur: Vec<char> = Vec::new();
    let mut i: usize = 0;
    assert(p@.take(0) =~= Seq::<char>::empty());
    while i < n
        invariant
            i <= n,
            n == p@.len(),
            p@ == path@,
            pieces_view(r@) == head + normal_segments(segments(p@.take(i as int)).drop_last()),
            cur@ == segments(p@.take(i as int)).last(),
            segments(p@.take(i as int)).len() >= 1,
        decreases n - i,
    {
        let c = p[i];
        let ghost s = segments(p@.take(i as int));
        assert(p@.take(i + 1).drop_last() =~= p@.take(i as int));
        assert(p@.take(i + 1).last() == c);
        if c == '/' {
            let ghost before = pieces_view(r@);
            assert(segments(p@.take(i + 1)).drop_last() =~= s);
            assert(s =~= s.drop_last().push(s.last()));
            if cur.len() > 0 && !is_dot(&cur) {
                r.push(cur);
                assert(pieces_view(r@) =~= before.push(s.last()));
            }
            cur = Vec::new();
        } else {
            assert(segments(p@.take(i + 1)).drop_last() =~= s.drop_last());
            cur.push(c);
        }
        i = i + 1;
    }
    assert(p@.take(n as int) =~= p@);
    let ghost s = segments(p@);
    assert(s =~= s.drop_last().push(s.last()));
    let ghost before = pieces_view(r@);
    if cur.len() > 0 && !is_dot(&cur) {
        r.push(cur);
        assert(pieces_view(r@) =~= before.push(s.last()));
    }
    r
}

/// Whether two lists of pieces are equal, piece by piece.
fn pieces_equal(a: &Vec<Vec<char>>, b: &Vec<Vec<char>>) -> (r: bool)
    ensures
        r == (pieces_view(a@) == pieces_view(b@)),
{
    if a.len() != b.len() {
        assert(pieces_view(a@).len() != pieces_view(b@).len());
        return false;
    }
    let mut i: usize = 0;
    while i < a.len()
        invariant
            i <= a@.len(),
            a@.len() == b@.len(),
            forall|j: int| 0 <= j < i ==> a@[j]@ == b@[j]@,
        decreases a@.len() - i,
    {
        if !chars_equal(a[i].as_slice(), b[i].as_slice()) {
            assert(pieces_view(a@)[i as int] != pieces_view(b@)[i as int]);
            return false;
        }
        i = i + 1;
    }
    assert(pieces_view(a@) =~= pieces_view(b@));
    true
}

/// Whether two paths name the same file as `Path` equality decides.
pub fn paths_equal(a: &str, b: &str) -> (r: bool)
    ensures
        r == same_path(a@, b@),
{
    let ca = components_of(a);
    let cb = components_of(b);
    pieces_equal(&ca, &cb)
}

} // verus!
