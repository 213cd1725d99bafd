//! The order of the files in a torrent.
use vstd::prelude::*;
use vstd::string::*;
use crate::meta::{FileView, TorrentFile};
use crate::order::{
    bytes_before, bytes_before_irreflexive, bytes_before_total, bytes_before_transitive, standing, Standing,
};
use crate::text::{shown_text, string_from_utf8_lossy};

verus! {

/// The order of paths: part by part, a proper beginning comes first.
pub open spec fn path_before(a: Seq<Seq<u8>>, b: Seq<Seq<u8>>) -> bool
    decreases a.len(),
{
    if b.len() == 0 {
        false
    } else if a.len() == 0 {
        true
    } else if a[0] != b[0] {
        bytes_before(a[0], b[0])
    } else {
        path_before(a.skip(1), b.skip(1))
    }
}

/// No path comes before itself.
pub proof fn path_before_irreflexive(a: Seq<Seq<u8>>)
    ensures
        !path_before(a, a),
    decreases a.len(),
{
    if a.len() > 0 {
        path_before_irreflexive(a.skip(1));
    }
}

/// The order is transitive.
pub proof fn path_before_transitive(a: Seq<Seq<u8>>, b: Seq<Seq<u8>>, c: Seq<Seq<u8>>)
    requires
        path_before(a, b),
        path_before(b, c),
    ensures
        path_before(a, c),
    decreases a.len(),
{
    if a.len() > 0 && b.len() > 0 && c.len() > 0 {
        if a[0] == b[0] && b[0] == c[0] {
            path_before_transitive(a.skip(1), b.skip(1), c.skip(1));
        } else if a[0] != b[0] && b[0] != c[0] {
            bytes_before_transitive(a[0], b[0], c[0]);
            bytes_before_irreflexive(a[0]);
        }
    }
}

/// Of two different paths one comes before the other.
pub proof fn path_before_total(a: Seq<Seq<u8>>, b: Seq<Seq<u8>>)
    ensures
        a == b || path_before(a, b) || path_before(b, a),
    decreases a.len(),
{
    if a.len() == 0 || b.len() == 0 {
        if a.len() == b.len() {
            assert(a =~= b);
        }
    } else if a[0] == b[0] {
        path_before_total(a.skip(1), b.skip(1));
        if a.skip(1) == b.skip(1) {
            assert(a =~= seq![a[0]] + a.skip(1));
            assert(b =~= seq![b[0]] + b.skip(1));
        }
    } else {
        bytes_before_total(a[0], b[0]);
    }
}

/// The first part in which two paths differ decides, and a path comes before those
/// that go on from it.
pub proof fn the_first_part_that_differs_decides(front: Seq<Seq<u8>>, a: Seq<Seq<u8>>, b: Seq<Seq<u8>>)
    requires
        b.len() > 0,
    ensures
        a.len() == 0 ==> path_before(front + a, front + b),
        a.len() > 0 && bytes_before(a[0], b[0]) ==> path_before(front + a, front + b),
    decreases front.len(),
{
    let x = front + a;
    let y = front + b;
    if front.len() > 0 {
        the_first_part_that_differs_decides(front.skip(1), a, b);
        assert(x.skip(1) =~= front.skip(1) + a);
        assert(y.skip(1) =~= front.skip(1) + b);
    } else {
        assert(x =~= a);
        assert(y =~= b);
        if a.len() > 0 {
            bytes_before_irreflexive(a[0]);
        }
    }
}

/// The parts of a path.
pub open spec fn path_view(path: Vec<Vec<u8>>) -> Seq<Seq<u8>> {
    path@.map_values(|part: Vec<u8>| part@)
}

/// The parts of some paths.
pub open spec fn path_views(paths: Seq<Vec<Vec<u8>>>) -> Seq<Seq<Seq<u8>>> {
    paths.map_values(|p: Vec<Vec<u8>>| path_view(p))
}

/// Whether no path comes before one that stands before it.
pub open spec fn in_order(paths: Seq<Seq<Seq<u8>>>) -> bool {
    forall|i: int, j: int| 0 <= i < j < paths.len() ==> !path_before(#[trigger] paths[j], #[trigger] paths[i])
}

/// Whether one path comes before another.
fn comes_before(a: &Vec<Vec<u8>>, b: &Vec<Vec<u8>>) -> (r: bool)
    ensures
        r == path_before(path_view(*a), path_view(*b)),
{
    let ghost x = path_view(*a);
    let ghost y = path_view(*b);
    let mut i: usize = 0;
    assert(x.skip(0) =~= x);
    assert(y.skip(0) =~= y);
    while i < a.len() && i < b.len()
        invariant
            i <= a@.len(),
            i <= b@.len(),
            x == path_view(*a),
            y == path_view(*b),
            path_before(x, y) == path_before(x.skip(i as int), y.skip(i as int)),
        ensures
            i == a@.len() || i == b@.len(),
        decreases a@.len() - i,
    {
        assert(x.skip(i as int)[0] == a@[i as int]@);
        assert(y.skip(i as int)[0] == b@[i as int]@);
        match standing(a[i].as_slice(), b[i].as_slice()) {
            Standing::Before => {
                proof {
                    bytes_before_irreflexive(a@[i as int]@);
                }
                return true;
            },
            Standing::After => {
                proof {
                    bytes_before_irreflexive(a@[i as int]@);
                    if bytes_before(a@[i as int]@, b@[i as int]@) {
                        bytes_before_transitive(a@[i as int]@, b@[i as int]@, a@[i as int]@);
                    }
                }
                return false;
            },
            Standing::Same => {},
        }
        assert(x.skip(i as int).skip(1) =~= x.skip(i + 1));
        assert(y.skip(i as int).skip(1) =~= y.skip(i + 1));
        i += 1;
    }
    i < b.len()
}

/// The files of a directory in the order in which they stand in a torrent.
pub fn sort_files(paths: Vec<Vec<Vec<u8>>>) -> (r: Vec<Vec<Vec<u8>>>)
    ensures
        in_order(path_views(r@)),
        path_views(r@).to_multiset() == path_views(paths@).to_multiset(),
{
    let mut rest = paths;
    let mut sorted: Vec<Vec<Vec<u8>>> = Vec::new();
    assert(path_views(sorted@) =~= Seq::empty());
    proof {
        path_views(sorted@).to_multiset_ensures();
        assert(path_views(sorted@).to_multiset().add(path_views(rest@).to_multiset()) =~= path_views(
            paths@,
        ).to_multiset());
    }
    while rest.len() > 0
        invariant
            in_order(path_views(sorted@)),
            path_views(sorted@).to_multiset().add(path_views(rest@).to_multiset()) == path_views(paths@).to_multiset(),
        decreases rest@.len(),
    {
        let ghost left = path_views(rest@);
        let ghost done = path_views(sorted@);
        if let Some(path) = rest.pop() {
            let ghost p = path_view(path);
            let mut at: usize = 0;
            while at < sorted.len() && !comes_before(&path, &sorted[at])
                invariant
                    at <= sorted@.len(),
                    done == path_views(sorted@),
                    p == path_view(path),
                    forall|k: int| 0 <= k < at ==> !path_before(p, #[trigger] done[k]),
                ensures
                    at < sorted@.len() ==> path_before(p, done[at as int]),
                decreases sorted@.len() - at,
            {
                assert(done[at as int] == path_view(sorted@[at as int]));
                at += 1;
            }
            sorted.insert(at, path);
            let ghost after = path_views(sorted@);
            proof {
                assert(after =~= done.insert(at as int, p));
                assert(path_views(rest@) =~= left.drop_last());
                assert(left.last() == p);
                lemma_inserted_in_order(done, at as int, p);
                lemma_moved(done, left, at as int, p);
            }
        }
    }
    proof {
        path_views(rest@).to_multiset_ensures();
        assert(path_views(rest@) =~= Seq::empty());
        assert(path_views(sorted@).to_multiset().add(path_views(rest@).to_multiset()) =~= path_views(
            sorted@,
        ).to_multiset());
    }
    sorted
}

proof fn lemma_inserted_in_order(done: Seq<Seq<Seq<u8>>>, at: int, p: Seq<Seq<u8>>)
    requires
        in_order(done),
        0 <= at <= done.len(),
        forall|k: int| 0 <= k < at ==> !path_before(p, #[trigger] done[k]),
        at < done.len() ==> path_before(p, done[at]),
    ensures
        in_order(done.insert(at, p)),
{
    let after = done.insert(at, p);
    assert forall|i: int, j: int| 0 <= i < j < after.len() implies !path_before(#[trigger] after[j], #[trigger] after[i]) by {
        if j < at {
            assert(!path_before(done[j], done[i]));
        } else if i < at && j > at {
            assert(!path_before(done[j - 1], done[i]));
        } else if i > at {
            assert(!path_before(done[j - 1], done[i - 1]));
        } else if i == at {
            // Nothing behind `at` comes before `p`, which comes before what stood at `at`.
            path_before_irreflexive(p);
            if path_before(done[j - 1], p) {
                path_before_transitive(done[j - 1], p, done[at]);
                if j - 1 == at {
                    path_before_irreflexive(done[at]);
                } else {
                    assert(!path_before(done[j - 1], done[at]));
                }
            }
        } else {
            assert(!path_before(p, done[i]));
        }
    }
}

proof fn lemma_moved(done: Seq<Seq<Seq<u8>>>, left: Seq<Seq<Seq<u8>>>, at: int, p: Seq<Seq<u8>>)
    requires
        left.len() > 0,
        left.last() == p,
        0 <= at <= done.len(),
    ensures
        done.insert(at, p).to_multiset().add(left.drop_last().to_multiset()) == done.to_multiset().add(
            left.to_multiset(),
        ),
{
    let front = left.drop_last();
    front.to_multiset_ensures();
    assert(left =~= front.push(p));
    assert(left.to_multiset() =~= front.to_multiset().insert(p));
    done.to_multiset_ensures();
    let after = done.insert(at, p);
    after.to_multiset_ensures();
    assert(after.remove(at) =~= done);
    assert(after[at] == p);
    assert(after.to_multiset().remove(p) =~= done.to_multiset());
    assert(after.contains(p));
    assert(after.to_multiset() =~= done.to_multiset().insert(p));
    assert(after.to_multiset().add(front.to_multiset()) =~= done.to_multiset().add(left.to_multiset()));
}

/// A file as it is listed in a torrent; parts of its path that are not UTF-8 are
/// shown with replacements.
pub fn file_entry(length: u64, path: &Vec<Vec<u8>>) -> (r: TorrentFile)
    ensures
        r@ == (FileView { length, path: path_view(*path).map_values(|part: Seq<u8>| shown_text(part)) }),
{
    let mut parts: Vec<String> = Vec::new();
    let mut i: usize = 0;
    while i < path.len()
        invariant
            i <= path@.len(),
            parts@.len() == i,
            forall|k: int| 0 <= k < i ==> (#[trigger] parts@[k])@ == shown_text(path@[k]@),
        decreases path@.len() - i,
    {
        parts.push(string_from_utf8_lossy(path[i].as_slice()));
        i += 1;
    }
    let file = TorrentFile { length, path: parts };
    assert(file@.path =~= path_view(*path).map_values(|part: Seq<u8>| shown_text(part)));
    file
}

/// There is only one order in which paths can stand.
pub proof fn the_order_is_unique(a: Seq<Seq<Seq<u8>>>, b: Seq<Seq<Seq<u8>>>)
    requires
        in_order(a),
        in_order(b),
        a.to_multiset() == b.to_multiset(),
    ensures
        a == b,
    decreases a.len(),
{
    a.to_multiset_ensures();
    b.to_multiset_ensures();
    assert(a.len() == b.len());
    if a.len() > 0 {
        let x = a.last();
        let y = b.last();
        assert(a.contains(x));
        assert(b.contains(x)) by {
            assert(b.to_multiset().count(x) > 0);
        }
        assert(b.contains(y));
        assert(a.contains(y)) by {
            assert(a.to_multiset().count(y) > 0);
        }
        let i = choose|i: int| 0 <= i < b.len() && b[i] == x;
        let j = choose|j: int| 0 <= j < a.len() && a[j] == y;
        assert(!path_before(y, x)) by {
            path_before_irreflexive(x);
            if i < b.len() - 1 {
                assert(!path_before(b[b.len() - 1], b[i]));
            }
        }
        assert(!path_before(x, y)) by {
            path_before_irreflexive(y);
            if j < a.len() - 1 {
                assert(!path_before(a[a.len() - 1], a[j]));
            }
        }
        path_before_total(x, y);
        let a1 = a.drop_last();
        let b1 = b.drop_last();
        a1.to_multiset_ensures();
        b1.to_multiset_ensures();
        assert(a =~= a1.push(x));
        assert(b =~= b1.push(x));
        assert(a1.to_multiset() =~= a.to_multiset().remove(x));
        assert(b1.to_multiset() =~= b.to_multiset().remove(x));
        assert forall|m: int, n: int| 0 <= m < n < a1.len() implies !path_before(#[trigger] a1[n], #[trigger] a1[m]) by {
            assert(!path_before(a[n], a[m]));
        }
        assert forall|m: int, n: int| 0 <= m < n < b1.len() implies !path_before(#[trigger] b1[n], #[trigger] b1[m]) by {
            assert(!path_before(b[n], b[m]));
        }
        the_order_is_unique(a1, b1);
    } else {
        assert(a =~= b);
    }
}

} // verus!
