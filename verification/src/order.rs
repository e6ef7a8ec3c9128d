//! The order of relative paths: by their number of components, then
//! component by component, each compared byte by byte, as `Path` orders its
//! components. This is the order in which folders are created.

use vstd::prelude::*;

verus! {

/// Whether the bytes `a` come before the bytes `b`: at the first difference, or the
/// shorter one first when one is a prefix of the other.
pub open spec fn bytes_before(a: Seq<u8>, b: Seq<u8>) -> bool
    decreases a.len(),
{
    if a.len() == 0 {
        b.len() > 0
    } else if b.len() == 0 {
        false
    } else if a[0] == b[0] {
        bytes_before(a.drop_first(), b.drop_first())
    } else {
        a[0] < b[0]
    }
}

/// Whether the component list `a` comes before `b`, comparing components
/// as bytes, the shorter list first when one is a prefix of the other.
pub open spec fn components_before(a: Seq<Seq<u8>>, b: Seq<Seq<u8>>) -> bool
    decreases a.len(),
{
    if a.len() == 0 {
        b.len() > 0
    } else if b.len() == 0 {
        false
    } else if a[0] == b[0] {
        components_before(a.drop_first(), b.drop_first())
    } else {
        bytes_before(a[0], b[0])
    }
}

/// Whether the path with components `a` is created before the one with
/// components `b`: fewer components first, then in path order.
pub open spec fn path_before(a: Seq<Seq<u8>>, b: Seq<Seq<u8>>) -> bool {
    a.len() < b.len() || (a.len() == b.len() && components_before(a, b))
}

pub proof fn lemma_bytes_before_irreflexive(a: Seq<u8>)
    ensures
        !bytes_before(a, a),
    decreases a.len(),
{
    if a.len() > 0 {
        lemma_bytes_before_irreflexive(a.drop_first());
    }
}

pub proof fn lemma_bytes_before_transitive(a: Seq<u8>, b: Seq<u8>, c: Seq<u8>)
    requires
        bytes_before(a, b),
        bytes_before(b, c),
    ensures
        bytes_before(a, c),
    decreases a.len(),
{
    if a.len() > 0 && b.len() > 0 && c.len() > 0 && a[0] == b[0] && b[0] == c[0] {
        lemma_bytes_before_transitive(a.drop_first(), b.drop_first(), c.drop_first());
    }
}

pub proof fn lemma_bytes_before_total(a: Seq<u8>, b: Seq<u8>)
    requires
        a != b,
    ensures
        bytes_before(a, b) || bytes_before(b, a),
    decreases a.len(),
{
    if a.len() > 0 && b.len() > 0 && a[0] == b[0] {
        if a.drop_first() == b.drop_first() {
            assert(a =~= seq![a[0]] + a.drop_first());
            assert(b =~= seq![b[0]] + b.drop_first());
        }
        lemma_bytes_before_total(a.drop_first(), b.drop_first());
    } else if a.len() == 0 && b.len() == 0 {
        assert(a =~= b);
    }
}

pub proof fn lemma_components_before_irreflexive(a: Seq<Seq<u8>>)
    ensures
        !components_before(a, a),
    decreases a.len(),
{
    if a.len() > 0 {
        lemma_components_before_irreflexive(a.drop_first());
    }
}

pub proof fn lemma_components_before_transitive(
    a: Seq<Seq<u8>>,
    b: Seq<Seq<u8>>,
    c: Seq<Seq<u8>>,
)
    requires
        components_before(a, b),
        components_before(b, c),
    ensures
        components_before(a, c),
    decreases a.len(),
{
    if a.len() > 0 && b.len() > 0 && c.len() > 0 {
        if a[0] == b[0] && b[0] == c[0] {
            lemma_components_before_transitive(a.drop_first(), b.drop_first(), c.drop_first());
        } else if a[0] != b[0] && b[0] != c[0] {
            lemma_bytes_before_transitive(a[0], b[0], c[0]);
            if a[0] == c[0] {
                lemma_bytes_before_irreflexive(a[0]);
            }
        }
    }
}

pub proof fn lemma_components_before_total(a: Seq<Seq<u8>>, b: Seq<Seq<u8>>)
    requires
        a != b,
    ensures
        components_before(a, b) || components_before(b, a),
    decreases a.len(),
{
    if a.len() > 0 && b.len() > 0 {
        if a[0] == b[0] {
            if a.drop_first() == b.drop_first() {
                assert(a =~= seq![a[0]] + a.drop_first());
                assert(b =~= seq![b[0]] + b.drop_first());
            }
            lemma_components_before_total(a.drop_first(), b.drop_first());
        } else {
            lemma_bytes_before_total(a[0], b[0]);
        }
    } else if a.len() == 0 && b.len() == 0 {
        assert(a =~= b);
    }
}

/// `path_before` is a strict total order: no path comes before itself, it
/// is transitive, and of two different paths one comes before the other.
pub proof fn lemma_path_before_strict_total(a: Seq<Seq<u8>>, b: Seq<Seq<u8>>, c: Seq<Seq<u8>>)
    ensures
        !path_before(a, a),
        path_before(a, b) && path_before(b, c) ==> path_before(a, c),
        a != b ==> path_before(a, b) || path_before(b, a),
        path_before(a, b) ==> !path_before(b, a),
{
    lemma_components_before_irreflexive(a);
    if path_before(a, b) && path_before(b, c) && a.len() == b.len() && b.len() == c.len() {
        lemma_components_before_transitive(a, b, c);
    }
    if a != b && a.len() == b.len() {
        lemma_components_before_total(a, b);
    }
    if path_before(a, b) && path_before(b, a) {
        lemma_components_before_transitive(a, b, a);
    }
}

/// Whether `j` is where `a` and `b` first differ with `a` the smaller there:
/// they agree before `j`, and at `j` either `a` has ended while `b` goes on,
/// or both go on and `a`'s byte is the smaller.
pub open spec fn bytes_differ_first_at(a: Seq<u8>, b: Seq<u8>, j: int) -> bool {
    &&& 0 <= j <= a.len()
    &&& j <= b.len()
    &&& a.take(j) == b.take(j)
    &&& ((j == a.len() && j < b.len()) || (j < a.len() && j < b.len() && a[j] < b[j]))
}

/// The byte order is the lexicographic one: `a` comes before `b` exactly
/// when, at the first place they differ, `a` has ended or has the smaller byte.
pub proof fn law_bytes_before_is_lexicographic(a: Seq<u8>, b: Seq<u8>)
    ensures
        bytes_before(a, b) <==> exists|j: int| #[trigger] bytes_differ_first_at(a, b, j),
    decreases a.len(),
{
    if a.len() == 0 || b.len() == 0 {
        if bytes_before(a, b) {
            assert(a.take(0) =~= b.take(0));
            assert(bytes_differ_first_at(a, b, 0));
        }
    } else if a[0] == b[0] {
        let a1 = a.drop_first();
        let b1 = b.drop_first();
        law_bytes_before_is_lexicographic(a1, b1);
        if bytes_before(a, b) {
            let j = choose|j: int| bytes_differ_first_at(a1, b1, j);
            assert(a.take(j + 1) =~= seq![a[0]] + a1.take(j));
            assert(b.take(j + 1) =~= seq![b[0]] + b1.take(j));
            assert(bytes_differ_first_at(a, b, j + 1));
        }
        if exists|j: int| #[trigger] bytes_differ_first_at(a, b, j) {
            let j = choose|j: int| bytes_differ_first_at(a, b, j);
            assert(j >= 1);
            assert(a1.take(j - 1) =~= a.take(j).drop_first());
            assert(b1.take(j - 1) =~= b.take(j).drop_first());
            assert(bytes_differ_first_at(a1, b1, j - 1));
        }
    } else {
        if bytes_before(a, b) {
            assert(a.take(0) =~= b.take(0));
            assert(bytes_differ_first_at(a, b, 0));
        }
        if exists|j: int| #[trigger] bytes_differ_first_at(a, b, j) {
            let j = choose|j: int| bytes_differ_first_at(a, b, j);
            if j > 0 {
                assert(a.take(j)[0] == b.take(j)[0]);
            }
        }
    }
}

/// Whether `j` is where component lists `a` and `b` first differ with `a`
/// the smaller there: equal components before `j`, and at `j` either `a` has
/// ended while `b` goes on, or `a`'s component comes before `b`'s.
pub open spec fn components_differ_first_at(a: Seq<Seq<u8>>, b: Seq<Seq<u8>>, j: int) -> bool {
    &&& 0 <= j <= a.len()
    &&& j <= b.len()
    &&& a.take(j) == b.take(j)
    &&& ((j == a.len() && j < b.len()) || (j < a.len() && j < b.len() && a[j] != b[j] && bytes_before(a[j], b[j])))
}

/// Paths are ordered by number of components, then component by component:
/// `a` comes before `b` exactly when it has fewer components, or as many and,
/// at the first component where they differ, `a`'s comes first.
pub proof fn law_path_before_is_depth_then_lexicographic(a: Seq<Seq<u8>>, b: Seq<Seq<u8>>)
    ensures
        path_before(a, b) <==> a.len() < b.len() || (a.len() == b.len() && exists|j: int| #[trigger] components_differ_first_at(a, b, j)),
{
    lemma_components_before_lexicographic(a, b);
}

proof fn lemma_components_before_lexicographic(a: Seq<Seq<u8>>, b: Seq<Seq<u8>>)
    ensures
        components_before(a, b) <==> exists|j: int| #[trigger] components_differ_first_at(a, b, j),
    decreases a.len(),
{
    if a.len() == 0 || b.len() == 0 {
        if components_before(a, b) {
            assert(a.take(0) =~= b.take(0));
            assert(components_differ_first_at(a, b, 0));
        }
    } else if a[0] == b[0] {
        let a1 = a.drop_first();
        let b1 = b.drop_first();
        lemma_components_before_lexicographic(a1, b1);
        if components_before(a, b) {
            let j = choose|j: int| components_differ_first_at(a1, b1, j);
            assert(a.take(j + 1) =~= seq![a[0]] + a1.take(j));
            assert(b.take(j + 1) =~= seq![b[0]] + b1.take(j));
            assert(components_differ_first_at(a, b, j + 1));
        }
        if exists|j: int| #[trigger] components_differ_first_at(a, b, j) {
            let j = choose|j: int| components_differ_first_at(a, b, j);
            assert(j >= 1);
            assert(a1.take(j - 1) =~= a.take(j).drop_first());
            assert(b1.take(j - 1) =~= b.take(j).drop_first());
            assert(components_differ_first_at(a1, b1, j - 1));
        }
    } else {
        if components_before(a, b) {
            assert(a.take(0) =~= b.take(0));
            assert(components_differ_first_at(a, b, 0));
        }
        if exists|j: int| #[trigger] components_differ_first_at(a, b, j) {
            let j = choose|j: int| components_differ_first_at(a, b, j);
            if j > 0 {
                assert(a.take(j)[0] == b.take(j)[0]);
            }
        }
    }
}

/// How two values compare.
#[derive(Clone, Copy, Debug, PartialEq, Eq)]
pub enum Comparison {
    Before,
    Same,
    After,
}

/// Compares two byte strings in `bytes_before` order.
pub fn compare_bytes(a: &Vec<u8>, b: &Vec<u8>) -> (c: Comparison)
    ensures
        c is Before <==> bytes_before(a@, b@),
        c is After <==> bytes_before(b@, a@),
        c is Same <==> a@ == b@,
{
    let mut i: usize = 0;
    assert(a@.skip(0) =~= a@);
    assert(b@.skip(0) =~= b@);
    while i < a.len() && i < b.len() && a[i] == b[i]
        invariant
            i <= a@.len(),
            i <= b@.len(),
            a@.take(i as int) == b@.take(i as int),
            bytes_before(a@, b@) == bytes_before(a@.skip(i as int), b@.skip(i as int)),
            bytes_before(b@, a@) == bytes_before(b@.skip(i as int), a@.skip(i as int)),
        decreases a@.len() - i,
    {
        assert(a@.skip(i as int).drop_first() =~= a@.skip(i + 1));
        assert(b@.skip(i as int).drop_first() =~= b@.skip(i + 1));
        assert(a@.take(i + 1) =~= a@.take(i as int).push(a@[i as int]));
        assert(b@.take(i + 1) =~= b@.take(i as int).push(b@[i as int]));
        i = i + 1;
    }
    assert(a@.skip(i as int).len() == 0 ==> a@ =~= a@.take(i as int));
    assert(b@.skip(i as int).len() == 0 ==> b@ =~= b@.take(i as int));
    if i < a.len() && i < b.len() {
        assert(a@.skip(i as int)[0] == a@[i as int]);
        assert(b@.skip(i as int)[0] == b@[i as int]);
        assert(a@ != b@);
        if a[i] < b[i] {
            Comparison::Before
        } else {
            Comparison::After
        }
    } else if i < b.len() {
        assert(a@.len() != b@.len());
        Comparison::Before
    } else if i < a.len() {
        assert(a@.len() != b@.len());
        Comparison::After
    } else {
        Comparison::Same
    }
}

/// Compares two component lists in `components_before` order.
pub fn compare_components(a: &Vec<Vec<u8>>, b: &Vec<Vec<u8>>) -> (c: Comparison)
    ensures
        c is Before <==> components_before(a.deep_view(), b.deep_view()),
        c is After <==> components_before(b.deep_view(), a.deep_view()),
        c is Same <==> a.deep_view() == b.deep_view(),
{
    let ghost av = a.deep_view();
    let ghost bv = b.deep_view();
    let mut i: usize = 0;
    assert(av.skip(0) =~= av);
    assert(bv.skip(0) =~= bv);
    loop
        invariant
            av == a.deep_view(),
            bv == b.deep_view(),
            i <= av.len(),
            i <= bv.len(),
            av.take(i as int) == bv.take(i as int),
            components_before(av, bv) == components_before(av.skip(i as int), bv.skip(i as int)),
            components_before(bv, av) == components_before(bv.skip(i as int), av.skip(i as int)),
        ensures
            i <= av.len(),
            i <= bv.len(),
            i == av.len() || i == bv.len(),
            av.take(i as int) == bv.take(i as int),
            components_before(av, bv) == components_before(av.skip(i as int), bv.skip(i as int)),
            components_before(bv, av) == components_before(bv.skip(i as int), av.skip(i as int)),
        decreases av.len() - i,
    {
        if i >= a.len() || i >= b.len() {
            break;
        }
        let c = compare_bytes(&a[i], &b[i]);
        assert(av[i as int] == a@[i as int]@);
        assert(bv[i as int] == b@[i as int]@);
        assert(av.skip(i as int)[0] == av[i as int]);
        assert(bv.skip(i as int)[0] == bv[i as int]);
        match c {
            Comparison::Same => {},
            Comparison::Before => {
                assert(av != bv);
                return Comparison::Before;
            },
            Comparison::After => {
                assert(av != bv);
                return Comparison::After;
            },
        }
        assert(av.skip(i as int).drop_first() =~= av.skip(i + 1));
        assert(bv.skip(i as int).drop_first() =~= bv.skip(i + 1));
        assert(av.take(i + 1) =~= av.take(i as int).push(av[i as int]));
        assert(bv.take(i + 1) =~= bv.take(i as int).push(bv[i as int]));
        i = i + 1;
    }
    assert(av.skip(i as int).len() == 0 ==> av =~= av.take(i as int));
    assert(bv.skip(i as int).len() == 0 ==> bv =~= bv.take(i as int));
    if i < b.len() {
        assert(av.len() != bv.len());
        Comparison::Before
    } else if i < a.len() {
        assert(av.len() != bv.len());
        Comparison::After
    } else {
        Comparison::Same
    }
}

/// Compares two paths, given by their components, in `path_before` order.
pub fn compare_paths(a: &Vec<Vec<u8>>, b: &Vec<Vec<u8>>) -> (c: Comparison)
    ensures
        c is Before <==> path_before(a.deep_view(), b.deep_view()),
        c is After <==> path_before(b.deep_view(), a.deep_view()),
        c is Same <==> a.deep_view() == b.deep_view(),
{
    if a.len() < b.len() {
        Comparison::Before
    } else if b.len() < a.len() {
        Comparison::After
    } else {
        compare_components(a, b)
    }
}

} // verus!
