//! Paths as lists of parts, compared part by part.
use crate::order::{
    arrange, arranged, arranging_keeps_the_elements, bytes_at_most, compare_bytes,
    dictionary_order_is_total, dictionary_order_is_transitive, inserted, preorder,
};
use vstd::prelude::*;
use vstd::string::StringSliceAdditionalSpecFns;

verus! {

/// One part of a path.
#[derive(Clone, Debug, PartialEq, Eq)]
pub enum PathPart {
    Root,
    Current,
    Parent,
    Name(Vec<u8>),
}

impl PathPart {
    /// The kind of the part, and behind it the bytes of a name. Parts are
    /// ordered as these byte strings are.
    pub open spec fn code(self) -> Seq<u8> {
        match self {
            PathPart::Root => seq![0u8],
            PathPart::Current => seq![1u8],
            PathPart::Parent => seq![2u8],
            PathPart::Name(bytes) => seq![3u8] + bytes@,
        }
    }

    fn encode(&self) -> (r: Vec<u8>)
        ensures
            r@ == self.code(),
    {
        let mut r: Vec<u8> = Vec::new();
        match self {
            PathPart::Root => {
                r.push(0);
            },
            PathPart::Current => {
                r.push(1);
            },
            PathPart::Parent => {
                r.push(2);
            },
            PathPart::Name(bytes) => {
                r.push(3);
                let mut i: usize = 0;
                while i < bytes.len()
                    invariant
                        i <= bytes@.len(),
                        r@ == seq![3u8] + bytes@.take(i as int),
                    decreases bytes@.len() - i,
                {
                    r.push(bytes[i]);
                    i = i + 1;
                }
                assert(bytes@.take(i as int) == bytes@);
            },
        }
        assert(r@ =~= self.code());
        r
    }

    fn copy(&self) -> (r: PathPart)
        ensures
            r.code() == self.code(),
    {
        match self {
            PathPart::Root => PathPart::Root,
            PathPart::Current => PathPart::Current,
            PathPart::Parent => PathPart::Parent,
            PathPart::Name(bytes) => {
                let mut b: Vec<u8> = Vec::new();
                let mut i: usize = 0;
                while i < bytes.len()
                    invariant
                        i <= bytes@.len(),
                        b@ == bytes@.take(i as int),
                    decreases bytes@.len() - i,
                {
                    b.push(bytes[i]);
                    i = i + 1;
                }
                assert(bytes@.take(i as int) == bytes@);
                PathPart::Name(b)
            },
        }
    }
}

/// A path.
#[derive(Clone, Debug, PartialEq, Eq)]
pub struct FilePath {
    pub parts: Vec<PathPart>,
}

impl View for FilePath {
    type V = Seq<Seq<u8>>;

    /// The codes of the parts.
    open spec fn view(&self) -> Seq<Seq<u8>> {
        self.parts@.map_values(|p: PathPart| p.code())
    }
}

/// Paths in order, part by part.
pub open spec fn path_at_most(a: Seq<Seq<u8>>, b: Seq<Seq<u8>>) -> bool
    decreases a.len(),
{
    if a.len() == 0 {
        true
    } else if b.len() == 0 {
        false
    } else if a[0] != b[0] {
        bytes_at_most(a[0], b[0])
    } else {
        path_at_most(a.drop_first(), b.drop_first())
    }
}

/// The order of paths.
pub open spec fn by_path() -> spec_fn(Seq<Seq<u8>>, Seq<Seq<u8>>) -> bool {
    |a: Seq<Seq<u8>>, b: Seq<Seq<u8>>| path_at_most(a, b)
}

/// Any two paths compare, and only equal ones both ways.
pub proof fn path_order_is_total(a: Seq<Seq<u8>>, b: Seq<Seq<u8>>)
    ensures
        path_at_most(a, b) || path_at_most(b, a),
        path_at_most(a, b) && path_at_most(b, a) ==> a == b,
    decreases a.len(),
{
    if a.len() > 0 && b.len() > 0 {
        dictionary_order_is_total(a[0], b[0]);
        if a[0] == b[0] {
            path_order_is_total(a.drop_first(), b.drop_first());
            if a.drop_first() == b.drop_first() {
                assert(a =~= seq![a[0]] + a.drop_first());
                assert(b =~= seq![b[0]] + b.drop_first());
            }
        }
    } else if a.len() == 0 && b.len() == 0 {
        assert(a =~= b);
    }
}

/// The order of paths chains.
pub proof fn path_order_is_transitive(a: Seq<Seq<u8>>, b: Seq<Seq<u8>>, c: Seq<Seq<u8>>)
    requires
        path_at_most(a, b),
        path_at_most(b, c),
    ensures
        path_at_most(a, c),
    decreases a.len(),
{
    if a.len() > 0 && b.len() > 0 && c.len() > 0 {
        dictionary_order_is_total(a[0], b[0]);
        dictionary_order_is_total(b[0], c[0]);
        if a[0] == b[0] && b[0] == c[0] {
            path_order_is_transitive(a.drop_first(), b.drop_first(), c.drop_first());
        } else {
            dictionary_order_is_total(a[0], c[0]);
            dictionary_order_is_transitive(a[0], b[0], c[0]);
        }
    }
}

pub(crate) proof fn lemma_path_preorder()
    ensures
        preorder(by_path()),
{
    let leq = by_path();
    assert forall|a: Seq<Seq<u8>>, b: Seq<Seq<u8>>| #[trigger] leq(a, b) || leq(b, a) by {
        path_order_is_total(a, b);
    }
    assert forall|a: Seq<Seq<u8>>, b: Seq<Seq<u8>>, c: Seq<Seq<u8>>| #[trigger]
        leq(a, b) && #[trigger] leq(b, c) implies leq(a, c) by {
        path_order_is_transitive(a, b, c);
    }
}

/// Whether `a` comes before `b` or equals it.
pub(crate) fn compare_paths(a: &FilePath, b: &FilePath) -> (r: bool)
    ensures
        r == path_at_most(a@, b@),
{
    let mut i: usize = 0;
    assert(a@.skip(0) == a@ && b@.skip(0) == b@);
    while i < a.parts.len() && i < b.parts.len()
        invariant
            i <= a@.len(),
            i <= b@.len(),
            path_at_most(a@, b@) == path_at_most(a@.skip(i as int), b@.skip(i as int)),
        decreases a@.len() - i,
    {
        let x = a.parts[i].encode();
        let y = b.parts[i].encode();
        proof {
            assert(a@.skip(i as int)[0] == x@);
            assert(b@.skip(i as int)[0] == y@);
            dictionary_order_is_total(x@, y@);
            assert(a@.skip(i as int).drop_first() == a@.skip(i + 1));
            assert(b@.skip(i as int).drop_first() == b@.skip(i + 1));
        }
        let forth = compare_bytes(x.as_slice(), y.as_slice());
        let back = compare_bytes(y.as_slice(), x.as_slice());
        if !(forth && back) {
            return forth;
        }
        i = i + 1;
    }
    i == a.parts.len()
}

/// What a list of paths holds.
pub open spec fn views(s: Seq<FilePath>) -> Seq<Seq<Seq<u8>>> {
    s.map_values(|p: FilePath| p@)
}

spec fn by_viewed_path() -> spec_fn(FilePath, FilePath) -> bool {
    |a: FilePath, b: FilePath| path_at_most(a@, b@)
}

proof fn lemma_views_push(s: Seq<FilePath>, x: FilePath)
    ensures
        views(s.push(x)) == views(s).push(x@),
{
    assert(views(s.push(x)) =~= views(s).push(x@));
}

proof fn lemma_inserted_views(s: Seq<FilePath>, x: FilePath)
    ensures
        views(inserted(s, x, by_viewed_path())) == inserted(views(s), x@, by_path()),
    decreases s.len(),
{
    if s.len() == 0 || path_at_most(s.last()@, x@) {
        lemma_views_push(s, x);
        assert(views(s).len() == s.len());
        if s.len() > 0 {
            assert(views(s).last() == s.last()@);
        }
    } else {
        assert(views(s).last() == s.last()@);
        assert(views(s).drop_last() =~= views(s.drop_last()));
        lemma_inserted_views(s.drop_last(), x);
        lemma_views_push(inserted(s.drop_last(), x, by_viewed_path()), s.last());
    }
}

proof fn lemma_arranged_views(s: Seq<FilePath>)
    ensures
        views(arranged(s, by_viewed_path())) == arranged(views(s), by_path()),
    decreases s.len(),
{
    if s.len() == 0 {
        assert(views(s) =~= Seq::empty());
    } else {
        lemma_arranged_views(s.drop_last());
        lemma_inserted_views(arranged(s.drop_last(), by_viewed_path()), s.last());
        assert(views(s).drop_last() =~= views(s.drop_last()));
        assert(views(s).last() == s.last()@);
    }
}

/// Sorts paths.
pub(crate) fn sort_paths(paths: Vec<FilePath>) -> (r: Vec<FilePath>)
    ensures
        views(r@) == arranged(views(paths@), by_path()),
        r@.len() == paths@.len(),
{
    let f = |a: &FilePath, b: &FilePath| -> (c: bool)
        ensures
            c == by_viewed_path()(*a, *b),
        {
            compare_paths(a, b)
        };
    proof {
        arranging_keeps_the_elements(paths@, by_viewed_path());
        lemma_arranged_views(paths@);
    }
    arrange(paths, f, Ghost(by_viewed_path()))
}

impl FilePath {
    fn copy(&self) -> (r: FilePath)
        ensures
            r@ == self@,
    {
        let mut parts: Vec<PathPart> = Vec::new();
        let mut i: usize = 0;
        while i < self.parts.len()
            invariant
                i <= self.parts@.len(),
                parts@.len() == i,
                forall|j: int| 0 <= j < i ==> (#[trigger] parts@[j]).code() == self.parts@[j].code(),
            decreases self.parts@.len() - i,
        {
            parts.push(self.parts[i].copy());
            i = i + 1;
        }
        let r = FilePath { parts };
        assert(r@ =~= self@);
        r
    }

    /// The path of an entry of a directory.
    pub fn join(&self, name: &str) -> (r: FilePath)
        ensures
            r@ == self@.push(PathPart::code_of_name(name.spec_bytes())),
    {
        let mut r = self.copy();
        let bytes = name.as_bytes();
        let mut b: Vec<u8> = Vec::new();
        let mut i: usize = 0;
        while i < bytes.len()
            invariant
                i <= bytes@.len(),
                b@ == bytes@.take(i as int),
            decreases bytes@.len() - i,
        {
            b.push(bytes[i]);
            i = i + 1;
        }
        assert(b@ == bytes@);
        r.parts.push(PathPart::Name(b));
        assert(r@ =~= self@.push(PathPart::code_of_name(name.spec_bytes())));
        r
    }
}

impl PathPart {
    /// The code of a name.
    pub open spec fn code_of_name(bytes: Seq<u8>) -> Seq<u8> {
        seq![3u8] + bytes
    }
}

/// The first part in which two paths differ decides which comes first: the root
/// before the current directory, that before the parent, and names last, by
/// their bytes.
pub proof fn the_first_different_part_decides(a: FilePath, b: FilePath, i: int)
    requires
        0 <= i < a.parts@.len(),
        i < b.parts@.len(),
        a@.take(i) == b@.take(i),
        a@[i] != b@[i],
    ensures
        path_at_most(a@, b@) <==> match (a.parts@[i], b.parts@[i]) {
            (PathPart::Root, _) => true,
            (PathPart::Current, y) => !(y is Root),
            (PathPart::Parent, y) => y is Name,
            (PathPart::Name(x), PathPart::Name(y)) => bytes_at_most(x@, y@),
            (PathPart::Name(_), _) => false,
        },
{
    lemma_first_different(a@, b@, i);
    let x = a.parts@[i].code();
    let y = b.parts@[i].code();
    assert(a@[i] == x && b@[i] == y);
    if x[0] == y[0] {
        assert(bytes_at_most(x, y) == bytes_at_most(x.drop_first(), y.drop_first()));
        match (a.parts@[i], b.parts@[i]) {
            (PathPart::Name(s), PathPart::Name(t)) => {
                assert(x.drop_first() =~= s@);
                assert(y.drop_first() =~= t@);
            },
            _ => {
                assert(x =~= y);
            },
        }
    }
}

proof fn lemma_first_different(a: Seq<Seq<u8>>, b: Seq<Seq<u8>>, i: int)
    requires
        0 <= i < a.len(),
        i < b.len(),
        a.take(i) == b.take(i),
        a[i] != b[i],
    ensures
        path_at_most(a, b) <==> bytes_at_most(a[i], b[i]),
    decreases i,
{
    if i > 0 {
        assert(a[0] == a.take(i)[0]);
        assert(b[0] == b.take(i)[0]);
        let s = a.drop_first();
        let t = b.drop_first();
        assert(s.take(i - 1) =~= a.take(i).drop_first());
        assert(t.take(i - 1) =~= b.take(i).drop_first());
        lemma_first_different(s, t, i - 1);
    }
}

/// A directory comes before everything in it.
pub proof fn directories_come_before_their_entries(a: Seq<Seq<u8>>, more: Seq<Seq<u8>>)
    ensures
        path_at_most(a, a + more),
        more.len() > 0 ==> !path_at_most(a + more, a),
    decreases a.len(),
{
    if a.len() > 0 {
        assert((a + more).drop_first() =~= a.drop_first() + more);
        directories_come_before_their_entries(a.drop_first(), more);
    }
}

} // verus!
