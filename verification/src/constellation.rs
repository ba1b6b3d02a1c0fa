//! Finding registered stars again among the stars of an image.
use crate::astro_image::AstroImage;
use crate::double::{of_int, quotient, small_integers_are_exact, sum, total, total_of, Double};
use crate::metrics::outcome;
use crate::pixels::Point;
use crate::star::Star;
use std::collections::{HashMap, HashSet};
use vstd::prelude::*;

verus! {

/// A star of a pattern.
#[derive(Clone, Copy, Debug, PartialEq)]
pub struct RegisteredStar {
    pub pos: Point,
    pub magnitude: Double,
    pub use_in_quality: bool,
    pub median_brightness_adu: Option<Double>,
    pub median_brightest_pixel_part: Option<Double>,
}

/// How a pattern lies in an image: how far its first star is shifted, and by
/// which angle it is turned about that star.
#[derive(Clone, Copy, Debug, PartialEq)]
pub struct Transform {
    pub dx: Double,
    pub dy: Double,
    pub angle: Double,
}

/// A pattern and where it was found.
#[derive(Clone, Debug)]
pub struct Constellation {
    pub registered_stars: Vec<RegisteredStar>,
    pub found: bool,
    /// For each registered star the number of its star in the image.
    pub star_mapping: HashMap<usize, usize>,
    pub transform: Option<Transform>,
    pub position_tolerance_px: Double,
}

/// Some registered star counts for the quality.
pub open spec fn any_in_quality(stars: Seq<RegisteredStar>) -> bool {
    exists|i: int| 0 <= i < stars.len() && (#[trigger] stars[i]).use_in_quality
}

/// Takes over the stars that were read, where at least one of them counts for
/// the quality.
pub fn load_stars_from_json(read: Result<Vec<RegisteredStar>, String>) -> (r: Result<
    Vec<RegisteredStar>,
    String,
>)
    ensures
        outcome(r) == (match outcome(read) {
            Ok(stars) => if any_in_quality(stars@) {
                Ok::<Vec<RegisteredStar>, Seq<char>>(stars)
            } else {
                Err("star pattern must contain at least one star with use_in_quality: true"@)
            },
            Err(e) => Err(e),
        }),
{
    let stars = match read {
        Ok(stars) => stars,
        Err(e) => {
            return Err(e);
        },
    };
    let mut i: usize = 0;
    while i < stars.len()
        invariant
            i <= stars@.len(),
            read == Ok::<Vec<RegisteredStar>, String>(stars),
            forall|k: int| 0 <= k < i ==> !(#[trigger] stars@[k]).use_in_quality,
        decreases stars@.len() - i,
    {
        if stars[i].use_in_quality {
            assert(stars@[i as int].use_in_quality);
            return Ok(stars);
        }
        i = i + 1;
    }
    Err("star pattern must contain at least one star with use_in_quality: true".to_owned())
}

/// One star of the image for each registered star.
pub open spec fn assigns(a: Seq<usize>, registered: int, detected: int) -> bool {
    &&& a.len() == registered
    &&& forall|k: int| 0 <= k < a.len() ==> #[trigger] a[k] < detected
}

/// `a` comes before `b`, compared from the first registered star on.
pub open spec fn earlier(a: Seq<usize>, b: Seq<usize>) -> bool {
    exists|k: int|
        0 <= k < a.len() && k < b.len() && a[k] < b[k] && #[trigger] a.take(k) == b.take(k)
}

/// Where a pattern is sought: its stars, the stars of the image, and how far a
/// star may be off.
pub struct Search {
    pub registered: Seq<Point>,
    pub detected: Seq<Point>,
    pub tolerance: Double,
}

/// The geometry lets star `a[k]` of the image stand for the registered star
/// `k`, if `answer` is true, or does not, if it is false. The first registered
/// star may be any star; the second lies as far from the first as it is
/// registered to, which `near` tells; the others lie where the transform given
/// by the first two puts them, which `placed` tells.
pub open spec fn answers<N, T, P>(
    near: N,
    transform: T,
    placed: P,
    search: Search,
    a: Seq<usize>,
    k: int,
    answer: bool,
) -> bool where
    N: Fn(Point, Point, Point, Point, Double) -> bool,
    T: Fn(Point, Point, Point, Point) -> Transform,
    P: Fn(Point, Point, Transform, Point, Double) -> bool,
 {
    let reg = search.registered;
    let det = search.detected;
    if k == 0 {
        answer
    } else if k == 1 {
        call_ensures(
            near,
            (reg[1], reg[0], det[a[0] as int], det[a[1] as int], search.tolerance),
            answer,
        )
    } else {
        exists|t: Transform| #[trigger]
            call_ensures(transform, (reg[0], reg[1], det[a[0] as int], det[a[1] as int]), t)
                && call_ensures(
                placed,
                (reg[k], reg[0], t, det[a[k] as int], search.tolerance),
                answer,
            )
    }
}

/// The geometry lets every star stand for its registered star.
pub open spec fn accepted<N, T, P>(
    near: N,
    transform: T,
    placed: P,
    search: Search,
    a: Seq<usize>,
) -> bool where
    N: Fn(Point, Point, Point, Point, Double) -> bool,
    T: Fn(Point, Point, Point, Point) -> Transform,
    P: Fn(Point, Point, Transform, Point, Double) -> bool,
 {
    forall|k: int|
        0 <= k < a.len() ==> #[trigger] answers(near, transform, placed, search, a, k, true)
}

/// The geometry does not let some star stand for its registered star.
pub open spec fn refused<N, T, P>(
    near: N,
    transform: T,
    placed: P,
    search: Search,
    a: Seq<usize>,
) -> bool where
    N: Fn(Point, Point, Point, Point, Double) -> bool,
    T: Fn(Point, Point, Point, Point) -> Transform,
    P: Fn(Point, Point, Transform, Point, Double) -> bool,
 {
    exists|k: int|
        0 <= k < a.len() && #[trigger] answers(near, transform, placed, search, a, k, false)
}

/// The transform that the first two stars give.
pub open spec fn placed_by<T: Fn(Point, Point, Point, Point) -> Transform>(
    transform: T,
    search: Search,
    a: Seq<usize>,
    t: Option<Transform>,
) -> bool {
    if a.len() >= 2 {
        t is Some && call_ensures(
            transform,
            (
                search.registered[0],
                search.registered[1],
                search.detected[a[0] as int],
                search.detected[a[1] as int],
            ),
            t->0,
        )
    } else {
        t is None
    }
}

/// A result of the search: the first assignment that the geometry accepts, with
/// the transform that goes with it, or nothing where it refuses all.
pub open spec fn search_result<N, T, P>(
    near: N,
    transform: T,
    placed: P,
    search: Search,
    r: Option<(Seq<usize>, Option<Transform>)>,
) -> bool where
    N: Fn(Point, Point, Point, Point, Double) -> bool,
    T: Fn(Point, Point, Point, Point) -> Transform,
    P: Fn(Point, Point, Transform, Point, Double) -> bool,
 {
    let m = search.registered.len() as int;
    let n = search.detected.len() as int;
    match r {
        Some((a, t)) => {
            &&& assigns(a, m, n)
            &&& accepted(near, transform, placed, search, a)
            &&& placed_by(transform, search, a, t)
            &&& forall|b: Seq<usize>|
                assigns(b, m, n) && #[trigger] earlier(b, a) ==> refused(
                    near,
                    transform,
                    placed,
                    search,
                    b,
                )
        },
        None => forall|b: Seq<usize>| #[trigger]
            assigns(b, m, n) ==> refused(near, transform, placed, search, b),
    }
}

/// What depends only on the first stars is the same for assignments that agree
/// on them.
proof fn lemma_answers_prefix<N, T, P>(
    near: N,
    transform: T,
    placed: P,
    search: Search,
    a: Seq<usize>,
    b: Seq<usize>,
    k: int,
    answer: bool,
) where
    N: Fn(Point, Point, Point, Point, Double) -> bool,
    T: Fn(Point, Point, Point, Point) -> Transform,
    P: Fn(Point, Point, Transform, Point, Double) -> bool,

    requires
        0 <= k < a.len(),
        k < b.len(),
        a.take(k + 1) == b.take(k + 1),
        answers(near, transform, placed, search, a, k, answer),
    ensures
        answers(near, transform, placed, search, b, k, answer),
{
    assert(a[k] == a.take(k + 1)[k]);
    assert(b[k] == b.take(k + 1)[k]);
    assert(a[0] == a.take(k + 1)[0]);
    assert(b[0] == b.take(k + 1)[0]);
    if k >= 1 {
        assert(a[1] == a.take(k + 1)[1]);
        assert(b[1] == b.take(k + 1)[1]);
    }
}

/// Extends the assignment `a` of the first registered stars to all of them, in
/// the first way that the geometry accepts.
fn extend<N, T, P>(
    registered: &Vec<Point>,
    detected: &Vec<Point>,
    tolerance: Double,
    near: &N,
    transform: &T,
    placed: &P,
    a: &mut Vec<usize>,
    known: Option<Transform>,
) -> (r: Option<Option<Transform>>) where
    N: Fn(Point, Point, Point, Point, Double) -> bool,
    T: Fn(Point, Point, Point, Point) -> Transform,
    P: Fn(Point, Point, Transform, Point, Double) -> bool,

    requires
        forall|x: (Point, Point, Point, Point, Double)| call_requires(*near, x),
        forall|x: (Point, Point, Point, Point)| call_requires(*transform, x),
        forall|x: (Point, Point, Transform, Point, Double)| call_requires(*placed, x),
        old(a)@.len() <= registered@.len(),
        forall|k: int| 0 <= k < old(a)@.len() ==> #[trigger] old(a)@[k] < detected@.len(),
        ({
            let s = Search { registered: registered@, detected: detected@, tolerance };
            &&& accepted(*near, *transform, *placed, s, old(a)@)
            &&& placed_by(*transform, s, old(a)@, known)
        }),
    ensures
        ({
            let s = Search { registered: registered@, detected: detected@, tolerance };
            let m = registered@.len() as int;
            let n = detected@.len() as int;
            let p = old(a)@;
            match r {
                Some(t) => {
                    &&& assigns(final(a)@, m, n)
                    &&& final(a)@.take(p.len() as int) == p
                    &&& accepted(*near, *transform, *placed, s, final(a)@)
                    &&& placed_by(*transform, s, final(a)@, t)
                    &&& forall|b: Seq<usize>|
                        assigns(b, m, n) && b.take(p.len() as int) == p && #[trigger] earlier(
                            b,
                            final(a)@,
                        ) ==> refused(*near, *transform, *placed, s, b)
                },
                None => {
                    &&& final(a)@ == p
                    &&& forall|b: Seq<usize>|
                        #![trigger assigns(b, m, n)]
                        assigns(b, m, n) && b.take(p.len() as int) == p ==> refused(
                            *near,
                            *transform,
                            *placed,
                            s,
                            b,
                        )
                },
            }
        }),
    decreases registered@.len() - old(a)@.len(),
{
    let ghost s = Search { registered: registered@, detected: detected@, tolerance };
    let ghost m = registered@.len() as int;
    let ghost n = detected@.len() as int;
    let ghost p = a@;
    let idx: usize = a.len();
    if idx == registered.len() {
        proof {
            assert(p.take(m) == p);
            assert forall|b: Seq<usize>|
                assigns(b, m, n) && b.take(m) == p && #[trigger] earlier(b, p) implies refused(
                *near,
                *transform,
                *placed,
                s,
                b,
            ) by {
                assert(b.take(m) == b);
            }
        }
        return Some(known);
    }
    let mut c: usize = 0;
    while c < detected.len()
        invariant
            forall|x: (Point, Point, Point, Point, Double)| call_requires(*near, x),
            forall|x: (Point, Point, Point, Point)| call_requires(*transform, x),
            forall|x: (Point, Point, Transform, Point, Double)| call_requires(*placed, x),
            s == (Search { registered: registered@, detected: detected@, tolerance }),
            m == registered@.len(),
            n == detected@.len(),
            p == old(a)@,
            a@ == p,
            idx == p.len(),
            idx < m,
            c <= n,
            forall|k: int| 0 <= k < p.len() ==> #[trigger] p[k] < n,
            accepted(*near, *transform, *placed, s, p),
            placed_by(*transform, s, p, known),
            forall|b: Seq<usize>|
                #![trigger assigns(b, m, n)]
                assigns(b, m, n) && b.take(idx as int) == p && b[idx as int] < c ==> refused(
                    *near,
                    *transform,
                    *placed,
                    s,
                    b,
                ),
        decreases n - c,
    {
        let ghost q = p.push(c);
        let mut next: Option<Transform> = known;
        let fits: bool = if idx == 0 {
            true
        } else if idx == 1 {
            near(registered[1], registered[0], detected[a[0]], detected[c], tolerance)
        } else {
            match known {
                Some(t) => placed(registered[idx], registered[0], t, detected[c], tolerance),
                None => false,
            }
        };
        proof {
            if idx >= 2 {
                let t = known->0;
                assert(call_ensures(
                    *transform,
                    (s.registered[0], s.registered[1], s.detected[q[0] as int], s.detected[q[1] as int]),
                    t,
                ));
            }
            assert(answers(*near, *transform, *placed, s, q, idx as int, fits));
        }
        if fits {
            if idx == 1 {
                next = Some(transform(registered[0], registered[1], detected[a[0]], detected[c]));
            }
            a.push(c);
            proof {
                assert forall|k: int| 0 <= k < q.len() implies #[trigger] answers(
                    *near,
                    *transform,
                    *placed,
                    s,
                    q,
                    k,
                    true,
                ) by {
                    if k < idx {
                        assert(answers(*near, *transform, *placed, s, p, k, true));
                        assert(p.take(k + 1) == q.take(k + 1));
                        lemma_answers_prefix(*near, *transform, *placed, s, p, q, k, true);
                    }
                }
            }
            let r = extend(registered, detected, tolerance, near, transform, placed, a, next);
            if r.is_some() {
                proof {
                    let f = a@;
                    assert(f.take(idx as int) == f.take(idx + 1).take(idx as int));
                    assert(q.take(idx as int) == p);
                    assert(f[idx as int] == f.take(idx + 1)[idx as int]);
                    assert forall|b: Seq<usize>|
                        assigns(b, m, n) && b.take(idx as int) == p && #[trigger] earlier(
                            b,
                            f,
                        ) implies refused(*near, *transform, *placed, s, b) by {
                        let k = choose|k: int|
                            0 <= k < b.len() && k < f.len() && b[k] < f[k] && #[trigger] b.take(k)
                                == f.take(k);
                        if k < idx {
                            assert(b[k] == b.take(idx as int)[k]);
                            assert(f[k] == f.take(idx as int)[k]);
                        } else if k > idx {
                            assert(b[idx as int] == b.take(k)[idx as int]);
                            assert(f[idx as int] == f.take(k)[idx as int]);
                            assert(b.take(idx + 1) =~= p.push(b[idx as int]));
                        }
                    }
                }
                return r;
            }
            a.pop();
            assert(a@ =~= p);
        }
        proof {
            assert forall|b: Seq<usize>|
                #![trigger assigns(b, m, n)]
                assigns(b, m, n) && b.take(idx as int) == p && b[idx as int] < c + 1 implies refused(
                *near,
                *transform,
                *placed,
                s,
                b,
            ) by {
                if b[idx as int] == c {
                    assert(b.take(idx + 1) =~= q);
                    if !fits {
                        assert(q.take(idx + 1) =~= q);
                        lemma_answers_prefix(
                            *near,
                            *transform,
                            *placed,
                            s,
                            q,
                            b,
                            idx as int,
                            false,
                        );
                    }
                }
            }
        }
        c = c + 1;
    }
    None
}

/// Where the registered stars are.
pub open spec fn registered_positions(stars: Seq<RegisteredStar>) -> Seq<Point> {
    stars.map_values(|s: RegisteredStar| s.pos)
}

/// Where the stars of the image are.
pub open spec fn star_positions(stars: Seq<Star>) -> Seq<Point> {
    stars.map_values(|s: Star| s.pos)
}

/// The assignment as a map from the number of a registered star to that of its
/// star in the image.
pub open spec fn mapping_of(a: Seq<usize>) -> Map<usize, usize> {
    Map::new(|k: usize| k < a.len(), |k: usize| a[k as int])
}

impl Constellation {
    /// The constellation holds this result of the search.
    pub open spec fn holds(self, r: Option<(Seq<usize>, Option<Transform>)>) -> bool {
        match r {
            Some((a, t)) => {
                &&& self.found
                &&& self.star_mapping@ == mapping_of(a)
                &&& self.transform == t
            },
            None => {
                &&& !self.found
                &&& self.star_mapping@ == Map::<usize, usize>::empty()
                &&& self.transform is None
            },
        }
    }

    /// The constellation holds a result of the search for its registered stars
    /// among the detected ones.
    pub open spec fn located<N, T, P>(
        self,
        near: N,
        transform: T,
        placed: P,
        detected: Seq<Star>,
    ) -> bool where
        N: Fn(Point, Point, Point, Point, Double) -> bool,
        T: Fn(Point, Point, Point, Point) -> Transform,
        P: Fn(Point, Point, Transform, Point, Double) -> bool,
     {
        exists|found: Option<(Seq<usize>, Option<Transform>)>| #[trigger]
            self.holds(found) && search_result(
                near,
                transform,
                placed,
                Search {
                    registered: registered_positions(self.registered_stars@),
                    detected: star_positions(detected),
                    tolerance: self.position_tolerance_px,
                },
                found,
            )
    }

    /// Seeks the registered stars in the image, where each star may be off by
    /// seven pixels. See [`Constellation::find_in_image_with_tolerance`].
    pub fn find_in_image<N, T, P>(
        stars: Vec<RegisteredStar>,
        image: &AstroImage,
        near: &N,
        transform: &T,
        placed: &P,
    ) -> (r: Constellation) where
        N: Fn(Point, Point, Point, Point, Double) -> bool,
        T: Fn(Point, Point, Point, Point) -> Transform,
        P: Fn(Point, Point, Transform, Point, Double) -> bool,

        requires
            forall|x: (Point, Point, Point, Point, Double)| call_requires(*near, x),
            forall|x: (Point, Point, Point, Point)| call_requires(*transform, x),
            forall|x: (Point, Point, Transform, Point, Double)| call_requires(*placed, x),
        ensures
            r.registered_stars == stars,
            r.position_tolerance_px == of_int(7),
            r.located(*near, *transform, *placed, image.detected_stars@),
    {
        Constellation::find_in_image_with_tolerance(
            stars,
            image,
            Double::of_u64(7),
            near,
            transform,
            placed,
        )
    }

    /// Seeks the registered stars in the image. `near` tells of a registered
    /// star, the first registered star, the star of the image that stands for
    /// the first and another one whether the latter two are as far apart as the
    /// former, up to the tolerance. `transform` gives the transform that moves
    /// the first two registered stars to two stars of the image. `placed` tells
    /// of a registered star, the first registered star, a transform and a star
    /// of the image whether the transform moves the registered star there, up to
    /// the tolerance.
    pub fn find_in_image_with_tolerance<N, T, P>(
        stars: Vec<RegisteredStar>,
        image: &AstroImage,
        position_tolerance_px: Double,
        near: &N,
        transform: &T,
        placed: &P,
    ) -> (r: Constellation) where
        N: Fn(Point, Point, Point, Point, Double) -> bool,
        T: Fn(Point, Point, Point, Point) -> Transform,
        P: Fn(Point, Point, Transform, Point, Double) -> bool,

        requires
            forall|x: (Point, Point, Point, Point, Double)| call_requires(*near, x),
            forall|x: (Point, Point, Point, Point)| call_requires(*transform, x),
            forall|x: (Point, Point, Transform, Point, Double)| call_requires(*placed, x),
        ensures
            r.registered_stars == stars,
            r.position_tolerance_px == position_tolerance_px,
            r.located(*near, *transform, *placed, image.detected_stars@),
    {
        broadcast use vstd::std_specs::hash::group_hash_axioms;

        let mut registered: Vec<Point> = Vec::new();
        let mut i: usize = 0;
        while i < stars.len()
            invariant
                i <= stars@.len(),
                registered@ == registered_positions(stars@.take(i as int)),
            decreases stars@.len() - i,
        {
            registered.push(stars[i].pos);
            i = i + 1;
        }
        assert(stars@.take(i as int) =~= stars@);
        let mut detected: Vec<Point> = Vec::new();
        i = 0;
        while i < image.detected_stars.len()
            invariant
                i <= image.detected_stars@.len(),
                detected@ == star_positions(image.detected_stars@.take(i as int)),
            decreases image.detected_stars@.len() - i,
        {
            detected.push(image.detected_stars[i].pos);
            i = i + 1;
        }
        assert(image.detected_stars@.take(i as int) =~= image.detected_stars@);
        let mut a: Vec<usize> = Vec::new();
        let ghost search = Search {
            registered: registered@,
            detected: detected@,
            tolerance: position_tolerance_px,
        };
        let found = extend(
            &registered,
            &detected,
            position_tolerance_px,
            near,
            transform,
            placed,
            &mut a,
            None,
        );
        let mut star_mapping: HashMap<usize, usize> = HashMap::new();
        match found {
            Some(t) => {
                let mut k: usize = 0;
                proof {
                    assert(star_mapping@ =~= mapping_of(a@.take(0)));
                }
                while k < a.len()
                    invariant
                        k <= a@.len(),
                        star_mapping@ == mapping_of(a@.take(k as int)),
                    decreases a@.len() - k,
                {
                    broadcast use vstd::std_specs::hash::group_hash_axioms;

                    star_mapping.insert(k, a[k]);
                    proof {
                        assert(star_mapping@ =~= mapping_of(a@.take(k + 1)));
                    }
                    k = k + 1;
                }
                assert(a@.take(k as int) =~= a@);
                proof {
                    let result = Some((a@, t));
                    assert forall|b: Seq<usize>|
                        assigns(
                            b,
                            search.registered.len() as int,
                            search.detected.len() as int,
                        ) && #[trigger] earlier(b, a@) implies refused(
                        *near,
                        *transform,
                        *placed,
                        search,
                        b,
                    ) by {
                        assert(b.take(0) =~= Seq::empty());
                    }
                    assert(search_result(*near, *transform, *placed, search, result));
                }
                let r = Constellation {
                    registered_stars: stars,
                    found: true,
                    star_mapping,
                    transform: t,
                    position_tolerance_px,
                };
                assert(r.holds(Some((a@, t))));
                r
            },
            None => {
                proof {
                    let result: Option<(Seq<usize>, Option<Transform>)> = None;
                    assert forall|b: Seq<usize>| #[trigger]
                        assigns(
                            b,
                            search.registered.len() as int,
                            search.detected.len() as int,
                        ) implies refused(*near, *transform, *placed, search, b) by {
                        assert(b.take(0) =~= Seq::empty());
                    }
                    assert(search_result(*near, *transform, *placed, search, result));
                }
                let r = Constellation {
                    registered_stars: stars,
                    found: false,
                    star_mapping,
                    transform: None,
                    position_tolerance_px,
                };
                assert(r.holds(None));
                r
            },
        }
    }

    /// The stars of the image that stand for the first `n` registered stars, of
    /// those that count for the quality.
    pub open spec fn quality_stars_among(self, n: int) -> Set<usize>
        decreases n,
    {
        if n <= 0 {
            Set::empty()
        } else {
            let rest = self.quality_stars_among(n - 1);
            if self.registered_stars@[n - 1].use_in_quality && self.star_mapping@.contains_key(
                (n - 1) as usize,
            ) {
                rest.insert(self.star_mapping@[(n - 1) as usize])
            } else {
                rest
            }
        }
    }

    /// The stars of the image that decide the quality.
    pub open spec fn quality_stars(self) -> Set<usize> {
        self.quality_stars_among(self.registered_stars@.len() as int)
    }

    /// The numbers of the stars of the image that decide the quality.
    pub fn quality_indices(&self) -> (r: HashSet<usize>)
        ensures
            r@ == self.quality_stars(),
    {
        broadcast use vstd::std_specs::hash::group_hash_axioms;

        let mut r: HashSet<usize> = HashSet::new();
        let mut i: usize = 0;
        while i < self.registered_stars.len()
            invariant
                i <= self.registered_stars@.len(),
                r@ == self.quality_stars_among(i as int),
            decreases self.registered_stars@.len() - i,
        {
            broadcast use vstd::std_specs::hash::group_hash_axioms;

            if self.registered_stars[i].use_in_quality {
                if let Some(d) = self.star_mapping.get(&i) {
                    r.insert(*d);
                }
            }
            i = i + 1;
        }
        r
    }

    /// The brightnesses of the stars of the image that stand for the first `n`
    /// registered stars, of those that count for the quality.
    pub open spec fn signals(self, stars: Seq<Star>, n: int) -> Seq<Double>
        decreases n,
    {
        if n <= 0 {
            Seq::empty()
        } else {
            let rest = self.signals(stars, n - 1);
            let i = (n - 1) as usize;
            if self.registered_stars@[n - 1].use_in_quality && self.star_mapping@.contains_key(i)
                && self.star_mapping@[i] < stars.len() {
                rest.push(stars[self.star_mapping@[i] as int].magnitude_adu)
            } else {
                rest
            }
        }
    }
}

/// The sum of the brightnesses of those stars of a found pattern that count for
/// the quality.
pub fn star_pattern_brightness_adu(stars: &[Star], constellation: &Constellation) -> (r: Option<
    Double,
>)
    ensures
        r == (if constellation.found {
            Some(
                total(
                    constellation.signals(
                        stars@,
                        constellation.registered_stars@.len() as int,
                    ),
                ),
            )
        } else {
            None
        }),
{
    broadcast use vstd::std_specs::hash::group_hash_axioms;

    if !constellation.found {
        return None;
    }
    let mut signals: Vec<Double> = Vec::new();
    let mut i: usize = 0;
    while i < constellation.registered_stars.len()
        invariant
            i <= constellation.registered_stars@.len(),
            signals@ == constellation.signals(stars@, i as int),
        decreases constellation.registered_stars@.len() - i,
    {
        broadcast use vstd::std_specs::hash::group_hash_axioms;

        if constellation.registered_stars[i].use_in_quality {
            if let Some(d) = constellation.star_mapping.get(&i) {
                if *d < stars.len() {
                    signals.push(stars[*d].magnitude_adu);
                }
            }
        }
        i = i + 1;
    }
    Some(total_of(&signals))
}

/// The signal divided by the noise, where there are both.
pub fn star_pattern_snr(signal: Option<Double>, background_noise_adu: Double) -> (r: Option<Double>)
    ensures
        r == (match signal {
            Some(s) => if background_noise_adu.finite() && background_noise_adu.units() > 0 {
                Some(quotient(s, background_noise_adu))
            } else {
                None
            },
            None => None,
        }),
{
    match signal {
        Some(s) => {
            proof {
                small_integers_are_exact(0);
            }
            if background_noise_adu.is_finite() && Double::of_u64(0).below(background_noise_adu) {
                Some(s.quotient(background_noise_adu))
            } else {
                None
            }
        },
        None => None,
    }
}

proof fn lemma_signals_agree(c: Constellation, one: Seq<Star>, other: Seq<Star>, n: int)
    requires
        0 <= n <= c.registered_stars@.len(),
        one.len() == other.len(),
        forall|d: usize| #[trigger]
            c.quality_stars_among(n).contains(d) && d < one.len() ==> one[d as int].magnitude_adu
                == other[d as int].magnitude_adu,
    ensures
        c.signals(one, n) == c.signals(other, n),
    decreases n,
{
    if n > 0 {
        assert forall|d: usize| #[trigger]
            c.quality_stars_among(n - 1).contains(d) && d < one.len() implies one[d as int].magnitude_adu
            == other[d as int].magnitude_adu by {
            assert(c.quality_stars_among(n).contains(d));
        }
        lemma_signals_agree(c, one, other, n - 1);
        let i = (n - 1) as usize;
        if c.registered_stars@[n - 1].use_in_quality && c.star_mapping@.contains_key(i) {
            assert(c.quality_stars_among(n).contains(c.star_mapping@[i]));
        }
    }
}

/// Only the stars that stand for registered stars that count for the quality
/// have a part in the brightness: whatever the others are like, it is the same.
pub proof fn other_stars_do_not_count(c: Constellation, one: Seq<Star>, other: Seq<Star>)
    requires
        one.len() == other.len(),
        forall|d: usize| #[trigger]
            c.quality_stars().contains(d) && d < one.len() ==> one[d as int].magnitude_adu
                == other[d as int].magnitude_adu,
    ensures
        c.signals(one, c.registered_stars@.len() as int) == c.signals(
            other,
            c.registered_stars@.len() as int,
        ),
{
    let n = c.registered_stars@.len() as int;
    assert forall|d: usize| #[trigger]
        c.quality_stars_among(n).contains(d) && d < one.len() implies one[d as int].magnitude_adu
        == other[d as int].magnitude_adu by {
        assert(c.quality_stars().contains(d));
    }
    lemma_signals_agree(c, one, other, n);
}

/// A registered star that does not count for the quality adds nothing to the
/// brightness, nor to the stars that decide the quality.
pub proof fn disabled_stars_do_not_count(c: Constellation, stars: Seq<Star>, n: int)
    requires
        0 < n <= c.registered_stars@.len(),
        !c.registered_stars@[n - 1].use_in_quality,
    ensures
        c.signals(stars, n) == c.signals(stars, n - 1),
        c.quality_stars_among(n) == c.quality_stars_among(n - 1),
{
}

proof fn lemma_mapping_len(a: Seq<usize>)
    requires
        a.len() <= usize::MAX,
    ensures
        mapping_of(a).dom().finite(),
        mapping_of(a).len() == a.len(),
    decreases a.len(),
{
    if a.len() == 0 {
        assert(mapping_of(a) =~= Map::<usize, usize>::empty());
    } else {
        let b = a.drop_last();
        lemma_mapping_len(b);
        let last = (a.len() - 1) as usize;
        assert(!mapping_of(b).contains_key(last));
        assert(mapping_of(a) =~= mapping_of(b).insert(last, a.last()));
    }
}

/// A pattern that was found gives every registered star a star of the image, and
/// one that was not gives none.
pub proof fn found_patterns_are_complete<N, T, P>(
    c: Constellation,
    near: N,
    transform: T,
    placed: P,
    detected: Seq<Star>,
    k: usize,
) where
    N: Fn(Point, Point, Point, Point, Double) -> bool,
    T: Fn(Point, Point, Point, Point) -> Transform,
    P: Fn(Point, Point, Transform, Point, Double) -> bool,

    requires
        c.located(near, transform, placed, detected),
        c.registered_stars@.len() <= usize::MAX,
    ensures
        c.star_mapping@.contains_key(k) <==> c.found && k < c.registered_stars@.len(),
        c.star_mapping@.contains_key(k) ==> c.star_mapping@[k] < detected.len(),
        c.star_mapping@.len() == (if c.found {
            c.registered_stars@.len()
        } else {
            0
        }),
{
    let found = choose|found: Option<(Seq<usize>, Option<Transform>)>| #[trigger]
        c.holds(found) && search_result(
            near,
            transform,
            placed,
            Search {
                registered: registered_positions(c.registered_stars@),
                detected: star_positions(detected),
                tolerance: c.position_tolerance_px,
            },
            found,
        );
    if let Some((a, t)) = found {
        lemma_mapping_len(a);
        if k < a.len() {
            assert(a[k as int] < detected.len());
        }
    }
}

/// In a pattern that was found, the second star is as far from the first as it
/// is registered to, and every further star lies where the transform puts the
/// registered star that it stands for.
pub proof fn found_stars_are_in_place<N, T, P>(
    c: Constellation,
    near: N,
    transform: T,
    placed: P,
    detected: Seq<Star>,
    k: usize,
) where
    N: Fn(Point, Point, Point, Point, Double) -> bool,
    T: Fn(Point, Point, Point, Point) -> Transform,
    P: Fn(Point, Point, Transform, Point, Double) -> bool,

    requires
        c.located(near, transform, placed, detected),
        c.registered_stars@.len() <= usize::MAX,
        c.found,
        1 <= k < c.registered_stars@.len(),
    ensures
        ({
            let registered = c.registered_stars@;
            let first = detected[c.star_mapping@[0] as int].pos;
            let second = detected[c.star_mapping@[1] as int].pos;
            let own = detected[c.star_mapping@[k] as int].pos;
            &&& call_ensures(
                near,
                (registered[1].pos, registered[0].pos, first, second, c.position_tolerance_px),
                true,
            )
            &&& c.transform is Some
            &&& call_ensures(
                transform,
                (registered[0].pos, registered[1].pos, first, second),
                c.transform->0,
            )
            &&& k >= 2 ==> exists|t: Transform| #[trigger]
                call_ensures(
                    transform,
                    (registered[0].pos, registered[1].pos, first, second),
                    t,
                ) && call_ensures(
                    placed,
                    (registered[k as int].pos, registered[0].pos, t, own, c.position_tolerance_px),
                    true,
                )
        }),
{
    let search = Search {
        registered: registered_positions(c.registered_stars@),
        detected: star_positions(detected),
        tolerance: c.position_tolerance_px,
    };
    let found = choose|found: Option<(Seq<usize>, Option<Transform>)>| #[trigger]
        c.holds(found) && search_result(near, transform, placed, search, found);
    let a = (found->0).0;
    assert(c.star_mapping@[0] == a[0]);
    assert(c.star_mapping@[1] == a[1]);
    assert(c.star_mapping@[k] == a[k as int]);
    assert(a[0] < detected.len());
    assert(a[1] < detected.len());
    assert(a[k as int] < detected.len());
    assert(answers(near, transform, placed, search, a, 1, true));
    assert(answers(near, transform, placed, search, a, k as int, true));
    assert(search.registered[k as int] == c.registered_stars@[k as int].pos);
    assert(search.detected[a[k as int] as int] == detected[a[k as int] as int].pos);
}

/// The geometry cannot say no to the stars `b` standing for the registered ones:
/// the second one is not refused, and none of the others is refused its place.
pub open spec fn surely_fits<N, T, P>(
    near: N,
    transform: T,
    placed: P,
    registered: Seq<RegisteredStar>,
    detected: Seq<Star>,
    tolerance: Double,
    b: Seq<usize>,
) -> bool where
    N: Fn(Point, Point, Point, Point, Double) -> bool,
    T: Fn(Point, Point, Point, Point) -> Transform,
    P: Fn(Point, Point, Transform, Point, Double) -> bool,
 {
    &&& b.len() == registered.len()
    &&& forall|k: int| 0 <= k < b.len() ==> #[trigger] b[k] < detected.len()
    &&& b.len() >= 2 ==> !call_ensures(
        near,
        (
            registered[1].pos,
            registered[0].pos,
            detected[b[0] as int].pos,
            detected[b[1] as int].pos,
            tolerance,
        ),
        false,
    )
    &&& forall|k: int, t: Transform|
        2 <= k < b.len() && call_ensures(
            transform,
            (
                registered[0].pos,
                registered[1].pos,
                detected[b[0] as int].pos,
                detected[b[1] as int].pos,
            ),
            t,
        ) ==> !(#[trigger] call_ensures(
            placed,
            (
                registered[k].pos,
                registered[0].pos,
                t,
                detected[b[k] as int].pos,
                tolerance,
            ),
            false,
        ))
}

/// Where some stars of the image fit the pattern beyond doubt, it is found, and
/// the stars that it is found at do not come after these: at the first
/// registered star where the two differ, the found star has the smaller number.
pub proof fn patterns_are_found_where_they_fit<N, T, P>(
    c: Constellation,
    near: N,
    transform: T,
    placed: P,
    detected: Seq<Star>,
    b: Seq<usize>,
) where
    N: Fn(Point, Point, Point, Point, Double) -> bool,
    T: Fn(Point, Point, Point, Point) -> Transform,
    P: Fn(Point, Point, Transform, Point, Double) -> bool,

    requires
        c.located(near, transform, placed, detected),
        c.registered_stars@.len() <= usize::MAX,
        surely_fits(
            near,
            transform,
            placed,
            c.registered_stars@,
            detected,
            c.position_tolerance_px,
            b,
        ),
    ensures
        c.found,
        forall|k: int|
            0 <= k < b.len() && (forall|m: int|
                0 <= m < k ==> #[trigger] b[m] == c.star_mapping@[m as usize])
                ==> c.star_mapping@[k as usize] <= #[trigger] b[k],
{
    let search = Search {
        registered: registered_positions(c.registered_stars@),
        detected: star_positions(detected),
        tolerance: c.position_tolerance_px,
    };
    let m = search.registered.len() as int;
    let n = search.detected.len() as int;
    let found = choose|found: Option<(Seq<usize>, Option<Transform>)>| #[trigger]
        c.holds(found) && search_result(near, transform, placed, search, found);
    assert(assigns(b, m, n));
    assert(!refused(near, transform, placed, search, b)) by {
        if refused(near, transform, placed, search, b) {
            let k = choose|k: int|
                0 <= k < b.len() && #[trigger] answers(
                    near,
                    transform,
                    placed,
                    search,
                    b,
                    k,
                    false,
                );
            assert(b[0] < n && b[k] < n);
            assert(search.detected[b[0] as int] == detected[b[0] as int].pos);
            assert(search.detected[b[k] as int] == detected[b[k] as int].pos);
            if k >= 1 {
                assert(b[1] < n);
                assert(search.detected[b[1] as int] == detected[b[1] as int].pos);
            }
            if k >= 2 {
                let t = choose|t: Transform| #[trigger]
                    call_ensures(
                        transform,
                        (
                            search.registered[0],
                            search.registered[1],
                            search.detected[b[0] as int],
                            search.detected[b[1] as int],
                        ),
                        t,
                    ) && call_ensures(
                        placed,
                        (
                            search.registered[k],
                            search.registered[0],
                            t,
                            search.detected[b[k] as int],
                            search.tolerance,
                        ),
                        false,
                    );
                assert(!call_ensures(
                    placed,
                    (
                        c.registered_stars@[k].pos,
                        c.registered_stars@[0].pos,
                        t,
                        detected[b[k] as int].pos,
                        c.position_tolerance_px,
                    ),
                    false,
                ));
            }
        }
    }
    assert(found is Some);
    let a = (found->0).0;
    assert forall|k: int|
        0 <= k < b.len() && (forall|m: int|
            0 <= m < k ==> #[trigger] b[m] == c.star_mapping@[m as usize]) implies c.star_mapping@[k as usize]
        <= #[trigger] b[k] by {
        assert(c.star_mapping@[k as usize] == a[k]);
        if b[k] < a[k] {
            assert(b.take(k) =~= a.take(k)) by {
                assert forall|i: int| 0 <= i < k implies b.take(k)[i] == a.take(k)[i] by {
                    assert(b[i] == c.star_mapping@[i as usize]);
                    assert(c.star_mapping@[i as usize] == a[i]);
                }
            }
            assert(earlier(b, a));
        }
    }
}

proof fn lemma_quality_stars(c: Constellation, n: int, d: usize)
    requires
        0 <= n <= c.registered_stars@.len() <= usize::MAX,
    ensures
        c.quality_stars_among(n).contains(d) <==> exists|k: int|
            0 <= k < n && (#[trigger] c.registered_stars@[k]).use_in_quality
                && c.star_mapping@.contains_key(k as usize) && c.star_mapping@[k as usize] == d,
    decreases n,
{
    if n > 0 {
        lemma_quality_stars(c, n - 1, d);
        let last = c.registered_stars@[n - 1];
        if c.quality_stars_among(n).contains(d) {
            if !c.quality_stars_among(n - 1).contains(d) {
                assert(c.registered_stars@[n - 1].use_in_quality);
            }
        }
        if exists|k: int|
            0 <= k < n && (#[trigger] c.registered_stars@[k]).use_in_quality
                && c.star_mapping@.contains_key(k as usize) && c.star_mapping@[k as usize] == d {
            let k = choose|k: int|
                0 <= k < n && (#[trigger] c.registered_stars@[k]).use_in_quality
                    && c.star_mapping@.contains_key(k as usize) && c.star_mapping@[k as usize] == d;
            if k < n - 1 {
                assert(c.quality_stars_among(n - 1).contains(d));
            }
        }
    }
}

/// The stars that decide the quality are exactly those that stand for a
/// registered star with the mark for it.
pub proof fn marked_stars_decide_the_quality(c: Constellation, d: usize)
    requires
        c.registered_stars@.len() <= usize::MAX,
    ensures
        c.quality_stars().contains(d) <==> exists|k: int|
            0 <= k < c.registered_stars@.len() && (#[trigger] c.registered_stars@[k]).use_in_quality
                && c.star_mapping@.contains_key(k as usize) && c.star_mapping@[k as usize] == d,
{
    lemma_quality_stars(c, c.registered_stars@.len() as int, d);
}

/// A registered star with the mark for quality adds the brightness of its star
/// of the image to the brightness of the pattern.
pub proof fn marked_stars_add_their_brightness(c: Constellation, stars: Seq<Star>, n: int)
    requires
        0 < n <= c.registered_stars@.len() <= usize::MAX,
        c.registered_stars@[n - 1].use_in_quality,
        c.star_mapping@.contains_key((n - 1) as usize),
        c.star_mapping@[(n - 1) as usize] < stars.len(),
    ensures
        total(c.signals(stars, n)) == sum(
            total(c.signals(stars, n - 1)),
            stars[c.star_mapping@[(n - 1) as usize] as int].magnitude_adu,
        ),
        c.signals(stars, 0) == Seq::<Double>::empty(),
{
    let s = c.signals(stars, n);
    assert(s.drop_last() =~= c.signals(stars, n - 1));
}

/// A registered star that no star of the image stands for adds nothing to the
/// brightness of the pattern.
pub proof fn missing_stars_add_nothing(c: Constellation, stars: Seq<Star>, n: int)
    requires
        0 < n <= c.registered_stars@.len() <= usize::MAX,
        !c.star_mapping@.contains_key((n - 1) as usize) || c.star_mapping@[(n - 1) as usize]
            >= stars.len(),
    ensures
        c.signals(stars, n) == c.signals(stars, n - 1),
{
}

} // verus!
