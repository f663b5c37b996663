use vstd::prelude::*;

verus! {

/// Number of half-spaces that bound the canonical clip volume.
pub const CLIP_PLANE_COUNT: usize = 6;

/// One half-space of the canonical clip volume `-w <= v[axis] <= w`: with
/// `sign == -1` the inside is `-w <= v[axis]`, with `sign == 1` it is
/// `v[axis] <= w`.
#[derive(Clone, Copy, PartialEq, Eq, Structural, Debug)]
pub struct ClipPlane {
    pub sign: i8,
    pub axis: usize,
}

impl ClipPlane {
    pub open spec fn wf(&self) -> bool {
        (self.sign == -1 || self.sign == 1) && self.axis < 3
    }
}

/// The plane of clipping pass `pass`: axes x, y, z in turn, each first with
/// sign -1 and then with sign 1.
pub open spec fn plane_of_pass(pass: int) -> ClipPlane {
    ClipPlane { sign: if pass % 2 == 0 { -1i8 } else { 1i8 }, axis: (pass / 2) as usize }
}

pub fn clip_plane(pass: usize) -> (r: ClipPlane)
    requires
        pass < CLIP_PLANE_COUNT,
    ensures
        r == plane_of_pass(pass as int),
        r.wf(),
{
    let sign: i8 = if pass % 2 == 0 {
        -1
    } else {
        1
    };
    ClipPlane { sign, axis: pass / 2 }
}

/// A vertex of the polygon that one clipping pass produces, named by the
/// positions of the previous polygon that it comes from.
#[derive(Clone, Copy, PartialEq, Eq, Structural, Debug)]
pub enum ClipVertex {
    /// The vertex at this position, unchanged.
    Keep(usize),
    /// The point where the edge from the first position to the second crosses
    /// the plane; its position and varyings are interpolated along that edge.
    Cross(usize, usize),
}

/// Position of the vertex before `i` in a polygon of `n` vertices.
pub open spec fn prev_index(i: int, n: int) -> int {
    if i == 0 {
        n - 1
    } else {
        i - 1
    }
}

/// What the directed edge that ends at vertex `i` contributes: both ends
/// inside, the end; leaving, the crossing; entering, the crossing and then the
/// end; both outside, nothing.
pub open spec fn edge_output(inside: Seq<bool>, i: int) -> Seq<ClipVertex> {
    let p = prev_index(i, inside.len() as int);
    if inside[i] {
        if inside[p] {
            seq![ClipVertex::Keep(i as usize)]
        } else {
            seq![ClipVertex::Cross(p as usize, i as usize), ClipVertex::Keep(i as usize)]
        }
    } else if inside[p] {
        seq![ClipVertex::Cross(p as usize, i as usize)]
    } else {
        seq![]
    }
}

/// The contributions of the edges that end at vertices `0 .. k`, in order.
pub open spec fn pass_output(inside: Seq<bool>, k: int) -> Seq<ClipVertex>
    decreases k,
{
    if k <= 0 {
        seq![]
    } else {
        pass_output(inside, k - 1) + edge_output(inside, k - 1)
    }
}

/// A vertex of a pass's output lies inside the plane or on it: a kept vertex
/// is inside, a crossing joins an inside and an outside vertex.
pub open spec fn vertex_respects(inside: Seq<bool>, v: ClipVertex) -> bool {
    match v {
        ClipVertex::Keep(i) => i < inside.len() && inside[i as int],
        ClipVertex::Cross(p, c) => p < inside.len() && c < inside.len() && inside[p as int]
            != inside[c as int],
    }
}

/// Every vertex of a clipping pass's output lies inside the plane or on it.
pub open spec fn output_respects(inside: Seq<bool>, out: Seq<ClipVertex>) -> bool {
    forall|j: int| 0 <= j < out.len() ==> vertex_respects(inside, #[trigger] out[j])
}

proof fn lemma_pass_output_facts(inside: Seq<bool>, k: int)
    requires
        0 <= k <= inside.len(),
        inside.len() <= usize::MAX,
    ensures
        pass_output(inside, k).len() <= 2 * k,
        output_respects(inside, pass_output(inside, k)),
    decreases k,
{
    if k > 0 {
        lemma_pass_output_facts(inside, k - 1);
        let a = pass_output(inside, k - 1);
        let e = edge_output(inside, k - 1);
        assert(pass_output(inside, k) == a + e);
        let i = k - 1;
        let p = prev_index(i, inside.len() as int);
        assert(0 <= p < inside.len());
        assert(vertex_respects(inside, ClipVertex::Keep(i as usize)) <== inside[i]);
        assert(vertex_respects(inside, ClipVertex::Cross(p as usize, i as usize)) <== inside[p]
            != inside[i]);
        assert(output_respects(inside, e));
        assert forall|j: int| 0 <= j < (a + e).len() implies vertex_respects(
            inside,
            #[trigger] (a + e)[j],
        ) by {
            if j < a.len() {
                assert((a + e)[j] == a[j]);
            } else {
                assert((a + e)[j] == e[j - a.len()]);
            }
        }
    }
}

/// One pass of Sutherland-Hodgman: given, for each vertex of the current
/// polygon, whether it lies inside the plane, lists the vertices of the
/// clipped polygon.
pub fn clip_pass(inside: &Vec<bool>) -> (r: Vec<ClipVertex>)
    requires
        inside.len() <= usize::MAX / 2,
    ensures
        r@ == pass_output(inside@, inside@.len() as int),
        r@.len() <= 2 * inside@.len(),
        output_respects(inside@, r@),
{
    let n = inside.len();
    let mut out: Vec<ClipVertex> = Vec::new();
    let mut i: usize = 0;
    while i < n
        invariant
            n == inside@.len(),
            n <= usize::MAX / 2,
            i <= n,
            out@ == pass_output(inside@, i as int),
        decreases n - i,
    {
        proof {
            lemma_pass_output_facts(inside@, i as int);
        }
        let prev: usize = if i == 0 {
            n - 1
        } else {
            i - 1
        };
        if inside[i] {
            if !inside[prev] {
                out.push(ClipVertex::Cross(prev, i));
            }
            out.push(ClipVertex::Keep(i));
        } else if inside[prev] {
            out.push(ClipVertex::Cross(prev, i));
        }
        i += 1;
        assert(out@ =~= pass_output(inside@, i as int));
    }
    proof {
        lemma_pass_output_facts(inside@, n as int);
    }
    out
}

/// When every vertex is inside, the pass hands back the polygon unchanged.
pub proof fn lemma_pass_all_inside(inside: Seq<bool>)
    requires
        forall|i: int| 0 <= i < inside.len() ==> #[trigger] inside[i],
    ensures
        pass_output(inside, inside.len() as int) == Seq::new(
            inside.len(),
            |i: int| ClipVertex::Keep(i as usize),
        ),
{
    lemma_pass_all_inside_prefix(inside, inside.len() as int);
}

proof fn lemma_pass_all_inside_prefix(inside: Seq<bool>, k: int)
    requires
        0 <= k <= inside.len(),
        forall|i: int| 0 <= i < inside.len() ==> #[trigger] inside[i],
    ensures
        pass_output(inside, k) == Seq::new(k as nat, |i: int| ClipVertex::Keep(i as usize)),
    decreases k,
{
    if k > 0 {
        lemma_pass_all_inside_prefix(inside, k - 1);
        let p = prev_index(k - 1, inside.len() as int);
        assert(inside[p]);
        assert(pass_output(inside, k) =~= Seq::new(
            k as nat,
            |i: int| ClipVertex::Keep(i as usize),
        ));
    }
}

/// When every vertex is outside, the pass leaves nothing.
pub proof fn lemma_pass_all_outside(inside: Seq<bool>)
    requires
        forall|i: int| 0 <= i < inside.len() ==> !#[trigger] inside[i],
    ensures
        pass_output(inside, inside.len() as int) == Seq::<ClipVertex>::empty(),
{
    lemma_pass_all_outside_prefix(inside, inside.len() as int);
}

proof fn lemma_pass_all_outside_prefix(inside: Seq<bool>, k: int)
    requires
        0 <= k <= inside.len(),
        forall|i: int| 0 <= i < inside.len() ==> !#[trigger] inside[i],
    ensures
        pass_output(inside, k) == Seq::<ClipVertex>::empty(),
    decreases k,
{
    if k > 0 {
        lemma_pass_all_outside_prefix(inside, k - 1);
        let p = prev_index(k - 1, inside.len() as int);
        assert(!inside[p]);
        assert(pass_output(inside, k) =~= Seq::<ClipVertex>::empty());
    }
}

/// The triangle fan of a polygon with `n` vertices: `(0, i, i + 1)` for each
/// `i` in `1 .. n - 1`; nothing when fewer than three vertices remain.
pub open spec fn fan_spec(n: nat) -> Seq<[usize; 3]> {
    if n < 3 {
        seq![]
    } else {
        Seq::new((n - 2) as nat, |j: int| [0usize, (j + 1) as usize, (j + 2) as usize])
    }
}

pub fn fan_triangles(n: usize) -> (r: Vec<[usize; 3]>)
    ensures
        r@ == fan_spec(n as nat),
{
    let mut tris: Vec<[usize; 3]> = Vec::new();
    if n < 3 {
        return tris;
    }
    let count = n - 2;
    let mut j: usize = 0;
    while j < count
        invariant
            count == n - 2,
            n >= 3,
            j <= count,
            tris@ == Seq::new(j as nat, |k: int| [0usize, (k + 1) as usize, (k + 2) as usize]),
        decreases count - j,
    {
        tris.push([0, j + 1, j + 2]);
        j += 1;
        assert(tris@ =~= Seq::new(j as nat, |k: int| [0usize, (k + 1) as usize, (k + 2) as usize]));
    }
    tris
}

/// A triangle whose three vertices lie inside a plane passes through that
/// plane's pass unchanged; when that holds for every plane, the clipper still
/// holds the triangle after the last pass and its fan is the one triangle
/// `(0, 1, 2)`.
pub proof fn lemma_clip_keeps_inside_triangle(inside: Seq<bool>)
    requires
        inside.len() == 3,
        forall|i: int| 0 <= i < 3 ==> #[trigger] inside[i],
    ensures
        pass_output(inside, 3) == keeps(3),
        fan_spec(3) == seq![[0usize, 1usize, 2usize]],
{
    lemma_pass_all_inside(inside);
    assert(fan_spec(3) =~= seq![[0usize, 1usize, 2usize]]);
}

/// A polygon whose vertices all lie outside one plane leaves that plane's pass
/// empty, every later pass keeps it empty, and its fan has no triangle.
pub proof fn lemma_clip_rejects_outside_triangle(inside: Seq<bool>)
    requires
        forall|i: int| 0 <= i < inside.len() ==> !#[trigger] inside[i],
    ensures
        pass_output(inside, inside.len() as int).len() == 0,
        pass_output(Seq::<bool>::empty(), 0).len() == 0,
        fan_spec(0).len() == 0,
{
    lemma_pass_all_outside(inside);
}

/// The identity output of a pass over `n` vertices: each vertex kept in place.
pub open spec fn keeps(n: nat) -> Seq<ClipVertex> {
    Seq::new(n, |i: int| ClipVertex::Keep(i as usize))
}

/// Where each vertex of the polygon after a pass was created: a kept vertex
/// keeps its origin, a crossing is created by this pass. Input vertices have
/// origin -1.
pub open spec fn next_origin(origin: Seq<int>, out: Seq<ClipVertex>, pass: int) -> Seq<int> {
    Seq::new(
        out.len(),
        |k: int|
            match out[k] {
                ClipVertex::Keep(i) => origin[i as int],
                ClipVertex::Cross(_, _) => pass,
            },
    )
}

/// For each vertex of the polygon after a pass, its position in the polygon
/// that each pass so far received; -1 for passes before it existed.
pub open spec fn next_trail(trail: Seq<Seq<int>>, out: Seq<ClipVertex>, pass: int) -> Seq<
    Seq<int>,
> {
    Seq::new(
        out.len(),
        |k: int|
            match out[k] {
                ClipVertex::Keep(i) => trail[i as int].push(i as int),
                ClipVertex::Cross(_, _) => Seq::new((pass + 1) as nat, |j: int| -1int),
            },
    )
}

/// The state of clipping one triangle: how many of the six passes have run
/// and how many vertices the current polygon has. Whoever holds the vertices
/// asks for the next plane, reports which vertices lie inside it, and builds
/// the next polygon from the pass's output; after the last pass it asks for
/// the triangle fan.
pub struct Clipper {
    pass: usize,
    count: usize,
    /// Every pass so far kept the polygon unchanged.
    kept_all: Ghost<bool>,
    /// Some pass so far left no vertex.
    emptied: Ghost<bool>,
    /// The inside flags that each pass so far received.
    history: Ghost<Seq<Seq<bool>>>,
    /// For each current vertex, the pass that created it, or -1.
    origin: Ghost<Seq<int>>,
    /// For each current vertex, its position in the input of each pass.
    trail: Ghost<Seq<Seq<int>>>,
}

impl Clipper {
    pub closed spec fn spec_pass(&self) -> nat {
        self.pass as nat
    }

    pub closed spec fn spec_count(&self) -> nat {
        self.count as nat
    }

    pub closed spec fn spec_kept_all(&self) -> bool {
        self.kept_all@
    }

    pub closed spec fn spec_emptied(&self) -> bool {
        self.emptied@
    }

    /// The inside flags reported to each pass so far.
    pub closed spec fn spec_history(&self) -> Seq<Seq<bool>> {
        self.history@
    }

    /// The pass that created vertex `v` of the current polygon; -1 when it is
    /// a vertex of the input triangle.
    pub closed spec fn spec_origin(&self, v: int) -> int {
        self.origin@[v]
    }

    /// The position of vertex `v` of the current polygon in the polygon that
    /// pass `j` received.
    pub closed spec fn spec_trail(&self, v: int, j: int) -> int {
        self.trail@[v][j]
    }

    /// Vertex `v` of the current polygon was reported inside the plane of pass `j`.
    pub open spec fn was_inside(&self, v: int, j: int) -> bool {
        let at = self.spec_trail(v, j);
        0 <= at < self.spec_history()[j].len() && self.spec_history()[j][at]
    }

    /// The ghost record has one entry per pass and per vertex.
    pub closed spec fn record_wf(&self) -> bool {
        &&& self.history@.len() == self.pass
        &&& self.origin@.len() == self.count
        &&& self.trail@.len() == self.count
        &&& forall|v: int| 0 <= v < self.count ==> #[trigger] self.trail@[v].len() == self.pass
    }

    pub open spec fn wf(&self) -> bool {
        &&& self.record_wf()
        &&& self.spec_pass() <= CLIP_PLANE_COUNT
        &&& self.spec_count() <= 3 * pow2(self.spec_pass())
        &&& self.spec_kept_all() ==> self.spec_count() == 3
        &&& self.spec_emptied() ==> self.spec_count() == 0
        &&& self.spec_history().len() == self.spec_pass()
        &&& forall|v: int|
            0 <= v < self.spec_count() ==> -1 <= #[trigger] self.spec_origin(v)
                < self.spec_pass()
        &&& forall|v: int|
            0 <= v < self.spec_count() && #[trigger] self.spec_origin(v) == -1
                && self.spec_pass() > 0 ==> 0 <= self.spec_trail(v, 0) < 3
        &&& forall|v: int, j: int|
            0 <= v < self.spec_count() && self.spec_origin(v) < j < self.spec_pass()
                ==> #[trigger] self.was_inside(v, j)
    }

    /// Ready to clip a triangle: no pass has run, three vertices.
    pub fn new() -> (r: Self)
        ensures
            r.wf(),
            r.spec_pass() == 0,
            r.spec_count() == 3,
            r.spec_kept_all(),
            !r.spec_emptied(),
            forall|v: int| 0 <= v < 3 ==> #[trigger] r.spec_origin(v) == -1,
    {
        proof {
            reveal_with_fuel(pow2, 1);
        }
        let ghost history: Seq<Seq<bool>> = Seq::empty();
        let ghost origin: Seq<int> = seq![-1int, -1int, -1int];
        let ghost trail: Seq<Seq<int>> = seq![Seq::empty(), Seq::empty(), Seq::empty()];
        Clipper {
            pass: 0,
            count: 3,
            kept_all: Ghost(true),
            emptied: Ghost(false),
            history: Ghost(history),
            origin: Ghost(origin),
            trail: Ghost(trail),
        }
    }

    /// The plane of the next pass, or `None` once all six have run.
    pub fn next_plane(&self) -> (r: Option<ClipPlane>)
        requires
            self.wf(),
        ensures
            self.spec_pass() < CLIP_PLANE_COUNT ==> r == Some(plane_of_pass(self.spec_pass() as int)),
            self.spec_pass() >= CLIP_PLANE_COUNT ==> r.is_none(),
    {
        if self.pass < CLIP_PLANE_COUNT {
            Some(clip_plane(self.pass))
        } else {
            None
        }
    }

    /// Runs the next pass, given for each vertex of the current polygon
    /// whether it lies inside that pass's plane, and returns the vertices of
    /// the clipped polygon.
    pub fn apply(&mut self, inside: &Vec<bool>) -> (r: Vec<ClipVertex>)
        requires
            old(self).wf(),
            old(self).spec_pass() < CLIP_PLANE_COUNT,
            inside@.len() == old(self).spec_count(),
        ensures
            final(self).wf(),
            r@ == pass_output(inside@, inside@.len() as int),
            output_respects(inside@, r@),
            final(self).spec_pass() == old(self).spec_pass() + 1,
            final(self).spec_count() == r@.len(),
            final(self).spec_history() == old(self).spec_history().push(inside@),
            final(self).spec_kept_all() == (old(self).spec_kept_all() && r@ == keeps(
                inside@.len(),
            )),
            final(self).spec_emptied() == (old(self).spec_emptied() || r@.len() == 0),
    {
        proof {
            lemma_pow2_bound(self.pass as nat);
            if self.emptied@ {
                assert(pass_output(inside@, 0) == Seq::<ClipVertex>::empty());
            }
        }
        let out = clip_pass(inside);
        proof {
            assert(pow2((self.pass + 1) as nat) == 2 * pow2(self.pass as nat));
        }
        let ghost pass = self.pass as int;
        let ghost old_self = *self;
        let ghost kept = self.kept_all@ && out@ == keeps(inside@.len());
        let ghost emptied = self.emptied@ || out@.len() == 0;
        let ghost history = self.history@.push(inside@);
        let ghost origin = next_origin(self.origin@, out@, pass);
        let ghost trail = next_trail(self.trail@, out@, pass);
        self.count = out.len();
        self.pass = self.pass + 1;
        self.kept_all = Ghost(kept);
        self.emptied = Ghost(emptied);
        self.history = Ghost(history);
        self.origin = Ghost(origin);
        self.trail = Ghost(trail);
        proof {
            assert forall|v: int| 0 <= v < self.count implies #[trigger] self.trail@[v].len()
                == self.pass by {
                assert(vertex_respects(inside@, out@[v]));
            }
            assert forall|v: int| 0 <= v < self.spec_count() implies -1 <= #[trigger] self.spec_origin(v)
                < self.spec_pass() by {
                assert(vertex_respects(inside@, out@[v]));
                if let ClipVertex::Keep(i) = out@[v] {
                    assert(-1 <= old_self.spec_origin(i as int) < pass);
                }
            }
            assert forall|v: int|
                0 <= v < self.spec_count() && #[trigger] self.spec_origin(v) == -1
                    && self.spec_pass() > 0 implies 0 <= self.spec_trail(v, 0) < 3 by {
                assert(vertex_respects(inside@, out@[v]));
                if let ClipVertex::Keep(i) = out@[v] {
                    if pass > 0 {
                        assert(old_self.spec_origin(i as int) == -1);
                        assert(self.spec_trail(v, 0) == old_self.spec_trail(i as int, 0));
                    } else {
                        reveal_with_fuel(pow2, 1);
                        assert(old_self.spec_count() <= 3);
                    }
                }
            }
            assert forall|v: int, j: int|
                0 <= v < self.spec_count() && self.spec_origin(v) < j < self.spec_pass()
                    implies #[trigger] self.was_inside(v, j) by {
                assert(vertex_respects(inside@, out@[v]));
                if let ClipVertex::Keep(i) = out@[v] {
                    if j < pass {
                        assert(old_self.was_inside(i as int, j));
                        assert(self.spec_trail(v, j) == old_self.spec_trail(i as int, j));
                        assert(self.spec_history()[j] == old_self.spec_history()[j]);
                    } else {
                        assert(self.spec_trail(v, j) == i);
                        assert(self.spec_history()[j] == inside@);
                    }
                }
            }
        }
        out
    }

    /// After the last pass, the fan of the clipped polygon, by positions in it.
    /// A triangle that every pass kept is the one triangle `(0, 1, 2)`; one
    /// that a pass emptied gives none.
    pub fn triangles(&self) -> (r: Vec<[usize; 3]>)
        requires
            self.wf(),
            self.spec_pass() == CLIP_PLANE_COUNT,
        ensures
            r@ == fan_spec(self.spec_count()),
            forall|t: int|
                0 <= t < r@.len() ==> (#[trigger] r@[t])[0] < self.spec_count() && r@[t][1]
                    < self.spec_count() && r@[t][2] < self.spec_count(),
            self.spec_kept_all() ==> r@ == seq![[0usize, 1usize, 2usize]],
            self.spec_emptied() ==> r@.len() == 0,
    {
        proof {
            assert(fan_spec(3) =~= seq![[0usize, 1usize, 2usize]]);
        }
        fan_triangles(self.count)
    }
}

/// Every vertex of the clipped polygon lies inside the canonical volume as
/// far as the inside flags can tell: a vertex of the input triangle that
/// survives was reported inside all six planes, and a crossing created by a
/// pass lies on that pass's plane and was reported inside every later one.
pub proof fn lemma_clipped_vertex_inside(c: Clipper, v: int)
    requires
        c.wf(),
        c.spec_pass() == CLIP_PLANE_COUNT,
        0 <= v < c.spec_count(),
    ensures
        c.spec_origin(v) == -1 ==> 0 <= c.spec_trail(v, 0) < 3 && forall|j: int|
            0 <= j < CLIP_PLANE_COUNT ==> #[trigger] c.was_inside(v, j),
        c.spec_origin(v) >= 0 ==> forall|j: int|
            c.spec_origin(v) < j < CLIP_PLANE_COUNT ==> #[trigger] c.was_inside(v, j),
{
}

pub open spec fn pow2(n: nat) -> nat
    decreases n,
{
    if n == 0 {
        1
    } else {
        2 * pow2((n - 1) as nat)
    }
}

proof fn lemma_pow2_bound(n: nat)
    requires
        n <= CLIP_PLANE_COUNT,
    ensures
        1 <= pow2(n) <= 64,
    decreases n,
{
    reveal_with_fuel(pow2, 7);
}

} // verus!
