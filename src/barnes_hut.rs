use vstd::prelude::*;

use crate::body::Body;
use crate::cube::Cube;
use crate::wide::{add_wide, lt_wide, mul_wide, mul_word, word};
use crate::octree::{
    lemma_opt_mass_nonneg, mass_times, lemma_moment_bound, mass_w, moment_w, opt_child_wf, opt_weight, region_at, Moment, OcTree,
};
use crate::vector::{Vector3, COORD_LIMIT};

verus! {

broadcast use vstd::std_specs::vec::group_vec_axioms, vstd::seq::group_seq_axioms;

/// The opening angle θ as the ratio `num / den`.
#[derive(Debug, Clone, Copy, PartialEq, Eq, Structural)]
pub struct Theta {
    pub num: u16,
    pub den: u16,
}

impl Theta {
    pub open spec fn wf(self) -> bool {
        self.den > 0
    }
}

/// An aggregated pseudo-body: the total mass and moment of a cell. Its
/// position is `moment / mass`.
#[derive(Debug, Clone, Copy, PartialEq, Eq, Structural)]
pub struct Cell {
    pub mass: u64,
    pub moment: Moment,
}

/// Something that pulls on a body: another body, or a far cell taken as a
/// whole.
#[derive(Debug, Clone, Copy, PartialEq, Eq, Structural)]
pub enum Source {
    Body(Body),
    Cell(Cell),
}

/// `|mass·p - moment|²`: the squared distance from `p` to the centre of mass
/// `moment / mass`, times `mass²`.
pub open spec fn scaled_offset_sq(p: Vector3, mass: u64, moment: Moment) -> int {
    let dx = mass * p.x - moment.x;
    let dy = mass * p.y - moment.y;
    let dz = mass * p.z - moment.z;
    dx * dx + dy * dy + dz * dz
}

/// Largest total mass of a tree for which the traversal computes the
/// acceptance test exactly within 256 bits.
pub const MASS_LIMIT: u64 = 281474976710656;

/// The acceptance test `s / d < θ` for a cell of edge `s = size / scale`,
/// where `d` is the softened distance `sqrt(|p - c|² + 1/1000)` to the centre
/// of mass `c = moment / mass`: squared, multiplied by `1000 · mass² · scale²`
/// and cleared of the ratio θ.
pub open spec fn accepts(size: int, scale: int, p: Vector3, mass: u64, moment: Moment, th: Theta) -> bool {
    1000 * size * size * th.den * th.den * mass * mass < th.num * th.num * (scale * scale) * (
    1000 * scaled_offset_sq(p, mass, moment) + mass * mass)
}

/// Whether the traversal for `b` takes an internal cell as a whole.
pub open spec fn takes_whole(bd: Cube, mass: u64, moment: Moment, b: Body, th: Theta) -> bool {
    mass > 0 && accepts(bd.size as int, bd.scale as int, b.pos, mass, moment, th)
}

/// The sources of an optional subtree.
pub open spec fn opt_sources(c: Option<Box<OcTree>>, b: Body, th: Theta) -> Seq<Source>
    decreases c,
{
    match c {
        Some(t) => sources(*t, b, th),
        None => Seq::empty(),
    }
}

/// The sources that act on `b`, in child order: a leaf contributes its body
/// unless that body is `b` itself (same id); an internal cell that passes the
/// acceptance test contributes itself as one pseudo-body; any other internal
/// cell contributes the sources of its children.
pub open spec fn sources(t: OcTree, b: Body, th: Theta) -> Seq<Source>
    decreases t,
{
    match t {
        OcTree::Leaf(l) => if l.body.id == b.id {
            Seq::empty()
        } else {
            seq![Source::Body(l.body)]
        },
        OcTree::Root(r) => if takes_whole(r.boundary, r.mass, r.moment, b, th) {
            seq![Source::Cell(Cell { mass: r.mass, moment: r.moment })]
        } else if r.children@.len() == 8 {
            opt_sources(r.children@[0], b, th) + opt_sources(r.children@[1], b, th) + opt_sources(
                r.children@[2],
                b,
                th,
            ) + opt_sources(r.children@[3], b, th) + opt_sources(r.children@[4], b, th)
                + opt_sources(r.children@[5], b, th) + opt_sources(r.children@[6], b, th)
                + opt_sources(r.children@[7], b, th)
        } else {
            Seq::empty()
        },
    }
}

/// The sources of the first `k` child slots, in order.
pub open spec fn sources_upto(cs: Seq<Option<Box<OcTree>>>, k: int, b: Body, th: Theta) -> Seq<
    Source,
>
    decreases k,
{
    if k <= 0 {
        Seq::empty()
    } else {
        sources_upto(cs, k - 1, b, th) + opt_sources(cs[k - 1], b, th)
    }
}

/// `|x|` for a value well inside the range.
fn abs_i128(x: i128) -> (r: u128)
    requires
        x > i128::MIN,
    ensures
        r == if x < 0 { -(x as int) } else { x as int },
{
    if x < 0 {
        (0 - x) as u128
    } else {
        x as u128
    }
}

/// The acceptance test, computed exactly, for a cell whose moment fits its
/// mass.
fn takes_whole_exec(bd: &Cube, mass: u64, moment: &Moment, b: &Body, th: &Theta) -> (r: bool)
    requires
        bd.wf(),
        b.pos.bounded(),
        th.wf(),
        mass <= MASS_LIMIT,
        -COORD_LIMIT * mass <= moment.x <= COORD_LIMIT * mass,
        -COORD_LIMIT * mass <= moment.y <= COORD_LIMIT * mass,
        -COORD_LIMIT * mass <= moment.z <= COORD_LIMIT * mass,
    ensures
        r == takes_whole(*bd, mass, *moment, *b, *th),
{
    if mass == 0 {
        return false;
    }
    let ghost big = word() * word();
    let s = bd.size as u128;
    let k = bd.scale as u128;
    let den = th.den as u128;
    let num = th.num as u128;
    let m = mass as u128;
    assert(s * den <= 0x200_0000 * 0xffff) by (nonlinear_arith)
        requires
            s <= 0x200_0000,
            den <= 0xffff,
    ;
    assert(s * den * m <= 0x200_0000 * 0xffff * 0x1_0000_0000_0000) by (nonlinear_arith)
        requires
            s <= 0x200_0000,
            den <= 0xffff,
            m <= 0x1_0000_0000_0000,
    ;
    let w = s * den * m;
    let w2 = mul_wide(w, w);
    assert(w * w * 1000 < big) by (nonlinear_arith)
        requires
            0 <= w <= 0x200_0000 * 0xffff * 0x1_0000_0000_0000,
            big == word() * word(),
            word() == 0x1_0000_0000_0000_0000int * 0x1_0000_0000_0000_0000int,
    ;
    let lhs = mul_word(w2, 1000);
    assert(COORD_LIMIT * mass <= 0x100_0000 * 0x1_0000_0000_0000 && -COORD_LIMIT * mass >= -(
    0x100_0000 * 0x1_0000_0000_0000int)) by (nonlinear_arith)
        requires
            mass <= 0x1_0000_0000_0000,
            COORD_LIMIT == 0x100_0000,
    ;
    let mx = mass_times(mass, b.pos.x);
    let my = mass_times(mass, b.pos.y);
    let mz = mass_times(mass, b.pos.z);
    proof {
        let cap = 0x100_0000 * 0x1_0000_0000_0000int;
        assert(-cap <= mx <= cap && -cap <= moment.x <= cap);
        assert(-cap <= my <= cap && -cap <= moment.y <= cap);
        assert(-cap <= mz <= cap && -cap <= moment.z <= cap);
    }
    // Offsets `mass·p - moment`, each at most 2^73 in size.
    let vx = mx - moment.x;
    let vy = my - moment.y;
    let vz = mz - moment.z;
    let ux = abs_i128(vx);
    let uy = abs_i128(vy);
    let uz = abs_i128(vz);
    proof {
        let lim = 2 * 0x100_0000 * 0x1_0000_0000_0000int;
        assert(ux <= lim && uy <= lim && uz <= lim);
        assert(ux * ux <= lim * lim && uy * uy <= lim * lim && uz * uz <= lim * lim)
            by (nonlinear_arith)
            requires
                0 <= ux <= lim,
                0 <= uy <= lim,
                0 <= uz <= lim,
        ;
        assert((3 * (lim * lim) * 1000 + word()) * 0x1_0000_0000 * 0x10_0000_0000_0000 < big)
            by (nonlinear_arith)
            requires
                lim == 2 * 0x100_0000 * 0x1_0000_0000_0000int,
                big == word() * word(),
                word() == 0x1_0000_0000_0000_0000int * 0x1_0000_0000_0000_0000int,
        ;
        assert(ux * ux + uy * uy + uz * uz <= 3 * (lim * lim));
        assert(ux * ux == vx * vx && uy * uy == vy * vy && uz * uz == vz * vz) by (nonlinear_arith)
            requires
                ux == if vx < 0 { -(vx as int) } else { vx as int },
                uy == if vy < 0 { -(vy as int) } else { vy as int },
                uz == if vz < 0 { -(vz as int) } else { vz as int },
        ;
    }
    let sxy = add_wide(mul_wide(ux, ux), mul_wide(uy, uy));
    let sq = add_wide(sxy, mul_wide(uz, uz));
    let sq1000 = mul_word(sq, 1000);
    let mm = mul_wide(m, m);
    assert(m * m < word()) by (nonlinear_arith)
        requires
            0 <= m <= 0x1_0000_0000_0000,
            word() == 0x1_0000_0000_0000_0000int * 0x1_0000_0000_0000_0000int,
    ;
    let t = add_wide(sq1000, mm);
    assert(num * num <= 0xffff * 0xffff && k * k <= 0x400_0000 * 0x400_0000) by (nonlinear_arith)
        requires
            num <= 0xffff,
            1 <= k <= 0x400_0000,
    ;
    let nn = num * num;
    let kk = k * k;
    assert(t.val() * nn < big / 0x10_0000_0000_0000 && t.val() * nn * kk < big) by (
    nonlinear_arith)
        requires
            0 <= t.val(),
            t.val() * 0x1_0000_0000 * 0x10_0000_0000_0000 < big,
            0 <= nn <= 0xffff * 0xffff,
            0 <= kk <= 0x400_0000 * 0x400_0000,
            big == word() * word(),
            word() == 0x1_0000_0000_0000_0000int * 0x1_0000_0000_0000_0000int,
    ;
    let tn = mul_word(t, nn);
    let rhs = mul_word(tn, kk);
    proof {
        assert(lhs.val() == 1000 * s * s * den * den * m * m) by (nonlinear_arith)
            requires
                lhs.val() == w * w * 1000,
                w == s * den * m,
        ;
        assert(scaled_offset_sq(b.pos, mass, *moment) == vx * vx + vy * vy + vz * vz);
        assert(rhs.val() == num * num * (k * k) * (1000 * scaled_offset_sq(b.pos, mass, *moment)
            + m * m)) by (nonlinear_arith)
            requires
                rhs.val() == tn.val() * kk,
                tn.val() == t.val() * nn,
                nn == num * num,
                kk == k * k,
                t.val() == sq1000.val() + m * m,
                sq1000.val() == sq.val() * 1000,
                sq.val() == vx * vx + vy * vy + vz * vz,
                scaled_offset_sq(b.pos, mass, *moment) == vx * vx + vy * vy + vz * vz,
        ;
    }
    lt_wide(lhs, rhs)
}

impl OcTree {
    /// The sources that act on `b` under opening angle `th`: the Barnes–Hut
    /// traversal. Summing the pull of each source on `b` gives the force on
    /// `b` (before the gravitational constant).
    pub fn sources_for(&self, b: &Body, th: &Theta) -> (r: Vec<Source>)
        requires
            self.wf(),
            self.weight(mass_w()) <= MASS_LIMIT,
            b.pos.bounded(),
            th.wf(),
        ensures
            r@ == sources(*self, *b, *th),
        decreases self,
    {
        match self {
            OcTree::Leaf(l) => {
                let mut v: Vec<Source> = Vec::new();
                if l.body.id != b.id {
                    v.push(Source::Body(l.body));
                }
                proof {
                    if l.body.id != b.id {
                        assert(v@ =~= seq![Source::Body(l.body)]);
                    } else {
                        assert(v@ =~= Seq::<Source>::empty());
                    }
                }
                v
            },
            OcTree::Root(r) => {
                proof {
                    lemma_moment_bound(*self, 0);
                    lemma_moment_bound(*self, 1);
                    lemma_moment_bound(*self, 2);
                    let cs = r.children@;
                    assert forall|j: int| 0 <= j < 8 implies opt_weight(#[trigger] cs[j], mass_w())
                        <= MASS_LIMIT by {
                        assert forall|i: int| 0 <= i < 8 implies opt_weight(
                            #[trigger] cs[i],
                            mass_w(),
                        ) >= 0 by {
                            assert(opt_child_wf(cs[i], r.boundary, region_at(i)));
                            lemma_opt_mass_nonneg(cs[i], r.boundary, region_at(i));
                        }
                        assert(opt_weight(cs[0], mass_w()) >= 0);
                        assert(opt_weight(cs[1], mass_w()) >= 0);
                        assert(opt_weight(cs[2], mass_w()) >= 0);
                        assert(opt_weight(cs[3], mass_w()) >= 0);
                        assert(opt_weight(cs[4], mass_w()) >= 0);
                        assert(opt_weight(cs[5], mass_w()) >= 0);
                        assert(opt_weight(cs[6], mass_w()) >= 0);
                        assert(opt_weight(cs[7], mass_w()) >= 0);
                    }
                }
                if takes_whole_exec(&r.boundary, r.mass, &r.moment, b, th) {
                    let mut v: Vec<Source> = Vec::new();
                    v.push(Source::Cell(Cell { mass: r.mass, moment: r.moment }));
                    proof {
                        assert(v@ =~= seq![Source::Cell(Cell { mass: r.mass, moment: r.moment })]);
                    }
                    return v;
                }
                let ghost cs = r.children@;
                let mut out: Vec<Source> = Vec::new();
                let mut k: usize = 0;
                while k < 8
                    invariant
                        self.wf(),
                        b.pos.bounded(),
                        th.wf(),
                        *self == OcTree::Root(*r),
                        cs == r.children@,
                        cs.len() == 8,
                        forall|j: int| 0 <= j < 8 ==> opt_weight(#[trigger] cs[j], mass_w())
                            <= MASS_LIMIT,
                        k <= 8,
                        out@ == sources_upto(cs, k as int, *b, *th),
                    decreases 8 - k,
                {
                    proof {
                        assert(opt_child_wf(cs[k as int], r.boundary, region_at(k as int)));
                    }
                    match &r.children[k] {
                        None => {
                            proof {
                                assert(sources_upto(cs, k + 1, *b, *th) =~= sources_upto(
                                    cs,
                                    k as int,
                                    *b,
                                    *th,
                                ));
                            }
                        },
                        Some(t) => {
                            let mut part = t.sources_for(b, th);
                            out.append(&mut part);
                        },
                    }
                    k = k + 1;
                }
                proof {
                    reveal_with_fuel(sources_upto, 9);
                    assert(Seq::<Source>::empty() + opt_sources(cs[0], *b, *th) =~= opt_sources(
                        cs[0],
                        *b,
                        *th,
                    ));
                }
                out
            },
        }
    }
}

/// `w` summed over the bodies in a list of sources (cells count nothing).
pub open spec fn source_weight(s: Seq<Source>, w: spec_fn(Body) -> int) -> int
    decreases s.len(),
{
    if s.len() == 0 {
        0
    } else {
        source_weight(s.drop_last(), w) + match s.last() {
            Source::Body(c) => w(c),
            Source::Cell(_) => 0,
        }
    }
}

/// `w` restricted to bodies whose id differs from `id`.
pub open spec fn except_id(w: spec_fn(Body) -> int, id: u32) -> spec_fn(Body) -> int {
    |c: Body| if c.id != id { w(c) } else { 0 }
}

/// No entry is a body with id `id`.
pub open spec fn excludes_id(s: Seq<Source>, id: u32) -> bool {
    forall|k: int| 0 <= k < s.len() && (#[trigger] s[k]) is Body ==> s[k]->Body_0.id != id
}

/// Every entry is a body.
pub open spec fn bodies_only(s: Seq<Source>) -> bool {
    forall|k: int| 0 <= k < s.len() ==> (#[trigger] s[k]) is Body
}

proof fn lemma_source_weight_add(a: Seq<Source>, c: Seq<Source>, w: spec_fn(Body) -> int)
    ensures
        source_weight(a + c, w) == source_weight(a, w) + source_weight(c, w),
    decreases c.len(),
{
    if c.len() == 0 {
        assert(a + c =~= a);
    } else {
        assert((a + c).drop_last() =~= a + c.drop_last());
        lemma_source_weight_add(a, c.drop_last(), w);
    }
}

proof fn lemma_opt_self_exclusion(c: Option<Box<OcTree>>, b: Body, th: Theta)
    ensures
        excludes_id(opt_sources(c, b, th), b.id),
    decreases c,
{
    if let Some(t) = c {
        lemma_self_exclusion(*t, b, th);
    }
}

/// A body never acts on itself: whatever θ is, no source for `b` is a body
/// with `b`'s id, so the leaf holding `b` contributes nothing.
pub proof fn lemma_self_exclusion(t: OcTree, b: Body, th: Theta)
    ensures
        excludes_id(sources(t, b, th), b.id),
    decreases t,
{
    if let OcTree::Root(r) = t {
        if !takes_whole(r.boundary, r.mass, r.moment, b, th) && r.children@.len() == 8 {
            let cs = r.children@;
            lemma_opt_self_exclusion(cs[0], b, th);
            lemma_opt_self_exclusion(cs[1], b, th);
            lemma_opt_self_exclusion(cs[2], b, th);
            lemma_opt_self_exclusion(cs[3], b, th);
            lemma_opt_self_exclusion(cs[4], b, th);
            lemma_opt_self_exclusion(cs[5], b, th);
            lemma_opt_self_exclusion(cs[6], b, th);
            lemma_opt_self_exclusion(cs[7], b, th);
        }
    }
}

proof fn lemma_opt_exact(c: Option<Box<OcTree>>, b: Body, th: Theta)
    requires
        th.num == 0,
    ensures
        bodies_only(opt_sources(c, b, th)),
        forall|w: spec_fn(Body) -> int| #[trigger]
            source_weight(opt_sources(c, b, th), w) == opt_weight_except(c, w, b.id),
    decreases c,
{
    if let Some(t) = c {
        lemma_exact_at_zero_theta(*t, b, th);
    }
}

/// `w` summed over the bodies of an optional subtree whose id is not `id`.
pub open spec fn opt_weight_except(c: Option<Box<OcTree>>, w: spec_fn(Body) -> int, id: u32) -> int {
    opt_weight(c, except_id(w, id))
}

/// With θ = 0 no cell passes the acceptance test, so the sources for `b` are
/// exactly the other bodies of the tree, each once: the result is the direct
/// pairwise sum.
pub proof fn lemma_exact_at_zero_theta(t: OcTree, b: Body, th: Theta)
    requires
        th.num == 0,
    ensures
        bodies_only(sources(t, b, th)),
        forall|w: spec_fn(Body) -> int| #[trigger]
            source_weight(sources(t, b, th), w) == t.weight(except_id(w, b.id)),
    decreases t,
{
    match t {
        OcTree::Leaf(l) => {
            assert forall|w: spec_fn(Body) -> int| #[trigger]
                source_weight(sources(t, b, th), w) == t.weight(except_id(w, b.id)) by {
                assert(source_weight(Seq::<Source>::empty(), w) == 0);
                if l.body.id != b.id {
                    let s = seq![Source::Body(l.body)];
                    assert(s.drop_last() =~= Seq::<Source>::empty());
                    assert(source_weight(s, w) == w(l.body));
                } else {
                    assert(sources(t, b, th) =~= Seq::<Source>::empty());
                }
            }
        },
        OcTree::Root(r) => {
            assert(!accepts(
                r.boundary.size as int,
                r.boundary.scale as int,
                b.pos,
                r.mass,
                r.moment,
                th,
            )) by {
                assert(th.num * th.num == 0);
                let sz = r.boundary.size as int;
                let m = r.mass as int;
                let d = th.den as int;
                assert(1000 * sz * sz * d * d * m * m >= 0) by (nonlinear_arith);
            }
            if r.children@.len() == 8 {
                let cs = r.children@;
                lemma_opt_exact(cs[0], b, th);
                lemma_opt_exact(cs[1], b, th);
                lemma_opt_exact(cs[2], b, th);
                lemma_opt_exact(cs[3], b, th);
                lemma_opt_exact(cs[4], b, th);
                lemma_opt_exact(cs[5], b, th);
                lemma_opt_exact(cs[6], b, th);
                lemma_opt_exact(cs[7], b, th);
                let s0 = opt_sources(cs[0], b, th);
                let s1 = opt_sources(cs[1], b, th);
                let s2 = opt_sources(cs[2], b, th);
                let s3 = opt_sources(cs[3], b, th);
                let s4 = opt_sources(cs[4], b, th);
                let s5 = opt_sources(cs[5], b, th);
                let s6 = opt_sources(cs[6], b, th);
                let s7 = opt_sources(cs[7], b, th);
                assert forall|w: spec_fn(Body) -> int| #[trigger]
                    source_weight(sources(t, b, th), w) == t.weight(except_id(w, b.id)) by {
                    lemma_source_weight_add(s0, s1, w);
                    lemma_source_weight_add(s0 + s1, s2, w);
                    lemma_source_weight_add(s0 + s1 + s2, s3, w);
                    lemma_source_weight_add(s0 + s1 + s2 + s3, s4, w);
                    lemma_source_weight_add(s0 + s1 + s2 + s3 + s4, s5, w);
                    lemma_source_weight_add(s0 + s1 + s2 + s3 + s4 + s5, s6, w);
                    lemma_source_weight_add(s0 + s1 + s2 + s3 + s4 + s5 + s6, s7, w);
                    assert(source_weight(s0, w) == opt_weight_except(cs[0], w, b.id));
                    assert(source_weight(s1, w) == opt_weight_except(cs[1], w, b.id));
                    assert(source_weight(s2, w) == opt_weight_except(cs[2], w, b.id));
                    assert(source_weight(s3, w) == opt_weight_except(cs[3], w, b.id));
                    assert(source_weight(s4, w) == opt_weight_except(cs[4], w, b.id));
                    assert(source_weight(s5, w) == opt_weight_except(cs[5], w, b.id));
                    assert(source_weight(s6, w) == opt_weight_except(cs[6], w, b.id));
                    assert(source_weight(s7, w) == opt_weight_except(cs[7], w, b.id));
                }
            }
        },
    }
}

/// Quantity `k` of a body: its mass for `k == 0`, else its mass times
/// coordinate `k - 1`.
pub open spec fn quantity(k: int) -> spec_fn(Body) -> int {
    if k == 0 {
        mass_w()
    } else {
        moment_w(k - 1)
    }
}

/// Quantity `k` of a cell: its mass for `k == 0`, else its moment along axis
/// `k - 1`.
pub open spec fn cell_quantity(c: Cell, k: int) -> int {
    if k == 0 {
        c.mass as int
    } else if k == 1 {
        c.moment.x as int
    } else if k == 2 {
        c.moment.y as int
    } else {
        c.moment.z as int
    }
}

/// Quantity `k` summed over a list of sources, bodies and cells alike.
pub open spec fn source_total(s: Seq<Source>, k: int) -> int
    decreases s.len(),
{
    if s.len() == 0 {
        0
    } else {
        source_total(s.drop_last(), k) + match s.last() {
            Source::Body(c) => quantity(k)(c),
            Source::Cell(c) => cell_quantity(c, k),
        }
    }
}

/// Quantity `k` of the leaves that the traversal for `b` reaches and skips
/// because they hold `b`'s id.
pub open spec fn self_share(t: OcTree, b: Body, th: Theta, k: int) -> int
    decreases t,
{
    match t {
        OcTree::Leaf(l) => if l.body.id == b.id {
            quantity(k)(l.body)
        } else {
            0
        },
        OcTree::Root(r) => if takes_whole(r.boundary, r.mass, r.moment, b, th) {
            0
        } else if r.children@.len() == 8 {
            opt_self_share(r.children@[0], b, th, k) + opt_self_share(r.children@[1], b, th, k)
                + opt_self_share(r.children@[2], b, th, k) + opt_self_share(
                r.children@[3],
                b,
                th,
                k,
            ) + opt_self_share(r.children@[4], b, th, k) + opt_self_share(
                r.children@[5],
                b,
                th,
                k,
            ) + opt_self_share(r.children@[6], b, th, k) + opt_self_share(
                r.children@[7],
                b,
                th,
                k,
            )
        } else {
            0
        },
    }
}

pub open spec fn opt_self_share(c: Option<Box<OcTree>>, b: Body, th: Theta, k: int) -> int
    decreases c,
{
    match c {
        Some(t) => self_share(*t, b, th, k),
        None => 0,
    }
}

proof fn lemma_source_total_add(a: Seq<Source>, c: Seq<Source>, k: int)
    ensures
        source_total(a + c, k) == source_total(a, k) + source_total(c, k),
    decreases c.len(),
{
    if c.len() == 0 {
        assert(a + c =~= a);
    } else {
        assert((a + c).drop_last() =~= a + c.drop_last());
        lemma_source_total_add(a, c.drop_last(), k);
    }
}

proof fn lemma_opt_accounting(c: Option<Box<OcTree>>, parent: Cube, i: int, b: Body, th: Theta, k: int)
    requires
        opt_child_wf(c, parent, region_at(i)),
        0 <= k < 4,
    ensures
        source_total(opt_sources(c, b, th), k) + opt_self_share(c, b, th, k) == opt_weight(
            c,
            quantity(k),
        ),
    decreases c,
{
    if let Some(t) = c {
        lemma_accounting(*t, b, th, k);
    }
}

/// Whatever θ is, the traversal for `b` accounts for every body of the tree
/// exactly once: the mass (and each moment) of the sources, plus that of the
/// leaves skipped for holding `b`'s id, is the tree's total.
pub proof fn lemma_accounting(t: OcTree, b: Body, th: Theta, k: int)
    requires
        t.wf(),
        0 <= k < 4,
    ensures
        source_total(sources(t, b, th), k) + self_share(t, b, th, k) == t.weight(quantity(k)),
    decreases t,
{
    assert(source_total(Seq::<Source>::empty(), k) == 0);
    match t {
        OcTree::Leaf(l) => {
            if l.body.id != b.id {
                let s = seq![Source::Body(l.body)];
                assert(s.drop_last() =~= Seq::<Source>::empty());
            } else {
                assert(sources(t, b, th) =~= Seq::<Source>::empty());
            }
        },
        OcTree::Root(r) => {
            if takes_whole(r.boundary, r.mass, r.moment, b, th) {
                let s = seq![Source::Cell(Cell { mass: r.mass, moment: r.moment })];
                assert(s.drop_last() =~= Seq::<Source>::empty());
            } else {
                let cs = r.children@;
                lemma_opt_accounting(cs[0], r.boundary, 0, b, th, k);
                lemma_opt_accounting(cs[1], r.boundary, 1, b, th, k);
                lemma_opt_accounting(cs[2], r.boundary, 2, b, th, k);
                lemma_opt_accounting(cs[3], r.boundary, 3, b, th, k);
                lemma_opt_accounting(cs[4], r.boundary, 4, b, th, k);
                lemma_opt_accounting(cs[5], r.boundary, 5, b, th, k);
                lemma_opt_accounting(cs[6], r.boundary, 6, b, th, k);
                lemma_opt_accounting(cs[7], r.boundary, 7, b, th, k);
                let s0 = opt_sources(cs[0], b, th);
                let s1 = opt_sources(cs[1], b, th);
                let s2 = opt_sources(cs[2], b, th);
                let s3 = opt_sources(cs[3], b, th);
                let s4 = opt_sources(cs[4], b, th);
                let s5 = opt_sources(cs[5], b, th);
                let s6 = opt_sources(cs[6], b, th);
                let s7 = opt_sources(cs[7], b, th);
                lemma_source_total_add(s0, s1, k);
                lemma_source_total_add(s0 + s1, s2, k);
                lemma_source_total_add(s0 + s1 + s2, s3, k);
                lemma_source_total_add(s0 + s1 + s2 + s3, s4, k);
                lemma_source_total_add(s0 + s1 + s2 + s3 + s4, s5, k);
                lemma_source_total_add(s0 + s1 + s2 + s3 + s4 + s5, s6, k);
                lemma_source_total_add(s0 + s1 + s2 + s3 + s4 + s5 + s6, s7, k);
            }
        },
    }
}

} // verus!
