//! Direct-summation gravitational integrator with symplectic-Euler
//! time-stepping.
//!
//! The integrator strips a particle set into raw rational arrays in base
//! units, advances them by pairwise force summation, and re-attaches units
//! on demand. One step computes every velocity increment from the pre-step
//! positions, applies them all, and only then moves the positions with the
//! updated velocities. Velocity and position increments are rounded down
//! onto the fixed `1 / QUANT` grid, and each pairwise distance is the floor
//! square root of the exact squared distance; both roundings are stated
//! exactly in the step relation below.

use vstd::prelude::*;
use crate::rational::{
    Rat, rat_wf, pv, padd, psub, pmul, pdiv, rat_has, peq, SQRT_SCALE, QUANT,
    lemma_rat_has_trans, lemma_pmul_peq, lemma_padd_peq, lemma_pdiv_peq, lemma_peq_trans,
    lemma_sqrt_bounds_transfer, lemma_quant_transfer, lemma_padd_psub_restore,
    lemma_padd_assoc, lemma_padd_move, lemma_psub_peq, lemma_psub_padd_nest,
};
use crate::vector::{Vector3, v3_wf, lemma_dot_self_nonneg};
use crate::quantity::{SI, Units, unit_dim, unit_val, ScalarQuantity, sq_wf};
use crate::particles::{
    Particle, ParticleSet, ps_wf, psep_dot, is_sep_of, lemma_diff_dot_exact,
};

verus! {

/// `k` is the value of the fraction pair `p` rounded down onto the grid of
/// multiples of `1 / q`.
pub open spec fn quant_of(k: Rat, p: (int, int), q: int) -> bool {
    &&& k.den == q
    &&& k.num * p.1 <= p.0 * q
    &&& p.0 * q < (k.num + 1) * p.1
}

/// Component `c` of a vector (`0` is `x`, `1` is `y`, anything else `z`).
pub open spec fn vcomp(v: Vector3, c: int) -> Rat {
    if c == 0 {
        v.x
    } else if c == 1 {
        v.y
    } else {
        v.z
    }
}

/// Exact value of component `c` of the acceleration that particle `j`
/// exerts on particle `i`: `G * m_j * (r_j - r_i)_c / (|r_j - r_i|^2 * d)`,
/// where `d` stands for the (floor-rounded) distance.
pub open spec fn pacc_term(
    ps: Seq<Vector3>,
    ms: Seq<Rat>,
    i: int,
    j: int,
    d: Rat,
    c: int,
) -> (int, int) {
    pdiv(
        pmul(
            pmul(unit_val(Units::G), pv(ms[j])),
            psub(pv(vcomp(ps[j], c)), pv(vcomp(ps[i], c))),
        ),
        pmul(psep_dot(ps[j], ps[i]), pv(d)),
    )
}

/// Exact value of component `c` of the acceleration of particle `i`
/// summed over the first `k` source particles, skipping `i` itself.
pub open spec fn pacc_fold(
    ps: Seq<Vector3>,
    ms: Seq<Rat>,
    i: int,
    ds: Seq<Rat>,
    k: nat,
    c: int,
) -> (int, int)
    decreases k,
{
    if k == 0 {
        (0int, 1int)
    } else {
        let j = (k - 1) as int;
        if j == i {
            pacc_fold(ps, ms, i, ds, (k - 1) as nat, c)
        } else {
            padd(pacc_fold(ps, ms, i, ds, (k - 1) as nat, c), pacc_term(ps, ms, i, j, ds[j], c))
        }
    }
}

/// `ds` is a valid table of distances from every other particle to
/// particle `i`: each entry is the positive floor square root of the exact
/// squared separation.
pub open spec fn acc_seps_ok(ps: Seq<Vector3>, i: int, ds: Seq<Rat>) -> bool {
    &&& ds.len() == ps.len()
    &&& forall|j: int| 0 <= j < ds.len() && j != i
        ==> is_sep_of(#[trigger] ds[j], ps[j], ps[i]) && ds[j].num > 0
}

/// Witness for one velocity update: a distance table `ds` and an
/// acceleration `a` under which `nv` is the old velocity of particle `i`
/// plus the grid-rounded increment `a * dt`.
pub open spec fn vel_witness(
    ps: Seq<Vector3>,
    vs: Seq<Vector3>,
    ms: Seq<Rat>,
    dt: Rat,
    i: int,
    ds: Seq<Rat>,
    a: Vector3,
    dv: Vector3,
    nv: Vector3,
) -> bool {
    &&& acc_seps_ok(ps, i, ds)
    &&& v3_wf(a)
    &&& rat_has(a.x, pacc_fold(ps, ms, i, ds, ps.len(), 0))
    &&& rat_has(a.y, pacc_fold(ps, ms, i, ds, ps.len(), 1))
    &&& rat_has(a.z, pacc_fold(ps, ms, i, ds, ps.len(), 2))
    &&& quant_of(dv.x, pmul(pv(a.x), pv(dt)), QUANT as int)
    &&& quant_of(dv.y, pmul(pv(a.y), pv(dt)), QUANT as int)
    &&& quant_of(dv.z, pmul(pv(a.z), pv(dt)), QUANT as int)
    &&& rat_has(nv.x, padd(pv(vs[i].x), pv(dv.x)))
    &&& rat_has(nv.y, padd(pv(vs[i].y), pv(dv.y)))
    &&& rat_has(nv.z, padd(pv(vs[i].z), pv(dv.z)))
}

/// The velocity of particle `i` was updated as the step relation demands,
/// for some distance table and acceleration.
pub open spec fn vel_update_ok(
    ps: Seq<Vector3>,
    vs: Seq<Vector3>,
    ms: Seq<Rat>,
    dt: Rat,
    i: int,
    nv: Vector3,
) -> bool {
    exists|ds: Seq<Rat>, a: Vector3, dv: Vector3| vel_witness(ps, vs, ms, dt, i, ds, a, dv, nv)
}

/// Witness for one position update: `np` is the old position of particle
/// `i` plus the grid-rounded increment `v_new * dt`.
pub open spec fn pos_witness(
    nvs: Seq<Vector3>,
    ps: Seq<Vector3>,
    dt: Rat,
    i: int,
    dr: Vector3,
    np: Vector3,
) -> bool {
    &&& quant_of(dr.x, pmul(pv(nvs[i].x), pv(dt)), QUANT as int)
    &&& quant_of(dr.y, pmul(pv(nvs[i].y), pv(dt)), QUANT as int)
    &&& quant_of(dr.z, pmul(pv(nvs[i].z), pv(dt)), QUANT as int)
    &&& rat_has(np.x, padd(pv(ps[i].x), pv(dr.x)))
    &&& rat_has(np.y, padd(pv(ps[i].y), pv(dr.y)))
    &&& rat_has(np.z, padd(pv(ps[i].z), pv(dr.z)))
}

/// The position of particle `i` was updated from the new velocities as
/// the step relation demands.
pub open spec fn pos_update_ok(
    nvs: Seq<Vector3>,
    ps: Seq<Vector3>,
    dt: Rat,
    i: int,
    np: Vector3,
) -> bool {
    exists|dr: Vector3| pos_witness(nvs, ps, dt, i, dr, np)
}

/// One symplectic-Euler step of size `dt`: every velocity is advanced by
/// its force sum over the pre-step positions, then every position by the
/// just-updated velocity.
pub open spec fn step_rel(
    ps: Seq<Vector3>,
    vs: Seq<Vector3>,
    ms: Seq<Rat>,
    dt: Rat,
    np: Seq<Vector3>,
    nv: Seq<Vector3>,
) -> bool {
    &&& np.len() == ps.len()
    &&& nv.len() == ps.len()
    &&& forall|i: int| 0 <= i < ps.len()
        ==> vel_update_ok(ps, vs, ms, dt, i, #[trigger] nv[i])
    &&& forall|i: int| 0 <= i < ps.len()
        ==> pos_update_ok(nv, ps, dt, i, #[trigger] np[i])
}

/// Exact value of the sum of a sequence of rationals.
pub open spec fn psum_rats(dts: Seq<Rat>) -> (int, int)
    decreases dts.len(),
{
    if dts.len() == 0 {
        (0int, 1int)
    } else {
        padd(psum_rats(dts.drop_last()), pv(dts.last()))
    }
}

/// The state `(np, nv)` arises from `(ps, vs)` by one step of the step
/// relation for each entry of `dts`, in order.
pub open spec fn steps_rel_seq(
    ps: Seq<Vector3>,
    vs: Seq<Vector3>,
    ms: Seq<Rat>,
    dts: Seq<Rat>,
    np: Seq<Vector3>,
    nv: Seq<Vector3>,
) -> bool
    decreases dts.len(),
{
    if dts.len() == 0 {
        np == ps && nv == vs
    } else {
        exists|mp: Seq<Vector3>, mv: Seq<Vector3>|
            steps_rel_seq(ps, vs, ms, dts.drop_last(), mp, mv)
                && step_rel(mp, mv, ms, dts.last(), np, nv)
    }
}

/// Witness for one `evolve` call: a chain of steps, all of the fixed
/// timestep but the final partial one, whose step sizes add up exactly to
/// the requested duration. The final step is strictly smaller than the
/// fixed step, and nonnegative whenever at least one full step was taken,
/// which pins the number of full steps to the floor of the remaining
/// duration over the timestep.
pub open spec fn evolve_witness(
    nb: SimpleNBody,
    target: Rat,
    dts: Seq<Rat>,
    np: Seq<Vector3>,
    nv: Seq<Vector3>,
) -> bool {
    &&& dts.len() >= 1
    &&& forall|q: int| 0 <= q < dts.len() ==> rat_wf(#[trigger] dts[q])
    &&& forall|q: int| 0 <= q < dts.len() - 1 ==> #[trigger] dts[q] == nb.timestep
    &&& pv(dts.last()).0 * nb.timestep.den < nb.timestep.num * pv(dts.last()).1
    &&& dts.len() >= 2 ==> dts.last().num >= 0
    &&& steps_rel_seq(nb.positions@, nb.velocities@, nb.masses@, dts, np, nv)
    &&& peq(psum_rats(dts), psub(pv(target), pv(nb.model_time)))
}

/// Envelope under which [`SimpleNBody::evolve`] is guaranteed to
/// succeed: no particles to move, a positive integer timestep, and
/// integer model and target times, all of magnitude at most `0x100000`.
pub open spec fn evolve_env(nb: SimpleNBody, target: Rat) -> bool {
    &&& nb.positions@.len() == 0
    &&& nb.timestep.den == 1 && 0 < nb.timestep.num <= 0x100000
    &&& nb.model_time.den == 1
    &&& vstd::math::abs(nb.model_time.num as int) <= 0x100000
    &&& target.den == 1 && vstd::math::abs(target.num as int) <= 0x100000
}

/// Raw state arrays of equal length holding well-formed values.
pub open spec fn arrays_wf(ps: Seq<Vector3>, vs: Seq<Vector3>, ms: Seq<Rat>) -> bool {
    &&& vs.len() == ps.len()
    &&& ms.len() == ps.len()
    &&& forall|i: int| 0 <= i < ps.len() ==> v3_wf(#[trigger] ps[i])
    &&& forall|i: int| 0 <= i < vs.len() ==> v3_wf(#[trigger] vs[i])
    &&& forall|i: int| 0 <= i < ms.len() ==> rat_wf(#[trigger] ms[i]) && ms[i].num >= 0
}

/// Integrator that uses direct summation and symplectic-Euler stepping.
pub struct SimpleNBody {
    pub positions: Vec<Vector3>,
    pub velocities: Vec<Vector3>,
    pub masses: Vec<Rat>,
    pub g: Rat,
    pub timestep: Rat,
    pub model_time: Rat,
}

/// The integrator's invariant: consistent array lengths, well-formed
/// values, nonnegative masses, the exact gravitational constant, and a
/// positive timestep.
pub open spec fn nb_wf(nb: SimpleNBody) -> bool {
    &&& arrays_wf(nb.positions@, nb.velocities@, nb.masses@)
    &&& rat_wf(nb.g) && pv(nb.g) == unit_val(Units::G)
    &&& rat_wf(nb.timestep)
    &&& rat_wf(nb.model_time)
}

/// The reconstructed particle set carries exactly the integrator's state
/// values, in base units.
pub open spec fn state_matches(nb: SimpleNBody, s: Seq<Particle>) -> bool {
    &&& s.len() == nb.positions@.len()
    &&& forall|i: int| 0 <= i < s.len() ==> {
        &&& peq(pv((#[trigger] s[i]).position.value.x), pv(nb.positions@[i].x))
        &&& peq(pv(s[i].position.value.y), pv(nb.positions@[i].y))
        &&& peq(pv(s[i].position.value.z), pv(nb.positions@[i].z))
        &&& peq(pv(s[i].velocity.value.x), pv(nb.velocities@[i].x))
        &&& peq(pv(s[i].velocity.value.y), pv(nb.velocities@[i].y))
        &&& peq(pv(s[i].velocity.value.z), pv(nb.velocities@[i].z))
        &&& peq(pv(s[i].mass.value), pv(nb.masses@[i]))
    }
}

/// Prefixes of equal distance tables give equal acceleration folds.
proof fn lemma_pacc_fold_prefix(
    ps: Seq<Vector3>,
    ms: Seq<Rat>,
    i: int,
    ds1: Seq<Rat>,
    ds2: Seq<Rat>,
    k: nat,
    c: int,
)
    requires
        forall|q: int| 0 <= q < k ==> ds1[q] == ds2[q],
    ensures
        pacc_fold(ps, ms, i, ds1, k, c) == pacc_fold(ps, ms, i, ds2, k, c),
    decreases k,
{
    if k > 0 {
        lemma_pacc_fold_prefix(ps, ms, i, ds1, ds2, (k - 1) as nat, c);
    }
}

/// One accumulation step of the acceleration sum: chains the exact values
/// of the computed intermediates into the fold extended by the term for
/// source particle `j`.
#[verifier::spinoff_prover]
proof fn lemma_acc_term_chain(
    gq: Rat,
    mj: Rat,
    diffc: Rat,
    dd: Rat,
    m: Rat,
    denom: Rat,
    t1: Rat,
    t2: Rat,
    ac: Rat,
    acc: Rat,
    acc2: Rat,
    f: (int, int),
    ps: Seq<Vector3>,
    ms: Seq<Rat>,
    i: int,
    j: int,
    c: int,
)
    requires
        rat_wf(gq),
        rat_wf(diffc),
        rat_wf(dd),
        rat_wf(m),
        rat_wf(denom),
        rat_wf(t1),
        rat_wf(t2),
        rat_wf(ac),
        rat_wf(acc),
        rat_wf(acc2),
        pv(gq) == unit_val(Units::G),
        0 <= j < ms.len(),
        0 <= i < ps.len(),
        0 <= j < ps.len(),
        v3_wf(ps[i]),
        v3_wf(ps[j]),
        rat_wf(ms[j]),
        mj == ms[j],
        peq(pv(diffc), psub(pv(vcomp(ps[j], c)), pv(vcomp(ps[i], c)))),
        rat_has(dd, psep_dot(ps[j], ps[i])),
        psep_dot(ps[j], ps[i]).1 > 0,
        dd.num > 0,
        m.num > 0,
        rat_has(denom, pmul(pv(dd), pv(m))),
        rat_has(t1, pmul(pv(gq), pv(mj))),
        rat_has(t2, pmul(pv(t1), pv(diffc))),
        rat_has(ac, pdiv(pv(t2), pv(denom))),
        rat_has(acc, f),
        f.1 > 0,
        rat_has(acc2, padd(pv(acc), pv(ac))),
    ensures
        rat_has(acc2, padd(f, pacc_term(ps, ms, i, j, m, c))),
        padd(f, pacc_term(ps, ms, i, j, m, c)).1 > 0,
{
    let uv = unit_val(Units::G);
    let sd = psep_dot(ps[j], ps[i]);
    let na = pmul(pmul(uv, pv(mj)), psub(pv(vcomp(ps[j], c)), pv(vcomp(ps[i], c))));
    let db = pmul(sd, pv(m));
    // t2 holds the numerator
    lemma_pmul_peq(pv(t1), pmul(uv, pv(mj)), pv(diffc),
        psub(pv(vcomp(ps[j], c)), pv(vcomp(ps[i], c))));
    assert(pmul(pv(t1), pv(diffc)).1 != 0) by (nonlinear_arith)
        requires pmul(pv(t1), pv(diffc)).1 == t1.den * diffc.den && t1.den > 0 && diffc.den > 0;
    lemma_rat_has_trans(t2, pmul(pv(t1), pv(diffc)), na);
    // denom holds the denominator
    lemma_pmul_peq(pv(dd), sd, pv(m), pv(m));
    assert(pmul(pv(dd), pv(m)).1 != 0) by (nonlinear_arith)
        requires pmul(pv(dd), pv(m)).1 == dd.den * m.den && dd.den > 0 && m.den > 0;
    lemma_rat_has_trans(denom, pmul(pv(dd), pv(m)), db);
    // the exact dot and the denominator value are positive
    assert(sd.0 > 0) by (nonlinear_arith)
        requires
            dd.num * sd.1 == sd.0 * dd.den,
            dd.num > 0,
            sd.1 > 0,
            dd.den > 0,
    ;
    assert(db.0 > 0) by (nonlinear_arith)
        requires db.0 == sd.0 * m.num && sd.0 > 0 && m.num > 0;
    assert(denom.num > 0) by (nonlinear_arith)
        requires
            denom.num * db.1 == db.0 * denom.den,
            db.1 == sd.1 * m.den,
            sd.1 > 0,
            m.den > 0,
            db.0 > 0,
            denom.den > 0,
    ;
    // ac holds the pair term
    lemma_pdiv_peq(pv(t2), na, pv(denom), db);
    assert(pdiv(pv(t2), pv(denom)).1 != 0) by (nonlinear_arith)
        requires
            pdiv(pv(t2), pv(denom)).1 == t2.den * denom.num,
            t2.den > 0,
            denom.num > 0,
    ;
    lemma_rat_has_trans(ac, pdiv(pv(t2), pv(denom)), pacc_term(ps, ms, i, j, m, c));
    // acc2 holds the extended fold
    lemma_padd_peq(pv(acc), f, pv(ac), pacc_term(ps, ms, i, j, m, c));
    assert(padd(pv(acc), pv(ac)).1 != 0) by (nonlinear_arith)
        requires padd(pv(acc), pv(ac)).1 == acc.den * ac.den && acc.den > 0 && ac.den > 0;
    lemma_rat_has_trans(acc2, padd(pv(acc), pv(ac)), padd(f, pacc_term(ps, ms, i, j, m, c)));
    // the extended fold keeps a positive denominator
    let t = pacc_term(ps, ms, i, j, m, c);
    assert(t.1 > 0) by (nonlinear_arith)
        requires
            t == pdiv(na, db),
            db.0 > 0,
            na.1 == (uv.1 * mj.den) * (vcomp(ps[j], c).den as int * vcomp(ps[i], c).den as int),
            uv.1 > 0,
            mj.den > 0,
            vcomp(ps[j], c).den > 0,
            vcomp(ps[i], c).den > 0,
    ;
    assert(padd(f, t).1 > 0) by (nonlinear_arith)
        requires padd(f, t).1 == f.1 * t.1 && f.1 > 0 && t.1 > 0;
}

/// A copy of a vector of vectors.
fn dup_vec3(v: &Vec<Vector3>) -> (r: Vec<Vector3>)
    ensures
        r@ == v@,
{
    let mut r: Vec<Vector3> = Vec::new();
    let mut i: usize = 0;
    while i < v.len()
        invariant
            i <= v@.len(),
            r@ == v@.take(i as int),
        decreases v@.len() - i,
    {
        r.push(v[i]);
        proof {
            assert(v@.take(i + 1) =~= v@.take(i as int).push(v@[i as int]));
        }
        i = i + 1;
    }
    proof {
        assert(v@.take(v@.len() as int) =~= v@);
    }
    r
}

/// One integration step over raw arrays: velocity increments from the
/// pre-step positions, then position increments from the new velocities.
/// Fails when a pair's exact squared distance or rounded distance is zero,
/// and on `i128` overflow; the state arrays are never mutated.
fn step(
    positions: &Vec<Vector3>,
    velocities: &Vec<Vector3>,
    masses: &Vec<Rat>,
    g: Rat,
    dt: Rat,
) -> (r: Result<(Vec<Vector3>, Vec<Vector3>), &'static str>)
    requires
        arrays_wf(positions@, velocities@, masses@),
        rat_wf(g),
        pv(g) == unit_val(Units::G),
        rat_wf(dt),
    ensures
        r is Ok ==> arrays_wf(r->Ok_0.0@, r->Ok_0.1@, masses@)
            && step_rel(positions@, velocities@, masses@, dt, r->Ok_0.0@, r->Ok_0.1@),
        positions@.len() == 0 ==> r is Ok,
{
    let ghost ps = positions@;
    let ghost vs = velocities@;
    let ghost msq = masses@;
    let n = positions.len();
    let mut new_vel: Vec<Vector3> = Vec::new();
    let mut i: usize = 0;
    while i < n
        invariant
            arrays_wf(ps, vs, msq),
            ps == positions@,
            vs == velocities@,
            msq == masses@,
            n == ps.len(),
            rat_wf(g),
            pv(g) == unit_val(Units::G),
            rat_wf(dt),
            i <= n,
            new_vel@.len() == i,
            forall|q: int| 0 <= q < i ==> v3_wf(#[trigger] new_vel@[q]),
            forall|q: int| 0 <= q < i
                ==> vel_update_ok(ps, vs, msq, dt, q, #[trigger] new_vel@[q]),
        decreases n - i,
    {
        let mut ax = Rat::zero();
        let mut ay = Rat::zero();
        let mut az = Rat::zero();
        let ghost mut ds: Seq<Rat> = Seq::empty();
        let mut j: usize = 0;
        while j < n
            invariant
                arrays_wf(ps, vs, msq),
                ps == positions@,
                vs == velocities@,
                msq == masses@,
                n == ps.len(),
                rat_wf(g),
                pv(g) == unit_val(Units::G),
                i < n,
                j <= n,
                ds.len() == j,
                forall|q: int| 0 <= q < j && q != i
                    ==> is_sep_of(#[trigger] ds[q], ps[q], ps[i as int]) && ds[q].num > 0,
                rat_wf(ax) && rat_wf(ay) && rat_wf(az),
                rat_has(ax, pacc_fold(ps, msq, i as int, ds, j as nat, 0)),
                rat_has(ay, pacc_fold(ps, msq, i as int, ds, j as nat, 1)),
                rat_has(az, pacc_fold(ps, msq, i as int, ds, j as nat, 2)),
                pacc_fold(ps, msq, i as int, ds, j as nat, 0).1 > 0,
                pacc_fold(ps, msq, i as int, ds, j as nat, 1).1 > 0,
                pacc_fold(ps, msq, i as int, ds, j as nat, 2).1 > 0,
            decreases n - j,
        {
            let ghost ds_old = ds;
            if i == j {
                proof {
                    ds = ds.push(Rat { num: 0, den: 1 });
                    lemma_pacc_fold_prefix(ps, msq, i as int, ds_old, ds, j as nat, 0);
                    lemma_pacc_fold_prefix(ps, msq, i as int, ds_old, ds, j as nat, 1);
                    lemma_pacc_fold_prefix(ps, msq, i as int, ds_old, ds, j as nat, 2);
                }
            } else {
                let pj = positions[j];
                let pi = positions[i];
                let diffv = match pj.sub(pi) {
                    Some(w) => w,
                    None => { return Err("numeric overflow"); },
                };
                let dd = match diffv.dot(&diffv) {
                    Some(w) => w,
                    None => { return Err("numeric overflow"); },
                };
                proof {
                    lemma_dot_self_nonneg(dd, diffv);
                    lemma_diff_dot_exact(pj, pi, diffv, dd);
                }
                if dd.num == 0 {
                    return Err("division by zero");
                }
                let m = match dd.sqrt_floor() {
                    Some(w) => w,
                    None => { return Err("numeric overflow"); },
                };
                proof {
                    lemma_sqrt_bounds_transfer(m, dd, psep_dot(pj, pi), SQRT_SCALE as int);
                    assert(is_sep_of(m, pj, pi));
                }
                if m.num == 0 {
                    return Err("division by zero");
                }
                let denom = match dd.mul(m) {
                    Some(w) => w,
                    None => { return Err("numeric overflow"); },
                };
                let t1 = match g.mul(masses[j]) {
                    Some(w) => w,
                    None => { return Err("numeric overflow"); },
                };
                let t2x = match t1.mul(diffv.x) {
                    Some(w) => w,
                    None => { return Err("numeric overflow"); },
                };
                let acx = match t2x.div(denom) {
                    Some(w) => w,
                    None => { return Err("numeric overflow"); },
                };
                let ax2 = match ax.add(acx) {
                    Some(w) => w,
                    None => { return Err("numeric overflow"); },
                };
                let t2y = match t1.mul(diffv.y) {
                    Some(w) => w,
                    None => { return Err("numeric overflow"); },
                };
                let acy = match t2y.div(denom) {
                    Some(w) => w,
                    None => { return Err("numeric overflow"); },
                };
                let ay2 = match ay.add(acy) {
                    Some(w) => w,
                    None => { return Err("numeric overflow"); },
                };
                let t2z = match t1.mul(diffv.z) {
                    Some(w) => w,
                    None => { return Err("numeric overflow"); },
                };
                let acz = match t2z.div(denom) {
                    Some(w) => w,
                    None => { return Err("numeric overflow"); },
                };
                let az2 = match az.add(acz) {
                    Some(w) => w,
                    None => { return Err("numeric overflow"); },
                };
                proof {
                    ds = ds.push(m);
                    lemma_pacc_fold_prefix(ps, msq, i as int, ds_old, ds, j as nat, 0);
                    lemma_pacc_fold_prefix(ps, msq, i as int, ds_old, ds, j as nat, 1);
                    lemma_pacc_fold_prefix(ps, msq, i as int, ds_old, ds, j as nat, 2);
                    lemma_acc_term_chain(g, masses@[j as int], diffv.x, dd, m, denom, t1, t2x,
                        acx, ax, ax2, pacc_fold(ps, msq, i as int, ds, j as nat, 0), ps, msq,
                        i as int, j as int, 0);
                    lemma_acc_term_chain(g, masses@[j as int], diffv.y, dd, m, denom, t1, t2y,
                        acy, ay, ay2, pacc_fold(ps, msq, i as int, ds, j as nat, 1), ps, msq,
                        i as int, j as int, 1);
                    lemma_acc_term_chain(g, masses@[j as int], diffv.z, dd, m, denom, t1, t2z,
                        acz, az, az2, pacc_fold(ps, msq, i as int, ds, j as nat, 2), ps, msq,
                        i as int, j as int, 2);
                }
                ax = ax2;
                ay = ay2;
                az = az2;
            }
            j = j + 1;
        }
        // increments on the quantization grid, applied to the velocity
        let tx = match ax.mul(dt) {
            Some(w) => w,
            None => { return Err("numeric overflow"); },
        };
        let dvx = match tx.quantize_floor(QUANT) {
            Some(w) => w,
            None => { return Err("numeric overflow"); },
        };
        let ty = match ay.mul(dt) {
            Some(w) => w,
            None => { return Err("numeric overflow"); },
        };
        let dvy = match ty.quantize_floor(QUANT) {
            Some(w) => w,
            None => { return Err("numeric overflow"); },
        };
        let tz = match az.mul(dt) {
            Some(w) => w,
            None => { return Err("numeric overflow"); },
        };
        let dvz = match tz.quantize_floor(QUANT) {
            Some(w) => w,
            None => { return Err("numeric overflow"); },
        };
        let nvx = match velocities[i].x.add(dvx) {
            Some(w) => w,
            None => { return Err("numeric overflow"); },
        };
        let nvy = match velocities[i].y.add(dvy) {
            Some(w) => w,
            None => { return Err("numeric overflow"); },
        };
        let nvz = match velocities[i].z.add(dvz) {
            Some(w) => w,
            None => { return Err("numeric overflow"); },
        };
        let nv = Vector3 { x: nvx, y: nvy, z: nvz };
        proof {
            let av = Vector3 { x: ax, y: ay, z: az };
            let dvv = Vector3 { x: dvx, y: dvy, z: dvz };
            assert(pmul(pv(ax), pv(dt)).1 > 0) by (nonlinear_arith)
                requires pmul(pv(ax), pv(dt)).1 == ax.den * dt.den && ax.den > 0 && dt.den > 0;
            assert(pmul(pv(ay), pv(dt)).1 > 0) by (nonlinear_arith)
                requires pmul(pv(ay), pv(dt)).1 == ay.den * dt.den && ay.den > 0 && dt.den > 0;
            assert(pmul(pv(az), pv(dt)).1 > 0) by (nonlinear_arith)
                requires pmul(pv(az), pv(dt)).1 == az.den * dt.den && az.den > 0 && dt.den > 0;
            lemma_quant_transfer(dvx.num as int, tx, pmul(pv(ax), pv(dt)), QUANT as int);
            lemma_quant_transfer(dvy.num as int, ty, pmul(pv(ay), pv(dt)), QUANT as int);
            lemma_quant_transfer(dvz.num as int, tz, pmul(pv(az), pv(dt)), QUANT as int);
            assert(vel_witness(ps, vs, msq, dt, i as int, ds, av, dvv, nv));
            assert(vel_update_ok(ps, vs, msq, dt, i as int, nv));
        }
        new_vel.push(nv);
        i = i + 1;
    }
    let ghost nvs = new_vel@;
    let mut new_pos: Vec<Vector3> = Vec::new();
    let mut i2: usize = 0;
    while i2 < n
        invariant
            arrays_wf(ps, vs, msq),
            ps == positions@,
            n == ps.len(),
            rat_wf(dt),
            nvs == new_vel@,
            new_vel@.len() == n,
            forall|q: int| 0 <= q < n ==> v3_wf(#[trigger] new_vel@[q]),
            i2 <= n,
            new_pos@.len() == i2,
            forall|q: int| 0 <= q < i2 ==> v3_wf(#[trigger] new_pos@[q]),
            forall|q: int| 0 <= q < i2
                ==> pos_update_ok(nvs, ps, dt, q, #[trigger] new_pos@[q]),
        decreases n - i2,
    {
        let v = new_vel[i2];
        let ux = match v.x.mul(dt) {
            Some(w) => w,
            None => { return Err("numeric overflow"); },
        };
        let drx = match ux.quantize_floor(QUANT) {
            Some(w) => w,
            None => { return Err("numeric overflow"); },
        };
        let uy = match v.y.mul(dt) {
            Some(w) => w,
            None => { return Err("numeric overflow"); },
        };
        let dry = match uy.quantize_floor(QUANT) {
            Some(w) => w,
            None => { return Err("numeric overflow"); },
        };
        let uz = match v.z.mul(dt) {
            Some(w) => w,
            None => { return Err("numeric overflow"); },
        };
        let drz = match uz.quantize_floor(QUANT) {
            Some(w) => w,
            None => { return Err("numeric overflow"); },
        };
        let npx = match positions[i2].x.add(drx) {
            Some(w) => w,
            None => { return Err("numeric overflow"); },
        };
        let npy = match positions[i2].y.add(dry) {
            Some(w) => w,
            None => { return Err("numeric overflow"); },
        };
        let npz = match positions[i2].z.add(drz) {
            Some(w) => w,
            None => { return Err("numeric overflow"); },
        };
        let np = Vector3 { x: npx, y: npy, z: npz };
        proof {
            let drv = Vector3 { x: drx, y: dry, z: drz };
            assert(pmul(pv(v.x), pv(dt)).1 > 0) by (nonlinear_arith)
                requires pmul(pv(v.x), pv(dt)).1 == v.x.den * dt.den && v.x.den > 0
                    && dt.den > 0;
            assert(pmul(pv(v.y), pv(dt)).1 > 0) by (nonlinear_arith)
                requires pmul(pv(v.y), pv(dt)).1 == v.y.den * dt.den && v.y.den > 0
                    && dt.den > 0;
            assert(pmul(pv(v.z), pv(dt)).1 > 0) by (nonlinear_arith)
                requires pmul(pv(v.z), pv(dt)).1 == v.z.den * dt.den && v.z.den > 0
                    && dt.den > 0;
            lemma_quant_transfer(drx.num as int, ux, pmul(pv(v.x), pv(dt)), QUANT as int);
            lemma_quant_transfer(dry.num as int, uy, pmul(pv(v.y), pv(dt)), QUANT as int);
            lemma_quant_transfer(drz.num as int, uz, pmul(pv(v.z), pv(dt)), QUANT as int);
            assert(pos_witness(nvs, ps, dt, i2 as int, drv, np));
            assert(pos_update_ok(nvs, ps, dt, i2 as int, np));
        }
        new_pos.push(np);
        i2 = i2 + 1;
    }
    Ok((new_pos, new_vel))
}

impl SimpleNBody {
    /// Initialize the integrator from a particle set: positions,
    /// velocities and masses are stripped into raw arrays in base units
    /// (meter, meter per second, kilogram), the model time starts at zero
    /// and the timestep at one second.
    pub fn new(particle_set: &ParticleSet) -> (r: Result<SimpleNBody, &'static str>)
        requires
            ps_wf(*particle_set),
        ensures
            r is Ok,
            r is Ok ==> nb_wf(r->Ok_0),
            r is Ok ==> r->Ok_0.positions@.len() == particle_set.particles@.len(),
            r is Ok ==> state_matches(r->Ok_0, particle_set.particles@),
            r is Ok ==> pv(r->Ok_0.timestep) == (1int, 1int)
                && pv(r->Ok_0.model_time) == (0int, 1int),
    {
        let ghost s = particle_set.particles@;
        let n = particle_set.particles.len();
        let mut positions: Vec<Vector3> = Vec::new();
        let mut velocities: Vec<Vector3> = Vec::new();
        let mut masses: Vec<Rat> = Vec::new();
        let mut i: usize = 0;
        while i < n
            invariant
                ps_wf(*particle_set),
                s == particle_set.particles@,
                n == s.len(),
                i <= n,
                positions@.len() == i,
                velocities@.len() == i,
                masses@.len() == i,
                forall|q: int| 0 <= q < i ==> v3_wf(#[trigger] positions@[q])
                    && peq(pv(positions@[q].x), pv(s[q].position.value.x))
                    && peq(pv(positions@[q].y), pv(s[q].position.value.y))
                    && peq(pv(positions@[q].z), pv(s[q].position.value.z)),
                forall|q: int| 0 <= q < i ==> v3_wf(#[trigger] velocities@[q])
                    && peq(pv(velocities@[q].x), pv(s[q].velocity.value.x))
                    && peq(pv(velocities@[q].y), pv(s[q].velocity.value.y))
                    && peq(pv(velocities@[q].z), pv(s[q].velocity.value.z)),
                forall|q: int| 0 <= q < i ==> rat_wf(#[trigger] masses@[q])
                    && masses@[q].num >= 0 && peq(pv(masses@[q]), pv(s[q].mass.value)),
            decreases n - i,
        {
            let p = particle_set.particles[i];
            let posv = match p.position.value_in(Units::m) {
                Ok(v) => v,
                Err(_) => {
                    proof {
                        assert(false);
                    }
                    return Err("incorrect particle set");
                },
            };
            let velv = match p.velocity.value_in(Units::ms) {
                Ok(v) => v,
                Err(_) => {
                    proof {
                        assert(false);
                    }
                    return Err("incorrect particle set");
                },
            };
            let massv = match p.mass.value_in(Units::kg) {
                Ok(v) => v,
                Err(_) => {
                    proof {
                        assert(false);
                    }
                    return Err("incorrect particle set");
                },
            };
            proof {
                assert(massv.num >= 0) by (nonlinear_arith)
                    requires
                        massv.num * (p.mass.value.den * 1) == (p.mass.value.num * 1) * massv.den,
                        p.mass.value.num >= 0,
                        p.mass.value.den > 0,
                        massv.den > 0,
                ;
            }
            positions.push(posv);
            velocities.push(velv);
            masses.push(massv);
            i = i + 1;
        }
        Ok(SimpleNBody {
            positions,
            velocities,
            masses,
            g: Units::G.convert().value,
            timestep: Rat::one(),
            model_time: Rat::zero(),
        })
    }

    /// Set the fixed timestep. Fails when and only when `dt` is not
    /// time-dimensioned, and then leaves the integrator unchanged. A zero
    /// or negative step is accepted here; [`SimpleNBody::evolve`] refuses
    /// to run with one, since stepping forward would never finish.
    pub fn set_timestep(&mut self, dt: ScalarQuantity) -> (r: Result<(), &'static str>)
        requires
            sq_wf(dt),
        ensures
            r is Ok <==> dt.units == unit_dim(Units::s),
            r is Err ==> *final(self) == *old(self),
            r is Ok ==> rat_wf(final(self).timestep)
                && peq(pv(final(self).timestep), pv(dt.value))
                && (dt.value.num > 0 ==> final(self).timestep.num > 0)
                && (dt.value.num <= 0 ==> final(self).timestep.num <= 0)
                && final(self).positions == old(self).positions
                && final(self).velocities == old(self).velocities
                && final(self).masses == old(self).masses
                && final(self).g == old(self).g
                && final(self).model_time == old(self).model_time,
    {
        if !dt.is_compatible(&Units::s.convert()) {
            return Err("dt has incompatible units");
        }
        let v = match dt.value_in(Units::s) {
            Ok(v) => v,
            Err(_) => {
                proof {
                    assert(false);
                }
                return Err("dt has incompatible units");
            },
        };
        proof {
            assert((dt.value.num > 0 ==> v.num > 0) && (dt.value.num <= 0 ==> v.num <= 0))
                by (nonlinear_arith)
                requires
                    v.num * (dt.value.den * 1) == (dt.value.num * 1) * v.den,
                    dt.value.den > 0,
                    v.den > 0,
            ;
        }
        self.timestep = v;
        Ok(())
    }

    /// The current fixed timestep, as a time-dimensioned quantity.
    pub fn get_timestep(&self) -> (r: ScalarQuantity)
        ensures
            r.units == unit_dim(Units::s),
            r.value == self.timestep,
    {
        ScalarQuantity { value: self.timestep, units: SI::new(0, 1, 0) }
    }

    /// Advance the state to exactly `time`: whole timesteps while more
    /// than one step remains, then one final partial step equal to the
    /// exact remainder, so the model time lands precisely on the target.
    /// Fails when `time` is not time-dimensioned, when the fixed timestep
    /// is not positive (stepping forward would never finish), on a
    /// coincident pair, and on `i128` overflow; on failure the state is
    /// unchanged.
    #[verifier::spinoff_prover]
    #[verifier::rlimit(100)]
    pub fn evolve(&mut self, time: &ScalarQuantity) -> (r: Result<(), &'static str>)
        requires
            nb_wf(*old(self)),
            sq_wf(*time),
        ensures
            time.units != unit_dim(Units::s) ==> r is Err,
            time.units == unit_dim(Units::s) && old(self).timestep.num <= 0 ==> r is Err,
            r is Err ==> *final(self) == *old(self),
            r is Ok ==> old(self).timestep.num > 0,
            r is Ok ==> nb_wf(*final(self))
                && peq(pv(final(self).model_time), pv(time.value))
                && final(self).positions@.len() == old(self).positions@.len()
                && final(self).masses == old(self).masses
                && final(self).g == old(self).g
                && final(self).timestep == old(self).timestep,
            r is Ok ==> exists|dts: Seq<Rat>| evolve_witness(*old(self), time.value, dts,
                final(self).positions@, final(self).velocities@),
            time.units == unit_dim(Units::s) && evolve_env(*old(self), time.value)
                ==> r is Ok,
    {
        if !time.is_compatible(&Units::s.convert()) {
            return Err("time has wrong units");
        }
        if self.timestep.num <= 0 {
            // a zero or negative fixed step can never finish stepping
            // forward; the original contract demands the whole duration
            return Err("timestep must be positive");
        }
        proof {
            assert(pv(time.value).0 * 1 == pv(time.value).0
                && pv(time.value).1 * 1 == pv(time.value).1) by (nonlinear_arith);
            assert(crate::rational::div_fits(pv(time.value), unit_val(Units::s)));
        }
        let target = match time.value_in(Units::s) {
            Ok(v) => v,
            Err(_) => {
                proof {
                    assert(false);
                }
                return Err("time has wrong units");
            },
        };
        let ghost env: bool = evolve_env(*old(self), time.value);
        proof {
            if env {
                assert(target.den == 1 && vstd::math::abs(target.num as int) <= 0x100000)
                    by (nonlinear_arith)
                    requires
                        target.den as int <= vstd::math::abs(time.value.den as int
                            * unit_val(Units::s).0),
                        vstd::math::abs(target.num as int)
                            <= vstd::math::abs(time.value.num as int * unit_val(Units::s).1),
                        unit_val(Units::s) == (1int, 1int),
                        time.value.den == 1,
                        vstd::math::abs(time.value.num as int) <= 0x100000,
                        target.den > 0,
                ;
                crate::rational::lemma_int_fits(target, self.model_time, 0x100000, 0x100000);
            }
        }
        let rem = match target.sub(self.model_time) {
            Some(v) => v,
            None => {
                proof {
                    if env {
                        assert(false);
                    }
                }
                return Err("numeric overflow");
            },
        };
        proof {
            if env {
                assert(rem.den == 1 && vstd::math::abs(rem.num as int) <= 0x200000)
                    by (nonlinear_arith)
                    requires
                        rem.den as int <= target.den as int * self.model_time.den as int,
                        vstd::math::abs(rem.num as int)
                            <= vstd::math::abs(target.num as int) * self.model_time.den
                                + vstd::math::abs(self.model_time.num as int) * target.den,
                        target.den == 1 && self.model_time.den == 1,
                        vstd::math::abs(target.num as int) <= 0x100000,
                        vstd::math::abs(self.model_time.num as int) <= 0x100000,
                        rem.den > 0,
                ;
            }
        }
        let mut nfull: u128 = 0;
        if rem.num > 0 {
            proof {
                if env {
                    crate::rational::lemma_mul_in_rng(rem.num as int,
                        self.timestep.den as int, 0x200000, 1);
                    crate::rational::lemma_mul_in_rng(rem.den as int,
                        self.timestep.num as int, 1, 0x100000);
                }
            }
            let a = match rem.num.checked_mul(self.timestep.den) {
                Some(v) => v,
                None => {
                    proof {
                        if env {
                            assert(false);
                        }
                    }
                    return Err("numeric overflow");
                },
            };
            let b = match rem.den.checked_mul(self.timestep.num) {
                Some(v) => v,
                None => {
                    proof {
                        if env {
                            assert(false);
                        }
                    }
                    return Err("numeric overflow");
                },
            };
            proof {
                assert(a > 0) by (nonlinear_arith)
                    requires a == rem.num * self.timestep.den && rem.num > 0
                        && self.timestep.den > 0;
                assert(b > 0) by (nonlinear_arith)
                    requires b == rem.den * self.timestep.num && rem.den > 0
                        && self.timestep.num > 0;
            }
            nfull = (a as u128) / (b as u128);
            proof {
                vstd::arithmetic::div_mod::lemma_fundamental_div_mod(a as int, b as int);
                vstd::arithmetic::div_mod::lemma_mod_bound(a as int, b as int);
                // the remainder of the division, over names that outlive
                // this block
                assert(0 <= rem.num as int * self.timestep.den as int
                    - (nfull as int) * (rem.den as int * self.timestep.num as int)
                    && rem.num as int * self.timestep.den as int
                        - (nfull as int) * (rem.den as int * self.timestep.num as int)
                        < rem.den as int * self.timestep.num as int) by (nonlinear_arith)
                    requires
                        a as int == b as int * (nfull as int) + a as int % b as int,
                        0 <= a as int % b as int && (a as int % b as int) < b as int,
                        a as int == rem.num as int * self.timestep.den as int,
                        b as int == rem.den as int * self.timestep.num as int,
                ;
                if env {
                    vstd::arithmetic::div_mod::lemma_fundamental_div_mod(a as int, b as int);
                    vstd::arithmetic::div_mod::lemma_mod_bound(a as int, b as int);
                    assert(nfull as int * self.timestep.num as int
                        <= vstd::math::abs(rem.num as int)) by (nonlinear_arith)
                        requires
                            a as int == b as int * (nfull as int) + a as int % b as int,
                            0 <= a as int % b as int,
                            a as int == rem.num as int * self.timestep.den as int,
                            b as int == rem.den as int * self.timestep.num as int,
                            self.timestep.den == 1,
                            rem.den == 1,
                            rem.num > 0,
                    ;
                }
            }
        }
        proof {
            if env {
                assert(nfull as int * self.timestep.num as int <= 0x200000)
                    by (nonlinear_arith)
                    requires
                        rem.num <= 0 ==> nfull == 0,
                        rem.num > 0 ==> nfull as int * self.timestep.num as int
                            <= vstd::math::abs(rem.num as int),
                        vstd::math::abs(rem.num as int) <= 0x200000,
                ;
            }
        }
        let dt = self.timestep;
        let mut pos = dup_vec3(&self.positions);
        let mut vel = dup_vec3(&self.velocities);
        let mut t = self.model_time;
        let ghost t0r = self.model_time;
        let ghost p0 = pos@;
        let ghost v0 = vel@;
        let ghost mut dts: Seq<Rat> = Seq::empty();
        proof {
            assert(psum_rats(dts) == (0int, 1int));
            assert(rat_has(t, padd(pv(t0r), psum_rats(dts)))) by (nonlinear_arith)
                requires
                    t == t0r,
                    psum_rats(dts) == (0int, 1int),
                    padd(pv(t0r), (0int, 1int)) == (t0r.num * 1 + 0 * t0r.den, t0r.den * 1),
                    rat_has(t, padd(pv(t0r), psum_rats(dts))) == (t.num * (t0r.den * 1)
                        == (t0r.num * 1 + 0 * t0r.den) * t.den),
            ;
            assert(rat_has(t, padd(pv(t0r), (0int * dt.num, dt.den as int))))
                by (nonlinear_arith)
                requires
                    t == t0r,
                    dt.den > 0,
                    padd(pv(t0r), (0int * dt.num, dt.den as int)) == (t0r.num as int
                        * dt.den + (0 * dt.num) * t0r.den, t0r.den as int * dt.den),
                    rat_has(t, padd(pv(t0r), (0int * dt.num, dt.den as int)))
                        == (t.num * (t0r.den as int * dt.den) == (t0r.num as int * dt.den
                        + (0 * dt.num) * t0r.den) * t.den),
            ;
        }
        let mut si: u128 = 0;
        while si < nfull
            invariant
                arrays_wf(pos@, vel@, self.masses@),
                pos@.len() == old(self).positions@.len(),
                nb_wf(*self),
                self == old(self),
                rat_wf(dt),
                rat_wf(t),
                dt == self.timestep,
                t0r == self.model_time,
                p0 == old(self).positions@,
                v0 == old(self).velocities@,
                si <= nfull,
                dts.len() == si as int,
                forall|q: int| 0 <= q < dts.len() ==> #[trigger] dts[q] == dt,
                steps_rel_seq(p0, v0, self.masses@, dts, pos@, vel@),
                rat_has(t, padd(pv(t0r), psum_rats(dts))),
                rat_has(t, padd(pv(t0r), (si as int * dt.num, dt.den as int))),
                psum_rats(dts).1 > 0,
                env == evolve_env(*old(self), time.value),
                env ==> nfull as int * dt.num as int <= 0x200000,
                env ==> t.den == 1
                    && t.num as int == t0r.num as int + si as int * dt.num as int
                    && 0 <= si as int * dt.num as int <= 0x200000,
            decreases nfull - si,
        {
            proof {
                if env {
                    assert(pos@.len() == 0);
                }
            }
            let stepped = match step(&pos, &vel, &self.masses, self.g, dt) {
                Ok(x) => x,
                Err(e) => {
                    proof {
                        if env {
                            assert(false);
                        }
                    }
                    return Err(e);
                },
            };
            proof {
                if env {
                    assert(vstd::math::abs(t.num as int) <= 0x300000) by (nonlinear_arith)
                        requires
                            t.num as int == t0r.num as int + si as int * dt.num as int,
                            vstd::math::abs(t0r.num as int) <= 0x100000,
                            0 <= si as int * dt.num as int <= 0x200000,
                    ;
                    crate::rational::lemma_int_fits(t, dt, 0x300000, 0x100000);
                }
            }
            let tn = match t.add(dt) {
                Some(v) => v,
                None => {
                    proof {
                        if env {
                            assert(false);
                        }
                    }
                    return Err("numeric overflow");
                },
            };
            proof {
                if env {
                    assert(tn.den == 1) by (nonlinear_arith)
                        requires
                            tn.den as int <= t.den as int * dt.den as int,
                            t.den == 1 && dt.den == 1,
                            tn.den > 0,
                    ;
                    assert(tn.num as int == t.num as int + dt.num as int)
                        by (nonlinear_arith)
                        requires
                            tn.num * (t.den as int * dt.den as int) == (t.num as int
                                * dt.den as int + dt.num as int * t.den as int) * tn.den,
                            t.den == 1 && dt.den == 1 && tn.den == 1,
                    ;
                    assert(tn.num as int == t0r.num as int
                        + (si as int + 1) * dt.num as int
                        && 0 <= (si as int + 1) * dt.num as int <= 0x200000)
                        by (nonlinear_arith)
                        requires
                            tn.num as int == t.num as int + dt.num as int,
                            t.num as int == t0r.num as int + si as int * dt.num as int,
                            si as int + 1 <= nfull as int,
                            nfull as int * dt.num as int <= 0x200000,
                            dt.num > 0,
                            si as int >= 0,
                    ;
                }
            }
            proof {
                let ghost old_dts = dts;
                dts = dts.push(dt);
                assert(dts.drop_last() =~= old_dts);
                assert(steps_rel_seq(p0, v0, self.masses@, dts.drop_last(), pos@, vel@));
                assert(step_rel(pos@, vel@, self.masses@, dts.last(), stepped.0@, stepped.1@));
                assert(steps_rel_seq(p0, v0, self.masses@, dts, stepped.0@, stepped.1@));
                assert(psum_rats(dts) == padd(psum_rats(old_dts), pv(dt)));
                lemma_padd_peq(pv(t), padd(pv(t0r), psum_rats(old_dts)), pv(dt), pv(dt));
                lemma_padd_assoc(pv(t0r), psum_rats(old_dts), pv(dt));
                assert(padd(pv(t), pv(dt)).1 != 0) by (nonlinear_arith)
                    requires padd(pv(t), pv(dt)).1 == t.den * dt.den && t.den > 0
                        && dt.den > 0;
                lemma_rat_has_trans(tn, padd(pv(t), pv(dt)),
                    padd(padd(pv(t0r), psum_rats(old_dts)), pv(dt)));
                assert(padd(padd(pv(t0r), psum_rats(old_dts)), pv(dt)).1 != 0)
                    by (nonlinear_arith)
                    requires padd(padd(pv(t0r), psum_rats(old_dts)), pv(dt)).1
                        == (t0r.den * psum_rats(old_dts).1) * dt.den
                        && t0r.den > 0 && psum_rats(old_dts).1 > 0 && dt.den > 0;
                lemma_rat_has_trans(tn, padd(padd(pv(t0r), psum_rats(old_dts)), pv(dt)),
                    padd(pv(t0r), padd(psum_rats(old_dts), pv(dt))));
                assert(psum_rats(dts).1 > 0) by (nonlinear_arith)
                    requires psum_rats(dts).1 == psum_rats(old_dts).1 * dt.den
                        && psum_rats(old_dts).1 > 0 && dt.den > 0;
                // the counting form of the elapsed time advances by one step
                let xsi: (int, int) = (si as int * dt.num, dt.den as int);
                let xsj: (int, int) = ((si as int + 1) * dt.num, dt.den as int);
                lemma_padd_peq(pv(t), padd(pv(t0r), xsi), pv(dt), pv(dt));
                lemma_padd_assoc(pv(t0r), xsi, pv(dt));
                assert(peq(padd(xsi, pv(dt)), xsj)) by (nonlinear_arith)
                    requires
                        padd(xsi, pv(dt)) == (si as int * dt.num * dt.den
                            + dt.num as int * dt.den, dt.den as int * dt.den),
                        xsj == ((si as int + 1) * dt.num, dt.den as int),
                ;
                lemma_padd_peq(pv(t0r), pv(t0r), padd(xsi, pv(dt)), xsj);
                lemma_rat_has_trans(tn, padd(pv(t), pv(dt)),
                    padd(padd(pv(t0r), xsi), pv(dt)));
                assert(padd(padd(pv(t0r), xsi), pv(dt)).1 != 0) by (nonlinear_arith)
                    requires padd(padd(pv(t0r), xsi), pv(dt)).1
                        == (t0r.den as int * dt.den) * dt.den
                        && t0r.den > 0 && dt.den > 0;
                lemma_rat_has_trans(tn, padd(padd(pv(t0r), xsi), pv(dt)),
                    padd(pv(t0r), padd(xsi, pv(dt))));
                assert(padd(pv(t0r), padd(xsi, pv(dt))).1 != 0) by (nonlinear_arith)
                    requires padd(pv(t0r), padd(xsi, pv(dt))).1
                        == t0r.den as int * (dt.den as int * dt.den)
                        && t0r.den > 0 && dt.den > 0;
                lemma_rat_has_trans(tn, padd(pv(t0r), padd(xsi, pv(dt))),
                    padd(pv(t0r), xsj));
            }
            pos = stepped.0;
            vel = stepped.1;
            t = tn;
            si = si + 1;
        }
        proof {
            if env {
                crate::rational::lemma_int_fits(target, t, 0x100000, 0x300000);
            }
        }
        let last = match target.sub(t) {
            Some(v) => v,
            None => {
                proof {
                    if env {
                        assert(false);
                    }
                }
                return Err("numeric overflow");
            },
        };
        let stepped = match step(&pos, &vel, &self.masses, self.g, last) {
            Ok(x) => x,
            Err(e) => {
                proof {
                    if env {
                        assert(false);
                    }
                }
                return Err(e);
            },
        };
        proof {
            if env {
                assert(last.den == 1 && vstd::math::abs(last.num as int) <= 0x400000)
                    by (nonlinear_arith)
                    requires
                        last.den as int <= target.den as int * t.den as int,
                        vstd::math::abs(last.num as int)
                            <= vstd::math::abs(target.num as int) * t.den
                                + vstd::math::abs(t.num as int) * target.den,
                        target.den == 1 && t.den == 1,
                        vstd::math::abs(target.num as int) <= 0x100000,
                        vstd::math::abs(t.num as int) <= 0x300000,
                        last.den > 0,
                ;
                crate::rational::lemma_int_fits(t, last, 0x300000, 0x400000);
            }
        }
        let t2 = match t.add(last) {
            Some(v) => v,
            None => {
                proof {
                    if env {
                        assert(false);
                    }
                }
                return Err("numeric overflow");
            },
        };
        proof {
            // the final partial step lands exactly on the target time
            lemma_padd_peq(pv(t), pv(t), pv(last), psub(pv(target), pv(t)));
            assert(padd(pv(t), pv(last)).1 != 0) by (nonlinear_arith)
                requires padd(pv(t), pv(last)).1 == t.den * last.den && t.den > 0
                    && last.den > 0;
            lemma_rat_has_trans(t2, padd(pv(t), pv(last)), padd(pv(t), psub(pv(target), pv(t))));
            lemma_padd_psub_restore(pv(t), pv(target));
            assert(padd(pv(t), psub(pv(target), pv(t))).1 != 0) by (nonlinear_arith)
                requires padd(pv(t), psub(pv(target), pv(t))).1
                    == t.den * (target.den * t.den) && t.den > 0 && target.den > 0;
            lemma_rat_has_trans(t2, padd(pv(t), psub(pv(target), pv(t))), pv(target));
            assert(peq(pv(target), pv(time.value))) by (nonlinear_arith)
                requires
                    target.num * (pv(time.value).1 * 1) == (pv(time.value).0 * 1) * target.den,
                    peq(pv(target), pv(time.value)) == (target.num * pv(time.value).1
                        == pv(time.value).0 * target.den),
            ;
            lemma_rat_has_trans(t2, pv(target), pv(time.value));
            // the whole call is witnessed by the chain of steps taken
            let ghost old_dts = dts;
            dts = dts.push(last);
            assert(dts.drop_last() =~= old_dts);
            assert(steps_rel_seq(p0, v0, self.masses@, dts.drop_last(), pos@, vel@));
            assert(step_rel(pos@, vel@, self.masses@, dts.last(), stepped.0@, stepped.1@));
            assert(steps_rel_seq(p0, v0, self.masses@, dts, stepped.0@, stepped.1@));
            assert(psum_rats(dts) == padd(psum_rats(old_dts), pv(last)));
            lemma_padd_peq(pv(t), padd(pv(t0r), psum_rats(old_dts)), pv(last), pv(last));
            lemma_padd_assoc(pv(t0r), psum_rats(old_dts), pv(last));
            assert(padd(pv(t), pv(last)).1 != 0) by (nonlinear_arith)
                requires padd(pv(t), pv(last)).1 == t.den * last.den && t.den > 0
                    && last.den > 0;
            lemma_rat_has_trans(t2, padd(pv(t), pv(last)),
                padd(padd(pv(t0r), psum_rats(old_dts)), pv(last)));
            assert(padd(padd(pv(t0r), psum_rats(old_dts)), pv(last)).1 != 0)
                by (nonlinear_arith)
                requires padd(padd(pv(t0r), psum_rats(old_dts)), pv(last)).1
                    == (t0r.den * psum_rats(old_dts).1) * last.den
                    && t0r.den > 0 && psum_rats(old_dts).1 > 0 && last.den > 0;
            lemma_rat_has_trans(t2, padd(padd(pv(t0r), psum_rats(old_dts)), pv(last)),
                padd(pv(t0r), padd(psum_rats(old_dts), pv(last))));
            // the step sizes add up exactly to the requested duration
            assert(peq(padd(pv(t0r), psum_rats(dts)), pv(t2)));
            assert(pv(t2).1 > 0);
            lemma_peq_trans(padd(pv(t0r), psum_rats(dts)), pv(t2), pv(time.value));
            lemma_padd_move(pv(t0r), psum_rats(dts), pv(time.value));
            // the final entry is the remainder of the duration over the
            // fixed step: nonnegative after a full step and below one step
            let xn: (int, int) = (si as int * dt.num, dt.den as int);
            lemma_psub_peq(pv(target), pv(target), pv(t), padd(pv(t0r), xn));
            assert(psub(pv(target), pv(t)).1 != 0) by (nonlinear_arith)
                requires psub(pv(target), pv(t)).1 == target.den * t.den
                    && target.den > 0 && t.den > 0;
            lemma_rat_has_trans(last, psub(pv(target), pv(t)),
                psub(pv(target), padd(pv(t0r), xn)));
            lemma_psub_padd_nest(pv(target), pv(t0r), xn);
            assert(psub(pv(target), padd(pv(t0r), xn)).1 != 0) by (nonlinear_arith)
                requires psub(pv(target), padd(pv(t0r), xn)).1
                    == target.den * (t0r.den * dt.den)
                    && target.den > 0 && t0r.den > 0 && dt.den > 0;
            lemma_rat_has_trans(last, psub(pv(target), padd(pv(t0r), xn)),
                psub(psub(pv(target), pv(t0r)), xn));
            lemma_psub_peq(psub(pv(target), pv(t0r)), pv(rem), xn, xn);
            assert(psub(psub(pv(target), pv(t0r)), xn).1 != 0) by (nonlinear_arith)
                requires psub(psub(pv(target), pv(t0r)), xn).1
                    == (target.den * t0r.den) * dt.den
                    && target.den > 0 && t0r.den > 0 && dt.den > 0;
            lemma_rat_has_trans(last, psub(psub(pv(target), pv(t0r)), xn),
                psub(pv(rem), xn));
            let lp = psub(pv(rem), xn);
            if rem.num > 0 {
                assert(0 <= lp.0 && lp.0 < rem.den as int * dt.num as int)
                    by (nonlinear_arith)
                    requires
                        lp == (rem.num as int * dt.den - (si as int * dt.num) * rem.den,
                            rem.den as int * dt.den),
                        0 <= rem.num as int * dt.den as int
                            - (si as int) * (rem.den as int * dt.num as int),
                        rem.num as int * dt.den as int
                            - (si as int) * (rem.den as int * dt.num as int)
                            < rem.den as int * dt.num as int,
                ;
                assert(last.num >= 0) by (nonlinear_arith)
                    requires
                        last.num * lp.1 == lp.0 * last.den,
                        lp.0 >= 0,
                        lp.1 == rem.den as int * dt.den,
                        rem.den > 0,
                        dt.den > 0,
                        last.den > 0,
                ;
                assert((last.num * dt.den) * rem.den < (dt.num * last.den) * rem.den)
                    by (nonlinear_arith)
                    requires
                        last.num * lp.1 == lp.0 * last.den,
                        lp.1 == rem.den as int * dt.den,
                        lp.0 < rem.den as int * dt.num as int,
                        last.den > 0,
                        rem.den > 0,
                        dt.den > 0,
                ;
                crate::rational::lemma_mul_cancel_lt(last.num * dt.den,
                    dt.num * last.den, rem.den as int);
            } else {
                assert(si == 0 && lp.0 <= 0) by (nonlinear_arith)
                    requires
                        si == 0,
                        lp == (rem.num as int * dt.den - (si as int * dt.num) * rem.den,
                            rem.den as int * dt.den),
                        rem.num <= 0,
                        dt.den > 0,
                        rem.den > 0,
                ;
                assert(last.num <= 0) by (nonlinear_arith)
                    requires
                        last.num * lp.1 == lp.0 * last.den,
                        lp.0 <= 0,
                        lp.1 == rem.den as int * dt.den,
                        rem.den > 0,
                        dt.den > 0,
                        last.den > 0,
                ;
                assert(last.num * dt.den < dt.num * last.den) by (nonlinear_arith)
                    requires
                        last.num <= 0,
                        dt.den > 0,
                        dt.num > 0,
                        last.den > 0,
                ;
            }
            assert(dts.len() >= 2 ==> dts.last().num >= 0);
            assert(pv(dts.last()).0 * dt.den < dt.num * pv(dts.last()).1);
            assert(evolve_witness(*old(self), time.value, dts, stepped.0@, stepped.1@));
        }
        self.positions = stepped.0;
        self.velocities = stepped.1;
        self.model_time = t2;
        proof {
            assert(evolve_witness(*old(self), time.value, dts, self.positions@,
                self.velocities@));
        }
        Ok(())
    }

    /// A new particle set reconstructed from the current internal arrays
    /// with units re-attached; the integrator is not changed.
    pub fn get_state(&self) -> (r: Result<ParticleSet, &'static str>)
        requires
            nb_wf(*self),
        ensures
            r is Ok,
            r is Ok ==> ps_wf(r->Ok_0) && state_matches(*self, r->Ok_0.particles@),
    {
        let n = self.positions.len();
        let mut result = match ParticleSet::new() {
            Ok(ps) => ps,
            Err(_) => {
                proof {
                    assert(false);
                }
                return Err("state reconstruction failed");
            },
        };
        let mut i: usize = 0;
        while i < n
            invariant
                nb_wf(*self),
                n == self.positions@.len(),
                i <= n,
                result.particles@.len() == i,
                ps_wf(result),
                forall|q: int| 0 <= q < i ==> {
                    &&& peq(pv((#[trigger] result.particles@[q]).position.value.x),
                        pv(self.positions@[q].x))
                    &&& peq(pv(result.particles@[q].position.value.y), pv(self.positions@[q].y))
                    &&& peq(pv(result.particles@[q].position.value.z), pv(self.positions@[q].z))
                    &&& peq(pv(result.particles@[q].velocity.value.x), pv(self.velocities@[q].x))
                    &&& peq(pv(result.particles@[q].velocity.value.y), pv(self.velocities@[q].y))
                    &&& peq(pv(result.particles@[q].velocity.value.z), pv(self.velocities@[q].z))
                    &&& peq(pv(result.particles@[q].mass.value), pv(self.masses@[q]))
                },
            decreases n - i,
        {
            let posq = match Units::m.times_vec(self.positions[i]) {
                Ok(v) => v,
                Err(_) => {
                    proof {
                        assert(false);
                    }
                    return Err("state reconstruction failed");
                },
            };
            let velq = match Units::ms.times_vec(self.velocities[i]) {
                Ok(v) => v,
                Err(_) => {
                    proof {
                        assert(false);
                    }
                    return Err("state reconstruction failed");
                },
            };
            let massq = match Units::kg.times(self.masses[i]) {
                Ok(v) => v,
                Err(_) => {
                    proof {
                        assert(false);
                    }
                    return Err("state reconstruction failed");
                },
            };
            proof {
                assert(massq.value.num >= 0) by (nonlinear_arith)
                    requires
                        massq.value.num * (self.masses@[i as int].den * 1)
                            == (self.masses@[i as int].num * 1) * massq.value.den,
                        self.masses@[i as int].num >= 0,
                        self.masses@[i as int].den > 0,
                        massq.value.den > 0,
                ;
            }
            let p = match Particle::new(posq, velq, massq) {
                Ok(p) => p,
                Err(_) => {
                    proof {
                        assert(false);
                    }
                    return Err("state reconstruction failed");
                },
            };
            result.add_particle(p);
            i = i + 1;
        }
        Ok(result)
    }
}

} // verus!
