use vstd::prelude::*;

verus! {

/// `orbit` is a prefix of the orbit of `z0` under `step`: each point but the
/// last was tested and found inside the disk, and its successor is `step` of it.
pub open spec fn is_orbit<S, E: Fn(S) -> bool, F: Fn(S) -> S>(
    z0: S,
    escaped: E,
    step: F,
    orbit: Seq<S>,
) -> bool {
    &&& orbit.len() >= 1
    &&& orbit[0] == z0
    &&& forall|i: int|
        0 <= i < orbit.len() - 1 ==> #[trigger] escaped.ensures((orbit[i],), false)
            && step.ensures((orbit[i],), orbit[i + 1])
}

/// The escape-time value that an orbit prefix yields under a cap of `n`
/// iterations: the index of its last point when that point escaped, and
/// `n - 1` when the orbit ran `n` steps without escaping.
pub open spec fn escape_value<S, E: Fn(S) -> bool>(escaped: E, orbit: Seq<S>, n: int, r: int) -> bool {
    let m = orbit.len() - 1;
    ||| (m < n && escaped.ensures((orbit[m],), true) && r == m)
    ||| (m == n && r == n - 1)
}

/// `r` is what the escape-time iteration from `z0` returns under a cap of `n`.
pub open spec fn escape_outcome<S, E: Fn(S) -> bool, F: Fn(S) -> S>(
    z0: S,
    escaped: E,
    step: F,
    n: int,
    r: int,
) -> bool {
    exists|orbit: Seq<S>| is_orbit(z0, escaped, step, orbit) && escape_value(escaped, orbit, n, r)
}

/// Runs the escape-time iteration: starting from `z0`, tests whether the point
/// has left the disk and, while it has not, replaces it by `step` of it, at most
/// `max_iterations` times. Returns the number of steps completed before the
/// point escaped, or `max_iterations - 1` when it never did.
pub fn escape_count<S: Copy, E: Fn(S) -> bool, F: Fn(S) -> S>(
    z0: S,
    escaped: E,
    step: F,
    max_iterations: u32,
) -> (r: u32)
    requires
        max_iterations > 0,
        forall|z: S| escaped.requires((z,)),
        forall|z: S| step.requires((z,)),
    ensures
        r < max_iterations,
        escape_outcome(z0, escaped, step, max_iterations as int, r as int),
{
    let mut z = z0;
    let mut k: u32 = 0;
    let ghost mut orbit: Seq<S> = seq![z0];
    while k < max_iterations
        invariant
            forall|z: S| escaped.requires((z,)),
            forall|z: S| step.requires((z,)),
            k <= max_iterations,
            orbit.len() == k + 1,
            orbit[k as int] == z,
            is_orbit(z0, escaped, step, orbit),
        decreases max_iterations - k,
    {
        if escaped(z) {
            assert(escape_value(escaped, orbit, max_iterations as int, k as int));
            return k;
        }
        let next = step(z);
        proof {
            let old_orbit = orbit;
            orbit = orbit.push(next);
            assert forall|i: int| 0 <= i < orbit.len() - 1 implies #[trigger] escaped.ensures(
                (orbit[i],),
                false,
            ) && step.ensures((orbit[i],), orbit[i + 1]) by {
                if i < old_orbit.len() - 1 {
                    assert(orbit[i] == old_orbit[i]);
                    assert(orbit[i + 1] == old_orbit[i + 1]);
                }
            }
        }
        z = next;
        k = k + 1;
    }
    assert(escape_value(escaped, orbit, max_iterations as int, (max_iterations - 1) as int));
    max_iterations - 1
}

/// Each of `escaped` and `step` gives at most one result for each point.
pub open spec fn deterministic<S, E: Fn(S) -> bool, F: Fn(S) -> S>(escaped: E, step: F) -> bool {
    &&& forall|z: S, a: bool, b: bool|
        #[trigger] escaped.ensures((z,), a) && #[trigger] escaped.ensures((z,), b) ==> a == b
    &&& forall|z: S, a: S, b: S|
        #[trigger] step.ensures((z,), a) && #[trigger] step.ensures((z,), b) ==> a == b
}

proof fn lemma_orbits_agree<S, E: Fn(S) -> bool, F: Fn(S) -> S>(
    z0: S,
    escaped: E,
    step: F,
    o1: Seq<S>,
    o2: Seq<S>,
    i: int,
)
    requires
        deterministic(escaped, step),
        is_orbit(z0, escaped, step, o1),
        is_orbit(z0, escaped, step, o2),
        0 <= i < o1.len(),
        i < o2.len(),
    ensures
        o1[i] == o2[i],
    decreases i,
{
    if i > 0 {
        lemma_orbits_agree(z0, escaped, step, o1, o2, i - 1);
        assert(escaped.ensures((o1[i - 1],), false));
        assert(step.ensures((o1[i - 1],), o1[i]));
        assert(step.ensures((o2[i - 1],), o2[i]));
    }
}

/// The escape-time value depends on its inputs alone: where testing a point
/// and stepping it are deterministic, two evaluations from the same point
/// under the same cap return the same count.
pub proof fn lemma_escape_count_deterministic<S, E: Fn(S) -> bool, F: Fn(S) -> S>(
    z0: S,
    escaped: E,
    step: F,
    n: int,
    r1: int,
    r2: int,
)
    requires
        deterministic(escaped, step),
        escape_outcome(z0, escaped, step, n, r1),
        escape_outcome(z0, escaped, step, n, r2),
    ensures
        r1 == r2,
{
    let o1 = choose|o: Seq<S>| is_orbit(z0, escaped, step, o) && escape_value(escaped, o, n, r1);
    let o2 = choose|o: Seq<S>| is_orbit(z0, escaped, step, o) && escape_value(escaped, o, n, r2);
    let m1 = o1.len() - 1;
    let m2 = o2.len() - 1;
    if m1 < m2 {
        lemma_orbits_agree(z0, escaped, step, o1, o2, m1);
        assert(escaped.ensures((o2[m1],), false));
    } else if m2 < m1 {
        lemma_orbits_agree(z0, escaped, step, o1, o2, m2);
        assert(escaped.ensures((o1[m2],), false));
    }
}

} // verus!
