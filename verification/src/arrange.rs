use vstd::prelude::*;

verus! {

/// The sum of the first `k` lengths.
pub open spec fn total_upto(mins: Seq<nat>, k: nat) -> nat
    decreases k,
{
    if k == 0 {
        0
    } else {
        total_upto(mins, (k - 1) as nat) + mins[k - 1]
    }
}

/// The space that all the minima ask for together.
pub open spec fn required(mins: Seq<nat>) -> nat {
    total_upto(mins, mins.len())
}

/// What is left of `avail` once every minimum is met; nothing if they cannot be.
pub open spec fn spare(mins: Seq<nat>, avail: nat) -> nat {
    if avail > required(mins) {
        (avail - required(mins)) as nat
    } else {
        0
    }
}

/// How many of the first `k` children get one unit more than the even
/// part of the spare space: the units that an even division into whole
/// units leaves over go to the first children, one each.
pub open spec fn extras(mins: Seq<nat>, avail: nat, k: nat) -> nat {
    let over = spare(mins, avail) % mins.len();
    if k <= over {
        k
    } else {
        over
    }
}

/// Where child `k` starts, and where the last child ends for `k` the
/// number of children.
///
/// With room for every minimum, the children before `k` take their minima
/// and each an even part of the spare space. Without, the start is the
/// `avail / required` part of what the children before `k` ask for, rounded
/// down to a whole unit.
pub open spec fn placed(mins: Seq<nat>, avail: nat, k: nat) -> nat {
    let req = required(mins);
    if mins.len() == 0 {
        0
    } else if avail >= req {
        total_upto(mins, k) + k * (spare(mins, avail) / mins.len()) + extras(mins, avail, k)
    } else {
        (total_upto(mins, k) * avail) / req
    }
}

/// The size given to child `i`: from where it starts to where the next
/// child starts.
pub open spec fn share(mins: Seq<nat>, avail: nat, i: int) -> nat {
    (placed(mins, avail, (i + 1) as nat) - placed(mins, avail, i as nat)) as nat
}

/// The lengths of a vector of units as mathematical values.
pub open spec fn lengths(v: Seq<u32>) -> Seq<nat> {
    Seq::new(v.len(), |i: int| v[i] as nat)
}

/// A prefix sum does not exceed a longer one, and no length exceeds the sum.
pub proof fn lemma_total_monotone(mins: Seq<nat>, j: nat, k: nat)
    requires
        j <= k <= mins.len(),
    ensures
        total_upto(mins, j) <= total_upto(mins, k),
        j < k ==> total_upto(mins, j) + mins[j as int] <= total_upto(mins, k),
    decreases k,
{
    if j < k {
        lemma_total_monotone(mins, j, (k - 1) as nat);
    }
}

/// The quotient of a sum is the sum of the quotients or one more.
proof fn lemma_div_sum(x: nat, y: nat, r: nat)
    requires
        r > 0,
    ensures
        x / r + y / r <= (x + y) / r <= x / r + y / r + 1,
{
    vstd::arithmetic::div_mod::lemma_fundamental_div_mod(x as int, r as int);
    vstd::arithmetic::div_mod::lemma_fundamental_div_mod(y as int, r as int);
    vstd::arithmetic::div_mod::lemma_fundamental_div_mod((x + y) as int, r as int);
    vstd::arithmetic::div_mod::lemma_mod_bound(x as int, r as int);
    vstd::arithmetic::div_mod::lemma_mod_bound(y as int, r as int);
    vstd::arithmetic::div_mod::lemma_mod_bound((x + y) as int, r as int);
    let a = x / r;
    let b = y / r;
    let c = (x + y) / r;
    let ra = x % r;
    let rb = y % r;
    let rc = (x + y) % r;
    assert(a + b <= c <= a + b + 1) by (nonlinear_arith)
        requires
            r > 0,
            x == r * a + ra,
            y == r * b + rb,
            x + y == r * c + rc,
            0 <= ra < r,
            0 <= rb < r,
            0 <= rc < r,
    ;
}

/// A scaled length is whole: `(t * a) / r` is at most `a` for `t <= r`
/// and is exactly `a` for `t == r`.
proof fn lemma_scale(t: nat, a: nat, r: nat)
    requires
        r > 0,
        t <= r,
    ensures
        (t * a) / r <= a,
        t == r ==> (t * a) / r == a,
        t == 0 ==> (t * a) / r == 0,
{
    assert(t * a <= r * a) by (nonlinear_arith)
        requires
            t <= r,
    ;
    vstd::arithmetic::div_mod::lemma_div_is_ordered((t * a) as int, (r * a) as int, r as int);
    assert(r * a == a * r) by (nonlinear_arith);
    vstd::arithmetic::div_mod::lemma_div_by_multiple(a as int, r as int);
    if t == 0 {
        assert(t * a == 0) by (nonlinear_arith)
            requires
                t == 0,
        ;
        assert(0nat / r == 0) by (nonlinear_arith)
            requires
                r > 0,
        ;
    }
}

/// An even division into whole units: `n` even parts and what is left
/// over make up the whole, and less than `n` is left over.
proof fn lemma_even_part(s: nat, n: nat)
    requires
        n > 0,
    ensures
        n * (s / n) + s % n == s,
        s % n < n,
{
    vstd::arithmetic::div_mod::lemma_fundamental_div_mod(s as int, n as int);
    vstd::arithmetic::div_mod::lemma_mod_bound(s as int, n as int);
}

/// The children lie one after the other from 0 to `avail`.
///
/// The first child starts at 0. Each child ends where the next one starts,
/// not before it starts itself. Where there is a child at all, the last
/// one ends at `avail`: all of the length is handed out, no more and no
/// less, whether or not there is room for every minimum.
pub proof fn lemma_placed(mins: Seq<nat>, avail: nat, k: nat)
    requires
        k <= mins.len(),
    ensures
        placed(mins, avail, 0) == 0,
        placed(mins, avail, k) <= avail,
        mins.len() > 0 ==> placed(mins, avail, mins.len()) == avail,
        k < mins.len() ==> placed(mins, avail, k) <= placed(mins, avail, k + 1),
        k < mins.len() ==> placed(mins, avail, k) + share(mins, avail, k as int) == placed(
            mins,
            avail,
            k + 1,
        ),
        k < mins.len() ==> placed(mins, avail, k) + share(mins, avail, k as int) <= avail,
{
    let n = mins.len();
    let req = required(mins);
    if n > 0 {
        lemma_placed_monotone(mins, avail, 0, k);
        lemma_placed_monotone(mins, avail, k, n);
        if k < n {
            lemma_placed_monotone(mins, avail, k, k + 1);
            lemma_placed_monotone(mins, avail, k + 1, n);
        }
        if avail >= req {
            let q = spare(mins, avail) / n;
            lemma_even_part(spare(mins, avail), n);
            assert(0 * q == 0) by (nonlinear_arith);
        } else {
            lemma_scale(0, avail, req);
            lemma_scale(req, avail, req);
            assert(total_upto(mins, 0) == 0);
        }
    }
}

/// A later child starts no earlier.
proof fn lemma_placed_monotone(mins: Seq<nat>, avail: nat, j: nat, k: nat)
    requires
        j <= k <= mins.len(),
        mins.len() > 0,
    ensures
        placed(mins, avail, j) <= placed(mins, avail, k),
{
    let n = mins.len();
    let req = required(mins);
    lemma_total_monotone(mins, j, k);
    if avail >= req {
        let q = spare(mins, avail) / n;
        assert(j * q <= k * q) by (nonlinear_arith)
            requires
                j <= k,
                q >= 0,
        ;
    } else {
        let tj = total_upto(mins, j);
        let tk = total_upto(mins, k);
        assert(tj * avail <= tk * avail) by (nonlinear_arith)
            requires
                tj <= tk,
        ;
        vstd::arithmetic::div_mod::lemma_div_is_ordered(
            (tj * avail) as int,
            (tk * avail) as int,
            req as int,
        );
    }
}

/// With room for every minimum, each child gets its minimum and an even
/// part of the spare space: the whole part of `spare / n`, and one unit
/// more for each of the first `spare % n` children. So each child gets at
/// least its minimum, and together they get exactly `avail`.
pub proof fn lemma_enough_space(mins: Seq<nat>, avail: nat)
    requires
        mins.len() > 0,
        avail >= required(mins),
    ensures
        forall|i: int|
            0 <= i < mins.len() ==> #[trigger] share(mins, avail, i) == mins[i] + spare(mins, avail)
                / mins.len() + if i < spare(mins, avail) % mins.len() {
                1nat
            } else {
                0nat
            },
        forall|i: int| 0 <= i < mins.len() ==> #[trigger] share(mins, avail, i) >= mins[i],
        placed(mins, avail, mins.len()) == avail,
{
    let n = mins.len();
    let q = spare(mins, avail) / n;
    lemma_placed(mins, avail, n);
    assert forall|i: int| 0 <= i < n implies #[trigger] share(mins, avail, i) == mins[i] + q + if i
        < spare(mins, avail) % n {
        1nat
    } else {
        0nat
    } by {
        lemma_placed(mins, avail, i as nat);
        assert((i + 1) * q == i * q + q) by (nonlinear_arith);
    }
}

/// Without room for every minimum, each child gets its minimum scaled by
/// `avail / required`, to the whole unit below or above, nothing is spare,
/// and together the children get exactly `avail`.
pub proof fn lemma_short_space(mins: Seq<nat>, avail: nat)
    requires
        avail < required(mins),
    ensures
        mins.len() > 0,
        spare(mins, avail) == 0,
        forall|i: int|
            0 <= i < mins.len() ==> (mins[i] * avail) / required(mins) <= #[trigger] share(
                mins,
                avail,
                i,
            ) <= (mins[i] * avail) / required(mins) + 1,
        placed(mins, avail, mins.len()) == avail,
{
    let n = mins.len();
    let req = required(mins);
    assert(n > 0) by {
        if n == 0 {
            assert(total_upto(mins, 0) == 0);
        }
    }
    lemma_placed(mins, avail, n);
    assert forall|i: int| 0 <= i < n implies (mins[i] * avail) / req <= #[trigger] share(
        mins,
        avail,
        i,
    ) <= (mins[i] * avail) / req + 1 by {
        let t = total_upto(mins, i as nat);
        let m = mins[i];
        lemma_placed(mins, avail, i as nat);
        assert(total_upto(mins, (i + 1) as nat) == t + m);
        assert((t + m) * avail == t * avail + m * avail) by (nonlinear_arith);
        lemma_div_sum(t * avail, m * avail, req);
    }
}

/// The sum of all the minima.
fn sum_of(mins: &Vec<u32>) -> (req: u128)
    ensures
        req == required(lengths(mins@)),
        req <= mins@.len() * 0xFFFF_FFFF,
{
    let ghost model = lengths(mins@);
    let mut req: u128 = 0;
    let mut i: usize = 0;
    while i < mins.len()
        invariant
            i <= mins.len(),
            model == lengths(mins@),
            req == total_upto(model, i as nat),
            req <= i * 0xFFFF_FFFF,
        decreases mins.len() - i,
    {
        req = req + mins[i] as u128;
        i = i + 1;
    }
    req
}

/// Divides `avail` among children with the given minima, in order.
///
/// With room for every minimum, child `i` gets its minimum and an even
/// part of what is left, the first children one unit more where the even
/// parts leave units over. Without, the children get the `avail /
/// required` part of their minima, each to a whole unit. Either way the
/// sizes add up to `avail` where there is a child at all.
pub fn allocate(mins: &Vec<u32>, avail: u32) -> (sizes: Vec<u32>)
    ensures
        sizes@.len() == mins@.len(),
        forall|i: int|
            0 <= i < mins@.len() ==> sizes@[i] == #[trigger] share(
                lengths(mins@),
                avail as nat,
                i,
            ),
{
    let ghost model = lengths(mins@);
    let n = mins.len();
    let mut sizes: Vec<u32> = Vec::new();
    if n == 0 {
        return sizes;
    }
    let req = sum_of(mins);
    let enough = avail as u128 >= req;
    let left: u32 = if enough {
        (avail as u128 - req) as u32
    } else {
        0
    };
    proof {
        vstd::arithmetic::div_mod::lemma_mod_decreases(left as nat, n as nat);
    }
    let per: u32 = (left as u128 / n as u128) as u32;
    let over: u32 = (left as u128 % n as u128) as u32;
    let mut sum: u128 = 0;
    let mut at: u32 = 0;
    let mut i: usize = 0;
    proof {
        lemma_placed(model, avail as nat, 0);
    }
    while i < n
        invariant
            i <= n,
            n == mins.len(),
            n > 0,
            model == lengths(mins@),
            req == required(model),
            req <= n * 0xFFFF_FFFF,
            enough == (avail >= req),
            left == spare(model, avail as nat),
            per == left as nat / n as nat,
            over == left as nat % n as nat,
            sum == total_upto(model, i as nat),
            at == placed(model, avail as nat, i as nat),
            sizes@.len() == i,
            forall|j: int| 0 <= j < i ==> sizes@[j] == #[trigger] share(model, avail as nat, j),
        decreases n - i,
    {
        let m = mins[i];
        proof {
            lemma_placed(model, avail as nat, i as nat);
            lemma_total_monotone(model, i as nat, n as nat);
            assert(model[i as int] == m);
            assert(total_upto(model, (i + 1) as nat) == sum + m);
        }
        sum = sum + m as u128;
        let next: u32 = if enough {
            let extra: u32 = if (i as u128) < (over as u128) {
                1
            } else {
                0
            };
            proof {
                lemma_enough_space(model, avail as nat);
                assert(share(model, avail as nat, i as int) == m + per + extra);
            }
            at + m + per + extra
        } else {
            proof {
                lemma_total_monotone(model, (i + 1) as nat, n as nat);
                lemma_scale(sum as nat, avail as nat, req as nat);
                assert(sum * avail <= 0xFFFF_FFFF_FFFF_FFFF_FFFF_FFFF * 0xFFFF_FFFF)
                    by (nonlinear_arith)
                    requires
                        sum <= req,
                        req <= n * 0xFFFF_FFFF,
                        n <= 0xFFFF_FFFF_FFFF_FFFF,
                        avail <= 0xFFFF_FFFF,
                ;
            }
            ((sum * avail as u128) / req) as u32
        };
        sizes.push(next - at);
        at = next;
        i = i + 1;
    }
    sizes
}

} // verus!
