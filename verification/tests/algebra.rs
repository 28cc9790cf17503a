use flock_core::field::F128;
use flock_core::multilinear::{build_eq, SplitEq};
use flock_core::rounds::{
    fold_and_compute_round_pair_fused_tail_into, fold_and_compute_round_pair_into, fold_in_place,
    fold_in_place_pair, round_pair_naive, round_pair_split,
};
use flock_core::samples::values;
use flock_core::unreduced::F256Unreduced;
use flock_core::cpu_prefix::CpuPrefix;
use flock_core::resident_prefix::InitialFoldBackend;
use flock_core::sumcheck::{compute_inner, compute_message, SumcheckMessage, SumcheckProver};

fn x_to(n: u32) -> F128 {
    F128 { bits: 1u128 << n }
}

#[test]
fn multiplication_reduces_by_the_field_polynomial() {
    // x^127 * x = x^7 + x^2 + x + 1.
    assert_eq!(x_to(127) * x_to(1), F128::new(0x87, 0));
    assert_eq!(x_to(64) * x_to(64), F128::new(0x87, 0));
    // x^127 * x^127 = x^126 * (x^128) = x^133 + x^128 + x^127 + x^126.
    let high = x_to(5) * F128::new(0x87, 0);
    assert_eq!(x_to(127) * x_to(127), x_to(126) + x_to(127) + F128::new(0x87, 0) + high);
    assert_eq!(x_to(3) * x_to(5), x_to(8));
    // (x + 1)^2 = x^2 + 1.
    assert_eq!(F128::new(3, 0) * F128::new(3, 0), F128::new(5, 0));
}

#[test]
fn field_laws_on_values() {
    let v = values(3);
    let (a, b, c) = (v[0], v[1], v[2]);
    assert_eq!(a + a, F128::zero());
    assert_eq!(a + b, b + a);
    assert_eq!((a + b) + c, a + (b + c));
    assert_eq!(a * b, b * a);
    assert_eq!((a * b) * c, a * (b * c));
    assert_eq!(a * (b + c), a * b + a * c);
    assert_eq!(a * F128::one(), a);
    assert_eq!(a * F128::zero(), F128::zero());
    // The group of units has odd order, so squaring 128 times is the identity.
    let mut power = a;
    for _ in 0..128 {
        power = power * power;
    }
    assert_eq!(power, a);
}

#[test]
fn equality_tables_factor() {
    let point = values(5);
    let table = build_eq(&point);
    assert_eq!(table.len(), 32);
    for x in 0..32usize {
        let mut weight = F128::one();
        for (j, p) in point.iter().enumerate() {
            weight = weight * if (x >> j) & 1 == 1 { *p } else { F128::one() + *p };
        }
        assert_eq!(table[x], weight);
    }
    let split = SplitEq::new(&point);
    for x in 0..32usize {
        let lo = x % split.lo.len();
        assert_eq!(split.lo[lo] * split.hi[x / split.lo.len()], table[x]);
    }
    assert_eq!(build_eq(&[]), vec![F128::one()]);
}

#[test]
fn folding_binds_the_first_variable() {
    let plane = values(16);
    let point: Vec<F128> = values(20)[16..].to_vec();
    let mut folded = plane.clone();
    fold_in_place(&mut folded, point[0]);
    assert_eq!(
        compute_inner(&plane, &build_eq(&point)),
        compute_inner(&folded, &build_eq(&point[1..]))
    );
    for r in &point[1..] {
        fold_in_place(&mut folded, *r);
    }
    assert_eq!(folded, vec![compute_inner(&plane, &build_eq(&point))]);
}

#[test]
fn sumcheck_rounds_reduce_the_target() {
    let f = values(8);
    let b: Vec<F128> = values(16)[8..].to_vec();
    let target = compute_inner(&f, &b);
    let message = compute_message(&f, &b);
    let x = F128::new(12345, 678);
    let (mut prover, first) = SumcheckProver::new(f.clone(), b.clone(), target);
    assert_eq!(first, message);
    let next = prover.fold(x);
    let quadratic = message.u_0 + x * ((target + message.u_2) + x * message.u_2);
    assert_eq!(compute_inner(&prover.f, &prover.combined_basis), quadratic);
    assert_eq!(next, compute_message(&prover.f, &prover.combined_basis));
    assert_eq!(prover.transcript, vec![first, next]);
}

#[test]
fn messages_of_two_entries_are_their_products() {
    let m = compute_message(
        &[F128::new(2, 0), F128::new(3, 0)],
        &[F128::new(4, 0), F128::new(8, 0)],
    );
    // 2 * 4 = x * x^2 and (2 + 3) * (4 + 8) = 1 * 12.
    assert_eq!(
        m,
        SumcheckMessage {
            u_0: F128::new(8, 0),
            u_2: F128::new(12, 0)
        }
    );
}

#[test]
fn gluing_combines_the_targets() {
    let f = values(4);
    let b: Vec<F128> = values(8)[4..].to_vec();
    let extra: Vec<F128> = values(12)[8..].to_vec();
    let beta = F128::new(77, 1);
    let (mut prover, _) = SumcheckProver::new(f.clone(), b.clone(), compute_inner(&f, &b));
    let (message, value) = prover.introduce_new_with_eval(extra.clone());
    assert_eq!(value, compute_inner(&f, &extra));
    assert_eq!(message, compute_message(&f, &extra));
    prover.glue(beta);
    assert_eq!(
        compute_inner(&f, &prover.combined_basis),
        compute_inner(&f, &b) + beta * value
    );
    assert_eq!(prover.t_r, compute_inner(&f, &b) + beta * value);
    assert!(prover.pending_glue.is_none());
}

#[test]
fn round_kernels_agree() {
    let a = values(64);
    let b: Vec<F128> = values(128)[64..].to_vec();
    let point = values(6);
    let direct = round_pair_naive(&a, &b, &point);
    assert_eq!(round_pair_split(&a, &b, &point), direct);
    let rho = F128::new(9, 9);
    let mut fa = a.clone();
    let mut fb = b.clone();
    fold_in_place_pair(&mut fa, &mut fb, rho);
    let expected = round_pair_naive(&fa, &fb, &point[1..]);
    for fused in [false, true] {
        let mut na = vec![F128::one(); 40];
        let mut nb = vec![F128::one(); 40];
        let got = if fused {
            fold_and_compute_round_pair_fused_tail_into(&a, &b, &mut na, &mut nb, rho, &point[1..])
        } else {
            fold_and_compute_round_pair_into(&a, &b, &mut na, &mut nb, rho, &point[1..])
        };
        assert_eq!(got, expected);
        assert_eq!(na[..32], fa[..]);
        assert_eq!(nb[..32], fb[..]);
        // Slots past the folded planes stay as they were.
        assert_eq!(na[32..], vec![F128::one(); 8][..]);
    }
}

#[test]
fn zerocheck_rounds_split_and_reduce_the_sum() {
    let a = values(8);
    let b: Vec<F128> = values(16)[8..].to_vec();
    let point = values(3);
    let claim = |a: &[F128], b: &[F128], p: &[F128]| {
        let eq = build_eq(p);
        (0..a.len()).fold(F128::zero(), |s, i| s + eq[i] * (a[i] * b[i]))
    };
    let mut bare = point.clone();
    bare[0] = F128::one();
    let (g1, ginf) = round_pair_naive(&a, &b, &bare);
    let rest = build_eq(&point[1..]);
    let g0 = (0..4).fold(F128::zero(), |s, p| s + rest[p] * (a[2 * p] * b[2 * p]));
    assert_eq!(
        claim(&a, &b, &point),
        (F128::one() + point[0]) * g0 + point[0] * g1
    );
    let rho = F128::new(5, 6);
    let (mut fa, mut fb) = (a, b);
    fold_in_place_pair(&mut fa, &mut fb, rho);
    assert_eq!(
        claim(&fa, &fb, &point[1..]),
        g0 + rho * ((g0 + g1 + ginf) + rho * ginf)
    );
}

#[test]
fn products_can_be_reduced_late() {
    let top = x_to(127).mul_unreduced(x_to(127));
    assert_eq!(
        top,
        F256Unreduced {
            lo: 0,
            hi: 1 << 126
        }
    );
    assert_eq!(top.reduce(), x_to(127) * x_to(127));
    let small = F128::new(3, 0).mul_unreduced(F128::new(5, 0));
    assert_eq!(small, F256Unreduced { lo: 15, hi: 0 });
    let v = values(6);
    let mut late = F256Unreduced::zero();
    let mut early = F128::zero();
    for p in v.chunks(2) {
        late = late.plus(p[0].mul_unreduced(p[1]));
        early = early + p[0] * p[1];
    }
    assert_eq!(late.reduce(), early);
}

#[test]
fn claims_can_be_followed_through_folds_and_glues() {
    let f = values(16);
    let b: Vec<F128> = values(32)[16..].to_vec();
    let mut claim = compute_inner(&f, &b);
    let (mut prover, mut message) = SumcheckProver::new(f, b, claim);
    for (i, r) in values(3).into_iter().enumerate() {
        // A fold: the claim moves to the value of the round quadratic.
        claim = message.u_0 + r * ((claim + message.u_2) + r * message.u_2);
        message = prover.fold(r);
        // A sample: claim and message combine, and nothing else is sent.
        let table = build_eq(&values(12)[..3 - i]);
        let (intro, value) = prover.introduce_new_with_eval(table);
        let beta = F128::new(i as u64 + 5, 99);
        prover.glue(beta);
        claim = claim + beta * value;
        message = SumcheckMessage {
            u_0: message.u_0 + beta * intro.u_0,
            u_2: message.u_2 + beta * intro.u_2,
        };
        assert_eq!(claim, compute_inner(&prover.f, &prover.combined_basis));
        assert_eq!(message, compute_message(&prover.f, &prover.combined_basis));
    }
}

#[test]
fn providers_answer_for_the_pairs_that_both_planes_have() {
    let mut prefix = CpuPrefix::new();
    prefix.begin(values(8), values(16)).unwrap();
    let got = prefix.advance(F128::one()).unwrap();
    assert_eq!((prefix.a.len(), prefix.b.len()), (4, 8));
    assert_eq!(got, compute_message(&prefix.a, &prefix.b[..4]));
    // Folding at one leaves the odd entries.
    let v = values(8);
    assert_eq!(prefix.a, vec![v[1], v[3], v[5], v[7]]);
}
