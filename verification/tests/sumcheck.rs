use gemini::field::Scalar;
use gemini::sumcheck::prover::{Prover, ProverMsgs, SumcheckMsg};
use gemini::sumcheck::space_prover::{collect_reversed, SpaceProver, WitnessStream};
use gemini::sumcheck::time_prover::{TimeProver, Witness};

fn scalars(values: &[u64]) -> Vec<Scalar> {
    values.iter().map(|v| Scalar::from_u64(*v)).collect()
}

fn reversed(v: &[Scalar]) -> Vec<Scalar> {
    v.iter().rev().cloned().collect()
}

fn ramp(n: usize, step: u64, offset: u64) -> Vec<Scalar> {
    (0..n as u64).map(|i| Scalar::from_u64(step * i * i + offset)).collect()
}

/// The sum of `f[i] * g[i] * twist^i`.
fn twisted_product(f: &[Scalar], g: &[Scalar], twist: &Scalar) -> Scalar {
    let mut sum = Scalar::zero();
    for i in 0..f.len().min(g.len()) {
        sum = sum.add(&f[i].mul(&g[i]).mul(&twist.pow(i as u64)));
    }
    sum
}

/// The sum of `f[i] * g[i] * twist^i` over the odd `i`.
fn odd_product(f: &[Scalar], g: &[Scalar], twist: &Scalar) -> Scalar {
    let mut sum = Scalar::zero();
    for i in (1..f.len().min(g.len())).step_by(2) {
        sum = sum.add(&f[i].mul(&g[i]).mul(&twist.pow(i as u64)));
    }
    sum
}

fn run<P: Prover>(prover: &mut P, challenges: &[Scalar]) -> (Vec<SumcheckMsg>, Option<(Scalar, Scalar)>) {
    let mut messages = Vec::new();
    let mut i = 0;
    while let Some(m) = prover.next_message() {
        messages.push(m);
        prover.fold(challenges[i]);
        i += 1;
    }
    (messages, prover.final_foldings())
}

#[test]
fn eight_coefficients_take_three_rounds() {
    let f = ramp(8, 3, 1);
    let g = ramp(8, 5, 2);
    let twist = Scalar::from_u64(7);
    let (fs, gs) = (reversed(&f), reversed(&g));
    let space = SpaceProver::new(&fs[..], &gs[..], twist);
    assert_eq!(space.rounds(), 3);
    assert_eq!(space.round(), 0);
    let time = TimeProver::new(Witness::new(&f, &g, &twist));
    assert_eq!(time.rounds(), 3);
    assert_eq!(WitnessStream::new(&fs[..], &gs[..], twist).required_rounds(), 3);
    assert_eq!(Witness::new(&f, &g, &twist).required_rounds(), 3);
    for (n, rounds) in [(0usize, 0usize), (1, 0), (2, 1), (3, 2), (4, 2), (5, 3), (16, 4), (17, 5)] {
        let v = ramp(n, 1, 1);
        assert_eq!(Witness::new(&v, &v, &twist).required_rounds(), rounds);
        let longer = ramp(n + 3, 1, 1);
        assert_eq!(Witness::new(&longer, &v, &twist).required_rounds(), rounds);
    }
}

#[test]
fn the_message_of_two_coefficients() {
    // f = 2 + 3x, g = 5 + 7x, twist 10: a = 2*5, b = 2*7 + 3*5*10
    let f = scalars(&[2, 3]);
    let g = scalars(&[5, 7]);
    let twist = Scalar::from_u64(10);
    let mut time = TimeProver::new(Witness::new(&f, &g, &twist));
    assert_eq!(
        time.next_message(),
        Some(SumcheckMsg(Scalar::from_u64(10), Scalar::from_u64(164)))
    );
    let (fs, gs) = (reversed(&f), reversed(&g));
    let mut space = SpaceProver::new(&fs[..], &gs[..], twist);
    assert_eq!(
        space.next_message(),
        Some(SumcheckMsg(Scalar::from_u64(10), Scalar::from_u64(164)))
    );
    // the challenge of the round has not come yet
    assert_eq!(space.round(), 0);
    assert_eq!(time.round(), 0);
    assert_eq!(space.final_foldings(), None);
    assert_eq!(time.final_foldings(), None);
    // the challenge 100 folds g with 100 and f with 100 * 10
    time.fold(Scalar::from_u64(100));
    space.fold(Scalar::from_u64(100));
    assert_eq!(space.round(), 1);
    assert_eq!(time.round(), 1);
    assert_eq!(time.f(), &scalars(&[3002]));
    assert_eq!(time.g(), &scalars(&[705]));
    assert_eq!(time.twist(), Scalar::from_u64(100));
    assert_eq!(time.final_foldings(), Some((Scalar::from_u64(3002), Scalar::from_u64(705))));
    assert_eq!(space.final_foldings(), Some((Scalar::from_u64(3002), Scalar::from_u64(705))));
    assert_eq!(time.next_message(), None);
    assert_eq!(space.next_message(), None);
}

#[test]
fn both_provers_send_the_same_messages() {
    for log in 0..7usize {
        let n = 1 << log;
        let f = ramp(n, 3, 1);
        let g = ramp(n, 11, 5);
        let twist = Scalar::from_u64(12345);
        let challenges: Vec<Scalar> = (0..log as u64).map(|i| Scalar::from_u64(1000 + 17 * i)).collect();
        let mut time = TimeProver::new(Witness::new(&f, &g, &twist));
        let (fs, gs) = (reversed(&f), reversed(&g));
        let mut space = SpaceProver::new(&fs[..], &gs[..], twist);
        let (time_messages, time_foldings) = run(&mut time, &challenges);
        let (space_messages, space_foldings) = run(&mut space, &challenges);
        assert_eq!(time_messages.len(), log);
        assert_eq!(time_messages, space_messages);
        assert!(time_foldings.is_some());
        assert_eq!(time_foldings, space_foldings);
        assert_eq!(time.round(), log);
        assert_eq!(space.round(), log);
        let transcript = ProverMsgs(space_messages, vec![space_foldings.unwrap()]);
        assert_eq!(transcript, ProverMsgs(time_messages, vec![time_foldings.unwrap()]));
    }
}

#[test]
fn both_provers_agree_on_lengths_that_are_no_power_of_two() {
    for n in [3usize, 5, 6, 7, 9, 12, 13] {
        let f = ramp(n, 3, 1);
        let g = ramp(n, 11, 5);
        let twist = Scalar::from_u64(99);
        let challenges: Vec<Scalar> = (0..8u64).map(|i| Scalar::from_u64(31 + 7 * i)).collect();
        let mut time = TimeProver::new(Witness::new(&f, &g, &twist));
        let (fs, gs) = (reversed(&f), reversed(&g));
        let mut space = SpaceProver::new(&fs[..], &gs[..], twist);
        let (time_messages, time_foldings) = run(&mut time, &challenges);
        let (space_messages, space_foldings) = run(&mut space, &challenges);
        assert_eq!(time_messages, space_messages);
        assert_eq!(time_foldings, space_foldings);
    }
}

#[test]
fn a_longer_stream_is_read_from_where_the_shorter_one_starts() {
    let f = ramp(16, 3, 1);
    let g = ramp(4, 11, 5);
    let twist = Scalar::from_u64(6);
    let (fs, gs) = (reversed(&f), reversed(&g));
    let mut space = SpaceProver::new(&fs[..], &gs[..], twist);
    let mut time = TimeProver::new(Witness::new(&f, &g, &twist));
    assert_eq!(space.rounds(), 2);
    let a = space.next_message();
    assert_eq!(a, time.next_message());
    space.fold(Scalar::from_u64(3));
    time.fold(Scalar::from_u64(3));
    assert_eq!(space.next_message(), time.next_message());
    let mut swapped = SpaceProver::new(&gs[..], &fs[..], twist);
    let mut swapped_time = TimeProver::new(Witness::new(&g, &f, &twist));
    assert_eq!(swapped.next_message(), swapped_time.next_message());
}

#[test]
fn the_first_and_third_coefficient_add_up_to_the_twisted_product() {
    let f = ramp(8, 3, 1);
    let g = ramp(8, 11, 5);
    let twist = Scalar::from_u64(7);
    let (fs, gs) = (reversed(&f), reversed(&g));
    let mut space = SpaceProver::new(&fs[..], &gs[..], twist);
    let SumcheckMsg(a, _b) = space.next_message().unwrap();
    assert_eq!(a.add(&odd_product(&f, &g, &twist)), twisted_product(&f, &g, &twist));
}

#[test]
fn the_two_coefficients_add_up_to_the_twisted_product_where_the_second_is_the_third() {
    // f = 1 + x, g = 1 + x, twist = 1: b = f0 g1 + f1 g0 = 2, the odd product is 1: they differ
    let f = scalars(&[1, 1]);
    let twist = Scalar::one();
    let mut time = TimeProver::new(Witness::new(&f, &f, &twist));
    let SumcheckMsg(a, b) = time.next_message().unwrap();
    assert_eq!(a.add(&b), Scalar::from_u64(3));
    assert_eq!(twisted_product(&f, &f, &twist), Scalar::from_u64(2));
    // f = 2x, g = 4 + 2x, twist = 1: b = 0 * 2 + 2 * 4 = 8... with f = x, g = 1 + x: b = 1 = odd product
    let f = scalars(&[0, 1]);
    let g = scalars(&[1, 1]);
    let mut time = TimeProver::new(Witness::new(&f, &g, &twist));
    let SumcheckMsg(a, b) = time.next_message().unwrap();
    assert_eq!(b, odd_product(&f, &g, &twist));
    assert_eq!(a.add(&b), twisted_product(&f, &g, &twist));
}

#[test]
fn a_time_prover_from_a_space_prover_after_five_rounds() {
    let n = 1 << 7;
    let f = ramp(n, 3, 1);
    let g = ramp(n, 11, 5);
    let twist = Scalar::from_u64(4242);
    let challenges: Vec<Scalar> = (0..7u64).map(|i| Scalar::from_u64(555 + 13 * i)).collect();
    let (fs, gs) = (reversed(&f), reversed(&g));
    let mut space = SpaceProver::new(&fs[..], &gs[..], twist);
    let mut time = TimeProver::new(Witness::new(&f, &g, &twist));
    for i in 0..5 {
        assert_eq!(space.next_message(), time.next_message());
        space.fold(challenges[i]);
        time.fold(challenges[i]);
    }
    let mut from_space = TimeProver::from(&space);
    assert_eq!(from_space.f(), time.f());
    assert_eq!(from_space.g(), time.g());
    assert_eq!(from_space.twist(), time.twist());
    assert_eq!(from_space.round(), 5);
    assert_eq!(from_space.rounds(), 7);
    assert_eq!(from_space.f().len(), 4);
    let (rest, foldings) = run(&mut from_space, &challenges[5..]);
    let (space_rest, space_foldings) = run(&mut space, &challenges[5..]);
    assert_eq!(rest.len(), 2);
    assert_eq!(rest, space_rest);
    assert_eq!(foldings, space_foldings);
}

#[test]
fn no_foldings_before_the_last_message() {
    let f = ramp(4, 3, 1);
    let twist = Scalar::from_u64(2);
    let fs = reversed(&f);
    let mut space = SpaceProver::new(&fs[..], &fs[..], twist);
    let mut time = TimeProver::new(Witness::new(&f, &f, &twist));
    assert_eq!(space.final_foldings(), None);
    assert_eq!(time.final_foldings(), None);
    space.next_message();
    time.next_message();
    assert_eq!(space.final_foldings(), None);
    assert_eq!(time.final_foldings(), None);
    // an empty witness has no round and no folding
    let empty: Vec<Scalar> = Vec::new();
    let mut space = SpaceProver::new(&empty[..], &empty[..], twist);
    assert_eq!(space.rounds(), 0);
    assert_eq!(space.next_message(), None);
    assert_eq!(space.final_foldings(), None);
    let mut time = TimeProver::new(Witness::new(&empty, &empty, &twist));
    assert_eq!(time.next_message(), None);
    assert_eq!(time.final_foldings(), None);
}

#[test]
fn a_stream_collected_backwards() {
    let v = scalars(&[1, 2, 3]);
    assert_eq!(collect_reversed(&&v[..]), scalars(&[3, 2, 1]));
}

#[test]
fn messages_add_up_and_scale() {
    let a = SumcheckMsg(Scalar::from_u64(1), Scalar::from_u64(2));
    let b = SumcheckMsg(Scalar::from_u64(10), Scalar::from_u64(20));
    let c = SumcheckMsg(Scalar::from_u64(100), Scalar::from_u64(200));
    assert_eq!(
        SumcheckMsg::sum(&[a, b, c]),
        SumcheckMsg(Scalar::from_u64(111), Scalar::from_u64(222))
    );
    assert_eq!(SumcheckMsg::sum(&[]), SumcheckMsg(Scalar::zero(), Scalar::zero()));
    assert_eq!(a.add(&b), SumcheckMsg(Scalar::from_u64(11), Scalar::from_u64(22)));
    assert_eq!(
        b.mul(&Scalar::from_u64(3)),
        SumcheckMsg(Scalar::from_u64(30), Scalar::from_u64(60))
    );
}

#[test]
fn a_zero_twist_is_taken_where_nothing_is_divided_by_it() {
    // one coefficient each: no round, and the two coefficients are the foldings
    let f = scalars(&[5]);
    let g = scalars(&[7]);
    let mut space = SpaceProver::new(&f[..], &g[..], Scalar::zero());
    assert_eq!(space.rounds(), 0);
    assert_eq!(space.round(), 0);
    assert_eq!(space.next_message(), None);
    assert_eq!(space.final_foldings(), Some((Scalar::from_u64(5), Scalar::from_u64(7))));
    let time = TimeProver::from(&space);
    assert_eq!(time.twist(), Scalar::zero());
    assert_eq!(time.f(), &f);
    assert_eq!(time.g(), &g);
    // the rounds are counted whatever the twist
    let f = ramp(16, 3, 1);
    let g = ramp(8, 5, 2);
    let space = SpaceProver::new(&f[..], &g[..], Scalar::zero());
    assert_eq!(space.rounds(), 3);
    assert_eq!(space.round(), 0);
    assert_eq!(space.final_foldings(), None);
    assert_eq!(TimeProver::from(&space).f().len(), 16);
}
