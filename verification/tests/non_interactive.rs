use ark_poly::multivariate::SparseTerm;
use ark_poly::multivariate::Term;
use nimue::ByteChallenges;
use nimue::ByteReader;
use pazk::error::Error;
use pazk::polynomial::MultivariatePolynomial;
use pazk::sumcheck::fiat_shamir::bit_length_of;
use pazk::sumcheck::fiat_shamir::challenge_width_of;
use pazk::sumcheck::fiat_shamir::scalar_width_of;
use pazk::sumcheck::fiat_shamir::SumCheckExtensionIOPattern;
use pazk::sumcheck::non_interactive::challenge_from_bytes;
use pazk::sumcheck::non_interactive::encode_scalar_bytes;
use pazk::sumcheck::non_interactive::prove;
use pazk::sumcheck::non_interactive::verify;
use pazk::sumcheck::non_interactive::SumCheckProof;
use pazk::sumcheck::transcript::Schedule;
use pazk::sumcheck::Prover;
use pazk::sumcheck::Verifier;
use pazk::univariate::UnivariatePolynomial;

/// examples and solutions taken from SumCheck example in
/// Thaler's Chp. 4
fn setup() -> MultivariatePolynomial<17> {
    // Create a multivariate polynomial in 3 variables, with 3 terms:
    // 2*x_0^3 + x_0*x_2 + x_1*x_2
    MultivariatePolynomial::from_coefficients_vec(
        3,
        vec![
            (2, SparseTerm::new(vec![(0, 3)])),
            (1, SparseTerm::new(vec![(0, 1), (2, 1)])),
            (1, SparseTerm::new(vec![(1, 1), (2, 1)])),
        ],
    )
    .unwrap()
}

fn schedule(domsep: &str, poly: &MultivariatePolynomial<17>) -> Schedule {
    SumCheckExtensionIOPattern::<17>::new_sumcheck(domsep, poly)
}

fn honest_proof(domsep: &str) -> (Schedule, SumCheckProof<17>) {
    let poly = setup();
    let io = schedule(domsep, &poly);
    let mut merlin = io.to_merlin();
    let proof = prove(&mut merlin, poly).unwrap();
    (io, proof)
}

fn rebuilt(
    proof: &SumCheckProof<17>,
    round_polys: Vec<UnivariatePolynomial<17>>,
    transcript: Vec<u8>,
) -> SumCheckProof<17> {
    SumCheckProof::new(proof.solution(), proof.poly().clone(), round_polys, transcript)
}

/// The challenges of a proof, squeezed on nimue directly.
fn challenges_of(domsep: &str, proof: &SumCheckProof<17>) -> Vec<u64> {
    let mut pattern = nimue::IOPattern::<nimue::DefaultHash>::new(domsep);
    for _ in 0..3 {
        pattern = pattern
            .absorb(1, "Univariate polynomial coefficients")
            .squeeze(16, "random scalar challenge");
    }
    let mut arthur = pattern.to_arthur(proof.transcript());
    let mut challenges = Vec::new();
    for round_poly in proof.round_polys() {
        let [commitment] = arthur.next_bytes().unwrap();
        assert_eq!(commitment as u64, round_poly.commitment());
        let squeezed: [u8; 16] = arthur.challenge_bytes().unwrap();
        let challenge = (u128::from_be_bytes(squeezed) % 17) as u64;
        assert_eq!(challenge_from_bytes::<17>(&squeezed.to_vec()), challenge);
        challenges.push(challenge);
    }
    challenges
}

#[test]
fn test_non_interactive_sumcheck() {
    let poly = setup();
    let io: Schedule = SumCheckExtensionIOPattern::<17>::new_sumcheck("➕✅", &poly);
    let mut merlin = io.to_merlin();

    let proof = prove(&mut merlin, poly).unwrap();
    assert_eq!(verify(io, proof), Ok(()));
}

#[test]
fn the_schedule_lists_one_absorb_and_one_squeeze_per_round() {
    let io = schedule("sumcheck", &setup());
    let round = "\0A1Univariate polynomial coefficients\0S16random scalar challenge";
    let expected = format!("sumcheck{round}{round}{round}");
    assert_eq!(io.as_bytes(), expected.as_bytes());
    // the domain separator goes in as UTF-8
    let io = schedule("➕✅", &setup());
    assert_eq!(io.as_bytes(), format!("➕✅{round}{round}{round}").as_bytes());
    // a schedule can be extended by the rounds of another run
    let twice = SumCheckExtensionIOPattern::<17>::add_sumcheck(schedule("a", &setup()), &setup());
    assert_eq!(twice.as_bytes(), format!("a{}", round.repeat(6)).as_bytes());
    assert_eq!(twice.clone().as_bytes(), twice.as_bytes());
}

#[test]
fn the_schedule_counts_bytes_by_the_modulus() {
    let poly = MultivariatePolynomial::<65537>::from_coefficients_vec(
        1,
        vec![(3, SparseTerm::new(vec![(0, 1)]))],
    )
    .unwrap();
    let io: Schedule = SumCheckExtensionIOPattern::<65537>::new_sumcheck("wide", &poly);
    let expected = "wide\0A3Univariate polynomial coefficients\0S18random scalar challenge";
    assert_eq!(io.as_bytes(), expected.as_bytes());
}

#[test]
fn widths_follow_the_bits_of_the_modulus() {
    assert_eq!(bit_length_of(0), 0);
    assert_eq!(bit_length_of(1), 1);
    assert_eq!(bit_length_of(17), 5);
    assert_eq!(bit_length_of(255), 8);
    assert_eq!(bit_length_of(256), 9);
    assert_eq!(bit_length_of(u64::MAX), 64);
    assert_eq!(scalar_width_of(17), 1);
    assert_eq!(scalar_width_of(256), 2);
    assert_eq!(scalar_width_of(u64::MAX), 8);
    assert_eq!(challenge_width_of(17), 16);
    assert_eq!(challenge_width_of(u64::MAX), 24);
}

#[test]
fn scalars_are_encoded_little_endian() {
    assert_eq!(encode_scalar_bytes(0x0102, 2), vec![2, 1]);
    assert_eq!(encode_scalar_bytes(12, 1), vec![12]);
    assert_eq!(encode_scalar_bytes(0x0102, 1), vec![2]);
    assert_eq!(encode_scalar_bytes(1, 3), vec![1, 0, 0]);
    assert_eq!(encode_scalar_bytes(u64::MAX, 9), vec![255, 255, 255, 255, 255, 255, 255, 255, 0]);
    assert_eq!(encode_scalar_bytes(7, 0), Vec::<u8>::new());
}

#[test]
fn challenges_are_read_big_endian() {
    assert_eq!(challenge_from_bytes::<17>(&vec![1, 0]), 1);
    assert_eq!(challenge_from_bytes::<17>(&vec![0, 20]), 3);
    assert_eq!(challenge_from_bytes::<17>(&vec![]), 0);
    assert_eq!(challenge_from_bytes::<1000003>(&vec![1, 2, 3]), 0x010203);
    // 2^128 - 1 = 0 mod 17, as 2^8 = 1 mod 17
    assert_eq!(challenge_from_bytes::<17>(&vec![255; 16]), 0);
    assert_eq!(challenge_from_bytes::<{ u64::MAX }>(&vec![1, 0, 0, 0, 0, 0, 0, 0, 0]), 1);
}

#[test]
fn the_proof_holds_the_honest_run() {
    let (_, proof) = honest_proof("run");
    assert_eq!(proof.solution(), 12);
    assert_eq!(proof.poly(), &setup());
    assert_eq!(proof.round_polys().len(), 3);
    // the transcript holds the three commitments, one byte each
    let transcript = proof.transcript().clone();
    assert_eq!(transcript.len(), 3);
    assert_eq!(transcript[0], 12);
    for (round_poly, byte) in proof.round_polys().iter().zip(&transcript) {
        assert_eq!(round_poly.commitment(), *byte as u64);
    }
    // the first polynomial does not depend on any challenge
    assert_eq!(proof.round_polys()[0], Prover::new(setup()).calculate_round_poly());
}

#[test]
fn proving_twice_gives_the_same_proof() {
    let (_, first) = honest_proof("again");
    let (_, second) = honest_proof("again");
    assert_eq!(first.transcript(), second.transcript());
    assert_eq!(first.round_polys(), second.round_polys());
}

#[test]
fn the_prover_records_what_it_absorbs() {
    let poly = setup();
    let io = schedule("recorded", &poly);
    let mut merlin = io.to_merlin();
    assert_eq!(merlin.transcript(), Vec::<u8>::new());
    let proof = prove(&mut merlin, poly).unwrap();
    assert_eq!(&merlin.transcript(), proof.transcript());
}

#[test]
fn a_flipped_transcript_byte_is_refused() {
    let (io, proof) = honest_proof("flip a byte");
    for index in 0..proof.transcript().len() {
        for bit in 0..8 {
            let mut transcript = proof.transcript().clone();
            transcript[index] ^= 1 << bit;
            let changed = rebuilt(&proof, proof.round_polys().clone(), transcript);
            assert_eq!(verify(io.clone(), changed), Err(Error::TranscriptScheduleMismatch));
        }
    }
    assert_eq!(verify(io, proof), Ok(()));
}

#[test]
fn a_changed_coefficient_is_refused() {
    // over an odd modulus every change of one coefficient shows in the commitment, so
    // the round itself is refused
    let (io, proof) = honest_proof("flip a coefficient");
    for round in 0..3 {
        let honest = proof.round_polys()[round].coefficients();
        let expected = if round == 0 {
            Error::SumMismatch
        } else {
            Error::RoundInconsistency
        };
        for power in 0..5usize {
            for delta in 1..17u64 {
                let mut coeffs = honest.clone();
                coeffs.push((power, delta));
                let mut round_polys = proof.round_polys().clone();
                round_polys[round] = UnivariatePolynomial::from_coefficients_vec(coeffs).unwrap();
                assert_ne!(round_polys[round], proof.round_polys()[round]);
                assert_ne!(round_polys[round].commitment(), proof.round_polys()[round].commitment());
                let changed = rebuilt(&proof, round_polys, proof.transcript().clone());
                assert_eq!(verify(io.clone(), changed), Err(expected));
            }
        }
    }
}

#[test]
fn a_changed_polynomial_with_the_same_commitment_is_found_out_later() {
    // two coefficients changed so that g(0) + g(1) stays: the round passes, the bytes
    // fit, and the next round or the last check tells
    let (io, proof) = honest_proof("same commitment");
    let challenges = challenges_of("same commitment", &proof);
    for round in 0..3 {
        let mut coeffs = proof.round_polys()[round].coefficients();
        coeffs.push((1, 1));
        coeffs.push((2, 16));
        let mut round_polys = proof.round_polys().clone();
        round_polys[round] = UnivariatePolynomial::from_coefficients_vec(coeffs).unwrap();
        assert_eq!(round_polys[round].commitment(), proof.round_polys()[round].commitment());
        let differs = round_polys[round].evaluate(challenges[round])
            != proof.round_polys()[round].evaluate(challenges[round]);
        let changed = rebuilt(&proof, round_polys, proof.transcript().clone());
        let expected = if !differs {
            Ok(())
        } else if round == 2 {
            Err(Error::FinalOracleMismatch)
        } else {
            Err(Error::RoundInconsistency)
        };
        assert_eq!(verify(io.clone(), changed), expected);
    }
}

#[test]
fn the_first_failure_is_the_result() {
    // a wrong polynomial and a flipped byte in the same round: the round check comes
    // before the bytes are held against the commitment
    let (io, proof) = honest_proof("first failure");
    for round in 0..3 {
        let mut coeffs = proof.round_polys()[round].coefficients();
        coeffs.push((1, 3));
        let mut round_polys = proof.round_polys().clone();
        round_polys[round] = UnivariatePolynomial::from_coefficients_vec(coeffs).unwrap();
        let mut transcript = proof.transcript().clone();
        transcript[round] ^= 1;
        let changed = rebuilt(&proof, round_polys, transcript);
        let expected = if round == 0 {
            Error::SumMismatch
        } else {
            Error::RoundInconsistency
        };
        assert_eq!(verify(io.clone(), changed), Err(expected));
    }
}

#[test]
fn a_wrong_claim_is_refused_by_verify() {
    let (io, proof) = honest_proof("claim");
    let wrong = SumCheckProof::new(
        11,
        proof.poly().clone(),
        proof.round_polys().clone(),
        proof.transcript().clone(),
    );
    assert_eq!(verify(io, wrong), Err(Error::SumMismatch));
}

#[test]
fn a_proof_for_another_polynomial_is_refused() {
    // a polynomial with the same sum that differs from the proved one at every point
    // outside the hypercube in x_0: 2*x_0^3 + x_0*x_2 + x_1*x_2 + 5*x_0*(x_0 - 1)
    let other = MultivariatePolynomial::from_coefficients_vec(
        3,
        vec![
            (2, SparseTerm::new(vec![(0, 3)])),
            (1, SparseTerm::new(vec![(0, 1), (2, 1)])),
            (1, SparseTerm::new(vec![(1, 1), (2, 1)])),
            (5, SparseTerm::new(vec![(0, 2)])),
            (12, SparseTerm::new(vec![(0, 1)])),
        ],
    )
    .unwrap();
    assert_eq!(Prover::new(other.clone()).calculate_sum(), 12);
    for domsep in ["oracle 1", "oracle 2", "oracle 3", "oracle 4", "oracle 5", "oracle 6"] {
        let (io, proof) = honest_proof(domsep);
        let first = challenges_of(domsep, &proof)[0];
        let wrong = SumCheckProof::new(
            12,
            other.clone(),
            proof.round_polys().clone(),
            proof.transcript().clone(),
        );
        // the rounds agree with each other; only the last check can tell, and it does
        // unless the first challenge is a root of x_0*(x_0 - 1)
        let expected = if first == 0 || first == 1 {
            Ok(())
        } else {
            Err(Error::FinalOracleMismatch)
        };
        assert_eq!(verify(io, wrong), expected);
    }
}

#[test]
fn a_proof_with_a_missing_round_is_refused() {
    let (io, proof) = honest_proof("short");
    let mut round_polys = proof.round_polys().clone();
    round_polys.pop();
    let short = rebuilt(&proof, round_polys, proof.transcript().clone());
    assert_eq!(verify(io.clone(), short), Err(Error::TranscriptScheduleMismatch));
    // and so is one whose transcript ends early
    let mut transcript = proof.transcript().clone();
    transcript.pop();
    let cut = rebuilt(&proof, proof.round_polys().clone(), transcript);
    assert_eq!(verify(io, cut), Err(Error::TranscriptScheduleMismatch));
}

/// The outcome of the rounds of a proof under the challenges of `domsep`, replayed on
/// the verifier directly.
fn replayed(domsep: &str, proof: &SumCheckProof<17>) -> Result<(), Error> {
    let challenges = challenges_of(domsep, proof);
    let mut verifier = Verifier::new(proof.solution(), proof.poly().clone());
    for (round_poly, challenge) in proof.round_polys().iter().zip(challenges) {
        verifier.verify_round_with(round_poly.clone(), challenge)?;
    }
    Ok(())
}

#[test]
fn another_schedule_is_refused() {
    // under another domain separator the challenges are others, and the rounds no
    // longer continue each other
    let (_, proof) = honest_proof("one domain");
    let other = schedule("another domain", &setup());
    let expected = replayed("another domain", &proof);
    assert!(expected.is_err());
    assert_eq!(verify(other, proof), expected);
    // a transcript scheduled for fewer rounds does not admit the run
    let small = MultivariatePolynomial::<17>::from_coefficients_vec(
        1,
        vec![(1, SparseTerm::new(vec![(0, 1)]))],
    )
    .unwrap();
    let mut merlin = schedule("one round", &small).to_merlin();
    assert_eq!(prove(&mut merlin, setup()).err(), Some(Error::TranscriptScheduleMismatch));
    // and neither does a used one
    let io = schedule("used", &setup());
    let mut merlin = io.to_merlin();
    assert!(prove(&mut merlin, setup()).is_ok());
    assert_eq!(prove(&mut merlin, setup()).err(), Some(Error::TranscriptScheduleMismatch));
}

#[test]
fn the_challenges_are_those_of_the_sponge() {
    let (_, proof) = honest_proof("sponge");
    // the same schedule and the same reads, made on nimue directly
    let challenges = challenges_of("sponge", &proof);
    let mut verifier = Verifier::new(proof.solution(), proof.poly().clone());
    let mut prover = Prover::new(setup());
    for (round_poly, challenge) in proof.round_polys().iter().zip(challenges) {
        assert_eq!(verifier.verify_round_with(round_poly.clone(), challenge), Ok(challenge));
        // the prover has folded by these challenges
        assert_eq!(&prover.calculate_round_poly(), round_poly);
        prover.update_random_vars(challenge);
    }
}

#[test]
fn a_changed_constant_is_refused_modulo_two() {
    // modulo 2 a changed constant leaves the commitment g(0) + g(1) as it is;
    // the next round, or the last check, tells
    let poly = MultivariatePolynomial::<2>::from_coefficients_vec(
        3,
        vec![
            (1, SparseTerm::new(vec![(0, 1)])),
            (1, SparseTerm::new(vec![(0, 1), (1, 1)])),
            (1, SparseTerm::new(vec![(1, 2), (2, 1)])),
            (1, SparseTerm::new(vec![])),
        ],
    )
    .unwrap();
    let io: Schedule = SumCheckExtensionIOPattern::<2>::new_sumcheck("two", &poly);
    let proof = prove(&mut io.to_merlin(), poly).unwrap();
    assert_eq!(verify(io.clone(), SumCheckProof::new(
        proof.solution(),
        proof.poly().clone(),
        proof.round_polys().clone(),
        proof.transcript().clone(),
    )), Ok(()));
    for round in 0..3 {
        let mut coeffs = proof.round_polys()[round].coefficients();
        coeffs.push((0, 1));
        let mut round_polys = proof.round_polys().clone();
        round_polys[round] = UnivariatePolynomial::from_coefficients_vec(coeffs).unwrap();
        assert_eq!(round_polys[round].commitment(), proof.round_polys()[round].commitment());
        let changed = SumCheckProof::new(
            proof.solution(),
            proof.poly().clone(),
            round_polys,
            proof.transcript().clone(),
        );
        let expected = if round == 2 {
            Error::FinalOracleMismatch
        } else {
            Error::RoundInconsistency
        };
        assert_eq!(verify(io.clone(), changed), Err(expected));
    }
}

#[test]
fn a_changed_higher_coefficient_is_refused_in_its_round_modulo_two() {
    let poly = MultivariatePolynomial::<2>::from_coefficients_vec(
        2,
        vec![
            (1, SparseTerm::new(vec![(0, 1)])),
            (1, SparseTerm::new(vec![(0, 1), (1, 1)])),
        ],
    )
    .unwrap();
    let io: Schedule = SumCheckExtensionIOPattern::<2>::new_sumcheck("two again", &poly);
    let proof = prove(&mut io.to_merlin(), poly).unwrap();
    for round in 0..2 {
        let mut coeffs = proof.round_polys()[round].coefficients();
        coeffs.push((3, 1));
        let mut round_polys = proof.round_polys().clone();
        round_polys[round] = UnivariatePolynomial::from_coefficients_vec(coeffs).unwrap();
        let changed = SumCheckProof::new(
            proof.solution(),
            proof.poly().clone(),
            round_polys,
            proof.transcript().clone(),
        );
        let expected = if round == 0 {
            Error::SumMismatch
        } else {
            Error::RoundInconsistency
        };
        assert_eq!(verify(io.clone(), changed), Err(expected));
    }
}
