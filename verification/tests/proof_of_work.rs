use blockchain_pow_julia::{check_work as verdict, DoWorkError};
use num::Complex;

/// Iterates the candidate, records where the orbit leaves the corridor, and
/// asks the library for the verdict.
fn check_work(
    c: Complex<f64>,
    re_min: f64,
    re_max: f64,
    candidate: Complex<f64>,
    target_iterations: u16,
) -> Result<Complex<f64>, DoWorkError> {
    let mut current = candidate;
    let mut orbit = Vec::new();
    for _ in 0..=target_iterations {
        current = current.powu(2) + c;
        orbit.push(current.re < re_min || current.re > re_max);
    }
    verdict(&orbit, target_iterations).map(|()| candidate)
}

#[test]
fn test() {
    for (re, im) in [
        (0.11138718573116269, 0.6446882805476304),
        (0.11232679155599146, 0.6438061412699541),
        (0.11688921798334584, 0.6296760648969593),
        (0.11728813049958475, 0.6323731120056992),
        (0.12027361411928883, 0.6239700013549823),
        (0.1260266314193701, 0.6482785883603248),
        (0.12639281514111322, 0.6472206350658807),
        (0.1303472825420846, 0.6473682269192866),
        (0.1303472825420846, 0.6473682269192866),
    ] {
        assert_eq!(
            check_work(
                num::Complex { re: 0.5, im: 0.5 },
                0.0,
                0.5,
                num::Complex { re, im },
                10
            ),
            Ok(num::Complex { re, im })
        )
    }
}

#[test]
fn neighbouring_iteration_counts_are_rejected() {
    let c = Complex { re: 0.5, im: 0.5 };
    let candidate = Complex { re: 0.11138718573116269, im: 0.6446882805476304 };
    assert_eq!(check_work(c, 0.0, 0.5, candidate, 10), Ok(candidate));
    assert_eq!(
        check_work(c, 0.0, 0.5, candidate, 9),
        Err(DoWorkError::LeftSetTooLateOrNotAtAll)
    );
    assert_eq!(check_work(c, 0.0, 0.5, candidate, 11), Err(DoWorkError::LeftSetTooEarly));
}

#[test]
fn verdict_follows_the_first_exit() {
    let orbit = vec![false, false, true, false, true];
    assert_eq!(verdict(&orbit, 2), Ok(()));
    assert_eq!(verdict(&orbit, 0), Err(DoWorkError::LeftSetTooLateOrNotAtAll));
    assert_eq!(verdict(&orbit, 1), Err(DoWorkError::LeftSetTooLateOrNotAtAll));
    assert_eq!(verdict(&orbit, 3), Err(DoWorkError::LeftSetTooEarly));
    assert_eq!(verdict(&orbit, 4), Err(DoWorkError::LeftSetTooEarly));
    assert_eq!(verdict(&orbit, 400), Err(DoWorkError::LeftSetTooEarly));
}

#[test]
fn an_orbit_that_stays_inside_is_too_late() {
    assert_eq!(verdict(&vec![], 0), Err(DoWorkError::LeftSetTooLateOrNotAtAll));
    assert_eq!(verdict(&vec![false; 5], 4), Err(DoWorkError::LeftSetTooLateOrNotAtAll));
    assert_eq!(verdict(&vec![false; 5], 9), Err(DoWorkError::LeftSetTooLateOrNotAtAll));
    assert_eq!(verdict(&vec![true], 0), Ok(()));
    assert_eq!(verdict(&vec![false, true], u16::MAX), Err(DoWorkError::LeftSetTooEarly));
}
