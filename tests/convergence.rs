use mastermind::gameplay::Pattern;
use mastermind::solver::Solver;

/// Plays a full game against every hidden pattern whose index lies in
/// `first .. first + 36`, with a budget of ten turns.
fn converges(first: u32) {
    for i in first..first + 36 {
        let secret = Pattern::ith(i);
        let mut breaker = Solver::new(move |guess: &Pattern| secret.score(*guess));
        let guesses = breaker.guesses(10);
        assert!(guesses.len() <= 5, "{} took {} guesses", secret.to_string(), guesses.len());
        assert_eq!(*guesses.last().unwrap(), secret);
        assert!(secret.score(*guesses.last().unwrap()).win());
    }
}

#[test]
fn converges_from_11() {
    converges(0);
}

#[test]
fn converges_from_12() {
    converges(36);
}

#[test]
fn converges_from_13() {
    converges(72);
}

#[test]
fn converges_from_14() {
    converges(108);
}

#[test]
fn converges_from_15() {
    converges(144);
}

#[test]
fn converges_from_16() {
    converges(180);
}

#[test]
fn converges_from_21() {
    converges(216);
}

#[test]
fn converges_from_22() {
    converges(252);
}

#[test]
fn converges_from_23() {
    converges(288);
}

#[test]
fn converges_from_24() {
    converges(324);
}

#[test]
fn converges_from_25() {
    converges(360);
}

#[test]
fn converges_from_26() {
    converges(396);
}

#[test]
fn converges_from_31() {
    converges(432);
}

#[test]
fn converges_from_32() {
    converges(468);
}

#[test]
fn converges_from_33() {
    converges(504);
}

#[test]
fn converges_from_34() {
    converges(540);
}

#[test]
fn converges_from_35() {
    converges(576);
}

#[test]
fn converges_from_36() {
    converges(612);
}

#[test]
fn converges_from_41() {
    converges(648);
}

#[test]
fn converges_from_42() {
    converges(684);
}

#[test]
fn converges_from_43() {
    converges(720);
}

#[test]
fn converges_from_44() {
    converges(756);
}

#[test]
fn converges_from_45() {
    converges(792);
}

#[test]
fn converges_from_46() {
    converges(828);
}

#[test]
fn converges_from_51() {
    converges(864);
}

#[test]
fn converges_from_52() {
    converges(900);
}

#[test]
fn converges_from_53() {
    converges(936);
}

#[test]
fn converges_from_54() {
    converges(972);
}

#[test]
fn converges_from_55() {
    converges(1008);
}

#[test]
fn converges_from_56() {
    converges(1044);
}

#[test]
fn converges_from_61() {
    converges(1080);
}

#[test]
fn converges_from_62() {
    converges(1116);
}

#[test]
fn converges_from_63() {
    converges(1152);
}

#[test]
fn converges_from_64() {
    converges(1188);
}

#[test]
fn converges_from_65() {
    converges(1224);
}

#[test]
fn converges_from_66() {
    converges(1260);
}
