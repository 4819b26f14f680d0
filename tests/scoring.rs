use mastermind::gameplay::{CodePeg, DecodingBoard, KeyPegs, Pattern};
use mastermind::pattern;
use mastermind::pattern::CodePeg::{Blu, Grn, Orn, Red, Wht, Yel};
use mastermind::pattern::Distance;

fn digits(text: &str) -> [char; 4] {
    let c: Vec<char> = text.chars().collect();
    [c[0], c[1], c[2], c[3]]
}

fn pattern_of(text: &str) -> Pattern {
    Pattern::from_digits(digits(text))
}

#[test]
fn gameplay_scoring() {
    let (s, g) = (Pattern::from_digits(['1', '2', '3', '4']),
                  Pattern::from_digits(['2', '5', '5', '5']));
    let t1 = s.score(g);
    assert_eq!(t1, KeyPegs::new().blacks(0).whites(1));
}

#[test]
fn scoring_win() {
    let (s, g) = (Pattern::from_digits(['1', '2', '3', '4']),
                  Pattern::from_digits(['1', '2', '3', '4']));
    let t1 = s.score(g);
    assert_eq!(t1, KeyPegs::new().blacks(4).whites(0));
}

#[test]
fn pattern_scoring() {
    let (s, g) = (pattern::Pattern::new([Orn, Grn, Grn, Blu]),
                  pattern::Pattern::new([Red, Red, Orn, Orn]));
    let t1 = s.score(g);
    assert_eq!(t1, Distance { blacks: 0, whites: 1 });
}

#[test]
fn duplicate_colours_in_guess() {
    let t = pattern_of("1122").score(pattern_of("1112"));
    assert_eq!(t, KeyPegs::new().blacks(3).whites(0));
    assert_eq!(t.to_string(), "BBB");
}

#[test]
fn duplicate_colours_capped_by_secret() {
    // Three 1s in the guess, one in the secret: one peg for the colour.
    let t = pattern_of("1234").score(pattern_of("5111"));
    assert_eq!(t, KeyPegs::new().blacks(0).whites(1));
    let t = pattern_of("1234").score(pattern_of("1111"));
    assert_eq!(t, KeyPegs::new().blacks(1).whites(0));
}

#[test]
fn whites_only() {
    let t = pattern_of("1234").score(pattern_of("4321"));
    assert_eq!(t, KeyPegs::new().blacks(0).whites(4));
    assert!(!t.win());
    let t = pattern_of("1122").score(pattern_of("2211"));
    assert_eq!(t, KeyPegs::new().whites(4));
}

#[test]
fn mixed_blacks_and_whites() {
    let t = pattern_of("1234").score(pattern_of("1243"));
    assert_eq!(t, KeyPegs::new().blacks(2).whites(2));
    let t = pattern_of("6543").score(pattern_of("3456"));
    assert_eq!(t, KeyPegs::new().blacks(0).whites(4));
    let t = pattern_of("1223").score(pattern_of("2215"));
    assert_eq!(t, KeyPegs::new().blacks(1).whites(2));
}

#[test]
fn disjoint_colours_score_nothing() {
    let t = pattern_of("1111").score(pattern_of("2222"));
    assert_eq!(t, KeyPegs::new());
    assert_eq!(t.to_string(), "");
    let t = pattern_of("1234").score(pattern_of("5656"));
    assert_eq!(t, KeyPegs::new().blacks(0).whites(0));
}

#[test]
fn self_score_is_a_win_for_every_pattern() {
    for i in 0..Pattern::cardinality() {
        let p = Pattern::ith(i);
        let t = p.score(p);
        assert_eq!(t, KeyPegs::new().blacks(4).whites(0));
        assert!(t.win());
    }
}

#[test]
fn four_blacks_only_for_equal_patterns() {
    for a in 0..Pattern::cardinality() {
        for b in 0..Pattern::cardinality() {
            let t = Pattern::ith(a).score(Pattern::ith(b));
            assert_eq!(t.win(), a == b);
        }
    }
}

#[test]
fn peg_totals_at_most_four_and_four_for_same_colours() {
    for a in 0..Pattern::cardinality() {
        let pa = Pattern::ith(a);
        let mut da = pa.to_digits();
        da.sort();
        for b in 0..Pattern::cardinality() {
            let pb = Pattern::ith(b);
            let mut db = pb.to_digits();
            db.sort();
            let total = pa.score(pb).to_string().len();
            assert!(total <= 4);
            assert_eq!(total == 4, da == db);
        }
    }
}

#[test]
fn scoring_is_symmetric() {
    let cases = [("1234", "2555"), ("1122", "1112"), ("6543", "3466"), ("1213", "3121")];
    for (a, b) in cases {
        assert_eq!(pattern_of(a).score(pattern_of(b)), pattern_of(b).score(pattern_of(a)));
    }
}

#[test]
fn key_pegs_render_blacks_then_whites() {
    let b1w2 = KeyPegs::new().blacks(1).whites(2);
    assert_eq!(b1w2.to_string(), "BWW");
    assert_eq!(KeyPegs::new().blacks(4).to_string(), "BBBB");
    assert_eq!(KeyPegs::new().whites(3).to_string(), "WWW");
    assert!(KeyPegs::new().blacks(4).win());
    assert!(!KeyPegs::new().blacks(3).whites(1).win());
}

#[test]
fn board_and_pegs() {
    assert_eq!(DecodingBoard::default().rows, 12);
    assert_eq!(CodePeg::colors(), 6);
    assert_eq!(Pattern::size(), 4);
    assert_eq!(Pattern::cardinality(), 1296);
    assert_eq!((CodePeg::colors() as u32).pow(Pattern::size() as u32), 1296);
}

#[test]
fn indices_and_digits() {
    assert_eq!(Pattern::ith(0).to_string(), "1111");
    assert_eq!(Pattern::ith(1).to_string(), "1112");
    assert_eq!(Pattern::ith(Pattern::cardinality() - 1).to_string(), "6666");
    assert_eq!(pattern_of("1122").index(), 7);
    assert_eq!(pattern_of("2555").index(), 216 + 4 * 36 + 4 * 6 + 4);
    assert_eq!(pattern_of("6666").index(), 1295);
    assert_eq!(Pattern::ith(7).to_digits(), ['1', '1', '2', '2']);
}

#[test]
fn characters_outside_one_to_six_count_as_one() {
    assert_eq!(pattern_of("x2y3"), pattern_of("1213"));
    assert_eq!(pattern_of("0789").index(), 0);
}

#[test]
fn digits_round_trip_for_every_index() {
    for i in 0..Pattern::cardinality() {
        let p = Pattern::ith(i);
        assert_eq!(Pattern::from_digits(p.to_digits()), p);
        assert_eq!(p.index(), i);
    }
}

#[test]
fn range_lists_every_pattern_in_order() {
    let all = Pattern::range();
    assert_eq!(all.len(), 1296);
    for (i, p) in all.iter().enumerate() {
        assert_eq!(p.index() as usize, i);
    }
}

#[test]
fn colour_pattern_codec() {
    assert_eq!(pattern::Pattern::size(), 4);
    assert_eq!(pattern::Pattern::radix(), 6);
    assert_eq!(pattern::Pattern::cardinality(), 1296);
    assert_eq!(pattern::Pattern::new([Red, Red, Red, Red]), pattern::Pattern::ith(0));
    assert_eq!(pattern::Pattern::new([Red, Red, Red, Orn]).0, 1);
    assert_eq!(pattern::Pattern::new([Orn, Red, Red, Red]).0, 216);
    assert_eq!(pattern::Pattern::new([Wht, Wht, Wht, Wht]).0, 1295);
    assert_eq!(pattern::Pattern::ith(1295).pegs(), [Wht, Wht, Wht, Wht]);
    assert_eq!(pattern::Pattern::new([Yel, Grn, Blu, Wht]).pegs(), [Yel, Grn, Blu, Wht]);
    for i in 0..pattern::Pattern::cardinality() {
        let p = pattern::Pattern::ith(i);
        assert_eq!(pattern::Pattern::new(p.pegs()), p);
    }
}

#[test]
fn colour_pattern_scores() {
    let s = pattern::Pattern::new([Red, Orn, Yel, Grn]);
    let d = s.score(s);
    assert_eq!(d, Distance { blacks: 4, whites: 0 });
    assert!(d.win());
    let d = s.score(pattern::Pattern::new([Orn, Blu, Blu, Blu]));
    assert_eq!(d, Distance { blacks: 0, whites: 1 });
    assert!(!d.win());
    let d = pattern::Pattern::new([Red, Red, Orn, Orn]).score(pattern::Pattern::new([Red, Red, Red, Orn]));
    assert_eq!(d, Distance { blacks: 3, whites: 0 });
}
