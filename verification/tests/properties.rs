use floating_bar::{r32, ParseRatioErr, RatioErrKind};
use std::cmp::Ordering;

fn parts(x: r32) -> (bool, u32, u32) {
    (x.is_sign_negative_bits(), x.numer(), x.denom())
}

trait SignBit {
    fn is_sign_negative_bits(self) -> bool;
}

impl SignBit for r32 {
    fn is_sign_negative_bits(self) -> bool {
        self.to_bits() & 0x8000_0000 != 0
    }
}

fn err(kind: RatioErrKind) -> Result<r32, ParseRatioErr> {
    Err(ParseRatioErr { kind })
}

#[test]
fn from_parts_decodes() {
    assert_eq!(parts(r32::from_parts(false, 3, 2)), (false, 3, 2));
    assert_eq!(parts(r32::from_parts(true, 5, 7)), (true, 5, 7));
    assert_eq!(parts(r32::from_parts(false, 0x03FF_FFFF, 1)), (false, 0x03FF_FFFF, 1));
    assert_eq!(parts(r32::from_parts(false, 1, 0x0400_0000)), (false, 1, 0x0400_0000));
    assert_eq!(r32::from_bits(0x1234_5678).to_bits(), 0x1234_5678);
}

#[test]
fn constants() {
    assert_eq!(r32::max_value().numer(), 0x03FF_FFFF);
    assert_eq!(r32::max_value().denom(), 1);
    assert_eq!(r32::min_value(), -r32::max_value());
    assert_eq!(r32::min_positive().numer(), 1);
    assert_eq!(r32::min_positive().denom(), 0x07FF_FFFF);
    assert!(r32::nan().is_nan());
    assert!(!r32::max_value().is_nan());
}

#[test]
fn sign_predicates_follow_their_docs() {
    assert!(r32(0).is_positive());
    assert!(!r32(0).is_negative());
    assert!((-r32(0)).is_negative());
    assert!(!r32::nan().is_positive());
    assert!(!(-r32::nan()).is_negative());
    assert!(r32(3).is_positive());
    assert!((-r32(3)).is_negative());
}

#[test]
fn is_normal_cases() {
    assert!(r32(1).is_normal());
    assert!(!r32(0).is_normal());
    assert!(!r32::nan().is_normal());
    assert!(!r32::min_positive().is_normal());
}

#[test]
fn abs_and_signum() {
    assert_eq!(r32::from_parts(true, 3, 2).abs(), r32::from_parts(false, 3, 2));
    assert!(r32::nan().abs().is_nan());
    assert_eq!(r32::from_parts(true, 3, 2).signum(), -r32(1));
    assert_eq!(r32::nan().signum(), r32(0));
}

#[test]
fn floor_ceil_round() {
    let a = r32::from_parts(false, 7, 2);
    let b = r32::from_parts(true, 7, 2);
    assert_eq!(a.floor(), r32(3));
    assert_eq!(a.ceil(), r32(4));
    assert_eq!(a.round(), r32(4));
    assert_eq!(b.floor(), -r32(4));
    assert_eq!(b.ceil(), -r32(3));
    assert_eq!(b.round(), -r32(4));
    assert_eq!(r32::from_parts(false, 5, 4).round(), r32(1));
    assert_eq!(r32::from_parts(true, 1, 3).floor(), -r32(1));
    assert_eq!(r32::from_parts(true, 1, 3).ceil(), r32(0));
    assert!(r32::nan().floor().is_nan());
    assert!(r32::nan().ceil().is_nan());
    assert!(r32::nan().round().is_nan());
}

#[test]
fn trunc_plus_fract_is_the_number() {
    for x in [r32::from_parts(false, 7, 2), r32::from_parts(true, 22, 7), r32(9), r32::min_positive()] {
        assert_eq!(x.trunc() + x.fract(), x);
    }
}

#[test]
fn recip_twice_is_identity() {
    for x in [r32::from_parts(false, 7, 2), r32::from_parts(true, 22, 7), r32(9)] {
        assert_eq!(x.recip().recip().to_bits(), x.to_bits());
    }
}

#[test]
fn neg_twice_is_identity() {
    for b in [0u32, 1, 0x8000_0003, 0x7C00_0000, 0x1234_5678] {
        assert_eq!((-(-r32(b))).to_bits(), b);
    }
}

#[test]
fn arithmetic_values() {
    let half = r32::from_parts(false, 1, 2);
    let quarter = r32::from_parts(false, 1, 4);
    assert_eq!(half - r32::from_parts(false, 3, 4), r32::from_parts(true, 1, 4));
    assert_eq!(half / quarter, r32(2));
    assert_eq!(half * quarter, r32::from_parts(false, 1, 8));
    assert_eq!(parts(r32::from_parts(false, 2, 3) * r32::from_parts(false, 3, 4)), (false, 1, 2));
}

#[test]
fn add_and_mul_commute() {
    let xs = [r32::from_parts(false, 7, 2), r32::from_parts(true, 22, 7), r32(9), r32(0)];
    for a in xs {
        for b in xs {
            assert_eq!((a + b).to_bits(), (b + a).to_bits());
            assert_eq!((a * b).to_bits(), (b * a).to_bits());
        }
    }
}

#[test]
fn remainder() {
    let seven_halves = r32::from_parts(false, 7, 2);
    assert_eq!(seven_halves % r32(1), r32::from_parts(false, 1, 2));
    assert_eq!(-seven_halves % r32(1), r32::from_parts(true, 1, 2));
    assert_eq!(seven_halves % r32::from_parts(false, 3, 2), r32::from_parts(false, 1, 2));
    assert_eq!(seven_halves % -r32(2), r32::from_parts(false, 3, 2));
}

#[test]
fn checked_and_overflowing() {
    let big = r32(1 << 25);
    assert_eq!(big.checked_add(big), None);
    assert!(big.overflowing_add(big).1);
    assert_eq!(big.checked_mul(big), None);
    assert!(big.overflowing_mul(big).1);
    assert_eq!(big.checked_sub(-big), None);
    assert!(big.overflowing_sub(-big).1);
    assert_eq!(r32(2).checked_add(r32(3)), Some(r32(5)));
    assert_eq!(r32(2).overflowing_add(r32(3)), (r32(5), false));
    assert_eq!(r32(2).checked_mul(r32(3)), Some(r32(6)));
    assert_eq!(r32(2).checked_sub(r32(3)), Some(-r32(1)));
    assert_eq!(r32(2).overflowing_mul(r32(3)).0, r32(6));
    assert_eq!(r32(1).checked_div(r32(0)), None);
    assert_eq!(r32(1).checked_div(r32::nan()), None);
    assert_eq!(r32(1).checked_div(r32::min_positive()), None);
    assert_eq!(r32(1).checked_div(r32(4)), Some(r32::from_parts(false, 1, 4)));
    assert_eq!(big.overflowing_div(r32::from_parts(false, 1, 4)), (big, true));
    assert_eq!(r32(3).overflowing_div(r32(4)), (r32::from_parts(false, 3, 4), false));
    assert_eq!(r32(3).checked_rem(r32(0)), None);
    assert_eq!(r32(3).checked_rem(r32(2)), Some(r32(1)));
    assert_eq!(r32(3).overflowing_rem(r32(2)), (r32(1), false));
    // a remainder whose denominator does not fit
    let a = r32::from_parts(false, 1, 8191);
    let b = r32::from_parts(false, 1, 8193);
    assert_eq!(a.checked_rem(b), None);
    assert_eq!(a.overflowing_rem(b), (r32(0), true));
}

#[test]
fn powers() {
    let x = r32::from_parts(false, 2, 3);
    assert_eq!(x.pow(2), r32::from_parts(false, 4, 9));
    assert_eq!(x.pow(-2), r32::from_parts(false, 9, 4));
    assert_eq!(x.pow(0), r32(1));
    assert_eq!((-x).pow(3), r32::from_parts(true, 8, 27));
}

#[test]
fn max_and_min() {
    let nan = r32::nan();
    assert_eq!(nan.max(r32(1)).to_bits(), r32(1).to_bits());
    assert_eq!(r32(1).max(nan).to_bits(), r32(1).to_bits());
    assert!(nan.max(nan).is_nan());
    assert_eq!(nan.min(r32(1)).to_bits(), r32(1).to_bits());
    assert_eq!(r32(1).min(nan).to_bits(), r32(1).to_bits());
    assert_eq!(r32(1).max(r32(2)), r32(2));
    assert_eq!(r32(1).min(r32(2)), r32(1));
    assert_eq!(r32(2).max(r32(1)), r32(2));
}

#[test]
fn equality_is_equality_of_values() {
    assert_eq!(r32::from_parts(false, 2, 4), r32::from_parts(false, 1, 2));
    assert_ne!(r32::from_parts(false, 2, 4), r32::from_parts(true, 1, 2));
    assert_eq!(r32::from_parts(true, 0, 3), r32(0));
    assert_eq!(r32::nan(), r32::nan());
    assert_eq!(r32::nan(), r32(0));
    assert_ne!(r32::nan(), r32(1));
}

#[test]
fn ordering() {
    let half = r32::from_parts(false, 1, 2);
    let two_thirds = r32::from_parts(false, 2, 3);
    assert_eq!(half.partial_cmp(&two_thirds), Some(Ordering::Less));
    assert_eq!(two_thirds.partial_cmp(&half), Some(Ordering::Greater));
    assert_eq!(half.partial_cmp(&r32::from_parts(false, 2, 4)), Some(Ordering::Equal));
    assert_eq!(r32::nan().partial_cmp(&r32(1)), None);
    assert_eq!(r32::nan().partial_cmp(&r32::nan()), Some(Ordering::Equal));
    assert_eq!((-half).partial_cmp(&half), Some(Ordering::Less));
}

#[test]
fn conversions() {
    assert_eq!(r32::from(-128i8), -r32(128));
    assert_eq!(r32::from(127i8), r32(127));
    assert_eq!(r32::from(-32768i16), -r32(32768));
    assert_eq!(r32::from(255u8), r32(255));
    assert_eq!(r32::from(65535u16), r32(65535));
}

#[test]
fn parse_errors() {
    assert_eq!(r32::parse(""), err(RatioErrKind::Empty));
    assert_eq!(r32::parse("abc"), err(RatioErrKind::Invalid));
    assert_eq!(r32::parse("1/"), err(RatioErrKind::Invalid));
    assert_eq!(r32::parse("/2"), err(RatioErrKind::Invalid));
    assert_eq!(r32::parse("1/0"), err(RatioErrKind::Invalid));
    assert_eq!(r32::parse(" 1"), err(RatioErrKind::Invalid));
    assert_eq!(r32::parse("1 "), err(RatioErrKind::Invalid));
    assert_eq!(r32::parse("1/2 "), err(RatioErrKind::Invalid));
    assert_eq!(r32::parse("+-1"), err(RatioErrKind::Invalid));
    assert_eq!(r32::parse("-"), err(RatioErrKind::Invalid));
    assert_eq!(r32::parse("99999999999"), err(RatioErrKind::Overflow));
    assert_eq!(r32::parse("67108864"), err(RatioErrKind::Overflow));
    assert_eq!(r32::parse("3/67108864"), err(RatioErrKind::Overflow));
    assert_eq!(r32::parse("1/134217728"), err(RatioErrKind::Overflow));
}

#[test]
fn parse_values() {
    assert_eq!(r32::parse("67108863"), Ok(r32::max_value()));
    assert_eq!(parts(r32::parse("-157/50").unwrap()), (true, 157, 50));
    assert_eq!(parts(r32::parse("1/67108864").unwrap()), (false, 1, 67108864));
    assert_eq!(parts(r32::parse("1/134217727").unwrap()), (false, 1, 134217727));
    assert_eq!(r32::parse("0/67108864").unwrap(), r32(0));
    assert!(r32::parse("NaN").unwrap().is_nan());
    assert_eq!(r32::parse("-+1"), Ok(-r32(1)));
    assert_eq!(parts(r32::parse("2/4").unwrap()), (false, 2, 4));
    assert_eq!("25".parse::<r32>(), "25/1".parse::<r32>());
}

#[test]
fn text() {
    assert_eq!(r32::from_parts(false, 3, 2).debug_string(), "3/2");
    assert_eq!(r32::from_parts(false, 4, 2).debug_string(), "4/2");
    assert_eq!(r32::from_parts(false, 4, 2).display_string(), "2");
    assert_eq!(r32::from_parts(true, 0, 5).display_string(), "0");
    assert_eq!(r32::min_positive().display_string(), "1/134217727");
    assert_eq!(r32::min_value().display_string(), "-67108863");
}

#[test]
fn display_reads_back() {
    let xs = [
        r32::from_parts(false, 4, 2),
        r32::from_parts(true, 22, 7),
        r32::min_positive(),
        r32::min_value(),
        r32::from_parts(true, 0, 9),
        r32::from_parts(false, 1, 67108864),
    ];
    for x in xs {
        assert_eq!(r32::parse(&x.display_string()).unwrap().to_bits(), x.simplify().to_bits());
    }
    assert!(r32::parse(&r32::nan().display_string()).unwrap().is_nan());
}

#[test]
fn times_reciprocal_is_one() {
    for x in [r32::from_parts(false, 7, 2), r32::from_parts(true, 22, 7), r32(9), r32::from_parts(false, 6, 4)] {
        assert_eq!((x * x.recip()).to_bits(), r32(1).to_bits());
    }
}

#[test]
fn simplify_is_idempotent() {
    for x in [r32::from_parts(false, 6, 4), r32::from_parts(true, 9, 3), r32(0), -r32(0), r32::nan()] {
        assert_eq!(x.simplify().simplify().to_bits(), x.simplify().to_bits());
        assert_eq!(x.simplify(), x);
    }
}

#[test]
fn abs_ignores_sign() {
    for x in [r32::from_parts(false, 6, 4), r32::from_parts(true, 9, 3), r32::nan()] {
        assert_eq!(x.abs().abs().to_bits(), x.abs().to_bits());
        assert_eq!((-x).abs().to_bits(), x.abs().to_bits());
    }
}

#[test]
fn whitespace_is_refused() {
    for s in [" 1", "1 ", "\t1/2", "1/2\n", " ", "-1 "] {
        assert!(r32::parse(s).is_err());
    }
}

#[test]
fn wrapped_values() {
    let big = r32(1 << 25);
    // 2^26 / 1 keeps the low 26 bits of its numerator
    assert_eq!(big.overflowing_add(big), (r32(0), true));
    assert_eq!(big.overflowing_mul(r32(3)).0.to_bits(), (3u32 << 25) & 0x03FF_FFFF);
    // 1 / 2^52 has no denominator bits left in 32 bits
    let tiny = r32::from_parts(false, 1, 1 << 26);
    let (w, overflow) = tiny.overflowing_mul(tiny);
    assert!(overflow);
    assert!(w.is_nan());
}

#[test]
fn max_and_min_of_negatives() {
    let a = -r32(1);
    let b = -r32(2);
    assert_eq!(a.max(b).to_bits(), a.to_bits());
    assert_eq!(b.max(a).to_bits(), a.to_bits());
    assert_eq!(a.min(b).to_bits(), b.to_bits());
    assert_eq!(b.min(a).to_bits(), b.to_bits());
    let h = r32::from_parts(true, 1, 2);
    assert_eq!(h.max(r32(0)).to_bits(), r32(0).to_bits());
    assert_eq!(h.min(r32(0)).to_bits(), h.to_bits());
    // equal values keep `self`
    let z = -r32(0);
    assert_eq!(z.max(r32(0)).to_bits(), z.to_bits());
    assert_eq!(r32(0).min(z).to_bits(), 0);
    assert_eq!(r32::from_parts(false, 2, 4).max(r32::from_parts(false, 1, 2)).to_bits(),
        r32::from_parts(false, 2, 4).to_bits());
}

#[test]
fn ordering_of_negatives() {
    assert!(-r32(2) < -r32(1));
    assert!(-r32(1) > -r32(2));
    assert!(-r32(1) < -r32(0));
    assert!(-r32(1) < r32(0));
    assert_eq!((-r32(0)).partial_cmp(&r32(0)), Some(Ordering::Equal));
    assert!(r32::from_parts(true, 3, 2) < r32::from_parts(true, 1, 2));
    assert_eq!(r32::from_parts(true, 2, 4).partial_cmp(&r32::from_parts(true, 1, 2)), Some(Ordering::Equal));
    // `<` agrees with `max` and `min`
    let (a, b) = (-r32(1), -r32(2));
    assert!(b < a && a.max(b) == a && a.min(b) == b);
}

#[test]
fn powers_have_powered_values() {
    let x = r32::from_parts(true, 3, 2);
    assert_eq!(x.pow(3), r32::from_parts(true, 27, 8));
    assert_eq!(x.pow(-3), r32::from_parts(true, 8, 27));
    assert_eq!(x.pow(2), r32::from_parts(false, 9, 4));
}
