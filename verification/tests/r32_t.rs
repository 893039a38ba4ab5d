use floating_bar::r32;

#[test]
fn simplify() {
    assert_eq!(r32::from_parts(false, 4, 2).simplify(), r32::from_parts(false, 2, 1));
    assert_eq!(r32::from_parts(true, 4, 2).simplify(), r32::from_parts(true, 2, 1));
}

#[test]
fn neg() {
    assert_eq!((-r32(0)).0, 0x8000_0000);
    assert_eq!((-r32(0x8000_0000)).0, 0);
}

#[test]
fn signum() {
    assert_eq!(r32(0).signum(), r32(0));
    assert_eq!(r32(0x8000_0000).signum(), r32(0));
    assert_eq!(r32(1).signum(), r32(1));
    assert_eq!(r32(2).signum(), r32(1));
    assert_eq!(r32::from_parts(true, 1, 1).signum(), r32::from_parts(true, 1, 1));
    assert_eq!(r32::from_parts(true, 2, 1).signum(), r32::from_parts(true, 1, 1));
}

#[test]
fn fract() {
    assert_eq!(r32(5).fract(), r32(0));
    assert_eq!(r32::from_parts(false, 3, 2).fract(), r32::from_parts(false, 1, 2));
    assert_eq!(r32::from_parts(true, 3, 2).fract(), r32::from_parts(true, 1, 2));
}

#[test]
fn trunc() {
    assert_eq!(r32(5).trunc(), r32(5));
    assert_eq!(r32::from_parts(false, 3, 2).trunc(), r32(1));
    assert_eq!(r32::from_parts(true, 3, 2).trunc(), r32::from(-1 as i8));
}

#[test]
fn recip() {
    assert_eq!(r32(5).recip(), r32::from_parts(false, 1, 5));
    assert_eq!(r32::from_parts(false, 5, 2).recip(), r32::from_parts(false, 2, 5));
    assert_eq!(r32(1).recip(), r32(1));
}

#[test]
fn cmp() {
    assert!(r32(0) == r32(0));
    assert!(r32(0) == -r32(0));

    assert!(r32(0) < r32(1));
    assert!(r32(2) < r32(3));
    assert!(r32(0) > -r32(1));
    assert!(r32(2) > -r32(3));
}

#[test]
fn mul() {
    assert_eq!(r32(0) * r32(0), r32(0));

    assert_eq!(r32(0) * r32(1), r32(0));
    assert_eq!(r32(1) * r32(0), r32(0));
    assert_eq!(r32(1) * r32(1), r32(1));

    assert_eq!(-r32(1) * r32(1), -r32(1));
    assert_eq!(r32(1) * -r32(1), -r32(1));
    assert_eq!(-r32(1) * -r32(1), r32(1));

    assert_eq!(r32(1) * r32(2), r32(2));
    assert_eq!(r32(2) * r32(2), r32(4));

    assert_eq!(
        r32::from_parts(false, 1, 2) * r32::from_parts(false, 1, 2),
        r32::from_parts(false, 1, 4)
    );
    assert_eq!(
        r32::from_parts(true, 1, 2) * r32::from_parts(false, 1, 2),
        r32::from_parts(true, 1, 4)
    );
    assert_eq!(
        r32::from_parts(false, 2, 3) * r32::from_parts(false, 2, 3),
        r32::from_parts(false, 4, 9)
    );
    assert_eq!(
        r32::from_parts(false, 3, 2) * r32::from_parts(false, 2, 3),
        r32(1)
    );
}

#[test]
fn div() {
    assert_eq!(r32(0) / r32(1), r32(0));
    assert_eq!(r32(0) / r32(2), r32(0));
    assert_eq!(r32(1) / r32(1), r32(1));

    assert_eq!(-r32(1) / r32(1), -r32(1));
    assert_eq!(r32(1) / -r32(1), -r32(1));
    assert_eq!(-r32(1) / -r32(1), r32(1));

    assert_eq!(r32(1) / r32(2), r32::from_parts(false, 1, 2));
    assert_eq!(r32(2) / r32(1), r32(2));
    assert_eq!(r32(2) / r32(2), r32(1));
}

#[test]
fn add() {
    assert_eq!(r32(0) + r32(0), r32(0));
    assert_eq!(-r32(0) + r32(0), r32(0));

    assert_eq!(r32(1) + r32(1), r32(2));
    assert_eq!(r32(1) + -r32(1), r32(0));
    assert_eq!(-r32(1) + r32(1), r32(0));
    assert_eq!(-r32(1) + -r32(1), -r32(2));

    assert_eq!(r32(2) + r32(2), r32(4));
    assert_eq!(
        r32::from_parts(false, 1, 2) + r32::from_parts(false, 3, 4),
        r32::from_parts(false, 5, 4)
    );
    assert_eq!(
        r32::from_parts(false, 1, 2) + r32::from_parts(true, 3, 4),
        r32::from_parts(true, 1, 4)
    );
    assert_eq!(
        r32::from_parts(true, 1, 2) + r32::from_parts(false, 3, 4),
        r32::from_parts(false, 1, 4)
    );
}

#[test]
fn from_str() {
    assert_eq!("0".parse::<r32>().unwrap(), r32(0));
    assert_eq!("1".parse::<r32>().unwrap(), r32(1));
    assert_eq!("+1".parse::<r32>().unwrap(), r32(1));
    assert_eq!("-1".parse::<r32>().unwrap(), r32::from(-1 as i8));
    assert_eq!("1/1".parse::<r32>().unwrap(), r32(1));
}

#[test]
fn debug() {
    assert_eq!(r32::from_parts(true, 0, 1).debug_string(), "-0/1");
    assert_eq!(r32::nan().debug_string(), "NaN");
}

#[test]
fn display() {
    assert_eq!(r32::from_parts(false, 0, 1).display_string(), "0");
    assert_eq!(r32::nan().display_string(), "NaN");
    assert_eq!(r32::from_parts(true, 3, 2).display_string(), "-3/2");
}
