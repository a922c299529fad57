use fuzzy::common::FuzzyError;
use fuzzy::common::FuzzyResult;
use fuzzy::defuzz::cog;
use fuzzy::rat::Rat;
use fuzzy::set::Point;

fn r(n: i64, d: i64) -> Rat {
    Rat::new(n, d).unwrap()
}

fn pt(xn: i64, xd: i64, yn: i64, yd: i64) -> Point {
    Point { x: r(xn, xd), y: r(yn, yd) }
}

#[test]
fn test_cog_flat_curve_is_midpoint() -> FuzzyResult<()> {
    // A flat plateau is symmetric about its middle.
    assert_eq!(cog(&vec![pt(0, 1, 1, 1), pt(10, 1, 1, 1)])?, r(5, 1));
    assert_eq!(cog(&vec![pt(2, 1, 1, 2), pt(8, 1, 1, 2)])?, r(5, 1));
    Ok(())
}

#[test]
fn test_cog_rising_segment() -> FuzzyResult<()> {
    // One rising segment: area 1, centroid (2 * 0 + 2) / 3.
    assert_eq!(cog(&vec![pt(0, 1, 0, 1), pt(2, 1, 1, 1)])?, r(2, 3));
    Ok(())
}

#[test]
fn test_cog_trapezoid_exact() -> FuzzyResult<()> {
    // (0,0),(10,1),(20,1),(30,0): areas 5, 10, 5; centroids 10/3, 15, 70/3.
    let expected = r(850, 60);
    assert_eq!(cog(&vec![pt(0, 1, 0, 1), pt(10, 1, 1, 1), pt(20, 1, 1, 1), pt(30, 1, 0, 1)])?, expected);
    Ok(())
}

#[test]
fn test_cog_zero_area_rejected() {
    assert_eq!(
        cog(&vec![pt(0, 1, 0, 1), pt(10, 1, 0, 1)]),
        Err(FuzzyError::InvalidPoints)
    );
}

#[test]
fn test_cog_too_few_points_rejected() {
    assert_eq!(cog(&vec![pt(0, 1, 1, 1)]), Err(FuzzyError::InvalidPoints));
    assert_eq!(cog(&vec![]), Err(FuzzyError::InvalidPoints));
}

#[test]
fn test_cog_unsorted_rejected() {
    assert_eq!(
        cog(&vec![pt(10, 1, 1, 1), pt(0, 1, 1, 1)]),
        Err(FuzzyError::InvalidPoints)
    );
}
