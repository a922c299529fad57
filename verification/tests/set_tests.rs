use fuzzy::common::FuzzyError;
use fuzzy::common::FuzzyResult;
use fuzzy::rat::Rat;
use fuzzy::set::FuzzySet;
use fuzzy::set::Point;

fn r(n: i64, d: i64) -> Rat {
    Rat::new(n, d).unwrap()
}

fn pt(xn: i64, xd: i64, yn: i64, yd: i64) -> Point {
    Point { x: r(xn, xd), y: r(yn, yd) }
}

fn loudness() -> FuzzyResult<FuzzySet> {
    FuzzySet::new()
        .term(
            String::from("very quiet"),
            vec![pt(0, 1, 1, 1), pt(10, 1, 1, 1), pt(20, 1, 1, 2), pt(30, 1, 0, 1)],
        )?
        .term(
            String::from("quiet"),
            vec![
                pt(10, 1, 0, 1),
                pt(20, 1, 1, 2),
                pt(30, 1, 1, 1),
                pt(40, 1, 1, 1),
                pt(50, 1, 1, 2),
                pt(60, 1, 0, 1),
            ],
        )?
        .term(
            String::from("loud"),
            vec![
                pt(40, 1, 0, 1),
                pt(50, 1, 1, 2),
                pt(60, 1, 1, 1),
                pt(70, 1, 1, 1),
                pt(80, 1, 1, 2),
                pt(90, 1, 0, 1),
            ],
        )?
        .term(
            String::from("very loud"),
            vec![pt(70, 1, 0, 1), pt(80, 1, 1, 2), pt(90, 1, 1, 1), pt(100, 1, 1, 1)],
        )
}

fn get(ys: &[(String, Rat)], name: &str) -> Option<Rat> {
    ys.iter().find(|(k, _)| k == name).map(|(_, v)| *v)
}

#[test]
fn test_call() -> FuzzyResult<()> {
    let set = loudness()?;
    assert_eq!(get(&set.call(&r(20, 1))?, "very quiet"), Some(r(1, 2)));
    assert_eq!(get(&set.call(&r(20, 1))?, "quiet"), Some(r(1, 2)));
    assert_eq!(get(&set.call(&r(30, 1))?, "very quiet"), Some(r(0, 1)));
    assert_eq!(get(&set.call(&r(-30, 1))?, "very quiet"), Some(r(1, 1)));
    assert_eq!(get(&set.call(&r(130, 1))?, "very quiet"), Some(r(0, 1)));
    assert_eq!(get(&set.call(&r(130, 1))?, "very loud"), Some(r(1, 1)));
    assert_eq!(get(&set.call(&r(130, 1))?, "loud"), Some(r(0, 1)));
    assert_eq!(get(&set.call(&r(90, 1))?, "loud"), Some(r(0, 1)));
    assert_eq!(get(&set.call(&r(90, 1))?, "very loud"), Some(r(1, 1)));
    assert_eq!(get(&set.call(&r(25, 1))?, "very quiet"), Some(r(1, 4)));
    Ok(())
}

#[test]
fn test_threshold() -> FuzzyResult<()> {
    Ok(())
}

#[test]
fn test_fuzzy_macro() -> () {
    assert_eq!(
        FuzzySet::new()
            .term(String::from("term1"), vec![pt(1, 1, 1, 1), pt(2, 1, 2, 1)])
            .and_then(|s| s.term(String::from("term2"), vec![pt(0, 1, 1, 2)])),
        Err(FuzzyError::InvalidPoints)
    );
    assert_eq!(
        FuzzySet::new().term(String::from("term1"), vec![pt(1, 1, 1, 1), pt(0, 1, 2, 1)]),
        FuzzySet::new().term(String::from("term1"), vec![pt(0, 1, 2, 1), pt(1, 1, 1, 1)])
    );
    assert_eq!(FuzzySet::new(), FuzzySet::new());
}

#[test]
fn test_single_term_eval() -> FuzzyResult<()> {
    // The "very quiet" scenario: interpolation, and flat extrapolation on
    // both sides of the domain.
    let set = FuzzySet::new().term(
        String::from("very quiet"),
        vec![pt(0, 1, 1, 1), pt(10, 1, 1, 1), pt(20, 1, 1, 2), pt(30, 1, 0, 1)],
    )?;
    let name = String::from("very quiet");
    assert_eq!(set.call_single(&name, &r(25, 1))?, r(1, 4));
    assert_eq!(set.call_single(&name, &r(-30, 1))?, r(1, 1));
    assert_eq!(set.call_single(&name, &r(130, 1))?, r(0, 1));
    Ok(())
}

#[test]
fn test_threshold_left_boundary_run() -> FuzzyResult<()> {
    // Clipping at 0.7 replaces the left plateau with the exact crossing.
    let name = String::from("t");
    let mut set = FuzzySet::new().term(
        name.clone(),
        vec![pt(0, 1, 1, 1), pt(10, 1, 1, 1), pt(20, 1, 1, 2), pt(30, 1, 0, 1)],
    )?;
    set.apply_threshold(&name, &r(7, 10))?;
    let ps = set.points(&name)?;
    assert_eq!(ps.len(), 3);
    assert_eq!(ps[0], pt(16, 1, 7, 10));
    assert_eq!(ps[1], pt(20, 1, 1, 2));
    assert_eq!(ps[2], pt(30, 1, 0, 1));
    Ok(())
}

#[test]
fn test_threshold_above_max_unchanged() -> FuzzyResult<()> {
    let name = String::from("t");
    let pts = vec![pt(0, 1, 0, 1), pt(10, 1, 1, 2), pt(20, 1, 0, 1)];
    let mut set = FuzzySet::new().term(name.clone(), pts.clone())?;
    set.apply_threshold(&name, &r(9, 10))?;
    assert_eq!(set.points(&name)?, &pts);
    Ok(())
}

#[test]
fn test_threshold_below_min_collapses() -> FuzzyResult<()> {
    let name = String::from("t");
    let mut set = FuzzySet::new().term(
        name.clone(),
        vec![pt(0, 1, 1, 2), pt(10, 1, 1, 1), pt(20, 1, 3, 4)],
    )?;
    set.apply_threshold(&name, &r(1, 4))?;
    assert_eq!(set.points(&name)?, &vec![pt(0, 1, 1, 4), pt(20, 1, 1, 4)]);
    Ok(())
}

#[test]
fn test_threshold_idempotent() -> FuzzyResult<()> {
    let name = String::from("t");
    let mut set = FuzzySet::new().term(
        name.clone(),
        vec![pt(0, 1, 0, 1), pt(10, 1, 1, 1), pt(20, 1, 0, 1), pt(30, 1, 1, 1), pt(40, 1, 0, 1)],
    )?;
    set.apply_threshold(&name, &r(1, 2))?;
    let once = set.points(&name)?.clone();
    set.apply_threshold(&name, &r(1, 2))?;
    assert_eq!(set.points(&name)?, &once);
    Ok(())
}

#[test]
fn test_term_roundtrip_sorted() -> FuzzyResult<()> {
    // Points come back sorted by x, same values.
    let name = String::from("t");
    let set = FuzzySet::new().term(
        name.clone(),
        vec![pt(30, 1, 0, 1), pt(0, 1, 1, 1), pt(20, 1, 1, 2), pt(10, 1, 1, 1)],
    )?;
    let ps = set.points(&name)?;
    assert_eq!(
        ps,
        &vec![pt(0, 1, 1, 1), pt(10, 1, 1, 1), pt(20, 1, 1, 2), pt(30, 1, 0, 1)]
    );
    Ok(())
}

#[test]
fn test_too_few_points_rejected() {
    assert_eq!(
        FuzzySet::new().term(String::from("t"), vec![pt(0, 1, 1, 1)]),
        Err(FuzzyError::InvalidPoints)
    );
}

#[test]
fn test_missing_term_rejected() -> FuzzyResult<()> {
    let set = FuzzySet::new().term(String::from("t"), vec![pt(0, 1, 1, 1), pt(1, 1, 0, 1)])?;
    assert_eq!(
        set.points(&String::from("nope")),
        Err(FuzzyError::InvalidTerm(String::from("nope")))
    );
    assert_eq!(
        set.call_single(&String::from("nope"), &r(0, 1)),
        Err(FuzzyError::InvalidTerm(String::from("nope")))
    );
    Ok(())
}
