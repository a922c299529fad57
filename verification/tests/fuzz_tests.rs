use fuzzy::common::FuzzyError;
use fuzzy::common::FuzzyResult;
use fuzzy::defuzz::cog;
use fuzzy::fuzz::Fuzzer;
use fuzzy::fuzz::FuzzyRule;
use fuzzy::rat::Rat;
use fuzzy::set::FuzzySet;
use fuzzy::set::Point;

fn r(n: i64, d: i64) -> Rat {
    Rat::new(n, d).unwrap()
}

fn pt(xn: i64, xd: i64, yn: i64, yd: i64) -> Point {
    Point { x: r(xn, xd), y: r(yn, yd) }
}

fn ident(c: &str, t: &str) -> (String, String) {
    (String::from(c), String::from(t))
}

fn and_rule(ants: Vec<(&str, &str)>, out: (&str, &str)) -> FuzzyRule {
    FuzzyRule::And(
        ants.into_iter().map(|(c, t)| ident(c, t)).collect(),
        ident(out.0, out.1),
    )
}

#[test]
fn test_macros() -> () {
    assert_eq!(
        FuzzyRule::Unit(ident("loudness", "quiet"), ident("change", "keep")),
        FuzzyRule::Unit(ident("loudness", "quiet"), ident("change", "keep"))
    );
    assert_eq!(
        and_rule(
            vec![("loudness", "quiet"), ("tod", "morning"), ("param1", "param2")],
            ("change", "vol up")
        ),
        FuzzyRule::And(
            vec![
                ident("loudness", "quiet"),
                ident("tod", "morning"),
                ident("param1", "param2")
            ],
            ident("change", "vol up")
        )
    );
    assert_eq!(
        FuzzyRule::Or(
            vec![ident("loudness", "quiet"), ident("tod", "morning")],
            ident("change", "vol up")
        ),
        FuzzyRule::Or(
            vec![ident("loudness", "quiet"), ident("tod", "morning")],
            ident("change", "vol up")
        )
    );
    assert_eq!(
        and_rule(vec![("param1", "param2")], ("change", "vol up")),
        FuzzyRule::And(vec![ident("param1", "param2")], ident("change", "vol up"))
    );
}

fn loudness_set() -> FuzzyResult<FuzzySet> {
    FuzzySet::new()
        .term(
            String::from("very quiet"),
            vec![pt(0, 1, 1, 1), pt(10, 1, 1, 1), pt(20, 1, 1, 2), pt(30, 1, 0, 1)],
        )?
        .term(
            String::from("quiet"),
            vec![
                pt(10, 1, 0, 1),
                pt(20, 1, 1, 2),
                pt(30, 1, 1, 1),
                pt(40, 1, 1, 1),
                pt(50, 1, 1, 2),
                pt(60, 1, 0, 1),
            ],
        )?
        .term(
            String::from("loud"),
            vec![
                pt(40, 1, 0, 1),
                pt(50, 1, 1, 2),
                pt(60, 1, 1, 1),
                pt(70, 1, 1, 1),
                pt(80, 1, 1, 2),
                pt(90, 1, 0, 1),
            ],
        )?
        .term(
            String::from("very loud"),
            vec![pt(70, 1, 0, 1), pt(80, 1, 1, 2), pt(90, 1, 1, 1), pt(100, 1, 1, 1)],
        )
}

fn tod_set() -> FuzzyResult<FuzzySet> {
    FuzzySet::new()
        .term(
            String::from("morning"),
            vec![
                pt(1, 1, 0, 1),
                pt(3, 1, 1, 2),
                pt(5, 1, 1, 1),
                pt(7, 1, 1, 1),
                pt(9, 1, 1, 2),
                pt(11, 1, 0, 1),
            ],
        )?
        .term(
            String::from("noon"),
            vec![
                pt(7, 1, 0, 1),
                pt(9, 1, 1, 2),
                pt(11, 1, 1, 1),
                pt(13, 1, 1, 1),
                pt(15, 1, 1, 2),
                pt(17, 1, 0, 1),
            ],
        )?
        .term(
            String::from("evening"),
            vec![
                pt(13, 1, 0, 1),
                pt(15, 1, 1, 2),
                pt(17, 1, 1, 1),
                pt(19, 1, 1, 1),
                pt(21, 1, 1, 2),
                pt(23, 1, 0, 1),
            ],
        )?
        .term(
            String::from("night"),
            vec![
                pt(0, 1, 1, 1),
                pt(1, 1, 1, 1),
                pt(3, 1, 1, 2),
                pt(5, 1, 0, 1),
                pt(19, 1, 0, 1),
                pt(21, 1, 1, 2),
                pt(23, 1, 1, 1),
            ],
        )
}

fn change_set() -> FuzzyResult<FuzzySet> {
    FuzzySet::new()
        .term(
            String::from("vol down"),
            vec![pt(0, 1, 1, 1), pt(2, 1, 1, 1), pt(3, 1, 1, 2), pt(4, 1, 0, 1), pt(7, 1, 0, 1)],
        )?
        .term(
            String::from("keep"),
            vec![
                pt(2, 1, 0, 1),
                pt(3, 1, 1, 2),
                pt(4, 1, 1, 1),
                pt(6, 1, 1, 1),
                pt(7, 1, 1, 2),
                pt(8, 1, 0, 1),
            ],
        )?
        .term(
            String::from("vol up"),
            vec![pt(3, 1, 0, 1), pt(6, 1, 0, 1), pt(7, 1, 1, 2), pt(8, 1, 1, 1), pt(10, 1, 1, 1)],
        )
}

#[test]
fn test_fuzzer() -> FuzzyResult<()> {
    let fuzzer = Fuzzer::new()
        .fuzzify(String::from("loudness"), loudness_set()?)
        .fuzzify(String::from("tod"), tod_set()?)
        .defuzzify(String::from("change"), change_set()?)
        .rule(and_rule(vec![("loudness", "very quiet"), ("tod", "morning")], ("change", "vol up")))
        .rule(and_rule(vec![("loudness", "quiet"), ("tod", "morning")], ("change", "keep")))
        .rule(and_rule(vec![("loudness", "loud"), ("tod", "morning")], ("change", "keep")))
        .rule(and_rule(vec![("loudness", "very loud"), ("tod", "morning")], ("change", "vol down")))
        .rule(and_rule(vec![("loudness", "very quiet"), ("tod", "noon")], ("change", "vol up")))
        .rule(and_rule(vec![("loudness", "quiet"), ("tod", "noon")], ("change", "vol up")))
        .rule(and_rule(vec![("loudness", "loud"), ("tod", "noon")], ("change", "keep")))
        .rule(and_rule(vec![("loudness", "very loud"), ("tod", "noon")], ("change", "vol down")))
        .rule(and_rule(vec![("loudness", "very quiet"), ("tod", "evening")], ("change", "vol up")))
        .rule(and_rule(vec![("loudness", "quiet"), ("tod", "evening")], ("change", "keep")))
        .rule(and_rule(vec![("loudness", "loud"), ("tod", "evening")], ("change", "vol down")))
        .rule(and_rule(vec![("loudness", "very loud"), ("tod", "evening")], ("change", "vol down")))
        .rule(and_rule(vec![("loudness", "very quiet"), ("tod", "night")], ("change", "vol up")))
        .rule(and_rule(vec![("loudness", "quiet"), ("tod", "night")], ("change", "keep")))
        .rule(and_rule(vec![("loudness", "loud"), ("tod", "night")], ("change", "vol down")))
        .rule(and_rule(vec![("loudness", "very loud"), ("tod", "night")], ("change", "vol down")));

    let input = vec![
        (String::from("loudness"), r(60, 1)),
        (String::from("tod"), r(21, 1)),
    ];
    let results = fuzzer.apply(&input)?;
    let change = results
        .iter()
        .find(|(k, _)| k == "change")
        .map(|(_, s)| s.clone())
        .unwrap();
    let points = change.points(&String::from("out"))?;
    assert_eq!(
        points,
        &vec![
            pt(2, 1, 1, 2),
            pt(3, 1, 1, 2),
            pt(4, 1, 0, 1),
            pt(7, 1, 0, 1),
            pt(8, 1, 0, 1),
            pt(10, 1, 0, 1),
        ]
    );
    let c = cog(points)?;
    assert_eq!(c, r(25, 9));
    Ok(())
}

#[test]
fn test_rule_connectives() -> FuzzyResult<()> {
    // Antecedents sampled at 0.3 and 0.7: And = 0.3, Or = 0.7, Unit = its
    // single degree.
    let ramp_a = FuzzySet::new().term(
        String::from("t"),
        vec![pt(0, 1, 0, 1), pt(10, 1, 1, 1)],
    )?;
    let ramp_b = FuzzySet::new().term(
        String::from("u"),
        vec![pt(0, 1, 0, 1), pt(10, 1, 1, 1)],
    )?;
    let fuzzer = Fuzzer::new()
        .fuzzify(String::from("a"), ramp_a)
        .fuzzify(String::from("b"), ramp_b);
    let values = vec![(String::from("a"), r(3, 1)), (String::from("b"), r(7, 1))];

    let and_r = FuzzyRule::And(vec![ident("a", "t"), ident("b", "u")], ident("o", "x"));
    let (_, _, y) = and_r.apply(&fuzzer, &values)?;
    assert_eq!(y, r(3, 10));

    let or_r = FuzzyRule::Or(vec![ident("a", "t"), ident("b", "u")], ident("o", "x"));
    let (_, _, y) = or_r.apply(&fuzzer, &values)?;
    assert_eq!(y, r(7, 10));

    let unit_r = FuzzyRule::Unit(ident("b", "u"), ident("o", "x"));
    let (_, _, y) = unit_r.apply(&fuzzer, &values)?;
    assert_eq!(y, r(7, 10));
    Ok(())
}

#[test]
fn test_unregistered_output_category() -> FuzzyResult<()> {
    let set = FuzzySet::new().term(String::from("t"), vec![pt(0, 1, 0, 1), pt(10, 1, 1, 1)])?;
    let fuzzer = Fuzzer::new()
        .fuzzify(String::from("in"), set)
        .rule(FuzzyRule::Unit(ident("in", "t"), ident("nope", "x")));
    let values = vec![(String::from("in"), r(5, 1))];
    assert_eq!(
        fuzzer.apply(&values),
        Err(FuzzyError::InvalidCategory(String::from("nope")))
    );
    Ok(())
}

#[test]
fn test_unregistered_input_term() -> FuzzyResult<()> {
    let set = FuzzySet::new().term(String::from("t"), vec![pt(0, 1, 0, 1), pt(10, 1, 1, 1)])?;
    let out = FuzzySet::new().term(String::from("x"), vec![pt(0, 1, 0, 1), pt(10, 1, 1, 1)])?;
    let fuzzer = Fuzzer::new()
        .fuzzify(String::from("in"), set)
        .defuzzify(String::from("o"), out)
        .rule(FuzzyRule::Unit(ident("in", "missing"), ident("o", "x")));
    let values = vec![(String::from("in"), r(5, 1))];
    assert_eq!(
        fuzzer.apply(&values),
        Err(FuzzyError::InvalidTerm(String::from("missing")))
    );
    Ok(())
}

#[test]
fn test_unregistered_input_category() -> FuzzyResult<()> {
    let fuzzer = Fuzzer::new().rule(FuzzyRule::Unit(ident("in", "t"), ident("o", "x")));
    let values: Vec<(String, Rat)> = Vec::new();
    assert_eq!(
        fuzzer.apply(&values),
        Err(FuzzyError::InvalidCategory(String::from("in")))
    );
    Ok(())
}
