use rmr::change::{
    collect_both_dimensions, get_target_dimensions, parse_dimensions, Change, ChangeError,
};

#[test]
fn change_absolute_must_be_below_the_bound() {
    assert_eq!(Ok(vec![5]), Change::Absolute(5).to_absolutes(10));
    assert_eq!(Ok(vec![0]), Change::Absolute(0).to_absolutes(1));
    assert_eq!(
        Err(ChangeError::OutOfRange { value: 10, bound: 10 }),
        Change::Absolute(10).to_absolutes(10)
    );
    assert_eq!(
        Err(ChangeError::OutOfRange { value: 0, bound: 0 }),
        Change::Absolute(0).to_absolutes(0)
    );
}

#[test]
fn change_delta_is_added_to_the_bound() {
    assert_eq!(Ok(vec![15]), Change::Delta(5).to_absolutes(10));
    assert_eq!(Ok(vec![5]), Change::Delta(-5).to_absolutes(10));
    assert_eq!(Ok(vec![0]), Change::Delta(-10).to_absolutes(10));
    assert_eq!(Ok(vec![10]), Change::Delta(0).to_absolutes(10));
}

#[test]
fn change_delta_wraps_around_the_ends() {
    assert_eq!(Ok(vec![usize::MAX]), Change::Delta(-11).to_absolutes(10));
    assert_eq!(Ok(vec![usize::MAX - 4]), Change::Delta(-5).to_absolutes(0));
    assert_eq!(Ok(vec![4]), Change::Delta(5).to_absolutes(usize::MAX));
    assert_eq!(
        Ok(vec![(isize::MAX as usize) + 1]),
        Change::Delta(isize::MIN).to_absolutes(0)
    );
    assert_eq!(
        Ok(vec![usize::MAX]),
        Change::Delta(isize::MAX).to_absolutes((isize::MAX as usize) + 1)
    );
}

#[test]
fn change_range_steps_from_lo_to_hi() {
    let range = Change::Range { lo: 2, hi: 11, offset: 3 };
    assert_eq!(Ok(vec![2, 5, 8]), range.to_absolutes(100));
    let range = Change::Range { lo: 2, hi: 5, offset: 1 };
    assert_eq!(Ok(vec![2, 3, 4]), range.to_absolutes(0));
    let range = Change::Range { lo: 5, hi: 5, offset: 1 };
    assert_eq!(Ok(vec![]), range.to_absolutes(100));
    let range = Change::Range { lo: -1, hi: 2, offset: 2 };
    assert_eq!(Ok(vec![usize::MAX, 1]), range.to_absolutes(100));
}

#[test]
fn change_range_ends_at_the_greatest_length() {
    let range = Change::Range { lo: isize::MAX - 2, hi: isize::MAX, offset: 5 };
    assert_eq!(Ok(vec![(isize::MAX - 2) as usize]), range.to_absolutes(1));
}

#[test]
fn change_range_downwards_is_empty() {
    let range = Change::Range { lo: 2, hi: 11, offset: -3 };
    assert_eq!(Ok(vec![]), range.to_absolutes(100));
    let range = Change::Range { lo: 2, hi: 2, offset: 0 };
    assert_eq!(Ok(vec![]), range.to_absolutes(100));
}

#[test]
fn change_parse_absolute() {
    assert_eq!(Ok(Change::Absolute(640)), Change::parse("640"));
    assert_eq!(Ok(Change::Absolute(0)), Change::parse("0"));
    assert_eq!(Ok(Change::Absolute(7)), Change::parse("007"));
    assert_eq!(Ok(Change::Absolute(usize::MAX)), Change::parse(&usize::MAX.to_string()));
    assert_eq!(Ok(Change::Absolute(640)), "640".parse());
}

#[test]
fn change_parse_delta() {
    assert_eq!(Ok(Change::Delta(5)), Change::parse("+5"));
    assert_eq!(Ok(Change::Delta(-5)), Change::parse("-5"));
    assert_eq!(Ok(Change::Delta(0)), Change::parse("-0"));
    assert_eq!(Ok(Change::Delta(isize::MAX)), Change::parse(&format!("+{}", isize::MAX)));
    assert_eq!(Ok(Change::Delta(isize::MIN)), Change::parse(&isize::MIN.to_string()));
}

#[test]
fn change_parse_range() {
    assert_eq!(Ok(Change::Range { lo: 1, hi: 5, offset: 1 }), Change::parse("1..5"));
    assert_eq!(Ok(Change::Range { lo: 5, hi: 5, offset: 1 }), Change::parse("5..5"));
    assert_eq!(Ok(Change::Range { lo: 1, hi: 5, offset: -1 }), Change::parse("5..1"));
    assert_eq!(Ok(Change::Range { lo: 1, hi: 9, offset: 2 }), Change::parse("1..+2..9"));
    assert_eq!(Ok(Change::Range { lo: 1, hi: 9, offset: 2 }), Change::parse("1..2..9"));
    assert_eq!(Ok(Change::Range { lo: 1, hi: 9, offset: -2 }), Change::parse("9..-2..1"));
    assert_eq!(Ok(Change::Range { lo: -3, hi: 3, offset: 1 }), Change::parse("-3..3"));
    // What follows a third pair of dots is not read.
    assert_eq!(Ok(Change::Range { lo: 1, hi: 3, offset: 2 }), Change::parse("1..2..3..x"));
}

#[test]
fn change_parse_range_that_never_terminates() {
    assert_eq!(Err(ChangeError::NeverTerminates), Change::parse("1..-2..9"));
    assert_eq!(Err(ChangeError::NeverTerminates), Change::parse("1..0..9"));
    assert_eq!(Err(ChangeError::NeverTerminates), Change::parse("5..0..5"));
    assert_eq!(Err(ChangeError::NeverTerminates), Change::parse("9..2..1"));
    assert_eq!(Err(ChangeError::NeverTerminates), Change::parse("9..0..1"));
}

#[test]
fn change_parse_invalid_number() {
    for text in [
        "", "abc", "1a", " 1", "1 ", "+", "-", "+-1", "1-", "1.5", "1.", "0x10", "..", "1..",
        "..5", "1...5", "1..a", "1..2..", "1..2..c",
    ] {
        assert_eq!(Err(ChangeError::InvalidNumber), Change::parse(text), "{:?}", text);
    }
    let too_big = format!("{}0", usize::MAX);
    assert_eq!(Err(ChangeError::InvalidNumber), Change::parse(&too_big));
    let too_big = format!("+{}0", isize::MAX);
    assert_eq!(Err(ChangeError::InvalidNumber), Change::parse(&too_big));
    let too_small = format!("{}0", isize::MIN);
    assert_eq!(Err(ChangeError::InvalidNumber), Change::parse(&too_small));
    // A difference has the range of `isize`, not of `usize`.
    let unsigned = format!("+{}", usize::MAX);
    assert_eq!(Err(ChangeError::InvalidNumber), Change::parse(&unsigned));
}

#[test]
fn change_parse_agrees_with_the_standard_library() {
    for text in ["0", "12", "+12", "-12", "00012", "-", "+", "", "1_000", "١٢", "12\n"] {
        let signed: Option<isize> = text.parse().ok();
        let expected = if text.contains('+') || text.contains('-') {
            signed.map(Change::Delta)
        } else {
            text.parse().ok().map(Change::Absolute)
        };
        assert_eq!(expected, Change::parse(text).ok(), "{:?}", text);
    }
}

#[test]
fn change_parse_dimensions() {
    assert_eq!(
        Ok((Change::Absolute(640), Change::Absolute(480))),
        parse_dimensions("640x480")
    );
    assert_eq!(
        Ok((Change::Delta(-5), Change::Range { lo: 1, hi: 3, offset: 1 })),
        parse_dimensions("-5x1..3")
    );
    // What follows a second `x` is not read.
    assert_eq!(
        Ok((Change::Absolute(1), Change::Absolute(2))),
        parse_dimensions("1x2x3")
    );
}

#[test]
fn change_parse_dimensions_without_a_side() {
    assert_eq!(Err(ChangeError::MissingWidth), parse_dimensions(""));
    assert_eq!(Err(ChangeError::MissingWidth), parse_dimensions("x480"));
    assert_eq!(Err(ChangeError::MissingWidth), parse_dimensions("ax480"));
    assert_eq!(Err(ChangeError::MissingHeight), parse_dimensions("640"));
    assert_eq!(Err(ChangeError::MissingHeight), parse_dimensions("640x"));
    assert_eq!(Err(ChangeError::MissingHeight), parse_dimensions("640xb"));
    assert_eq!(Err(ChangeError::MissingHeight), parse_dimensions("640xx480"));
}

#[test]
fn change_collect_both_dimensions() {
    let widths = Change::Range { lo: 1, hi: 4, offset: 1 };
    let heights = Change::Range { lo: 10, hi: 30, offset: 10 };
    assert_eq!(
        Ok(vec![(1, 10), (1, 20), (2, 10), (2, 20), (3, 10), (3, 20)]),
        collect_both_dimensions(&widths, &heights, (100, 100))
    );
    assert_eq!(
        Ok(vec![(105, 50)]),
        collect_both_dimensions(&Change::Delta(5), &Change::Absolute(50), (100, 100))
    );
}

#[test]
fn change_collect_both_dimensions_errors() {
    let out = Change::Absolute(100);
    let fine = Change::Absolute(50);
    let none = Change::Range { lo: 1, hi: 1, offset: 1 };
    assert_eq!(
        Err(ChangeError::OutOfRange { value: 100, bound: 80 }),
        collect_both_dimensions(&out, &fine, (80, 90))
    );
    assert_eq!(
        Err(ChangeError::OutOfRange { value: 100, bound: 90 }),
        collect_both_dimensions(&fine, &out, (80, 90))
    );
    // Without a width the height is never looked at.
    assert_eq!(Ok(vec![]), collect_both_dimensions(&none, &out, (80, 90)));
    assert_eq!(Ok(vec![]), collect_both_dimensions(&fine, &none, (80, 90)));
}

#[test]
fn change_target_dimensions() {
    let size = (80, 60);
    assert_eq!(
        Err(ChangeError::NoDimensions),
        get_target_dimensions(size, &None, &None, &None)
    );
    assert_eq!(
        Ok(vec![(70, 60)]),
        get_target_dimensions(size, &None, &Some(Change::Delta(-10)), &None)
    );
    assert_eq!(
        Ok(vec![(80, 10), (80, 11)]),
        get_target_dimensions(size, &None, &None, &Some(Change::Range { lo: 10, hi: 12, offset: 1 }))
    );
    assert_eq!(
        Ok(vec![(70, 40)]),
        get_target_dimensions(size, &None, &Some(Change::Delta(-10)), &Some(Change::Absolute(40)))
    );
    // A pair of changes goes before single ones.
    assert_eq!(
        Ok(vec![(1, 2)]),
        get_target_dimensions(
            size,
            &Some((Change::Absolute(1), Change::Absolute(2))),
            &Some(Change::Delta(-10)),
            &Some(Change::Absolute(40))
        )
    );
    assert_eq!(
        Err(ChangeError::OutOfRange { value: 60, bound: 60 }),
        get_target_dimensions(size, &None, &None, &Some(Change::Absolute(60)))
    );
}

#[test]
fn change_is_terminating() {
    assert!(Change::Absolute(3).is_terminating());
    assert!(Change::Delta(-3).is_terminating());
    assert!(Change::Range { lo: 5, hi: 1, offset: 1 }.is_terminating());
    assert!(Change::Range { lo: 1, hi: 5, offset: -1 }.is_terminating());
    assert!(Change::Range { lo: 5, hi: 5, offset: 0 }.is_terminating());
    assert!(!Change::Range { lo: 5, hi: 1, offset: 0 }.is_terminating());
    assert!(!Change::Range { lo: 5, hi: 1, offset: -1 }.is_terminating());
}
