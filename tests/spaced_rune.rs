use ordinals::rune::{Rune, RuneError};
use ordinals::spaced_rune::{Error, SpacedRune};

fn spaced(rune: u128, spacers: u32) -> SpacedRune {
    SpacedRune::new(Rune(rune), spacers)
}

#[test]
fn parse_with_both_separators() {
    let parsed = SpacedRune::parse("A.B•C").unwrap();
    assert_eq!(parsed.rune, Rune::from_name("ABC").unwrap());
    assert_eq!(parsed.rune.name(), "ABC");
    assert_eq!(parsed.spacers, 0b11);
    assert_eq!(parsed.to_string(), "A•B•C");
}

#[test]
fn leading_separator() {
    assert_eq!(SpacedRune::parse(".ABC"), Err(Error::LeadingSpacer));
    assert_eq!(SpacedRune::parse("•ABC"), Err(Error::LeadingSpacer));
}

#[test]
fn trailing_separator() {
    assert_eq!(SpacedRune::parse("ABC."), Err(Error::TrailingSpacer));
    assert_eq!(SpacedRune::parse("A•"), Err(Error::TrailingSpacer));
}

#[test]
fn empty_name_goes_to_rune_parser() {
    assert_eq!(
        SpacedRune::parse(""),
        Rune::from_name("").map(|r| SpacedRune::new(r, 0)).map_err(Error::Rune)
    );
    assert_eq!(SpacedRune::parse(""), Ok(spaced(0, 0)));
    assert_eq!(SpacedRune::parse("").unwrap().to_string(), "A");
}

#[test]
fn double_separator() {
    assert_eq!(SpacedRune::parse("A..B"), Err(Error::DoubleSpacer));
    assert_eq!(SpacedRune::parse("A.•B"), Err(Error::DoubleSpacer));
}

#[test]
fn invalid_character() {
    assert_eq!(SpacedRune::parse("AB1C"), Err(Error::Character('1')));
    assert_eq!(SpacedRune::parse("ab"), Err(Error::Character('a')));
    assert_eq!(SpacedRune::parse(".1"), Err(Error::LeadingSpacer));
}

#[test]
fn name_out_of_range() {
    assert_eq!(
        SpacedRune::parse("BCGDENLQRQWDSLRUGSNLBTMFIJAW"),
        Err(Error::Rune(RuneError::Range))
    );
    assert_eq!(
        SpacedRune::parse("BCGDENLQRQWDSLRUGSNLBTMFIJAV"),
        Ok(spaced(u128::MAX, 0))
    );
}

#[test]
fn long_name_with_separator_does_not_panic() {
    let text = format!("{}.B", "A".repeat(40));
    assert_eq!(SpacedRune::parse(&text), Err(Error::Rune(RuneError::Range)));
}

#[test]
fn display_round_trip() {
    for text in ["A", "A.B", "AB•C.D", "A•B•C•D•E•F", "Z.ZZ", "BCGDENLQ.RQWDSLRUGSNLBTMFIJAV"] {
        let parsed = SpacedRune::parse(text).unwrap();
        let shown = parsed.to_string();
        assert_eq!(shown, text.replace('.', "•"));
        assert_eq!(SpacedRune::parse(&shown), Ok(parsed));
    }
}

#[test]
fn display_ignores_bits_past_last_letter() {
    assert_eq!(spaced(0, 0b1111).to_string(), "A");
    assert_eq!(spaced(26, 0b110).to_string(), "AA");
    assert_eq!(spaced(26, 0b1).to_string(), "A•A");
}

#[test]
fn from_str_matches_parse() {
    assert_eq!("A.B".parse::<SpacedRune>(), Ok(spaced(27, 1)));
    assert_eq!("A..B".parse::<SpacedRune>(), Err(Error::DoubleSpacer));
}

#[test]
fn error_messages() {
    assert_eq!(Error::Character('x').to_string(), "invalid character `x`");
    assert_eq!(Error::DoubleSpacer.to_string(), "double spacer");
    assert_eq!(Error::LeadingSpacer.to_string(), "leading spacer");
    assert_eq!(Error::TrailingSpacer.to_string(), "trailing spacer");
    assert_eq!(Error::Rune(RuneError::Range).to_string(), "name out of range");
    assert_eq!(Error::Rune(RuneError::Character('é')).to_string(), "invalid character `é`");
}

#[test]
fn rune_names() {
    assert_eq!(Rune::from_name("A"), Ok(Rune(0)));
    assert_eq!(Rune::from_name("Z"), Ok(Rune(25)));
    assert_eq!(Rune::from_name("AA"), Ok(Rune(26)));
    assert_eq!(Rune::from_name("AZ"), Ok(Rune(51)));
    assert_eq!(Rune::from_name("BA"), Ok(Rune(52)));
    assert_eq!(Rune::from_name(""), Ok(Rune(0)));
    assert_eq!(Rune::from_name("A-"), Err(RuneError::Character('-')));
    assert_eq!("ZZ".parse::<Rune>(), Ok(Rune(701)));
    assert_eq!(Rune(0).name(), "A");
    assert_eq!(Rune(25).name(), "Z");
    assert_eq!(Rune(26).name(), "AA");
    assert_eq!(Rune(701).name(), "ZZ");
    assert_eq!(Rune(702).name(), "AAA");
    assert_eq!(Rune(u128::MAX).name(), "BCGDENLQRQWDSLRUGSNLBTMFIJAV");
    assert_eq!(Rune::from_name("BCGDENLQRQWDSLRUGSNLBTMFIJAV"), Ok(Rune(u128::MAX)));
    assert_eq!(Rune::from_name("BCGDENLQRQWDSLRUGSNLBTMFIJAW"), Err(RuneError::Range));
    assert_eq!(Rune::from_name("AAAAAAAAAAAAAAAAAAAAAAAAAAAAAAA1"), Err(RuneError::Range));
}

#[test]
fn separators_past_32_letters() {
    let long = "A".repeat(40);
    assert_eq!(SpacedRune::parse(&format!("{long}..B")), Err(Error::DoubleSpacer));
    assert_eq!(SpacedRune::parse(&format!("{long}.•B")), Err(Error::DoubleSpacer));
    assert_eq!(SpacedRune::parse(&format!("{long}.")), Err(Error::TrailingSpacer));
    assert_eq!(SpacedRune::parse(&format!("{long}•")), Err(Error::TrailingSpacer));
    assert_eq!(SpacedRune::parse(&format!("A.{long}.B")), Err(Error::Rune(RuneError::Range)));
}

#[test]
fn from_str_examples() {
    assert_eq!(".ABC".parse::<SpacedRune>(), Err(Error::LeadingSpacer));
    assert_eq!("•ABC".parse::<SpacedRune>(), Err(Error::LeadingSpacer));
    assert_eq!("ABC.".parse::<SpacedRune>(), Err(Error::TrailingSpacer));
    assert_eq!("AB1C".parse::<SpacedRune>(), Err(Error::Character('1')));
    assert_eq!("".parse::<SpacedRune>(), Ok(spaced(0, 0)));
    let parsed = "A.B•C".parse::<SpacedRune>().unwrap();
    assert_eq!(parsed, SpacedRune::new("ABC".parse::<Rune>().unwrap(), 0b011));
    assert_eq!(parsed.to_string().parse::<SpacedRune>(), Ok(parsed));
}

#[test]
fn well_formed_values_round_trip() {
    for (rune, spacers) in [(0u128, 0u32), (27, 1), (u128::MAX, (1 << 27) - 1), (702, 0b10)] {
        let value = spaced(rune, spacers);
        assert_eq!(SpacedRune::parse(&value.to_string()), Ok(value));
    }
}
