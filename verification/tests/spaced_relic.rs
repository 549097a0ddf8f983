use relics::spaced_relic::SpacedRelicError;
use relics::{Relic, SpacedRelic};
use std::str::FromStr;

fn relic(name: &str) -> Relic {
    Relic(name.parse::<ordinals::Rune>().unwrap().0)
}

#[test]
fn display() {
    assert_eq!("A.B".parse::<SpacedRelic>().unwrap().to_string(), "A•B");
    assert_eq!("A.B.C".parse::<SpacedRelic>().unwrap().to_string(), "A•B•C");
    assert_eq!(
        SpacedRelic {
            relic: Relic(0),
            spacers: 1
        }
        .to_string(),
        "A"
    );
}

#[test]
fn from_str() {
    fn case(s: &str, name: &str, spacers: u32) {
        assert_eq!(
            s.parse::<SpacedRelic>().unwrap(),
            SpacedRelic {
                relic: relic(name),
                spacers
            },
        );
    }

    assert_eq!(
        ".A".parse::<SpacedRelic>().unwrap_err(),
        SpacedRelicError::LeadingSpacer,
    );

    assert_eq!(
        "A..B".parse::<SpacedRelic>().unwrap_err(),
        SpacedRelicError::DoubleSpacer,
    );

    assert_eq!(
        "A.".parse::<SpacedRelic>().unwrap_err(),
        SpacedRelicError::TrailingSpacer,
    );

    assert_eq!(
        "Ax".parse::<SpacedRelic>().unwrap_err(),
        SpacedRelicError::Character('x')
    );

    case("A.B", "AB", 0b1);
    case("A.B.C", "ABC", 0b11);
    case("A•B", "AB", 0b1);
    case("A•B•C", "ABC", 0b11);
    case("A•BC", "ABC", 0b1);
}

#[test]
fn base_token_name_parses() {
    let base = SpacedRelic::parse("MBTC").unwrap();
    assert_eq!(base.relic, Relic(230362));
    assert_eq!(base.spacers, 0);
    assert_eq!(base.to_string(), "MBTC");
}

#[test]
fn store_and_load_spaced_relic() {
    let s = SpacedRelic::new(Relic(26), 1);
    assert_eq!(s.store(), (26, 1));
    assert_eq!(SpacedRelic::load((26, 1)), s);
    assert_eq!(s.to_string(), "A•A");
}

#[test]
fn from_metadata_reads_the_first_relic_key() {
  let text = |s: &str| Some(s.to_string());
  let expected = SpacedRelic::from_str("BASIC•TEST•RELIC").unwrap();
  assert_eq!(SpacedRelic::from_metadata(None), None);
  assert_eq!(SpacedRelic::from_metadata(Some(vec![])), None);
  assert_eq!(
    SpacedRelic::from_metadata(Some(vec![
      (text("OTHER"), text("IGNORED")),
      (None, text("ALSO•IGNORED")),
      (text("RELIC"), text("BASIC•TEST•RELIC")),
      (text("RELIC"), text("SECOND")),
    ])),
    Some(expected)
  );
  assert_eq!(
    SpacedRelic::from_metadata(Some(vec![(text("RELIC"), None), (text("RELIC"), text("SECOND"))])),
    None
  );
  assert_eq!(SpacedRelic::from_metadata(Some(vec![(text("RELIC"), text("not a name"))])), None);
  assert_eq!(SpacedRelic::from_metadata(Some(vec![(text("relic"), text("ABC"))])), None);
}

#[test]
fn a_spacer_after_more_than_32_letters_is_a_long_name() {
    let long = format!("{}.A", "A".repeat(33));
    assert_eq!(long.parse::<SpacedRelic>().unwrap_err(), SpacedRelicError::LongName);
    let within = format!("{}.A", "A".repeat(32));
    assert_eq!(within.parse::<SpacedRelic>().unwrap_err(), SpacedRelicError::Rune);
    assert_eq!(
        format!("x{}.A", "A".repeat(40)).parse::<SpacedRelic>().unwrap_err(),
        SpacedRelicError::Character('x')
    );
}
