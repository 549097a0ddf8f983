use relics::{Flag, Tag};
use std::collections::{HashMap, VecDeque};

#[test]
fn mask() {
    assert_eq!(Flag::Sealing.mask(), 0b10);
    assert_eq!(Flag::Cenotaph.mask(), 1 << 127);
}

#[test]
fn flag_take() {
    let mut flags = 4;
    assert!(Flag::Enshrining.take(&mut flags));
    assert_eq!(flags, 0);

    let mut flags = 0;
    assert!(!Flag::Enshrining.take(&mut flags));
    assert_eq!(flags, 0);
}

#[test]
fn set() {
    let mut flags = 0;
    Flag::Enshrining.set(&mut flags);
    assert_eq!(flags, 4);
}

#[test]
fn from_u128() {
    assert_eq!(0u128, Tag::Body.into());
    assert_eq!(2u128, Tag::Flags.into());
}

#[test]
fn partial_eq() {
    assert_eq!(Tag::Body, 0);
    assert_eq!(Tag::Flags, 2);
}

#[test]
fn tag_take() {
    let mut fields = vec![(2, vec![3].into_iter().collect())]
        .into_iter()
        .collect::<HashMap<u128, VecDeque<u128>>>();

    assert_eq!(Tag::Flags.take(&mut fields, |[_]| None::<u128>), None);

    assert!(!fields.is_empty());

    assert_eq!(Tag::Flags.take(&mut fields, |[flags]| Some(flags)), Some(3));

    assert!(fields.is_empty());

    assert_eq!(Tag::Flags.take(&mut fields, |[flags]| Some(flags)), None);
}

#[test]
fn take_leaves_unconsumed_values() {
    let mut fields = vec![(2, vec![1, 2, 3].into_iter().collect())]
        .into_iter()
        .collect::<HashMap<u128, VecDeque<u128>>>();

    assert_eq!(fields[&2].len(), 3);

    assert_eq!(Tag::Flags.take(&mut fields, |[_]| None::<u128>), None);

    assert_eq!(fields[&2].len(), 3);

    assert_eq!(
        Tag::Flags.take(&mut fields, |[a, b]| Some((a, b))),
        Some((1, 2))
    );

    assert_eq!(fields[&2].len(), 1);

    assert_eq!(Tag::Flags.take(&mut fields, |[a]| Some(a)), Some(3));

    assert_eq!(fields.get(&2), None);
}

#[test]
fn encode() {
    let mut payload = Vec::new();

    Tag::Flags.encode(&[3], &mut payload);

    assert_eq!(payload, [2, 3]);

    Tag::Seed.encode(&[5], &mut payload);

    assert_eq!(payload, [2, 3, 8, 5]);

    Tag::Seed.encode(&[5, 6], &mut payload);

    assert_eq!(payload, [2, 3, 8, 5, 8, 5, 8, 6]);
}

#[test]
fn burn_and_nop_are_one_byte() {
    let mut payload = Vec::new();
    Tag::Cenotaph.encode(&[0], &mut payload);
    assert_eq!(payload.len(), 2);

    let mut payload = Vec::new();
    Tag::Nop.encode(&[0], &mut payload);
    assert_eq!(payload.len(), 2);
}

#[test]
fn encode_option_skips_unset_values() {
    let mut payload = Vec::new();
    Tag::Pointer.encode_option(None, &mut payload);
    assert!(payload.is_empty());
    Tag::Pointer.encode_option(Some(300), &mut payload);
    assert_eq!(payload, [4, 0xac, 0x02]);
}
