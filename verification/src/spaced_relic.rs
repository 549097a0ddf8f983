use ordinals::spaced_rune::Error;
use ordinals::{Rune, SpacedRune};
use std::str::FromStr;
use vstd::prelude::*;

verus! {

/// The name of a relic, as a number in bijective base 26 (`A` is 0, `Z` is 25,
/// `AA` is 26).
#[derive(Clone, Copy, Debug, PartialEq, Eq, Structural, PartialOrd, Ord, Hash)]
pub struct Relic(pub u128);

impl Relic {
    /// The number behind the name.
    pub fn n(self) -> (r: u128)
        ensures
            r == self.0,
    {
        self.0
    }

    /// The stored form of a name: its number.
    pub fn store(self) -> (value: u128)
        ensures
            value == self.0,
    {
        self.0
    }

    pub fn load(value: u128) -> (relic: Relic)
        ensures
            relic == Relic(value),
    {
        Relic(value)
    }
}

impl Default for Relic {
    fn default() -> (r: Self)
        ensures
            r == Relic(0),
    {
        Relic(0)
    }
}

/// A relic name with spacers: bit `i` of `spacers` puts a spacer after the
/// `i`-th letter.
#[derive(Clone, Copy, Debug, PartialEq, Eq, Structural, PartialOrd, Ord, Hash)]
pub struct SpacedRelic {
    pub relic: Relic,
    pub spacers: u32,
}

impl Default for SpacedRelic {
    fn default() -> (s: Self)
        ensures
            s == (SpacedRelic { relic: Relic(0), spacers: 0 }),
    {
        SpacedRelic { relic: Relic(0), spacers: 0 }
    }
}

/// Why a spaced name does not parse.
#[derive(Clone, Copy, Debug, PartialEq, Eq, Structural)]
pub enum SpacedRelicError {
    /// A spacer before the first letter.
    LeadingSpacer,
    /// A spacer after the last letter.
    TrailingSpacer,
    /// Two spacers in a row.
    DoubleSpacer,
    /// A character that is neither a letter `A` to `Z` nor a spacer.
    Character(char),
    /// The letters name no rune: there are too many of them.
    Rune,
    /// A spacer after more letters than a spacer can follow (32).
    LongName,
}

/// What `ordinals::SpacedRune::from_str` gives for a string: the rune's number and
/// the spacers, or `None` where it returns an error.
pub uninterp spec fn spaced_rune_from_str(s: Seq<char>) -> Option<(u128, u32)>;

/// The text that `ordinals::SpacedRune` displays for a rune number and spacers.
pub uninterp spec fn spaced_rune_display(rune: u128, spacers: u32) -> Seq<char>;

/// A letter of a name.
pub open spec fn is_name_letter(c: char) -> bool {
    'A' <= c <= 'Z'
}

/// A spacer: `.` or `•`.
pub open spec fn is_spacer(c: char) -> bool {
    c == '.' || c == '•'
}

/// The letters among the first `j` characters.
pub open spec fn letters_before(s: Seq<char>, j: int) -> nat
    decreases j,
{
    if j <= 0 {
        0
    } else {
        letters_before(s, j - 1) + if is_name_letter(s[j - 1]) {
            1nat
        } else {
            0nat
        }
    }
}

/// The first `j` characters raise no parse error: each is a letter or a spacer, and
/// each spacer follows a letter.
pub open spec fn clean_prefix(s: Seq<char>, j: int) -> bool {
    forall|i: int|
        0 <= i < j ==> (is_name_letter(#[trigger] s[i]) || is_spacer(s[i])) && (is_spacer(s[i]) ==> (
        letters_before(s, i) > 0 && !(i > 0 && is_spacer(s[i - 1]))))
}

/// Parsing reaches a spacer after more than 32 letters, where the spacer's bit no
/// longer fits in the spacers.
pub open spec fn spacer_past_bits(s: Seq<char>) -> bool {
    exists|j: int|
        0 <= j < s.len() && is_spacer(#[trigger] s[j]) && letters_before(s, j) > 32 && clean_prefix(s, j)
}

/// The text can be handed to `ordinals::SpacedRune::from_str`: no spacer's bit falls
/// outside the spacers, and the letters can be counted in a `u32`.
pub open spec fn name_parse_safe(s: Seq<char>) -> bool {
    !spacer_past_bits(s) && s.len() <= u32::MAX
}

/// What parsing a name gives: the parse of `ordinals::SpacedRune` where the text can
/// be handed to it, nothing otherwise.
pub open spec fn spec_parse_name(s: Seq<char>) -> Option<(u128, u32)> {
    if name_parse_safe(s) {
        spaced_rune_from_str(s)
    } else {
        None
    }
}

/// Parses a spaced name with `ordinals::SpacedRune::from_str`, which panics (on an
/// overflowing shift) at a spacer after more than 32 letters and unwraps the letter
/// count as a `u32`; those inputs are left out. Claimed: the result is `Ok` exactly
/// where the named parse succeeds, and then holds its number and spacers. The error
/// is the outside error's variant; which one comes back is not stated.
#[verifier::external_body]
fn parse_spaced_rune(s: &str) -> (r: Result<SpacedRelic, SpacedRelicError>)
    requires
        name_parse_safe(s@),
    ensures
        r is Ok <==> spaced_rune_from_str(s@) is Some,
        r matches Ok(v) ==> spaced_rune_from_str(s@) == Some((v.relic.0, v.spacers)),
        r matches Err(e) ==> e != SpacedRelicError::LongName,
{
    match SpacedRune::from_str(s) {
        Ok(v) => Ok(SpacedRelic { relic: Relic(v.rune.0), spacers: v.spacers }),
        Err(Error::LeadingSpacer) => Err(SpacedRelicError::LeadingSpacer),
        Err(Error::TrailingSpacer) => Err(SpacedRelicError::TrailingSpacer),
        Err(Error::DoubleSpacer) => Err(SpacedRelicError::DoubleSpacer),
        Err(Error::Character(c)) => Err(SpacedRelicError::Character(c)),
        Err(Error::Rune(_)) => Err(SpacedRelicError::Rune),
    }
}

/// Whether a name can be handed to the outside parse.
pub fn name_parse_safe_check(s: &str) -> (r: bool)
    ensures
        r == name_parse_safe(s@),
{
    let n = s.unicode_len();
    if n > u32::MAX as usize {
        return false;
    }
    let mut letters: usize = 0;
    let mut prev_spacer = false;
    let mut i: usize = 0;
    while i < n
        invariant
            i <= n,
            n == s@.len(),
            n <= u32::MAX,
            letters == letters_before(s@, i as int),
            letters <= i,
            prev_spacer == (i > 0 && is_spacer(s@[i - 1])),
            clean_prefix(s@, i as int),
            forall|j: int|
                0 <= j < i ==> !(is_spacer(#[trigger] s@[j]) && letters_before(s@, j) > 32 && clean_prefix(
                    s@,
                    j,
                )),
        decreases n - i,
    {
        let c = s.get_char(i);
        if 'A' <= c && c <= 'Z' {
            letters = letters + 1;
            prev_spacer = false;
        } else if c == '.' || c == '•' {
            if letters == 0 || prev_spacer {
                proof {
                    lemma_no_spacer_past_bits_after(s@, i as int);
                }
                return true;
            }
            if letters > 32 {
                proof {
                    assert(is_spacer(s@[i as int]) && letters_before(s@, i as int) > 32 && clean_prefix(
                        s@,
                        i as int,
                    ));
                }
                return false;
            }
            prev_spacer = true;
        } else {
            proof {
                lemma_no_spacer_past_bits_after(s@, i as int);
            }
            return true;
        }
        proof {
            assert forall|k: int| 0 <= k < i + 1 implies (is_name_letter(#[trigger] s@[k]) || is_spacer(s@[k]))
                && (is_spacer(s@[k]) ==> (letters_before(s@, k) > 0 && !(k > 0 && is_spacer(s@[k - 1])))) by {
                if k < i {
                    assert(clean_prefix(s@, i as int));
                }
            }
            assert forall|j: int|
                0 <= j < i + 1 implies !(is_spacer(#[trigger] s@[j]) && letters_before(s@, j) > 32 && clean_prefix(
                s@,
                j,
            )) by {}
        }
        i = i + 1;
    }
    true
}

/// Where the characters up to `i` are clean but character `i` raises an error (or is
/// a spacer within the bits), no later spacer is reached.
proof fn lemma_no_spacer_past_bits_after(s: Seq<char>, i: int)
    requires
        0 <= i < s.len(),
        forall|j: int|
            0 <= j < i ==> !(is_spacer(#[trigger] s[j]) && letters_before(s, j) > 32 && clean_prefix(s, j)),
        letters_before(s, i) <= 32 || !is_spacer(s[i]),
        !(is_name_letter(s[i]) || is_spacer(s[i])) || (is_spacer(s[i]) && (letters_before(s, i) == 0 || (i > 0
            && is_spacer(s[i - 1])))),
    ensures
        !spacer_past_bits(s),
{
    assert forall|j: int|
        0 <= j < s.len() implies !(is_spacer(#[trigger] s[j]) && letters_before(s, j) > 32 && clean_prefix(
        s,
        j,
    )) by {
        if j > i && clean_prefix(s, j) {
            assert(is_name_letter(s[i]) || is_spacer(s[i]));
        }
    }
}

/// Displays a spaced name with `ordinals::SpacedRune`'s `Display`. Claimed: the text
/// is the named display of the number and spacers.
#[verifier::external_body]
fn display_spaced_rune(rune: u128, spacers: u32) -> (r: String)
    ensures
        r@ == spaced_rune_display(rune, spacers),
{
    SpacedRune { rune: Rune(rune), spacers }.to_string()
}

/// The letters of the name that `ordinals::Rune` displays for a number.
pub open spec fn rune_name(n: u128) -> Seq<char> {
    if n == u128::MAX {
        "BCGDENLQRQWDSLRUGSNLBTMFIJAV"@
    } else {
        bijective_base26((n + 1) as nat)
    }
}

/// The letters of `m` in bijective base 26 (`A` is 1, `Z` is 26, `AA` is 27), most
/// significant first.
pub open spec fn bijective_base26(m: nat) -> Seq<char>
    decreases m,
{
    if m == 0 {
        Seq::empty()
    } else {
        bijective_base26(((m - 1) / 26) as nat) + seq![(65 + (m - 1) % 26) as char]
    }
}

/// Displays a name with `ordinals::Rune`'s `Display`. Claimed: the text is the named
/// display.
#[verifier::external_body]
fn rune_text(n: u128) -> (r: String)
    ensures
        r@ == rune_name(n),
{
    Rune(n).to_string()
}

/// One unit of the base token in its atomic units (all relics have eight decimals).
pub const ONE_BASE_TOKEN: u128 = 100_000_000;

/// The base token burned to seal a name of `letters` letters: 1 for thirteen or more,
/// 10 for seven to twelve, 500 for four to six, 2100 for three, 21000 for two and
/// 210000 for one, in whole base tokens.
pub open spec fn spec_sealing_fee(letters: nat) -> u128 {
    if letters >= 13 {
        ONE_BASE_TOKEN
    } else if letters >= 7 {
        (10 * ONE_BASE_TOKEN) as u128
    } else if letters >= 4 {
        (500 * ONE_BASE_TOKEN) as u128
    } else if letters == 3 {
        (2100 * ONE_BASE_TOKEN) as u128
    } else if letters == 2 {
        (21000 * ONE_BASE_TOKEN) as u128
    } else {
        (210000 * ONE_BASE_TOKEN) as u128
    }
}

impl Relic {
    /// The base token that must be burned to seal this name, by its number of letters.
    pub fn sealing_fee(self) -> (fee: u128)
        ensures
            fee == spec_sealing_fee(rune_name(self.0).len()),
    {
        let name = rune_text(self.0);
        let letters = name.as_str().unicode_len();
        if letters >= 13 {
            ONE_BASE_TOKEN
        } else if letters >= 7 {
            10 * ONE_BASE_TOKEN
        } else if letters >= 4 {
            500 * ONE_BASE_TOKEN
        } else if letters == 3 {
            2100 * ONE_BASE_TOKEN
        } else if letters == 2 {
            21000 * ONE_BASE_TOKEN
        } else {
            210000 * ONE_BASE_TOKEN
        }
    }
}

/// The name of the base token.
pub const RELIC_NAME: &'static str = "MBTC";

impl SpacedRelic {
    /// The base token's name, parsed as any other.
    pub fn base_token() -> (r: Result<SpacedRelic, SpacedRelicError>)
        ensures
            r is Ok <==> spaced_rune_from_str(RELIC_NAME@) is Some,
            r matches Ok(v) ==> spaced_rune_from_str(RELIC_NAME@) == Some((v.relic.0, v.spacers)),
    {
        proof {
            reveal_strlit("MBTC");
            assert forall|j: int| 0 <= j < RELIC_NAME@.len() implies !is_spacer(#[trigger] RELIC_NAME@[j]) by {}
        }
        SpacedRelic::parse(RELIC_NAME)
    }

    /// The key under which inscription metadata names the relic it seals.
    pub const METADATA_KEY: &'static str = "RELIC";

    pub fn new(relic: Relic, spacers: u32) -> (s: SpacedRelic)
        ensures
            s == (SpacedRelic { relic, spacers }),
    {
        SpacedRelic { relic, spacers }
    }

    /// Parses a name such as `A.B` or `A•B`, as a rune name with spacers.
    pub fn parse(s: &str) -> (r: Result<SpacedRelic, SpacedRelicError>)
        requires
            name_parse_safe(s@),
        ensures
            r is Ok <==> spaced_rune_from_str(s@) is Some,
            r matches Ok(v) ==> spaced_rune_from_str(s@) == Some((v.relic.0, v.spacers)),
            r != Err::<SpacedRelic, SpacedRelicError>(SpacedRelicError::LongName),
    {
        parse_spaced_rune(s)
    }

    /// The name with `•` between the letters where the spacers put one.
    pub fn to_string(&self) -> (r: String)
        ensures
            r@ == spaced_rune_display(self.relic.0, self.spacers),
    {
        display_spaced_rune(self.relic.0, self.spacers)
    }

    /// The stored form: `(relic, spacers)`.
    pub fn store(self) -> (value: (u128, u32))
        ensures
            value == (self.relic.0, self.spacers),
    {
        (self.relic.0, self.spacers)
    }

    pub fn load(value: (u128, u32)) -> (s: SpacedRelic)
        ensures
            s == (SpacedRelic { relic: Relic(value.0), spacers: value.1 }),
    {
        SpacedRelic::new(Relic(value.0), value.1)
    }
}

/// The key of a metadata entry is `RELIC`.
pub open spec fn names_relic(entry: (Option<String>, Option<String>)) -> bool {
    entry.0 matches Some(k) && k@ == SpacedRelic::METADATA_KEY@
}

/// The name that inscription metadata carries: where the metadata is a map, the text
/// under its first `RELIC` key, parsed as a name; nothing where that value is not
/// text or does not parse (a spacer after more than 32 letters does not).
pub open spec fn spec_from_metadata(metadata: Option<Seq<(Option<String>, Option<String>)>>) -> Option<
    SpacedRelic,
> {
    match metadata {
        None => None,
        Some(entries) => if exists|i: int| 0 <= i < entries.len() && #[trigger] names_relic(entries[i]) {
            let i = choose|i: int|
                0 <= i < entries.len() && #[trigger] names_relic(entries[i]) && forall|j: int|
                    0 <= j < i ==> !names_relic(#[trigger] entries[j]);
            match entries[i].1 {
                None => None,
                Some(text) => match spec_parse_name(text@) {
                    Some((n, spacers)) => Some(SpacedRelic { relic: Relic(n), spacers }),
                    None => None,
                },
            }
        } else {
            None
        },
    }
}

impl SpacedRelic {
    /// Reads the sealed name from inscription metadata, given as the entries of the
    /// CBOR map (each key and value as text where it is text), or `None` where the
    /// metadata is not a map.
    pub fn from_metadata(metadata: Option<Vec<(Option<String>, Option<String>)>>) -> (r: Option<SpacedRelic>)
        ensures
            r == spec_from_metadata(
                match metadata {
                    Some(v) => Some(v@),
                    None => None,
                },
            ),
    {
        let entries = match metadata {
            Some(v) => v,
            None => return None,
        };
        let key: String = SpacedRelic::METADATA_KEY.to_owned();
        let mut i: usize = 0;
        while i < entries.len()
            invariant
                i <= entries@.len(),
                key@ == SpacedRelic::METADATA_KEY@,
                metadata == Some(entries),
                forall|j: int| 0 <= j < i ==> !names_relic(#[trigger] entries@[j]),
            decreases entries@.len() - i,
        {
            let matches = match &entries[i].0 {
                Some(k) => *k == key,
                None => false,
            };
            if matches {
                proof {
                    assert(names_relic(entries@[i as int]));
                    assert(0 <= i < entries@.len() && names_relic(entries@[i as int]) && forall|j: int|
                        0 <= j < i ==> !names_relic(#[trigger] entries@[j]));
                    let c = choose|c: int|
                        0 <= c < entries@.len() && #[trigger] names_relic(entries@[c]) && forall|j: int|
                            0 <= j < c ==> !names_relic(#[trigger] entries@[j]);
                    assert(c == i) by {
                        if c < i {
                            assert(!names_relic(entries@[c]));
                        }
                        if c > i {
                            assert(!names_relic(entries@[i as int]));
                        }
                    }
                    assert(spec_from_metadata(Some(entries@)) == match entries@[i as int].1 {
                        None => None,
                        Some(text) => match spec_parse_name(text@) {
                            Some((n, spacers)) => Some(SpacedRelic { relic: Relic(n), spacers }),
                            None => None,
                        },
                    });
                }
                let parsed: Option<SpacedRelic> = match &entries[i].1 {
                    Some(text) => {
                        let r = SpacedRelic::from_str(text.as_str());
                        proof {
                            assert(entries@[i as int].1 == Some(*text));
                            if r is Ok {
                                assert(spec_parse_name(text@) == Some((r->Ok_0.relic.0, r->Ok_0.spacers)));
                            }
                        }
                        match r {
                            Ok(v) => Some(v),
                            Err(_) => None,
                        }
                    },
                    None => None,
                };
                return parsed;
            }
            i = i + 1;
        }
        None
    }
}

impl FromStr for SpacedRelic {
    type Err = SpacedRelicError;

    /// Parses a name; a spacer after more than 32 letters is refused as a long name.
    fn from_str(s: &str) -> (r: Result<SpacedRelic, SpacedRelicError>)
        ensures
            r is Ok <==> spec_parse_name(s@) is Some,
            r matches Ok(v) ==> spec_parse_name(s@) == Some((v.relic.0, v.spacers)),
            r == Err::<SpacedRelic, SpacedRelicError>(SpacedRelicError::LongName) <==> !name_parse_safe(s@),
    {
        if !name_parse_safe_check(s) {
            return Err(SpacedRelicError::LongName);
        }
        SpacedRelic::parse(s)
    }
}

} // verus!
