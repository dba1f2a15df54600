//! Spaced rune names: a rune's letters with separators between some of them,
//! written `A.B•C` and kept as the rune and a mask with one bit per gap.
use vstd::prelude::*;
use crate::rune::{
    Rune, RuneError, is_letter, lemma_name_of_parsed, lemma_parse_name_of, name_of, parse_name,
    rune_error_text,
};

verus! {

/// A rune and where separators stand in its name: bit `i` of `spacers` puts a
/// separator after the letter at index `i`.
#[derive(Copy, Clone, Debug, Default, PartialEq, Eq, Structural, PartialOrd, Ord, Hash)]
pub struct SpacedRune {
    pub rune: Rune,
    pub spacers: u32,
}

/// Why a spaced rune name was refused.
#[derive(Copy, Clone, Debug, PartialEq, Eq, Structural)]
pub enum Error {
    /// A separator before the first letter.
    LeadingSpacer,
    /// A separator after the last letter.
    TrailingSpacer,
    /// Two separators in one gap.
    DoubleSpacer,
    /// A character that is neither a letter nor a separator.
    Character(char),
    /// The letters are no rune name.
    Rune(RuneError),
}

pub open spec fn is_spacer(c: char) -> bool {
    c == '.' || c == '•'
}

/// Whether bit `i` of the mask is set.
pub open spec fn has_bit(m: u32, i: int) -> bool {
    0 <= i < 32 && m & (1u32 << (i as u32)) != 0
}

/// One step of the scan over the letters so far, the mask, and whether a
/// separator has come since the last letter. A letter joins the letters. A
/// separator before any letter, or a second one in the same gap, is refused;
/// otherwise it sets the bit of the gap after the last letter, where the mask
/// has one (the first 32 gaps). Anything else is refused. The first error
/// stands.
pub open spec fn scan_step(acc: Result<(Seq<char>, u32, bool), Error>, c: char) -> Result<
    (Seq<char>, u32, bool),
    Error,
> {
    match acc {
        Err(e) => Err(e),
        Ok((letters, mask, spaced)) => {
            if is_letter(c) {
                Ok((letters.push(c), mask, false))
            } else if is_spacer(c) {
                if letters.len() == 0 {
                    Err(Error::LeadingSpacer)
                } else if spaced {
                    Err(Error::DoubleSpacer)
                } else if letters.len() > 32 {
                    Ok((letters, mask, true))
                } else {
                    Ok((letters, mask | (1u32 << ((letters.len() - 1) as u32)), true))
                }
            } else {
                Err(Error::Character(c))
            }
        },
    }
}

/// The letters, the mask, and whether `s` ends in a separator, scanned from
/// the left.
pub open spec fn scan(s: Seq<char>) -> Result<(Seq<char>, u32, bool), Error>
    decreases s.len(),
{
    if s.len() == 0 {
        Ok((Seq::empty(), 0, false))
    } else {
        scan_step(scan(s.drop_last()), s.last())
    }
}

/// Whether the mask marks a gap at or after the last of `len` letters. With
/// no letters the scan leaves the mask empty, and nothing trails.
pub open spec fn trailing(mask: u32, len: nat) -> bool {
    1 <= len <= 32 && mask >> ((len - 1) as u32) != 0
}

/// What `parse` gives for `s`.
pub open spec fn parse_spaced(s: Seq<char>) -> Result<SpacedRune, Error> {
    match scan(s) {
        Err(e) => Err(e),
        Ok((letters, mask, spaced)) => {
            if spaced || trailing(mask, letters.len()) {
                Err(Error::TrailingSpacer)
            } else {
                match parse_name(letters) {
                    Ok(n) => Ok(SpacedRune { rune: Rune(n as u128), spacers: mask }),
                    Err(e) => Err(Error::Rune(e)),
                }
            }
        },
    }
}

/// The first `k` letters of `letters`, each followed by `•` where its bit is
/// set in `mask` and it is not the last letter.
pub open spec fn display_prefix(letters: Seq<char>, mask: u32, k: nat) -> Seq<char>
    decreases k,
{
    if k == 0 {
        Seq::empty()
    } else {
        let i = k - 1;
        let shown = display_prefix(letters, mask, i as nat).push(letters[i]);
        if k < letters.len() && has_bit(mask, i) {
            shown.push('•')
        } else {
            shown
        }
    }
}

/// The display form of a spaced rune.
pub open spec fn display(r: SpacedRune) -> Seq<char> {
    let letters = name_of(r.rune.0 as nat);
    display_prefix(letters, r.spacers, letters.len())
}

/// Once a prefix of the input is refused, the scan of the whole is refused
/// for the same reason.
proof fn lemma_scan_error_stands(s: Seq<char>, i: nat)
    requires
        i <= s.len(),
        scan(s.take(i as int)) is Err,
    ensures
        scan(s) == scan(s.take(i as int)),
    decreases s.len() - i,
{
    if i < s.len() {
        assert(s.take((i + 1) as int).drop_last() =~= s.take(i as int));
        lemma_scan_error_stands(s, i + 1);
    } else {
        assert(s.take(i as int) =~= s);
    }
}

/// The bits of `mask` below `k`.
pub open spec fn low_bits(mask: u32, k: nat) -> u32 {
    if k >= 32 {
        mask
    } else {
        mask & !(0xffff_ffffu32 << (k as u32))
    }
}

proof fn lemma_low_bits_step(mask: u32, k: nat)
    requires
        k < 32,
    ensures
        low_bits(mask, k) & (1u32 << (k as u32)) == 0,
        has_bit(mask, k as int) ==> low_bits(mask, k) | (1u32 << (k as u32)) == low_bits(
            mask,
            k + 1,
        ),
        !has_bit(mask, k as int) ==> low_bits(mask, k) == low_bits(mask, k + 1),
{
    let j = k as u32;
    assert(mask & !(0xffff_ffffu32 << j) & (1u32 << j) == 0) by (bit_vector)
        requires
            j < 32,
    ;
    if k < 31 {
        assert(mask & (1u32 << j) != 0 ==> (mask & !(0xffff_ffffu32 << j)) | (1u32 << j) == mask
            & !(0xffff_ffffu32 << ((j + 1) as u32))) by (bit_vector)
            requires
                j < 31,
        ;
        assert(mask & (1u32 << j) == 0 ==> mask & !(0xffff_ffffu32 << j) == mask & !(0xffff_ffffu32
            << ((j + 1) as u32))) by (bit_vector)
            requires
                j < 31,
        ;
    } else {
        assert(mask & (1u32 << 31u32) != 0 ==> (mask & !(0xffff_ffffu32 << 31u32)) | (1u32
            << 31u32) == mask) by (bit_vector);
        assert(mask & (1u32 << 31u32) == 0 ==> mask & !(0xffff_ffffu32 << 31u32) == mask)
            by (bit_vector);
    }
}

/// Where no bit at or above `len - 1` is set, the bits below `len` are the
/// whole mask and the bit of the last letter is clear.
proof fn lemma_low_bits_end(mask: u32, len: nat)
    requires
        len >= 1,
        !trailing(mask, len),
    ensures
        low_bits(mask, len) == mask,
        !has_bit(mask, len - 1),
{
    if len < 32 {
        let j = (len - 1) as u32;
        assert(mask >> j == 0 ==> mask & !(0xffff_ffffu32 << ((j + 1) as u32)) == mask)
            by (bit_vector)
            requires
                j < 31,
        ;
        assert(mask >> j == 0 ==> mask & (1u32 << j) == 0) by (bit_vector)
            requires
                j < 31,
        ;
        assert((j + 1) as u32 == len as u32);
    } else if len == 32 {
        assert(mask >> 31u32 == 0 ==> mask & (1u32 << 31u32) == 0) by (bit_vector);
    }
}

/// Scanning the display form of the first `k` letters gives those letters and
/// the bits of the mask below `k`.
proof fn lemma_scan_display_prefix(letters: Seq<char>, mask: u32, k: nat)
    requires
        k <= letters.len(),
        forall|i: int| 0 <= i < letters.len() ==> is_letter(#[trigger] letters[i]),
        !trailing(mask, letters.len()),
    ensures
        scan(display_prefix(letters, mask, k)) == Ok::<(Seq<char>, u32, bool), Error>(
            (letters.take(k as int), low_bits(mask, k), 0 < k < letters.len() && has_bit(mask, k - 1)),
        ),
    decreases k,
{
    if k == 0 {
        assert(low_bits(mask, 0) == 0) by {
            assert(mask & !(0xffff_ffffu32 << 0u32) == 0) by (bit_vector);
        }
        assert(letters.take(0) =~= Seq::<char>::empty());
    } else {
        let i = (k - 1) as nat;
        lemma_scan_display_prefix(letters, mask, i);
        let before = display_prefix(letters, mask, i);
        let shown = before.push(letters[i as int]);
        assert(shown.drop_last() =~= before);
        assert(letters.take(i as int).push(letters[i as int]) =~= letters.take(k as int));
        assert(scan(shown) == Ok::<(Seq<char>, u32, bool), Error>(
            (letters.take(k as int), low_bits(mask, i), false),
        ));
        if i >= 32 {
            assert(!has_bit(mask, i as int));
        } else {
            lemma_low_bits_step(mask, i);
            if k < letters.len() && has_bit(mask, i as int) {
                let bullet = shown.push('•');
                assert(bullet.drop_last() =~= shown);
                assert(scan(bullet) == Ok::<(Seq<char>, u32, bool), Error>(
                    (letters.take(k as int), low_bits(mask, k), true),
                ));
            } else if k == letters.len() {
                lemma_low_bits_end(mask, letters.len());
            }
        }
    }
}

/// Every character of a name that reads as a rune is a letter.
proof fn lemma_parsed_letters(s: Seq<char>)
    requires
        parse_name(s) is Ok,
    ensures
        forall|i: int| 0 <= i < s.len() ==> is_letter(#[trigger] s[i]),
    decreases s.len(),
{
    if s.len() > 0 {
        lemma_parsed_letters(s.drop_last());
        assert forall|i: int| 0 <= i < s.len() implies is_letter(#[trigger] s[i]) by {
            if i < s.len() - 1 {
                assert(s[i] == s.drop_last()[i]);
            }
        }
    }
}

/// A scan that found no letters set no bit.
proof fn lemma_scan_no_letters_no_mask(s: Seq<char>)
    requires
        scan(s) is Ok,
        scan(s)->Ok_0.0.len() == 0,
    ensures
        scan(s)->Ok_0.1 == 0,
    decreases s.len(),
{
    if s.len() > 0 {
        lemma_scan_no_letters_no_mask(s.drop_last());
    }
}

/// A spaced rune whose mask marks only gaps between its letters displays as a
/// string that parses back to it.
pub proof fn lemma_well_formed_round_trip(r: SpacedRune)
    requires
        !trailing(r.spacers, name_of(r.rune.0 as nat).len()),
    ensures
        parse_spaced(display(r)) == Ok::<SpacedRune, Error>(r),
{
    let letters = name_of(r.rune.0 as nat);
    lemma_parse_name_of(r.rune.0 as nat);
    lemma_parsed_letters(letters);
    assert(letters.len() >= 1);
    lemma_scan_display_prefix(letters, r.spacers, letters.len());
    lemma_low_bits_end(r.spacers, letters.len());
    assert(letters.take(letters.len() as int) =~= letters);
}

/// Displaying a parsed spaced rune and parsing the display form gives the same
/// rune and the same mask back.
pub proof fn lemma_display_round_trip(s: Seq<char>)
    requires
        parse_spaced(s) is Ok,
    ensures
        parse_spaced(display(parse_spaced(s)->Ok_0)) == parse_spaced(s),
{
    let r = parse_spaced(s)->Ok_0;
    let (letters, mask, spaced) = scan(s)->Ok_0;
    let n = parse_name(letters)->Ok_0;
    if letters.len() == 0 {
        lemma_scan_no_letters_no_mask(s);
        let shown = name_of(0);
        assert(shown =~= seq!['A']);
        lemma_parse_name_of(0);
        assert(0u32 >> 0u32 == 0) by (bit_vector);
        lemma_scan_display_prefix(shown, 0, 1);
        lemma_low_bits_end(0, 1);
        assert(shown.take(1) =~= shown);
    } else {
        lemma_name_of_parsed(letters, n);
        lemma_parsed_letters(letters);
        lemma_scan_display_prefix(letters, mask, letters.len());
        lemma_low_bits_end(mask, letters.len());
        assert(letters.take(letters.len() as int) =~= letters);
    }
}

/// The message that describes a spaced rune error.
pub open spec fn error_text(e: Error) -> Seq<char> {
    match e {
        Error::Character(c) => "invalid character `"@.push(c) + "`"@,
        Error::DoubleSpacer => "double spacer"@,
        Error::LeadingSpacer => "leading spacer"@,
        Error::TrailingSpacer => "trailing spacer"@,
        Error::Rune(e) => rune_error_text(e),
    }
}

impl Error {
    /// The message that describes the error.
    pub fn to_string(&self) -> (r: String)
        ensures
            r@ == error_text(*self),
    {
        match self {
            Error::Character(c) => {
                let mut text = String::from_str("invalid character `");
                text.push(*c);
                text.append("`");
                text
            },
            Error::DoubleSpacer => String::from_str("double spacer"),
            Error::LeadingSpacer => String::from_str("leading spacer"),
            Error::TrailingSpacer => String::from_str("trailing spacer"),
            Error::Rune(e) => e.to_string(),
        }
    }
}

impl std::str::FromStr for SpacedRune {
    type Err = Error;

    fn from_str(s: &str) -> (r: Result<SpacedRune, Error>)
        ensures
            r == parse_spaced(s@),
    {
        SpacedRune::parse(s)
    }
}

impl SpacedRune {
    pub fn new(rune: Rune, spacers: u32) -> (r: SpacedRune)
        ensures
            r == (SpacedRune { rune, spacers }),
    {
        SpacedRune { rune, spacers }
    }

    /// Reads a spaced rune from its display form.
    pub fn parse(s: &str) -> (r: Result<SpacedRune, Error>)
        ensures
            r == parse_spaced(s@),
    {
        let len = s.unicode_len();
        let mut letters = String::new();
        let mut count: usize = 0;
        let mut spacers: u32 = 0;
        let mut spaced = false;
        let mut i: usize = 0;
        while i < len
            invariant
                len == s@.len(),
                i <= len,
                count == letters@.len(),
                count <= i,
                scan(s@.take(i as int)) == Ok::<(Seq<char>, u32, bool), Error>(
                    (letters@, spacers, spaced),
                ),
            decreases len - i,
        {
            let c = s.get_char(i);
            assert(s@.take(i + 1).drop_last() =~= s@.take(i as int));
            if 'A' <= c && c <= 'Z' {
                letters.push(c);
                count = count + 1;
                spaced = false;
            } else if c == '.' || c == '•' {
                if count == 0 {
                    proof {
                        lemma_scan_error_stands(s@, (i + 1) as nat);
                    }
                    return Err(Error::LeadingSpacer);
                }
                if spaced {
                    proof {
                        lemma_scan_error_stands(s@, (i + 1) as nat);
                    }
                    return Err(Error::DoubleSpacer);
                }
                if count <= 32 {
                    spacers = spacers | (1u32 << ((count - 1) as u32));
                }
                spaced = true;
            } else {
                proof {
                    lemma_scan_error_stands(s@, (i + 1) as nat);
                }
                return Err(Error::Character(c));
            }
            i = i + 1;
        }
        assert(s@.take(len as int) =~= s@);
        if spaced || (count >= 1 && count <= 32 && spacers >> ((count - 1) as u32) != 0) {
            return Err(Error::TrailingSpacer);
        }
        match Rune::from_name(letters.as_str()) {
            Ok(rune) => Ok(SpacedRune { rune, spacers }),
            Err(e) => Err(Error::Rune(e)),
        }
    }

    /// The display form: the rune's letters, with `•` after each letter whose
    /// bit is set, but the last.
    pub fn to_string(&self) -> (r: String)
        ensures
            r@ == display(*self),
    {
        let name = self.rune.name();
        let len = name.as_str().unicode_len();
        let mut out = String::new();
        let mut i: usize = 0;
        while i < len
            invariant
                len == name@.len(),
                i <= len,
                out@ == display_prefix(name@, self.spacers, i as nat),
            decreases len - i,
        {
            out.push(name.as_str().get_char(i));
            if i + 1 < len && i < 32 && self.spacers & (1u32 << (i as u32)) != 0 {
                out.push('•');
            }
            i = i + 1;
        }
        out
    }
}

} // verus!
