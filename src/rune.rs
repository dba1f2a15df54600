//! Rune names: a `u128` written as a bijective base-26 numeral over `A`..`Z`,
//! where `A` is 0, `Z` is 25 and `AA` is 26.
use vstd::prelude::*;

verus! {

/// Appends `ch`, as `String::push` is documented to do.
pub assume_specification[ String::push ](string: &mut String, ch: char)
    ensures
        final(string)@ == old(string)@.push(ch),
;

/// A rune: the number that its name stands for.
#[derive(Copy, Clone, Debug, Default, PartialEq, Eq, Structural, PartialOrd, Ord, Hash)]
pub struct Rune(pub u128);

/// Why a rune name was refused.
#[derive(Copy, Clone, Debug, PartialEq, Eq, Structural)]
pub enum RuneError {
    /// A character that is not an uppercase ASCII letter.
    Character(char),
    /// The name stands for a number beyond `u128::MAX`.
    Range,
}

pub open spec fn is_letter(c: char) -> bool {
    'A' <= c <= 'Z'
}

/// The letter with the digit `d` (`A` for 0).
pub open spec fn letter(d: nat) -> char {
    ((65 + d) as u8) as char
}

/// The digit of a letter (0 for `A`).
pub open spec fn digit(c: char) -> int {
    c as int - 65
}

/// What a name reads as, scanned from the left: each letter after the first
/// first adds one and shifts by 26, then adds its digit. The first character
/// that is not a letter, or the first step past `u128::MAX`, is the error.
pub open spec fn parse_name(s: Seq<char>) -> Result<nat, RuneError>
    decreases s.len(),
{
    if s.len() == 0 {
        Ok(0)
    } else {
        match parse_name(s.drop_last()) {
            Err(e) => Err(e),
            Ok(x) => {
                let base: nat = if s.len() == 1 {
                    0
                } else {
                    (x + 1) * 26
                };
                let c = s.last();
                if base > u128::MAX {
                    Err(RuneError::Range)
                } else if !is_letter(c) {
                    Err(RuneError::Character(c))
                } else if base + digit(c) > u128::MAX {
                    Err(RuneError::Range)
                } else {
                    Ok((base + digit(c)) as nat)
                }
            },
        }
    }
}

/// The name of the number `n`.
pub open spec fn name_of(n: nat) -> Seq<char>
    decreases n,
{
    if n < 26 {
        seq![letter(n)]
    } else {
        name_of((n / 26 - 1) as nat).push(letter(n % 26))
    }
}

/// Reading the name of a rune gives the rune back.
pub proof fn lemma_parse_name_of(n: nat)
    requires
        n <= u128::MAX,
    ensures
        parse_name(name_of(n)) == Ok::<nat, RuneError>(n),
    decreases n,
{
    let d = n % 26;
    assert(is_letter(letter(d)) && digit(letter(d)) == d);
    if n < 26 {
        let s = name_of(n);
        assert(s.drop_last() =~= Seq::<char>::empty());
        assert(s.len() == 1);
        assert(s.last() == letter(d));
        assert(parse_name(s.drop_last()) == Ok::<nat, RuneError>(0));
        assert(parse_name(s) == Ok::<nat, RuneError>((0 + digit(letter(d))) as nat));
    } else {
        let q = (n / 26 - 1) as nat;
        lemma_parse_name_of(q);
        assert(name_of(q).len() > 0);
        assert(name_of(n).drop_last() =~= name_of(q));
        assert((q + 1) * 26 + d == n);
        let s = name_of(n);
        assert(s.len() > 1);
        assert(s.last() == letter(d));
        assert(parse_name(s.drop_last()) == Ok::<nat, RuneError>(q));
        assert(parse_name(s) == Ok::<nat, RuneError>(((q + 1) * 26 + digit(letter(d))) as nat));
    }
}

/// A name that reads as `n` is the name of `n`: every rune has one name.
pub proof fn lemma_name_of_parsed(s: Seq<char>, n: nat)
    requires
        s.len() > 0,
        parse_name(s) == Ok::<nat, RuneError>(n),
    ensures
        name_of(n) == s,
    decreases s.len(),
{
    let p = s.drop_last();
    if s.len() == 1 {
        assert(name_of(n) =~= s);
    } else {
        let x = parse_name(p)->Ok_0;
        lemma_name_of_parsed(p, x);
        assert(n / 26 - 1 == x);
        assert(name_of(n) =~= s);
    }
}

/// Once a prefix of a name is refused, the whole name is refused for the same
/// reason.
proof fn lemma_error_stands(s: Seq<char>, i: nat)
    requires
        i <= s.len(),
        parse_name(s.take(i as int)) is Err,
    ensures
        parse_name(s) == parse_name(s.take(i as int)),
    decreases s.len() - i,
{
    if i < s.len() {
        assert(s.take((i + 1) as int).drop_last() =~= s.take(i as int));
        lemma_error_stands(s, i + 1);
    } else {
        assert(s.take(i as int) =~= s);
    }
}

/// The message that describes a rune name error.
pub open spec fn rune_error_text(e: RuneError) -> Seq<char> {
    match e {
        RuneError::Character(c) => "invalid character `"@.push(c) + "`"@,
        RuneError::Range => "name out of range"@,
    }
}

impl RuneError {
    /// The message that describes the error.
    pub fn to_string(&self) -> (r: String)
        ensures
            r@ == rune_error_text(*self),
    {
        match self {
            RuneError::Character(c) => {
                let mut text = String::from_str("invalid character `");
                text.push(*c);
                text.append("`");
                text
            },
            RuneError::Range => String::from_str("name out of range"),
        }
    }
}

impl std::str::FromStr for Rune {
    type Err = RuneError;

    fn from_str(s: &str) -> (r: Result<Rune, RuneError>)
        ensures
            r == (match parse_name(s@) {
                Ok(n) => Ok(Rune(n as u128)),
                Err(e) => Err(e),
            }),
    {
        Rune::from_name(s)
    }
}

impl Rune {
    /// Reads a rune from its name.
    pub fn from_name(s: &str) -> (r: Result<Rune, RuneError>)
        ensures
            r == (match parse_name(s@) {
                Ok(n) => Ok(Rune(n as u128)),
                Err(e) => Err(e),
            }),
    {
        let len = s.unicode_len();
        let mut x: u128 = 0;
        let mut i: usize = 0;
        while i < len
            invariant
                len == s@.len(),
                i <= len,
                parse_name(s@.take(i as int)) == Ok::<nat, RuneError>(x as nat),
            decreases len - i,
        {
            let c = s.get_char(i);
            assert(s@.take(i + 1).drop_last() =~= s@.take(i as int));
            let mut base: u128 = 0;
            if i > 0 {
                base = match x.checked_add(1) {
                    Some(y) => y,
                    None => {
                        proof {
                            lemma_error_stands(s@, (i + 1) as nat);
                        }
                        return Err(RuneError::Range);
                    },
                };
                base = match base.checked_mul(26) {
                    Some(y) => y,
                    None => {
                        proof {
                            lemma_error_stands(s@, (i + 1) as nat);
                        }
                        return Err(RuneError::Range);
                    },
                };
            }
            if !('A' <= c && c <= 'Z') {
                proof {
                    lemma_error_stands(s@, (i + 1) as nat);
                }
                return Err(RuneError::Character(c));
            }
            x = match base.checked_add(c as u128 - 65) {
                Some(y) => y,
                None => {
                    proof {
                        lemma_error_stands(s@, (i + 1) as nat);
                    }
                    return Err(RuneError::Range);
                },
            };
            i = i + 1;
        }
        assert(s@.take(len as int) =~= s@);
        Ok(Rune(x))
    }

    /// The name of the rune.
    pub fn name(self) -> (r: String)
        ensures
            r@ == name_of(self.0 as nat),
    {
        // Letters come out last first; `rest` is what still stands before them.
        let mut backwards: Vec<char> = Vec::new();
        let n = self.0;
        backwards.push((65 + (n % 26) as u8) as char);
        let mut rest: u128 = n / 26;
        let ghost tail: Seq<char> = seq![letter((n % 26) as nat)];
        while rest > 0
            invariant
                name_of(n as nat) == (if rest == 0 {
                    Seq::<char>::empty()
                } else {
                    name_of((rest - 1) as nat)
                }) + tail,
                backwards@.len() == tail.len(),
                forall|j: int|
                    0 <= j < tail.len() ==> #[trigger] backwards@[j] == tail[tail.len() - 1 - j],
            decreases rest,
        {
            let m = rest - 1;
            let c = (65 + (m % 26) as u8) as char;
            proof {
                let next: u128 = m / 26;
                let before = if next == 0 {
                    Seq::<char>::empty()
                } else {
                    name_of((next - 1) as nat)
                };
                assert(name_of(m as nat) =~= before.push(c));
                assert(before.push(c) + tail =~= before + (seq![c] + tail));
                tail = seq![c] + tail;
            }
            backwards.push(c);
            rest = m / 26;
        }
        let mut out = String::new();
        let mut k: usize = backwards.len();
        while k > 0
            invariant
                k <= backwards@.len(),
                backwards@.len() == tail.len(),
                forall|j: int|
                    0 <= j < tail.len() ==> #[trigger] backwards@[j] == tail[tail.len() - 1 - j],
                out@ == tail.take(tail.len() - k),
            decreases k,
        {
            k = k - 1;
            out.push(backwards[k]);
            assert(out@ =~= tail.take(tail.len() - k));
        }
        assert(tail.take(tail.len() as int) =~= tail);
        assert(name_of(n as nat) =~= tail);
        out
    }
}

} // verus!
