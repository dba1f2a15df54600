//! The registry of runestone field tags, and the engine that takes typed
//! values out of a field map and encodes them into a payload.
use std::collections::HashMap;
use std::collections::VecDeque;
use vstd::prelude::*;
use crate::varint::{decoded, encode_to_vec, encoding, lemma_decode_encoding};

verus! {

/// A runestone field. Body-like fields carry even codes, attribute-like fields
/// odd ones; `Cenotaph` and `Nop` are reserved sentinels.
#[derive(Copy, Clone, Debug, PartialEq, Eq, Structural)]
pub enum Tag {
    Body,
    Flags,
    Rune,
    Premine,
    Cap,
    Amount,
    HeightStart,
    HeightEnd,
    OffsetStart,
    OffsetEnd,
    Mint,
    Pointer,
    Cenotaph,
    Divisibility,
    Spacers,
    Symbol,
    Nop,
}

impl Tag {
    /// The wire code of the field.
    pub open spec fn value(self) -> u128 {
        match self {
            Tag::Body => 0,
            Tag::Flags => 2,
            Tag::Rune => 4,
            Tag::Premine => 6,
            Tag::Cap => 8,
            Tag::Amount => 10,
            Tag::HeightStart => 12,
            Tag::HeightEnd => 14,
            Tag::OffsetStart => 16,
            Tag::OffsetEnd => 18,
            Tag::Mint => 20,
            Tag::Pointer => 22,
            Tag::Cenotaph => 126,
            Tag::Divisibility => 1,
            Tag::Spacers => 3,
            Tag::Symbol => 5,
            Tag::Nop => 127,
        }
    }

    /// The wire code of the field.
    pub fn code(self) -> (r: u128)
        ensures
            r == self.value(),
    {
        match self {
            Tag::Body => 0,
            Tag::Flags => 2,
            Tag::Rune => 4,
            Tag::Premine => 6,
            Tag::Cap => 8,
            Tag::Amount => 10,
            Tag::HeightStart => 12,
            Tag::HeightEnd => 14,
            Tag::OffsetStart => 16,
            Tag::OffsetEnd => 18,
            Tag::Mint => 20,
            Tag::Pointer => 22,
            Tag::Cenotaph => 126,
            Tag::Divisibility => 1,
            Tag::Spacers => 3,
            Tag::Symbol => 5,
            Tag::Nop => 127,
        }
    }

    /// Whether `code` is the wire code of this field.
    pub fn is(self, code: u128) -> (r: bool)
        ensures
            r == (self.value() == code),
    {
        self.code() == code
    }
}

impl Tag {
    /// Takes the first `N` values queued under this field's code, if there are
    /// that many and `with` accepts them. Where it returns `None` the map is left
    /// exactly as it was; where it returns a value, those `N` values are removed
    /// and the code is dropped once its queue runs empty.
    pub fn take<const N: usize, T, F: Fn([u128; N]) -> Option<T>>(
        self,
        fields: &mut HashMap<u128, VecDeque<u128>>,
        with: F,
    ) -> (r: Option<T>)
        requires
            forall|a: [u128; N]| with.requires((a,)),
        ensures
            r is None ==> *final(fields) == *old(fields),
            match take_prefix(fields_view(old(fields)), self.value(), N as nat) {
                None => r is None,
                Some((values, rest)) => {
                    &&& forall|a: [u128; N]| a@ == values ==> with.ensures((a,), r)
                    &&& r is Some ==> fields_view(final(fields)) == rest
                },
            },
            no_empty_queue(fields_view(old(fields))) ==> no_empty_queue(fields_view(final(fields))),
    {
        proof {
            broadcast use vstd::std_specs::hash::group_hash_axioms;
        }
        let code = self.code();
        let field = match fields.get(&code) {
            Some(field) => field,
            None => return None,
        };
        if field.len() < N {
            return None;
        }
        let mut values: [u128; N] = [0; N];
        let mut i: usize = 0;
        while i < N
            invariant
                i <= N,
                N <= field@.len(),
                forall|j: int| 0 <= j < i ==> values@[j] == field@[j],
            decreases N - i,
        {
            values[i] = field[i];
            i = i + 1;
        }
        let ghost queued = field@;
        assert(values@ =~= queued.take(N as int));
        let value = match with(values) {
            Some(value) => value,
            None => {
                proof {
                    assert forall|a: [u128; N]| a@ == queued.take(N as int) implies with.ensures(
                        (a,),
                        None::<T>,
                    ) by {
                        assert(a =~= values);
                    }
                }
                return None;
            },
        };
        proof {
            assert forall|a: [u128; N]| a@ == queued.take(N as int) implies with.ensures(
                (a,),
                Some(value),
            ) by {
                assert(a =~= values);
            }
        }
        let mut queue = fields.remove(&code).unwrap();
        let mut k: usize = 0;
        while k < N
            invariant
                k <= N,
                N <= queued.len(),
                queue@ == queued.skip(k as int),
            decreases N - k,
        {
            queue.pop_front();
            assert(queued.skip(k as int).skip(1) =~= queued.skip(k + 1));
            k = k + 1;
        }
        if queue.len() > 0 {
            fields.insert(code, queue);
        }
        proof {
            let m = fields_view(old(fields));
            assert(fields_view(fields) =~= drained(m, code, N as nat));
        }
        Some(value)
    }

    /// Appends, for each of `values` in order, the encoding of this field's
    /// code and then the encoding of the value.
    pub fn encode<const N: usize>(self, values: [u128; N], payload: &mut Vec<u8>)
        ensures
            final(payload)@ == old(payload)@ + field_encoding(self.value(), values@),
    {
        let code = self.code();
        let mut i: usize = 0;
        while i < N
            invariant
                i <= N,
                code == self.value(),
                payload@ == old(payload)@ + field_encoding(code, values@.take(i as int)),
            decreases N - i,
        {
            proof {
                let next = values@.take(i + 1);
                assert(next.drop_last() =~= values@.take(i as int));
            }
            encode_to_vec(code, payload);
            encode_to_vec(values[i], payload);
            proof {
                let next = values@.take(i + 1);
                assert(payload@ =~= old(payload)@ + field_encoding(code, next));
            }
            i = i + 1;
        }
        assert(values@.take(N as int) =~= values@);
    }

    /// Encodes `value` as this field with one value when it is present, and
    /// leaves the payload alone when it is not.
    pub fn encode_option<T: Into<u128>>(self, value: Option<T>, payload: &mut Vec<u8>)
        ensures
            match value {
                None => final(payload)@ == old(payload)@,
                Some(v) => exists|x: u128|
                    call_ensures(<T as Into<u128>>::into, (v,), x) && final(payload)@ == old(
                        payload,
                    )@ + field_encoding(self.value(), seq![x]),
            },
    {
        if let Some(value) = value {
            let x: u128 = value.into();
            self.encode([x], payload);
            assert([x]@ =~= seq![x]);
        }
    }
}

impl From<Tag> for u128 {
    fn from(tag: Tag) -> (r: u128) {
        tag.code()
    }
}

impl vstd::std_specs::convert::FromSpecImpl<Tag> for u128 {
    open spec fn obeys_from_spec() -> bool {
        true
    }

    open spec fn from_spec(tag: Tag) -> u128 {
        tag.value()
    }
}

/// The field map as a mathematical map from code to queued values.
pub open spec fn fields_view(fields: &HashMap<u128, VecDeque<u128>>) -> Map<u128, Seq<u128>> {
    Map::new(|k: u128| fields@.contains_key(k), |k: u128| fields@[k]@)
}

/// No code maps to an empty queue.
pub open spec fn no_empty_queue(m: Map<u128, Seq<u128>>) -> bool {
    forall|k: u128| m.contains_key(k) ==> #[trigger] m[k].len() > 0
}

/// The map left after removing the first `n` values queued under `code`,
/// with the code dropped when its queue runs empty.
pub open spec fn drained(m: Map<u128, Seq<u128>>, code: u128, n: nat) -> Map<u128, Seq<u128>> {
    if m[code].len() == n {
        m.remove(code)
    } else {
        m.insert(code, m[code].skip(n as int))
    }
}

/// The first `n` values queued under `code` and the map without them, or
/// `None` where the code is absent or holds fewer than `n` values.
pub open spec fn take_prefix(m: Map<u128, Seq<u128>>, code: u128, n: nat) -> Option<
    (Seq<u128>, Map<u128, Seq<u128>>),
> {
    if m.contains_key(code) && m[code].len() >= n {
        Some((m[code].take(n as int), drained(m, code, n)))
    } else {
        None
    }
}

/// The bytes that `encode` appends for `values` under `code`: the code and a
/// value, for each value in order.
pub open spec fn field_encoding(code: u128, values: Seq<u128>) -> Seq<u8>
    decreases values.len(),
{
    if values.len() == 0 {
        Seq::empty()
    } else {
        field_encoding(code, values.drop_last()) + encoding(code as nat) + encoding(
            values.last() as nat,
        )
    }
}

/// The (code, value) pairs that a payload holds, read from the front, or
/// `None` where it ends inside a pair or an integer exceeds `u128::MAX`.
pub open spec fn payload_pairs(b: Seq<u8>) -> Option<Seq<(u128, u128)>>
    decreases b.len(),
{
    if b.len() == 0 {
        Some(Seq::empty())
    } else {
        match decoded(b) {
            None => None,
            Some((code, k)) => match decoded(b.skip(k as int)) {
                None => None,
                Some((value, j)) => {
                    if 1 <= k && 1 <= j && k + j <= b.len() && code <= u128::MAX && value
                        <= u128::MAX {
                        match payload_pairs(b.skip((k + j) as int)) {
                            None => None,
                            Some(rest) => Some(seq![(code as u128, value as u128)] + rest),
                        }
                    } else {
                        None
                    }
                },
            },
        }
    }
}

/// The field map of a sequence of pairs: each code with its values in the
/// order in which they come.
pub open spec fn grouped(p: Seq<(u128, u128)>) -> Map<u128, Seq<u128>>
    decreases p.len(),
{
    if p.len() == 0 {
        Map::empty()
    } else {
        let rest = grouped(p.drop_first());
        let (code, value) = p[0];
        let later = if rest.contains_key(code) {
            rest[code]
        } else {
            Seq::empty()
        };
        rest.insert(code, seq![value] + later)
    }
}

/// The field map that a payload decodes to.
pub open spec fn payload_fields(b: Seq<u8>) -> Option<Map<u128, Seq<u128>>> {
    match payload_pairs(b) {
        Some(p) => Some(grouped(p)),
        None => None,
    }
}

proof fn lemma_encoding_nonempty(n: nat)
    ensures
        encoding(n).len() >= 1,
    decreases n,
{
    if n >= 128 {
        lemma_encoding_nonempty(n / 128);
    }
}

/// The encoding of a field, with its first value split off at the front.
proof fn lemma_field_encoding_front(code: u128, values: Seq<u128>)
    requires
        values.len() > 0,
    ensures
        field_encoding(code, values) == encoding(code as nat) + encoding(values[0] as nat)
            + field_encoding(code, values.drop_first()),
    decreases values.len(),
{
    if values.len() > 1 {
        lemma_field_encoding_front(code, values.drop_last());
        assert(values.drop_last().drop_first() =~= values.drop_first().drop_last());
        assert(values.drop_last()[0] == values[0]);
        assert(values.drop_first().last() == values.last());
        assert(field_encoding(code, values) =~= encoding(code as nat) + encoding(values[0] as nat)
            + field_encoding(code, values.drop_first()));
    } else {
        assert(values.drop_last() =~= Seq::<u128>::empty());
        assert(values.drop_first() =~= Seq::<u128>::empty());
        assert(field_encoding(code, values) =~= encoding(code as nat) + encoding(values[0] as nat)
            + field_encoding(code, values.drop_first()));
    }
}

/// The pairs read back from an encoded field.
proof fn lemma_pairs_of_field_encoding(code: u128, values: Seq<u128>)
    ensures
        payload_pairs(field_encoding(code, values)) == Some(
            Seq::new(values.len(), |i: int| (code, values[i])),
        ),
    decreases values.len(),
{
    let b = field_encoding(code, values);
    if values.len() == 0 {
        assert(Seq::new(values.len(), |i: int| (code, values[i])) =~= Seq::<(u128, u128)>::empty());
    } else {
        let tail = values.drop_first();
        lemma_field_encoding_front(code, values);
        let ec = encoding(code as nat);
        let ev = encoding(values[0] as nat);
        let rest = field_encoding(code, tail);
        lemma_encoding_nonempty(code as nat);
        lemma_encoding_nonempty(values[0] as nat);
        assert(b =~= ec + (ev + rest));
        lemma_decode_encoding(code as nat, ev + rest);
        assert(b.skip(ec.len() as int) =~= ev + rest);
        lemma_decode_encoding(values[0] as nat, rest);
        assert(b.skip((ec.len() + ev.len()) as int) =~= rest);
        lemma_pairs_of_field_encoding(code, tail);
        assert(seq![(code, values[0])] + Seq::new(tail.len(), |i: int| (code, tail[i])) =~= Seq::new(
            values.len(),
            |i: int| (code, values[i]),
        ));
    }
}

/// Pairs that all carry one code group into a map of that code alone.
proof fn lemma_grouped_one_code(code: u128, values: Seq<u128>)
    requires
        values.len() > 0,
    ensures
        grouped(Seq::new(values.len(), |i: int| (code, values[i]))) == map![code => values],
    decreases values.len(),
{
    let p = Seq::new(values.len(), |i: int| (code, values[i]));
    let tail = values.drop_first();
    assert(p.drop_first() =~= Seq::new(tail.len(), |i: int| (code, tail[i])));
    if values.len() == 1 {
        assert(tail =~= Seq::<u128>::empty());
        assert(grouped(p.drop_first()) =~= Map::<u128, Seq<u128>>::empty());
        assert(seq![values[0]] =~= values);
    } else {
        lemma_grouped_one_code(code, tail);
        assert(seq![values[0]] + tail =~= values);
    }
    assert(grouped(p) =~= map![code => values]);
}

/// Encoding `values` under `code`, reading the payload back into a field map,
/// and taking as many values as were encoded gives the values back and leaves
/// no field behind.
pub proof fn lemma_take_encoded(code: u128, values: Seq<u128>)
    requires
        values.len() > 0,
    ensures
        payload_fields(field_encoding(code, values)) == Some(map![code => values]),
        take_prefix(map![code => values], code, values.len()) == Some(
            (values, Map::<u128, Seq<u128>>::empty()),
        ),
{
    lemma_pairs_of_field_encoding(code, values);
    lemma_grouped_one_code(code, values);
    let m = map![code => values];
    assert(values.take(values.len() as int) =~= values);
    assert(m.remove(code) =~= Map::<u128, Seq<u128>>::empty());
}

} // verus!
