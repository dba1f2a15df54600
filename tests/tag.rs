use ordinals::tag::Tag;
use ordinals::varint::encode_to_vec;
use std::collections::HashMap;
use std::collections::VecDeque;

fn field_map(entries: &[(u128, &[u128])]) -> HashMap<u128, VecDeque<u128>> {
    let mut fields = HashMap::new();
    for (code, values) in entries {
        fields.insert(*code, values.iter().copied().collect::<VecDeque<u128>>());
    }
    fields
}

fn decode_varint(bytes: &[u8]) -> (u128, usize) {
    let mut n = 0u128;
    for (i, byte) in bytes.iter().enumerate() {
        n |= u128::from(byte & 0x7f) << (7 * i);
        if byte & 0x80 == 0 {
            return (n, i + 1);
        }
    }
    panic!("unterminated integer");
}

fn decode_fields(payload: &[u8]) -> HashMap<u128, VecDeque<u128>> {
    let mut fields: HashMap<u128, VecDeque<u128>> = HashMap::new();
    let mut at = 0;
    while at < payload.len() {
        let (code, k) = decode_varint(&payload[at..]);
        at += k;
        let (value, j) = decode_varint(&payload[at..]);
        at += j;
        fields.entry(code).or_default().push_back(value);
    }
    fields
}

#[test]
fn tag_codes() {
    assert_eq!(Tag::Body.code(), 0);
    assert_eq!(Tag::Flags.code(), 2);
    assert_eq!(Tag::Rune.code(), 4);
    assert_eq!(Tag::Premine.code(), 6);
    assert_eq!(Tag::Cap.code(), 8);
    assert_eq!(Tag::Amount.code(), 10);
    assert_eq!(Tag::HeightStart.code(), 12);
    assert_eq!(Tag::HeightEnd.code(), 14);
    assert_eq!(Tag::OffsetStart.code(), 16);
    assert_eq!(Tag::OffsetEnd.code(), 18);
    assert_eq!(Tag::Mint.code(), 20);
    assert_eq!(Tag::Pointer.code(), 22);
    assert_eq!(Tag::Cenotaph.code(), 126);
    assert_eq!(Tag::Divisibility.code(), 1);
    assert_eq!(Tag::Spacers.code(), 3);
    assert_eq!(Tag::Symbol.code(), 5);
    assert_eq!(Tag::Nop.code(), 127);
    assert_eq!(u128::from(Tag::Symbol), 5);
    assert!(Tag::Pointer.is(22));
    assert!(!Tag::Pointer.is(23));
}

#[test]
fn take_arity_example() {
    let mut fields = field_map(&[(4, &[10, 20, 30])]);
    assert_eq!(Tag::Rune.take(&mut fields, |v: [u128; 2]| Some(v)), Some([10, 20]));
    assert_eq!(fields, field_map(&[(4, &[30])]));
    assert_eq!(Tag::Rune.take(&mut fields, |v: [u128; 2]| Some(v)), None);
    assert_eq!(fields, field_map(&[(4, &[30])]));
}

#[test]
fn take_drains_field_and_removes_code() {
    let mut fields = field_map(&[(4, &[10, 20]), (6, &[7])]);
    assert_eq!(Tag::Rune.take(&mut fields, |v: [u128; 2]| Some(v[0] + v[1])), Some(30));
    assert_eq!(fields, field_map(&[(6, &[7])]));
    assert!(!fields.contains_key(&4));
}

#[test]
fn take_absent_code_is_none() {
    let mut fields = field_map(&[(6, &[7])]);
    assert_eq!(Tag::Rune.take(&mut fields, |[v]: [u128; 1]| Some(v)), None);
    assert_eq!(fields, field_map(&[(6, &[7])]));
}

#[test]
fn take_rejected_by_validator_leaves_map() {
    let mut fields = field_map(&[(1, &[40, 2])]);
    let taken = Tag::Divisibility.take(&mut fields, |[v]: [u128; 1]| u8::try_from(v).ok().filter(|d| *d <= 38));
    assert_eq!(taken, None);
    assert_eq!(fields, field_map(&[(1, &[40, 2])]));
    assert_eq!(Tag::Divisibility.take(&mut fields, |[v]: [u128; 1]| Some(v)), Some(40));
    assert_eq!(fields, field_map(&[(1, &[2])]));
}

#[test]
fn take_zero_values() {
    let mut fields = field_map(&[(4, &[1])]);
    assert_eq!(Tag::Rune.take(&mut fields, |v: [u128; 0]| Some(v.len())), Some(0));
    assert_eq!(fields, field_map(&[(4, &[1])]));
}

#[test]
fn encode_writes_code_then_value() {
    let mut payload = vec![9u8];
    Tag::Flags.encode([1, 300], &mut payload);
    assert_eq!(payload, vec![9, 2, 1, 2, 0xac, 0x02]);
}

#[test]
fn encode_option_some_and_none() {
    let mut payload = Vec::new();
    Tag::Pointer.encode_option(None::<u32>, &mut payload);
    assert!(payload.is_empty());
    Tag::Pointer.encode_option(Some(5u32), &mut payload);
    assert_eq!(payload, vec![22, 5]);
    Tag::Cap.encode_option(Some(128u64), &mut payload);
    assert_eq!(payload, vec![22, 5, 8, 0x80, 0x01]);
}

#[test]
fn encode_then_take_round_trip() {
    let values = [3u128, 1 << 70, u128::MAX];
    let mut payload = Vec::new();
    Tag::Premine.encode(values, &mut payload);
    let mut fields = decode_fields(&payload);
    assert_eq!(fields, field_map(&[(6, &values)]));
    assert_eq!(Tag::Premine.take(&mut fields, |v: [u128; 3]| Some(v)), Some(values));
    assert!(fields.is_empty());
}

#[test]
fn varint_encodings() {
    let mut v = Vec::new();
    encode_to_vec(0, &mut v);
    assert_eq!(v, vec![0]);
    let mut v = Vec::new();
    encode_to_vec(127, &mut v);
    assert_eq!(v, vec![127]);
    let mut v = Vec::new();
    encode_to_vec(128, &mut v);
    assert_eq!(v, vec![0x80, 0x01]);
    let mut v = vec![1];
    encode_to_vec(16384, &mut v);
    assert_eq!(v, vec![1, 0x80, 0x80, 0x01]);
    let mut v = Vec::new();
    encode_to_vec(u128::MAX, &mut v);
    assert_eq!(v.len(), 19);
    assert!(v[..18].iter().all(|b| *b == 0xff));
    assert_eq!(v[18], 0x03);
    assert_eq!(decode_varint(&v), (u128::MAX, 19));
}
