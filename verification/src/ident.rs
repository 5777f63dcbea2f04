//! Entry identifiers and their names.
//!
//! An entry is identified by the time of its capture, in milliseconds. The
//! name of an identifier is its decimal numeral without sign or leading
//! zeros; only such names denote entries.

use vstd::prelude::*;
use crate::text::{chars_of, string_of};

verus! {

/// Whether `c` is one of the digits `0` to `9`.
pub open spec fn is_digit(c: char) -> bool {
    0x30 <= c as u32 <= 0x39
}

/// The value of the digit `c`; 0 for any other character.
pub open spec fn digit_value(c: char) -> nat {
    if is_digit(c) {
        (c as u32 - 0x30) as nat
    } else {
        0
    }
}

/// The digit whose value is `d`, for `d` below 10.
pub open spec fn digit_char(d: nat) -> char {
    (0x30 + d) as u8 as char
}

/// The number that the digits of `s` denote in base ten.
pub open spec fn decimal_value(s: Seq<char>) -> nat
    decreases s.len(),
{
    if s.len() == 0 {
        0
    } else {
        decimal_value(s.drop_last()) * 10 + digit_value(s.last())
    }
}

/// Whether `s` is the name of an identifier: a decimal numeral without
/// leading zeros whose value fits 64 bits.
pub open spec fn is_id_name(s: Seq<char>) -> bool {
    &&& s.len() > 0
    &&& forall|i: int| 0 <= i < s.len() ==> is_digit(#[trigger] s[i])
    &&& (s.len() > 1 ==> s[0] != '0')
    &&& decimal_value(s) <= u64::MAX
}

/// The identifier that `s` names, if it names one.
pub open spec fn id_of_name(s: Seq<char>) -> Option<u64> {
    if is_id_name(s) {
        Some(decimal_value(s) as u64)
    } else {
        None
    }
}

/// The name of the identifier `id`.
pub open spec fn name_of_id(id: nat) -> Seq<char>
    decreases id,
{
    if id < 10 {
        seq![digit_char(id)]
    } else {
        name_of_id(id / 10).push(digit_char(id % 10))
    }
}

/// A numeral denotes at least what any of its prefixes denotes.
pub proof fn lemma_value_grows(s: Seq<char>, k: int)
    requires
        0 <= k <= s.len(),
    ensures
        decimal_value(s.subrange(0, k)) <= decimal_value(s),
    decreases s.len(),
{
    if k == s.len() {
        assert(s.subrange(0, k) =~= s);
    } else {
        lemma_value_grows(s.drop_last(), k);
        assert(s.drop_last().subrange(0, k) =~= s.subrange(0, k));
    }
}

/// The digit for a value below ten is a digit, has that value, and is `0`
/// only for the value zero.
pub proof fn lemma_digit_char(d: nat)
    requires
        d < 10,
    ensures
        is_digit(digit_char(d)),
        digit_value(digit_char(d)) == d,
        d != 0 ==> digit_char(d) != '0',
{
}

/// The name of an identifier names that identifier, and only a number below
/// ten has a name of one character.
pub proof fn lemma_name_round_trip(id: nat)
    ensures
        name_of_id(id).len() > 0,
        forall|i: int| 0 <= i < name_of_id(id).len() ==> is_digit(#[trigger] name_of_id(id)[i]),
        id > 0 ==> name_of_id(id)[0] != '0',
        id >= 10 ==> name_of_id(id).len() > 1,
        decimal_value(name_of_id(id)) == id,
    decreases id,
{
    if id < 10 {
        lemma_digit_char(id);
        let s = name_of_id(id);
        assert(s.drop_last() =~= Seq::<char>::empty());
        assert(decimal_value(s.drop_last()) == 0);
    } else {
        lemma_name_round_trip(id / 10);
        lemma_digit_char(id % 10);
        let head = name_of_id(id / 10);
        let s = name_of_id(id);
        assert(s.drop_last() =~= head);
        assert(s[0] == head[0]);
    }
}

/// Parsing the name of an identifier gives the identifier back.
pub proof fn lemma_parse_of_name(id: u64)
    ensures
        id_of_name(name_of_id(id as nat)) == Some(id),
{
    lemma_name_round_trip(id as nat);
}

/// The identifier that `name` denotes, or `None` where `name` is not the
/// name of an identifier.
pub fn parse_id(name: &str) -> (id: Option<u64>)
    ensures
        id == id_of_name(name@),
{
    let chars = chars_of(name);
    let n = chars.len();
    if n == 0 {
        return None;
    }
    if n > 1 && chars[0] == '0' {
        return None;
    }
    let mut acc: u64 = 0;
    let mut i: usize = 0;
    while i < n
        invariant
            i <= n,
            n == chars.len(),
            chars@ == name@,
            forall|j: int| 0 <= j < i ==> is_digit(#[trigger] name@[j]),
            acc == decimal_value(name@.subrange(0, i as int)),
        decreases n - i,
    {
        let c: u32 = chars[i] as u32;
        if c < 0x30 || c > 0x39 {
            assert(!is_digit(name@[i as int]));
            return None;
        }
        let d: u64 = (c - 0x30) as u64;
        proof {
            let next = name@.subrange(0, i + 1);
            assert(next.drop_last() =~= name@.subrange(0, i as int));
            assert(next.last() == name@[i as int]);
            assert(decimal_value(next) == acc * 10 + d);
            lemma_value_grows(name@, i + 1);
        }
        if acc > (u64::MAX - d) / 10 {
            return None;
        }
        acc = acc * 10 + d;
        i += 1;
    }
    assert(name@.subrange(0, n as int) =~= name@);
    Some(acc)
}

/// The identifiers that `names` name, in the order of the names; a name
/// that names none is passed over.
pub open spec fn ids_named(names: Seq<String>) -> Seq<u64>
    decreases names.len(),
{
    if names.len() == 0 {
        Seq::empty()
    } else {
        match id_of_name(names.last()@) {
            Some(id) => ids_named(names.drop_last()).push(id),
            None => ids_named(names.drop_last()),
        }
    }
}

/// The identifiers among the names of a storage root, in the order of the
/// names. Hidden names, and all others that are not the name of an
/// identifier, are passed over.
pub fn entry_ids(names: &Vec<String>) -> (ids: Vec<u64>)
    ensures
        ids@ == ids_named(names@),
{
    let mut ids: Vec<u64> = Vec::new();
    let mut i: usize = 0;
    while i < names.len()
        invariant
            i <= names.len(),
            ids@ == ids_named(names@.subrange(0, i as int)),
        decreases names.len() - i,
    {
        proof {
            let next = names@.subrange(0, i + 1);
            assert(next.drop_last() =~= names@.subrange(0, i as int));
            assert(next.last() == names@[i as int]);
        }
        match parse_id(names[i].as_str()) {
            Some(id) => {
                ids.push(id);
            },
            None => {},
        }
        i += 1;
    }
    assert(names@.subrange(0, i as int) =~= names@);
    ids
}

/// A name that starts with `.` names no identifier.
pub proof fn lemma_hidden_names_no_id(name: Seq<char>)
    requires
        name.len() > 0,
        name[0] == '.',
    ensures
        id_of_name(name) is None,
{
}

/// Appends the name of `id` to `out`.
fn push_name(id: u64, out: &mut Vec<char>)
    ensures
        final(out)@ == old(out)@ + name_of_id(id as nat),
    decreases id,
{
    if id >= 10 {
        push_name(id / 10, out);
    }
    let d: u8 = (id % 10) as u8;
    out.push((0x30 + d) as char);
    assert(final(out)@ =~= old(out)@ + name_of_id(id as nat));
}

/// The name of `id`.
pub fn render_id(id: u64) -> (name: String)
    ensures
        name@ == name_of_id(id as nat),
        id_of_name(name@) == Some(id),
{
    let mut out: Vec<char> = Vec::new();
    push_name(id, &mut out);
    proof {
        assert(out@ =~= name_of_id(id as nat));
        lemma_parse_of_name(id);
    }
    string_of(&out)
}

} // verus!
