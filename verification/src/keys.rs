//! Lookup keys for chat identifiers: phone numbers become runs of digits in
//! several forms, e-mail addresses are trimmed and lower-cased.
use vstd::prelude::*;
use crate::text::{ascii_lower, ascii_lowercased, is_ascii_digit, push_char, str_contains_char, to_ascii_lowercase, trim, trimmed};

verus! {

/// The ASCII digits of `s`, in order.
pub open spec fn ascii_digits(s: Seq<char>) -> Seq<char>
    decreases s.len(),
{
    if s.len() == 0 {
        Seq::empty()
    } else if is_ascii_digit(s.last()) {
        ascii_digits(s.drop_last()).push(s.last())
    } else {
        ascii_digits(s.drop_last())
    }
}

/// The candidate keys of a phone number, most specific first: all of its
/// digits; without the leading `1` of an eleven-digit North American number;
/// without the trunk prefix `0` of a national number of ten or more digits;
/// the last ten digits of a number longer than ten; and the last nine digits
/// of a number longer than ten that starts with neither `0` nor `1`, that is,
/// of an international number outside North America. That last key lets
/// the international form of a number meet its national form when the
/// national significant number has nine digits.
pub open spec fn phone_keys_of(raw: Seq<char>) -> Seq<Seq<char>> {
    let d = ascii_digits(raw);
    if d.len() == 0 {
        Seq::empty()
    } else {
        let k1 = seq![d];
        let k2 = if d.len() == 11 && d[0] == '1' { k1.push(d.drop_first()) } else { k1 };
        let k3 = if d[0] == '0' && d.len() >= 10 { k2.push(d.drop_first()) } else { k2 };
        let k4 = if d.len() > 10 { k3.push(d.subrange(d.len() - 10, d.len() as int)) } else { k3 };
        if d.len() > 10 && d[0] != '0' && d[0] != '1' { k4.push(d.subrange(d.len() - 9, d.len() as int)) } else { k4 }
    }
}

/// The key of an e-mail address: trimmed, then ASCII lower case.
pub open spec fn email_key(raw: Seq<char>) -> Seq<char> {
    ascii_lowercased(trimmed(raw))
}

/// Keys of a chat identifier: an e-mail address (it holds `@`) has its one
/// key unless that is empty; anything else is taken for a phone number.
pub open spec fn identifier_keys(raw: Seq<char>) -> Seq<Seq<char>> {
    if raw.contains('@') {
        if email_key(raw).len() == 0 {
            Seq::empty()
        } else {
            seq![email_key(raw)]
        }
    } else {
        phone_keys_of(raw)
    }
}

pub proof fn lemma_ascii_digits_are_digits(s: Seq<char>)
    ensures
        forall|i: int| 0 <= i < ascii_digits(s).len() ==> is_ascii_digit(#[trigger] ascii_digits(s)[i]),
        ascii_digits(s).len() <= s.len(),
    decreases s.len(),
{
    if s.len() > 0 {
        lemma_ascii_digits_are_digits(s.drop_last());
    }
}

/// Every phone key is a non-empty run of ASCII digits that ends the number's
/// digits, and the first key is all of them.
pub proof fn lemma_phone_keys_shape(raw: Seq<char>)
    ensures
        ascii_digits(raw).len() > 0 ==> phone_keys_of(raw)[0] == ascii_digits(raw),
        ascii_digits(raw).len() == 0 <==> phone_keys_of(raw).len() == 0,
        phone_keys_of(raw).len() <= 3,
        forall|i: int| 0 <= i < phone_keys_of(raw).len() ==> {
            let k = #[trigger] phone_keys_of(raw)[i];
            &&& k.len() > 0
            &&& k.len() <= ascii_digits(raw).len()
            &&& k == ascii_digits(raw).subrange(ascii_digits(raw).len() - k.len(), ascii_digits(raw).len() as int)
            &&& forall|j: int| 0 <= j < k.len() ==> is_ascii_digit(#[trigger] k[j])
        },
{
    lemma_ascii_digits_are_digits(raw);
    let d = ascii_digits(raw);
    if d.len() > 0 {
        assert(d.subrange(0, d.len() as int) =~= d);
        assert(d.subrange(1, d.len() as int) =~= d.drop_first());
    }
}

/// The keys under which a phone number is filed and looked up
/// (see [`phone_keys_of`]).
pub fn phone_keys(raw: &str) -> (keys: Vec<String>)
    ensures
        keys.deep_view() == phone_keys_of(raw@),
{
    let n: usize = raw.unicode_len();
    let mut digits = String::new();
    let mut i: usize = 0;
    while i < n
        invariant
            n == raw@.len(),
            i <= n,
            digits@ == ascii_digits(raw@.take(i as int)),
        decreases n - i,
    {
        let c: char = raw.get_char(i);
        assert(raw@.take(i + 1).drop_last() =~= raw@.take(i as int));
        if '0' <= c && c <= '9' {
            push_char(&mut digits, c);
        }
        i = i + 1;
    }
    assert(raw@.take(n as int) =~= raw@);
    let ghost d = digits@;
    let dlen: usize = digits.as_str().unicode_len();
    let mut keys: Vec<String> = Vec::with_capacity(3);
    if dlen == 0 {
        assert(keys.deep_view() =~= phone_keys_of(raw@));
        return keys;
    }
    let first: char = digits.as_str().get_char(0);
    let ghost k1 = seq![d];
    let ghost k2 = if d.len() == 11 && d[0] == '1' { k1.push(d.drop_first()) } else { k1 };
    let ghost k3 = if d[0] == '0' && d.len() >= 10 { k2.push(d.drop_first()) } else { k2 };
    let ghost k4 = if d.len() > 10 { k3.push(d.subrange(d.len() - 10, d.len() as int)) } else { k3 };
    let rest = String::from_str(digits.as_str().substring_char(1, dlen));
    assert(rest@ =~= d.drop_first());
    keys.push(digits.clone());
    assert(keys.deep_view() =~= k1);
    if dlen == 11 && first == '1' {
        keys.push(rest.clone());
    }
    assert(keys.deep_view() =~= k2);
    if first == '0' && dlen >= 10 {
        keys.push(rest);
    }
    assert(keys.deep_view() =~= k3);
    if dlen > 10 {
        keys.push(String::from_str(digits.as_str().substring_char(dlen - 10, dlen)));
    }
    assert(keys.deep_view() =~= k4);
    if dlen > 10 && first != '0' && first != '1' {
        keys.push(String::from_str(digits.as_str().substring_char(dlen - 9, dlen)));
    }
    assert(keys.deep_view() =~= phone_keys_of(raw@));
    keys
}

/// An e-mail address as a lookup key: trimmed, ASCII letters lower-cased.
pub fn normalize_email(raw: &str) -> (key: String)
    ensures
        key@ == email_key(raw@),
{
    to_ascii_lowercase(trim(raw))
}

/// The keys of a chat identifier (see [`identifier_keys`]).
pub fn phone_or_email_keys(raw: &str) -> (keys: Vec<String>)
    ensures
        keys.deep_view() == identifier_keys(raw@),
{
    if str_contains_char(raw, '@') {
        let e = normalize_email(raw);
        if e.as_str().unicode_len() == 0 {
            let keys: Vec<String> = Vec::new();
            assert(keys.deep_view() =~= identifier_keys(raw@));
            keys
        } else {
            let mut keys: Vec<String> = Vec::new();
            keys.push(e);
            assert(keys.deep_view() =~= identifier_keys(raw@));
            keys
        }
    } else {
        phone_keys(raw)
    }
}

/// The most specific key of an identifier, or the empty string when it has
/// none.
pub fn normalize_identifier_for_debug(raw: &str) -> (key: String)
    ensures
        identifier_keys(raw@).len() > 0 ==> key@ == identifier_keys(raw@)[0],
        identifier_keys(raw@).len() == 0 ==> key@ == Seq::<char>::empty(),
{
    let keys = phone_or_email_keys(raw);
    if keys.len() > 0 {
        assert(keys.deep_view()[0] == keys@[0]@);
        keys[0].clone()
    } else {
        String::new()
    }
}

/// A North American number written with its country code `1` and the same
/// ten-digit number written without it share a key: the ten digits.
pub proof fn lemma_country_code_one_shares_key(with_code: Seq<char>, national: Seq<char>, t: Seq<char>)
    requires
        t.len() == 10,
        ascii_digits(with_code) == seq!['1'] + t,
        ascii_digits(national) == t,
    ensures
        phone_keys_of(with_code).contains(t),
        phone_keys_of(national).contains(t),
{
    let d = ascii_digits(with_code);
    assert(d.drop_first() =~= t);
    assert(phone_keys_of(with_code)[1] == t);
    assert(phone_keys_of(national)[0] == t);
}

/// An international number that ends in ten digits `t` and a national number
/// written as the trunk prefix `0` followed by `t` share a key: `t`.
pub proof fn lemma_trunk_prefix_shares_key(international: Seq<char>, national: Seq<char>, code: Seq<char>, t: Seq<char>)
    requires
        t.len() == 10,
        code.len() >= 1,
        ascii_digits(international) == code + t,
        ascii_digits(national) == seq!['0'] + t,
    ensures
        phone_keys_of(international).contains(t),
        phone_keys_of(national).contains(t),
{
    let a = ascii_digits(international);
    let b = ascii_digits(national);
    assert(a.subrange(a.len() - 10, a.len() as int) =~= t);
    assert(b.drop_first() =~= t);
    let ka = phone_keys_of(international);
    let kb = phone_keys_of(national);
    if a[0] == '0' || a[0] == '1' {
        assert(ka[ka.len() - 1] == t);
    } else {
        assert(ka[ka.len() - 2] == t);
    }
    assert(b[0] == '0');
    assert(kb[1] == t);
}

/// The international form of a number (a country code that starts with
/// neither `0` nor `1`, then the national significant number `t`) and its
/// national form (the trunk prefix `0`, then `t`) share a key whenever `t`
/// has at least nine digits and the two together more than ten: `t` itself
/// when it has nine digits, else its last ten. (No country code starts with
/// `0`; code `1` is covered by [`lemma_country_code_one_shares_key`]; the
/// only other one-digit code, `7`, has ten-digit national numbers.)
pub proof fn lemma_national_and_international_share_key(
    international: Seq<char>,
    national: Seq<char>,
    code: Seq<char>,
    t: Seq<char>,
)
    requires
        t.len() >= 9,
        code.len() >= 1,
        code[0] != '0',
        code[0] != '1',
        code.len() + t.len() > 10,
        ascii_digits(international) == code + t,
        ascii_digits(national) == seq!['0'] + t,
    ensures
        ({
            let shared = if t.len() == 9 { t } else { t.subrange(t.len() - 10, t.len() as int) };
            phone_keys_of(international).contains(shared) && phone_keys_of(national).contains(shared)
        }),
{
    let a = ascii_digits(international);
    let b = ascii_digits(national);
    let ka = phone_keys_of(international);
    let kb = phone_keys_of(national);
    assert(a[0] == code[0]);
    assert(b[0] == '0');
    assert(b.drop_first() =~= t);
    if t.len() == 9 {
        assert(a.subrange(a.len() - 9, a.len() as int) =~= t);
        assert(ka[ka.len() - 1] == t);
        assert(kb[1] == t);
    } else {
        let s10 = t.subrange(t.len() - 10, t.len() as int);
        assert(a.subrange(a.len() - 10, a.len() as int) =~= s10);
        assert(b.subrange(b.len() - 10, b.len() as int) =~= s10);
        assert(ka[1] == s10);
        if t.len() == 10 {
            assert(t =~= s10);
            assert(kb[1] == s10);
        } else {
            assert(kb[2] == s10);
        }
    }
}

/// An identifier holding `@` is an e-mail address whatever digits it holds:
/// its one key is the identifier trimmed of white space with ASCII letters
/// lower-cased, and it has no key when that is empty. Only an identifier
/// without `@` is read as a phone number.
pub proof fn lemma_identifier_keys_dispatch(raw: Seq<char>)
    ensures
        raw.contains('@') && trimmed(raw).len() > 0 ==> identifier_keys(raw) == seq![ascii_lowercased(trimmed(raw))],
        raw.contains('@') && trimmed(raw).len() == 0 ==> identifier_keys(raw).len() == 0,
        !raw.contains('@') ==> identifier_keys(raw) == phone_keys_of(raw),
{
}

/// An e-mail key holds no white space at either end and no ASCII capital,
/// has the length of the trimmed address, and agrees with it on every
/// character but ASCII capitals.
pub proof fn lemma_email_key_shape(raw: Seq<char>)
    ensures
        email_key(raw).len() == trimmed(raw).len(),
        forall|i: int| 0 <= i < email_key(raw).len() ==> !('A' <= #[trigger] email_key(raw)[i] && email_key(raw)[i] <= 'Z'),
        forall|i: int| 0 <= i < email_key(raw).len() && !('A' <= trimmed(raw)[i] && trimmed(raw)[i] <= 'Z') ==>
            #[trigger] email_key(raw)[i] == trimmed(raw)[i],
{
    let t = trimmed(raw);
    assert forall|i: int| 0 <= i < email_key(raw).len() implies !('A' <= #[trigger] email_key(raw)[i] && email_key(raw)[i] <= 'Z') by {
        let c = t[i];
        assert(email_key(raw)[i] == ascii_lower(c));
        if 'A' <= c && c <= 'Z' {
            assert((c as u32) + 32 >= 97);
        }
    }
}

} // verus!
