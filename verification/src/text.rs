//! Dotted-decimal text: rendering an address and reading one.

use crate::types::VlsmError;
use vstd::prelude::*;
use vstd::string::*;

verus! {

/// The character of a decimal digit.
pub open spec fn digit_char(d: nat) -> char {
    ((d + 48) as u8) as char
}

/// A number in decimal, without leading zeros.
pub open spec fn decimal_text(n: nat) -> Seq<char>
    decreases n,
{
    if n < 10 {
        seq![digit_char(n)]
    } else {
        decimal_text(n / 10).push(digit_char(n % 10))
    }
}

/// An address in dotted decimal: its four octets in decimal, separated by dots.
pub open spec fn dotted_text(ip: Seq<u8>) -> Seq<char> {
    decimal_text(ip[0] as nat) + seq!['.'] + decimal_text(ip[1] as nat) + seq!['.'] + decimal_text(
        ip[2] as nat,
    ) + seq!['.'] + decimal_text(ip[3] as nat)
}

/// The one-character text of a decimal digit.
fn digit_str(d: u8) -> (s: &'static str)
    requires
        d < 10,
    ensures
        s@ == seq![digit_char(d as nat)],
{
    proof {
        reveal_strlit("0");
        reveal_strlit("1");
        reveal_strlit("2");
        reveal_strlit("3");
        reveal_strlit("4");
        reveal_strlit("5");
        reveal_strlit("6");
        reveal_strlit("7");
        reveal_strlit("8");
        reveal_strlit("9");
    }
    let s: &'static str = if d == 0 {
        "0"
    } else if d == 1 {
        "1"
    } else if d == 2 {
        "2"
    } else if d == 3 {
        "3"
    } else if d == 4 {
        "4"
    } else if d == 5 {
        "5"
    } else if d == 6 {
        "6"
    } else if d == 7 {
        "7"
    } else if d == 8 {
        "8"
    } else {
        "9"
    };
    assert(s@ =~= seq![digit_char(d as nat)]);
    s
}

/// Appends an octet in decimal to `out`.
fn push_octet(out: &mut String, octet: u8)
    ensures
        final(out)@ == old(out)@ + decimal_text(octet as nat),
{
    let ghost before = out@;
    proof {
        reveal_with_fuel(decimal_text, 3);
    }
    if octet >= 100 {
        out.append(digit_str(octet / 100));
    }
    if octet >= 10 {
        out.append(digit_str((octet / 10) % 10));
    }
    out.append(digit_str(octet % 10));
    assert(out@ =~= before + decimal_text(octet as nat));
}

/// Renders an address in dotted decimal, without leading zeros.
pub fn decimal_ip_into_string(ipv4: [u8; 4]) -> (text: String)
    ensures
        text@ == dotted_text(ipv4@),
{
    proof {
        reveal_strlit(".");
    }
    let mut text = String::new();
    push_octet(&mut text, ipv4[0]);
    text.append(".");
    push_octet(&mut text, ipv4[1]);
    text.append(".");
    push_octet(&mut text, ipv4[2]);
    text.append(".");
    push_octet(&mut text, ipv4[3]);
    assert(text@ =~= dotted_text(ipv4@));
    text
}

/// Whether a character is a decimal digit.
pub open spec fn is_digit(c: char) -> bool {
    48 <= c as int <= 57
}

/// The number that a decimal digit stands for.
pub open spec fn digit_value(c: char) -> nat {
    (c as int - 48) as nat
}

/// The number that a run of decimal digits spells.
pub open spec fn decimal_value(digits: Seq<char>) -> nat
    decreases digits.len(),
{
    if digits.len() == 0 {
        0
    } else {
        10 * decimal_value(digits.drop_last()) + digit_value(digits.last())
    }
}

/// Whether every character is a decimal digit.
pub open spec fn all_digits(s: Seq<char>) -> bool {
    forall|i: int| 0 <= i < s.len() ==> is_digit(#[trigger] s[i])
}

/// A field without its optional leading plus sign.
pub open spec fn unsigned_part(field: Seq<char>) -> Seq<char> {
    if field.len() > 0 && field[0] == '+' {
        field.skip(1)
    } else {
        field
    }
}

/// The octet that a field spells: an optional plus sign, then one or more
/// decimal digits, leading zeros allowed, with a value of at most 255.
pub open spec fn parse_octet(field: Seq<char>) -> Option<u8> {
    let digits = unsigned_part(field);
    if digits.len() > 0 && all_digits(digits) && decimal_value(digits) <= 255 {
        Some(decimal_value(digits) as u8)
    } else {
        None
    }
}

/// The fields of a text, split at every dot. The empty text has one empty
/// field.
pub open spec fn split_fields(s: Seq<char>) -> Seq<Seq<char>>
    decreases s.len(),
{
    if s.len() == 0 {
        seq![Seq::empty()]
    } else {
        let before = split_fields(s.drop_last());
        if s.last() == '.' {
            before.push(Seq::empty())
        } else {
            before.update(before.len() - 1, before.last().push(s.last()))
        }
    }
}

/// The address that a text spells: exactly four fields, each an octet.
pub open spec fn parse_address(s: Seq<char>) -> Option<Seq<u8>> {
    let fields = split_fields(s);
    if fields.len() == 4 && (forall|k: int| 0 <= k < 4 ==> parse_octet(#[trigger] fields[k]) is Some) {
        Some(Seq::new(4, |k: int| parse_octet(fields[k])->0))
    } else {
        None
    }
}

/// Whether a field can still grow into an octet: it is empty, a lone plus
/// sign, or an octet already.
spec fn valid_prefix(field: Seq<char>) -> bool {
    field.len() == 0 || field == seq!['+'] || parse_octet(field) is Some
}

/// Whether a text can no longer grow into an address: it has too many fields,
/// a finished field that is no octet, or a last field that cannot become one.
spec fn hopeless(s: Seq<char>) -> bool {
    let fields = split_fields(s);
    ||| fields.len() > 4
    ||| exists|k: int| 0 <= k < fields.len() - 1 && parse_octet(#[trigger] fields[k]) is None
    ||| !valid_prefix(fields.last())
}

/// A text always has at least one field.
proof fn lemma_split_fields_nonempty(s: Seq<char>)
    ensures
        split_fields(s).len() >= 1,
    decreases s.len(),
{
    if s.len() > 0 {
        lemma_split_fields_nonempty(s.drop_last());
    }
}

/// A field that can still grow into an octet had a beginning that could.
proof fn lemma_valid_prefix_shrinks(field: Seq<char>, c: char)
    requires
        valid_prefix(field.push(c)),
    ensures
        valid_prefix(field),
{
    let longer = field.push(c);
    if field.len() > 0 && longer != seq!['+'] {
        assert(longer[0] == field[0]);
        let digits = unsigned_part(field);
        let more = unsigned_part(longer);
        assert(more =~= digits.push(c));
        assert(more.drop_last() =~= digits);
        assert forall|i: int| 0 <= i < digits.len() implies is_digit(#[trigger] digits[i]) by {
            assert(more[i] == digits[i]);
        }
        if digits.len() == 0 {
            assert(field =~= seq!['+']);
        }
    }
}

/// A hopeless text stays hopeless when a character is added.
proof fn lemma_hopeless_step(s: Seq<char>, c: char)
    requires
        hopeless(s),
    ensures
        hopeless(s.push(c)),
{
    let longer = s.push(c);
    assert(longer.drop_last() =~= s);
    lemma_split_fields_nonempty(s);
    let fields = split_fields(s);
    let more = split_fields(longer);
    if fields.len() > 4 {
    } else if exists|k: int| 0 <= k < fields.len() - 1 && parse_octet(#[trigger] fields[k]) is None {
        let k = choose|k: int| 0 <= k < fields.len() - 1 && parse_octet(#[trigger] fields[k]) is None;
        assert(more[k] == fields[k]);
    } else {
        if c == '.' {
            let k = fields.len() - 1;
            assert(more[k] == fields[k]);
            assert(parse_octet(more[k]) is None);
        } else {
            if valid_prefix(more.last()) {
                lemma_valid_prefix_shrinks(fields.last(), c);
            }
        }
    }
}

/// A hopeless text spells no address, whatever follows it.
proof fn lemma_hopeless_forever(s: Seq<char>, rest: Seq<char>)
    requires
        hopeless(s),
    ensures
        hopeless(s + rest),
        parse_address(s + rest) is None,
    decreases rest.len(),
{
    if rest.len() == 0 {
        assert(s + rest =~= s);
    } else {
        lemma_hopeless_forever(s, rest.drop_last());
        lemma_hopeless_step(s + rest.drop_last(), rest.last());
        assert(s + rest =~= (s + rest.drop_last()).push(rest.last()));
    }
    lemma_split_fields_nonempty(s + rest);
    let fields = split_fields(s + rest);
    if fields.len() == 4 {
        if exists|k: int| 0 <= k < fields.len() - 1 && parse_octet(#[trigger] fields[k]) is None {
            let k = choose|k: int|
                0 <= k < fields.len() - 1 && parse_octet(#[trigger] fields[k]) is None;
            assert(parse_octet(fields[k]) is None);
        } else {
            assert(parse_octet(fields[3]) is None);
        }
    }
}

/// What the reader holds after the text `seen`: the octets of the finished
/// fields, and of the field in progress its sign, whether it has digits, and
/// their value.
spec fn reader_state(
    seen: Seq<char>,
    octets: Seq<u8>,
    count: usize,
    signed: bool,
    has_digits: bool,
    value: u16,
) -> bool {
    let fields = split_fields(seen);
    let current = fields.last();
    &&& fields.len() == count + 1
    &&& count <= 3
    &&& forall|k: int| 0 <= k < count ==> parse_octet(#[trigger] fields[k]) == Some(octets[k])
    &&& signed == (current.len() > 0 && current[0] == '+')
    &&& all_digits(unsigned_part(current))
    &&& has_digits == (unsigned_part(current).len() > 0)
    &&& value == decimal_value(unsigned_part(current))
    &&& value <= 255
}

/// Reads an address in dotted decimal: exactly four fields separated by dots,
/// each an optional plus sign followed by decimal digits with a value of at
/// most 255. Any other text is rejected, and the error carries the text.
pub fn str_into_decimal_ip(ip: &str) -> (result: Result<[u8; 4], VlsmError>)
    ensures
        match result {
            Ok(address) => parse_address(ip@) == Some(address@),
            Err(e) => {
                &&& parse_address(ip@) is None
                &&& e matches VlsmError::FormatError { input }
                &&& input@ == ip@
            },
        },
{
    let mut octets: [u8; 4] = [0; 4];
    let mut count: usize = 0;
    let mut signed: bool = false;
    let mut has_digits: bool = false;
    let mut value: u16 = 0;
    for c in it: ip.chars()
        invariant
            it.seq() == ip@,
            reader_state(ip@.take(it.index() as int), octets@, count, signed, has_digits, value),
    {
        let ghost seen = ip@.take(it.index() as int);
        let ghost next = ip@.take(it.index() + 1);
        let ghost rest = ip@.skip(it.index() + 1);
        let ghost fields = split_fields(seen);
        let ghost current = fields.last();
        proof {
            assert(next =~= seen.push(c));
            assert(next.drop_last() =~= seen);
            assert(next + rest =~= ip@);
            assert(unsigned_part(current.push(c)) =~= if current.len() == 0 && c == '+' {
                Seq::empty()
            } else {
                unsigned_part(current).push(c)
            });
            assert(unsigned_part(current.push(c)).len() > 0 ==> unsigned_part(
                current.push(c),
            ).drop_last() =~= unsigned_part(current));
        }
        if c == '.' {
            if !has_digits || count == 3 {
                proof {
                    assert(split_fields(next)[count as int] == current);
                    lemma_hopeless_forever(next, rest);
                }
                return Err(VlsmError::FormatError { input: ip.to_owned() });
            }
            let ghost prior = octets@;
            octets[count] = value as u8;
            proof {
                assert(octets@ == prior.update(count as int, value as u8));
                assert forall|k: int| 0 <= k < count + 1 implies parse_octet(
                    #[trigger] split_fields(next)[k],
                ) == Some(octets@[k]) by {
                    assert(split_fields(next)[k] == fields[k]);
                }
            }
            count += 1;
            signed = false;
            has_digits = false;
            value = 0;
        } else if c == '+' {
            if signed || has_digits {
                proof {
                    let grown = current.push(c);
                    assert(unsigned_part(grown)[unsigned_part(grown).len() - 1] == '+');
                    lemma_hopeless_forever(next, rest);
                }
                return Err(VlsmError::FormatError { input: ip.to_owned() });
            }
            signed = true;
        } else if '0' <= c && c <= '9' {
            let digit: u16 = (c as u32 - 48) as u16;
            let grown: u16 = value * 10 + digit;
            if grown > 255 {
                proof {
                    lemma_hopeless_forever(next, rest);
                }
                return Err(VlsmError::FormatError { input: ip.to_owned() });
            }
            value = grown;
            has_digits = true;
        } else {
            proof {
                let grown = current.push(c);
                assert(unsigned_part(grown)[unsigned_part(grown).len() - 1] == c);
                lemma_hopeless_forever(next, rest);
            }
            return Err(VlsmError::FormatError { input: ip.to_owned() });
        }
    }
    assert(ip@.take(ip@.len() as int) =~= ip@);
    if count == 3 && has_digits {
        let ghost prior = octets@;
        octets[3] = value as u8;
        proof {
            assert(octets@ == prior.update(3, value as u8));
            assert(Seq::new(4, |k: int| parse_octet(split_fields(ip@)[k])->0) =~= octets@);
        }
        Ok(octets)
    } else {
        Err(VlsmError::FormatError { input: ip.to_owned() })
    }
}

/// Whether a text holds no dot.
spec fn dotless(s: Seq<char>) -> bool {
    forall|i: int| 0 <= i < s.len() ==> #[trigger] s[i] != '.'
}

/// A number in decimal is a run of one or more digits that spells the number.
pub proof fn lemma_decimal_text(n: nat)
    ensures
        decimal_text(n).len() > 0,
        all_digits(decimal_text(n)),
        decimal_value(decimal_text(n)) == n,
    decreases n,
{
    if n < 10 {
        assert(decimal_text(n).drop_last() =~= Seq::<char>::empty());
        assert(decimal_value(decimal_text(n).drop_last()) == 0);
    } else {
        lemma_decimal_text(n / 10);
        assert(decimal_text(n).drop_last() =~= decimal_text(n / 10));
    }
}

/// A text without a dot is one field.
proof fn lemma_split_dotless(s: Seq<char>)
    requires
        dotless(s),
    ensures
        split_fields(s) == seq![s],
    decreases s.len(),
{
    if s.len() == 0 {
        assert(s =~= Seq::<char>::empty());
    } else {
        lemma_split_dotless(s.drop_last());
        assert(s[s.len() - 1] != '.');
        assert(s.drop_last().push(s.last()) =~= s);
        assert(split_fields(s) =~= seq![s]);
    }
}

/// A dot and a text without a dot add one field: that text.
proof fn lemma_split_append(head: Seq<char>, field: Seq<char>)
    requires
        dotless(field),
    ensures
        split_fields(head + seq!['.'] + field) == split_fields(head).push(field),
    decreases field.len(),
{
    let whole = head + seq!['.'] + field;
    if field.len() == 0 {
        assert(whole.drop_last() =~= head);
        assert(field =~= Seq::<char>::empty());
    } else {
        let shorter = field.drop_last();
        lemma_split_append(head, shorter);
        assert(field[field.len() - 1] != '.');
        assert(whole.last() == field.last());
        assert(whole.drop_last() =~= head + seq!['.'] + shorter);
        assert(shorter.push(field.last()) =~= field);
        assert(split_fields(whole) =~= split_fields(head).push(field));
    }
}

/// Round trip through the text: an address rendered in dotted decimal reads
/// back as the same address.
pub proof fn lemma_parse_dotted(ip: Seq<u8>)
    requires
        ip.len() == 4,
    ensures
        parse_address(dotted_text(ip)) == Some(ip),
{
    let d0 = decimal_text(ip[0] as nat);
    let d1 = decimal_text(ip[1] as nat);
    let d2 = decimal_text(ip[2] as nat);
    let d3 = decimal_text(ip[3] as nat);
    lemma_decimal_text(ip[0] as nat);
    lemma_decimal_text(ip[1] as nat);
    lemma_decimal_text(ip[2] as nat);
    lemma_decimal_text(ip[3] as nat);
    lemma_split_dotless(d0);
    lemma_split_append(d0, d1);
    lemma_split_append(d0 + seq!['.'] + d1, d2);
    lemma_split_append(d0 + seq!['.'] + d1 + seq!['.'] + d2, d3);
    let fields = split_fields(dotted_text(ip));
    assert(fields =~= seq![d0, d1, d2, d3]);
    assert forall|k: int| 0 <= k < 4 implies parse_octet(#[trigger] fields[k]) == Some(ip[k]) by {
        assert(fields[k] == decimal_text(ip[k] as nat));
        assert(is_digit(fields[k][0]));
    }
    assert(Seq::new(4, |k: int| parse_octet(fields[k])->0) =~= ip);
}

} // verus!
