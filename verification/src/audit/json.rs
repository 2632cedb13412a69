//! What a JSON reader takes from an exported line.
use crate::audit::export;
use crate::text;
use vstd::prelude::*;

verus! {

/// A value in a JSON object: a whole number or a text.
pub enum JsonValue {
    Number(nat),
    Text(Seq<char>),
}

/// Whether a character is a decimal digit.
pub open spec fn is_digit(c: char) -> bool {
    '0' <= c && c <= '9'
}

/// How many digits a text starts with.
pub open spec fn digit_run(s: Seq<char>) -> int
    decreases s.len(),
{
    if s.len() == 0 || !is_digit(s[0]) {
        0
    } else {
        1 + digit_run(s.skip(1))
    }
}

/// The number that digits stand for.
pub open spec fn number_of(digits: Seq<char>) -> int
    decreases digits.len(),
{
    if digits.len() == 0 {
        0
    } else {
        10 * number_of(digits.drop_last()) + (digits.last() as int - '0' as int)
    }
}

/// How far the inside of a string goes: up to the first quote that is not
/// escaped.
pub open spec fn inside_run(s: Seq<char>) -> int
    decreases s.len(),
{
    if s.len() == 0 || s[0] == '"' {
        0
    } else if s[0] == '\\' && s.len() >= 2 {
        2 + inside_run(s.skip(2))
    } else {
        1 + inside_run(s.skip(1))
    }
}

/// A string at the start of a text, and what comes after it.
pub open spec fn read_text(s: Seq<char>) -> Option<(Seq<char>, Seq<char>)> {
    if s.len() == 0 || s[0] != '"' {
        None
    } else {
        let n = inside_run(s.skip(1));
        let inside = s.skip(1).take(n);
        if n + 1 < s.len() && export::is_json_text(inside) {
            Some((export::json_read(inside), s.skip(n + 2)))
        } else {
            None
        }
    }
}

/// A whole number at the start of a text, and what comes after it. Only zero
/// itself starts with a zero.
pub open spec fn read_number(s: Seq<char>) -> Option<(nat, Seq<char>)> {
    let n = digit_run(s);
    if n == 0 || (n > 1 && s[0] == '0') {
        None
    } else {
        Some((number_of(s.take(n)) as nat, s.skip(n)))
    }
}

/// A value at the start of a text, and what comes after it.
pub open spec fn read_value(s: Seq<char>) -> Option<(JsonValue, Seq<char>)> {
    match read_text(s) {
        Some((t, rest)) => Some((JsonValue::Text(t), rest)),
        None => match read_number(s) {
            Some((n, rest)) => Some((JsonValue::Number(n), rest)),
            None => None,
        },
    }
}

/// A member of an object at the start of a text, and what comes after it.
pub open spec fn read_member(s: Seq<char>) -> Option<((Seq<char>, JsonValue), Seq<char>)> {
    match read_text(s) {
        Some((key, rest)) => if rest.len() > 0 && rest[0] == ':' {
            match read_value(rest.skip(1)) {
                Some((value, after)) => Some(((key, value), after)),
                None => None,
            }
        } else {
            None
        },
        None => None,
    }
}

/// The members of an object up to its closing brace, with which the text ends.
pub open spec fn read_members(s: Seq<char>) -> Option<Seq<(Seq<char>, JsonValue)>>
    decreases s.len(),
{
    match read_member(s) {
        None => None,
        Some((member, rest)) => if rest == seq!['}'] {
            Some(seq![member])
        } else if 0 < rest.len() <= s.len() && rest[0] == ',' {
            match read_members(rest.skip(1)) {
                Some(more) => Some(seq![member] + more),
                None => None,
            }
        } else {
            None
        },
    }
}

/// What a JSON reader takes from a text that is one object of numbers and
/// strings, written without spaces: its members in order.
pub open spec fn read_object(s: Seq<char>) -> Option<Seq<(Seq<char>, JsonValue)>> {
    if s.len() > 0 && s[0] == '{' {
        read_members(s.skip(1))
    } else {
        None
    }
}

/// Whether a text stands for a value wherever something other than a digit
/// follows.
pub open spec fn stands_for(raw: Seq<char>, value: JsonValue) -> bool {
    match value {
        JsonValue::Number(n) => raw == text::decimal(n),
        JsonValue::Text(t) => exists|inside: Seq<char>|
            raw == #[trigger] text::quoted(inside) && export::is_json_text(inside)
                && export::json_read(inside) == t,
    }
}

/// Members as they stand in an object, up to its closing brace.
pub open spec fn members_text(members: Seq<(Seq<char>, Seq<char>)>) -> Seq<char>
    decreases members.len(),
{
    if members.len() == 0 {
        Seq::empty()
    } else {
        let tail = if members.len() == 1 {
            seq!['}']
        } else {
            seq![','] + members_text(members.skip(1))
        };
        text::quoted(members[0].0) + seq![':'] + members[0].1 + tail
    }
}

proof fn lemma_inside_step(c: char, rest: Seq<char>)
    requires
        c != '"',
        c != '\\',
    ensures
        inside_run(seq![c] + rest) == 1 + inside_run(rest),
{
    assert((seq![c] + rest).skip(1) =~= rest);
}

/// The inside of a string ends where its text does.
proof fn lemma_inside_run(inside: Seq<char>, rest: Seq<char>)
    requires
        export::is_json_text(inside),
    ensures
        inside_run(inside + seq!['"'] + rest) == inside.len(),
    decreases inside.len(),
{
    let s = inside + seq!['"'] + rest;
    if inside.len() == 0 {
        assert(s[0] == '"');
    } else if inside[0] == '\\' {
        let n: int = if inside.len() >= 6 && inside[1] == 'u' { 6 } else { 2 };
        lemma_inside_run(inside.skip(n), rest);
        let after = inside.skip(n) + seq!['"'] + rest;
        if n == 2 {
            assert(s.skip(2) =~= after);
        } else {
            let s5 = seq![inside[5]] + after;
            let s4 = seq![inside[4]] + s5;
            let s3 = seq![inside[3]] + s4;
            let s2 = seq![inside[2]] + s3;
            assert(s.skip(2) =~= s2);
            lemma_inside_step(inside[5], after);
            lemma_inside_step(inside[4], s5);
            lemma_inside_step(inside[3], s4);
            lemma_inside_step(inside[2], s3);
        }
    } else {
        lemma_inside_run(inside.skip(1), rest);
        assert(s.skip(1) =~= inside.skip(1) + seq!['"'] + rest);
    }
}

proof fn lemma_read_quoted(inside: Seq<char>, rest: Seq<char>)
    requires
        export::is_json_text(inside),
    ensures
        read_text(text::quoted(inside) + rest) == Some((export::json_read(inside), rest)),
{
    let s = text::quoted(inside) + rest;
    let after = inside + seq!['"'] + rest;
    assert(s.skip(1) =~= after);
    lemma_inside_run(inside, rest);
    assert(s.skip(1).take(inside.len() as int) =~= inside);
    assert(s.skip(inside.len() as int + 2) =~= rest);
}

/// A number in decimal is digits that stand for it, and starts with a zero
/// only where it is zero.
pub(crate) proof fn lemma_decimal(n: nat)
    ensures
        text::decimal(n).len() > 0,
        forall|i: int| 0 <= i < text::decimal(n).len() ==> is_digit(#[trigger] text::decimal(n)[i]),
        number_of(text::decimal(n)) == n,
        n > 0 ==> text::decimal(n)[0] != '0',
        n == 0 ==> text::decimal(n).len() == 1,
    decreases n,
{
    let d = text::decimal(n);
    if n < 10 {
        reveal_with_fuel(number_of, 2);
        assert(d.drop_last() =~= Seq::<char>::empty());
    } else {
        lemma_decimal(n / 10);
        assert(d.drop_last() =~= text::decimal(n / 10));
        assert(d.last() == text::digit_char(n % 10));
        assert(d[0] == text::decimal(n / 10)[0]);
    }
}

proof fn lemma_digit_run(digits: Seq<char>, rest: Seq<char>)
    requires
        forall|i: int| 0 <= i < digits.len() ==> is_digit(#[trigger] digits[i]),
        rest.len() == 0 || !is_digit(rest[0]),
    ensures
        digit_run(digits + rest) == digits.len(),
    decreases digits.len(),
{
    let s = digits + rest;
    if digits.len() == 0 {
        assert(s =~= rest);
    } else {
        let less = digits.skip(1);
        assert forall|i: int| 0 <= i < less.len() implies is_digit(#[trigger] less[i]) by {
            assert(less[i] == digits[i + 1]);
        }
        lemma_digit_run(less, rest);
        assert(is_digit(digits[0]));
        assert(s.skip(1) =~= less + rest);
    }
}

/// What stands for a value is read as that value.
proof fn lemma_read_value(raw: Seq<char>, value: JsonValue, rest: Seq<char>)
    requires
        stands_for(raw, value),
        rest.len() == 0 || !is_digit(rest[0]),
    ensures
        read_value(raw + rest) == Some((value, rest)),
{
    let s = raw + rest;
    match value {
        JsonValue::Number(n) => {
            lemma_decimal(n);
            lemma_digit_run(raw, rest);
            assert(is_digit(raw[0]));
            assert(s[0] == raw[0]);
            assert(s.take(raw.len() as int) =~= raw);
            assert(s.skip(raw.len() as int) =~= rest);
        },
        JsonValue::Text(t) => {
            let inside = choose|inside: Seq<char>|
                raw == #[trigger] text::quoted(inside) && export::is_json_text(inside)
                    && export::json_read(inside) == t;
            lemma_read_quoted(inside, rest);
        },
    }
}

/// Members are read back one for one, where each key is plain and each raw
/// value stands for its value.
pub(crate) proof fn lemma_members_read_back(
    members: Seq<(Seq<char>, Seq<char>)>,
    values: Seq<(Seq<char>, JsonValue)>,
)
    requires
        members.len() == values.len(),
        members.len() > 0,
        forall|i: int|
            0 <= i < members.len() ==> (#[trigger] members[i]).0 == values[i].0
                && export::is_json_text(members[i].0) && export::json_read(members[i].0)
                == members[i].0 && stands_for(members[i].1, values[i].1),
    ensures
        read_members(members_text(members)) == Some(values),
    decreases members.len(),
{
    let s = members_text(members);
    let (key, raw) = members[0];
    let tail = if members.len() == 1 {
        seq!['}']
    } else {
        seq![','] + members_text(members.skip(1))
    };
    let after = seq![':'] + raw + tail;
    assert(s =~= text::quoted(key) + after);
    lemma_read_quoted(key, after);
    assert(after.skip(1) =~= raw + tail);
    lemma_read_value(raw, values[0].1, tail);
    assert(read_member(s) == Some(((key, values[0].1), tail)));
    if members.len() == 1 {
        assert(values =~= seq![values[0]]);
    } else {
        let less = members.skip(1);
        let rest = values.skip(1);
        assert forall|i: int| 0 <= i < less.len() implies (#[trigger] less[i]).0 == rest[i].0
            && export::is_json_text(less[i].0) && export::json_read(less[i].0) == less[i].0
            && stands_for(less[i].1, rest[i].1) by {
            assert(less[i] == members[i + 1] && rest[i] == values[i + 1]);
        }
        lemma_members_read_back(less, rest);
        assert(tail.skip(1) =~= members_text(less));
        assert(tail[0] == ',');
        assert(values =~= seq![values[0]] + rest);
    }
}

} // verus!
