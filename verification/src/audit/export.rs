//! Export of the audit log as text.
use crate::audit::csv;
use crate::audit::json;
use crate::audit::json::JsonValue;
use crate::audit::records::{AuditEventType, AuditLog};
use crate::host;
use crate::text;
use crate::values;
use crate::values::Symbol;
use soroban_sdk::Env;
use vstd::prelude::*;
use vstd::string::*;

verus! {

/// The columns of an exported row, in order.
pub const CSV_HEADER: &'static str =
    "seq,timestamp,event_type,actor,permissions,portfolio,outcome,detail";

/// The name of an event type.
pub open spec fn event_name(t: AuditEventType) -> Seq<char> {
    match t {
        AuditEventType::Rebalance => "Rebalance"@,
        AuditEventType::Stake => "Stake"@,
        AuditEventType::Unstake => "Unstake"@,
        AuditEventType::EmergencyUnstake => "EmergencyUnstake"@,
        AuditEventType::YieldAccrual => "YieldAccrual"@,
        AuditEventType::Deposit => "Deposit"@,
        AuditEventType::Withdrawal => "Withdrawal"@,
        AuditEventType::ScheduleChange => "ScheduleChange"@,
        AuditEventType::AdminAction => "AdminAction"@,
        AuditEventType::Custom => "Custom"@,
    }
}

/// The hexadecimal digit of a number below sixteen.
pub open spec fn hex_digit(n: int) -> char {
    if n < 10 {
        ('0' as int + n) as char
    } else {
        ('a' as int + n - 10) as char
    }
}

/// Whether a character is one of the hexadecimal digits that are written.
pub open spec fn is_hex_digit(c: char) -> bool {
    '0' <= c <= '9' || 'a' <= c <= 'f'
}

/// The number of a hexadecimal digit.
pub open spec fn hex_value(c: char) -> int {
    if c <= '9' {
        c as int - '0' as int
    } else {
        c as int - 'a' as int + 10
    }
}

/// A character as it stands in a JSON string.
pub open spec fn json_char(c: char) -> Seq<char> {
    if c == '"' {
        seq!['\\', '"']
    } else if c == '\\' {
        seq!['\\', '\\']
    } else if c == '\n' {
        seq!['\\', 'n']
    } else if c == '\r' {
        seq!['\\', 'r']
    } else if c == '\t' {
        seq!['\\', 't']
    } else if ' ' <= c {
        seq![c]
    } else {
        seq!['\\', 'u', '0', '0', hex_digit(c as int / 16), hex_digit(c as int % 16)]
    }
}

/// A text as it stands in a JSON string.
pub open spec fn json_escaped(s: Seq<char>) -> Seq<char>
    decreases s.len(),
{
    if s.len() == 0 {
        Seq::empty()
    } else {
        json_escaped(s.drop_last()) + json_char(s.last())
    }
}

/// Whether a CSV field has to be in quotes.
pub open spec fn needs_quotes(s: Seq<char>) -> bool {
    s.contains(',') || s.contains('"') || s.contains('\n')
}

/// A text with its quotes doubled.
pub open spec fn doubled(s: Seq<char>) -> Seq<char>
    decreases s.len(),
{
    if s.len() == 0 {
        Seq::empty()
    } else if s.last() == '"' {
        doubled(s.drop_last()) + seq!['"', '"']
    } else {
        doubled(s.drop_last()).push(s.last())
    }
}

/// A text as a CSV field.
pub open spec fn csv_escaped(s: Seq<char>) -> Seq<char> {
    if needs_quotes(s) {
        seq!['"'] + doubled(s) + seq!['"']
    } else {
        s
    }
}

/// An entry as a JSON object.
pub open spec fn json_entry(entry: AuditLog) -> Seq<char> {
    "{\"seq\":"@ + text::decimal(entry.seq as nat) + ",\"timestamp\":"@ + text::decimal(
        entry.timestamp as nat,
    ) + ",\"event_type\":"@ + text::quoted(event_name(entry.event_type)) + ",\"actor\":"@
        + text::quoted(host::strkey(entry.actor.xdr())) + ",\"permissions\":"@ + text::decimal(
        entry.permissions as nat,
    ) + ",\"portfolio\":"@ + text::quoted(entry.portfolio.text()) + ",\"outcome\":"@
        + text::quoted(entry.outcome.text()) + ",\"detail\":"@ + text::quoted(
        json_escaped(entry.detail@),
    ) + "}"@
}

/// An entry as a CSV row.
pub open spec fn csv_row(entry: AuditLog) -> Seq<char> {
    text::decimal(entry.seq as nat) + ","@ + text::decimal(entry.timestamp as nat) + ","@
        + event_name(entry.event_type) + ","@ + text::quoted(host::strkey(entry.actor.xdr())) + ","@
        + text::decimal(entry.permissions as nat) + ","@ + text::quoted(entry.portfolio.text())
        + ","@ + text::quoted(entry.outcome.text()) + ","@ + csv_escaped(entry.detail@)
}

/// What an entry tells, as the members of a JSON object.
pub open spec fn entry_members(entry: AuditLog) -> Seq<(Seq<char>, JsonValue)> {
    seq![
        ("seq"@, JsonValue::Number(entry.seq as nat)),
        ("timestamp"@, JsonValue::Number(entry.timestamp as nat)),
        ("event_type"@, JsonValue::Text(event_name(entry.event_type))),
        ("actor"@, JsonValue::Text(host::strkey(entry.actor.xdr()))),
        ("permissions"@, JsonValue::Number(entry.permissions as nat)),
        ("portfolio"@, JsonValue::Text(entry.portfolio.text())),
        ("outcome"@, JsonValue::Text(entry.outcome.text())),
        ("detail"@, JsonValue::Text(entry.detail@)),
    ]
}

/// The members of an entry as they are written.
spec fn written_members(entry: AuditLog) -> Seq<(Seq<char>, Seq<char>)> {
    seq![
        ("seq"@, text::decimal(entry.seq as nat)),
        ("timestamp"@, text::decimal(entry.timestamp as nat)),
        ("event_type"@, text::quoted(event_name(entry.event_type))),
        ("actor"@, text::quoted(host::strkey(entry.actor.xdr()))),
        ("permissions"@, text::decimal(entry.permissions as nat)),
        ("portfolio"@, text::quoted(entry.portfolio.text())),
        ("outcome"@, text::quoted(entry.outcome.text())),
        ("detail"@, text::quoted(json_escaped(entry.detail@))),
    ]
}

/// The names of the columns of an exported row, in order.
pub open spec fn columns() -> Seq<Seq<char>> {
    seq![
        "seq"@,
        "timestamp"@,
        "event_type"@,
        "actor"@,
        "permissions"@,
        "portfolio"@,
        "outcome"@,
        "detail"@,
    ]
}

/// What an entry tells, column by column.
pub open spec fn entry_fields(entry: AuditLog) -> Seq<Seq<char>> {
    seq![
        text::decimal(entry.seq as nat),
        text::decimal(entry.timestamp as nat),
        event_name(entry.event_type),
        host::strkey(entry.actor.xdr()),
        text::decimal(entry.permissions as nat),
        entry.portfolio.text(),
        entry.outcome.text(),
        entry.detail@,
    ]
}

/// The columns of an entry as they are written.
spec fn written_fields(entry: AuditLog) -> Seq<Seq<char>> {
    seq![
        text::decimal(entry.seq as nat),
        text::decimal(entry.timestamp as nat),
        event_name(entry.event_type),
        text::quoted(host::strkey(entry.actor.xdr())),
        text::decimal(entry.permissions as nat),
        text::quoted(entry.portfolio.text()),
        text::quoted(entry.outcome.text()),
        csv_escaped(entry.detail@),
    ]
}

/// Whether a text is nothing but letters, digits and underscores.
pub open spec fn is_plain(s: Seq<char>) -> bool {
    forall|i: int| 0 <= i < s.len() ==> values::is_symbol_char(#[trigger] s[i])
}

/// Texts as values.
pub open spec fn texts(list: Seq<String>) -> Seq<Seq<char>> {
    Seq::new(list.len(), |i: int| list[i]@)
}

/// The entries as JSON objects.
pub open spec fn json_entries(entries: Seq<AuditLog>) -> Seq<Seq<char>> {
    Seq::new(entries.len(), |i: int| json_entry(entries[i]))
}

/// The entries as CSV rows.
pub open spec fn csv_rows(entries: Seq<AuditLog>) -> Seq<Seq<char>> {
    Seq::new(entries.len(), |i: int| csv_row(entries[i]))
}

/// Whether a text can be the inside of a JSON string: quotes and backslashes
/// come escaped, and characters below the space not at all.
pub open spec fn is_json_text(s: Seq<char>) -> bool
    decreases s.len(),
{
    if s.len() == 0 {
        true
    } else if s[0] == '\\' && s.len() >= 6 && s[1] == 'u' {
        is_hex_digit(s[2]) && is_hex_digit(s[3]) && is_hex_digit(s[4]) && is_hex_digit(s[5])
            && is_json_text(s.skip(6))
    } else if s[0] == '\\' {
        s.len() >= 2 && (s[1] == '"' || s[1] == '\\' || s[1] == 'n' || s[1] == 'r' || s[1] == 't')
            && is_json_text(s.skip(2))
    } else {
        s[0] != '"' && ' ' <= s[0] && is_json_text(s.skip(1))
    }
}

/// What a JSON reader takes from the inside of a string.
pub open spec fn json_read(s: Seq<char>) -> Seq<char>
    decreases s.len(),
{
    if s.len() == 0 {
        Seq::empty()
    } else if s[0] == '\\' && s.len() >= 6 && s[1] == 'u' {
        let n = hex_value(s[2]) * 4096 + hex_value(s[3]) * 256 + hex_value(s[4]) * 16 + hex_value(
            s[5],
        );
        seq![n as char] + json_read(s.skip(6))
    } else if s[0] == '\\' && s.len() >= 2 {
        let c = if s[1] == 'n' {
            '\n'
        } else if s[1] == 'r' {
            '\r'
        } else if s[1] == 't' {
            '\t'
        } else {
            s[1]
        };
        seq![c] + json_read(s.skip(2))
    } else {
        seq![s[0]] + json_read(s.skip(1))
    }
}

/// What a CSV reader takes from the inside of quotes.
pub open spec fn undoubled(s: Seq<char>) -> Seq<char>
    decreases s.len(),
{
    if s.len() == 0 {
        Seq::empty()
    } else if s[0] == '"' && s.len() >= 2 && s[1] == '"' {
        seq!['"'] + undoubled(s.skip(2))
    } else {
        seq![s[0]] + undoubled(s.skip(1))
    }
}

/// What a CSV reader takes from a field.
pub open spec fn csv_read(field: Seq<char>) -> Seq<char> {
    if field.len() >= 2 && field[0] == '"' {
        undoubled(field.subrange(1, field.len() - 1))
    } else {
        field
    }
}

proof fn lemma_json_escaped_front(c: char, s: Seq<char>)
    ensures
        json_escaped(seq![c] + s) == json_char(c) + json_escaped(s),
    decreases s.len(),
{
    let whole = seq![c] + s;
    if s.len() == 0 {
        reveal_with_fuel(json_escaped, 2);
        assert(whole.drop_last() =~= Seq::<char>::empty());
        assert(json_escaped(whole) =~= json_char(c) + json_escaped(s));
    } else {
        assert(whole.drop_last() =~= seq![c] + s.drop_last());
        assert(whole.last() == s.last());
        lemma_json_escaped_front(c, s.drop_last());
        assert(json_escaped(whole) =~= json_char(c) + json_escaped(s));
    }
}

pub(crate) proof fn lemma_doubled_front(c: char, s: Seq<char>)
    ensures
        doubled(seq![c] + s) == (if c == '"' {
            seq!['"', '"']
        } else {
            seq![c]
        }) + doubled(s),
    decreases s.len(),
{
    let whole = seq![c] + s;
    let head = if c == '"' {
        seq!['"', '"']
    } else {
        seq![c]
    };
    if s.len() == 0 {
        reveal_with_fuel(doubled, 2);
        assert(whole.drop_last() =~= Seq::<char>::empty());
        assert(doubled(whole) =~= head + doubled(s));
    } else {
        assert(whole.drop_last() =~= seq![c] + s.drop_last());
        assert(whole.last() == s.last());
        lemma_doubled_front(c, s.drop_last());
        assert(doubled(whole) =~= head + doubled(s));
    }
}

/// Names and addresses, which hold nothing but letters, digits and
/// underscores, stand in a JSON string as they are.
pub proof fn plain_text_reads_back(s: Seq<char>)
    requires
        is_plain(s),
    ensures
        is_json_text(s),
        json_read(s) == s,
    decreases s.len(),
{
    if s.len() > 0 {
        let rest = s.skip(1);
        assert forall|i: int| 0 <= i < rest.len() implies values::is_symbol_char(#[trigger] rest[i]) by {
            assert(rest[i] == s[i + 1]);
        }
        assert(values::is_symbol_char(s[0]));
        plain_text_reads_back(rest);
        assert(json_read(s) =~= s);
    }
}

proof fn lemma_hex_reads_back(c: char)
    requires
        !(' ' <= c),
    ensures
        is_hex_digit(hex_digit(c as int / 16)),
        is_hex_digit(hex_digit(c as int % 16)),
        hex_value(hex_digit(c as int / 16)) == c as int / 16,
        hex_value(hex_digit(c as int % 16)) == c as int % 16,
{
}

/// An escaped text can be the inside of a JSON string, and a JSON reader gets
/// the text back that was escaped.
pub proof fn json_text_reads_back(s: Seq<char>)
    ensures
        is_json_text(json_escaped(s)),
        json_read(json_escaped(s)) == s,
    decreases s.len(),
{
    if s.len() > 0 {
        let rest = s.skip(1);
        let c = s[0];
        assert(s =~= seq![c] + rest);
        lemma_json_escaped_front(c, rest);
        json_text_reads_back(rest);
        let out = json_escaped(s);
        assert(out == json_char(c) + json_escaped(rest));
        if json_char(c).len() == 2 {
            assert(out.skip(2) =~= json_escaped(rest));
        } else if json_char(c).len() == 6 {
            assert(out.skip(6) =~= json_escaped(rest));
            assert(out[1] == 'u');
            let high = c as int / 16;
            let low = c as int % 16;
            assert(out[4] == hex_digit(high) && out[5] == hex_digit(low));
            lemma_hex_reads_back(c);
            assert(hex_value(out[4]) == high && hex_value(out[5]) == low);
        } else {
            assert(out.skip(1) =~= json_escaped(rest));
        }
        assert(json_read(out) =~= seq![c] + rest);
    }
}

/// A member that is written after others.
proof fn lemma_member(
    before: Seq<char>,
    opening: Seq<char>,
    key: Seq<char>,
    value: Seq<char>,
    rest: Seq<char>,
)
    requires
        opening == seq![','] + text::quoted(key) + seq![':'],
    ensures
        before + opening + value + rest == before + (seq![','] + (text::quoted(key) + seq![':']
            + value + rest)),
{
    assert(before + opening + value + rest =~= before + (seq![','] + (text::quoted(key) + seq![':']
        + value + rest)));
}

/// The names that a JSON object gives to the parts of an entry.
proof fn lemma_keys()
    ensures
        "{\"seq\":"@ == seq!['{'] + text::quoted("seq"@) + seq![':'],
        ",\"timestamp\":"@ == seq![','] + text::quoted("timestamp"@) + seq![':'],
        ",\"event_type\":"@ == seq![','] + text::quoted("event_type"@) + seq![':'],
        ",\"actor\":"@ == seq![','] + text::quoted("actor"@) + seq![':'],
        ",\"permissions\":"@ == seq![','] + text::quoted("permissions"@) + seq![':'],
        ",\"portfolio\":"@ == seq![','] + text::quoted("portfolio"@) + seq![':'],
        ",\"outcome\":"@ == seq![','] + text::quoted("outcome"@) + seq![':'],
        ",\"detail\":"@ == seq![','] + text::quoted("detail"@) + seq![':'],
        "}"@ == seq!['}'],
        is_plain("seq"@),
        is_plain("timestamp"@),
        is_plain("event_type"@),
        is_plain("actor"@),
        is_plain("permissions"@),
        is_plain("portfolio"@),
        is_plain("outcome"@),
        is_plain("detail"@),
{
    reveal_strlit("seq");
    reveal_strlit("timestamp");
    reveal_strlit("event_type");
    reveal_strlit("actor");
    reveal_strlit("permissions");
    reveal_strlit("portfolio");
    reveal_strlit("outcome");
    reveal_strlit("detail");
    reveal_strlit("{\"seq\":");
    reveal_strlit(",\"timestamp\":");
    reveal_strlit(",\"event_type\":");
    reveal_strlit(",\"actor\":");
    reveal_strlit(",\"permissions\":");
    reveal_strlit(",\"portfolio\":");
    reveal_strlit(",\"outcome\":");
    reveal_strlit(",\"detail\":");
    reveal_strlit("}");
}

/// The names of event types are plain.
proof fn lemma_event_names(t: AuditEventType)
    ensures
        is_plain(event_name(t)),
{
    reveal_strlit("Rebalance");
    reveal_strlit("Stake");
    reveal_strlit("Unstake");
    reveal_strlit("EmergencyUnstake");
    reveal_strlit("YieldAccrual");
    reveal_strlit("Deposit");
    reveal_strlit("Withdrawal");
    reveal_strlit("ScheduleChange");
    reveal_strlit("AdminAction");
    reveal_strlit("Custom");
}

/// Eight members, each after its name, are an object without its closing
/// brace.
proof fn lemma_object_of_eight(m: Seq<(Seq<char>, Seq<char>)>, opening: Seq<Seq<char>>)
    requires
        m.len() == 8,
        opening.len() == 8,
        opening[0] == seq!['{'] + text::quoted(m[0].0) + seq![':'],
        forall|i: int|
            1 <= i < 8 ==> #[trigger] opening[i] == seq![','] + text::quoted(m[i].0) + seq![':'],
    ensures
        opening[0] + m[0].1 + opening[1] + m[1].1 + opening[2] + m[2].1 + opening[3] + m[3].1
            + opening[4] + m[4].1 + opening[5] + m[5].1 + opening[6] + m[6].1 + opening[7] + m[7].1
            + seq!['}'] == seq!['{'] + json::members_text(m),
{
    let a0 = opening[0] + m[0].1;
    let a1 = a0 + opening[1] + m[1].1;
    let a2 = a1 + opening[2] + m[2].1;
    let a3 = a2 + opening[3] + m[3].1;
    let a4 = a3 + opening[4] + m[4].1;
    let a5 = a4 + opening[5] + m[5].1;
    let a6 = a5 + opening[6] + m[6].1;
    let t8 = seq!['}'];
    lemma_member(a6, opening[7], m[7].0, m[7].1, t8);
    let t7 = seq![','] + json::members_text(m.skip(7));
    lemma_member(a5, opening[6], m[6].0, m[6].1, t7);
    let t6 = seq![','] + json::members_text(m.skip(6));
    lemma_tail(m, 6);
    lemma_member(a4, opening[5], m[5].0, m[5].1, t6);
    let t5 = seq![','] + json::members_text(m.skip(5));
    lemma_tail(m, 5);
    lemma_member(a3, opening[4], m[4].0, m[4].1, t5);
    let t4 = seq![','] + json::members_text(m.skip(4));
    lemma_tail(m, 4);
    lemma_member(a2, opening[3], m[3].0, m[3].1, t4);
    let t3 = seq![','] + json::members_text(m.skip(3));
    lemma_tail(m, 3);
    lemma_member(a1, opening[2], m[2].0, m[2].1, t3);
    let t2 = seq![','] + json::members_text(m.skip(2));
    lemma_tail(m, 2);
    lemma_member(a0, opening[1], m[1].0, m[1].1, t2);
    let t1 = seq![','] + json::members_text(m.skip(1));
    lemma_tail(m, 1);
    assert(a0 + t1 =~= seq!['{'] + (text::quoted(m[0].0) + seq![':'] + m[0].1 + t1));
}

/// The members from `k` on: member `k`, and those after it.
proof fn lemma_tail(m: Seq<(Seq<char>, Seq<char>)>, k: int)
    requires
        0 <= k < m.len() - 1,
    ensures
        json::members_text(m.skip(k)) == text::quoted(m[k].0) + seq![':'] + m[k].1 + (seq![',']
            + json::members_text(m.skip(k + 1))),
{
    assert(m.skip(k).skip(1) =~= m.skip(k + 1));
}

/// An entry as a JSON object is its members in braces.
proof fn lemma_entry_is_its_members(entry: AuditLog)
    ensures
        json_entry(entry) == seq!['{'] + json::members_text(written_members(entry)),
{
    lemma_keys();
    lemma_object_of_eight(
        written_members(entry),
        seq![
            "{\"seq\":"@,
            ",\"timestamp\":"@,
            ",\"event_type\":"@,
            ",\"actor\":"@,
            ",\"permissions\":"@,
            ",\"portfolio\":"@,
            ",\"outcome\":"@,
            ",\"detail\":"@,
        ],
    );
}

/// A text in quotes stands for what a JSON reader takes from it.
proof fn lemma_stands_for(inside: Seq<char>)
    requires
        is_json_text(inside),
    ensures
        json::stands_for(text::quoted(inside), JsonValue::Text(json_read(inside))),
{
}

/// An entry's JSON line is one object, from which a reader takes the entry's
/// own values. Symbols must be made of letters, digits and underscores, as the
/// host's are, and so is a strkey.
pub proof fn json_line_reads_back(entry: AuditLog)
    requires
        entry.portfolio.is_valid(),
        entry.outcome.is_valid(),
        is_plain(host::strkey(entry.actor.xdr())),
    ensures
        json::read_object(json_entry(entry)) == Some(entry_members(entry)),
{
    let m = written_members(entry);
    let values = entry_members(entry);
    let detail = json_escaped(entry.detail@);
    lemma_entry_is_its_members(entry);
    lemma_keys();
    lemma_event_names(entry.event_type);
    plain_text_reads_back(event_name(entry.event_type));
    plain_text_reads_back(host::strkey(entry.actor.xdr()));
    plain_text_reads_back(entry.portfolio.text());
    plain_text_reads_back(entry.outcome.text());
    json_text_reads_back(entry.detail@);
    lemma_stands_for(event_name(entry.event_type));
    lemma_stands_for(host::strkey(entry.actor.xdr()));
    lemma_stands_for(entry.portfolio.text());
    lemma_stands_for(entry.outcome.text());
    lemma_stands_for(detail);
    assert forall|i: int| 0 <= i < m.len() implies (#[trigger] m[i]).0 == values[i].0
        && is_json_text(m[i].0) && json_read(m[i].0) == m[i].0 && json::stands_for(
        m[i].1,
        values[i].1,
    ) by {
        assert(is_plain(m[i].0));
        plain_text_reads_back(m[i].0);
    }
    json::lemma_members_read_back(m, values);
    let line = json_entry(entry);
    assert(line.skip(1) =~= json::members_text(m));
    assert(line[0] == '{');
}

/// Equal JSON strings come of equal texts.
pub proof fn json_escaping_is_injective(a: Seq<char>, b: Seq<char>)
    requires
        json_escaped(a) == json_escaped(b),
    ensures
        a == b,
{
    json_text_reads_back(a);
    json_text_reads_back(b);
}

pub(crate) proof fn lemma_undoubled_reads_back(s: Seq<char>)
    ensures
        undoubled(doubled(s)) == s,
    decreases s.len(),
{
    if s.len() > 0 {
        let rest = s.skip(1);
        let c = s[0];
        assert(s =~= seq![c] + rest);
        lemma_doubled_front(c, rest);
        lemma_undoubled_reads_back(rest);
        let out = doubled(s);
        if c == '"' {
            assert(out.skip(2) =~= doubled(rest));
        } else {
            assert(out.skip(1) =~= doubled(rest));
        }
        assert(undoubled(out) =~= seq![c] + rest);
    }
}

/// A CSV reader gets the text back that was made a field.
pub proof fn csv_text_reads_back(s: Seq<char>)
    ensures
        csv_read(csv_escaped(s)) == s,
{
    if needs_quotes(s) {
        let field = csv_escaped(s);
        assert(field.subrange(1, field.len() - 1) =~= doubled(s));
        lemma_undoubled_reads_back(s);
    } else if s.len() > 0 && s[0] == '"' {
        assert(s.contains(s[0]));
    }
}

/// A field that is written after others.
proof fn lemma_field(before: Seq<char>, field: Seq<char>, rest: Seq<char>)
    ensures
        before + ","@ + field + rest == before + (seq![','] + (field + rest)),
{
    reveal_strlit(",");
    assert(before + ","@ + field + rest =~= before + (seq![','] + (field + rest)));
}

/// Eight fields with commas between them are a row.
proof fn lemma_row_of_eight(f: Seq<Seq<char>>)
    requires
        f.len() == 8,
    ensures
        f[0] + ","@ + f[1] + ","@ + f[2] + ","@ + f[3] + ","@ + f[4] + ","@ + f[5] + ","@ + f[6]
            + ","@ + f[7] == csv::row_text(f),
{
    reveal_strlit(",");
    let g1 = f.skip(1);
    let g2 = g1.skip(1);
    let g3 = g2.skip(1);
    let g4 = g3.skip(1);
    let g5 = g4.skip(1);
    let g6 = g5.skip(1);
    let g7 = g6.skip(1);
    let a1 = f[0] + ","@ + f[1];
    let a2 = a1 + ","@ + f[2];
    let a3 = a2 + ","@ + f[3];
    let a4 = a3 + ","@ + f[4];
    let a5 = a4 + ","@ + f[5];
    let a6 = a5 + ","@ + f[6];
    let t7 = seq![','] + csv::row_text(g7);
    assert(a6 + ","@ + f[7] =~= a6 + t7);
    lemma_field(a5, f[6], t7);
    let t6 = seq![','] + csv::row_text(g6);
    assert(a6 + t7 == a5 + t6);
    lemma_field(a4, f[5], t6);
    let t5 = seq![','] + csv::row_text(g5);
    assert(a5 + t6 == a4 + t5);
    lemma_field(a3, f[4], t5);
    let t4 = seq![','] + csv::row_text(g4);
    assert(a4 + t5 == a3 + t4);
    lemma_field(a2, f[3], t4);
    let t3 = seq![','] + csv::row_text(g3);
    assert(a3 + t4 == a2 + t3);
    lemma_field(a1, f[2], t3);
    let t2 = seq![','] + csv::row_text(g2);
    assert(a2 + t3 == a1 + t2);
    lemma_field(f[0], f[1], t2);
    let t1 = seq![','] + csv::row_text(g1);
    assert(a1 + t2 == f[0] + t1);
}

/// A plain text needs no quotes, and stands in them as it is.
proof fn lemma_plain_field(s: Seq<char>)
    requires
        is_plain(s),
    ensures
        csv::stands_for(s, s),
        csv::stands_for(text::quoted(s), s),
{
    assert(!s.contains('"'));
    csv::lemma_nothing_to_double(s);
}

/// A number in decimal is plain.
proof fn lemma_plain_decimal(n: nat)
    ensures
        is_plain(text::decimal(n)),
{
    json::lemma_decimal(n);
    assert forall|i: int| 0 <= i < text::decimal(n).len() implies values::is_symbol_char(
        #[trigger] text::decimal(n)[i],
    ) by {
        assert(json::is_digit(text::decimal(n)[i]));
    }
}

/// The first exported row names the columns.
pub proof fn the_header_reads_back()
    ensures
        csv::read_row(CSV_HEADER@) == Some(columns()),
{
    let names = columns();
    lemma_keys();
    lemma_row_of_eight(names);
    reveal_strlit("seq,timestamp,event_type,actor,permissions,portfolio,outcome,detail");
    reveal_strlit(",");
    reveal_strlit("seq");
    reveal_strlit("timestamp");
    reveal_strlit("event_type");
    reveal_strlit("actor");
    reveal_strlit("permissions");
    reveal_strlit("portfolio");
    reveal_strlit("outcome");
    reveal_strlit("detail");
    assert(CSV_HEADER@ =~= csv::row_text(names));
    assert forall|i: int| 0 <= i < names.len() implies csv::stands_for(
        #[trigger] names[i],
        names[i],
    ) by {
        assert(is_plain(names[i]));
        lemma_plain_field(names[i]);
    }
    csv::lemma_row_reads_back(names, names);
}

/// An entry's row has one field for each column of the header, and a reader
/// takes the entry's own values from them. Symbols must be made of letters,
/// digits and underscores, as the host's are, and so is a strkey.
pub proof fn csv_row_reads_back(entry: AuditLog)
    requires
        entry.portfolio.is_valid(),
        entry.outcome.is_valid(),
        is_plain(host::strkey(entry.actor.xdr())),
    ensures
        csv::read_row(csv_row(entry)) == Some(entry_fields(entry)),
        entry_fields(entry).len() == columns().len(),
{
    let fields = written_fields(entry);
    lemma_row_of_eight(fields);
    lemma_plain_decimal(entry.seq as nat);
    lemma_plain_decimal(entry.timestamp as nat);
    lemma_plain_decimal(entry.permissions as nat);
    lemma_event_names(entry.event_type);
    lemma_plain_field(text::decimal(entry.seq as nat));
    lemma_plain_field(text::decimal(entry.timestamp as nat));
    lemma_plain_field(event_name(entry.event_type));
    lemma_plain_field(host::strkey(entry.actor.xdr()));
    lemma_plain_field(text::decimal(entry.permissions as nat));
    lemma_plain_field(entry.portfolio.text());
    lemma_plain_field(entry.outcome.text());
    csv::lemma_row_reads_back(fields, entry_fields(entry));
}

/// Equal CSV fields come of equal texts.
pub proof fn csv_escaping_is_injective(a: Seq<char>, b: Seq<char>)
    requires
        csv_escaped(a) == csv_escaped(b),
    ensures
        a == b,
{
    csv_text_reads_back(a);
    csv_text_reads_back(b);
}

/// The strkey of who acted.
fn actor_text(env: &Env, entry: &AuditLog) -> (text: String)
    ensures
        text@ == host::strkey(entry.actor.xdr()),
        text@.len() == 56,
        forall|i: int| 0 <= i < text@.len() ==> host::is_base32_char(#[trigger] text@[i]),
{
    let xdr = entry.actor.to_xdr();
    assert(entry.actor.xdr() == xdr@);
    host::address_strkey(env, &xdr)
}

/// The text of a name.
fn symbol_text(symbol: &Symbol) -> (text: String)
    ensures
        text@ == symbol.text(),
{
    let bytes = symbol.to_bytes();
    let ghost whole = symbol.text();
    let mut text = String::new();
    let mut i: usize = 0;
    while i < bytes.len()
        invariant
            i <= bytes@.len(),
            bytes@ == symbol.bytes(),
            whole == symbol.text(),
            text@ == whole.take(i as int),
        decreases bytes@.len() - i,
    {
        text.push(bytes[i] as char);
        i += 1;
        assert(whole.take(i as int) =~= whole.take(i - 1).push(whole[i - 1]));
    }
    assert(whole.take(i as int) =~= whole);
    text
}

/// An entry as one JSON object.
pub fn format_json_entry(env: &Env, entry: &AuditLog) -> (line: String)
    ensures
        line@ == json_entry(*entry),
        host::strkey(entry.actor.xdr()).len() == 56,
        forall|i: int|
            0 <= i < host::strkey(entry.actor.xdr()).len() ==> host::is_base32_char(
                #[trigger] host::strkey(entry.actor.xdr())[i],
            ),
        entry.portfolio.is_valid() && entry.outcome.is_valid() ==> json::read_object(line@) == Some(
            entry_members(*entry),
        ),
{
    let mut line = String::new();
    line.append("{\"seq\":");
    text::push_decimal(&mut line, entry.seq);
    line.append(",\"timestamp\":");
    text::push_decimal(&mut line, entry.timestamp);
    line.append(",\"event_type\":");
    text::push_quoted(&mut line, event_type_name(entry.event_type));
    line.append(",\"actor\":");
    let actor = actor_text(env, entry);
    text::push_quoted(&mut line, actor.as_str());
    line.append(",\"permissions\":");
    text::push_decimal(&mut line, entry.permissions as u64);
    line.append(",\"portfolio\":");
    text::push_quoted(&mut line, symbol_text(&entry.portfolio).as_str());
    line.append(",\"outcome\":");
    text::push_quoted(&mut line, symbol_text(&entry.outcome).as_str());
    line.append(",\"detail\":");
    text::push_quoted(&mut line, json_escape(entry.detail.as_str()).as_str());
    line.append("}");
    assert(line@ =~= json_entry(*entry));
    proof {
        if entry.portfolio.is_valid() && entry.outcome.is_valid() {
            json_line_reads_back(*entry);
        }
    }
    line
}

/// An entry as one CSV row.
pub fn format_csv_row(env: &Env, entry: &AuditLog) -> (row: String)
    ensures
        row@ == csv_row(*entry),
        entry.portfolio.is_valid() && entry.outcome.is_valid() ==> csv::read_row(row@) == Some(
            entry_fields(*entry),
        ),
{
    let mut row = String::new();
    text::push_decimal(&mut row, entry.seq);
    row.append(",");
    text::push_decimal(&mut row, entry.timestamp);
    row.append(",");
    row.append(event_type_name(entry.event_type));
    row.append(",");
    let actor = actor_text(env, entry);
    text::push_quoted(&mut row, actor.as_str());
    row.append(",");
    text::push_decimal(&mut row, entry.permissions as u64);
    row.append(",");
    text::push_quoted(&mut row, symbol_text(&entry.portfolio).as_str());
    row.append(",");
    text::push_quoted(&mut row, symbol_text(&entry.outcome).as_str());
    row.append(",");
    row.append(csv_escape(entry.detail.as_str()).as_str());
    assert(row@ =~= csv_row(*entry));
    proof {
        if entry.portfolio.is_valid() && entry.outcome.is_valid() {
            csv_row_reads_back(*entry);
        }
    }
    row
}

/// The entries as JSON lines, one object each, from which a reader takes the
/// entry's own values.
pub fn format_jsonl(env: &Env, entries: &Vec<AuditLog>) -> (lines: Vec<String>)
    ensures
        texts(lines@) == json_entries(entries@),
        forall|i: int|
            0 <= i < entries@.len() && (#[trigger] entries@[i]).portfolio.is_valid()
                && entries@[i].outcome.is_valid() ==> json::read_object(lines@[i]@) == Some(
                entry_members(entries@[i]),
            ),
{
    let mut lines: Vec<String> = Vec::new();
    let mut i: usize = 0;
    while i < entries.len()
        invariant
            i <= entries@.len(),
            lines@.len() == i,
            texts(lines@) == json_entries(entries@).take(i as int),
            forall|j: int|
                0 <= j < i && (#[trigger] entries@[j]).portfolio.is_valid()
                    && entries@[j].outcome.is_valid() ==> json::read_object(lines@[j]@) == Some(
                    entry_members(entries@[j]),
                ),
        decreases entries@.len() - i,
    {
        let ghost before = lines@;
        lines.push(format_json_entry(env, &entries[i]));
        i += 1;
        assert(texts(lines@) =~= texts(before).push(json_entry(entries@[i - 1])));
        assert(texts(lines@) =~= json_entries(entries@).take(i as int));
    }
    assert(json_entries(entries@).take(i as int) =~= json_entries(entries@));
    lines
}

/// The header and the entries as CSV rows, from which a reader takes the names
/// of the columns and the entry's own values.
pub fn format_csv(env: &Env, entries: &Vec<AuditLog>) -> (rows: Vec<String>)
    ensures
        texts(rows@) == seq![CSV_HEADER@] + csv_rows(entries@),
        csv::read_row(rows@[0]@) == Some(columns()),
        forall|i: int|
            0 <= i < entries@.len() && (#[trigger] entries@[i]).portfolio.is_valid()
                && entries@[i].outcome.is_valid() ==> csv::read_row(rows@[i + 1]@) == Some(
                entry_fields(entries@[i]),
            ),
{
    let ghost all = seq![CSV_HEADER@] + csv_rows(entries@);
    let mut rows: Vec<String> = Vec::new();
    rows.push(CSV_HEADER.to_owned());
    let mut i: usize = 0;
    assert(texts(rows@) =~= all.take(1));
    while i < entries.len()
        invariant
            i <= entries@.len(),
            all == seq![CSV_HEADER@] + csv_rows(entries@),
            rows@.len() == i + 1,
            texts(rows@) == all.take(i + 1),
            forall|j: int|
                0 <= j < i && (#[trigger] entries@[j]).portfolio.is_valid()
                    && entries@[j].outcome.is_valid() ==> csv::read_row(rows@[j + 1]@) == Some(
                    entry_fields(entries@[j]),
                ),
        decreases entries@.len() - i,
    {
        let ghost before = rows@;
        rows.push(format_csv_row(env, &entries[i]));
        i += 1;
        assert(texts(rows@) =~= texts(before).push(csv_row(entries@[i - 1])));
        assert(texts(rows@) =~= all.take(i + 1));
    }
    assert(all.take(i + 1) =~= all);
    proof {
        the_header_reads_back();
        assert(rows@[0]@ == texts(rows@)[0]);
    }
    rows
}

/// The name of an event type.
fn event_type_name(t: AuditEventType) -> (name: &'static str)
    ensures
        name@ == event_name(t),
{
    match t {
        AuditEventType::Rebalance => "Rebalance",
        AuditEventType::Stake => "Stake",
        AuditEventType::Unstake => "Unstake",
        AuditEventType::EmergencyUnstake => "EmergencyUnstake",
        AuditEventType::YieldAccrual => "YieldAccrual",
        AuditEventType::Deposit => "Deposit",
        AuditEventType::Withdrawal => "Withdrawal",
        AuditEventType::ScheduleChange => "ScheduleChange",
        AuditEventType::AdminAction => "AdminAction",
        AuditEventType::Custom => "Custom",
    }
}

/// The hexadecimal digit of a number below sixteen.
fn hex_char(n: u8) -> (c: char)
    requires
        n < 16,
    ensures
        c == hex_digit(n as int),
{
    if n < 10 {
        (48 + n) as char
    } else {
        (87 + n) as char
    }
}

/// Append a character as it stands in a JSON string.
fn push_json_char(out: &mut String, c: char)
    ensures
        final(out)@ == old(out)@ + json_char(c),
{
    if c == '"' {
        out.push('\\');
        out.push('"');
    } else if c == '\\' {
        out.push('\\');
        out.push('\\');
    } else if c == '\n' {
        out.push('\\');
        out.push('n');
    } else if c == '\r' {
        out.push('\\');
        out.push('r');
    } else if c == '\t' {
        out.push('\\');
        out.push('t');
    } else if c as u32 >= 32 {
        out.push(c);
    } else {
        let n: u8 = c as u8;
        out.append("\\u00");
        proof {
            reveal_strlit("\\u00");
        }
        out.push(hex_char(n / 16));
        out.push(hex_char(n % 16));
    }
    assert(out@ =~= old(out)@ + json_char(c));
}

/// A text as it stands in a JSON string.
pub fn json_escape(s: &str) -> (out: String)
    ensures
        out@ == json_escaped(s@),
{
    let mut out = String::new();
    assert(s@.take(0) =~= Seq::<char>::empty());
    for c in it: s.chars()
        invariant
            it.seq() == s@,
            out@ == json_escaped(s@.take(it.index() as int)),
    {
        let ghost i = it.index() as int;
        proof {
            assert(s@.take(i + 1).drop_last() =~= s@.take(i));
            assert(s@.take(i + 1).last() == c);
        }
        push_json_char(&mut out, c);
    }
    assert(s@.take(s@.len() as int) =~= s@);
    out
}

/// Whether a CSV field has to be in quotes.
fn has_special(s: &str) -> (b: bool)
    ensures
        b == needs_quotes(s@),
{
    let mut found = false;
    for c in it: s.chars()
        invariant
            it.seq() == s@,
            found == exists|j: int|
                0 <= j < it.index() && (#[trigger] s@[j] == ',' || s@[j] == '"' || s@[j] == '\n'),
    {
        let ghost i = it.index() as int;
        assert(c == s@[i]);
        if c == ',' || c == '"' || c == '\n' {
            found = true;
        }
    }
    proof {
        if found {
            let j = choose|j: int|
                0 <= j < s@.len() && (#[trigger] s@[j] == ',' || s@[j] == '"' || s@[j] == '\n');
            assert(s@.contains(s@[j]));
        }
    }
    found
}

/// A text as a CSV field.
pub fn csv_escape(s: &str) -> (out: String)
    ensures
        out@ == csv_escaped(s@),
{
    if !has_special(s) {
        return s.to_owned();
    }
    let mut out = String::new();
    out.push('"');
    assert(s@.take(0) =~= Seq::<char>::empty());
    assert(out@ =~= seq!['"'] + doubled(s@.take(0)));
    for c in it: s.chars()
        invariant
            it.seq() == s@,
            out@ == seq!['"'] + doubled(s@.take(it.index() as int)),
    {
        let ghost i = it.index() as int;
        proof {
            assert(s@.take(i + 1).drop_last() =~= s@.take(i));
            assert(s@.take(i + 1).last() == c);
        }
        if c == '"' {
            out.push('"');
            out.push('"');
        } else {
            out.push(c);
        }
        assert(out@ =~= seq!['"'] + doubled(s@.take(i + 1)));
    }
    assert(s@.take(s@.len() as int) =~= s@);
    out.push('"');
    assert(out@ =~= csv_escaped(s@));
    out
}

/// Each kind of event goes by its own name, and no two by the same.
pub proof fn events_go_by_their_names(a: AuditEventType, b: AuditEventType)
    ensures
        event_name(a) == event_name(b) ==> a == b,
        a is Rebalance ==> event_name(a) == "Rebalance"@,
        a is Stake ==> event_name(a) == "Stake"@,
        a is Unstake ==> event_name(a) == "Unstake"@,
        a is EmergencyUnstake ==> event_name(a) == "EmergencyUnstake"@,
        a is YieldAccrual ==> event_name(a) == "YieldAccrual"@,
        a is Deposit ==> event_name(a) == "Deposit"@,
        a is Withdrawal ==> event_name(a) == "Withdrawal"@,
        a is ScheduleChange ==> event_name(a) == "ScheduleChange"@,
        a is AdminAction ==> event_name(a) == "AdminAction"@,
        a is Custom ==> event_name(a) == "Custom"@,
{
    reveal_strlit("Rebalance");
    reveal_strlit("Stake");
    reveal_strlit("Unstake");
    reveal_strlit("EmergencyUnstake");
    reveal_strlit("YieldAccrual");
    reveal_strlit("Deposit");
    reveal_strlit("Withdrawal");
    reveal_strlit("ScheduleChange");
    reveal_strlit("AdminAction");
    reveal_strlit("Custom");
    assert(event_name(a).len() == event_name(b).len() && event_name(a)[0] == event_name(b)[0]
        && event_name(a)[1] == event_name(b)[1] ==> a == b);
}

} // verus!
