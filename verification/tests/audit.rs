use astraport::audit::checksum::{chain_hash, entry_payload, first_chain_hash, PAYLOAD_LEN};
use astraport::audit::export::{
    csv_escape, format_csv, format_csv_row, format_json_entry, format_jsonl, json_escape,
    CSV_HEADER,
};
use astraport::audit::records::{AuditEventType, AuditLog, StateField, StateSnapshot};
use astraport::values::{Address, Symbol};
use soroban_sdk::Env;

const ACTOR: &str = "GAAAAAAAAAAAAAAAAAAAAAAAAACQAAAAAAAAAAAAAAAAAAAAAAAAN5GW";
const CONTRACT: &str = "CAAAAAAAAAAAAAAAAAAAAAAAAACQAAAAAAAAAAAAAAAAAAAAAAAAMZDP";

fn symbol(text: &str) -> Symbol {
    Symbol::from_text(text)
}

fn state(fields: &[(&str, i128)]) -> StateSnapshot {
    StateSnapshot {
        fields: fields.iter().map(|f| StateField { key: symbol(f.0), value: f.1 }).collect(),
    }
}

fn entry(is_contract: bool, detail: &str) -> AuditLog {
    AuditLog {
        seq: 7,
        timestamp: 1_000,
        event_type: AuditEventType::EmergencyUnstake,
        actor: Address { is_contract, hi: 5, lo: 6 },
        permissions: 5,
        portfolio: symbol("port1"),
        outcome: symbol("ok"),
        detail: detail.to_string(),
        state_before: state(&[]),
        state_after: state(&[]),
        hash: vec![],
    }
}

fn payload(env: &Env, before: &StateSnapshot, after: &StateSnapshot) -> Vec<u8> {
    entry_payload(
        env,
        7,
        1_000,
        3,
        5,
        &Address { is_contract: false, hi: 5, lo: 6 },
        &symbol("port1"),
        &symbol("ok"),
        &"moved".to_string(),
        before,
        after,
    )
}

fn hex(bytes: &[u8]) -> String {
    bytes.iter().map(|b| format!("{:02x}", b)).collect()
}

#[test]
fn the_payload_has_a_fixed_layout() {
    let env = Env::default();
    let bytes = payload(&env, &state(&[("bal", 10)]), &state(&[("bal", -4), ("x", 1)]));
    assert_eq!(bytes.len(), PAYLOAD_LEN);
    assert_eq!(
        bytes[..24].to_vec(),
        vec![0, 0, 0, 0, 0, 0, 0, 7, 0, 0, 0, 0, 0, 0, 3, 232, 0, 0, 0, 3, 0, 0, 0, 5]
    );
    assert_eq!(
        hex(&first_chain_hash(&env, &bytes)),
        "2b0d31d8b2608c5ce9da35214feb7a38925ba16395ef63575b7d0baee331ce85"
    );
}

#[test]
fn a_hash_follows_the_one_before() {
    let env = Env::default();
    let first = first_chain_hash(&env, &vec![1, 2]);
    assert_eq!(
        hex(&first),
        "745c4e05e86e4db5bc392956a654d052a4f07ae13cf6d0470c536d1005bdeb75"
    );
    assert_eq!(chain_hash(&env, &vec![0; 32], &vec![1, 2]), first);
    let second = chain_hash(&env, &first, &vec![1, 2]);
    assert_ne!(second, first);
    assert_eq!(chain_hash(&env, &first, &vec![1, 2]), second);
}

#[test]
fn a_changed_state_changes_the_hash() {
    let env = Env::default();
    let a = payload(&env, &state(&[("bal", 10)]), &state(&[("bal", 11)]));
    let b = payload(&env, &state(&[("bal", 10)]), &state(&[("bal", 12)]));
    assert_ne!(first_chain_hash(&env, &a), first_chain_hash(&env, &b));
}

fn payload_of(env: &Env, actor: u128, portfolio: &str, outcome: &str, detail: &str) -> Vec<u8> {
    entry_payload(
        env,
        7,
        1_000,
        3,
        5,
        &Address { is_contract: false, hi: 5, lo: actor },
        &symbol(portfolio),
        &symbol(outcome),
        &detail.to_string(),
        &state(&[]),
        &state(&[]),
    )
}

#[test]
fn a_payload_pins_each_part_of_an_entry() {
    let env = Env::default();
    let whole = payload_of(&env, 6, "port1", "ok", "moved");
    let changed = [
        payload_of(&env, 7, "port1", "ok", "moved"),
        payload_of(&env, 6, "port2", "ok", "moved"),
        payload_of(&env, 6, "port1", "no", "moved"),
        payload_of(&env, 6, "port1", "ok", "moved!"),
    ];
    for (k, other) in changed.iter().enumerate() {
        for part in 0..6 {
            let at = 24 + 32 * part;
            assert_eq!(whole[at..at + 32] == other[at..at + 32], part != k);
        }
    }
}

#[test]
fn a_changed_entry_changes_the_head() {
    let env = Env::default();
    let head = |details: &[&str]| {
        let first = payload_of(&env, 6, "port1", "ok", details[0]);
        details[1..].iter().fold(first_chain_hash(&env, &first), |hash, detail| {
            chain_hash(&env, &hash, &payload_of(&env, 6, "port1", "ok", detail))
        })
    };
    let whole = head(&["one", "two", "three"]);
    assert_eq!(whole, head(&["one", "two", "three"]));
    assert_ne!(whole, head(&["One", "two", "three"]));
    assert_ne!(whole, head(&["one", "two!", "three"]));
    assert_ne!(whole, head(&["one", "two"]));
    assert_ne!(whole, head(&["two", "one", "three"]));
}

/// A JSON string from its opening quote on, and how many characters it takes.
fn read_string(chars: &[char]) -> (String, usize) {
    let mut text = String::new();
    let mut i = 1;
    while chars[i] != '"' {
        if chars[i] == '\\' {
            i += 1;
            match chars[i] {
                'n' => text.push('\n'),
                'r' => text.push('\r'),
                't' => text.push('\t'),
                'u' => {
                    let code: String = chars[i + 1..i + 5].iter().collect();
                    text.push(char::from_u32(u32::from_str_radix(&code, 16).unwrap()).unwrap());
                    i += 4;
                }
                c => text.push(c),
            }
        } else {
            text.push(chars[i]);
        }
        i += 1;
    }
    (text, i + 1)
}

/// The members of an object of numbers and strings, in order.
fn read_line(line: &str) -> Vec<(String, String)> {
    let chars: Vec<char> = line.chars().collect();
    assert_eq!(chars[0], '{');
    let mut members = Vec::new();
    let mut i = 1;
    loop {
        let (key, used) = read_string(&chars[i..]);
        i += used;
        assert_eq!(chars[i], ':');
        i += 1;
        if chars[i] == '"' {
            let (value, used) = read_string(&chars[i..]);
            i += used;
            members.push((key, value));
        } else {
            let digits: String = chars[i..].iter().take_while(|c| c.is_ascii_digit()).collect();
            i += digits.len();
            members.push((key, digits));
        }
        i += 1;
        if chars[i - 1] == '}' {
            break;
        }
        assert_eq!(chars[i - 1], ',');
    }
    assert_eq!(i, chars.len());
    members
}

#[test]
fn a_json_line_reads_back_as_its_entry() {
    let env = Env::default();
    let detail = "},\"seq\":9,{\\ \u{1}\u{7f} \u{e9}";
    let expected = [
        ("seq", "7"),
        ("timestamp", "1000"),
        ("event_type", "EmergencyUnstake"),
        ("actor", ACTOR),
        ("permissions", "5"),
        ("portfolio", "port1"),
        ("outcome", "ok"),
        ("detail", detail),
    ];
    let members = read_line(&format_json_entry(&env, &entry(false, detail)));
    assert_eq!(members.len(), expected.len());
    for (member, (key, value)) in members.iter().zip(expected) {
        assert_eq!((member.0.as_str(), member.1.as_str()), (key, value));
    }
}

/// The fields of a CSV row.
fn read_row(row: &str) -> Vec<String> {
    let chars: Vec<char> = row.chars().collect();
    let mut fields = vec![String::new()];
    let mut quoted = false;
    let mut i = 0;
    while i < chars.len() {
        if chars[i] == '"' && quoted && chars.get(i + 1) == Some(&'"') {
            fields.last_mut().unwrap().push('"');
            i += 1;
        } else if chars[i] == '"' {
            quoted = !quoted;
        } else if chars[i] == ',' && !quoted {
            fields.push(String::new());
        } else {
            fields.last_mut().unwrap().push(chars[i]);
        }
        i += 1;
    }
    fields
}

#[test]
fn a_csv_row_reads_back_as_its_entry() {
    let env = Env::default();
    for detail in ["plain", "a,b", "\"", "\"a\",\n\"\"", ""] {
        let row = format_csv_row(&env, &entry(true, detail));
        let expected =
            vec!["7", "1000", "EmergencyUnstake", CONTRACT, "5", "port1", "ok", detail];
        assert_eq!(read_row(&row), expected);
        assert_eq!(read_row(CSV_HEADER).len(), expected.len());
    }
}

#[test]
fn an_entry_becomes_a_json_object() {
    let env = Env::default();
    let line = format_json_entry(&env, &entry(false, "a \"b\"\\\n\r\tc"));
    let expected = format!(
        "{{\"seq\":7,\"timestamp\":1000,\"event_type\":\"EmergencyUnstake\",\"actor\":\"{}\",\"permissions\":5,\"portfolio\":\"{}\",\"outcome\":\"{}\",\"detail\":\"a \\\"b\\\"\\\\\\n\\r\\tc\"}}",
        ACTOR, "port1", "ok"
    );
    assert_eq!(line, expected);
}

#[test]
fn an_entry_becomes_a_csv_row() {
    let env = Env::default();
    let row = format_csv_row(&env, &entry(true, "plain"));
    assert_eq!(row, format!("7,1000,EmergencyUnstake,{:?},5,\"port1\",\"ok\",plain", CONTRACT));
    let row = format_csv_row(&env, &entry(true, "a,\"b\""));
    assert!(row.ends_with(",\"a,\"\"b\"\"\""));
    let row = format_csv_row(&env, &entry(true, "two\nlines"));
    assert!(row.ends_with(",\"two\nlines\""));
}

#[test]
fn a_log_is_exported_line_by_line() {
    let env = Env::default();
    let entries = vec![entry(false, "one"), entry(false, "two")];
    let lines = format_jsonl(&env, &entries);
    assert_eq!(lines.len(), 2);
    assert_eq!(lines[1], format_json_entry(&env, &entries[1]));
    let rows = format_csv(&env, &entries);
    assert_eq!(rows.len(), 3);
    assert_eq!(rows[0], CSV_HEADER);
    assert_eq!(rows[2], format_csv_row(&env, &entries[1]));
    assert_eq!(format_csv(&env, &vec![]), vec![CSV_HEADER.to_string()]);
}

#[test]
fn the_csv_columns_are_fixed() {
    assert_eq!(
        CSV_HEADER,
        "seq,timestamp,event_type,actor,permissions,portfolio,outcome,detail"
    );
}

#[test]
fn control_characters_are_written_as_numbers() {
    assert_eq!(json_escape("a\u{1}b\u{1f}\u{0}"), "a\\u0001b\\u001f\\u0000");
    assert_eq!(json_escape("\u{7f}\u{e9}"), "\u{7f}\u{e9}");
    assert_eq!(json_escape(""), "");
}

#[test]
fn different_texts_are_different_fields() {
    let texts = ["", "a", "a,b", "\"a\"", "\"\"a\"\"", "a\nb", "\"a,b\"", "\""];
    let fields: Vec<String> = texts.iter().map(|t| csv_escape(t)).collect();
    assert_eq!(
        fields,
        vec![
            "",
            "a",
            "\"a,b\"",
            "\"\"\"a\"\"\"",
            "\"\"\"\"\"a\"\"\"\"\"",
            "\"a\nb\"",
            "\"\"\"a,b\"\"\"",
            "\"\"\"\"",
        ]
    );
    for (i, field) in fields.iter().enumerate() {
        assert!(fields.iter().skip(i + 1).all(|other| other != field));
    }
}
