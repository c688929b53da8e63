use transaction_fetcher::encode::{
    encode_json_format, encode_simple_format, encode_transactions_for_foundry,
};
use transaction_fetcher::records::FilteredTransaction;

fn record(tag: &str) -> FilteredTransaction {
    FilteredTransaction {
        hash: format!("0xhash{}", tag),
        from: format!("0xfrom{}", tag),
        to: format!("0xto{}", tag),
        value: format!("{}000", tag),
        data: format!("0xdata{}", tag),
        block_number: format!("10{}", tag),
        transaction_index: tag.to_string(),
        gas_price: format!("0xgas{}", tag),
    }
}

fn records(n: usize) -> Vec<FilteredTransaction> {
    (0..n).map(|i| record(&i.to_string())).collect()
}

fn leading_integer(payload: &str) -> usize {
    let head = payload.split('|').next().unwrap();
    head.parse().unwrap()
}

#[test]
fn simple_encoding_of_nothing_is_zero() {
    assert_eq!(encode_simple_format(&[]), "0");
}

#[test]
fn simple_encoding_of_one_record() {
    assert_eq!(
        encode_simple_format(&[record("1")]),
        "1|0xhash1|0xfrom1|0xto1|1000|0xdata1|101|1|0xgas1"
    );
}

#[test]
fn simple_encoding_of_two_records() {
    assert_eq!(
        encode_simple_format(&records(2)),
        "2|0xhash0|0xfrom0|0xto0|0000|0xdata0|100|0|0xgas0\
         |0xhash1|0xfrom1|0xto1|1000|0xdata1|101|1|0xgas1"
    );
}

#[test]
fn simple_encoding_leads_with_the_count_and_holds_each_record() {
    for n in [0usize, 1, 2, 9, 10, 11, 99, 100, 123] {
        let payload = encode_simple_format(&records(n));
        assert_eq!(leading_integer(&payload), n);
        assert_eq!(payload.matches('|').count(), 8 * n);
        let fields: Vec<&str> = payload.split('|').collect();
        assert_eq!(fields.len(), 1 + 8 * n);
        for i in 0..n {
            let tag = i.to_string();
            assert_eq!(fields[1 + 8 * i], format!("0xhash{}", tag));
            assert_eq!(fields[1 + 8 * i + 6], tag);
            assert_eq!(fields[1 + 8 * i + 7], format!("0xgas{}", tag));
        }
    }
}

#[test]
fn simple_encoding_keeps_empty_fields() {
    let empty = FilteredTransaction {
        hash: String::new(),
        from: String::new(),
        to: String::new(),
        value: String::new(),
        data: String::new(),
        block_number: String::new(),
        transaction_index: String::new(),
        gas_price: String::new(),
    };
    assert_eq!(encode_simple_format(&[empty]), "1||||||||");
}

#[test]
fn json_encoding_of_nothing_is_the_empty_array() {
    assert_eq!(encode_json_format(&[]), "[]");
}

#[test]
fn json_encoding_of_one_record() {
    assert_eq!(
        encode_json_format(&[record("1")]),
        "[{\"hash\":\"0xhash1\",\"from\":\"0xfrom1\",\"to\":\"0xto1\",\"value\":\"1000\",\
         \"data\":\"0xdata1\",\"block_number\":\"101\",\"transaction_index\":\"1\",\
         \"gas_price\":\"0xgas1\"}]"
    );
}

#[test]
fn json_encoding_separates_records_with_commas() {
    let text = encode_json_format(&records(3));
    let one = |tag: &str| {
        format!(
            "{{\"hash\":\"0xhash{t}\",\"from\":\"0xfrom{t}\",\"to\":\"0xto{t}\",\"value\":\"{t}000\",\
             \"data\":\"0xdata{t}\",\"block_number\":\"10{t}\",\"transaction_index\":\"{t}\",\
             \"gas_price\":\"0xgas{t}\"}}",
            t = tag
        )
    };
    assert_eq!(text, format!("[{},{},{}]", one("0"), one("1"), one("2")));
}

#[test]
fn json_encoding_escapes_what_json_requires() {
    let mut tx = record("1");
    tx.hash = "say \"hi\"".to_string();
    tx.from = "back\\slash".to_string();
    tx.to = "line\nfeed\ttab\rreturn".to_string();
    tx.value = "\u{8}\u{c}".to_string();
    tx.data = "\u{0}\u{1}\u{1f}\u{7f}".to_string();
    tx.block_number = "caf\u{e9} \u{1f600}".to_string();
    tx.transaction_index = "/".to_string();
    tx.gas_price = String::new();
    assert_eq!(
        encode_json_format(&[tx]),
        "[{\"hash\":\"say \\\"hi\\\"\",\"from\":\"back\\\\slash\",\
         \"to\":\"line\\nfeed\\ttab\\rreturn\",\"value\":\"\\b\\f\",\
         \"data\":\"\\u0000\\u0001\\u001f\u{7f}\",\"block_number\":\"caf\u{e9} \u{1f600}\",\
         \"transaction_index\":\"/\",\"gas_price\":\"\"}]"
    );
}

#[test]
fn json_encoding_reads_back_as_the_records() {
    let mut all = records(4);
    all[2].data = "a\"b\\c\nd\u{3}e\u{e9}".to_string();
    let text = encode_json_format(&all);
    let value: serde_json::Value = serde_json::from_str(&text).unwrap();
    let array = value.as_array().unwrap();
    assert_eq!(array.len(), all.len());
    for (object, tx) in array.iter().zip(all.iter()) {
        let object = object.as_object().unwrap();
        assert_eq!(object.len(), 8);
        assert_eq!(object["hash"].as_str(), Some(tx.hash.as_str()));
        assert_eq!(object["from"].as_str(), Some(tx.from.as_str()));
        assert_eq!(object["to"].as_str(), Some(tx.to.as_str()));
        assert_eq!(object["value"].as_str(), Some(tx.value.as_str()));
        assert_eq!(object["data"].as_str(), Some(tx.data.as_str()));
        assert_eq!(object["block_number"].as_str(), Some(tx.block_number.as_str()));
        assert_eq!(object["transaction_index"].as_str(), Some(tx.transaction_index.as_str()));
        assert_eq!(object["gas_price"].as_str(), Some(tx.gas_price.as_str()));
    }
}

#[test]
fn json_strings_are_those_of_the_serializer() {
    for code in 0u32..=0x250 {
        let c = char::from_u32(code).unwrap();
        let mut tx = record("1");
        tx.hash = format!("a{}b", c);
        let text = encode_json_format(&[tx]);
        let expected = serde_json::to_string(&format!("a{}b", c)).unwrap();
        assert!(text.starts_with(&format!("[{{\"hash\":{},\"from\":", expected)), "for {:?}", c);
    }
}

#[test]
fn selector_json_gives_the_array() {
    let all = records(2);
    assert_eq!(encode_transactions_for_foundry(&all, "json"), encode_json_format(&all));
    assert_eq!(encode_transactions_for_foundry(&[], "json"), "[]");
}

#[test]
fn selector_simple_gives_the_payload() {
    let all = records(2);
    assert_eq!(encode_transactions_for_foundry(&all, "simple"), encode_simple_format(&all));
    assert_eq!(encode_transactions_for_foundry(&[], "simple"), "0");
}

#[test]
fn unknown_selector_falls_back_to_the_payload() {
    let all = records(2);
    for selector in ["", "yaml", "JSON", "json ", "Simple", "jso", "jsonx"] {
        assert_eq!(encode_transactions_for_foundry(&all, selector), encode_simple_format(&all));
    }
}

/// How the serializer is taken to write a character inside a string.
fn escaped(c: char) -> String {
    match c {
        '"' => "\\\"".to_string(),
        '\\' => "\\\\".to_string(),
        '\u{8}' => "\\b".to_string(),
        '\t' => "\\t".to_string(),
        '\n' => "\\n".to_string(),
        '\u{c}' => "\\f".to_string(),
        '\r' => "\\r".to_string(),
        c if (c as u32) < 32 => format!("\\u00{:x}{:x}", c as u32 / 16, c as u32 % 16),
        c => c.to_string(),
    }
}

#[test]
fn json_strings_escape_exactly_the_control_characters_quote_and_backslash() {
    let mut codes: Vec<u32> = (0..0x3000).collect();
    codes.extend([0xd7ff, 0xe000, 0xfffd, 0xffff, 0x10000, 0x1f600, 0x10ffff]);
    for code in codes {
        let c = char::from_u32(code).unwrap();
        let mut tx = record("1");
        tx.gas_price = format!("{}x{}", c, c);
        let text = encode_json_format(&[tx]);
        let expected = format!("\"gas_price\":\"{}x{}\"}}]", escaped(c), escaped(c));
        assert!(text.ends_with(&expected), "for U+{:04X}: {}", code, text);
    }
}
