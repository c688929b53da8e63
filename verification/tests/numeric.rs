use transaction_fetcher::numeric::{block_number_to_hex, normalize_quantity, u64_to_decimal};

fn normalized(text: &str) -> Option<String> {
    normalize_quantity(text)
}

#[test]
fn hex_block_number_becomes_decimal() {
    assert_eq!(normalized("0x10"), Some("16".to_string()));
}

#[test]
fn hex_zero_index_becomes_zero() {
    assert_eq!(normalized("0x0"), Some("0".to_string()));
}

#[test]
fn hex_digits_of_either_case_are_read() {
    assert_eq!(normalized("0xff"), Some("255".to_string()));
    assert_eq!(normalized("0xFF"), Some("255".to_string()));
    assert_eq!(normalized("0xAbCdEf"), Some("11259375".to_string()));
    assert_eq!(normalized("0x64"), Some("100".to_string()));
}

#[test]
fn leading_zeros_do_not_count() {
    assert_eq!(normalized("0x0000000000000000000000001"), Some("1".to_string()));
    assert_eq!(normalized("0x00"), Some("0".to_string()));
}

#[test]
fn largest_u64_is_read() {
    assert_eq!(normalized("0xffffffffffffffff"), Some("18446744073709551615".to_string()));
}

#[test]
fn hex_beyond_u64_is_malformed() {
    assert_eq!(normalized("0x10000000000000000"), None);
    assert_eq!(normalized("0xfffffffffffffffff"), None);
}

#[test]
fn hex_without_digits_is_malformed() {
    assert_eq!(normalized("0x"), None);
    assert_eq!(normalized("0x+"), None);
}

#[test]
fn hex_with_a_foreign_character_is_malformed() {
    assert_eq!(normalized("0xZZ"), None);
    assert_eq!(normalized("0x1g"), None);
    assert_eq!(normalized("0x 1"), None);
    assert_eq!(normalized("0x1 "), None);
    assert_eq!(normalized("0x1_0"), None);
    assert_eq!(normalized("0x-1"), None);
    assert_eq!(normalized("0x1+"), None);
    assert_eq!(normalized("0x++1"), None);
    assert_eq!(normalized("0x\u{e9}"), None);
    assert_eq!(normalized("0x1\u{ff11}"), None);
}

#[test]
fn plus_sign_before_the_digits_is_accepted() {
    assert_eq!(normalized("0x+10"), Some("16".to_string()));
}

#[test]
fn text_without_prefix_stands_as_it_is() {
    assert_eq!(normalized("123"), Some("123".to_string()));
    assert_eq!(normalized("0"), Some("0".to_string()));
    assert_eq!(normalized(""), Some(String::new()));
    assert_eq!(normalized("abc"), Some("abc".to_string()));
    assert_eq!(normalized("0X10"), Some("0X10".to_string()));
    assert_eq!(normalized("x10"), Some("x10".to_string()));
    assert_eq!(normalized(" 0x10"), Some(" 0x10".to_string()));
}

#[test]
fn normalization_agrees_with_std_parsing() {
    let samples = [
        "0", "1", "a", "A", "f", "F", "g", "10", "+10", "-10", "+", "-", "", "0x", "7fffffffffffffff",
        "8000000000000000", "ffffffffffffffff", "10000000000000000", "00000000000000000000",
        "+ffffffffffffffff", "+10000000000000000", "dead beef", "DEADBEEF", "12345678", "9abcdef0",
        "\u{e9}", "1\u{e9}", "++1", "+-1", "1+1",
    ];
    for body in samples {
        let text = format!("0x{}", body);
        let expected = u64::from_str_radix(body, 16).ok().map(|n| n.to_string());
        assert_eq!(normalized(&text), expected, "for {:?}", text);
    }
}

#[test]
fn decimal_text_of_small_and_large_numbers() {
    assert_eq!(u64_to_decimal(0), "0");
    assert_eq!(u64_to_decimal(9), "9");
    assert_eq!(u64_to_decimal(10), "10");
    assert_eq!(u64_to_decimal(16), "16");
    assert_eq!(u64_to_decimal(100), "100");
    assert_eq!(u64_to_decimal(1_000_000), "1000000");
    assert_eq!(u64_to_decimal(u64::MAX), "18446744073709551615");
}

#[test]
fn decimal_text_agrees_with_std_formatting() {
    let mut n: u64 = 1;
    for step in 0..200u64 {
        assert_eq!(u64_to_decimal(n), n.to_string());
        assert_eq!(u64_to_decimal(n - 1), (n - 1).to_string());
        n = n.wrapping_mul(6364136223846793005).wrapping_add(1442695040888963407 + step);
        if n == 0 {
            n = 1;
        }
    }
}

#[test]
fn wire_form_of_block_numbers() {
    assert_eq!(block_number_to_hex(0), "0x0");
    assert_eq!(block_number_to_hex(15), "0xf");
    assert_eq!(block_number_to_hex(16), "0x10");
    assert_eq!(block_number_to_hex(100), "0x64");
    assert_eq!(block_number_to_hex(255), "0xff");
    assert_eq!(block_number_to_hex(18_000_000), "0x112a880");
    assert_eq!(block_number_to_hex(u64::MAX), "0xffffffffffffffff");
}

#[test]
fn wire_form_agrees_with_std_formatting() {
    let mut n: u64 = 7;
    for _ in 0..200 {
        assert_eq!(block_number_to_hex(n), format!("0x{:x}", n));
        n = n.wrapping_mul(2862933555777941757).wrapping_add(3037000493);
    }
}

#[test]
fn wire_form_normalizes_to_the_decimal_text() {
    for n in [0u64, 1, 9, 10, 15, 16, 100, 101, 102, 4096, 65_535, 18_000_000, u64::MAX - 1, u64::MAX] {
        assert_eq!(normalized(&block_number_to_hex(n)), Some(n.to_string()));
    }
}
