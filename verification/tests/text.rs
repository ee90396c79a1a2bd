use data_extractor::numeral::decimal_string;
use data_extractor::text::compare_text;
use data_extractor::text::Rank;

#[test]
fn compare_text_orders_by_bytes() {
    assert_eq!(compare_text("a", "b"), Rank::Before);
    assert_eq!(compare_text("b", "a"), Rank::After);
    assert_eq!(compare_text("a", "a"), Rank::Same);
    assert_eq!(compare_text("", ""), Rank::Same);
    assert_eq!(compare_text("", "a"), Rank::Before);
    assert_eq!(compare_text("a", ""), Rank::After);
    assert_eq!(compare_text("ab", "abc"), Rank::Before);
    assert_eq!(compare_text("abd", "abc"), Rank::After);
    assert_eq!(compare_text("Z", "a"), Rank::Before);
    assert_eq!(compare_text("z", "é"), Rank::Before);
    assert_eq!(compare_text("é", "e"), Rank::After);
}

#[test]
fn compare_text_agrees_with_the_standard_order() {
    let words = ["", "a", "A", "ab", "b", "é", "e", "z", "École", "Ecole", "日本", "日本語", "🎬"];
    for a in words {
        for b in words {
            let expected = if a < b {
                Rank::Before
            } else if a > b {
                Rank::After
            } else {
                Rank::Same
            };
            assert_eq!(compare_text(a, b), expected);
        }
    }
}

#[test]
fn decimal_string_writes_numerals() {
    assert_eq!(decimal_string(0), "0");
    assert_eq!(decimal_string(7), "7");
    assert_eq!(decimal_string(9), "9");
    assert_eq!(decimal_string(10), "10");
    assert_eq!(decimal_string(11), "11");
    assert_eq!(decimal_string(100), "100");
    assert_eq!(decimal_string(1234567890), "1234567890");
    assert_eq!(decimal_string(usize::MAX), usize::MAX.to_string());
}

#[test]
fn decimal_string_agrees_with_the_standard_library() {
    let mut n: usize = 0;
    while n < 5000 {
        assert_eq!(decimal_string(n), n.to_string());
        n += 7;
    }
}
