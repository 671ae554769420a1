use polyfill_fill::order_id::{order_ids, IdOrder};

#[test]
fn ids_stand_in_the_order_of_strings() {
    let ids = ["", "a", "ab", "b", "B", "order10", "order9", "\u{e9}", "\u{fffd}", "\u{1f600}"];
    for a in ids {
        for b in ids {
            let expected = if a < b {
                IdOrder::Before
            } else if a == b {
                IdOrder::Same
            } else {
                IdOrder::After
            };
            assert_eq!(order_ids(a, b), expected, "{} {}", a, b);
        }
    }
}

#[test]
fn digits_are_not_read_as_numbers() {
    assert_eq!(order_ids("order10", "order9"), IdOrder::Before);
    assert_eq!(order_ids("order", "order1"), IdOrder::Before);
    assert_eq!(order_ids("a", "B"), IdOrder::After);
}
