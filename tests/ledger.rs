use prediction_market::CreditLedger;

#[test]
fn ledger_credit_and_take() {
    let mut l = CreditLedger::new();
    assert_eq!(l.balance(&"a".to_string()), None);
    l.credit("a".to_string(), 5);
    l.credit("b".to_string(), 1);
    l.credit("a".to_string(), 7);
    assert_eq!(l.balance(&"a".to_string()), Some(12));
    let copy = l.duplicate();
    assert_eq!(l.take(&"a".to_string()), Some(12));
    assert_eq!(l.take(&"a".to_string()), None);
    assert_eq!(l.balance(&"b".to_string()), Some(1));
    assert_eq!(copy.balance(&"a".to_string()), Some(12));
}
