use multi_subset_bam::OutputLedger;

#[test]
fn ledger_accumulates_per_group() {
    let mut ledger = OutputLedger::new(vec!["a.bam".to_string(), "b.bam".to_string()]);
    assert_eq!(ledger.len(), 2);
    ledger.record(1, 5);
    ledger.record(0, 2);
    ledger.record(1, 1);
    assert_eq!(ledger.count(0), 2);
    assert_eq!(ledger.count(1), 6);
    assert_eq!(ledger.report(), vec![("a.bam".to_string(), 2), ("b.bam".to_string(), 6)]);
}

#[test]
fn ledger_starts_at_zero() {
    let ledger = OutputLedger::new(vec!["only.bam".to_string()]);
    assert_eq!(ledger.report(), vec![("only.bam".to_string(), 0)]);
    assert_eq!(OutputLedger::new(Vec::new()).report(), vec![]);
}
