use zk_tools::witness::Witness;

#[test]
fn witness_constants_and_default_are_consistent() {
    assert_eq!(Witness::zero().index(), 0);
    assert_eq!(Witness::one().index(), 1);

    // `Default` is implemented as `Witness::zero()`.
    assert_eq!(Witness::default(), Witness::zero());
}
