use blockchain_explorer::blocks;
use blockchain_explorer::{Service, ServiceError, ServiceImpl};

fn assert_balances<S: Service>(
    service: &S,
    expected_balance_alice: Result<S::Balance, ServiceError>,
    expected_balance_bob: Result<S::Balance, ServiceError>,
) {
    if let Ok(balance) = expected_balance_alice {
        assert_eq!(service.get_balance(&blocks::alice()).unwrap(), balance);
    } else {
        panic!("Alice's balance is not available!");
    }

    if let Ok(balance) = expected_balance_bob {
        assert_eq!(service.get_balance(&blocks::bob()).unwrap(), balance);
    } else {
        panic!("Bob's balance is not available!");
    }
}

#[test]
fn test_1() {
    let mut service = ServiceImpl::new();
    assert_balances(&service, Ok(0), Ok(0));
    service.ingest_block(&blocks::block_a()).unwrap();
    assert_balances(&service, Ok(5), Ok(5));
}

#[test]
fn test_2() {
    let mut service = ServiceImpl::new();
    assert_balances(&service, Ok(0), Ok(0));
    service.ingest_block(&blocks::block_a()).unwrap();
    assert_balances(&service, Ok(5), Ok(5));
    service.ingest_block(&blocks::block_b()).unwrap();
    assert_balances(&service, Ok(10), Ok(0));
}

#[test]
fn test_3() {
    let mut service = ServiceImpl::new();
    assert_balances(&service, Ok(0), Ok(0));
    service.ingest_block(&blocks::block_a()).unwrap();
    assert_balances(&service, Ok(5), Ok(5));
    service.ingest_block(&blocks::block_b()).unwrap();
    assert_balances(&service, Ok(10), Ok(0));
    service.ingest_block(&blocks::block_c()).unwrap();
    assert_balances(&service, Ok(8), Ok(2));
}

#[test]
fn test_4() {
    let mut service = ServiceImpl::new();
    assert_balances(&service, Ok(0), Ok(0));
    service.ingest_block(&blocks::block_a()).unwrap();
    assert_balances(&service, Ok(5), Ok(5));
    service.ingest_block(&blocks::block_c()).unwrap();
    assert_balances(&service, Ok(8), Ok(2));
    service.ingest_block(&blocks::block_b()).unwrap();
    assert_balances(&service, Ok(10), Ok(0));
}

#[test]
fn test_5() {
    let mut service = ServiceImpl::new();
    assert_balances(&service, Ok(0), Ok(0));
    service.ingest_block(&blocks::block_a()).unwrap();
    assert_balances(&service, Ok(5), Ok(5));
    service.ingest_block(&blocks::block_b()).unwrap();
    assert_balances(&service, Ok(10), Ok(0));
    service.ingest_block(&blocks::block_c()).unwrap();
    assert_balances(&service, Ok(8), Ok(2));
    service.ingest_block(&blocks::block_d()).unwrap();
    assert_balances(&service, Ok(6), Ok(4));
}

#[test]
fn test_6() {
    let mut service = ServiceImpl::new();
    assert_balances(&service, Ok(0), Ok(0));
    service.ingest_block(&blocks::block_a()).unwrap();
    assert_balances(&service, Ok(5), Ok(5));
    service.ingest_block(&blocks::block_b()).unwrap();
    assert_balances(&service, Ok(10), Ok(0));
    service.ingest_block(&blocks::block_d()).unwrap();
    assert_balances(&service, Ok(10), Ok(0));
    service.ingest_block(&blocks::block_c()).unwrap();
    assert_balances(&service, Ok(8), Ok(2));
}

#[test]
fn test_7() {
    let mut service = ServiceImpl::new();
    assert_balances(&service, Ok(0), Ok(0));
    service.ingest_block(&blocks::block_d()).unwrap();
    assert_balances(&service, Ok(0), Ok(0));
    service.ingest_block(&blocks::block_b()).unwrap();
    assert_balances(&service, Ok(0), Ok(0));
    service.ingest_block(&blocks::block_c()).unwrap();
    assert_balances(&service, Ok(0), Ok(0));
    service.ingest_block(&blocks::block_a()).unwrap();
    assert_balances(&service, Ok(5), Ok(5));
}

#[test]
fn service_restart() {
    let mut service = ServiceImpl::new();
    service.ingest_block(&blocks::block_a()).unwrap();
    service.ingest_block(&blocks::block_b()).unwrap();
    assert_balances(&service, Ok(10), Ok(0));
    let chains = service.chains().clone();
    let tips = service.tips();
    let service = ServiceImpl::restore(chains, tips).unwrap();
    assert_balances(&service, Ok(10), Ok(0));
}
