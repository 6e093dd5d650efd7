use blockchain_explorer::blocks;
use blockchain_explorer::chain::{is_linked, rebuild};
use blockchain_explorer::{Block, Service, ServiceError, ServiceImpl, Transaction};

fn heavy(id: &str, parent: Option<&str>) -> Block {
    Block {
        block_id: id.to_string(),
        parent_id: parent.map(|name| name.to_string()),
        transactions: vec![
            Transaction::Mint { tx_id: "m".to_string(), to: "Alice".to_string(), amount: u64::MAX },
            Transaction::Mint { tx_id: "m".to_string(), to: "Alice".to_string(), amount: 1 },
        ],
    }
}

#[test]
fn restore_of_nothing_is_a_new_service() {
    let service = ServiceImpl::restore(Vec::new(), Vec::new()).unwrap();
    assert!(service.chains().is_empty());
    assert_eq!(service.get_balance("Alice"), Ok(0));
}

#[test]
fn restore_gives_the_same_registry() {
    let mut service = ServiceImpl::new();
    service.ingest_block(&blocks::block_a()).unwrap();
    service.ingest_block(&blocks::block_b()).unwrap();
    service.ingest_block(&blocks::block_c()).unwrap();
    service.ingest_block(&blocks::block_e()).unwrap();
    let mut restored = ServiceImpl::restore(service.chains().clone(), service.tips()).unwrap();
    assert_eq!(restored.chains(), service.chains());
    assert_eq!(restored.tips(), service.tips());
    for branch in 0..service.states().len() {
        assert_eq!(restored.states()[branch].accounts(), service.states()[branch].accounts());
    }
    assert_eq!(restored.get_balance("Alice"), service.get_balance("Alice"));
    assert_eq!(restored.get_balance("Bob"), service.get_balance("Bob"));
    restored.ingest_block(&blocks::block_d()).unwrap();
    service.ingest_block(&blocks::block_d()).unwrap();
    assert_eq!(restored.chains(), service.chains());
    assert_eq!(restored.tips(), service.tips());
    assert_eq!(restored.states()[1].balance("Alice"), Some(6));
    assert_eq!(restored.states()[1].balance("Bob"), Some(4));
    assert_eq!(restored.get_balance("Alice"), Ok(1));
    assert_eq!(restored.get_balance("Bob"), Ok(7));
}

#[test]
fn restore_keeps_a_branch_without_a_tip() {
    let mut service = ServiceImpl::new();
    service.ingest_block(&blocks::block_a()).unwrap();
    service.ingest_block(&blocks::block_a()).unwrap();
    assert_eq!(service.tips(), vec![("A".to_string(), 1)]);
    let restored = ServiceImpl::restore(service.chains().clone(), service.tips()).unwrap();
    assert_eq!(restored.chains().len(), 2);
    assert_eq!(restored.tip("A"), Some(1));
}

#[test]
fn restore_takes_the_later_of_two_entries_for_one_tip() {
    let chains = vec![vec![blocks::block_a()], vec![blocks::block_a()]];
    let tips = vec![("A".to_string(), 1), ("A".to_string(), 0)];
    let restored = ServiceImpl::restore(chains, tips).unwrap();
    assert_eq!(restored.tip("A"), Some(0));
}

#[test]
fn restore_refuses_an_empty_chain() {
    let outcome = ServiceImpl::restore(vec![Vec::new()], Vec::new());
    assert_eq!(outcome.err(), Some(ServiceError::InvalidRegistry));
}

#[test]
fn restore_refuses_a_chain_that_is_not_linked() {
    let chains = vec![vec![blocks::block_a(), blocks::block_d()]];
    let outcome = ServiceImpl::restore(chains, Vec::new());
    assert_eq!(outcome.err(), Some(ServiceError::InvalidRegistry));
}

#[test]
fn restore_refuses_a_tip_of_no_branch() {
    let chains = vec![vec![blocks::block_a()]];
    let outcome = ServiceImpl::restore(chains, vec![("A".to_string(), 1)]);
    assert_eq!(outcome.err(), Some(ServiceError::InvalidRegistry));
}

#[test]
fn restore_refuses_a_tip_that_is_not_the_last_block() {
    let chains = vec![vec![blocks::block_a(), blocks::block_b()]];
    let outcome = ServiceImpl::restore(chains, vec![("A".to_string(), 0)]);
    assert_eq!(outcome.err(), Some(ServiceError::InvalidRegistry));
}

#[test]
fn restore_refuses_a_chain_that_overflows() {
    let chains = vec![vec![blocks::block_a()], vec![heavy("H", None)]];
    let outcome = ServiceImpl::restore(chains, vec![("A".to_string(), 0)]);
    assert_eq!(outcome.err(), Some(ServiceError::BalanceOverflow));
}

#[test]
fn restore_reports_the_shape_before_the_overflow() {
    let chains = vec![vec![heavy("H", None)], Vec::new()];
    let outcome = ServiceImpl::restore(chains, Vec::new());
    assert_eq!(outcome.err(), Some(ServiceError::InvalidRegistry));
}

#[test]
fn linked_chains_are_recognised() {
    assert!(is_linked(&Vec::new()));
    assert!(is_linked(&vec![blocks::block_b()]));
    assert!(is_linked(&vec![blocks::block_a(), blocks::block_c(), blocks::block_d()]));
    assert!(!is_linked(&vec![blocks::block_a(), blocks::block_d()]));
    assert!(!is_linked(&vec![blocks::block_a(), blocks::block_e()]));
}

#[test]
fn rebuild_replays_from_the_first_block() {
    let ledger = rebuild(&vec![blocks::block_a(), blocks::block_c(), blocks::block_d()]).unwrap();
    assert_eq!(ledger.balance("Alice"), Some(6));
    assert_eq!(ledger.balance("Bob"), Some(4));
    assert_eq!(rebuild(&Vec::new()).unwrap().len(), 0);
    assert_eq!(rebuild(&vec![heavy("H", None)]).err(), Some(ServiceError::BalanceOverflow));
}
