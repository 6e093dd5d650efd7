use blockchain_explorer::blocks;
use blockchain_explorer::{Block, Service, ServiceError, ServiceImpl, Transaction};

fn mint(to: &str, amount: u64) -> Transaction {
    Transaction::Mint { tx_id: "m".to_string(), to: to.to_string(), amount }
}

fn transfer(from: &str, to: &str, amount: u64) -> Transaction {
    Transaction::Transfer {
        tx_id: "t".to_string(),
        from: from.to_string(),
        to: to.to_string(),
        amount,
    }
}

fn block(id: &str, parent: Option<&str>, transactions: Vec<Transaction>) -> Block {
    Block {
        block_id: id.to_string(),
        parent_id: parent.map(|name| name.to_string()),
        transactions,
    }
}

fn names(chain: &Vec<Block>) -> Vec<String> {
    chain.iter().map(|block| block.block_id.clone()).collect()
}

fn balances(service: &ServiceImpl, branch: usize) -> (Option<u64>, Option<u64>) {
    let ledger = &service.states()[branch];
    (ledger.balance("Alice"), ledger.balance("Bob"))
}

#[test]
fn query_without_blocks_is_zero() {
    let service = ServiceImpl::new();
    assert_eq!(service.get_balance("Alice"), Ok(0));
    assert_eq!(service.get_balance("anyone at all"), Ok(0));
    assert_eq!(service.canonical_branch(), None);
    assert!(service.chains().is_empty());
    assert!(service.states().is_empty());
    assert!(service.tips().is_empty());
}

#[test]
fn unknown_account_on_a_known_branch_is_zero() {
    let mut service = ServiceImpl::new();
    service.ingest_block(&blocks::block_a()).unwrap();
    assert_eq!(service.get_balance("Carol"), Ok(0));
    assert_eq!(service.get_balance(""), Ok(0));
    assert_eq!(service.get_balance("Alice"), Ok(5));
    assert_eq!(service.states()[0].balance("Carol"), None);
}

#[test]
fn root_block_starts_a_branch() {
    let mut service = ServiceImpl::new();
    service.ingest_block(&blocks::block_a()).unwrap();
    assert_eq!(service.chains().len(), 1);
    assert_eq!(names(&service.chains()[0]), vec!["A"]);
    assert_eq!(service.tip("A"), Some(0));
    assert_eq!(balances(&service, 0), (Some(5), Some(5)));
}

#[test]
fn several_roots_are_several_branches() {
    let mut service = ServiceImpl::new();
    service.ingest_block(&blocks::block_a()).unwrap();
    service.ingest_block(&blocks::block_e()).unwrap();
    assert_eq!(service.chains().len(), 2);
    assert_eq!(service.tip("A"), Some(0));
    assert_eq!(service.tip("E"), Some(1));
    assert_eq!(balances(&service, 0), (Some(5), Some(5)));
    assert_eq!(balances(&service, 1), (Some(1), Some(7)));
    assert_eq!(service.canonical_branch(), Some(1));
    assert_eq!(service.get_balance("Alice"), Ok(1));
    assert_eq!(service.get_balance("Bob"), Ok(7));
}

#[test]
fn extension_moves_the_tip() {
    let mut service = ServiceImpl::new();
    service.ingest_block(&blocks::block_a()).unwrap();
    service.ingest_block(&blocks::block_b()).unwrap();
    assert_eq!(service.chains().len(), 1);
    assert_eq!(names(&service.chains()[0]), vec!["A", "B"]);
    assert_eq!(service.tip("A"), None);
    assert_eq!(service.tip("B"), Some(0));
    assert_eq!(service.tips(), vec![("B".to_string(), 0)]);
    assert_eq!(balances(&service, 0), (Some(10), Some(0)));
}

#[test]
fn extension_updates_the_branch_of_the_tip() {
    let mut service = ServiceImpl::new();
    service.ingest_block(&blocks::block_a()).unwrap();
    service.ingest_block(&blocks::block_e()).unwrap();
    service.ingest_block(&blocks::block_b()).unwrap();
    assert_eq!(names(&service.chains()[0]), vec!["A", "B"]);
    assert_eq!(names(&service.chains()[1]), vec!["E"]);
    assert_eq!(balances(&service, 0), (Some(10), Some(0)));
    assert_eq!(balances(&service, 1), (Some(1), Some(7)));
}

#[test]
fn incremental_ledger_equals_full_replay() {
    let mut service = ServiceImpl::new();
    service.ingest_block(&blocks::block_a()).unwrap();
    service.ingest_block(&blocks::block_c()).unwrap();
    service.ingest_block(&blocks::block_d()).unwrap();
    let rebuilt = blockchain_explorer::chain::rebuild(&service.chains()[0]).unwrap();
    assert_eq!(rebuilt.accounts(), service.states()[0].accounts());
    assert_eq!(balances(&service, 0), (Some(6), Some(4)));
}

#[test]
fn fork_leaves_the_forked_branch_alone() {
    let mut service = ServiceImpl::new();
    service.ingest_block(&blocks::block_a()).unwrap();
    service.ingest_block(&blocks::block_b()).unwrap();
    let chain = service.chains()[0].clone();
    let accounts = service.states()[0].accounts().clone();
    service.ingest_block(&blocks::block_c()).unwrap();
    assert_eq!(service.chains().len(), 2);
    assert_eq!(service.chains()[0], chain);
    assert_eq!(service.states()[0].accounts(), &accounts);
    assert_eq!(service.tip("B"), Some(0));
    assert_eq!(service.tip("C"), Some(1));
    assert_eq!(names(&service.chains()[1]), vec!["A", "C"]);
    assert_eq!(balances(&service, 0), (Some(10), Some(0)));
    assert_eq!(balances(&service, 1), (Some(8), Some(2)));
}

#[test]
fn fork_under_the_name_of_a_tip_takes_the_tip() {
    let mut service = ServiceImpl::new();
    service.ingest_block(&blocks::block_a()).unwrap();
    service.ingest_block(&blocks::block_b()).unwrap();
    let again = block("B", Some("A"), vec![transfer("Bob", "Alice", 1)]);
    service.ingest_block(&again).unwrap();
    assert_eq!(service.chains().len(), 2);
    assert_eq!(service.tip("B"), Some(1));
    assert_eq!(balances(&service, 0), (Some(10), Some(0)));
    assert_eq!(balances(&service, 1), (Some(6), Some(4)));
}

#[test]
fn fork_off_the_last_block_of_a_branch_that_lost_its_tip() {
    let mut service = ServiceImpl::new();
    service.ingest_block(&blocks::block_a()).unwrap();
    service.ingest_block(&blocks::block_a()).unwrap();
    service.ingest_block(&blocks::block_b()).unwrap();
    assert_eq!(names(&service.chains()[0]), vec!["A"]);
    assert_eq!(names(&service.chains()[1]), vec!["A", "B"]);
    assert_eq!(service.tip("A"), None);
    service.ingest_block(&blocks::block_c()).unwrap();
    assert_eq!(service.chains().len(), 4);
    assert_eq!(names(&service.chains()[2]), vec!["A", "C"]);
    assert_eq!(names(&service.chains()[3]), vec!["A", "C"]);
    assert_eq!(service.tip("C"), Some(3));
    assert_eq!(service.tips(), vec![("B".to_string(), 1), ("C".to_string(), 3)]);
}

#[test]
fn fork_off_every_branch_that_shares_the_parent() {
    let mut service = ServiceImpl::new();
    service.ingest_block(&blocks::block_a()).unwrap();
    service.ingest_block(&blocks::block_b()).unwrap();
    service.ingest_block(&blocks::block_c()).unwrap();
    let late = block("F", Some("A"), vec![mint("Bob", 1)]);
    service.ingest_block(&late).unwrap();
    assert_eq!(service.chains().len(), 4);
    assert_eq!(names(&service.chains()[2]), vec!["A", "F"]);
    assert_eq!(names(&service.chains()[3]), vec!["A", "F"]);
    assert_eq!(balances(&service, 2), (Some(5), Some(6)));
    assert_eq!(balances(&service, 3), (Some(5), Some(6)));
    assert_eq!(service.tip("F"), Some(3));
    assert_eq!(service.tip("B"), Some(0));
    assert_eq!(service.tip("C"), Some(1));
}

#[test]
fn fork_off_a_block_inside_a_branch() {
    let mut service = ServiceImpl::new();
    service.ingest_block(&blocks::block_a()).unwrap();
    service.ingest_block(&blocks::block_c()).unwrap();
    service.ingest_block(&blocks::block_d()).unwrap();
    let late = block("G", Some("C"), vec![transfer("Alice", "Bob", 8)]);
    service.ingest_block(&late).unwrap();
    assert_eq!(service.chains().len(), 2);
    assert_eq!(names(&service.chains()[0]), vec!["A", "C", "D"]);
    assert_eq!(names(&service.chains()[1]), vec!["A", "C", "G"]);
    assert_eq!(balances(&service, 0), (Some(6), Some(4)));
    assert_eq!(balances(&service, 1), (Some(0), Some(10)));
}

#[test]
fn orphan_is_dropped_without_an_error() {
    let mut service = ServiceImpl::new();
    service.ingest_block(&blocks::block_a()).unwrap();
    assert_eq!(service.ingest_block(&blocks::block_d()), Ok(()));
    assert_eq!(service.chains().len(), 1);
    assert_eq!(names(&service.chains()[0]), vec!["A"]);
    assert_eq!(service.tips(), vec![("A".to_string(), 0)]);
    assert_eq!(service.tip("D"), None);
    assert_eq!(balances(&service, 0), (Some(5), Some(5)));
}

#[test]
fn blocks_in_reverse_order_are_dropped_until_their_parents_are_known() {
    let mut service = ServiceImpl::new();
    assert_eq!(service.ingest_block(&blocks::block_d()), Ok(()));
    assert_eq!(service.ingest_block(&blocks::block_c()), Ok(()));
    assert!(service.chains().is_empty());
    assert_eq!(service.get_balance("Alice"), Ok(0));
    service.ingest_block(&blocks::block_a()).unwrap();
    assert_eq!(service.get_balance("Alice"), Ok(5));
    assert_eq!(service.get_balance("Bob"), Ok(5));
    service.ingest_block(&blocks::block_c()).unwrap();
    service.ingest_block(&blocks::block_d()).unwrap();
    assert_eq!(names(&service.chains()[0]), vec!["A", "C", "D"]);
    assert_eq!(service.get_balance("Alice"), Ok(6));
    assert_eq!(service.get_balance("Bob"), Ok(4));
}

#[test]
fn root_ingested_twice_is_a_second_branch_with_the_same_balances() {
    let mut service = ServiceImpl::new();
    service.ingest_block(&blocks::block_a()).unwrap();
    let alice = service.get_balance("Alice");
    let bob = service.get_balance("Bob");
    service.ingest_block(&blocks::block_a()).unwrap();
    assert_eq!(service.chains().len(), 2);
    assert_eq!(service.chains()[0], service.chains()[1]);
    assert_eq!(service.states()[0].accounts(), service.states()[1].accounts());
    assert_eq!(service.tip("A"), Some(1));
    assert_eq!(service.get_balance("Alice"), alice);
    assert_eq!(service.get_balance("Bob"), bob);
    assert_eq!(service.get_balance("Alice"), Ok(5));
}

#[test]
fn root_ingested_twice_beside_a_larger_branch_changes_no_answer() {
    let mut service = ServiceImpl::new();
    let wide = block("W", None, vec![mint("Alice", 1), mint("Bob", 2), mint("Carol", 3)]);
    service.ingest_block(&wide).unwrap();
    service.ingest_block(&blocks::block_a()).unwrap();
    assert_eq!(service.get_balance("Carol"), Ok(3));
    service.ingest_block(&blocks::block_a()).unwrap();
    assert_eq!(service.canonical_branch(), Some(0));
    assert_eq!(service.get_balance("Alice"), Ok(1));
    assert_eq!(service.get_balance("Carol"), Ok(3));
}

#[test]
fn canonical_is_the_branch_with_the_most_accounts() {
    let mut service = ServiceImpl::new();
    let wide = block("W", None, vec![mint("Alice", 1), mint("Bob", 2), mint("Carol", 3)]);
    service.ingest_block(&wide).unwrap();
    service.ingest_block(&blocks::block_a()).unwrap();
    service.ingest_block(&blocks::block_b()).unwrap();
    assert_eq!(service.canonical_branch(), Some(0));
    assert_eq!(service.get_balance("Alice"), Ok(1));
    assert_eq!(service.get_balance("Bob"), Ok(2));
}

#[test]
fn canonical_among_equals_is_the_newest() {
    let mut service = ServiceImpl::new();
    service.ingest_block(&blocks::block_a()).unwrap();
    service.ingest_block(&blocks::block_e()).unwrap();
    let one = block("S", None, vec![mint("Alice", 1)]);
    service.ingest_block(&one).unwrap();
    assert_eq!(service.canonical_branch(), Some(1));
    assert_eq!(service.get_balance("Alice"), Ok(1));
}

#[test]
fn canonical_counts_accounts_not_blocks() {
    let mut service = ServiceImpl::new();
    service.ingest_block(&blocks::block_a()).unwrap();
    service.ingest_block(&blocks::block_b()).unwrap();
    let wide = block("W", None, vec![mint("Alice", 1), mint("Bob", 2), mint("Carol", 3)]);
    service.ingest_block(&wide).unwrap();
    assert_eq!(service.canonical_branch(), Some(1));
    assert_eq!(service.get_balance("Alice"), Ok(1));
}

#[test]
fn empty_root_block_is_a_branch_without_accounts() {
    let mut service = ServiceImpl::new();
    service.ingest_block(&block("Z", None, Vec::new())).unwrap();
    assert_eq!(service.chains().len(), 1);
    assert_eq!(service.states()[0].len(), 0);
    assert_eq!(service.get_balance("Alice"), Ok(0));
}

#[test]
fn block_that_names_itself_extends_its_own_tip() {
    let mut service = ServiceImpl::new();
    service.ingest_block(&blocks::block_a()).unwrap();
    let own = block("A", Some("A"), vec![mint("Alice", 1)]);
    service.ingest_block(&own).unwrap();
    assert_eq!(service.chains().len(), 1);
    assert_eq!(names(&service.chains()[0]), vec!["A", "A"]);
    assert_eq!(service.tip("A"), Some(0));
    assert_eq!(balances(&service, 0), (Some(6), Some(5)));
}

#[test]
fn overflowing_root_is_refused_and_leaves_no_trace() {
    let mut service = ServiceImpl::new();
    service.ingest_block(&blocks::block_a()).unwrap();
    let heavy = block("H", None, vec![mint("Alice", u64::MAX), mint("Alice", 1)]);
    assert_eq!(service.ingest_block(&heavy), Err(ServiceError::BalanceOverflow));
    assert_eq!(service.chains().len(), 1);
    assert_eq!(service.states().len(), 1);
    assert_eq!(service.tip("H"), None);
    assert_eq!(service.tip("A"), Some(0));
    assert_eq!(service.get_balance("Alice"), Ok(5));
}

#[test]
fn overflowing_extension_is_refused_and_leaves_the_branch() {
    let mut service = ServiceImpl::new();
    service.ingest_block(&blocks::block_a()).unwrap();
    let heavy = block("H", Some("A"), vec![mint("Bob", 1), mint("Alice", u64::MAX)]);
    assert_eq!(service.ingest_block(&heavy), Err(ServiceError::BalanceOverflow));
    assert_eq!(names(&service.chains()[0]), vec!["A"]);
    assert_eq!(service.tip("A"), Some(0));
    assert_eq!(service.tip("H"), None);
    assert_eq!(balances(&service, 0), (Some(5), Some(5)));
    service.ingest_block(&blocks::block_b()).unwrap();
    assert_eq!(balances(&service, 0), (Some(10), Some(0)));
}

#[test]
fn overflowing_fork_is_refused_and_adds_no_branch() {
    let mut service = ServiceImpl::new();
    service.ingest_block(&blocks::block_a()).unwrap();
    service.ingest_block(&blocks::block_b()).unwrap();
    let heavy = block("H", Some("A"), vec![mint("Alice", u64::MAX)]);
    assert_eq!(service.ingest_block(&heavy), Err(ServiceError::BalanceOverflow));
    assert_eq!(service.chains().len(), 1);
    assert_eq!(service.states().len(), 1);
    assert_eq!(service.tips(), vec![("B".to_string(), 0)]);
    assert_eq!(service.get_balance("Alice"), Ok(10));
}

#[test]
fn block_clone_is_equal() {
    let block = blocks::block_a();
    assert_eq!(block.clone(), block);
    assert_eq!(block.block_id, "A");
    assert_eq!(block.parent_id, None);
    assert_eq!(block.transactions.len(), 2);
    assert_eq!(blocks::block_d().parent_id, Some("C".to_string()));
    assert_eq!(blocks::block_e().transactions[0], Transaction::Mint {
        tx_id: "A1".to_string(),
        to: "Alice".to_string(),
        amount: 8,
    });
}
