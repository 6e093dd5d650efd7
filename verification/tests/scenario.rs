use blockchain_explorer::blocks;
use blockchain_explorer::scenario::{record_ingestion, record_query};
use blockchain_explorer::text::decimal_string;
use blockchain_explorer::{Block, Event, Scenario, Service, ServiceError, ServiceImpl, Transaction};

fn heavy(id: &str) -> Block {
    Block {
        block_id: id.to_string(),
        parent_id: None,
        transactions: vec![
            Transaction::Mint { tx_id: "m".to_string(), to: "Alice".to_string(), amount: u64::MAX },
            Transaction::Mint { tx_id: "m".to_string(), to: "Alice".to_string(), amount: 1 },
        ],
    }
}

#[test]
fn decimal_of_zero() {
    assert_eq!(decimal_string(0), "0");
}

#[test]
fn decimal_of_single_digits() {
    assert_eq!(decimal_string(7), "7");
    assert_eq!(decimal_string(9), "9");
}

#[test]
fn decimal_keeps_inner_and_trailing_zeros() {
    assert_eq!(decimal_string(10), "10");
    assert_eq!(decimal_string(1002), "1002");
    assert_eq!(decimal_string(1234567890), "1234567890");
}

#[test]
fn decimal_of_the_largest_balance() {
    assert_eq!(decimal_string(u64::MAX), "18446744073709551615");
}

#[test]
fn decimal_agrees_with_the_standard_format() {
    for n in [0u64, 1, 9, 10, 11, 99, 100, 101, 4096, 999_999, 1_000_000, u64::MAX - 1] {
        assert_eq!(decimal_string(n), format!("{:?}", n));
    }
}

#[test]
fn show_balance_is_decimal() {
    assert_eq!(ServiceImpl::show_balance(&42), "42");
}

#[test]
fn error_messages() {
    assert_eq!(ServiceError::BalanceOverflow.message(), "balance overflow");
    assert_eq!(ServiceError::InvalidRegistry.message(), "invalid registry");
}

#[test]
fn empty_scenario_has_no_events() {
    let mut service = ServiceImpl::new();
    let scenario = Scenario { blocks: Vec::new(), queries: Vec::new() };
    assert_eq!(scenario.play_out(&mut service), Vec::new());
}

#[test]
fn queries_without_blocks_answer_zero() {
    let mut service = ServiceImpl::new();
    let scenario = Scenario { blocks: Vec::new(), queries: vec![blocks::alice(), blocks::bob()] };
    assert_eq!(
        scenario.play_out(&mut service),
        vec![
            Event::QueryResult("Alice".to_string(), "0".to_string()),
            Event::QueryResult("Bob".to_string(), "0".to_string()),
        ]
    );
}

#[test]
fn scenario_reports_ingestions_then_queries() {
    let mut service = ServiceImpl::new();
    let scenario = Scenario {
        blocks: vec![blocks::block_a(), blocks::block_b(), blocks::block_c(), blocks::block_d()],
        queries: vec![blocks::alice(), blocks::bob(), "Carol".to_string()],
    };
    assert_eq!(
        scenario.play_out(&mut service),
        vec![
            Event::BlockIngestion("A".to_string()),
            Event::BlockIngestion("B".to_string()),
            Event::BlockIngestion("C".to_string()),
            Event::BlockIngestion("D".to_string()),
            Event::QueryResult("Alice".to_string(), "6".to_string()),
            Event::QueryResult("Bob".to_string(), "4".to_string()),
            Event::QueryResult("Carol".to_string(), "0".to_string()),
        ]
    );
    assert_eq!(service.chains().len(), 2);
}

#[test]
fn scenario_goes_on_after_a_refused_block() {
    let mut service = ServiceImpl::new();
    let scenario = Scenario {
        blocks: vec![blocks::block_d(), heavy("H"), blocks::block_a()],
        queries: vec![blocks::alice()],
    };
    assert_eq!(
        scenario.play_out(&mut service),
        vec![
            Event::BlockIngestion("D".to_string()),
            Event::IngestionError("H".to_string(), "balance overflow".to_string()),
            Event::BlockIngestion("A".to_string()),
            Event::QueryResult("Alice".to_string(), "5".to_string()),
        ]
    );
}

#[test]
fn single_steps_report_the_same_events() {
    let mut service = ServiceImpl::new();
    assert_eq!(
        record_ingestion(&mut service, &blocks::block_a()),
        Event::BlockIngestion("A".to_string())
    );
    assert_eq!(
        record_ingestion(&mut service, &heavy("H")),
        Event::IngestionError("H".to_string(), "balance overflow".to_string())
    );
    assert_eq!(
        record_query(&service, &blocks::bob()),
        Event::QueryResult("Bob".to_string(), "5".to_string())
    );
    assert_eq!(
        record_query(&service, &"Dave".to_string()),
        Event::QueryResult("Dave".to_string(), "0".to_string())
    );
}
