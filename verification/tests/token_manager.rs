use concurrency_kit::token_manager::{TokenAcquirer, TokenManager};
use std::cell::Cell;
use std::rc::Rc;

#[test]
fn a_new_manager_contains_no_token() {
    let a: Box<TokenAcquirer> = Box::new(|| Err("failure".to_string()));
    let manager = TokenManager::new(a);
    assert!(manager.try_get_token(0).is_none());
}

#[test]
fn a_failing_acquirer_always_returns_an_error() {
    let a: Box<TokenAcquirer> = Box::new(|| Err("failure".to_string()));
    let mut manager = TokenManager::new(a);
    assert_eq!(manager.get_token(0), Err("failure".to_string()));
    assert_eq!(manager.get_token(0), Err("failure".to_string()));
}

#[test]
fn a_valid_token_is_reused_until_it_expires() {
    let calls = Rc::new(Cell::new(0u64));
    let counter = Rc::clone(&calls);
    let acquire = move || {
        counter.set(counter.get() + 1);
        Ok((format!("token{}", counter.get()), 10 * counter.get()))
    };
    let mut manager = TokenManager::new(acquire);
    assert_eq!(manager.get_token(0), Ok("token1".to_string()));
    assert_eq!(manager.get_token(5), Ok("token1".to_string()));
    assert_eq!(manager.get_token(10), Ok("token1".to_string()));
    assert_eq!(calls.get(), 1);
    assert_eq!(manager.get_token(11), Ok("token2".to_string()));
    assert_eq!(calls.get(), 2);
}

#[test]
fn a_failed_acquisition_is_retried_on_the_next_request() {
    let calls = Rc::new(Cell::new(0u64));
    let counter = Rc::clone(&calls);
    let acquire = move || {
        counter.set(counter.get() + 1);
        if counter.get() == 1 {
            Err("down".to_string())
        } else {
            Ok(("fresh".to_string(), 100))
        }
    };
    let mut manager = TokenManager::new(acquire);
    assert_eq!(manager.get_token(0), Err("failure".to_string()));
    assert_eq!(manager.get_token(1), Ok("fresh".to_string()));
    assert_eq!(manager.try_get_token(50), Some(Ok("fresh".to_string())));
    assert_eq!(manager.try_get_token(101), None);
    assert_eq!(calls.get(), 3);
}

const SECOND: u64 = 1_000;

#[test]
fn a_successful_acquirer_always_returns_success() {
    let a: Box<TokenAcquirer> = Box::new(|| Ok(("bobo".to_string(), 10 * SECOND)));

    let mut manager = TokenManager::new(a);

    assert_eq!(manager.get_token(0), Ok("bobo".to_string()));

    let prova: Box<TokenAcquirer> = Box::new(|| Ok(("failure".to_string(), 15 * SECOND + 10 * SECOND)));

    manager.replace_acquirer(prova);

    assert_eq!(manager.get_token(15 * SECOND), Ok("failure".to_string()));
}

#[test]
fn try_get_token_hands_back_the_acquirers_error() {
    let calls = Rc::new(Cell::new(0u64));
    let counter = Rc::clone(&calls);
    let acquire = move || {
        counter.set(counter.get() + 1);
        if counter.get() == 1 {
            Ok(("first".to_string(), 100))
        } else {
            Err("down".to_string())
        }
    };
    let mut manager = TokenManager::new(acquire);
    assert_eq!(manager.get_token(0), Ok("first".to_string()));
    assert_eq!(manager.try_get_token(1), Some(Err("down".to_string())));
}
