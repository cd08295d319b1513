use azurepath::cancel::{CancelRegistry, CancelToken};

#[test]
fn test_register_and_check() {
    let mut registry = CancelRegistry::new();
    let task_id = "test-1";
    assert!(!registry.contains(task_id));
    assert!(!registry.is_cancelled(task_id));

    registry.register(task_id);
    assert!(registry.contains(task_id));
    assert!(!registry.is_cancelled(task_id));
}

#[test]
fn test_cancel() {
    let mut registry = CancelRegistry::new();
    let task_id = "test-cancel";
    registry.register(task_id);
    assert!(!registry.is_cancelled(task_id));

    assert!(registry.cancel(task_id));
    assert!(registry.is_cancelled(task_id));
}

#[test]
fn test_cancel_non_existent_returns_false() {
    let mut registry = CancelRegistry::new();
    assert!(!registry.cancel("non-existent"));
}

#[test]
fn test_is_cancelled_non_existent() {
    let mut registry = CancelRegistry::new();
    assert!(!registry.is_cancelled("non-existent"));
}

#[test]
fn test_contains_non_existent() {
    let mut registry = CancelRegistry::new();
    assert!(!registry.contains("non-existent"));
}

#[test]
fn test_unregister() {
    let mut registry = CancelRegistry::new();
    let task_id = "test-unreg";
    registry.register(task_id);
    assert!(registry.contains(task_id));

    registry.unregister(task_id);
    assert!(!registry.contains(task_id));
    assert!(!registry.is_cancelled(task_id));
}

#[test]
fn test_take() {
    let mut registry = CancelRegistry::new();
    let task_id = "test-take";
    registry.register(task_id);
    assert!(registry.contains(task_id));

    let token = registry.take(task_id);
    assert!(token.is_some());
    assert!(!registry.contains(task_id));
    assert!(!token.unwrap().is_cancelled());
}

#[test]
fn test_take_non_existent() {
    let mut registry = CancelRegistry::new();
    assert!(registry.take("non-existent").is_none());
}

#[test]
fn test_cancel_token_independence() {
    let mut registry = CancelRegistry::new();
    registry.register("task-a");
    registry.register("task-b");

    registry.cancel("task-a");
    assert!(registry.is_cancelled("task-a"));
    assert!(!registry.is_cancelled("task-b"));
}

#[test]
fn test_double_cancel_is_idempotent() {
    let mut registry = CancelRegistry::new();
    let task_id = "test-double";
    registry.register(task_id);
    assert!(registry.cancel(task_id));
    assert!(registry.cancel(task_id));
    assert!(registry.is_cancelled(task_id));
}

#[test]
fn test_cancel_token_clone_shares_state() {
    let token1 = CancelToken::new();
    let token2 = token1.clone();

    assert!(!token1.is_cancelled());
    assert!(!token2.is_cancelled());

    token1.cancel();
    assert!(token1.is_cancelled());
    assert!(token2.is_cancelled());
}

#[test]
fn test_cancel_token_default() {
    let token: CancelToken = Default::default();
    assert!(!token.is_cancelled());
}

#[test]
fn test_is_cancelled_no_token() {
    // A task id without a token is not cancelled.
    let registry = CancelRegistry::new();
    assert!(!registry.is_cancelled("non-existent"));
}
