use hyprlang::mutation::MutableVariable;
use hyprlang::variables::VariableManager;

#[test]
fn test_mutable_variable() {
    let mut manager = VariableManager::new();
    manager.set("TEST".to_string(), "value1".to_string());

    {
        let mut var = MutableVariable::new("TEST".to_string(), &mut manager, None);
        assert_eq!(var.get(), "value1");
        assert_eq!(var.name(), "TEST");

        var.set("value2").unwrap();
        assert_eq!(var.get(), "value2");
    }

    // Verify the change persisted
    assert_eq!(manager.get("TEST").unwrap(), "value2");
}
