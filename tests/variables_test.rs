use hyprlang::variables::VariableManager;

#[test]
fn test_basic_expansion() {
    let mut vm = VariableManager::new();
    vm.set("NAME".to_string(), "World".to_string());

    assert_eq!(vm.expand("Hello $NAME!").unwrap(), "Hello World!");
}

#[test]
fn test_recursive_expansion() {
    let mut vm = VariableManager::new();
    vm.set("A".to_string(), "value".to_string());
    vm.set("B".to_string(), "$A".to_string());
    vm.set("C".to_string(), "$B".to_string());

    assert_eq!(vm.expand("$C").unwrap(), "value");
}

#[test]
fn test_circular_dependency() {
    let mut vm = VariableManager::new();
    vm.set("A".to_string(), "$B".to_string());
    vm.set("B".to_string(), "$A".to_string());

    assert!(vm.expand("$A").is_err());
}

#[test]
fn test_undefined_variable() {
    let vm = VariableManager::new();
    // Undefined variables are left as-is
    assert_eq!(vm.expand("$UNDEFINED").unwrap(), "$UNDEFINED");
}

#[test]
fn test_multiple_variables() {
    let mut vm = VariableManager::new();
    vm.set("X".to_string(), "10".to_string());
    vm.set("Y".to_string(), "20".to_string());

    assert_eq!(vm.expand("$X + $Y").unwrap(), "10 + 20");
}

#[test]
fn test_variable_in_middle() {
    let mut vm = VariableManager::new();
    vm.set("VAR".to_string(), "middle".to_string());

    assert_eq!(vm.expand("start $VAR end").unwrap(), "start middle end");
}
