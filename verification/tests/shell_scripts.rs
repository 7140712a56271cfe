use xneo::shell;

#[test]
fn test_shell_scripts_exist() {
    // Ensure all shell scripts are available
    assert!(!shell::FISH_INIT_SCRIPT.is_empty());
    assert!(!shell::BASH_INIT_SCRIPT.is_empty());
    assert!(!shell::ZSH_INIT_SCRIPT.is_empty());
    assert!(!shell::POWERSHELL_INIT_SCRIPT.is_empty());

    // Check that scripts contain expected functionality
    assert!(shell::FISH_INIT_SCRIPT.contains("function x"));
    assert!(shell::BASH_INIT_SCRIPT.contains("x() {"));
    assert!(shell::ZSH_INIT_SCRIPT.contains("x() {"));
    assert!(shell::POWERSHELL_INIT_SCRIPT.contains("function x"));
}

#[test]
fn init_script_by_shell_name() {
    assert_eq!(shell::init_script("fish"), Some(shell::FISH_INIT_SCRIPT));
    assert_eq!(shell::init_script("bash"), Some(shell::BASH_INIT_SCRIPT));
    assert_eq!(shell::init_script("zsh"), Some(shell::ZSH_INIT_SCRIPT));
    assert_eq!(shell::init_script("powershell"), None);
    assert_eq!(shell::init_script(""), None);
    assert_eq!(shell::init_script("Fish"), None);
}
