use vole::autostart::{create_task_args, delete_task_args, disable, enable, is_enabled, query_task_args, TASK_NAME};

#[test]
fn create_task_args_should_quote_the_program() {
    assert_eq!(
        create_task_args(r"C:\Program Files\VOLE\vole.exe"),
        vec![
            "/Create",
            "/TN",
            "VOLE Autostart",
            "/TR",
            "\"C:\\Program Files\\VOLE\\vole.exe\"",
            "/SC",
            "ONLOGON",
            "/RL",
            "HIGHEST",
            "/F",
        ]
    );
}

#[test]
fn delete_and_query_args_should_name_the_task() {
    assert_eq!(delete_task_args(), vec!["/Delete", "/TN", TASK_NAME, "/F"]);
    assert_eq!(query_task_args(), vec!["/Query", "/TN", TASK_NAME]);
}

#[test]
fn autostart_should_be_off_and_settable_off_windows() {
    assert!(!is_enabled());
    assert!(enable().is_ok());
    assert!(disable().is_ok());
    assert!(vole::autostart::set(true).is_ok());
    assert!(vole::autostart::set(false).is_ok());
    assert!(!is_enabled());
}
