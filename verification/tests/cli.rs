use editor_91to9::cli::{start_dir_index, wants_gui};

fn args(list: &[&str]) -> Vec<String> {
    list.iter().map(|a| a.to_string()).collect()
}

#[test]
fn gui_flag_selects_window() {
    assert!(wants_gui(&args(&["--gui"])));
    assert!(wants_gui(&args(&["/tmp", "--gui"])));
    assert!(!wants_gui(&args(&["/tmp"])));
    assert!(!wants_gui(&args(&["--guix", "-gui"])));
    assert!(!wants_gui(&[]));
}

#[test]
fn first_directory_argument_is_start() {
    assert_eq!(start_dir_index(&[false, true, true]), Some(1));
    assert_eq!(start_dir_index(&[false, false]), None);
    assert_eq!(start_dir_index(&[]), None);
}
