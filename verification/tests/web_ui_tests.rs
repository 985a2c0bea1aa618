use highlight_check::web_ui::get_available_port;

#[test]
fn picks_the_first_free_port() {
    let mut available = vec![false; 4000];
    available[3] = true;
    available[10] = true;
    assert_eq!(get_available_port(&available), Some(8003));
}

#[test]
fn none_when_every_port_is_taken() {
    let available = vec![false; 4000];
    assert_eq!(get_available_port(&available), None);
}

#[test]
fn first_and_last_candidates_are_reachable() {
    let mut available = vec![false; 4000];
    available[0] = true;
    assert_eq!(get_available_port(&available), Some(8000));

    let mut available = vec![false; 4000];
    available[3999] = true;
    assert_eq!(get_available_port(&available), Some(11999));
}
