use fresh_gui_app::tab_chrome::{panels_for_close_scope, TabCloseScope};

fn strings(items: &[&str]) -> Vec<String> {
    items.iter().map(|s| s.to_string()).collect()
}

#[test]
fn close_scope_matches_tab_order() {
    let order = strings(&["a", "b", "c", "d"]);
    assert!(panels_for_close_scope(&order, "missing", TabCloseScope::Others).is_empty());
    assert_eq!(
        panels_for_close_scope(&order, "b", TabCloseScope::Others),
        strings(&["a", "c", "d"])
    );
    assert_eq!(
        panels_for_close_scope(&order, "b", TabCloseScope::ToTheRight),
        strings(&["c", "d"])
    );
    assert!(panels_for_close_scope(&order, "d", TabCloseScope::ToTheRight).is_empty());
    assert_eq!(
        panels_for_close_scope(&strings(&["only"]), "only", TabCloseScope::Others),
        Vec::<String>::new()
    );
}

#[test]
fn closing_to_the_right_is_a_subset_of_closing_others() {
    let order = strings(&["a", "b", "c"]);
    let right = panels_for_close_scope(&order, "a", TabCloseScope::ToTheRight);
    let others = panels_for_close_scope(&order, "a", TabCloseScope::Others);
    assert!(right.iter().all(|p| others.contains(p)));
}
