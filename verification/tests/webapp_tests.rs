use exam_scan::webapp::{NavClicks, ViewType, WebApp};

fn clicks(generate_report: bool, create_template: bool, create_key: bool, help: bool) -> NavClicks {
    NavClicks { generate_report, create_template, create_key, help }
}

#[test]
fn opens_on_help() {
    let app = WebApp::default();
    assert_eq!(app.current_view(), ViewType::Help);
}

#[test]
fn a_click_shows_its_page() {
    let mut app = WebApp::default();
    app.navigate(clicks(true, false, false, false));
    assert_eq!(app.current_view(), ViewType::GenerateReport);
    app.navigate(clicks(false, true, false, false));
    assert_eq!(app.current_view(), ViewType::CreateTemplate);
    app.navigate(clicks(false, false, true, false));
    assert_eq!(app.current_view(), ViewType::CreateKey);
    app.navigate(clicks(false, false, false, true));
    assert_eq!(app.current_view(), ViewType::Help);
}

#[test]
fn no_click_keeps_the_page() {
    let mut app = WebApp::default();
    app.navigate(clicks(false, false, true, false));
    app.navigate(clicks(false, false, false, false));
    assert_eq!(app.current_view(), ViewType::CreateKey);
}

#[test]
fn the_last_button_in_the_bar_wins() {
    let mut app = WebApp::default();
    app.navigate(clicks(true, true, false, false));
    assert_eq!(app.current_view(), ViewType::CreateTemplate);
    app.navigate(clicks(true, false, true, true));
    assert_eq!(app.current_view(), ViewType::Help);
}
