use service_report::summary::parse_summary;

fn pair(a: &str, b: &str) -> Option<(String, String)> {
    Some((a.to_string(), b.to_string()))
}

#[test]
fn colon_form_names_service_and_client() {
    assert_eq!(parse_summary("Explicação: Maria", None), pair("Explicação", "Maria"));
}

#[test]
fn dash_form_names_service_and_client() {
    assert_eq!(parse_summary("Tutoring - Joana", None), pair("Tutoring", "Joana"));
}

#[test]
fn pieces_are_trimmed() {
    assert_eq!(parse_summary("  Tutoring  :  Joana  ", None), pair("Tutoring", "Joana"));
    assert_eq!(parse_summary("  Tutoring:   Joana  ", None), pair("Tutoring", "Joana"));
}

#[test]
fn client_alone_gets_default_service() {
    assert_eq!(parse_summary("  Maria ", None), pair("Service", "Maria"));
}

#[test]
fn blank_summary_names_nobody() {
    assert_eq!(parse_summary("   ", None), None);
    assert_eq!(parse_summary("", None), None);
}

#[test]
fn prefix_must_start_the_summary() {
    assert_eq!(parse_summary("Math: Ana", Some("Explicação")), None);
    assert_eq!(parse_summary("Explicação: Ana", Some("Explicação")), pair("Explicação", "Ana"));
}

#[test]
fn prefix_gives_no_default_service() {
    assert_eq!(parse_summary("Explicação Ana", Some("Explicação")), None);
}

#[test]
fn two_separators_are_not_a_pair() {
    assert_eq!(parse_summary("A: B: C", None), pair("Service", "A: B: C"));
    assert_eq!(parse_summary("A: B: C", Some("A")), None);
}

#[test]
fn colon_form_is_read_before_dash_form() {
    assert_eq!(parse_summary("A - B: C", None), pair("A - B", "C"));
    assert_eq!(parse_summary("Piano - Rui", Some("Pi")), pair("Piano", "Rui"));
}

#[test]
fn empty_piece_falls_back_to_the_whole_summary() {
    assert_eq!(parse_summary("Tutoring:   ", None), pair("Service", "Tutoring:"));
    assert_eq!(parse_summary("Piano - ", None), pair("Service", "Piano -"));
    assert_eq!(parse_summary("Piano - ", Some("Piano")), None);
}
