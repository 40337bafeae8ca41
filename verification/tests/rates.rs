use service_report::rate_page::{rates_markdown, RateLine};
use service_report::rates::{
    build_cost_lookup, client_cost_lookup, lookup_pairs, rates_table, remove_student_rate, set_student_rate,
    with_rate, without_name, RatesConfig, RatesError, ServiceCost,
};

fn r(x: f64) -> u64 {
    x.to_bits()
}

fn service(name: &str, rates: Option<Vec<(&str, f64)>>) -> ServiceCost {
    ServiceCost {
        name: name.to_string(),
        per_person_hourly: rates.map(|v| v.into_iter().map(|(n, x)| (n.to_string(), r(x))).collect()),
    }
}

fn sample() -> RatesConfig {
    RatesConfig {
        service_costs: Some(vec![
            service("Explicação", Some(vec![("Maria", 15.0), ("Rui", 20.0)])),
            service("Piano", Some(vec![("Rui", 25.0)])),
            service("Xadrez", None),
        ]),
    }
}

fn rate_in(config: &RatesConfig, service_name: &str, student: &str) -> Option<u64> {
    let services = config.service_costs.as_ref()?;
    let s = services.iter().find(|s| s.name == service_name)?;
    lookup_pairs(s.per_person_hourly.as_ref()?, &student.to_string())
}

fn service_names(config: &RatesConfig) -> Vec<String> {
    config.service_costs.as_ref().unwrap().iter().map(|s| s.name.clone()).collect()
}

#[test]
fn pairs_lookup_update_and_removal() {
    let pairs = vec![("Ana".to_string(), 1u64), ("Rui".to_string(), 2u64)];
    assert_eq!(lookup_pairs(&pairs, &"Rui".to_string()), Some(2));
    assert_eq!(lookup_pairs(&pairs, &"Eva".to_string()), None);
    let updated = with_rate(pairs.clone(), "Rui".to_string(), 7u64);
    assert_eq!(updated, vec![("Ana".to_string(), 1u64), ("Rui".to_string(), 7u64)]);
    let added = with_rate(pairs.clone(), "Eva".to_string(), 3u64);
    assert_eq!(lookup_pairs(&added, &"Eva".to_string()), Some(3));
    assert_eq!(added.len(), 3);
    let removed = without_name(pairs, &"Ana".to_string());
    assert_eq!(removed, vec![("Rui".to_string(), 2u64)]);
}

#[test]
fn cost_lookup_by_service() {
    let lookup = build_cost_lookup(&sample());
    assert_eq!(lookup.len(), 2);
    let explicacao = &lookup.iter().find(|(n, _)| n == "Explicação").unwrap().1;
    assert_eq!(lookup_pairs(explicacao, &"Maria".to_string()), Some(r(15.0)));
    let piano = &lookup.iter().find(|(n, _)| n == "Piano").unwrap().1;
    assert_eq!(lookup_pairs(piano, &"Rui".to_string()), Some(r(25.0)));
    assert!(lookup.iter().all(|(n, _)| n != "Xadrez"));
}

#[test]
fn cost_lookup_without_services_is_empty() {
    assert!(build_cost_lookup(&RatesConfig { service_costs: None }).is_empty());
    assert!(client_cost_lookup(&RatesConfig { service_costs: None }).is_empty());
}

#[test]
fn client_lookup_takes_the_last_service_rate() {
    let lookup = client_cost_lookup(&sample());
    assert_eq!(lookup.len(), 2);
    assert_eq!(lookup_pairs(&lookup, &"Maria".to_string()), Some(r(15.0)));
    assert_eq!(lookup_pairs(&lookup, &"Rui".to_string()), Some(r(25.0)));
}

#[test]
fn rates_table_is_sorted_by_student() {
    let config = RatesConfig {
        service_costs: Some(vec![service("S", Some(vec![("Rui", 20.0), ("Ana", 10.0), ("Maria", 15.0)]))]),
    };
    assert_eq!(
        rates_table(&config),
        vec![("Ana".to_string(), r(10.0)), ("Maria".to_string(), r(15.0)), ("Rui".to_string(), r(20.0))]
    );
    assert!(rates_table(&RatesConfig { service_costs: None }).is_empty());
}

#[test]
fn new_rate_replaces_the_rate_wherever_the_student_has_one() {
    let config = set_student_rate(sample(), "Rui".to_string(), r(30.0), None);
    assert_eq!(rate_in(&config, "Explicação", "Rui"), Some(r(30.0)));
    assert_eq!(rate_in(&config, "Piano", "Rui"), Some(r(30.0)));
    assert_eq!(rate_in(&config, "Explicação", "Maria"), Some(r(15.0)));
    assert_eq!(service_names(&config), vec!["Explicação", "Piano", "Xadrez"]);
}

#[test]
fn new_student_goes_to_the_first_service() {
    let config = set_student_rate(sample(), "Joana".to_string(), r(15.0), None);
    assert_eq!(rate_in(&config, "Explicação", "Joana"), Some(r(15.0)));
    assert_eq!(rate_in(&config, "Piano", "Joana"), None);
    let table = rates_table(&config);
    assert_eq!(lookup_pairs(&table, &"Joana".to_string()), Some(r(15.0)));
}

#[test]
fn first_rate_without_services_makes_a_default_service() {
    let config = set_student_rate(RatesConfig { service_costs: None }, "Joana".to_string(), r(15.0), None);
    assert_eq!(service_names(&config), vec!["Default"]);
    assert_eq!(rate_in(&config, "Default", "Joana"), Some(r(15.0)));
    let config = set_student_rate(RatesConfig { service_costs: Some(vec![]) }, "Joana".to_string(), r(15.0), None);
    assert_eq!(service_names(&config), vec!["Default"]);
}

#[test]
fn new_rate_in_a_named_service() {
    let config = set_student_rate(sample(), "Maria".to_string(), r(40.0), Some("Piano".to_string()));
    assert_eq!(rate_in(&config, "Piano", "Maria"), Some(r(40.0)));
    assert_eq!(rate_in(&config, "Explicação", "Maria"), Some(r(15.0)));
    let config = set_student_rate(config, "Eva".to_string(), r(12.0), Some("Xadrez".to_string()));
    assert_eq!(rate_in(&config, "Xadrez", "Eva"), Some(r(12.0)));
}

#[test]
fn new_rate_in_an_unknown_service_adds_it() {
    let config = set_student_rate(sample(), "Maria".to_string(), r(40.0), Some("Canto".to_string()));
    assert_eq!(service_names(&config), vec!["Explicação", "Piano", "Xadrez", "Canto"]);
    assert_eq!(rate_in(&config, "Canto", "Maria"), Some(r(40.0)));
}

#[test]
fn removing_a_rate_takes_it_from_every_service() {
    let config = remove_student_rate(sample(), &"Rui".to_string()).unwrap();
    assert_eq!(rate_in(&config, "Explicação", "Rui"), None);
    assert_eq!(rate_in(&config, "Piano", "Rui"), None);
    assert_eq!(rate_in(&config, "Explicação", "Maria"), Some(r(15.0)));
    assert_eq!(service_names(&config), vec!["Explicação", "Piano", "Xadrez"]);
}

#[test]
fn removing_an_unknown_student_is_refused() {
    assert_eq!(remove_student_rate(sample(), &"Eva".to_string()).err(), Some(RatesError::StudentNotFound));
    assert_eq!(
        remove_student_rate(RatesConfig { service_costs: None }, &"Eva".to_string()).err(),
        Some(RatesError::StudentNotFound)
    );
    let no_rates = RatesConfig { service_costs: Some(vec![service("Xadrez", None)]) };
    assert_eq!(remove_student_rate(no_rates, &"Eva".to_string()).err(), Some(RatesError::StudentNotFound));
}

#[test]
fn a_rate_set_reads_back_and_others_stay() {
    let before = rates_table(&sample());
    let after = rates_table(&set_student_rate(sample(), "Maria".to_string(), r(18.5), None));
    assert_eq!(lookup_pairs(&after, &"Maria".to_string()), Some(r(18.5)));
    assert_eq!(lookup_pairs(&after, &"Rui".to_string()), lookup_pairs(&before, &"Rui".to_string()));
}

#[test]
fn removing_a_rate_just_set_restores_the_other_rates() {
    let before = rates_table(&sample());
    let set = set_student_rate(sample(), "Joana".to_string(), r(15.0), Some("Canto".to_string()));
    let after = remove_student_rate(set, &"Joana".to_string()).unwrap();
    assert_eq!(rates_table(&after), before);
}

fn page_text(l: &RateLine) -> Option<&str> {
    match l {
        RateLine::Text(t) => Some(t.as_str()),
        RateLine::Rate { .. } => None,
    }
}

#[test]
fn rates_page_lists_clients_in_order() {
    let rows = rates_table(&sample());
    let page = rates_markdown(&rows);
    assert_eq!(page.len(), 6);
    assert_eq!(page_text(&page[0]), Some("# Rates"));
    assert_eq!(page_text(&page[1]), Some(""));
    assert_eq!(page_text(&page[2]), Some("| Student | Hourly Rate |"));
    assert_eq!(page_text(&page[3]), Some("| --- | ---: |"));
    match &page[4] {
        RateLine::Rate { student, rate } => assert_eq!((student.as_str(), *rate), ("Maria", r(15.0))),
        RateLine::Text(_) => panic!("expected a rate"),
    }
    match &page[5] {
        RateLine::Rate { student, rate } => assert_eq!((student.as_str(), *rate), ("Rui", r(25.0))),
        RateLine::Text(_) => panic!("expected a rate"),
    }
}

#[test]
fn rates_page_without_rates_says_so() {
    let page = rates_markdown(&vec![]);
    assert_eq!(page.len(), 5);
    assert_eq!(page_text(&page[4]), Some("No rates configured."));
}
